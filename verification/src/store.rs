//! The dense bucket store: per-index counters over a window of at most
//! `max_num_bins` consecutive indices.  When an added index would widen the
//! window beyond that capacity, the store collapses: it keeps the highest
//! `max_num_bins` indices and folds everything below the new boundary into
//! the lowest surviving bucket; from then on the boundary never moves down.
use crate::buffer::Input;
use crate::buffer::Output;
use crate::error::Error;
use crate::flag::Flag;
use crate::flag::FlagType;
use crate::varenc::decode_signed_var_long;
use crate::varenc::decode_unsigned_var_long;
use crate::varenc::decode_var_double_count;
use crate::varenc::encode_signed_var_long;
use crate::varenc::encode_unsigned_var_long;
use crate::varenc::encode_var_double_count;
use crate::varenc::lemma_unzigzag;
use crate::varenc::parse_uvar;
use crate::varenc::ParseFail;
use crate::varenc::parse_vd_count;
use crate::varenc::svar_bytes;
use crate::varenc::unzigzag;
use crate::varenc::uvar_bytes;
use crate::varenc::zigzag;
use crate::varenc::vd_bytes;
use crate::varenc::MAX_WIRE_COUNT;
use vstd::pervasive::VecAdditionalExecFns;
use vstd::prelude::*;

verus! {

/// The three layouts a store's buckets can take on the wire.
#[derive(Clone, Copy, Debug, PartialEq, Eq, Structural)]
pub enum BinEncodingMode {
    IndexDeltasAndCounts,
    IndexDeltas,
    ContiguousCounts,
}

impl BinEncodingMode {
    /// The sub-marker of this mode inside a store flag.
    pub open spec fn spec_sub_flag(self) -> u8 {
        match self {
            BinEncodingMode::IndexDeltasAndCounts => 1,
            BinEncodingMode::IndexDeltas => 2,
            BinEncodingMode::ContiguousCounts => 3,
        }
    }

    /// Reads the mode out of a store flag byte; fails exactly on a marker
    /// that names no mode.
    pub fn of_flag(marker: u8) -> (r: Result<BinEncodingMode, Error>)
        ensures
            match r {
                Ok(m) => marker / 4 == m.spec_sub_flag(),
                Err(e) => (marker / 4 == 0 || marker / 4 > 3) && e matches Error::InvalidArgument(
                    _,
                ),
            },
    {
        let index = marker / 4;
        if index == 1 {
            Ok(BinEncodingMode::IndexDeltasAndCounts)
        } else if index == 2 {
            Ok(BinEncodingMode::IndexDeltas)
        } else if index == 3 {
            Ok(BinEncodingMode::ContiguousCounts)
        } else {
            Err(Error::InvalidArgument("Unknown BinEncodingMode."))
        }
    }

    /// The flag announcing buckets of this mode for the given store.
    pub fn to_flag(self, store_flag_type: FlagType) -> (r: Flag)
        ensures
            r.spec_marker() == Flag::spec_with_type(store_flag_type, self.spec_sub_flag()),
    {
        let sub_flag = match self {
            BinEncodingMode::IndexDeltasAndCounts => 1,
            BinEncodingMode::IndexDeltas => 2,
            BinEncodingMode::ContiguousCounts => 3,
        };
        Flag::with_type(store_flag_type, sub_flag)
    }
}

/// A dense counter array: slot `j` counts bucket `offset + j`.
/// `min_index ..= max_index` is the touched range; all mass sits there.
pub struct CollapsingLowestDenseStore {
    counts: Vec<u64>,
    offset: i64,
    min_index: i64,
    max_index: i64,
    max_num_bins: usize,
    is_collapsed: bool,
    total: u64,
}

impl CollapsingLowestDenseStore {
    /// The configured maximum number of distinct buckets.
    pub closed spec fn cap(self) -> nat {
        self.max_num_bins as nat
    }

    pub closed spec fn is_empty_spec(self) -> bool {
        self.counts@.len() == 0
    }

    pub closed spec fn min_spec(self) -> int {
        self.min_index as int
    }

    pub closed spec fn max_spec(self) -> int {
        self.max_index as int
    }

    pub closed spec fn collapsed_spec(self) -> bool {
        self.is_collapsed
    }

    pub closed spec fn offset_spec(self) -> int {
        self.offset as int
    }

    /// The count of bucket `i`: a slot of the touched range, zero anywhere
    /// else.
    pub closed spec fn count_at(self, i: int) -> nat {
        if !self.is_empty_spec() && self.min_spec() <= i <= self.max_spec() {
            self.counts@[i - self.offset_spec()] as nat
        } else {
            0
        }
    }

    /// The sum of the counts of buckets `lo ..< hi`.
    pub open spec fn sum_counts(self, lo: int, hi: int) -> nat
        decreases hi - lo,
    {
        if lo >= hi {
            0
        } else {
            self.sum_counts(lo, hi - 1) + self.count_at(hi - 1)
        }
    }

    /// The total mass of the store.
    pub closed spec fn total_spec(self) -> nat {
        self.total as nat
    }

    /// The store's observable state.
    pub open spec fn model(self) -> StoreModel {
        StoreModel {
            counts: Map::total(|j: int| self.count_at(j)),
            min: if self.is_empty_spec() {
                0
            } else {
                self.min_spec()
            },
            max: if self.is_empty_spec() {
                0
            } else {
                self.max_spec()
            },
            collapsed: if self.is_empty_spec() {
                false
            } else {
                self.collapsed_spec()
            },
            empty: self.is_empty_spec(),
            cap: self.cap(),
        }
    }

    pub closed spec fn wf(self) -> bool {
        &&& 1 <= self.max_num_bins <= 0x7FFF_FFFF
        &&& if self.counts@.len() == 0 {
            !self.is_collapsed && self.total == 0
        } else {
            &&& self.counts@.len() == self.max_num_bins
            &&& i32::MIN <= self.min_index <= self.max_index <= i32::MAX
            &&& self.offset <= self.min_index
            &&& self.max_index <= self.offset + self.max_num_bins - 1
            &&& forall|j: int|
                0 <= j < self.counts@.len() && (self.offset + j < self.min_index || self.offset + j
                    > self.max_index) ==> self.counts@[j] == 0
            &&& self.total as nat == self.sum_counts(
                self.offset as int,
                self.offset + self.max_num_bins,
            )
        }
    }

    /// Creates an empty store that will hold at most `max_num_bins`
    /// buckets; fails exactly when the capacity is zero or beyond the
    /// 32-bit index domain.
    pub fn with_capacity(max_num_bins: usize) -> (r: Result<CollapsingLowestDenseStore, Error>)
        ensures
            match r {
                Ok(s) => 1 <= max_num_bins <= 0x7FFF_FFFF && s.wf() && s.is_empty_spec() && s.cap()
                    == max_num_bins && s.total_spec() == 0,
                Err(e) => (max_num_bins == 0 || max_num_bins > 0x7FFF_FFFF) && e
                    matches Error::InvalidArgument(_),
            },
    {
        if max_num_bins == 0 || max_num_bins > 0x7FFF_FFFF {
            return Err(
                Error::InvalidArgument("The maximum number of bins must be a positive 32-bit count."),
            );
        }
        Ok(
            CollapsingLowestDenseStore {
                counts: Vec::new(),
                offset: 0,
                min_index: 0,
                max_index: 0,
                max_num_bins,
                is_collapsed: false,
                total: 0,
            },
        )
    }

    pub fn is_empty(&self) -> (r: bool)
        ensures
            r == self.is_empty_spec(),
    {
        self.counts.len() == 0
    }

    pub fn get_total_count(&self) -> (r: u64)
        ensures
            r == self.total_spec(),
    {
        self.total
    }

    pub fn get_offset(&self) -> (r: i64)
        ensures
            r == self.offset_spec(),
    {
        self.offset
    }

    pub fn get_min_index(&self) -> (r: i32)
        requires
            self.wf(),
            !self.is_empty_spec(),
        ensures
            r == self.min_spec(),
    {
        self.min_index as i32
    }

    pub fn get_max_index(&self) -> (r: i32)
        requires
            self.wf(),
            !self.is_empty_spec(),
        ensures
            r == self.max_spec(),
    {
        self.max_index as i32
    }

    /// The count in slot `i` of the dense array, i.e. of bucket
    /// `offset + i`.
    pub fn get_count(&self, i: usize) -> (r: u64)
        requires
            self.wf(),
            !self.is_empty_spec(),
            i < self.cap(),
        ensures
            r == self.count_at(self.offset_spec() + i),
    {
        self.counts[i]
    }

    /// The count of the absolute bucket `index`.
    pub fn get_count_at(&self, index: i32) -> (r: u64)
        requires
            self.wf(),
        ensures
            r == self.count_at(index as int),
    {
        if self.counts.len() == 0 {
            return 0;
        }
        let idx = index as i64;
        if idx < self.min_index || idx > self.max_index {
            return 0;
        }
        self.counts[(idx - self.offset) as usize]
    }

    /// Drops all buckets; the capacity stays.
    pub fn clear(&mut self)
        requires
            old(self).wf(),
        ensures
            final(self).wf(),
            final(self).is_empty_spec(),
            final(self).cap() == old(self).cap(),
            final(self).total_spec() == 0,
            !final(self).collapsed_spec(),
    {
        self.counts = Vec::new();
        self.offset = 0;
        self.min_index = 0;
        self.max_index = 0;
        self.is_collapsed = false;
        self.total = 0;
    }
}


/// The observable state of a store: a total map from bucket index to
/// count, the touched range, the collapse flag and the capacity.
#[verifier::ext_equal]
pub struct StoreModel {
    pub counts: Map<int, nat>,
    pub min: int,
    pub max: int,
    pub collapsed: bool,
    pub empty: bool,
    pub cap: nat,
}

/// The sum of a model's counts over `lo ..< hi`.
pub open spec fn sum_model(counts: Map<int, nat>, lo: int, hi: int) -> nat
    decreases hi - lo,
{
    if lo >= hi {
        0
    } else {
        sum_model(counts, lo, hi - 1) + counts[hi - 1]
    }
}

/// What one `add` does, as a function on the model: the window forms
/// around the first index; below the boundary of a collapsed store the
/// mass lands on the boundary; inside the capacity the named bucket grows
/// and the touched range widens; beyond it the lowest buckets fold into
/// the new boundary `max - cap + 1` and the store is collapsed.
pub open spec fn spec_add(m: StoreModel, i: int, c: nat) -> StoreModel {
    if m.empty {
        StoreModel {
            counts: Map::total(
                |j: int|
                    if j == i {
                        c
                    } else {
                        0
                    },
            ),
            min: i,
            max: i,
            collapsed: false,
            empty: false,
            cap: m.cap,
        }
    } else if m.collapsed && i < m.min {
        StoreModel {
            counts: Map::total(
                |j: int|
                    m.counts[j] + if j == m.min {
                        c
                    } else {
                        0
                    },
            ),
            min: m.min,
            max: m.max,
            collapsed: m.collapsed,
            empty: false,
            cap: m.cap,
        }
    } else if vstd::math::max(m.max, i) - vstd::math::min(m.min, i) + 1 <= m.cap {
        StoreModel {
            counts: Map::total(
                |j: int|
                    m.counts[j] + if j == i {
                        c
                    } else {
                        0
                    },
            ),
            min: vstd::math::min(m.min, i),
            max: vstd::math::max(m.max, i),
            collapsed: m.collapsed,
            empty: false,
            cap: m.cap,
        }
    } else {
        let b = vstd::math::max(m.max, i) - m.cap + 1;
        StoreModel {
            counts: Map::total(
                |j: int|
                    if j < b {
                        0
                    } else if j == b {
                        sum_model(m.counts, m.min, b + 1) + (if i <= b {
                            c
                        } else {
                            0
                        })
                    } else {
                        m.counts[j] + if j == i {
                            c
                        } else {
                            0
                        }
                    },
            ),
            min: b,
            max: vstd::math::max(m.max, i),
            collapsed: true,
            empty: false,
            cap: m.cap,
        }
    }
}

/// A sequence of `add` calls, first bin first.
pub open spec fn fold_add(m: StoreModel, bins: Seq<(i32, u64)>) -> StoreModel
    decreases bins.len(),
{
    if bins.len() == 0 {
        m
    } else {
        spec_add(fold_add(m, bins.drop_last()), bins.last().0 as int, bins.last().1 as nat)
    }
}

/// The non-empty buckets of `lo ..< i`, lowest first.
pub open spec fn ascending_bins(s: CollapsingLowestDenseStore, lo: int, i: int) -> Seq<(i32, u64)>
    decreases i - lo,
{
    if i <= lo {
        Seq::<(i32, u64)>::empty()
    } else if s.count_at(i - 1) != 0 && i32::MIN <= i - 1 <= i32::MAX {
        ascending_bins(s, lo, i - 1) + seq![((i - 1) as i32, s.count_at(i - 1) as u64)]
    } else {
        ascending_bins(s, lo, i - 1)
    }
}

/// The model's sums agree with the store's.
proof fn lemma_sum_model(s: CollapsingLowestDenseStore, lo: int, hi: int)
    ensures
        sum_model(s.model().counts, lo, hi) == s.sum_counts(lo, hi),
    decreases hi - lo,
{
    if lo < hi {
        lemma_sum_model(s, lo, hi - 1);
    }
}

/// The facts `add` ensures pin its model transition exactly.
pub proof fn lemma_add_model(
    olds: CollapsingLowestDenseStore,
    news: CollapsingLowestDenseStore,
    i: int,
    c: nat,
)
    requires
        !news.is_empty_spec(),
        news.cap() == olds.cap(),
        (if olds.is_empty_spec() {
            &&& news.min_spec() == i
            &&& news.max_spec() == i
            &&& !news.collapsed_spec()
            &&& forall|j: int|
                news.count_at(j) == (if j == i {
                    c as int
                } else {
                    0
                })
        } else if olds.collapsed_spec() && i < olds.min_spec() {
            &&& news.min_spec() == olds.min_spec()
            &&& news.max_spec() == olds.max_spec()
            &&& news.collapsed_spec()
            &&& forall|j: int|
                news.count_at(j) == olds.count_at(j) + (if j == olds.min_spec() {
                    c as int
                } else {
                    0
                })
        } else if vstd::math::max(olds.max_spec(), i) - vstd::math::min(olds.min_spec(), i) + 1
            <= olds.cap() {
            &&& news.min_spec() == vstd::math::min(olds.min_spec(), i)
            &&& news.max_spec() == vstd::math::max(olds.max_spec(), i)
            &&& news.collapsed_spec() == olds.collapsed_spec()
            &&& forall|j: int|
                news.count_at(j) == olds.count_at(j) + (if j == i {
                    c as int
                } else {
                    0
                })
        } else {
            let b = vstd::math::max(olds.max_spec(), i) - olds.cap() + 1;
            &&& news.min_spec() == b
            &&& news.max_spec() == vstd::math::max(olds.max_spec(), i)
            &&& news.collapsed_spec()
            &&& news.count_at(b) == olds.sum_counts(olds.min_spec(), b + 1) + (if i <= b {
                c as int
            } else {
                0
            })
            &&& forall|j: int| j < b ==> news.count_at(j) == 0
            &&& forall|j: int|
                j > b ==> news.count_at(j) == olds.count_at(j) + (if j == i && i > b {
                    c as int
                } else {
                    0
                })
        }),
    ensures
        news.model() == spec_add(olds.model(), i, c),
{
    let mo = olds.model();
    let mn = news.model();
    let target = spec_add(mo, i, c);
    if !olds.is_empty_spec() && !(olds.collapsed_spec() && i < olds.min_spec()) && !(
    vstd::math::max(olds.max_spec(), i) - vstd::math::min(olds.min_spec(), i) + 1 <= olds.cap()) {
        let b = vstd::math::max(olds.max_spec(), i) - olds.cap() + 1;
        lemma_sum_model(olds, olds.min_spec(), b + 1);
    }
    assert forall|j: int| mn.counts[j] == target.counts[j] by {}
    assert(mn.counts =~= target.counts);
    assert(mn == target);
}

/// Splitting a sum of bucket counts at `mid`.
proof fn lemma_sum_split(s: CollapsingLowestDenseStore, lo: int, mid: int, hi: int)
    requires
        lo <= mid <= hi,
    ensures
        s.sum_counts(lo, hi) == s.sum_counts(lo, mid) + s.sum_counts(mid, hi),
    decreases hi - mid,
{
    if mid < hi {
        lemma_sum_split(s, lo, mid, hi - 1);
    }
}

/// A range of zero-count buckets sums to zero.
proof fn lemma_sum_zero(s: CollapsingLowestDenseStore, lo: int, hi: int)
    requires
        forall|j: int| lo <= j < hi ==> s.count_at(j) == 0,
    ensures
        s.sum_counts(lo, hi) == 0,
    decreases hi - lo,
{
    if lo < hi {
        lemma_sum_zero(s, lo, hi - 1);
    }
}

/// Stores with equal counts over a range have equal sums there.
proof fn lemma_sum_eq(
    s1: CollapsingLowestDenseStore,
    s2: CollapsingLowestDenseStore,
    lo: int,
    hi: int,
)
    requires
        forall|j: int| lo <= j < hi ==> s1.count_at(j) == s2.count_at(j),
    ensures
        s1.sum_counts(lo, hi) == s2.sum_counts(lo, hi),
    decreases hi - lo,
{
    if lo < hi {
        lemma_sum_eq(s1, s2, lo, hi - 1);
    }
}

/// Raising one bucket by `c` raises the sum of any range holding it by `c`.
proof fn lemma_sum_update(
    s1: CollapsingLowestDenseStore,
    s2: CollapsingLowestDenseStore,
    lo: int,
    hi: int,
    i: int,
    c: nat,
)
    requires
        forall|j: int|
            lo <= j < hi ==> s2.count_at(j) == s1.count_at(j) + (if j == i {
                c as int
            } else {
                0
            }),
    ensures
        s2.sum_counts(lo, hi) == s1.sum_counts(lo, hi) + (if lo <= i < hi {
            c as int
        } else {
            0
        }),
    decreases hi - lo,
{
    if lo < hi {
        lemma_sum_update(s1, s2, lo, hi - 1, i, c);
    }
}

/// The whole mass sits in the touched range: widening a sum beyond it
/// changes nothing.
proof fn lemma_sum_pad(s: CollapsingLowestDenseStore, lo: int, hi: int)
    requires
        !s.is_empty_spec(),
        s.min_spec() <= s.max_spec(),
        lo <= s.min_spec(),
        s.max_spec() < hi,
    ensures
        s.sum_counts(lo, hi) == s.sum_counts(s.min_spec(), s.max_spec() + 1),
{
    lemma_sum_split(s, lo, s.min_spec(), hi);
    lemma_sum_split(s, s.min_spec(), s.max_spec() + 1, hi);
    lemma_sum_zero(s, lo, s.min_spec());
    lemma_sum_zero(s, s.max_spec() + 1, hi);
}

impl CollapsingLowestDenseStore {
    /// A fresh dense array for a window starting at `new_offset`, carrying
    /// the counts the buckets already have.
    fn shifted(&self, new_offset: i64) -> (r: Vec<u64>)
        requires
            self.wf(),
            !self.is_empty_spec(),
            -0x1_0000_0000_0000 <= new_offset <= 0x1_0000_0000_0000,
        ensures
            r@.len() == self.cap(),
            forall|s: int| 0 <= s < r@.len() ==> r@[s] == self.count_at(new_offset + s),
    {
        let cap = self.max_num_bins;
        let mut v: Vec<u64> = Vec::new();
        let mut s: usize = 0;
        while s < cap
            invariant
                self.wf(),
                !self.is_empty_spec(),
                -0x1_0000_0000_0000 <= new_offset <= 0x1_0000_0000_0000,
                cap == self.cap(),
                s <= cap,
                v@.len() == s,
                forall|t: int| 0 <= t < s ==> v@[t] == self.count_at(new_offset + t),
            decreases cap - s,
        {
            let idx = new_offset + s as i64;
            let c: u64 = if idx >= self.min_index && idx <= self.max_index {
                self.counts[(idx - self.offset) as usize]
            } else {
                0
            };
            v.push(c);
            s = s + 1;
        }
        v
    }

    /// The sum of the counts of buckets `lo ..< hi`.
    fn range_total(&self, lo: i64, hi: i64) -> (r: u64)
        requires
            self.wf(),
            !self.is_empty_spec(),
            self.min_spec() <= lo,
            lo <= hi,
            hi <= self.max_spec() + 1,
        ensures
            r == self.sum_counts(lo as int, hi as int),
    {
        let mut acc: u64 = 0;
        let mut j: i64 = lo;
        proof {
            lemma_sum_split(*self, self.offset_spec(), self.min_spec(), self.offset_spec()
                + self.cap() as int);
            lemma_sum_split(*self, self.min_spec(), self.max_spec() + 1, self.offset_spec()
                + self.cap() as int);
        }
        while j < hi
            invariant
                self.wf(),
                !self.is_empty_spec(),
                self.min_spec() <= lo <= j <= hi <= self.max_spec() + 1,
                acc == self.sum_counts(lo as int, j as int),
                self.sum_counts(self.min_spec(), self.max_spec() + 1) <= self.total_spec(),
            decreases hi - j,
        {
            proof {
                lemma_sum_split(*self, self.min_spec(), lo as int, self.max_spec() + 1);
                lemma_sum_split(*self, lo as int, j as int, self.max_spec() + 1);
                lemma_sum_split(*self, j as int, j + 1, self.max_spec() + 1);
            }
            let c = self.counts[(j - self.offset) as usize];
            acc = acc + c;
            j = j + 1;
        }
        acc
    }

    /// Adds `count` to bucket `index`.  When the store is empty the window
    /// forms around `index`; when the widened touched range would exceed
    /// the capacity, the buckets below `max - capacity + 1` fold into that
    /// boundary bucket and the store is collapsed from then on; once
    /// collapsed, anything below the boundary goes to the boundary bucket.
    #[verifier::rlimit(100)]
    #[verifier::spinoff_prover]
    pub fn add(&mut self, index: i32, count: u64)
        requires
            old(self).wf(),
            old(self).total_spec() + count <= u64::MAX,
        ensures
            final(self).wf(),
            !final(self).is_empty_spec(),
            final(self).cap() == old(self).cap(),
            final(self).total_spec() == old(self).total_spec() + count,
            final(self).max_spec() - final(self).min_spec() + 1 <= final(self).cap(),
            (if old(self).is_empty_spec() {
                &&& final(self).min_spec() == index as int
                &&& final(self).max_spec() == index as int
                &&& !final(self).collapsed_spec()
                &&& forall|j: int|
                    final(self).count_at(j) == (if j == index as int {
                        count as int
                    } else {
                        0
                    })
            } else if old(self).collapsed_spec() && (index as int) < old(self).min_spec() {
                &&& final(self).min_spec() == old(self).min_spec()
                &&& final(self).max_spec() == old(self).max_spec()
                &&& final(self).collapsed_spec()
                &&& forall|j: int|
                    final(self).count_at(j) == old(self).count_at(j) + (if j == old(
                        self,
                    ).min_spec() {
                        count as int
                    } else {
                        0
                    })
            } else if vstd::math::max(old(self).max_spec(), index as int) - vstd::math::min(
                old(self).min_spec(),
                index as int,
            ) + 1 <= old(self).cap() {
                &&& final(self).min_spec() == vstd::math::min(old(self).min_spec(), index as int)
                &&& final(self).max_spec() == vstd::math::max(old(self).max_spec(), index as int)
                &&& final(self).collapsed_spec() == old(self).collapsed_spec()
                &&& forall|j: int|
                    final(self).count_at(j) == old(self).count_at(j) + (if j == index as int {
                        count as int
                    } else {
                        0
                    })
            } else {
                let b = vstd::math::max(old(self).max_spec(), index as int) - old(self).cap() + 1;
                &&& final(self).min_spec() == b
                &&& final(self).max_spec() == vstd::math::max(old(self).max_spec(), index as int)
                &&& final(self).collapsed_spec()
                &&& final(self).count_at(b) == old(self).sum_counts(old(self).min_spec(), b + 1)
                    + (if index as int <= b {
                    count as int
                } else {
                    0
                })
                &&& forall|j: int| j < b ==> final(self).count_at(j) == 0
                &&& forall|j: int|
                    j > b ==> final(self).count_at(j) == old(self).count_at(j) + (if j
                        == index as int && index as int > b {
                        count as int
                    } else {
                        0
                    })
            }),
    {
        let idx = index as i64;
        let cap = self.max_num_bins;
        if self.counts.len() == 0 {
            let ghost olds = *self;
            let mut v: Vec<u64> = self.zeros();
            v.set(cap - 1, count);
            self.counts = v;
            self.offset = idx - (cap as i64 - 1);
            self.min_index = idx;
            self.max_index = idx;
            self.total = count;
            proof {
                let news = *self;
                assert forall|j: int|
                    news.count_at(j) == (if j == index as int {
                        count as int
                    } else {
                        0
                    }) by {}
                lemma_sum_split(news, news.offset_spec(), idx as int, news.offset_spec()
                    + cap as int);
                lemma_sum_split(news, idx as int, idx + 1, news.offset_spec() + cap as int);
                lemma_sum_zero(news, news.offset_spec(), idx as int);
                lemma_sum_zero(news, idx + 1, news.offset_spec() + cap as int);
            }
        } else if self.is_collapsed && idx < self.min_index {
            let ghost olds = *self;
            let pos = (self.min_index - self.offset) as usize;
            proof {
                lemma_count_le_total(olds, olds.min_spec());
            }
            let cur = self.counts[pos];
            self.counts.set(pos, cur + count);
            self.total = self.total + count;
            proof {
                let news = *self;
                assert forall|j: int|
                    news.count_at(j) == olds.count_at(j) + (if j == olds.min_spec() {
                        count as int
                    } else {
                        0
                    }) by {}
                lemma_bump_total(olds, news, olds.min_spec(), count as nat);
            }
        } else if idx >= self.offset && idx <= self.offset + (cap as i64 - 1) {
            let ghost olds = *self;
            let pos = (idx - self.offset) as usize;
            proof {
                if olds.min_spec() <= idx as int <= olds.max_spec() {
                    lemma_count_le_total(olds, idx as int);
                }
            }
            let cur = self.counts[pos];
            self.counts.set(pos, cur + count);
            if idx < self.min_index {
                self.min_index = idx;
            }
            if idx > self.max_index {
                self.max_index = idx;
            }
            self.total = self.total + count;
            proof {
                let news = *self;
                assert forall|j: int|
                    news.count_at(j) == olds.count_at(j) + (if j == idx as int {
                        count as int
                    } else {
                        0
                    }) by {}
                lemma_bump_total(olds, news, idx as int, count as nat);
            }
        } else if idx > self.offset + (cap as i64 - 1) {
            if idx - self.min_index + 1 <= cap as i64 {
                // The touched range still fits: slide the window up.
                let ghost olds = *self;
                let no = idx - (cap as i64 - 1);
                let mut v = self.shifted(no);
                let cur = v[cap - 1];
                proof {
                    assert(olds.count_at(idx as int) == 0);
                }
                v.set(cap - 1, cur + count);
                self.counts = v;
                self.offset = no;
                self.max_index = idx;
                self.total = self.total + count;
                proof {
                    let news = *self;
                    assert forall|j: int|
                        news.count_at(j) == olds.count_at(j) + (if j == idx as int {
                            count as int
                        } else {
                            0
                        }) by {}
                    lemma_bump_total(olds, news, idx as int, count as nat);
                }
            } else {
                // Collapse: keep the top `cap` buckets, fold the rest.
                let ghost olds = *self;
                let b = idx - (cap as i64 - 1);
                let fold_hi: i64 = if b > self.max_index {
                    self.max_index
                } else {
                    b
                };
                let fold = self.range_total(self.min_index, fold_hi + 1);
                proof {
                    if b > olds.max_spec() {
                        lemma_sum_split(olds, olds.min_spec(), olds.max_spec() + 1, b + 1);
                        lemma_sum_zero(olds, olds.max_spec() + 1, b + 1);
                    }
                    lemma_fold_le_total(olds, b as int);
                }
                let mut v = self.shifted(b);
                let cur0 = v[0];
                proof {
                    assert(olds.count_at(b as int) <= olds.sum_counts(olds.min_spec(), b + 1)) by {
                        lemma_sum_split(olds, olds.min_spec(), b as int, b + 1);
                    }
                }
                v.set(0, fold);
                let pos = (idx - b) as usize;
                let cur = v[pos];
                proof {
                    assert(olds.count_at(idx as int) == 0);
                }
                v.set(pos, cur + count);
                self.counts = v;
                self.offset = b;
                self.min_index = b;
                self.max_index = idx;
                self.is_collapsed = true;
                self.total = self.total + count;
                proof {
                    let news = *self;
                    let b = news.min_spec();
                    assert forall|j: int|
                        j > b implies news.count_at(j) == olds.count_at(j) + (if j == idx as int
                            && idx as int > b {
                            count as int
                        } else {
                            0
                        }) by {}
                    lemma_collapse_total(olds, news, b, idx as int, count as nat);
                }
            }
        } else {
            // Below the window, not collapsed, so below the touched range.
            if self.max_index - idx + 1 <= cap as i64 {
                let ghost olds = *self;
                let mut v = self.shifted(idx);
                let cur = v[0];
                proof {
                    assert(olds.count_at(idx as int) == 0);
                }
                v.set(0, cur + count);
                self.counts = v;
                self.offset = idx;
                self.min_index = idx;
                self.total = self.total + count;
                proof {
                    let news = *self;
                    assert forall|j: int|
                        news.count_at(j) == olds.count_at(j) + (if j == idx as int {
                            count as int
                        } else {
                            0
                        }) by {}
                    lemma_bump_total(olds, news, idx as int, count as nat);
                }
            } else {
                let ghost olds = *self;
                let b = self.max_index - (cap as i64 - 1);
                let fold: u64 = if b >= self.min_index {
                    self.range_total(self.min_index, b + 1)
                } else {
                    0
                };
                proof {
                    if b < olds.min_spec() {
                        lemma_sum_zero(olds, olds.min_spec(), b + 1);
                    }
                    lemma_fold_le_total(olds, b as int);
                }
                let mut v = self.shifted(b);
                v.set(0, fold + count);
                self.counts = v;
                self.offset = b;
                self.min_index = b;
                self.is_collapsed = true;
                self.total = self.total + count;
                proof {
                    let news = *self;
                    let b = news.min_spec();
                    assert forall|j: int|
                        j > b implies news.count_at(j) == olds.count_at(j) + (if j == idx as int
                            && idx as int > b {
                            count as int
                        } else {
                            0
                        }) by {}
                    lemma_collapse_total(olds, news, b, idx as int, count as nat);
                }
            }
        }
    }

    /// A zeroed dense array of the store's capacity.
    fn zeros(&self) -> (r: Vec<u64>)
        ensures
            r@.len() == self.max_num_bins,
            forall|t: int| 0 <= t < r@.len() ==> r@[t] == 0,
    {
        let cap = self.max_num_bins;
        let mut v: Vec<u64> = Vec::new();
        let mut s: usize = 0;
        while s < cap
            invariant
                s <= cap,
                v@.len() == s,
                forall|t: int| 0 <= t < s ==> v@[t] == 0,
            decreases cap - s,
        {
            v.push(0);
            s = s + 1;
        }
        v
    }

}

/// After a pointwise bump of bucket `i` by `c`, over a possibly slid
/// window that still holds the old touched range, the mass grew by `c`.
proof fn lemma_bump_total(
    olds: CollapsingLowestDenseStore,
    news: CollapsingLowestDenseStore,
    i: int,
    c: nat,
)
    requires
        olds.wf(),
        !olds.is_empty_spec(),
        !news.is_empty_spec(),
        news.cap() == olds.cap(),
        news.offset_spec() <= news.min_spec(),
        news.min_spec() <= news.max_spec(),
        news.max_spec() <= news.offset_spec() + news.cap() - 1,
        news.min_spec() <= i <= news.max_spec(),
        news.min_spec() <= olds.min_spec(),
        olds.max_spec() <= news.max_spec(),
        forall|j: int|
            news.count_at(j) == olds.count_at(j) + (if j == i {
                c as int
            } else {
                0
            }),
    ensures
        news.sum_counts(news.offset_spec(), news.offset_spec() + news.cap()) == olds.total_spec()
            + c,
{
    lemma_sum_pad(news, news.offset_spec(), news.offset_spec() + news.cap() as int);
    lemma_sum_update(olds, news, news.min_spec(), news.max_spec() + 1, i, c);
    lemma_sum_pad(olds, news.min_spec(), news.max_spec() + 1);
    lemma_sum_pad(olds, olds.offset_spec(), olds.offset_spec() + olds.cap() as int);
}

/// After a collapse at boundary `b`, the mass still grew by exactly `c`.
proof fn lemma_collapse_total(
    olds: CollapsingLowestDenseStore,
    news: CollapsingLowestDenseStore,
    b: int,
    i: int,
    c: nat,
)
    requires
        olds.wf(),
        !olds.is_empty_spec(),
        !news.is_empty_spec(),
        news.cap() == olds.cap(),
        news.offset_spec() == b,
        news.min_spec() == b,
        news.max_spec() == b + news.cap() - 1,
        olds.max_spec() < b + news.cap(),
        i <= news.max_spec(),
        news.count_at(b) == olds.sum_counts(olds.min_spec(), b + 1) + (if i <= b {
            c as int
        } else {
            0
        }),
        forall|j: int|
            j > b ==> news.count_at(j) == olds.count_at(j) + (if j == i && i > b {
                c as int
            } else {
                0
            }),
    ensures
        news.sum_counts(news.offset_spec(), news.offset_spec() + news.cap()) == olds.total_spec()
            + c,
{
    let hi = b + news.cap() as int;
    let s1 = olds.sum_counts(olds.min_spec(), b + 1);
    let t = olds.sum_counts(olds.min_spec(), olds.max_spec() + 1);
    lemma_sum_split(news, b, b + 1, hi);
    assert(news.sum_counts(b, b) == 0);
    assert(news.sum_counts(b, b + 1) == news.count_at(b));
    // The part above the boundary, against the old store.
    if i > b {
        lemma_sum_update(olds, news, b + 1, hi, i, c);
    } else {
        lemma_sum_eq(olds, news, b + 1, hi);
    }
    assert(news.sum_counts(b + 1, hi) == olds.sum_counts(b + 1, hi) + (if i > b {
        c as int
    } else {
        0
    }));
    // The old total is the old touched-range sum.
    lemma_sum_pad(olds, olds.offset_spec(), olds.offset_spec() + olds.cap() as int);
    assert(olds.total_spec() == t);
    if b <= olds.max_spec() {
        lemma_sum_split(olds, b + 1, olds.max_spec() + 1, hi);
        lemma_sum_zero(olds, olds.max_spec() + 1, hi);
        assert(olds.sum_counts(b + 1, hi) == olds.sum_counts(b + 1, olds.max_spec() + 1));
        if b >= olds.min_spec() {
            lemma_sum_split(olds, olds.min_spec(), b + 1, olds.max_spec() + 1);
            assert(t == s1 + olds.sum_counts(b + 1, olds.max_spec() + 1));
        } else {
            assert(s1 == 0);
            lemma_sum_split(olds, b + 1, olds.min_spec(), olds.max_spec() + 1);
            lemma_sum_zero(olds, b + 1, olds.min_spec());
            assert(t == olds.sum_counts(b + 1, olds.max_spec() + 1));
        }
    } else {
        lemma_sum_zero(olds, b + 1, hi);
        lemma_sum_split(olds, olds.min_spec(), olds.max_spec() + 1, b + 1);
        lemma_sum_zero(olds, olds.max_spec() + 1, b + 1);
        assert(s1 == t);
    }
    assert(news.sum_counts(b, hi) == news.count_at(b) + news.sum_counts(b + 1, hi));
}

/// One bucket's count never exceeds the store's mass.
proof fn lemma_count_le_total(s: CollapsingLowestDenseStore, i: int)
    requires
        s.wf(),
        !s.is_empty_spec(),
        s.min_spec() <= i <= s.max_spec(),
    ensures
        s.count_at(i) <= s.total_spec(),
{
    lemma_sum_split(s, s.offset_spec(), i, s.offset_spec() + s.cap() as int);
    lemma_sum_split(s, i, i + 1, s.offset_spec() + s.cap() as int);
}

/// The folded prefix never exceeds the store's mass.
proof fn lemma_fold_le_total(s: CollapsingLowestDenseStore, b: int)
    requires
        s.wf(),
        !s.is_empty_spec(),
    ensures
        s.sum_counts(s.min_spec(), b + 1) <= s.total_spec(),
{
    lemma_sum_pad(s, s.offset_spec(), s.offset_spec() + s.cap() as int);
    if b < s.min_spec() {
    } else if b <= s.max_spec() {
        lemma_sum_split(s, s.min_spec(), b + 1, s.max_spec() + 1);
    } else {
        lemma_sum_split(s, s.min_spec(), s.max_spec() + 1, b + 1);
        lemma_sum_zero(s, s.max_spec() + 1, b + 1);
    }
}

/// The sum of the counts of a bin list.
pub open spec fn bins_total(bins: Seq<(i32, u64)>) -> nat
    decreases bins.len(),
{
    if bins.len() == 0 {
        0
    } else {
        (bins_total(bins.drop_last()) + bins.last().1) as nat
    }
}

/// A prefix of a bin list weighs no more than the whole.
proof fn lemma_bins_total_prefix(bins: Seq<(i32, u64)>, i: int)
    requires
        0 <= i <= bins.len(),
    ensures
        bins_total(bins.subrange(0, i)) <= bins_total(bins),
    decreases bins.len() - i,
{
    if i < bins.len() {
        lemma_bins_total_prefix(bins, i + 1);
        assert(bins.subrange(0, i + 1).drop_last() =~= bins.subrange(0, i));
    } else {
        assert(bins.subrange(0, i) =~= bins);
    }
}

/// The dense count payload of buckets `lo ..< hi`, one count per bucket.
pub open spec fn cat_dense_counts(s: CollapsingLowestDenseStore, lo: int, hi: int) -> Seq<u8>
    decreases hi - lo,
{
    if lo >= hi {
        Seq::<u8>::empty()
    } else {
        cat_dense_counts(s, lo, hi - 1) + vd_bytes(s.count_at(hi - 1))
    }
}

/// How many buckets of `lo ..< hi` are non-empty.
pub open spec fn nonzero_bins(s: CollapsingLowestDenseStore, lo: int, hi: int) -> nat
    decreases hi - lo,
{
    if lo >= hi {
        0
    } else {
        nonzero_bins(s, lo, hi - 1) + (if s.count_at(hi - 1) != 0 {
            1 as nat
        } else {
            0 as nat
        })
    }
}

/// The sparse payload of buckets `lo ..< hi`: for each non-empty bucket,
/// its index as a delta from the previously written one, then its count.
pub open spec fn cat_sparse_bins(
    s: CollapsingLowestDenseStore,
    lo: int,
    hi: int,
    prev: int,
) -> Seq<u8>
    decreases hi - lo,
{
    if lo >= hi {
        Seq::<u8>::empty()
    } else if s.count_at(lo) == 0 {
        cat_sparse_bins(s, lo + 1, hi, prev)
    } else {
        svar_bytes((lo - prev) as i64) + vd_bytes(s.count_at(lo)) + cat_sparse_bins(
            s,
            lo + 1,
            hi,
            lo,
        )
    }
}

/// The dense (contiguous counts) body of a store.
pub open spec fn dense_body(s: CollapsingLowestDenseStore) -> Seq<u8> {
    uvar_bytes((s.max_spec() - s.min_spec() + 1) as nat) + svar_bytes(s.min_spec() as i64)
        + svar_bytes(1) + cat_dense_counts(s, s.min_spec(), s.max_spec() + 1)
}

/// The sparse (index deltas and counts) body of a store.
pub open spec fn sparse_body(s: CollapsingLowestDenseStore) -> Seq<u8> {
    uvar_bytes(nonzero_bins(s, s.min_spec(), s.max_spec() + 1)) + cat_sparse_bins(
        s,
        s.min_spec(),
        s.max_spec() + 1,
        0,
    )
}

/// The wire encoding of a store: nothing when empty, else a mode flag and
/// whichever of the two bodies is shorter, the dense one on ties.
pub open spec fn store_bytes(s: CollapsingLowestDenseStore, t: FlagType) -> Seq<u8> {
    if s.is_empty_spec() {
        Seq::<u8>::empty()
    } else if dense_body(s).len() <= sparse_body(s).len() {
        seq![Flag::spec_with_type(t, BinEncodingMode::ContiguousCounts.spec_sub_flag())]
            + dense_body(s)
    } else {
        seq![Flag::spec_with_type(t, BinEncodingMode::IndexDeltasAndCounts.spec_sub_flag())]
            + sparse_body(s)
    }
}

/// Parses `n` encoded bins: the bin list in decoding order, or how the
/// parse failed.  `acc` is the mass the target store already holds;
/// mirroring the decoder, the parse is invalid where a count is no valid
/// integer, an index leaves the 32-bit domain, or the mass would overflow.
pub open spec fn parse_bins(
    bytes: Seq<u8>,
    pos: nat,
    mode: BinEncodingMode,
    n: nat,
    prev: int,
    step: int,
    acc: nat,
) -> Result<(Seq<(i32, u64)>, nat), ParseFail>
    decreases n,
{
    if n == 0 {
        Ok((Seq::<(i32, u64)>::empty(), pos))
    } else {
        match mode {
            BinEncodingMode::IndexDeltasAndCounts => match parse_uvar(bytes, pos) {
                None => Err(ParseFail::Short),
                Some((u, p1)) => {
                    if u > u64::MAX {
                        Err(ParseFail::Invalid)
                    } else {
                        let i = prev + unzigzag(u);
                        match parse_vd_count(bytes, p1) {
                            Err(k) => Err(k),
                            Ok((c, p2)) => {
                                if i < i32::MIN || i > i32::MAX {
                                    Err(ParseFail::Invalid)
                                } else if acc + c > u64::MAX {
                                    Err(ParseFail::Invalid)
                                } else {
                                    match parse_bins(
                                        bytes,
                                        p2,
                                        mode,
                                        (n - 1) as nat,
                                        i,
                                        step,
                                        acc + c,
                                    ) {
                                        Err(k) => Err(k),
                                        Ok((rest, end)) => Ok(
                                            (seq![(i as i32, c as u64)] + rest, end),
                                        ),
                                    }
                                }
                            },
                        }
                    }
                },
            },
            BinEncodingMode::IndexDeltas => match parse_uvar(bytes, pos) {
                None => Err(ParseFail::Short),
                Some((u, p1)) => {
                    if u > u64::MAX {
                        Err(ParseFail::Invalid)
                    } else {
                        let i = prev + unzigzag(u);
                        if i < i32::MIN || i > i32::MAX {
                            Err(ParseFail::Invalid)
                        } else if acc + 1 > u64::MAX {
                            Err(ParseFail::Invalid)
                        } else {
                            match parse_bins(bytes, p1, mode, (n - 1) as nat, i, step, acc + 1) {
                                Err(k) => Err(k),
                                Ok((rest, end)) => Ok((seq![(i as i32, 1u64)] + rest, end)),
                            }
                        }
                    }
                },
            },
            BinEncodingMode::ContiguousCounts => match parse_vd_count(bytes, pos) {
                Err(k) => Err(k),
                Ok((c, p1)) => {
                    if prev < i32::MIN || prev > i32::MAX {
                        Err(ParseFail::Invalid)
                    } else if acc + c > u64::MAX {
                        Err(ParseFail::Invalid)
                    } else {
                        match parse_bins(bytes, p1, mode, (n - 1) as nat, prev + step, step, acc
                            + c) {
                            Err(k) => Err(k),
                            Ok((rest, end)) => Ok((seq![(prev as i32, c as u64)] + rest, end)),
                        }
                    }
                },
            },
        }
    }
}

/// Parses a whole store body of the given mode: the bin count, for the
/// contiguous mode a start index and an index step, then the bins.
pub open spec fn parse_store_body(
    bytes: Seq<u8>,
    pos: nat,
    mode: BinEncodingMode,
    acc: nat,
) -> Result<(Seq<(i32, u64)>, nat), ParseFail> {
    match parse_uvar(bytes, pos) {
        None => Err(ParseFail::Short),
        Some((n, p1)) => {
            if n > u64::MAX {
                Err(ParseFail::Invalid)
            } else {
                match mode {
                    BinEncodingMode::ContiguousCounts => match parse_uvar(bytes, p1) {
                        None => Err(ParseFail::Short),
                        Some((u1, p2)) => {
                            if u1 > u64::MAX {
                                Err(ParseFail::Invalid)
                            } else {
                                match parse_uvar(bytes, p2) {
                                    None => Err(ParseFail::Short),
                                    Some((u2, p3)) => {
                                        if u2 > u64::MAX {
                                            Err(ParseFail::Invalid)
                                        } else {
                                            parse_bins(
                                                bytes,
                                                p3,
                                                mode,
                                                n,
                                                unzigzag(u1),
                                                unzigzag(u2),
                                                acc,
                                            )
                                        }
                                    },
                                }
                            }
                        },
                    },
                    _ => parse_bins(bytes, p1, mode, n, 0, 0, acc),
                }
            }
        },
    }
}

impl CollapsingLowestDenseStore {
    /// Adds one `(index, count)` bin.
    pub fn add_bin(&mut self, bin: (i32, u64))
        requires
            old(self).wf(),
            old(self).total_spec() + bin.1 <= u64::MAX,
        ensures
            final(self).wf(),
            !final(self).is_empty_spec(),
            final(self).cap() == old(self).cap(),
            final(self).model() == spec_add(old(self).model(), bin.0 as int, bin.1 as nat),
            final(self).total_spec() == old(self).total_spec() + bin.1,
            final(self).max_spec() - final(self).min_spec() + 1 <= final(self).cap(),
    {
        let ghost before = *self;
        self.add(bin.0, bin.1);
        proof {
            lemma_add_model(before, *self, bin.0 as int, bin.1 as nat);
        }
    }

    /// Merges a list of bins: exactly one `add` per bin, first bin first.
    pub fn merge_with(&mut self, bins: Vec<(i32, u64)>)
        requires
            old(self).wf(),
            old(self).total_spec() + bins_total(bins@) <= u64::MAX,
        ensures
            final(self).wf(),
            final(self).cap() == old(self).cap(),
            final(self).model() == fold_add(old(self).model(), bins@),
            final(self).total_spec() == old(self).total_spec() + bins_total(bins@),
            final(self).is_empty_spec() ==> old(self).is_empty_spec(),
            !final(self).is_empty_spec() ==> final(self).max_spec() - final(self).min_spec() + 1
                <= final(self).cap(),
    {
        let n = bins.len();
        let mut i: usize = 0;
        while i < n
            invariant
                self.wf(),
                n == bins@.len(),
                i <= n,
                self.cap() == old(self).cap(),
                old(self).total_spec() + bins_total(bins@) <= u64::MAX,
                self.total_spec() == old(self).total_spec() + bins_total(
                    bins@.subrange(0, i as int),
                ),
                self.model() == fold_add(old(self).model(), bins@.subrange(0, i as int)),
                self.is_empty_spec() ==> old(self).is_empty_spec(),
                !self.is_empty_spec() && i > 0 ==> self.max_spec() - self.min_spec() + 1
                    <= self.cap(),
                !self.is_empty_spec() && !old(self).is_empty_spec() ==> self.max_spec()
                    - self.min_spec() + 1 <= self.cap() || i == 0,
            decreases n - i,
        {
            let (index, count) = bins[i];
            proof {
                lemma_bins_total_prefix(bins@, i + 1);
                assert(bins@.subrange(0, i + 1).drop_last() =~= bins@.subrange(0, i as int));
            }
            let ghost before = *self;
            self.add(index, count);
            proof {
                lemma_add_model(before, *self, index as int, count as nat);
            }
            i = i + 1;
        }
        proof {
            assert(bins@.subrange(0, n as int) =~= bins@);
            if n == 0 && !self.is_empty_spec() {
                lemma_span_le_cap(*self);
            }
        }
    }

    /// Writes this store's buckets: nothing when empty, else a flag naming
    /// the cheaper of the dense and sparse layouts followed by that body.
    /// Fails exactly when some bucket's count exceeds the wire range, and
    /// then writes nothing.
    pub fn encode(&self, out: &mut Output, store_flag_type: FlagType) -> (r: Result<(), Error>)
        requires
            self.wf(),
        ensures
            match r {
                Ok(_) => (forall|j: int|
                    self.min_spec() <= j <= self.max_spec() ==> self.count_at(j)
                        <= MAX_WIRE_COUNT) && final(out)@ == old(out)@ + store_bytes(
                    *self,
                    store_flag_type,
                ),
                Err(e) => (exists|j: int|
                    self.min_spec() <= j <= self.max_spec() && self.count_at(j)
                        > MAX_WIRE_COUNT) && final(out)@ == old(out)@ && e
                    matches Error::InvalidArgument(_),
            },
    {
        if self.is_empty() {
            proof {
                assert(out@ =~= out@ + store_bytes(*self, store_flag_type));
            }
            return Ok(());
        }
        let min = self.min_index;
        let max = self.max_index;
        // The dense body.
        let mut dense = Output::new();
        encode_unsigned_var_long(&mut dense, (max - min + 1) as u64);
        encode_signed_var_long(&mut dense, min);
        encode_signed_var_long(&mut dense, 1);
        let ghost dense_header = dense@;
        let mut i: i64 = min;
        while i <= max
            invariant
                self.wf(),
                !self.is_empty_spec(),
                min == self.min_spec(),
                max == self.max_spec(),
                min <= i <= max + 1,
                dense@ == dense_header + cat_dense_counts(*self, min as int, i as int),
                forall|j: int| min <= j < i ==> self.count_at(j) <= MAX_WIRE_COUNT,
            decreases max + 1 - i,
        {
            let c = self.get_count((i - self.offset) as usize);
            match encode_var_double_count(&mut dense, c) {
                Ok(_) => {},
                Err(e) => {
                    return Err(e);
                },
            }
            i = i + 1;
            proof {
                assert(dense@ =~= dense_header + cat_dense_counts(*self, min as int, i as int));
            }
        }
        // The sparse body.
        let mut k: u64 = 0;
        let mut i: i64 = min;
        while i <= max
            invariant
                self.wf(),
                !self.is_empty_spec(),
                min == self.min_spec(),
                max == self.max_spec(),
                min <= i <= max + 1,
                k == nonzero_bins(*self, min as int, i as int),
                k <= i - min,
            decreases max + 1 - i,
        {
            let c = self.get_count((i - self.offset) as usize);
            if c != 0 {
                k = k + 1;
            }
            i = i + 1;
        }
        let mut sparse = Output::new();
        encode_unsigned_var_long(&mut sparse, k);
        let mut prev: i64 = 0;
        let mut i: i64 = min;
        proof {
            assert(sparse@ + cat_sparse_bins(*self, i as int, max + 1, prev as int) =~= uvar_bytes(
                k as nat,
            ) + cat_sparse_bins(*self, min as int, max + 1, 0));
        }
        while i <= max
            invariant
                self.wf(),
                !self.is_empty_spec(),
                min == self.min_spec(),
                max == self.max_spec(),
                min <= i <= max + 1,
                i32::MIN <= prev <= i32::MAX,
                forall|j: int| min <= j <= max ==> self.count_at(j) <= MAX_WIRE_COUNT,
                sparse@ + cat_sparse_bins(*self, i as int, max + 1, prev as int) == uvar_bytes(
                    k as nat,
                ) + cat_sparse_bins(*self, min as int, max + 1, 0),
            decreases max + 1 - i,
        {
            let c = self.get_count((i - self.offset) as usize);
            let ghost before = sparse@;
            if c != 0 {
                encode_signed_var_long(&mut sparse, i - prev);
                match encode_var_double_count(&mut sparse, c) {
                    Ok(_) => {},
                    Err(_) => {
                        proof {
                            assert(false);
                        }
                    },
                }
                prev = i;
            }
            i = i + 1;
            proof {
                assert(sparse@ + cat_sparse_bins(*self, i as int, max + 1, prev as int)
                    =~= uvar_bytes(k as nat) + cat_sparse_bins(*self, min as int, max + 1, 0));
            }
        }
        proof {
            assert(cat_sparse_bins(*self, (max + 1) as int, max + 1, prev as int)
                =~= Seq::<u8>::empty());
            assert(sparse@ =~= uvar_bytes(k as nat) + cat_sparse_bins(*self, min as int, max + 1, 0));
            assert(dense@ =~= dense_body(*self));
            assert(sparse@ =~= sparse_body(*self));
        }
        if dense.len() <= sparse.len() {
            BinEncodingMode::ContiguousCounts.to_flag(store_flag_type).encode(out);
            out.append(dense);
            proof {
                assert(out@ =~= old(out)@ + store_bytes(*self, store_flag_type));
            }
        } else {
            BinEncodingMode::IndexDeltasAndCounts.to_flag(store_flag_type).encode(out);
            out.append(sparse);
            proof {
                assert(out@ =~= old(out)@ + store_bytes(*self, store_flag_type));
            }
        }
        Ok(())
    }

    /// Reads one encoded store body of the given mode and merges its bins
    /// in, one `add` per bin in decoding order.  Succeeds exactly when the
    /// body parses; the final state is the fold of `add` over the decoded
    /// bins.  A truncated stream fails with an I/O error; an index outside
    /// the 32-bit domain, a count that is no valid integer, or mass beyond
    /// the 64-bit limit fails with an invalid argument.  On failure the
    /// bins before the bad field remain applied.
    pub fn decode_and_merge_with(&mut self, input: &mut Input, mode: BinEncodingMode) -> (r: Result<
        (),
        Error,
    >)
        requires
            old(self).wf(),
            old(input).wf(),
        ensures
            final(self).wf(),
            final(input).wf(),
            final(input).bytes() == old(input).bytes(),
            final(input).pos() >= old(input).pos(),
            final(self).cap() == old(self).cap(),
            final(self).is_empty_spec() ==> old(self).is_empty_spec(),
            final(self).total_spec() >= old(self).total_spec(),
            match r {
                Ok(_) => match parse_store_body(
                    old(input).bytes(),
                    old(input).pos(),
                    mode,
                    old(self).total_spec(),
                ) {
                    Ok((bins, end)) => {
                        &&& final(self).model() == fold_add(old(self).model(), bins)
                        &&& final(self).total_spec() == old(self).total_spec() + bins_total(bins)
                        &&& final(input).pos() == end
                    },
                    Err(_) => false,
                },
                Err(e) => match parse_store_body(
                    old(input).bytes(),
                    old(input).pos(),
                    mode,
                    old(self).total_spec(),
                ) {
                    Ok(_) => false,
                    Err(k) => match k {
                        ParseFail::Short => e matches Error::IoError(_),
                        ParseFail::Invalid => e matches Error::InvalidArgument(_),
                    },
                },
            },
    {
        let ghost goal = parse_store_body(
            old(input).bytes(),
            old(input).pos(),
            mode,
            old(self).total_spec(),
        );
        let ghost old_model = old(self).model();
        let ghost old_total = old(self).total_spec();
        let num = decode_unsigned_var_long(input)?;
        match mode {
            BinEncodingMode::IndexDeltasAndCounts => {
                let mut i: u64 = 0;
                let mut prev: i64 = 0;
                let ghost mut done: Seq<(i32, u64)> = Seq::empty();
                while i < num
                    invariant
                        self.wf(),
                        input.wf(),
                        input.bytes() == old(input).bytes(),
                        input.pos() >= old(input).pos(),
                        self.cap() == old(self).cap(),
                        self.is_empty_spec() ==> old(self).is_empty_spec(),
                        goal == parse_store_body(
                            old(input).bytes(),
                            old(input).pos(),
                            mode,
                            old_total,
                        ),
                        old_model == old(self).model(),
                        old_total == old(self).total_spec(),
                        i <= num,
                        i32::MIN <= prev <= i32::MAX,
                        self.model() == fold_add(old_model, done),
                        self.total_spec() == old_total + bins_total(done),
                        match parse_bins(
                            input.bytes(),
                            input.pos(),
                            BinEncodingMode::IndexDeltasAndCounts,
                            (num - i) as nat,
                            prev as int,
                            0,
                            self.total_spec(),
                        ) {
                            Ok((rest, end)) => goal == Ok::<(Seq<(i32, u64)>, nat), ParseFail>(
                                (done + rest, end),
                            ),
                            Err(k) => goal == Err::<(Seq<(i32, u64)>, nat), ParseFail>(k),
                        },
                    decreases num - i,
                {
                    let delta = match decode_signed_var_long(input) {
                        Ok(v) => v,
                        Err(e) => {
                            return Err(e);
                        },
                    };
                    proof {
                        lemma_unzigzag(delta);
                    }
                    let count = match decode_var_double_count(input) {
                        Ok(c) => c,
                        Err(e) => {
                            return Err(e);
                        },
                    };
                    let idx128: i128 = prev as i128 + delta as i128;
                    if idx128 < i32::MIN as i128 || idx128 > i32::MAX as i128 {
                        return Err(Error::InvalidArgument("The index does not fit in 32 bits."));
                    }
                    let idx: i32 = idx128 as i32;
                    if count > u64::MAX - self.get_total_count() {
                        return Err(Error::InvalidArgument("The total count overflows."));
                    }
                    let ghost before = *self;
                    self.add(idx, count);
                    proof {
                        lemma_add_model(before, *self, idx as int, count as nat);
                        let b = (idx, count);
                        assert(done.push(b).drop_last() =~= done);
                        done = done.push(b);
                    }
                    prev = idx as i64;
                    i = i + 1;
                    proof {
                        match parse_bins(
                            input.bytes(),
                            input.pos(),
                            BinEncodingMode::IndexDeltasAndCounts,
                            (num - i) as nat,
                            prev as int,
                            0,
                            self.total_spec(),
                        ) {
                            Ok((rest, end)) => {
                                assert(done + rest =~= done.drop_last() + (seq![
                                    (idx, count),
                                ] + rest));
                            },
                            Err(_) => {},
                        }
                    }
                }
                proof {
                    assert(goal == Ok::<(Seq<(i32, u64)>, nat), ParseFail>(
                        (done, input.pos()),
                    ));
                    match goal {
                        Ok((bins, _)) => {
                            assert(bins =~= done);
                        },
                        Err(_) => {},
                    }
                }
                Ok(())
            },
            BinEncodingMode::IndexDeltas => {
                let mut i: u64 = 0;
                let mut prev: i64 = 0;
                let ghost mut done: Seq<(i32, u64)> = Seq::empty();
                while i < num
                    invariant
                        self.wf(),
                        input.wf(),
                        input.bytes() == old(input).bytes(),
                        input.pos() >= old(input).pos(),
                        self.cap() == old(self).cap(),
                        self.is_empty_spec() ==> old(self).is_empty_spec(),
                        goal == parse_store_body(
                            old(input).bytes(),
                            old(input).pos(),
                            mode,
                            old_total,
                        ),
                        old_model == old(self).model(),
                        old_total == old(self).total_spec(),
                        i <= num,
                        i32::MIN <= prev <= i32::MAX,
                        self.model() == fold_add(old_model, done),
                        self.total_spec() == old_total + bins_total(done),
                        match parse_bins(
                            input.bytes(),
                            input.pos(),
                            BinEncodingMode::IndexDeltas,
                            (num - i) as nat,
                            prev as int,
                            0,
                            self.total_spec(),
                        ) {
                            Ok((rest, end)) => goal == Ok::<(Seq<(i32, u64)>, nat), ParseFail>(
                                (done + rest, end),
                            ),
                            Err(k) => goal == Err::<(Seq<(i32, u64)>, nat), ParseFail>(k),
                        },
                    decreases num - i,
                {
                    let delta = match decode_signed_var_long(input) {
                        Ok(v) => v,
                        Err(e) => {
                            return Err(e);
                        },
                    };
                    proof {
                        lemma_unzigzag(delta);
                    }
                    let idx128: i128 = prev as i128 + delta as i128;
                    if idx128 < i32::MIN as i128 || idx128 > i32::MAX as i128 {
                        return Err(Error::InvalidArgument("The index does not fit in 32 bits."));
                    }
                    let idx: i32 = idx128 as i32;
                    if self.get_total_count() == u64::MAX {
                        return Err(Error::InvalidArgument("The total count overflows."));
                    }
                    let ghost before = *self;
                    self.add(idx, 1);
                    proof {
                        lemma_add_model(before, *self, idx as int, 1);
                        let b = (idx, 1u64);
                        assert(done.push(b).drop_last() =~= done);
                        done = done.push(b);
                    }
                    prev = idx as i64;
                    i = i + 1;
                    proof {
                        match parse_bins(
                            input.bytes(),
                            input.pos(),
                            BinEncodingMode::IndexDeltas,
                            (num - i) as nat,
                            prev as int,
                            0,
                            self.total_spec(),
                        ) {
                            Ok((rest, end)) => {
                                assert(done + rest =~= done.drop_last() + (seq![
                                    (idx, 1u64),
                                ] + rest));
                            },
                            Err(_) => {},
                        }
                    }
                }
                proof {
                    match goal {
                        Ok((bins, _)) => {
                            assert(bins =~= done);
                        },
                        Err(_) => {},
                    }
                }
                Ok(())
            },
            BinEncodingMode::ContiguousCounts => {
                let start = decode_signed_var_long(input)?;
                proof {
                    lemma_unzigzag(start);
                }
                let step = decode_signed_var_long(input)?;
                proof {
                    lemma_unzigzag(step);
                }
                let mut i: u64 = 0;
                let mut cur: i128 = start as i128;
                let ghost mut done: Seq<(i32, u64)> = Seq::empty();
                while i < num
                    invariant
                        self.wf(),
                        input.wf(),
                        input.bytes() == old(input).bytes(),
                        input.pos() >= old(input).pos(),
                        self.cap() == old(self).cap(),
                        self.is_empty_spec() ==> old(self).is_empty_spec(),
                        goal == parse_store_body(
                            old(input).bytes(),
                            old(input).pos(),
                            mode,
                            old_total,
                        ),
                        old_model == old(self).model(),
                        old_total == old(self).total_spec(),
                        i <= num,
                        -0x8000_0000_8000_0000 <= cur <= 0x8000_0000_8000_0000,
                        self.model() == fold_add(old_model, done),
                        self.total_spec() == old_total + bins_total(done),
                        match parse_bins(
                            input.bytes(),
                            input.pos(),
                            BinEncodingMode::ContiguousCounts,
                            (num - i) as nat,
                            cur as int,
                            step as int,
                            self.total_spec(),
                        ) {
                            Ok((rest, end)) => goal == Ok::<(Seq<(i32, u64)>, nat), ParseFail>(
                                (done + rest, end),
                            ),
                            Err(k) => goal == Err::<(Seq<(i32, u64)>, nat), ParseFail>(k),
                        },
                    decreases num - i,
                {
                    let count = match decode_var_double_count(input) {
                        Ok(c) => c,
                        Err(e) => {
                            return Err(e);
                        },
                    };
                    if cur < i32::MIN as i128 || cur > i32::MAX as i128 {
                        return Err(Error::InvalidArgument("The index does not fit in 32 bits."));
                    }
                    let idx: i32 = cur as i32;
                    if count > u64::MAX - self.get_total_count() {
                        return Err(Error::InvalidArgument("The total count overflows."));
                    }
                    let ghost before = *self;
                    self.add(idx, count);
                    proof {
                        lemma_add_model(before, *self, idx as int, count as nat);
                        let b = (idx, count);
                        assert(done.push(b).drop_last() =~= done);
                        done = done.push(b);
                    }
                    cur = cur + step as i128;
                    i = i + 1;
                    proof {
                        match parse_bins(
                            input.bytes(),
                            input.pos(),
                            BinEncodingMode::ContiguousCounts,
                            (num - i) as nat,
                            cur as int,
                            step as int,
                            self.total_spec(),
                        ) {
                            Ok((rest, end)) => {
                                assert(done + rest =~= done.drop_last() + (seq![
                                    (idx, count),
                                ] + rest));
                            },
                            Err(_) => {},
                        }
                    }
                }
                proof {
                    match goal {
                        Ok((bins, _)) => {
                            assert(bins =~= done);
                        },
                        Err(_) => {},
                    }
                }
                Ok(())
            },
        }
    }
}


/// The non-empty bucket count, taken from the front.
proof fn lemma_nonzero_front(s: CollapsingLowestDenseStore, lo: int, hi: int)
    requires
        lo < hi,
    ensures
        nonzero_bins(s, lo, hi) == (if s.count_at(lo) != 0 {
            1 as nat
        } else {
            0 as nat
        }) + nonzero_bins(s, lo + 1, hi),
    decreases hi - lo,
{
    if lo + 1 < hi {
        lemma_nonzero_front(s, lo, hi - 1);
    } else {
        assert(nonzero_bins(s, lo, lo) == 0);
        assert(nonzero_bins(s, lo + 1, hi) == 0);
    }
}

/// The ascending bin list, taken from the front.
proof fn lemma_ascending_front(s: CollapsingLowestDenseStore, lo: int, hi: int)
    requires
        lo < hi,
        i32::MIN <= lo <= i32::MAX,
    ensures
        ascending_bins(s, lo, hi) =~= (if s.count_at(lo) != 0 {
            seq![(lo as i32, s.count_at(lo) as u64)]
        } else {
            Seq::<(i32, u64)>::empty()
        }) + ascending_bins(s, lo + 1, hi),
    decreases hi - lo,
{
    if lo + 1 < hi {
        lemma_ascending_front(s, lo, hi - 1);
        assert(ascending_bins(s, lo, hi - 1) + (if s.count_at(hi - 1) != 0 && i32::MIN <= hi - 1
            <= i32::MAX {
            seq![((hi - 1) as i32, s.count_at(hi - 1) as u64)]
        } else {
            Seq::<(i32, u64)>::empty()
        }) =~= ascending_bins(s, lo, hi));
        assert(ascending_bins(s, lo + 1, hi - 1) + (if s.count_at(hi - 1) != 0 && i32::MIN <= hi
            - 1 <= i32::MAX {
            seq![((hi - 1) as i32, s.count_at(hi - 1) as u64)]
        } else {
            Seq::<(i32, u64)>::empty()
        }) =~= ascending_bins(s, lo + 1, hi));
    } else {
        assert(ascending_bins(s, lo, lo) =~= Seq::<(i32, u64)>::empty());
        assert(ascending_bins(s, lo + 1, hi) =~= Seq::<(i32, u64)>::empty());
        assert(ascending_bins(s, lo, hi) =~= ascending_bins(s, lo, lo) + (if s.count_at(lo) != 0
            && i32::MIN <= lo <= i32::MAX {
            seq![(lo as i32, s.count_at(lo) as u64)]
        } else {
            Seq::<(i32, u64)>::empty()
        }));
    }
}

/// Parsing the sparse section of buckets `i ..= max`, with `prev` the last
/// written index, yields exactly the non-empty bins in ascending order.
proof fn lemma_parse_sparse_bins(
    s: CollapsingLowestDenseStore,
    bytes: Seq<u8>,
    pos: nat,
    i: int,
    prev: int,
    acc: u64,
)
    requires
        s.wf(),
        !s.is_empty_spec(),
        s.min_spec() <= i <= s.max_spec() + 1,
        i32::MIN <= prev <= i32::MAX,
        forall|j: int|
            s.min_spec() <= j <= s.max_spec() ==> s.count_at(j) <= crate::varenc::MAX_WIRE_COUNT,
        acc + s.sum_counts(i, s.max_spec() + 1) <= u64::MAX,
        pos + cat_sparse_bins(s, i, s.max_spec() + 1, prev).len() <= bytes.len(),
        bytes.subrange(
            pos as int,
            pos + cat_sparse_bins(s, i, s.max_spec() + 1, prev).len() as int,
        ) == cat_sparse_bins(s, i, s.max_spec() + 1, prev),
    ensures
        parse_bins(
            bytes,
            pos,
            BinEncodingMode::IndexDeltasAndCounts,
            nonzero_bins(s, i, s.max_spec() + 1),
            prev,
            0,
            acc as nat,
        ) == Ok::<(Seq<(i32, u64)>, nat), ParseFail>(
            (
                ascending_bins(s, i, s.max_spec() + 1),
                pos + cat_sparse_bins(s, i, s.max_spec() + 1, prev).len(),
            ),
        ),
    decreases s.max_spec() + 1 - i,
{
    let hi = s.max_spec() + 1;
    if i == hi {
        assert(nonzero_bins(s, i, hi) == 0);
        assert(ascending_bins(s, i, hi) =~= Seq::<(i32, u64)>::empty());
    } else {
        lemma_nonzero_front(s, i, hi);
        lemma_ascending_front(s, i, hi);
        lemma_sum_split(s, i, i + 1, hi);
        assert(s.sum_counts(i, i) == 0);
        assert(s.sum_counts(i, i + 1) == s.count_at(i));
        let c = s.count_at(i);
        if c == 0 {
            assert(cat_sparse_bins(s, i, hi, prev) == cat_sparse_bins(s, i + 1, hi, prev));
            lemma_parse_sparse_bins(s, bytes, pos, i + 1, prev, acc);
        } else {
            let piece1 = svar_bytes((i - prev) as i64);
            let piece2 = vd_bytes(c);
            let rest = cat_sparse_bins(s, i + 1, hi, i);
            let whole = cat_sparse_bins(s, i, hi, prev);
            assert(whole =~= piece1 + piece2 + rest);
            assert(whole.len() == piece1.len() + piece2.len() + rest.len());
            let p1 = pos + piece1.len();
            let p2 = p1 + piece2.len();
            assert(bytes.subrange(pos as int, p1 as int) =~= piece1) by {
                assert forall|j: int| 0 <= j < piece1.len() implies bytes.subrange(
                    pos as int,
                    p1 as int,
                )[j] == piece1[j] by {
                    assert(bytes.subrange(pos as int, pos + whole.len() as int)[j] == whole[j]);
                }
            }
            assert(bytes.subrange(p1 as int, p2 as int) =~= piece2) by {
                assert forall|j: int| 0 <= j < piece2.len() implies bytes.subrange(
                    p1 as int,
                    p2 as int,
                )[j] == piece2[j] by {
                    assert(bytes.subrange(pos as int, pos + whole.len() as int)[j + piece1.len()]
                        == whole[j + piece1.len()]);
                }
            }
            assert(bytes.subrange(p2 as int, p2 + rest.len() as int) =~= rest) by {
                assert forall|j: int| 0 <= j < rest.len() implies bytes.subrange(
                    p2 as int,
                    p2 + rest.len() as int,
                )[j] == rest[j] by {
                    assert(bytes.subrange(pos as int, pos + whole.len() as int)[j + piece1.len()
                        + piece2.len()] == whole[j + piece1.len() + piece2.len()]);
                }
            }
            crate::varenc::lemma_svar_round_trip(bytes, pos, (i - prev) as i64);
            crate::varenc::lemma_vd_count_round_trip(bytes, p1, c as u64);
            lemma_parse_sparse_bins(s, bytes, p2, i + 1, i, (acc + c) as u64);
            assert(prev + unzigzag(zigzag((i - prev) as i64)) == i);
            assert(ascending_bins(s, i, hi) =~= seq![(i as i32, c as u64)] + ascending_bins(
                s,
                i + 1,
                hi,
            ));
        }
    }
}

/// Decoding the sparse wire body of a store restores exactly its non-empty
/// bins, lowest first: the round trip through the index-deltas-and-counts
/// layout loses nothing.
pub proof fn lemma_sparse_body_round_trip(
    s: CollapsingLowestDenseStore,
    bytes: Seq<u8>,
    pos: nat,
    acc: u64,
)
    requires
        s.wf(),
        !s.is_empty_spec(),
        forall|j: int|
            s.min_spec() <= j <= s.max_spec() ==> s.count_at(j) <= crate::varenc::MAX_WIRE_COUNT,
        acc + s.total_spec() <= u64::MAX,
        pos + sparse_body(s).len() <= bytes.len(),
        bytes.subrange(pos as int, pos + sparse_body(s).len() as int) == sparse_body(s),
    ensures
        parse_store_body(bytes, pos, BinEncodingMode::IndexDeltasAndCounts, acc as nat) == Ok::<
            (Seq<(i32, u64)>, nat),
            ParseFail,
        >((ascending_bins(s, s.min_spec(), s.max_spec() + 1), pos + sparse_body(s).len())),
{
    let whole = sparse_body(s);
    let k = nonzero_bins(s, s.min_spec(), s.max_spec() + 1);
    let h1 = uvar_bytes(k);
    let tail = cat_sparse_bins(s, s.min_spec(), s.max_spec() + 1, 0);
    let p1 = pos + h1.len();
    assert(whole =~= h1 + tail);
    assert(bytes.subrange(pos as int, p1 as int) =~= h1) by {
        assert forall|j: int| 0 <= j < h1.len() implies bytes.subrange(pos as int, p1 as int)[j]
            == h1[j] by {
            assert(bytes.subrange(pos as int, pos + whole.len() as int)[j] == whole[j]);
        }
    }
    assert(bytes.subrange(p1 as int, p1 + tail.len() as int) =~= tail) by {
        assert forall|j: int| 0 <= j < tail.len() implies bytes.subrange(
            p1 as int,
            p1 + tail.len() as int,
        )[j] == tail[j] by {
            assert(bytes.subrange(pos as int, pos + whole.len() as int)[j + h1.len()] == whole[j
                + h1.len()]);
        }
    }
    lemma_nonzero_le_span(s, s.min_spec(), s.max_spec() + 1);
    crate::varenc::lemma_uvar_round_trip(bytes, pos, k);
    lemma_sum_pad(s, s.offset_spec(), s.offset_spec() + s.cap() as int);
    lemma_parse_sparse_bins(s, bytes, p1, s.min_spec(), 0, acc);
}

/// No more non-empty buckets than buckets.
proof fn lemma_nonzero_le_span(s: CollapsingLowestDenseStore, lo: int, hi: int)
    requires
        lo <= hi,
    ensures
        nonzero_bins(s, lo, hi) <= hi - lo,
    decreases hi - lo,
{
    if lo < hi {
        lemma_nonzero_le_span(s, lo, hi - 1);
    }
}

/// An empty store holds no mass; no store holds more than 64 bits' worth.
pub proof fn lemma_empty_total(s: CollapsingLowestDenseStore)
    requires
        s.wf(),
    ensures
        s.is_empty_spec() ==> s.total_spec() == 0,
        !s.is_empty_spec() ==> s.min_spec() <= s.max_spec(),
        s.total_spec() <= u64::MAX,
{
}

/// An empty store has no mass in any bucket, so encoding it always
/// succeeds and writes nothing.
pub proof fn lemma_empty_store_counts(s: CollapsingLowestDenseStore)
    requires
        s.is_empty_spec(),
    ensures
        forall|j: int| s.count_at(j) == 0,
{
}

/// In a well-formed, non-empty store the touched range fits the capacity.
proof fn lemma_span_le_cap(s: CollapsingLowestDenseStore)
    requires
        s.wf(),
        !s.is_empty_spec(),
    ensures
        s.max_spec() - s.min_spec() + 1 <= s.cap(),
{
}


/// The first bucket at or above `i` whose counts, taken in ascending
/// order, exceed `rem`; the highest bucket when the mass runs out first.
pub open spec fn ascending_bucket(s: CollapsingLowestDenseStore, i: int, rem: nat) -> int
    decreases s.max_spec() - i,
{
    if i >= s.max_spec() {
        s.max_spec()
    } else if rem < s.count_at(i) {
        i
    } else {
        ascending_bucket(s, i + 1, (rem - s.count_at(i)) as nat)
    }
}

/// The first bucket at or below `i` whose counts, taken in descending
/// order, exceed `rem`; the lowest bucket when the mass runs out first.
pub open spec fn descending_bucket(s: CollapsingLowestDenseStore, i: int, rem: nat) -> int
    decreases i - s.min_spec(),
{
    if i <= s.min_spec() {
        s.min_spec()
    } else if rem < s.count_at(i) {
        i
    } else {
        descending_bucket(s, i - 1, (rem - s.count_at(i)) as nat)
    }
}

impl CollapsingLowestDenseStore {
    /// Walks the buckets upward from the lowest, consuming `rem` rank
    /// units, and gives the bucket the walk stops in.
    pub fn rank_bucket_ascending(&self, rem: u64) -> (r: i32)
        requires
            self.wf(),
            !self.is_empty_spec(),
        ensures
            r == ascending_bucket(*self, self.min_spec(), rem as nat),
            self.min_spec() <= r <= self.max_spec(),
    {
        let mut i: i64 = self.min_index;
        let mut left: u64 = rem;
        let ghost goal = ascending_bucket(*self, self.min_spec(), rem as nat);
        while i < self.max_index
            invariant
                self.wf(),
                !self.is_empty_spec(),
                self.min_spec() <= i <= self.max_spec(),
                goal == ascending_bucket(*self, self.min_spec(), rem as nat),
                goal == ascending_bucket(*self, i as int, left as nat),
            decreases self.max_index - i,
        {
            let c = self.get_count_at(i as i32);
            if left < c {
                return i as i32;
            }
            left = left - c;
            i = i + 1;
        }
        i as i32
    }

    /// Walks the buckets downward from the highest, consuming `rem` rank
    /// units, and gives the bucket the walk stops in.
    pub fn rank_bucket_descending(&self, rem: u64) -> (r: i32)
        requires
            self.wf(),
            !self.is_empty_spec(),
        ensures
            r == descending_bucket(*self, self.max_spec(), rem as nat),
            self.min_spec() <= r <= self.max_spec(),
    {
        let mut i: i64 = self.max_index;
        let mut left: u64 = rem;
        let ghost goal = descending_bucket(*self, self.max_spec(), rem as nat);
        while i > self.min_index
            invariant
                self.wf(),
                !self.is_empty_spec(),
                self.min_spec() <= i <= self.max_spec(),
                goal == descending_bucket(*self, self.max_spec(), rem as nat),
                goal == descending_bucket(*self, i as int, left as nat),
            decreases i - self.min_index,
        {
            let c = self.get_count_at(i as i32);
            if left < c {
                return i as i32;
            }
            left = left - c;
            i = i - 1;
        }
        i as i32
    }

    /// Merges every bucket of `other` in: exactly one `add` per non-empty
    /// bucket of `other`, lowest bucket first.
    pub fn merge_from(&mut self, other: &CollapsingLowestDenseStore)
        requires
            old(self).wf(),
            other.wf(),
            old(self).total_spec() + other.total_spec() <= u64::MAX,
        ensures
            final(self).wf(),
            final(self).cap() == old(self).cap(),
            other.is_empty_spec() ==> *final(self) == *old(self),
            !other.is_empty_spec() ==> final(self).model() == fold_add(
                old(self).model(),
                ascending_bins(*other, other.min_spec(), other.max_spec() + 1),
            ),
            final(self).total_spec() == old(self).total_spec() + other.total_spec(),
            final(self).is_empty_spec() ==> old(self).is_empty_spec(),
    {
        if other.is_empty() {
            return ;
        }
        let lo = other.min_index;
        let hi = other.max_index;
        proof {
            lemma_sum_pad(*other, other.offset_spec(), other.offset_spec() + other.cap() as int);
        }
        let mut i: i64 = lo;
        while i <= hi
            invariant
                self.wf(),
                other.wf(),
                !other.is_empty_spec(),
                lo == other.min_spec(),
                hi == other.max_spec(),
                lo <= i <= hi + 1,
                self.cap() == old(self).cap(),
                old(self).total_spec() + other.total_spec() <= u64::MAX,
                other.total_spec() == other.sum_counts(lo as int, hi + 1),
                self.total_spec() == old(self).total_spec() + other.sum_counts(lo as int, i as int),
                self.model() == fold_add(old(self).model(), ascending_bins(*other, lo as int, i as int)),
                self.is_empty_spec() ==> old(self).is_empty_spec(),
            decreases hi + 1 - i,
        {
            proof {
                lemma_sum_split(*other, lo as int, i as int, hi + 1);
                lemma_sum_split(*other, i as int, i + 1, hi + 1);
            }
            let c = other.get_count_at(i as i32);
            if c != 0 {
                let ghost before = *self;
                self.add(i as i32, c);
                proof {
                    lemma_add_model(before, *self, i as int, c as nat);
                    let bs = ascending_bins(*other, lo as int, i as int);
                    let b = (i as i32, c);
                    assert(ascending_bins(*other, lo as int, i + 1) =~= bs + seq![b]);
                    assert((bs + seq![b]).drop_last() =~= bs);
                    assert((bs + seq![b]).last() == b);
                }
            } else {
                proof {
                    assert(ascending_bins(*other, lo as int, i + 1) =~= ascending_bins(
                        *other,
                        lo as int,
                        i as int,
                    ));
                }
            }
            i = i + 1;
        }
        proof {
            assert(other.sum_counts(lo as int, hi + 1) == other.total_spec());
        }
    }
}

/// The first bucket at or above `i`, up to `hi`, holding any mass; `hi`
/// itself when none below it does.
pub open spec fn next_nonzero_up(s: CollapsingLowestDenseStore, i: int, hi: int) -> int
    decreases hi - i,
{
    if i >= hi {
        i
    } else if s.count_at(i) != 0 {
        i
    } else {
        next_nonzero_up(s, i + 1, hi)
    }
}

/// The first bucket at or below `i`, down to `lo`, holding any mass; `lo`
/// itself when none above it does.
pub open spec fn next_nonzero_down(s: CollapsingLowestDenseStore, i: int, lo: int) -> int
    decreases i - lo,
{
    if i <= lo {
        i
    } else if s.count_at(i) != 0 {
        i
    } else {
        next_nonzero_down(s, i - 1, lo)
    }
}

/// A restartable cursor over a store's buckets: an index range walked
/// upward or downward, replaying count lookups against the store, so no
/// borrow of the counter array is held.  The first step hands out the
/// range's first bucket as it stands; later steps skip empty buckets.
pub struct StoreIter {
    min_index: i64,
    max_index: i64,
    desc: bool,
}

impl StoreIter {
    pub closed spec fn lo(self) -> int {
        self.min_index as int
    }

    pub closed spec fn hi(self) -> int {
        self.max_index as int
    }

    pub closed spec fn desc_spec(self) -> bool {
        self.desc
    }

    pub fn new(min_index: i32, max_index: i32, desc: bool) -> (r: StoreIter)
        ensures
            r.lo() == min_index as int,
            r.hi() == max_index as int,
            r.desc_spec() == desc,
    {
        StoreIter { min_index: min_index as i64, max_index: max_index as i64, desc }
    }

    /// The next `(bucket index, count)` pair, or nothing once the range is
    /// exhausted.
    pub fn next(&mut self, store: &CollapsingLowestDenseStore) -> (r: Option<(i32, u64)>)
        requires
            store.wf(),
            i32::MIN <= old(self).lo() <= i32::MAX,
            i32::MIN <= old(self).hi() <= i32::MAX,
        ensures
            final(self).desc_spec() == old(self).desc_spec(),
            match r {
                None => old(self).lo() > old(self).hi() && *final(self) == *old(self),
                Some((index, count)) => {
                    &&& old(self).lo() <= old(self).hi()
                    &&& count == store.count_at(index as int)
                    &&& if old(self).desc_spec() {
                        &&& index as int == old(self).hi()
                        &&& final(self).lo() == old(self).lo()
                        &&& final(self).hi() == next_nonzero_down(
                            *store,
                            old(self).hi() - 1,
                            old(self).lo() - 1,
                        )
                    } else {
                        &&& index as int == old(self).lo()
                        &&& final(self).hi() == old(self).hi()
                        &&& final(self).lo() == next_nonzero_up(
                            *store,
                            old(self).lo() + 1,
                            old(self).hi() + 1,
                        )
                    }
                },
            },
    {
        if self.min_index > self.max_index {
            return None;
        }
        if self.desc {
            let index = self.max_index;
            let mut i: i64 = self.max_index - 1;
            let ghost goal = next_nonzero_down(*store, index - 1, self.lo() - 1);
            while i > self.min_index - 1 && store.get_count_at(i as i32) == 0
                invariant
                    store.wf(),
                    self.lo() - 1 <= i <= index - 1,
                    i32::MIN - 1 <= self.lo() - 1,
                    goal == next_nonzero_down(*store, i as int, self.lo() - 1),
                decreases i - self.min_index + 1,
            {
                i = i - 1;
            }
            self.max_index = i;
            let count = store.get_count_at(index as i32);
            Some((index as i32, count))
        } else {
            let index = self.min_index;
            let mut i: i64 = self.min_index + 1;
            let ghost goal = next_nonzero_up(*store, index + 1, self.hi() + 1);
            while i < self.max_index + 1 && store.get_count_at(i as i32) == 0
                invariant
                    store.wf(),
                    index + 1 <= i <= self.hi() + 1,
                    self.hi() + 1 <= i32::MAX + 1,
                    goal == next_nonzero_up(*store, i as int, self.hi() + 1),
                decreases self.max_index + 1 - i,
            {
                i = i + 1;
            }
            self.min_index = i;
            let count = store.get_count_at(index as i32);
            Some((index as i32, count))
        }
    }
}

/// The non-empty buckets of `lo ..= i`, highest first.
pub open spec fn descending_bins(s: CollapsingLowestDenseStore, i: int, lo: int) -> Seq<(i32, u64)>
    decreases i - lo + 1,
{
    if i < lo || i < i32::MIN || i > i32::MAX {
        Seq::<(i32, u64)>::empty()
    } else if s.count_at(i) != 0 {
        seq![(i as i32, s.count_at(i) as u64)] + descending_bins(s, i - 1, lo)
    } else {
        descending_bins(s, i - 1, lo)
    }
}

impl CollapsingLowestDenseStore {
    /// The non-empty `(bucket index, count)` pairs, highest bucket first.
    pub fn get_descending_stream(&self) -> (r: Vec<(i32, u64)>)
        requires
            self.wf(),
        ensures
            self.is_empty_spec() ==> r@ == Seq::<(i32, u64)>::empty(),
            !self.is_empty_spec() ==> r@ == descending_bins(*self, self.max_spec(), self.min_spec()),
    {
        let mut r: Vec<(i32, u64)> = Vec::new();
        if self.is_empty() {
            return r;
        }
        let lo = self.min_index;
        let mut i: i64 = self.max_index;
        let ghost goal = descending_bins(*self, self.max_spec(), self.min_spec());
        while i >= lo
            invariant
                self.wf(),
                !self.is_empty_spec(),
                lo == self.min_spec(),
                lo - 1 <= i <= self.max_spec(),
                goal == r@ + descending_bins(*self, i as int, lo as int),
            decreases i - lo + 1,
        {
            let c = self.get_count_at(i as i32);
            if c != 0 {
                r.push((i as i32, c));
            }
            i = i - 1;
            proof {
                assert(goal =~= r@ + descending_bins(*self, i as int, lo as int));
            }
        }
        proof {
            assert(goal =~= r@);
        }
        r
    }
}

/// Every bucket of `i ..< hi` with its count, zeros included, as the
/// contiguous-counts layout records them.
pub open spec fn dense_bins(s: CollapsingLowestDenseStore, i: int, hi: int) -> Seq<(i32, u64)>
    decreases hi - i,
{
    if i >= hi || i < i32::MIN || i > i32::MAX {
        Seq::<(i32, u64)>::empty()
    } else {
        seq![(i as i32, s.count_at(i) as u64)] + dense_bins(s, i + 1, hi)
    }
}

/// The dense count section, taken from the front.
proof fn lemma_cat_dense_front(s: CollapsingLowestDenseStore, lo: int, hi: int)
    requires
        lo < hi,
    ensures
        cat_dense_counts(s, lo, hi) =~= vd_bytes(s.count_at(lo)) + cat_dense_counts(s, lo + 1, hi),
    decreases hi - lo,
{
    if lo + 1 < hi {
        lemma_cat_dense_front(s, lo, hi - 1);
        assert(cat_dense_counts(s, lo + 1, hi) == cat_dense_counts(s, lo + 1, hi - 1) + vd_bytes(
            s.count_at(hi - 1),
        ));
        assert(cat_dense_counts(s, lo, hi) == cat_dense_counts(s, lo, hi - 1) + vd_bytes(
            s.count_at(hi - 1),
        ));
        assert((vd_bytes(s.count_at(lo)) + cat_dense_counts(s, lo + 1, hi - 1)) + vd_bytes(
            s.count_at(hi - 1),
        ) =~= vd_bytes(s.count_at(lo)) + (cat_dense_counts(s, lo + 1, hi - 1) + vd_bytes(
            s.count_at(hi - 1),
        )));
    } else {
        assert(cat_dense_counts(s, lo, lo) =~= Seq::<u8>::empty());
        assert(cat_dense_counts(s, lo + 1, hi) =~= Seq::<u8>::empty());
        assert(cat_dense_counts(s, lo, hi) =~= cat_dense_counts(s, lo, lo) + vd_bytes(
            s.count_at(lo),
        ));
        assert(cat_dense_counts(s, lo, hi) =~= vd_bytes(s.count_at(lo)) + cat_dense_counts(
            s,
            lo + 1,
            hi,
        ));
    }
}

/// Parsing the dense count section of buckets `i ..= max` onto `acc`
/// yields their mass on top of `acc`.
proof fn lemma_parse_dense_counts(
    s: CollapsingLowestDenseStore,
    bytes: Seq<u8>,
    pos: nat,
    i: int,
    acc: u64,
)
    requires
        s.wf(),
        !s.is_empty_spec(),
        s.min_spec() <= i <= s.max_spec() + 1,
        forall|j: int|
            s.min_spec() <= j <= s.max_spec() ==> s.count_at(j) <= crate::varenc::MAX_WIRE_COUNT,
        acc + s.sum_counts(i, s.max_spec() + 1) <= u64::MAX,
        pos + cat_dense_counts(s, i, s.max_spec() + 1).len() <= bytes.len(),
        bytes.subrange(pos as int, pos + cat_dense_counts(s, i, s.max_spec() + 1).len() as int)
            == cat_dense_counts(s, i, s.max_spec() + 1),
    ensures
        parse_bins(
            bytes,
            pos,
            BinEncodingMode::ContiguousCounts,
            (s.max_spec() + 1 - i) as nat,
            i,
            1,
            acc as nat,
        ) == Ok::<(Seq<(i32, u64)>, nat), ParseFail>(
            (
                dense_bins(s, i, s.max_spec() + 1),
                pos + cat_dense_counts(s, i, s.max_spec() + 1).len(),
            ),
        ),
    decreases s.max_spec() + 1 - i,
{
    let hi = s.max_spec() + 1;
    if i == hi {
    } else {
        lemma_cat_dense_front(s, i, hi);
        let piece = vd_bytes(s.count_at(i));
        let rest = cat_dense_counts(s, i + 1, hi);
        let whole = cat_dense_counts(s, i, hi);
        assert(whole.len() == piece.len() + rest.len());
        assert(bytes.subrange(pos as int, pos + piece.len() as int) =~= piece) by {
            assert forall|j: int| 0 <= j < piece.len() implies bytes.subrange(
                pos as int,
                pos + piece.len() as int,
            )[j] == piece[j] by {
                assert(bytes.subrange(pos as int, pos + whole.len() as int)[j] == whole[j]);
            }
        }
        let c = s.count_at(i);
        assert(c <= crate::varenc::MAX_WIRE_COUNT);
        crate::varenc::lemma_vd_count_round_trip(bytes, pos, c as u64);
        // The sum taken from the front.
        lemma_sum_split(s, i, i + 1, hi);
        assert(s.sum_counts(i, i) == 0);
        assert(s.sum_counts(i, i + 1) == s.count_at(i));
        let pos2 = pos + piece.len();
        assert(bytes.subrange(pos2 as int, pos2 + rest.len() as int) =~= rest) by {
            assert forall|j: int| 0 <= j < rest.len() implies bytes.subrange(
                pos2 as int,
                pos2 + rest.len() as int,
            )[j] == rest[j] by {
                assert(bytes.subrange(pos as int, pos + whole.len() as int)[j + piece.len()]
                    == whole[j + piece.len()]);
            }
        }
        lemma_parse_dense_counts(s, bytes, pos2, i + 1, (acc + c) as u64);
        assert(dense_bins(s, i, hi) =~= seq![(i as i32, c as u64)] + dense_bins(s, i + 1, hi));
    }
}

/// Decoding the dense wire body of a store restores exactly its mass: the
/// round trip through the contiguous-counts layout loses nothing.
pub proof fn lemma_dense_body_round_trip(
    s: CollapsingLowestDenseStore,
    bytes: Seq<u8>,
    pos: nat,
    acc: u64,
)
    requires
        s.wf(),
        !s.is_empty_spec(),
        forall|j: int|
            s.min_spec() <= j <= s.max_spec() ==> s.count_at(j) <= crate::varenc::MAX_WIRE_COUNT,
        acc + s.total_spec() <= u64::MAX,
        pos + dense_body(s).len() <= bytes.len(),
        bytes.subrange(pos as int, pos + dense_body(s).len() as int) == dense_body(s),
    ensures
        parse_store_body(bytes, pos, BinEncodingMode::ContiguousCounts, acc as nat) == Ok::<
            (Seq<(i32, u64)>, nat),
            ParseFail,
        >((dense_bins(s, s.min_spec(), s.max_spec() + 1), pos + dense_body(s).len())),
{
    let whole = dense_body(s);
    let nb = (s.max_spec() - s.min_spec() + 1) as nat;
    let h1 = uvar_bytes(nb);
    let h2 = svar_bytes(s.min_spec() as i64);
    let h3 = svar_bytes(1);
    let tail = cat_dense_counts(s, s.min_spec(), s.max_spec() + 1);
    let p1 = pos + h1.len();
    let p2 = p1 + h2.len();
    let p3 = p2 + h3.len();
    assert(whole =~= h1 + h2 + h3 + tail);
    assert(bytes.subrange(pos as int, p1 as int) =~= h1) by {
        assert forall|j: int| 0 <= j < h1.len() implies bytes.subrange(pos as int, p1 as int)[j]
            == h1[j] by {
            assert(bytes.subrange(pos as int, pos + whole.len() as int)[j] == whole[j]);
        }
    }
    assert(bytes.subrange(p1 as int, p2 as int) =~= h2) by {
        assert forall|j: int| 0 <= j < h2.len() implies bytes.subrange(p1 as int, p2 as int)[j]
            == h2[j] by {
            assert(bytes.subrange(pos as int, pos + whole.len() as int)[j + h1.len()] == whole[j
                + h1.len()]);
        }
    }
    assert(bytes.subrange(p2 as int, p3 as int) =~= h3) by {
        assert forall|j: int| 0 <= j < h3.len() implies bytes.subrange(p2 as int, p3 as int)[j]
            == h3[j] by {
            assert(bytes.subrange(pos as int, pos + whole.len() as int)[j + h1.len() + h2.len()]
                == whole[j + h1.len() + h2.len()]);
        }
    }
    assert(bytes.subrange(p3 as int, p3 + tail.len() as int) =~= tail) by {
        assert forall|j: int| 0 <= j < tail.len() implies bytes.subrange(
            p3 as int,
            p3 + tail.len() as int,
        )[j] == tail[j] by {
            assert(bytes.subrange(pos as int, pos + whole.len() as int)[j + h1.len() + h2.len()
                + h3.len()] == whole[j + h1.len() + h2.len() + h3.len()]);
        }
    }
    crate::varenc::lemma_uvar_round_trip(bytes, pos, nb);
    crate::varenc::lemma_svar_round_trip(bytes, p1, s.min_spec() as i64);
    crate::varenc::lemma_svar_round_trip(bytes, p2, 1);
    lemma_sum_pad(s, s.offset_spec(), s.offset_spec() + s.cap() as int);
    lemma_parse_dense_counts(s, bytes, p3, s.min_spec(), acc);
}


} // verus!
