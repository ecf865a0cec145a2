//! The sketch: one index mapping, a positive and a negative bucket store,
//! a zero-value counter and a running observation count, with the
//! flag-tagged binary format that persists and merges them.
//!
//! Bucket routing by sign, rank queries and the codec live here; turning a
//! real value into a bucket index, and bucket indices back into values, is
//! floating-point work done by the layer around this crate, which hands
//! indices and raw double bit patterns in and out.
use crate::buffer::le8;
use crate::buffer::Input;
use crate::buffer::Output;
use crate::error::Error;
use crate::flag::Flag;
use crate::flag::FlagType;
use crate::index_mapping::mapping_bytes;
use crate::index_mapping::IndexMapping;
use crate::index_mapping::IndexMappingLayout;
use crate::store::ascending_bucket;
use crate::store::descending_bucket;
use crate::store::ascending_bins;
use crate::store::bins_total;
use crate::store::fold_add;
use crate::store::spec_add;
use crate::store::parse_store_body;
use crate::store::store_bytes;
use crate::varenc::parse_vd_count;
use crate::varenc::ParseFail;
use crate::store::BinEncodingMode;
use crate::store::CollapsingLowestDenseStore;
use crate::varenc::decode_var_double_count;
use crate::varenc::encode_var_double_count;
use crate::varenc::vd_bytes;
use crate::varenc::MAX_WIRE_COUNT;
use vstd::prelude::*;

verus! {

/// Where a rank query lands: a bucket of the negative store, the zero
/// bucket, or a bucket of the positive store.
#[derive(Clone, Copy, Debug, PartialEq, Eq, Structural)]
pub enum QuantileBucket {
    Negative(i32),
    Zero,
    Positive(i32),
}

/// The aggregate fields a decoded stream carried, as raw double bit
/// patterns, for the floating-point layer to fold in.
pub struct DecodedSummary {
    pub sum_bits: Option<u64>,
    pub min_bits: Option<u64>,
    pub max_bits: Option<u64>,
}

/// The sub-markers of the sketch-feature fields.
pub const FEATURE_ZERO_COUNT: u8 = 1;

pub const FEATURE_COUNT: u8 = 2;

pub const FEATURE_SUM: u8 = 3;

pub const FEATURE_MIN: u8 = 4;

pub const FEATURE_MAX: u8 = 5;


/// The running outcome of parsing a flag-tagged stream: the store masses
/// and zero count so far, the last explicit count field, and the last sum,
/// minimum and maximum fields as raw double bits.
pub struct SketchFields {
    pub pos_total: nat,
    pub neg_total: nat,
    pub zero: nat,
    pub count_field: Option<u64>,
    pub sum_bits: Option<u64>,
    pub min_bits: Option<u64>,
    pub max_bits: Option<u64>,
}

/// The fields as they stand before any byte is read: the sketch's own
/// masses, and no aggregate fields seen yet.
pub open spec fn start_fields(s: DDSketch) -> SketchFields {
    SketchFields {
        pos_total: s.positive_spec().total_spec(),
        neg_total: s.negative_spec().total_spec(),
        zero: s.zero_spec(),
        count_field: None,
        sum_bits: None,
        min_bits: None,
        max_bits: None,
    }
}

/// The fields mid-decode: the sketch's current masses and the aggregate
/// fields collected so far.
pub open spec fn cur_fields(
    s: DDSketch,
    count_field: Option<u64>,
    sum_bits: Option<u64>,
    min_bits: Option<u64>,
    max_bits: Option<u64>,
) -> SketchFields {
    SketchFields {
        pos_total: s.positive_spec().total_spec(),
        neg_total: s.negative_spec().total_spec(),
        zero: s.zero_spec(),
        count_field,
        sum_bits,
        min_bits,
        max_bits,
    }
}

/// What a decoded stream adds to the observation count: its explicit count
/// field if it carried one, else the mass its fields brought.
pub open spec fn decoded_count(f: SketchFields, s: DDSketch) -> nat {
    match f.count_field {
        Some(c) => c as nat,
        None => ((f.pos_total + f.neg_total + f.zero) - (s.positive_spec().total_spec()
            + s.negative_spec().total_spec() + s.zero_spec())) as nat,
    }
}

/// Parses a flag-tagged stream of sketch fields from `pos` to the end of
/// the bytes, against the expected mapping, folding each field onto `acc`:
/// store fields add their bins' mass, zero-count fields add to the zero
/// counter, count/sum/minimum/maximum fields replace the ones seen before;
/// a mapping field must carry exactly the expected parameters.  Short when
/// the bytes run out inside a field; invalid on an unknown flag, a mapping
/// mismatch, a bad field or an overflow.  `fuel` bounds the field count;
/// the bytes' length always suffices, each field taking at least one byte.
#[verifier::opaque]
pub open spec fn parse_sketch(
    bytes: Seq<u8>,
    pos: nat,
    mapping: IndexMapping,
    acc: SketchFields,
    fuel: nat,
) -> Result<SketchFields, ParseFail>
    decreases fuel,
{
    if pos >= bytes.len() {
        Ok(acc)
    } else if fuel == 0 {
        Err(ParseFail::Short)
    } else {
        let b = bytes[pos as int];
        let sub = b / 4;
        if b % 4 == 2 {
            // An index-mapping field.
            if sub != 0 {
                Err(ParseFail::Invalid)
            } else if pos + 17 > bytes.len() {
                Err(ParseFail::Short)
            } else if crate::buffer::le8_at(bytes, pos as int + 1) != mapping.spec_gamma_bits()
                || crate::buffer::le8_at(bytes, pos as int + 9) != mapping.spec_index_offset_bits() {
                Err(ParseFail::Invalid)
            } else {
                parse_sketch(bytes, pos + 17, mapping, acc, (fuel - 1) as nat)
            }
        } else if b % 4 == 1 || b % 4 == 3 {
            // A store field.
            if sub < 1 || sub > 3 {
                Err(ParseFail::Invalid)
            } else {
                let mode = if sub == 1 {
                    BinEncodingMode::IndexDeltasAndCounts
                } else if sub == 2 {
                    BinEncodingMode::IndexDeltas
                } else {
                    BinEncodingMode::ContiguousCounts
                };
                let cur = if b % 4 == 1 {
                    acc.pos_total
                } else {
                    acc.neg_total
                };
                match parse_store_body(bytes, pos + 1, mode, cur) {
                    Err(k) => Err(k),
                    Ok((bins, end)) => {
                        let acc2 = if b % 4 == 1 {
                            SketchFields {
                                pos_total: acc.pos_total + bins_total(bins),
                                neg_total: acc.neg_total,
                                zero: acc.zero,
                                count_field: acc.count_field,
                                sum_bits: acc.sum_bits,
                                min_bits: acc.min_bits,
                                max_bits: acc.max_bits,
                            }
                        } else {
                            SketchFields {
                                pos_total: acc.pos_total,
                                neg_total: acc.neg_total + bins_total(bins),
                                zero: acc.zero,
                                count_field: acc.count_field,
                                sum_bits: acc.sum_bits,
                                min_bits: acc.min_bits,
                                max_bits: acc.max_bits,
                            }
                        };
                        parse_sketch(bytes, end, mapping, acc2, (fuel - 1) as nat)
                    },
                }
            }
        } else {
            // A sketch-feature field.
            if sub == FEATURE_ZERO_COUNT {
                match parse_vd_count(bytes, pos + 1) {
                    Err(k) => Err(k),
                    Ok((z, end)) => {
                        if acc.zero + z > u64::MAX {
                            Err(ParseFail::Invalid)
                        } else {
                            parse_sketch(
                                bytes,
                                end,
                                mapping,
                                SketchFields {
                                    pos_total: acc.pos_total,
                                    neg_total: acc.neg_total,
                                    zero: acc.zero + z,
                                    count_field: acc.count_field,
                                    sum_bits: acc.sum_bits,
                                    min_bits: acc.min_bits,
                                    max_bits: acc.max_bits,
                                },
                                (fuel - 1) as nat,
                            )
                        }
                    },
                }
            } else if sub == FEATURE_COUNT {
                match parse_vd_count(bytes, pos + 1) {
                    Err(k) => Err(k),
                    Ok((c, end)) => parse_sketch(
                        bytes,
                        end,
                        mapping,
                        SketchFields {
                            pos_total: acc.pos_total,
                            neg_total: acc.neg_total,
                            zero: acc.zero,
                            count_field: Some(c as u64),
                            sum_bits: acc.sum_bits,
                            min_bits: acc.min_bits,
                            max_bits: acc.max_bits,
                        },
                        (fuel - 1) as nat,
                    ),
                }
            } else if sub == FEATURE_SUM || sub == FEATURE_MIN || sub == FEATURE_MAX {
                if pos + 9 > bytes.len() {
                    Err(ParseFail::Short)
                } else {
                    let v = Some(crate::buffer::le8_at(bytes, pos as int + 1));
                    parse_sketch(
                        bytes,
                        pos + 9,
                        mapping,
                        SketchFields {
                            pos_total: acc.pos_total,
                            neg_total: acc.neg_total,
                            zero: acc.zero,
                            count_field: acc.count_field,
                            sum_bits: if sub == FEATURE_SUM {
                                v
                            } else {
                                acc.sum_bits
                            },
                            min_bits: if sub == FEATURE_MIN {
                                v
                            } else {
                                acc.min_bits
                            },
                            max_bits: if sub == FEATURE_MAX {
                                v
                            } else {
                                acc.max_bits
                            },
                        },
                        (fuel - 1) as nat,
                    )
                }
            } else {
                Err(ParseFail::Invalid)
            }
        }
    }
}

/// A quantile sketch over integer bucket indices.
pub struct DDSketch {
    mapping: IndexMapping,
    positive: CollapsingLowestDenseStore,
    negative: CollapsingLowestDenseStore,
    zero_count: u64,
    count: u64,
}

/// The wire bytes of a zero-count field.
pub open spec fn zero_field_bytes(zero: u64) -> Seq<u8> {
    if zero == 0 {
        Seq::<u8>::empty()
    } else {
        seq![Flag::spec_with_type(FlagType::SketchFeatures, FEATURE_ZERO_COUNT)] + vd_bytes(
            zero as nat,
        )
    }
}

/// The wire bytes of a count field.
pub open spec fn count_field_bytes(count: u64) -> Seq<u8> {
    seq![Flag::spec_with_type(FlagType::SketchFeatures, FEATURE_COUNT)] + vd_bytes(count as nat)
}

impl DDSketch {
    pub closed spec fn mapping_spec(self) -> IndexMapping {
        self.mapping
    }

    pub closed spec fn positive_spec(self) -> CollapsingLowestDenseStore {
        self.positive
    }

    pub closed spec fn negative_spec(self) -> CollapsingLowestDenseStore {
        self.negative
    }

    pub closed spec fn zero_spec(self) -> nat {
        self.zero_count as nat
    }

    pub closed spec fn count_spec(self) -> nat {
        self.count as nat
    }

    /// The mass actually held in buckets: what rank queries walk over.
    pub open spec fn mass(self) -> nat {
        self.negative_spec().total_spec() + self.zero_spec() + self.positive_spec().total_spec()
    }

    pub open spec fn wf(self) -> bool {
        &&& self.positive_spec().wf()
        &&& self.negative_spec().wf()
        &&& self.positive_spec().cap() == self.negative_spec().cap()
    }

    /// A fresh sketch over `mapping` whose stores hold at most `capacity`
    /// buckets each; fails exactly when the capacity is zero or beyond the
    /// 32-bit index domain.
    pub fn new(mapping: IndexMapping, capacity: usize) -> (r: Result<DDSketch, Error>)
        ensures
            match r {
                Ok(s) => 1 <= capacity <= 0x7FFF_FFFF && s.wf() && s.mapping_spec() == mapping
                    && s.count_spec() == 0 && s.zero_spec() == 0 && s.mass() == 0
                    && s.positive_spec().cap() == capacity,
                Err(e) => (capacity == 0 || capacity > 0x7FFF_FFFF) && e
                    matches Error::InvalidArgument(_),
            },
    {
        let positive = CollapsingLowestDenseStore::with_capacity(capacity)?;
        let negative = match CollapsingLowestDenseStore::with_capacity(capacity) {
            Ok(s) => s,
            Err(e) => {
                return Err(e);
            },
        };
        Ok(DDSketch { mapping, positive, negative, zero_count: 0, count: 0 })
    }

    pub fn mapping(&self) -> (r: &IndexMapping)
        ensures
            *r == self.mapping_spec(),
    {
        &self.mapping
    }

    pub fn get_count(&self) -> (r: u64)
        ensures
            r == self.count_spec(),
    {
        self.count
    }

    pub fn get_zero_count(&self) -> (r: u64)
        ensures
            r == self.zero_spec(),
    {
        self.zero_count
    }

    pub fn positive_store(&self) -> (r: &CollapsingLowestDenseStore)
        ensures
            *r == self.positive_spec(),
    {
        &self.positive
    }

    pub fn negative_store(&self) -> (r: &CollapsingLowestDenseStore)
        ensures
            *r == self.negative_spec(),
    {
        &self.negative
    }

    pub fn is_empty(&self) -> (r: bool)
        ensures
            r == (self.count_spec() == 0),
    {
        self.count == 0
    }

    /// Records one observation in the positive store's bucket `index`.
    pub fn accept_positive_index(&mut self, index: i32)
        requires
            old(self).wf(),
            old(self).count_spec() < u64::MAX,
            old(self).positive_spec().total_spec() < u64::MAX,
        ensures
            final(self).wf(),
            final(self).mapping_spec() == old(self).mapping_spec(),
            final(self).count_spec() == old(self).count_spec() + 1,
            final(self).zero_spec() == old(self).zero_spec(),
            final(self).negative_spec() == old(self).negative_spec(),
            final(self).positive_spec().total_spec() == old(self).positive_spec().total_spec() + 1,
            final(self).positive_spec().cap() == old(self).positive_spec().cap(),
            final(self).positive_spec().model() == spec_add(
                old(self).positive_spec().model(),
                index as int,
                1,
            ),
    {
        let ghost before = self.positive;
        self.positive.add(index, 1);
        proof {
            crate::store::lemma_add_model(before, self.positive, index as int, 1);
        }
        self.count = self.count + 1;
    }

    /// Records one observation in the negative store's bucket `index`
    /// (the bucket of the observation's magnitude).
    pub fn accept_negative_index(&mut self, index: i32)
        requires
            old(self).wf(),
            old(self).count_spec() < u64::MAX,
            old(self).negative_spec().total_spec() < u64::MAX,
        ensures
            final(self).wf(),
            final(self).mapping_spec() == old(self).mapping_spec(),
            final(self).count_spec() == old(self).count_spec() + 1,
            final(self).zero_spec() == old(self).zero_spec(),
            final(self).positive_spec() == old(self).positive_spec(),
            final(self).negative_spec().total_spec() == old(self).negative_spec().total_spec() + 1,
            final(self).negative_spec().cap() == old(self).negative_spec().cap(),
            final(self).negative_spec().model() == spec_add(
                old(self).negative_spec().model(),
                index as int,
                1,
            ),
    {
        let ghost before = self.negative;
        self.negative.add(index, 1);
        proof {
            crate::store::lemma_add_model(before, self.negative, index as int, 1);
        }
        self.count = self.count + 1;
    }

    /// Records one zero observation.
    pub fn accept_zero(&mut self)
        requires
            old(self).wf(),
            old(self).count_spec() < u64::MAX,
            old(self).zero_spec() < u64::MAX,
        ensures
            final(self).wf(),
            final(self).mapping_spec() == old(self).mapping_spec(),
            final(self).count_spec() == old(self).count_spec() + 1,
            final(self).zero_spec() == old(self).zero_spec() + 1,
            final(self).positive_spec() == old(self).positive_spec(),
            final(self).negative_spec() == old(self).negative_spec(),
    {
        self.zero_count = self.zero_count + 1;
        self.count = self.count + 1;
    }

    /// The bucket at rank `rank` of the merged logical ordering: the
    /// negative store walked from its highest index down, then the zero
    /// bucket, then the positive store walked up.
    pub open spec fn spec_bucket_at_rank(self, rank: nat) -> Option<QuantileBucket> {
        let nm = self.negative_spec().total_spec();
        let z = self.zero_spec();
        if rank < nm {
            Some(
                QuantileBucket::Negative(
                    descending_bucket(
                        self.negative_spec(),
                        self.negative_spec().max_spec(),
                        rank,
                    ) as i32,
                ),
            )
        } else if rank < nm + z {
            Some(QuantileBucket::Zero)
        } else if rank < self.mass() {
            Some(
                QuantileBucket::Positive(
                    ascending_bucket(
                        self.positive_spec(),
                        self.positive_spec().min_spec(),
                        (rank - nm - z) as nat,
                    ) as i32,
                ),
            )
        } else {
            None
        }
    }

    /// Walks the merged ordering to the bucket holding rank `rank`; fails
    /// exactly when the rank is at or beyond the held mass.
    pub fn quantile_bucket(&self, rank: u64) -> (r: Result<QuantileBucket, Error>)
        requires
            self.wf(),
        ensures
            match r {
                Ok(b) => Some(b) == self.spec_bucket_at_rank(rank as nat),
                Err(e) => rank >= self.mass() && e matches Error::InvalidArgument(_),
            },
    {
        let nm = self.negative.get_total_count();
        let z = self.zero_count;
        proof {
            crate::store::lemma_empty_total(self.negative);
            crate::store::lemma_empty_total(self.positive);
        }
        if rank < nm {
            let b = self.negative.rank_bucket_descending(rank);
            Ok(QuantileBucket::Negative(b))
        } else if (rank as u128) < nm as u128 + z as u128 {
            Ok(QuantileBucket::Zero)
        } else if (rank as u128) < nm as u128 + z as u128
            + self.positive.get_total_count() as u128 {
            let rem = rank - nm - z;
            let b = self.positive.rank_bucket_ascending(rem);
            Ok(QuantileBucket::Positive(b))
        } else {
            Err(Error::InvalidArgument("The rank is beyond the sketch's stored mass."))
        }
    }

    /// Merges another sketch in: bucket by bucket for the stores, by
    /// addition for the zero and observation counts.  Fails exactly when
    /// the mappings differ, and then changes nothing.
    pub fn merge_with(&mut self, other: &DDSketch) -> (r: Result<(), Error>)
        requires
            old(self).wf(),
            other.wf(),
            old(self).count_spec() + other.count_spec() <= u64::MAX,
            old(self).zero_spec() + other.zero_spec() <= u64::MAX,
            old(self).positive_spec().total_spec() + other.positive_spec().total_spec()
                <= u64::MAX,
            old(self).negative_spec().total_spec() + other.negative_spec().total_spec()
                <= u64::MAX,
        ensures
            final(self).wf(),
            final(self).mapping_spec() == old(self).mapping_spec(),
            match r {
                Ok(_) => {
                    &&& old(self).mapping_spec() == other.mapping_spec()
                    &&& final(self).count_spec() == old(self).count_spec() + other.count_spec()
                    &&& final(self).zero_spec() == old(self).zero_spec() + other.zero_spec()
                    &&& final(self).positive_spec().total_spec() == old(
                        self,
                    ).positive_spec().total_spec() + other.positive_spec().total_spec()
                    &&& final(self).negative_spec().total_spec() == old(
                        self,
                    ).negative_spec().total_spec() + other.negative_spec().total_spec()
                    &&& other.positive_spec().is_empty_spec() ==> final(self).positive_spec()
                        == old(self).positive_spec()
                    &&& !other.positive_spec().is_empty_spec() ==> final(self).positive_spec().model() == fold_add(
                        old(self).positive_spec().model(),
                        ascending_bins(
                            other.positive_spec(),
                            other.positive_spec().min_spec(),
                            other.positive_spec().max_spec() + 1,
                        ),
                    )
                    &&& other.negative_spec().is_empty_spec() ==> final(self).negative_spec()
                        == old(self).negative_spec()
                    &&& !other.negative_spec().is_empty_spec() ==> final(self).negative_spec().model() == fold_add(
                        old(self).negative_spec().model(),
                        ascending_bins(
                            other.negative_spec(),
                            other.negative_spec().min_spec(),
                            other.negative_spec().max_spec() + 1,
                        ),
                    )
                },
                Err(e) => {
                    &&& old(self).mapping_spec() != other.mapping_spec()
                    &&& *final(self) == *old(self)
                    &&& e matches Error::InvalidArgument(_)
                },
            },
    {
        if !(self.mapping == other.mapping) {
            return Err(Error::InvalidArgument("The index mappings do not match."));
        }
        self.positive.merge_from(&other.positive);
        self.negative.merge_from(&other.negative);
        self.zero_count = self.zero_count + other.zero_count;
        self.count = self.count + other.count;
        Ok(())
    }
}

/// Every count a sketch holds fits the wire format's integer range.
pub open spec fn encodable(s: DDSketch) -> bool {
    &&& forall|j: int|
        s.positive_spec().min_spec() <= j <= s.positive_spec().max_spec()
            ==> s.positive_spec().count_at(j) <= MAX_WIRE_COUNT
    &&& forall|j: int|
        s.negative_spec().min_spec() <= j <= s.negative_spec().max_spec()
            ==> s.negative_spec().count_at(j) <= MAX_WIRE_COUNT
    &&& s.zero_spec() <= MAX_WIRE_COUNT
    &&& s.count_spec() <= MAX_WIRE_COUNT
}

/// The native wire image of a sketch: mapping, positive store, negative
/// store, zero count, observation count.
pub open spec fn sketch_bytes(s: DDSketch) -> Seq<u8> {
    mapping_bytes(s.mapping_spec()) + store_bytes(s.positive_spec(), FlagType::PositiveStore)
        + store_bytes(s.negative_spec(), FlagType::NegativeStore) + zero_field_bytes(
        s.zero_spec() as u64,
    ) + count_field_bytes(s.count_spec() as u64)
}

/// The trailer of aggregate fields: sum, minimum and maximum, as raw
/// little-endian doubles.
pub open spec fn summary_bytes(sum_bits: u64, min_bits: u64, max_bits: u64) -> Seq<u8> {
    seq![Flag::spec_with_type(FlagType::SketchFeatures, FEATURE_SUM)] + le8(sum_bits) + seq![
        Flag::spec_with_type(FlagType::SketchFeatures, FEATURE_MIN),
    ] + le8(min_bits) + seq![Flag::spec_with_type(FlagType::SketchFeatures, FEATURE_MAX)] + le8(
        max_bits,
    )
}

/// The columnar-compatible wire image: the same self-describing fields in
/// a fixed order, aggregates first, and no sum, minimum or maximum.
pub open spec fn clickhouse_bytes(s: DDSketch) -> Seq<u8> {
    mapping_bytes(s.mapping_spec()) + count_field_bytes(s.count_spec() as u64) + zero_field_bytes(
        s.zero_spec() as u64,
    ) + store_bytes(s.positive_spec(), FlagType::PositiveStore) + store_bytes(
        s.negative_spec(),
        FlagType::NegativeStore,
    )
}

impl DDSketch {
    /// Writes the sketch's fields onto `out`; fails exactly when some
    /// count exceeds the wire format's integer range.
    fn encode_into(&self, out: &mut Output) -> (r: Result<(), Error>)
        requires
            self.wf(),
        ensures
            match r {
                Ok(_) => encodable(*self) && final(out)@ == old(out)@ + sketch_bytes(*self),
                Err(e) => !encodable(*self) && e matches Error::InvalidArgument(_),
            },
    {
        self.mapping.encode(out);
        self.positive.encode(out, FlagType::PositiveStore)?;
        self.negative.encode(out, FlagType::NegativeStore)?;
        if self.zero_count > 0 {
            Flag::with_type(FlagType::SketchFeatures, FEATURE_ZERO_COUNT).encode(out);
            encode_var_double_count(out, self.zero_count)?;
        }
        Flag::with_type(FlagType::SketchFeatures, FEATURE_COUNT).encode(out);
        encode_var_double_count(out, self.count)?;
        proof {
            assert(out@ =~= old(out)@ + sketch_bytes(*self));
        }
        Ok(())
    }

    /// The sketch's native wire encoding; fails exactly when some count
    /// exceeds the wire format's integer range.
    pub fn encode(&self) -> (r: Result<Vec<u8>, Error>)
        requires
            self.wf(),
        ensures
            match r {
                Ok(v) => encodable(*self) && v@ == sketch_bytes(*self),
                Err(e) => !encodable(*self) && e matches Error::InvalidArgument(_),
            },
    {
        let mut out = Output::new();
        self.encode_into(&mut out)?;
        proof {
            assert(out@ =~= sketch_bytes(*self));
        }
        Ok(out.into_vec())
    }

    /// The native encoding followed by the sum, minimum and maximum of the
    /// observations, handed in as raw double bit patterns.
    pub fn encode_with_summary(&self, sum_bits: u64, min_bits: u64, max_bits: u64) -> (r: Result<
        Vec<u8>,
        Error,
    >)
        requires
            self.wf(),
        ensures
            match r {
                Ok(v) => encodable(*self) && v@ == sketch_bytes(*self) + summary_bytes(
                    sum_bits,
                    min_bits,
                    max_bits,
                ),
                Err(e) => !encodable(*self) && e matches Error::InvalidArgument(_),
            },
    {
        let mut out = Output::new();
        self.encode_into(&mut out)?;
        Flag::with_type(FlagType::SketchFeatures, FEATURE_SUM).encode(&mut out);
        out.write_double_le_bits(sum_bits);
        Flag::with_type(FlagType::SketchFeatures, FEATURE_MIN).encode(&mut out);
        out.write_double_le_bits(min_bits);
        Flag::with_type(FlagType::SketchFeatures, FEATURE_MAX).encode(&mut out);
        out.write_double_le_bits(max_bits);
        proof {
            assert(out@ =~= sketch_bytes(*self) + summary_bytes(sum_bits, min_bits, max_bits));
        }
        Ok(out.into_vec())
    }

    /// The columnar-compatible encoding: aggregates first, no sum, minimum
    /// or maximum fields.
    pub fn encode_clickhouse(&self) -> (r: Result<Vec<u8>, Error>)
        requires
            self.wf(),
        ensures
            match r {
                Ok(v) => encodable(*self) && v@ == clickhouse_bytes(*self),
                Err(e) => !encodable(*self) && e matches Error::InvalidArgument(_),
            },
    {
        let mut out = Output::new();
        self.mapping.encode(&mut out);
        Flag::with_type(FlagType::SketchFeatures, FEATURE_COUNT).encode(&mut out);
        encode_var_double_count(&mut out, self.count)?;
        if self.zero_count > 0 {
            Flag::with_type(FlagType::SketchFeatures, FEATURE_ZERO_COUNT).encode(&mut out);
            encode_var_double_count(&mut out, self.zero_count)?;
        }
        self.positive.encode(&mut out, FlagType::PositiveStore)?;
        self.negative.encode(&mut out, FlagType::NegativeStore)?;
        proof {
            assert(out@ =~= clickhouse_bytes(*self));
        }
        Ok(out.into_vec())
    }

    /// Reads a stream of flag-tagged fields and merges them in, exactly as
    /// the field parser describes: store fields add their bins, zero-count
    /// fields add to the zero counter, a mapping field must equal this
    /// sketch's mapping, and the observation count grows by the stream's
    /// explicit count field if it has one, else by the mass the stream
    /// carried.  The last sum, minimum and maximum fields come back as raw
    /// bits for the caller to fold in.  A truncated stream fails with an
    /// I/O error; an unknown flag, a mapping mismatch, a bad field or an
    /// overflowing count fails with an invalid argument; the fields before
    /// the bad one remain applied.
    #[verifier::rlimit(100)]
    #[verifier::spinoff_prover]
    pub fn decode_and_merge_with(&mut self, bytes: &Vec<u8>) -> (r: Result<DecodedSummary, Error>)
        requires
            old(self).wf(),
        ensures
            final(self).wf(),
            final(self).mapping_spec() == old(self).mapping_spec(),
            final(self).positive_spec().cap() == old(self).positive_spec().cap(),
            final(self).negative_spec().cap() == old(self).negative_spec().cap(),
            final(self).count_spec() >= old(self).count_spec(),
            match r {
                Ok(summary) => match parse_sketch(
                    bytes@,
                    0,
                    old(self).mapping_spec(),
                    start_fields(*old(self)),
                    bytes@.len(),
                ) {
                    Ok(f) => {
                        &&& final(self).positive_spec().total_spec() == f.pos_total
                        &&& final(self).negative_spec().total_spec() == f.neg_total
                        &&& final(self).zero_spec() == f.zero
                        &&& summary.sum_bits == f.sum_bits
                        &&& summary.min_bits == f.min_bits
                        &&& summary.max_bits == f.max_bits
                        &&& final(self).count_spec() == old(self).count_spec() + decoded_count(
                            f,
                            *old(self),
                        )
                    },
                    Err(_) => false,
                },
                Err(e) => match parse_sketch(
                    bytes@,
                    0,
                    old(self).mapping_spec(),
                    start_fields(*old(self)),
                    bytes@.len(),
                ) {
                    Ok(f) => old(self).count_spec() + decoded_count(f, *old(self)) > u64::MAX && e
                        matches Error::InvalidArgument(_),
                    Err(k) => match k {
                        ParseFail::Short => e matches Error::IoError(_),
                        ParseFail::Invalid => e matches Error::InvalidArgument(_),
                    },
                },
            },
    {
        let ghost goal = parse_sketch(
            bytes@,
            0,
            old(self).mapping_spec(),
            start_fields(*old(self)),
            bytes@.len(),
        );
        let mut input = Input::new(bytes);
        let mut sum_bits: Option<u64> = None;
        let mut min_bits: Option<u64> = None;
        let mut max_bits: Option<u64> = None;
        let mut count_field: Option<u64> = None;
        let mut bin_mass: u128 = 0;
        let ghost mut fuel: nat = bytes@.len();
        while input.has_remaining()
            invariant
                self.wf(),
                input.wf(),
                input.bytes() == bytes@,
                self.mapping_spec() == old(self).mapping_spec(),
                self.positive_spec().cap() == old(self).positive_spec().cap(),
                self.negative_spec().cap() == old(self).negative_spec().cap(),
                self.count_spec() == old(self).count_spec(),
                goal == parse_sketch(
                    bytes@,
                    0,
                    old(self).mapping_spec(),
                    start_fields(*old(self)),
                    bytes@.len(),
                ),
                self.positive_spec().total_spec() >= old(self).positive_spec().total_spec(),
                self.negative_spec().total_spec() >= old(self).negative_spec().total_spec(),
                self.zero_spec() >= old(self).zero_spec(),
                bin_mass == (self.positive_spec().total_spec() - old(
                    self,
                ).positive_spec().total_spec()) + (self.negative_spec().total_spec() - old(
                    self,
                ).negative_spec().total_spec()) + (self.zero_spec() - old(self).zero_spec()),
                fuel >= input.bytes().len() - input.pos(),
                goal == parse_sketch(
                    input.bytes(),
                    input.pos(),
                    self.mapping_spec(),
                    cur_fields(*self, count_field, sum_bits, min_bits, max_bits),
                    fuel,
                ),
            decreases input.bytes().len() - input.pos(),
        {
            let ghost p0 = input.pos();
            let ghost acc0 = cur_fields(*self, count_field, sum_bits, min_bits, max_bits);
            let ghost m0 = self.mapping_spec();
            let flag = Flag::decode(&mut input)?;
            let ghost fuel1: nat = (fuel - 1) as nat;
            match flag.get_type() {
                FlagType::IndexMapping => {
                    let _layout = match IndexMappingLayout::of_flag(&flag) {
                        Ok(l) => l,
                        Err(e) => {
                            proof {
                                assert(goal == Err::<SketchFields, ParseFail>(ParseFail::Invalid))
                                    by {
                                    reveal_with_fuel(parse_sketch, 1);
                                }
                            }
                            return Err(e);
                        },
                    };
                    let ghost p = input.pos();
                    let decoded = match IndexMapping::decode_body(&mut input) {
                        Ok(m) => m,
                        Err(e) => {
                            proof {
                                assert(goal == Err::<SketchFields, ParseFail>(ParseFail::Short))
                                    by {
                                    reveal_with_fuel(parse_sketch, 1);
                                }
                            }
                            return Err(e);
                        },
                    };
                    proof {
                        crate::buffer::lemma_le8_inverse(decoded.spec_gamma_bits());
                        crate::buffer::lemma_le8_inverse(decoded.spec_index_offset_bits());
                        assert(crate::buffer::le8_at(bytes@, p as int)
                            == decoded.spec_gamma_bits());
                        assert(crate::buffer::le8_at(bytes@, p as int + 8)
                            == decoded.spec_index_offset_bits());
                    }
                    if !(decoded == self.mapping) {
                        proof {
                            assert(goal == Err::<SketchFields, ParseFail>(ParseFail::Invalid)) by {
                                reveal_with_fuel(parse_sketch, 1);
                            }
                        }
                        return Err(Error::InvalidArgument("The index mappings do not match."));
                    }
                    proof {
                        fuel = fuel1;
                        assert(goal == parse_sketch(
                            input.bytes(),
                            input.pos(),
                            self.mapping_spec(),
                            cur_fields(*self, count_field, sum_bits, min_bits, max_bits),
                            fuel,
                        )) by {
                            reveal_with_fuel(parse_sketch, 1);
                            assert(cur_fields(*self, count_field, sum_bits, min_bits, max_bits)
                                == acc0);
                        }
                    }
                },
                FlagType::PositiveStore => {
                    let mode = match BinEncodingMode::of_flag(flag.get_marker()) {
                        Ok(m) => m,
                        Err(e) => {
                            proof {
                                assert(goal == Err::<SketchFields, ParseFail>(ParseFail::Invalid))
                                    by {
                                    reveal_with_fuel(parse_sketch, 1);
                                }
                            }
                            return Err(e);
                        },
                    };
                    let before = self.positive.get_total_count();
                    match self.positive.decode_and_merge_with(&mut input, mode) {
                        Ok(_) => {},
                        Err(e) => {
                            proof {
                                assert(match parse_sketch(bytes@, p0, m0, acc0, fuel) {
                                    Ok(_) => false,
                                    Err(k) => match k {
                                        ParseFail::Short => e matches Error::IoError(_),
                                        ParseFail::Invalid => e
                                            matches Error::InvalidArgument(_),
                                    },
                                }) by {
                                    reveal_with_fuel(parse_sketch, 1);
                                }
                            }
                            return Err(e);
                        },
                    }
                    let after = self.positive.get_total_count();
                    proof {
                        crate::store::lemma_empty_total(self.positive_spec());
                        crate::store::lemma_empty_total(self.negative_spec());
                    }
                    bin_mass = bin_mass + (after as u128 - before as u128);
                    proof {
                        fuel = fuel1;
                        assert(goal == parse_sketch(
                            input.bytes(),
                            input.pos(),
                            self.mapping_spec(),
                            cur_fields(*self, count_field, sum_bits, min_bits, max_bits),
                            fuel,
                        )) by {
                            reveal_with_fuel(parse_sketch, 1);
                        }
                    }
                },
                FlagType::NegativeStore => {
                    let mode = match BinEncodingMode::of_flag(flag.get_marker()) {
                        Ok(m) => m,
                        Err(e) => {
                            proof {
                                assert(goal == Err::<SketchFields, ParseFail>(ParseFail::Invalid))
                                    by {
                                    reveal_with_fuel(parse_sketch, 1);
                                }
                            }
                            return Err(e);
                        },
                    };
                    let before = self.negative.get_total_count();
                    match self.negative.decode_and_merge_with(&mut input, mode) {
                        Ok(_) => {},
                        Err(e) => {
                            proof {
                                assert(match parse_sketch(bytes@, p0, m0, acc0, fuel) {
                                    Ok(_) => false,
                                    Err(k) => match k {
                                        ParseFail::Short => e matches Error::IoError(_),
                                        ParseFail::Invalid => e
                                            matches Error::InvalidArgument(_),
                                    },
                                }) by {
                                    reveal_with_fuel(parse_sketch, 1);
                                }
                            }
                            return Err(e);
                        },
                    }
                    let after = self.negative.get_total_count();
                    proof {
                        crate::store::lemma_empty_total(self.positive_spec());
                        crate::store::lemma_empty_total(self.negative_spec());
                    }
                    bin_mass = bin_mass + (after as u128 - before as u128);
                    proof {
                        fuel = fuel1;
                        assert(goal == parse_sketch(
                            input.bytes(),
                            input.pos(),
                            self.mapping_spec(),
                            cur_fields(*self, count_field, sum_bits, min_bits, max_bits),
                            fuel,
                        )) by {
                            reveal_with_fuel(parse_sketch, 1);
                        }
                    }
                },
                FlagType::SketchFeatures => {
                    let marker = flag.get_marker() / 4;
                    if marker == FEATURE_ZERO_COUNT {
                        let z = match decode_var_double_count(&mut input) {
                            Ok(z) => z,
                            Err(e) => {
                                proof {
                                    assert(match parse_sketch(bytes@, p0, m0, acc0, fuel) {
                                        Ok(_) => false,
                                        Err(k) => match k {
                                            ParseFail::Short => e matches Error::IoError(_),
                                            ParseFail::Invalid => e
                                                matches Error::InvalidArgument(_),
                                        },
                                    }) by {
                                        reveal_with_fuel(parse_sketch, 1);
                                    }
                                }
                                return Err(e);
                            },
                        };
                        if z > u64::MAX - self.zero_count {
                            proof {
                                assert(goal == Err::<SketchFields, ParseFail>(ParseFail::Invalid))
                                    by {
                                    reveal_with_fuel(parse_sketch, 1);
                                }
                            }
                            return Err(Error::InvalidArgument("The zero count overflows."));
                        }
                        self.zero_count = self.zero_count + z;
                        proof {
                            crate::store::lemma_empty_total(self.positive_spec());
                            crate::store::lemma_empty_total(self.negative_spec());
                        }
                        bin_mass = bin_mass + z as u128;
                        proof {
                            fuel = fuel1;
                            assert(goal == parse_sketch(
                                input.bytes(),
                                input.pos(),
                                self.mapping_spec(),
                                cur_fields(*self, count_field, sum_bits, min_bits, max_bits),
                                fuel,
                            )) by {
                                reveal_with_fuel(parse_sketch, 1);
                            }
                        }
                    } else if marker == FEATURE_COUNT {
                        let c = match decode_var_double_count(&mut input) {
                            Ok(c) => c,
                            Err(e) => {
                                proof {
                                    assert(match parse_sketch(bytes@, p0, m0, acc0, fuel) {
                                        Ok(_) => false,
                                        Err(k) => match k {
                                            ParseFail::Short => e matches Error::IoError(_),
                                            ParseFail::Invalid => e
                                                matches Error::InvalidArgument(_),
                                        },
                                    }) by {
                                        reveal_with_fuel(parse_sketch, 1);
                                    }
                                }
                                return Err(e);
                            },
                        };
                        count_field = Some(c);
                        proof {
                            fuel = fuel1;
                            assert(goal == parse_sketch(
                                input.bytes(),
                                input.pos(),
                                self.mapping_spec(),
                                cur_fields(*self, count_field, sum_bits, min_bits, max_bits),
                                fuel,
                            )) by {
                                reveal_with_fuel(parse_sketch, 1);
                            }
                        }
                    } else if marker == FEATURE_SUM || marker == FEATURE_MIN || marker
                        == FEATURE_MAX {
                        let b = match input.read_double_le_bits() {
                            Ok(b) => b,
                            Err(e) => {
                                proof {
                                    assert(goal == Err::<SketchFields, ParseFail>(
                                        ParseFail::Short,
                                    )) by {
                                        reveal_with_fuel(parse_sketch, 1);
                                    }
                                }
                                return Err(e);
                            },
                        };
                        proof {
                            crate::buffer::lemma_le8_inverse(b);
                        }
                        if marker == FEATURE_SUM {
                            sum_bits = Some(b);
                        } else if marker == FEATURE_MIN {
                            min_bits = Some(b);
                        } else {
                            max_bits = Some(b);
                        }
                        proof {
                            fuel = fuel1;
                            assert(goal == parse_sketch(
                                input.bytes(),
                                input.pos(),
                                self.mapping_spec(),
                                cur_fields(*self, count_field, sum_bits, min_bits, max_bits),
                                fuel,
                            )) by {
                                reveal_with_fuel(parse_sketch, 1);
                                assert(crate::buffer::le8_at(bytes@, p0 as int + 1) == b);
                            }
                        }
                    } else {
                        proof {
                            assert(goal == Err::<SketchFields, ParseFail>(ParseFail::Invalid)) by {
                                reveal_with_fuel(parse_sketch, 1);
                            }
                        }
                        return Err(Error::InvalidArgument("Unknown SketchFeatures flag."));
                    }
                },
            }
        }
        proof {
            assert(goal == Ok::<SketchFields, ParseFail>(
                cur_fields(*self, count_field, sum_bits, min_bits, max_bits),
            )) by {
                reveal_with_fuel(parse_sketch, 1);
            }
        }
        let added: u128 = match count_field {
            Some(c) => c as u128,
            None => bin_mass,
        };
        if added > (u64::MAX - self.count) as u128 {
            return Err(Error::InvalidArgument("The total count overflows."));
        }
        self.count = self.count + added as u64;
        Ok(DecodedSummary { sum_bits, min_bits, max_bits })
    }

    /// Reads the columnar-compatible format; the fields being
    /// self-describing, this is the same dispatch and the same contract as
    /// the native decoder.
    pub fn decode_clickhouse_and_merge_with(&mut self, bytes: &Vec<u8>) -> (r: Result<
        DecodedSummary,
        Error,
    >)
        requires
            old(self).wf(),
        ensures
            final(self).wf(),
            final(self).mapping_spec() == old(self).mapping_spec(),
            final(self).positive_spec().cap() == old(self).positive_spec().cap(),
            final(self).negative_spec().cap() == old(self).negative_spec().cap(),
            final(self).count_spec() >= old(self).count_spec(),
            match r {
                Ok(summary) => match parse_sketch(
                    bytes@,
                    0,
                    old(self).mapping_spec(),
                    start_fields(*old(self)),
                    bytes@.len(),
                ) {
                    Ok(f) => {
                        &&& final(self).positive_spec().total_spec() == f.pos_total
                        &&& final(self).negative_spec().total_spec() == f.neg_total
                        &&& final(self).zero_spec() == f.zero
                        &&& summary.sum_bits == f.sum_bits
                        &&& summary.min_bits == f.min_bits
                        &&& summary.max_bits == f.max_bits
                        &&& final(self).count_spec() == old(self).count_spec() + decoded_count(
                            f,
                            *old(self),
                        )
                    },
                    Err(_) => false,
                },
                Err(e) => match parse_sketch(
                    bytes@,
                    0,
                    old(self).mapping_spec(),
                    start_fields(*old(self)),
                    bytes@.len(),
                ) {
                    Ok(f) => old(self).count_spec() + decoded_count(f, *old(self)) > u64::MAX && e
                        matches Error::InvalidArgument(_),
                    Err(k) => match k {
                        ParseFail::Short => e matches Error::IoError(_),
                        ParseFail::Invalid => e matches Error::InvalidArgument(_),
                    },
                },
            },
    {
        self.decode_and_merge_with(bytes)
    }
}

} // verus!
