//! Variable-length wire encodings: unsigned and signed integers (seven bits
//! per byte, continuation bit high, sign handled by zig-zag), and the
//! variable-length double used for bucket counts.
//!
//! A count `n` goes to the wire as the double `n + 1.0` minus the bit
//! pattern of `1.0`, rotated left by six bits, written in seven-bit groups
//! from the most significant end, so that small integer counts take one or
//! two bytes.  Counts are natural numbers here; a wire double that is not
//! an integer in `0 ..= MAX_WIRE_COUNT` is rejected.
use crate::buffer::Input;
use crate::buffer::Output;
use crate::error::Error;
use vstd::arithmetic::power2::pow2;
use vstd::prelude::*;

verus! {

/// The largest count the wire format carries exactly: one less than the
/// largest integer a 64-bit double represents contiguously.
pub const MAX_WIRE_COUNT: u64 = 0x1F_FFFF_FFFF_FFFE;

/// Why a parse gave up: the bytes ran out, or a field held a value the
/// format does not admit.  The first surfaces as an I/O error, the second
/// as an invalid argument.
#[derive(Clone, Copy, Debug, PartialEq, Eq, Structural)]
pub enum ParseFail {
    Short,
    Invalid,
}

/// Little-endian base-128 bytes of `n`, continuation bit high.
pub open spec fn uvar_bytes(n: nat) -> Seq<u8>
    decreases n,
{
    if n < 128 {
        seq![n as u8]
    } else {
        seq![(n % 128 + 128) as u8] + uvar_bytes(n / 128)
    }
}

/// Parses a base-128 integer at `pos`; gives the value and the position
/// after it.
pub open spec fn parse_uvar(bytes: Seq<u8>, pos: nat) -> Option<(nat, nat)>
    decreases bytes.len() - pos,
{
    if pos >= bytes.len() {
        None
    } else {
        let b = bytes[pos as int];
        if b < 128 {
            Some((b as nat, pos + 1))
        } else {
            match parse_uvar(bytes, pos + 1) {
                None => None,
                Some((rest, end)) => Some(((b - 128) as nat + 128 * rest, end)),
            }
        }
    }
}

/// The zig-zag image of `v`: non-negative values go to the even numbers,
/// negative ones to the odd.
pub open spec fn zigzag(v: i64) -> nat {
    if v >= 0 {
        (2 * v) as nat
    } else {
        (-2 * v - 1) as nat
    }
}

pub open spec fn svar_bytes(v: i64) -> Seq<u8> {
    uvar_bytes(zigzag(v))
}

/// The signed value a zig-zag image stands for.
pub open spec fn unzigzag(u: nat) -> int {
    if u % 2 == 0 {
        (u / 2) as int
    } else {
        -((((u - 1) as nat) / 2) as int) - 1
    }
}

/// Zig-zag decoding inverts zig-zag encoding.
pub proof fn lemma_unzigzag(v: i64)
    ensures
        unzigzag(zigzag(v)) == v,
{
}

/// Appends the unsigned variable-length encoding of `n`.
pub fn encode_unsigned_var_long(out: &mut Output, n: u64)
    ensures
        final(out)@ == old(out)@ + uvar_bytes(n as nat),
    decreases n,
{
    if n < 128 {
        out.write_byte(n as u8);
        proof {
            assert(out@ =~= old(out)@ + uvar_bytes(n as nat));
        }
    } else {
        out.write_byte((n % 128 + 128) as u8);
        encode_unsigned_var_long(out, n / 128);
        proof {
            assert(out@ =~= old(out)@ + uvar_bytes(n as nat));
        }
    }
}

/// Reads an unsigned variable-length integer; fails when the input ends
/// inside it or the value does not fit in 64 bits.
pub fn decode_unsigned_var_long(input: &mut Input) -> (r: Result<u64, Error>)
    requires
        old(input).wf(),
    ensures
        final(input).wf(),
        final(input).bytes() == old(input).bytes(),
        final(input).pos() >= old(input).pos(),
        match r {
            Ok(n) => parse_uvar(old(input).bytes(), old(input).pos()) == Some(
                (n as nat, final(input).pos()),
            ),
            Err(e) => match parse_uvar(old(input).bytes(), old(input).pos()) {
                None => e matches Error::IoError(_),
                Some((v, _)) => v > u64::MAX && e matches Error::InvalidArgument(_),
            },
        },
    decreases old(input).bytes().len() - old(input).pos(),
{
    let b = input.read_byte()?;
    if b < 128 {
        Ok(b as u64)
    } else {
        let rest = decode_unsigned_var_long(input)?;
        let low: u64 = (b - 128) as u64;
        if rest > (u64::MAX - low) / 128 {
            proof {
                assert(128 * (rest as nat) + low as nat > u64::MAX) by (nonlinear_arith)
                    requires
                        rest as nat > (u64::MAX - low as nat) / 128,
                        low < 128,
                ;
            }
            return Err(Error::InvalidArgument("The variable-length integer overflows."));
        }
        proof {
            assert(128 * (rest as nat) + low as nat <= u64::MAX) by (nonlinear_arith)
                requires
                    rest as nat <= (u64::MAX - low as nat) / 128,
                    low < 128,
            ;
        }
        Ok(low + 128 * rest)
    }
}

/// Appends the zig-zag signed variable-length encoding of `v`.
pub fn encode_signed_var_long(out: &mut Output, v: i64)
    ensures
        final(out)@ == old(out)@ + svar_bytes(v),
{
    let u: u64 = if v >= 0 {
        (v as u64) * 2
    } else {
        ((-(v + 1)) as u64) * 2 + 1
    };
    proof {
        assert(u as nat == zigzag(v));
    }
    encode_unsigned_var_long(out, u);
}

/// Reads a zig-zag signed variable-length integer.
pub fn decode_signed_var_long(input: &mut Input) -> (r: Result<i64, Error>)
    requires
        old(input).wf(),
    ensures
        final(input).wf(),
        final(input).bytes() == old(input).bytes(),
        final(input).pos() >= old(input).pos(),
        match r {
            Ok(v) => parse_uvar(old(input).bytes(), old(input).pos()) == Some(
                (zigzag(v), final(input).pos()),
            ),
            Err(e) => match parse_uvar(old(input).bytes(), old(input).pos()) {
                None => e matches Error::IoError(_),
                Some((v, _)) => v > u64::MAX && e matches Error::InvalidArgument(_),
            },
        },
{
    let u = decode_unsigned_var_long(input)?;
    let v: i64 = if u % 2 == 0 {
        (u / 2) as i64
    } else {
        -(((u - 1) / 2) as i64) - 1
    };
    proof {
        assert(zigzag(v) == u as nat);
    }
    Ok(v)
}

/// Narrows a decoded 64-bit index to the 32-bit index domain; fails
/// exactly when the value is out of range.
pub fn i64_to_i32_exact(v: i64) -> (r: Result<i32, Error>)
    ensures
        match r {
            Ok(w) => i32::MIN <= v <= i32::MAX && w == v,
            Err(e) => (v < i32::MIN || v > i32::MAX) && e matches Error::InvalidArgument(_),
        },
{
    if v >= i32::MIN as i64 && v <= i32::MAX as i64 {
        Ok(v as i32)
    } else {
        Err(Error::InvalidArgument("The index does not fit in 32 bits."))
    }
}

/// The number of binary digits of `m`.
pub open spec fn bit_len(m: nat) -> nat
    decreases m,
{
    if m == 0 {
        0
    } else {
        1 + bit_len(m / 2)
    }
}

/// The IEEE-754 bit pattern of the positive integer `m`, for
/// `1 <= m < pow2(53)`: biased exponent, then the fraction left-aligned in
/// the 52 mantissa bits.
pub open spec fn dbl_bits(m: nat) -> nat {
    ((1022 + bit_len(m)) * pow2(52) + (m - pow2((bit_len(m) - 1) as nat)) * pow2(
        (53 - bit_len(m)) as nat,
    )) as nat
}

/// The 64-bit word a count `n` is built from: the bit pattern of the
/// double `n + 1` minus that of `1`, rotated left by six bits.
pub open spec fn vd_word(n: nat) -> nat {
    rot6l((dbl_bits(n + 1) - dbl_bits(1)) as nat)
}

pub open spec fn rot6l(x: nat) -> nat {
    (x % pow2(58)) * 64 + x / pow2(58)
}

pub open spec fn rot6r(x: nat) -> nat {
    x / 64 + (x % 64) * pow2(58)
}

/// The wire bytes of the word `x`, seven bits per byte from the most
/// significant end, stopping once the rest is zero; after eight groups the
/// last eight bits go out as one raw byte.  `sh` is the bit position of
/// the current group; `x < pow2(sh + 7)`.
pub open spec fn vd_group_bytes(x: nat, sh: nat) -> Seq<u8>
    decreases sh,
{
    let b = x / pow2(sh);
    let rest = x % pow2(sh);
    if rest == 0 {
        seq![b as u8]
    } else if sh <= 8 {
        seq![(b + 128) as u8, rest as u8]
    } else {
        seq![(b + 128) as u8] + vd_group_bytes(rest, (sh - 7) as nat)
    }
}

/// The full wire encoding of the count `n`.
pub open spec fn vd_bytes(n: nat) -> Seq<u8> {
    vd_group_bytes(vd_word(n), 57)
}

/// Parses the word of a variable-length double at `pos`.
pub open spec fn parse_vd_word(bytes: Seq<u8>, pos: nat, sh: nat) -> Option<(nat, nat)>
    decreases sh,
{
    if pos >= bytes.len() {
        None
    } else {
        let b = bytes[pos as int];
        if b < 128 {
            Some(((b as nat) * pow2(sh), pos + 1))
        } else if sh <= 8 {
            if pos + 1 >= bytes.len() {
                None
            } else {
                Some((((b - 128) as nat) * pow2(8) + bytes[pos as int + 1] as nat, pos + 2))
            }
        } else {
            match parse_vd_word(bytes, pos + 1, (sh - 7) as nat) {
                None => None,
                Some((rest, end)) => Some((((b - 128) as nat) * pow2(sh) + rest, end)),
            }
        }
    }
}

/// The count named by the double bit pattern `bits`, if `bits` is a
/// non-negative integer double in range.
pub open spec fn count_of_dbl_bits(bits: nat) -> Option<nat> {
    let expf = bits / pow2(52);
    let mant = bits % pow2(52);
    if 1023 <= expf <= 1075 && mant % pow2((1075 - expf) as nat) == 0 {
        Some((pow2((expf - 1023) as nat) + mant / pow2((1075 - expf) as nat) - 1) as nat)
    } else {
        None
    }
}

/// Parses a variable-length double at `pos` as a count: short when the
/// bytes run out, invalid when the double is no integer count in range.
pub open spec fn parse_vd_count(bytes: Seq<u8>, pos: nat) -> Result<(nat, nat), ParseFail> {
    match parse_vd_word(bytes, pos, 57) {
        None => Err(ParseFail::Short),
        Some((x, end)) => {
            let bits = rot6r(x) + dbl_bits(1);
            if bits >= pow2(64) {
                Err(ParseFail::Invalid)
            } else {
                match count_of_dbl_bits(bits) {
                    None => Err(ParseFail::Invalid),
                    Some(n) => Ok((n, end)),
                }
            }
        },
    }
}

/// Raises two to the power `e`, for `e <= 63`.
fn pow2_u64(e: u64) -> (r: u64)
    requires
        e <= 63,
    ensures
        r == pow2(e as nat),
{
    let mut p: u64 = 1;
    let mut i: u64 = 0;
    proof {
        vstd::arithmetic::power2::lemma2_to64();
    }
    while i < e
        invariant
            i <= e,
            e <= 63,
            p == pow2(i as nat),
        decreases e - i,
    {
        proof {
            vstd::arithmetic::power2::lemma2_to64();
            vstd::arithmetic::power2::lemma2_to64_rest();
            assert(pow2(63) == 0x8000000000000000);
            vstd::arithmetic::power2::lemma_pow2_strictly_increases(i as nat, 63);
            assert(pow2((i + 1) as nat) == 2 * pow2(i as nat)) by {
                vstd::arithmetic::power2::lemma_pow2_unfold((i + 1) as nat);
            }
        }
        p = p * 2;
        i = i + 1;
    }
    p
}

/// The binary digit count of `m`, with the power just below it.
fn bit_len_u64(m: u64) -> (r: (u64, u64))
    requires
        m >= 1,
    ensures
        r.0 == bit_len(m as nat),
        1 <= r.0 <= 64,
        r.1 == pow2((r.0 - 1) as nat),
        r.1 <= m,
{
    let mut l: u64 = 0;
    let mut t: u64 = m;
    while t > 0
        invariant
            bit_len(m as nat) == l + bit_len(t as nat),
            l <= 64,
            t <= m,
            l > 0 ==> (t < m || l == 1) && bit_len(t as nat) + l <= 64,
        decreases t,
    {
        proof {
            lemma_bit_len_bound(t as nat);
        }
        t = t / 2;
        l = l + 1;
    }
    proof {
        lemma_bit_len_bound(m as nat);
        lemma_bit_len_pow2(m as nat);
    }
    let p = pow2_u64(l - 1);
    (l, p)
}

/// A 64-bit value has at most 64 binary digits.
proof fn lemma_bit_len_bound(m: nat)
    ensures
        m <= u64::MAX ==> bit_len(m) <= 64,
        bit_len(m) <= 64 ==> m < pow2(bit_len(m)),
    decreases m,
{
    vstd::arithmetic::power2::lemma2_to64();
    vstd::arithmetic::power2::lemma2_to64_rest();
    if m > 0 {
        lemma_bit_len_bound(m / 2);
        if bit_len(m) <= 64 {
            assert(pow2(bit_len(m)) == 2 * pow2(bit_len(m / 2))) by {
                vstd::arithmetic::power2::lemma_pow2_unfold(bit_len(m));
            }
        }
        if m <= u64::MAX {
            if bit_len(m / 2) == 64 {
                assert(m / 2 < pow2(64)) by {
                    lemma_bit_len_bound(m / 2);
                }
                assert(pow2(63) <= m / 2) by {
                    lemma_bit_len_pow2(m / 2);
                }
                assert(false);
            }
        }
    }
}

/// The power just below `m`: `pow2(bit_len(m) - 1) <= m`.
proof fn lemma_bit_len_pow2(m: nat)
    requires
        m >= 1,
    ensures
        pow2((bit_len(m) - 1) as nat) <= m,
        bit_len(m) >= 1,
    decreases m,
{
    if m == 1 {
        reveal_with_fuel(bit_len, 3);
        vstd::arithmetic::power2::lemma2_to64();
        assert(bit_len(1) == 1);
    } else {
        lemma_bit_len_pow2(m / 2);
        assert(pow2((bit_len(m) - 1) as nat) == 2 * pow2((bit_len(m / 2) - 1) as nat)) by {
            vstd::arithmetic::power2::lemma_pow2_unfold((bit_len(m) - 1) as nat);
        }
    }
}

/// The bit pattern of `1.0`.
pub const DBL_ONE_BITS: u64 = 0x3FF0000000000000;

/// The bit pattern of the double `1.0`.
proof fn lemma_dbl_bits_one()
    ensures
        dbl_bits(1) == DBL_ONE_BITS,
{
    reveal_with_fuel(bit_len, 3);
    vstd::arithmetic::power2::lemma2_to64();
    vstd::arithmetic::power2::lemma2_to64_rest();
    assert(bit_len(1) == 1);
    let e = bit_len(1);
    assert((1022 + e) * pow2(52) == 1023 * 0x10000000000000) by (nonlinear_arith)
        requires
            e == 1,
            pow2(52) == 0x10000000000000,
    {
    }
    assert((1 - pow2((e - 1) as nat)) * pow2((53 - e) as nat) == 0) by (nonlinear_arith)
        requires
            e == 1,
            pow2(0) == 1,
    {
    }
}


/// Builds the IEEE-754 bit pattern of the positive integer `m`.
fn dbl_bits_u64(m: u64) -> (r: u64)
    requires
        1 <= m <= 0x1F_FFFF_FFFF_FFFF,
    ensures
        r == dbl_bits(m as nat),
        r >= DBL_ONE_BITS,
        r < 0x4340000000000000,
{
    let (l, p_lo) = bit_len_u64(m);
    proof {
        lemma_bit_len_bound(m as nat);
        if l > 53 {
            if l > 54 {
                vstd::arithmetic::power2::lemma_pow2_strictly_increases(53, (l - 1) as nat);
            }
            vstd::arithmetic::power2::lemma2_to64();
            vstd::arithmetic::power2::lemma2_to64_rest();
            assert(pow2(53) == 0x20000000000000);
            assert(false);
        }
    }
    let p_hi = pow2_u64(53 - l);
    let frac: u64 = m - p_lo;
    proof {
        assert((m as nat) < pow2(l as nat));
        assert(pow2(l as nat) == 2 * pow2((l - 1) as nat)) by {
            vstd::arithmetic::power2::lemma_pow2_unfold(l as nat);
        }
        assert(frac < pow2((l - 1) as nat));
        vstd::arithmetic::power2::lemma_pow2_pos((53 - l) as nat);
        assert(pow2((l - 1) as nat) * pow2((53 - l) as nat) == pow2(52)) by {
            vstd::arithmetic::power2::lemma_pow2_adds((l - 1) as nat, (53 - l) as nat);
        }
        assert((frac as nat) * pow2((53 - l) as nat) < pow2((l - 1) as nat) * pow2(
            (53 - l) as nat,
        )) by (nonlinear_arith)
            requires
                (frac as nat) < pow2((l - 1) as nat),
                pow2((53 - l) as nat) >= 1,
        {
        }
        vstd::arithmetic::power2::lemma2_to64();
        vstd::arithmetic::power2::lemma2_to64_rest();
        assert(pow2(52) == 0x10000000000000);
        assert((1022 + l) * pow2(52) <= 1075 * 0x10000000000000) by (nonlinear_arith)
            requires
                l <= 53,
                pow2(52) == 0x10000000000000,
        {
        }
    }
    let r: u64 = (1022 + l) * 0x10000000000000 + frac * p_hi;
    proof {
        assert(r == dbl_bits(m as nat));
        assert((1022 + l as nat) * pow2(52) >= 1023 * pow2(52)) by (nonlinear_arith)
            requires
                l >= 1,
                pow2(52) >= 1,
        {
        }
    }
    r
}

/// Appends the seven-bit groups of `x` from bit `sh` down; `p == pow2(sh)`.
fn write_vd_groups(out: &mut Output, x: u64, sh: u64, p: u64)
    requires
        p == pow2(sh as nat),
        8 <= sh <= 57,
        sh % 7 == 1,
        (x as nat) < pow2((sh + 7) as nat),
    ensures
        final(out)@ == old(out)@ + vd_group_bytes(x as nat, sh as nat),
    decreases sh,
{
    proof {
        assert(pow2((sh + 7) as nat) == pow2(sh as nat) * 128) by {
            vstd::arithmetic::power2::lemma_pow2_adds(sh as nat, 7);
            vstd::arithmetic::power2::lemma2_to64();
        }
        assert(x as nat / (p as nat) < 128) by (nonlinear_arith)
            requires
                (x as nat) < (p as nat) * 128,
                p >= 1,
        {
        }
        vstd::arithmetic::power2::lemma_pow2_pos(sh as nat);
    }
    let b: u64 = x / p;
    let rest: u64 = x % p;
    if rest == 0 {
        out.write_byte(b as u8);
        proof {
            assert(out@ =~= old(out)@ + vd_group_bytes(x as nat, sh as nat));
        }
    } else if sh == 8 {
        proof {
            vstd::arithmetic::power2::lemma2_to64();
        }
        out.write_byte((b + 128) as u8);
        out.write_byte(rest as u8);
        proof {
            assert(out@ =~= old(out)@ + vd_group_bytes(x as nat, sh as nat));
        }
    } else {
        proof {
            assert(pow2(sh as nat) == pow2((sh - 7) as nat) * 128) by {
                vstd::arithmetic::power2::lemma_pow2_adds((sh - 7) as nat, 7);
                vstd::arithmetic::power2::lemma2_to64();
            }
            assert((pow2((sh - 7) as nat) * 128) / 128 == pow2((sh - 7) as nat)) by (
            nonlinear_arith) {
            }
            vstd::arithmetic::power2::lemma_pow2_pos((sh - 7) as nat);
            assert((rest as nat) < pow2(sh as nat));
        }
        out.write_byte((b + 128) as u8);
        write_vd_groups(out, rest, sh - 7, p / 128);
        proof {
            assert(out@ =~= old(out)@ + vd_group_bytes(x as nat, sh as nat));
        }
    }
}

/// Appends the variable-length double encoding of the count `n`; fails
/// exactly when `n` exceeds what the wire format carries.
pub fn encode_var_double_count(out: &mut Output, n: u64) -> (r: Result<(), Error>)
    ensures
        match r {
            Ok(_) => n <= MAX_WIRE_COUNT && final(out)@ == old(out)@ + vd_bytes(n as nat),
            Err(e) => n > MAX_WIRE_COUNT && final(out)@ == old(out)@ && e
                matches Error::InvalidArgument(_),
        },
{
    if n > MAX_WIRE_COUNT {
        return Err(Error::InvalidArgument("The count exceeds the wire format's integer range."));
    }
    let bits = dbl_bits_u64(n + 1);
    let delta: u64 = bits - DBL_ONE_BITS;
    proof {
        lemma_dbl_bits_one();
        vstd::arithmetic::power2::lemma2_to64();
        vstd::arithmetic::power2::lemma2_to64_rest();
        assert(pow2(58) == 0x400000000000000);
        assert((delta as nat % pow2(58)) * 64 + delta as nat / pow2(58) <= u64::MAX) by (
        nonlinear_arith)
            requires
                pow2(58) == 0x400000000000000,
                delta <= u64::MAX,
        {
        }
    }
    let x: u64 = (delta % 0x400000000000000) * 64 + delta / 0x400000000000000;
    proof {
        assert(x as nat == vd_word(n as nat));
        assert((delta as nat % pow2(58)) * 64 < pow2(64)) by (nonlinear_arith)
            requires
                pow2(58) == 0x400000000000000,
                pow2(64) == 0x10000000000000000,
        {
        }
        assert(pow2(64) == pow2(57) * 128) by {
            vstd::arithmetic::power2::lemma_pow2_adds(57, 7);
        }
    }
    write_vd_groups(out, x, 57, 0x200000000000000);
    Ok(())
}

/// Reads the word of a variable-length double; `p == pow2(sh)`.
fn read_vd_word(input: &mut Input, sh: u64, p: u64) -> (r: Result<u64, Error>)
    requires
        old(input).wf(),
        p == pow2(sh as nat),
        8 <= sh <= 57,
        sh % 7 == 1,
    ensures
        final(input).wf(),
        final(input).bytes() == old(input).bytes(),
        final(input).pos() >= old(input).pos(),
        match r {
            Ok(x) => parse_vd_word(old(input).bytes(), old(input).pos(), sh as nat) == Some(
                ((x as nat), final(input).pos()),
            ) && (x as nat) < pow2((sh + 7) as nat),
            Err(e) => parse_vd_word(old(input).bytes(), old(input).pos(), sh as nat) is None && e
                matches Error::IoError(_),
        },
    decreases sh,
{
    proof {
        vstd::arithmetic::power2::lemma_pow2_pos(sh as nat);
        assert(pow2((sh + 7) as nat) == pow2(sh as nat) * 128) by {
            vstd::arithmetic::power2::lemma_pow2_adds(sh as nat, 7);
            vstd::arithmetic::power2::lemma2_to64();
        }
        vstd::arithmetic::power2::lemma2_to64_rest();
        vstd::arithmetic::power2::lemma2_to64();
        assert(pow2(57) == 0x200000000000000);
    }
    let b = input.read_byte()?;
    if b < 128 {
        proof {
            vstd::arithmetic::mul::lemma_mul_inequality(b as int, 127, p as int);
            assert(127 * (p as nat) < (p as nat) * 128) by (nonlinear_arith)
                requires
                    p >= 1,
            {
            }
        }
        Ok((b as u64) * p)
    } else if sh == 8 {
        let b2 = input.read_byte()?;
        proof {
            vstd::arithmetic::power2::lemma2_to64();
        }
        Ok(((b - 128) as u64) * 256 + b2 as u64)
    } else {
        proof {
            assert(pow2(sh as nat) == pow2((sh - 7) as nat) * 128) by {
                vstd::arithmetic::power2::lemma_pow2_adds((sh - 7) as nat, 7);
                vstd::arithmetic::power2::lemma2_to64();
            }
            assert((pow2((sh - 7) as nat) * 128) / 128 == pow2((sh - 7) as nat)) by (
            nonlinear_arith) {
            }
        }
        let rest = read_vd_word(input, sh - 7, p / 128)?;
        proof {
            vstd::arithmetic::mul::lemma_mul_inequality((b - 128) as int, 127, p as int);
            assert(127 * (p as nat) + (p as nat) == (p as nat) * 128) by (nonlinear_arith) {
            }
            assert((rest as nat) < pow2(sh as nat));
        }
        Ok(((b - 128) as u64) * p + rest)
    }
}

/// Reads a variable-length double and gives the count it names; fails on a
/// short read, or when the double is not an integer count in range.
pub fn decode_var_double_count(input: &mut Input) -> (r: Result<u64, Error>)
    requires
        old(input).wf(),
    ensures
        final(input).wf(),
        final(input).bytes() == old(input).bytes(),
        final(input).pos() >= old(input).pos(),
        match r {
            Ok(n) => parse_vd_count(old(input).bytes(), old(input).pos()) == Ok::<
                (nat, nat),
                ParseFail,
            >(((n as nat), final(input).pos())) && n <= MAX_WIRE_COUNT,
            Err(e) => match parse_vd_count(old(input).bytes(), old(input).pos()) {
                Ok(_) => false,
                Err(k) => match k {
                    ParseFail::Short => e matches Error::IoError(_),
                    ParseFail::Invalid => e matches Error::InvalidArgument(_),
                },
            },
        },
{
    proof {
        vstd::arithmetic::power2::lemma2_to64();
        vstd::arithmetic::power2::lemma2_to64_rest();
        assert(pow2(57) == 0x200000000000000);
        lemma_dbl_bits_one();
    }
    let x = read_vd_word(input, 57, 0x200000000000000)?;
    proof {
        vstd::arithmetic::power2::lemma2_to64();
        vstd::arithmetic::power2::lemma2_to64_rest();
        assert(pow2(57) == 0x200000000000000);
        assert(pow2(58) == 0x400000000000000);
        assert(pow2(52) == 0x10000000000000);
        lemma_dbl_bits_one();
        assert((x as nat % 64) * pow2(58) + x as nat / 64 <= u64::MAX) by (nonlinear_arith)
            requires
                pow2(58) == 0x400000000000000,
                x <= u64::MAX,
        {
        }
    }
    let delta: u64 = x / 64 + (x % 64) * 0x400000000000000;
    proof {
        assert(delta as nat == rot6r(x as nat));
    }
    if delta > u64::MAX - DBL_ONE_BITS {
        proof {
            assert(pow2(64) == 0x10000000000000000);
        }
        return Err(Error::InvalidArgument("The count is not an integer the wire format carries."));
    }
    let bits: u64 = delta + DBL_ONE_BITS;
    proof {
        assert(pow2(64) == 0x10000000000000000);
    }
    let expf: u64 = bits / 0x10000000000000;
    let mant: u64 = bits % 0x10000000000000;
    if expf < 1023 || expf > 1075 {
        return Err(Error::InvalidArgument("The count is not an integer the wire format carries."));
    }
    let q = pow2_u64(1075 - expf);
    if mant % q != 0 {
        return Err(Error::InvalidArgument("The count is not an integer the wire format carries."));
    }
    let p_e = pow2_u64(expf - 1023);
    proof {
        assert(pow2((expf - 1023) as nat) * pow2((1075 - expf) as nat) == pow2(52)) by {
            vstd::arithmetic::power2::lemma_pow2_adds((expf - 1023) as nat, (1075 - expf) as nat);
        }
        vstd::arithmetic::power2::lemma_pow2_pos((1075 - expf) as nat);
        assert(mant as nat / (q as nat) < pow2((expf - 1023) as nat)) by (nonlinear_arith)
            requires
                (mant as nat) < pow2((expf - 1023) as nat) * (q as nat),
                q >= 1,
        {
        }
        assert(pow2((expf - 1023) as nat) <= pow2(52)) by {
            if expf < 1075 {
                vstd::arithmetic::power2::lemma_pow2_strictly_increases(
                    (expf - 1023) as nat,
                    52,
                );
            }
        }
    }
    let n: u64 = p_e + mant / q - 1;
    Ok(n)
}


/// Decoding inverts encoding: wherever the bytes of `n` sit in a stream,
/// the parser reads `n` back and stops right after them.
pub proof fn lemma_uvar_round_trip(s: Seq<u8>, pos: nat, n: nat)
    requires
        pos + uvar_bytes(n).len() <= s.len(),
        s.subrange(pos as int, pos + uvar_bytes(n).len() as int) == uvar_bytes(n),
    ensures
        parse_uvar(s, pos) == Some((n, pos + uvar_bytes(n).len())),
    decreases n,
{
    if n < 128 {
        assert(s[pos as int] == uvar_bytes(n)[0]);
    } else {
        assert(s[pos as int] == uvar_bytes(n)[0]);
        let whole = uvar_bytes(n);
        let rest = uvar_bytes(n / 128);
        assert forall|j: int|
            0 <= j < rest.len() implies s.subrange(
            pos as int + 1,
            pos + whole.len() as int,
        )[j] == rest[j] by {
            assert(s.subrange(pos as int, pos + whole.len() as int)[j + 1] == whole[j + 1]);
        }
        assert(s.subrange(pos as int + 1, pos + whole.len() as int) =~= rest);
        lemma_uvar_round_trip(s, pos + 1, n / 128);
    }
}

/// The signed form: zig-zag decoding the parsed image gives `v` back.
pub proof fn lemma_svar_round_trip(s: Seq<u8>, pos: nat, v: i64)
    requires
        pos + svar_bytes(v).len() <= s.len(),
        s.subrange(pos as int, pos + svar_bytes(v).len() as int) == svar_bytes(v),
    ensures
        parse_uvar(s, pos) == Some((zigzag(v), pos + svar_bytes(v).len())),
        unzigzag(zigzag(v)) == v,
{
    lemma_uvar_round_trip(s, pos, zigzag(v));
    lemma_unzigzag(v);
}

/// The binary-digit facts of an integer below `pow2(53)`.
proof fn lemma_bit_len_53(m: nat)
    requires
        1 <= m < 0x20000000000000,
    ensures
        1 <= bit_len(m) <= 53,
        pow2((bit_len(m) - 1) as nat) <= m,
        m < pow2(bit_len(m)),
{
    lemma_bit_len_pow2(m);
    lemma_bit_len_bound(m);
    vstd::arithmetic::power2::lemma2_to64();
    vstd::arithmetic::power2::lemma2_to64_rest();
    if bit_len(m) > 53 {
        assert(pow2(53) <= pow2((bit_len(m) - 1) as nat)) by {
            if bit_len(m) > 54 {
                vstd::arithmetic::power2::lemma_pow2_strictly_increases(
                    53,
                    (bit_len(m) - 1) as nat,
                );
            }
        }
        assert(pow2(53) == 0x20000000000000);
        assert(false);
    }
}

/// Reading the exponent and mantissa back out of a built bit pattern
/// gives the integer back.
proof fn lemma_dbl_bits_inverse(m: nat)
    requires
        1 <= m < 0x20000000000000,
    ensures
        dbl_bits(m) >= dbl_bits(1),
        dbl_bits(m) < 0x4340000000000000,
        count_of_dbl_bits(dbl_bits(m)) == Some((m - 1) as nat),
{
    lemma_bit_len_53(m);
    lemma_dbl_bits_one();
    vstd::arithmetic::power2::lemma2_to64();
    vstd::arithmetic::power2::lemma2_to64_rest();
    let l = bit_len(m);
    let frac = (m - pow2((l - 1) as nat)) as nat;
    let mant = frac * pow2((53 - l) as nat);
    assert(pow2(l) == 2 * pow2((l - 1) as nat)) by {
        vstd::arithmetic::power2::lemma_pow2_unfold(l);
    }
    assert(frac < pow2((l - 1) as nat));
    assert(pow2((l - 1) as nat) * pow2((53 - l) as nat) == pow2(52)) by {
        vstd::arithmetic::power2::lemma_pow2_adds((l - 1) as nat, (53 - l) as nat);
    }
    vstd::arithmetic::power2::lemma_pow2_pos((53 - l) as nat);
    vstd::arithmetic::power2::lemma_pow2_pos((l - 1) as nat);
    assert(frac * pow2((53 - l) as nat) < pow2((l - 1) as nat) * pow2((53 - l) as nat)) by (
    nonlinear_arith)
        requires
            frac < pow2((l - 1) as nat),
            pow2((53 - l) as nat) >= 1,
    {
    }
    assert(mant < pow2(52));
    let bits = dbl_bits(m);
    assert(bits == (1022 + l) * pow2(52) + mant);
    vstd::arithmetic::div_mod::lemma_fundamental_div_mod_converse(
        bits as int,
        pow2(52) as int,
        (1022 + l) as int,
        mant as int,
    );
    assert(bits / pow2(52) == 1022 + l);
    assert(bits % pow2(52) == mant);
    assert(1075 - (1022 + l) == 53 - l);
    vstd::arithmetic::div_mod::lemma_fundamental_div_mod_converse(
        mant as int,
        pow2((53 - l) as nat) as int,
        frac as int,
        0,
    );
    assert(mant % pow2((53 - l) as nat) == 0);
    assert(mant / pow2((53 - l) as nat) == frac);
    assert((1022 + l) - 1023 == l - 1);
    assert(pow2((l - 1) as nat) + frac - 1 == m - 1);
    assert((1022 + l as int) * pow2(52) >= 1023 * pow2(52)) by (nonlinear_arith)
        requires
            l >= 1,
            pow2(52) >= 1,
    {
    }
    assert((1022 + l as int) * pow2(52) <= 1075 * pow2(52)) by (nonlinear_arith)
        requires
            l <= 53,
            pow2(52) >= 1,
    {
    }
    assert(pow2(52) == 0x10000000000000);
}

/// Rotating right by six undoes rotating left by six.
proof fn lemma_rot6_inverse(d: nat)
    requires
        d < 0x10000000000000000,
    ensures
        rot6l(d) < 0x10000000000000000,
        rot6r(rot6l(d)) == d,
{
    vstd::arithmetic::power2::lemma2_to64();
    vstd::arithmetic::power2::lemma2_to64_rest();
    let a = d % pow2(58);
    let b = d / pow2(58);
    vstd::arithmetic::div_mod::lemma_fundamental_div_mod(d as int, pow2(58) as int);
    assert(b < 64) by (nonlinear_arith)
        requires
            d < 0x10000000000000000,
            pow2(58) == 0x400000000000000,
            b == d / pow2(58),
    {
    }
    let y = rot6l(d);
    assert(y == a * 64 + b);
    assert(a * 64 + b < 0x10000000000000000) by (nonlinear_arith)
        requires
            a < pow2(58),
            b < 64,
            pow2(58) == 0x400000000000000,
    {
    }
    vstd::arithmetic::div_mod::lemma_fundamental_div_mod_converse(y as int, 64, a as int, b as int);
    assert(y / 64 == a);
    assert(y % 64 == b);
    assert(rot6r(y) == a + b * pow2(58));
    assert(a + b * pow2(58) == d) by (nonlinear_arith)
        requires
            d == pow2(58) * b + a,
    {
    }
}

/// Word parsing inverts the seven-bit-group writing, at any position.
proof fn lemma_vd_word_round_trip(s: Seq<u8>, pos: nat, x: nat, sh: nat)
    requires
        8 <= sh <= 57,
        sh % 7 == 1,
        x < pow2((sh + 7) as nat),
        pos + vd_group_bytes(x, sh).len() <= s.len(),
        s.subrange(pos as int, pos + vd_group_bytes(x, sh).len() as int) == vd_group_bytes(x, sh),
    ensures
        parse_vd_word(s, pos, sh) == Some((x, pos + vd_group_bytes(x, sh).len())),
    decreases sh,
{
    vstd::arithmetic::power2::lemma2_to64();
    vstd::arithmetic::power2::lemma2_to64_rest();
    vstd::arithmetic::power2::lemma_pow2_pos(sh);
    let b = x / pow2(sh);
    let rest = x % pow2(sh);
    vstd::arithmetic::div_mod::lemma_fundamental_div_mod(x as int, pow2(sh) as int);
    assert(pow2((sh + 7) as nat) == pow2(sh) * 128) by {
        vstd::arithmetic::power2::lemma_pow2_adds(sh, 7);
    }
    assert(b < 128) by (nonlinear_arith)
        requires
            x < pow2(sh) * 128,
            pow2(sh) >= 1,
            b == x / pow2(sh),
    {
    }
    let whole = vd_group_bytes(x, sh);
    if rest == 0 {
        assert(s[pos as int] == whole[0]);
        assert(x == b * pow2(sh)) by (nonlinear_arith)
            requires
                x == pow2(sh) * b + rest,
                rest == 0,
        {
        }
    } else if sh == 8 {
        assert(s[pos as int] == whole[0]);
        assert(s[pos as int + 1] == whole[1]);
        assert(rest < 256);
        assert(x == b * pow2(8) + rest) by (nonlinear_arith)
            requires
                x == pow2(sh) * b + rest,
                sh == 8,
        {
        }
    } else {
        assert(s[pos as int] == whole[0]);
        let tail = vd_group_bytes(rest, (sh - 7) as nat);
        assert forall|j: int|
            0 <= j < tail.len() implies s.subrange(
            pos as int + 1,
            pos + whole.len() as int,
        )[j] == tail[j] by {
            assert(s.subrange(pos as int, pos + whole.len() as int)[j + 1] == whole[j + 1]);
        }
        assert(s.subrange(pos as int + 1, pos + whole.len() as int) =~= tail);
        assert(rest < pow2(((sh - 7) + 7) as nat));
        lemma_vd_word_round_trip(s, pos + 1, rest, (sh - 7) as nat);
        assert(x == b * pow2(sh) + rest) by (nonlinear_arith)
            requires
                x == pow2(sh) * b + rest,
        {
        }
    }
}

/// Decoding a count's wire bytes gives the count back, wherever they sit.
pub proof fn lemma_vd_count_round_trip(s: Seq<u8>, pos: nat, n: u64)
    requires
        n <= MAX_WIRE_COUNT,
        pos + vd_bytes(n as nat).len() <= s.len(),
        s.subrange(pos as int, pos + vd_bytes(n as nat).len() as int) == vd_bytes(n as nat),
    ensures
        parse_vd_count(s, pos) == Ok::<(nat, nat), ParseFail>(
            (n as nat, pos + vd_bytes(n as nat).len()),
        ),
{
    lemma_dbl_bits_inverse(n as nat + 1);
    lemma_dbl_bits_one();
    vstd::arithmetic::power2::lemma2_to64();
    vstd::arithmetic::power2::lemma2_to64_rest();
    let d = (dbl_bits(n as nat + 1) - dbl_bits(1)) as nat;
    lemma_rot6_inverse(d);
    let x = vd_word(n as nat);
    assert(x < pow2(64));
    assert(pow2(64) == pow2(57) * 128) by {
        vstd::arithmetic::power2::lemma_pow2_adds(57, 7);
    }
    lemma_vd_word_round_trip(s, pos, x, 57);
    assert(rot6r(x) + dbl_bits(1) == dbl_bits(n as nat + 1));
}

} // verus!
