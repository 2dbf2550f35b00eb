use vstd::arithmetic::div_mod::*;
use vstd::arithmetic::mul::*;
use vstd::arithmetic::power2::*;
use vstd::bits::*;
use vstd::prelude::*;

verus! {

/// Whether the sign bit of the encoding `b` is set.
pub open spec fn sign_bit(b: u32) -> bool {
    b >= 0x8000_0000
}

/// The biased exponent field (bits 23 to 30) of the encoding `b`.
pub open spec fn exponent_field(b: u32) -> int {
    (b / 0x80_0000) as int % 0x100
}

/// The fraction field (bits 0 to 22) of the encoding `b`.
pub open spec fn fraction_field(b: u32) -> int {
    b as int % 0x80_0000
}

pub open spec fn is_nan(b: u32) -> bool {
    exponent_field(b) == 0xff && fraction_field(b) != 0
}

pub open spec fn is_infinite(b: u32) -> bool {
    exponent_field(b) == 0xff && fraction_field(b) == 0
}

/// The significand of a finite encoding, with the implicit leading bit of a
/// normal number made explicit.
pub open spec fn significand(b: u32) -> nat {
    if exponent_field(b) == 0 {
        fraction_field(b) as nat
    } else {
        (fraction_field(b) + 0x80_0000) as nat
    }
}

/// The power of two by which the significand is scaled: a finite `b` stands
/// for `significand(b) * 2^scale(b)`, negated when the sign bit is set.
pub open spec fn scale(b: u32) -> int {
    if exponent_field(b) == 0 {
        -149
    } else {
        exponent_field(b) - 150
    }
}

/// The integer part of the magnitude of a finite encoding.
pub open spec fn truncated_magnitude(b: u32) -> nat {
    if scale(b) >= 0 {
        significand(b) * pow2(scale(b) as nat)
    } else {
        significand(b) / pow2((-scale(b)) as nat)
    }
}

/// The value of a finite encoding rounded toward zero to an integer.
pub open spec fn truncated_value(b: u32) -> int {
    if sign_bit(b) {
        -truncated_magnitude(b)
    } else {
        truncated_magnitude(b) as int
    }
}

pub open spec fn saturate_i32(v: int) -> int {
    if v < i32::MIN {
        i32::MIN as int
    } else if v > i32::MAX {
        i32::MAX as int
    } else {
        v
    }
}

/// The conversion of a binary32 number to `i32`: rounded toward zero,
/// saturated at the bounds of `i32` (infinities included), and zero for NaN.
pub open spec fn i32_of_binary32(b: u32) -> int {
    if is_nan(b) {
        0
    } else if is_infinite(b) {
        if sign_bit(b) {
            i32::MIN as int
        } else {
            i32::MAX as int
        }
    } else {
        saturate_i32(truncated_value(b))
    }
}

proof fn lemma_small_significand(b: u32)
    ensures
        significand(b) < 0x100_0000,
        exponent_field(b) != 0 ==> significand(b) >= 0x80_0000,
        0 <= exponent_field(b) < 0x100,
{
}

/// Converts the binary32 number encoded by `b` to `i32`, rounding toward zero.
pub fn binary32_to_i32(b: u32) -> (r: i32)
    ensures
        r == i32_of_binary32(b),
{
    let exp: u32 = (b / 0x80_0000) % 0x100;
    let frac: u32 = b % 0x80_0000;
    let neg = b >= 0x8000_0000;
    proof {
        lemma_small_significand(b);
    }
    if exp == 0xff {
        if frac != 0 {
            0
        } else if neg {
            i32::MIN
        } else {
            i32::MAX
        }
    } else if exp < 127 {
        proof {
            let s: nat = (-scale(b)) as nat;
            assert(s >= 24);
            lemma2_to64();
            if s > 24 {
                lemma_pow2_strictly_increases(24, s);
            }
            assert(significand(b) / pow2(s) == 0) by {
                lemma_basic_div(significand(b) as int, pow2(s) as int);
            }
        }
        0
    } else if exp >= 158 {
        proof {
            let s: nat = scale(b) as nat;
            assert(s >= 8);
            lemma2_to64();
            if s > 8 {
                lemma_pow2_strictly_increases(8, s);
            }
            lemma_mul_inequality(0x80_0000, significand(b) as int, pow2(s) as int);
            lemma_mul_inequality(0x100, pow2(s) as int, 0x80_0000);
        }
        if neg {
            i32::MIN
        } else {
            i32::MAX
        }
    } else {
        let sig: u32 = frac + 0x80_0000;
        let mag: u32 = if exp >= 150 {
            let k: u32 = exp - 150;
            proof {
                lemma2_to64();
                lemma_u32_pow2_no_overflow(k as nat);
                if k < 7 {
                    lemma_pow2_strictly_increases(k as nat, 7);
                }
                assert(1u32 * pow2(k as nat) <= u32::MAX);
                lemma_u32_shl_is_mul(1, k);
                lemma_mul_inequality(sig as int, 0x100_0000, pow2(k as nat) as int);
                lemma_mul_inequality(pow2(k as nat) as int, 0x80, 0x100_0000);
                lemma_mul_is_commutative(sig as int, pow2(k as nat) as int);
                assert(sig * pow2(k as nat) < 0x8000_0000);
            }
            let p: u32 = 1u32 << k;
            sig * p
        } else {
            let k: u32 = 150 - exp;
            proof {
                lemma_u32_pow2_no_overflow(k as nat);
                assert(1u32 * pow2(k as nat) <= u32::MAX);
                lemma_u32_shl_is_mul(1, k);
                lemma_pow2_pos(k as nat);
                lemma_div_is_ordered_by_denominator(sig as int, 1, pow2(k as nat) as int);
                assert(sig as nat / pow2(k as nat) < 0x8000_0000);
            }
            let p: u32 = 1u32 << k;
            sig / p
        };
        proof {
            assert(mag == truncated_magnitude(b));
            assert(mag < 0x8000_0000);
        }
        if neg {
            -(mag as i32)
        } else {
            mag as i32
        }
    }
}

/// The number of binary digits of `a` (zero for zero).
pub open spec fn bit_length(a: nat) -> nat
    decreases a,
{
    if a == 0 {
        0
    } else {
        1 + bit_length(a / 2)
    }
}

/// `a` rounded to the nearest multiple of `2^k`, ties going to the even
/// multiple.
pub open spec fn round_to_multiple(a: nat, k: nat) -> nat {
    let q = a / pow2(k);
    let r = a % pow2(k);
    if 2 * r > pow2(k) || (2 * r == pow2(k) && q % 2 == 1) {
        (q + 1) * pow2(k)
    } else {
        q * pow2(k)
    }
}

/// `a` rounded to 24 significant bits, to nearest with ties to even: the
/// magnitude that binary32 gives to the integer `a`.
pub open spec fn round_to_binary32(a: nat) -> nat {
    if bit_length(a) <= 24 {
        a
    } else {
        round_to_multiple(a, (bit_length(a) - 24) as nat)
    }
}

/// The value that binary32 gives to the integer `n`.
pub open spec fn rounded_integer(n: int) -> int {
    if n < 0 {
        -round_to_binary32((-n) as nat)
    } else {
        round_to_binary32(n as nat) as int
    }
}

/// Whether the integer `n` is one that binary32 holds exactly.
pub open spec fn exact_in_binary32(n: int) -> bool {
    rounded_integer(n) == n
}

/// `b` is a finite encoding that stands exactly for the integer `v`.
pub open spec fn encodes_integer(b: u32, v: int) -> bool {
    let m: int = if v < 0 { -v } else { v };
    &&& !is_nan(b)
    &&& !is_infinite(b)
    &&& v != 0 ==> (sign_bit(b) <==> v < 0)
    &&& if scale(b) >= 0 {
        significand(b) * pow2(scale(b) as nat) == m
    } else {
        significand(b) == m * pow2((-scale(b)) as nat)
    }
}

/// The binary32 encoding of the integer `n`: positive zero for zero, else the
/// normal number nearest to `n` (ties to even), whose significand has `24`
/// binary digits.
pub open spec fn binary32_of_int(n: int) -> u32 {
    if n == 0 {
        0
    } else {
        let v = round_to_binary32((if n < 0 { -n } else { n }) as nat);
        let l = bit_length(v);
        let sig: int = if l <= 24 {
            (v * pow2((24 - l) as nat)) as int
        } else {
            (v / pow2((l - 24) as nat)) as int
        };
        let sign: int = if n < 0 { 0x8000_0000 } else { 0 };
        (sign + (l + 126) * 0x80_0000 + sig - 0x80_0000) as u32
    }
}

proof fn lemma_bit_length_is(a: nat, l: nat)
    requires
        l >= 1,
        pow2((l - 1) as nat) <= a < pow2(l),
    ensures
        bit_length(a) == l,
    decreases l,
{
    lemma2_to64();
    lemma_pow2_unfold(l);
    if l > 1 {
        lemma_pow2_unfold((l - 1) as nat);
        lemma_bit_length_is(a / 2, (l - 1) as nat);
    } else {
        assert(bit_length(0) == 0);
    }
}

proof fn lemma_bit_length(a: nat)
    ensures
        a < pow2(bit_length(a)),
        a > 0 ==> pow2((bit_length(a) - 1) as nat) <= a,
    decreases a,
{
    lemma2_to64();
    if a > 0 {
        lemma_bit_length(a / 2);
        lemma_pow2_unfold(bit_length(a));
        if a / 2 > 0 {
            lemma_pow2_unfold((bit_length(a) - 1) as nat);
        }
    }
}

proof fn lemma_bit_length_u32(a: u32)
    ensures
        bit_length(a as nat) <= 32,
{
    lemma_bit_length(a as nat);
    lemma2_to64();
    if bit_length(a as nat) > 32 {
        lemma_pow2_strictly_increases(32, (bit_length(a as nat) - 1) as nat);
    }
}

proof fn lemma_fields(s: int, e: int, f: int)
    requires
        0 <= s < 2,
        0 <= e < 0x100,
        0 <= f < 0x80_0000,
    ensures
        ({
            let b = (s * 0x8000_0000 + e * 0x80_0000 + f) as u32;
            &&& sign_bit(b) == (s == 1)
            &&& exponent_field(b) == e
            &&& fraction_field(b) == f
        }),
{
    let x = s * 0x8000_0000 + e * 0x80_0000 + f;
    lemma_fundamental_div_mod_converse(x, 0x80_0000, s * 0x100 + e, f);
    lemma_fundamental_div_mod_converse(s * 0x100 + e, 0x100, s, e);
}

/// Converts `n` to binary32, rounding to nearest with ties to even, as `as f32` does.
pub fn binary32_of_i32(n: i32) -> (r: u32)
    ensures
        r == binary32_of_int(n as int),
        encodes_integer(r, rounded_integer(n as int)),
{
    if n == 0 {
        proof {
            lemma_fields(0, 0, 0);
            assert(round_to_binary32(0) == 0);
        }
        return 0;
    }
    let neg = n < 0;
    let a: u32 = if neg {
        (-(n as i64)) as u32
    } else {
        n as u32
    };
    let ghost m: nat = a as nat;
    assert(rounded_integer(n as int) == if neg {
        -round_to_binary32(m)
    } else {
        round_to_binary32(m) as int
    });
    proof {
        lemma_bit_length_u32(a);
        lemma_bit_length(m);
        lemma2_to64();
    }
    // `len` counts the binary digits of `a`.
    let mut t: u32 = a;
    let mut len: u32 = 0;
    while t > 0
        invariant
            bit_length(m) == len + bit_length(t as nat),
            bit_length(m) <= 32,
        decreases t,
    {
        t = t / 2;
        len = len + 1;
    }
    assert(1 <= len <= 32);
    let sign: u32 = if neg { 0x8000_0000 } else { 0 };
    let sig: u32;
    let exp: u32;
    let ghost magnitude: nat = round_to_binary32(m);
    if len <= 24 {
        // Exact: `a` shifted up to a significand of 24 digits.
        let sh: u32 = 24 - len;
        proof {
            lemma_pow2_adds((len - 1) as nat, sh as nat);
            lemma_pow2_adds(len as nat, sh as nat);
            lemma_mul_inequality(pow2((len - 1) as nat) as int, m as int, pow2(sh as nat) as int);
            lemma_mul_strict_inequality(m as int, pow2(len as nat) as int, pow2(sh as nat) as int);
            lemma_u32_shl_is_mul(a, sh);
        }
        sig = a << sh;
        exp = len + 126;
        assert(sig == m * pow2(sh as nat));
        assert(bit_length(round_to_binary32(m)) == len);
        proof {
            if sh == 0 {
                lemma2_to64();
                lemma_mul_basics(m as int);
                assert(sig == m);
            }
        }
    } else {
        // The `k` lowest digits are dropped, rounding to nearest with ties to
        // even; a carry out of the 24th digit moves the exponent up by one.
        let k: u32 = len - 24;
        proof {
            lemma_u32_pow2_no_overflow(k as nat);
            assert(1u32 * pow2(k as nat) <= u32::MAX);
            lemma_u32_shl_is_mul(1, k);
        }
        let p: u32 = 1u32 << k;
        let q: u32 = a / p;
        let rem: u32 = a % p;
        proof {
            lemma_pow2_adds(23, k as nat);
            lemma_pow2_adds(24, k as nat);
            lemma_div_is_ordered(pow2(23 + k as nat) as int, m as int, p as int);
            lemma_div_multiples_vanish(pow2(23) as int, p as int);
            lemma_multiply_divide_lt(m as int, p as int, pow2(24) as int);
            lemma_mul_is_commutative(p as int, pow2(24) as int);
            lemma_mul_is_commutative(p as int, pow2(23) as int);
        }
        assert(0x80_0000 <= q < 0x100_0000);
        let up: bool = 2 * rem > p || (2 * rem == p && q % 2 == 1);
        if up && q + 1 == 0x100_0000 {
            sig = 0x80_0000;
            exp = len + 127;
            proof {
                lemma_pow2_adds(1, k as nat);
                lemma_mul_is_associative(0x80_0000, 2, pow2(k as nat) as int);
            }
            assert(sig * pow2((k + 1) as nat) == round_to_binary32(m));
            proof {
                lemma_pow2_adds(24, (k + 1) as nat);
                lemma_pow2_adds(23, (k + 1) as nat);
                lemma_pow2_strictly_increases((23 + k + 1) as nat, (24 + k + 1) as nat);
                lemma_bit_length_is(round_to_binary32(m), (len + 1) as nat);
                lemma_div_multiples_vanish(0x80_0000, pow2((k + 1) as nat) as int);
                lemma_mul_is_commutative(0x80_0000, pow2((k + 1) as nat) as int);
            }
            assert(exp - 150 == k + 1);
        } else {
            sig = if up { q + 1 } else { q };
            exp = len + 126;
            assert(sig * pow2(k as nat) == round_to_binary32(m));
            assert(exp - 150 == k);
            proof {
                assert(0x80_0000 <= sig < 0x100_0000);
                lemma_mul_inequality(0x80_0000, sig as int, pow2(k as nat) as int);
                lemma_mul_strict_inequality(sig as int, 0x100_0000, pow2(k as nat) as int);
                lemma_pow2_strictly_increases((23 + k) as nat, (24 + k) as nat);
                lemma_bit_length_is(round_to_binary32(m), len as nat);
                lemma_div_multiples_vanish(sig as int, pow2(k as nat) as int);
                lemma_mul_is_commutative(sig as int, pow2(k as nat) as int);
            }
        }
        assert(sig * pow2((exp - 150) as nat) == magnitude);
    }
    let r: u32 = sign + exp * 0x80_0000 + (sig - 0x80_0000);
    proof {
        lemma_fields(if neg { 1 } else { 0 }, exp as int, sig - 0x80_0000);
        assert(significand(r) == sig);
        assert(scale(r) == exp - 150);
        if len <= 24 {
            assert(round_to_binary32(m) == m);
            if len == 24 {
                lemma2_to64();
                assert(sig * pow2(0) == magnitude);
            }
        }
    }
    r
}

/// A finite encoding of an integer within the range of `i32` converts back
/// to that integer.
pub proof fn lemma_integer_decodes(b: u32, v: int)
    requires
        encodes_integer(b, v),
        i32::MIN <= v <= i32::MAX,
    ensures
        i32_of_binary32(b) == v,
{
    let m: int = if v < 0 { -v } else { v };
    if scale(b) < 0 {
        let d = pow2((-scale(b)) as nat) as int;
        lemma_pow2_pos((-scale(b)) as nat);
        lemma_div_by_multiple(m, d);
    }
    assert(truncated_magnitude(b) == m);
}

/// An integer that binary32 holds exactly comes back unchanged from the
/// conversion to binary32 and the conversion back to `i32`.
pub proof fn lemma_round_trip(n: i32, b: u32)
    requires
        exact_in_binary32(n as int),
        encodes_integer(b, rounded_integer(n as int)),
    ensures
        i32_of_binary32(b) == n,
{
    lemma_integer_decodes(b, n as int);
}

/// Every integer of magnitude at most `2^24` is held exactly by binary32.
pub proof fn lemma_small_integers_exact(n: int)
    requires
        -0x100_0000 <= n <= 0x100_0000,
    ensures
        exact_in_binary32(n),
{
    let m: nat = if n < 0 { (-n) as nat } else { n as nat };
    lemma_bit_length(m);
    lemma2_to64();
    if bit_length(m) > 25 {
        lemma_pow2_strictly_increases(25, (bit_length(m) - 1) as nat);
    }
    if bit_length(m) == 25 {
        assert(m == 0x100_0000);
        assert(round_to_multiple(m, 1) == m);
    }
}

} // verus!
