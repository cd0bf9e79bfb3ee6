//! Rounding of exact products to binary32 magnitudes.
//!
//! A magnitude is the low 31 bits of a binary32 bit pattern: eight bits of
//! biased exponent above twenty-three bits of fraction. Read as integers,
//! magnitudes are ordered exactly as the values they encode, with the pattern
//! of infinity directly above the largest finite one. Exact products are
//! carried as natural numbers in units of 2^-298, the square of the smallest
//! subnormal, so every product of two finite magnitudes is an integer.
use vstd::arithmetic::div_mod::lemma_fundamental_div_mod_converse;
use vstd::arithmetic::power2::{
    lemma2_to64, lemma2_to64_rest, lemma_pow2_adds, lemma_pow2_pos, lemma_pow2_strictly_increases,
    lemma_pow2_unfold, pow2,
};
use vstd::bits::lemma_u64_shl_is_mul;
use vstd::prelude::*;

verus! {

/// The value of a magnitude in units of 2^-149, the smallest subnormal.
/// The pattern of infinity stands for 2^128 here, one step above the largest
/// finite value, which is what makes rounding overflow to it.
pub open spec fn scaled(m: nat) -> nat {
    let e = m / 0x80_0000;
    let f = m % 0x80_0000;
    if e == 0 {
        f
    } else {
        (0x80_0000 + f) * pow2((e - 1) as nat)
    }
}

/// The exponent field that gives a magnitude its spacing: its own, or 1 for
/// a subnormal.
pub open spec fn spacing(m: nat) -> nat {
    if m / 0x80_0000 == 0 {
        1
    } else {
        m / 0x80_0000
    }
}

/// The significand of a magnitude, hidden bit included.
pub open spec fn significand(m: nat) -> nat {
    if m / 0x80_0000 == 0 {
        m % 0x80_0000
    } else {
        0x80_0000 + m % 0x80_0000
    }
}

/// A finite magnitude is its significand times the step of its binade.
pub proof fn lemma_scaled_split(m: nat)
    requires
        m < 0x7f80_0000,
    ensures
        scaled(m) == significand(m) * pow2((spacing(m) - 1) as nat),
        1 <= spacing(m) <= 254,
        significand(m) < 0x100_0000,
        spacing(m) > 1 ==> significand(m) >= 0x80_0000,
        m == (spacing(m) - 1) * 0x80_0000 + significand(m),
{
    lemma2_to64();
    if m / 0x80_0000 == 0 {
        assert(significand(m) * pow2(0) == significand(m)) by (nonlinear_arith)
            requires
                pow2(0) == 1,
        ;
    }
}

/// The least exponent field `e >= start` whose binade ends above `p`, capped
/// at 255. `p` is in units of 2^-298; the binade of field `e` ends at
/// 2^(e + 172) in those units.
pub open spec fn binade_from(p: nat, start: nat) -> nat
    decreases 255 - start,
{
    if start >= 255 || p < pow2(start + 172) {
        start
    } else {
        binade_from(p, start + 1)
    }
}

/// The exponent field of the binade that holds `p`; subnormals share the
/// spacing of field 1, and 255 means that `p` is at least 2^128.
pub open spec fn binade(p: nat) -> nat {
    binade_from(p, 1)
}

/// The magnitude nearest to `p` units of 2^-298, ties going to the magnitude
/// with an even pattern; the pattern of infinity from 2^128 - 2^103 on.
pub open spec fn rounded_magnitude(p: nat) -> nat {
    let e = binade(p);
    if e >= 255 {
        0x7f80_0000
    } else {
        let ulp = pow2(e + 148);
        let below = ((e - 1) * 0x80_0000 + p / ulp) as nat;
        let rest = p % ulp;
        if 2 * rest > ulp || (2 * rest == ulp && below % 2 == 1) {
            below + 1
        } else {
            below
        }
    }
}

/// Powers of two grow with their exponent.
pub proof fn lemma_pow2_monotonic(a: nat, b: nat)
    requires
        a <= b,
    ensures
        pow2(a) <= pow2(b),
{
    if a < b {
        lemma_pow2_strictly_increases(a, b);
    }
}

/// `binade_from` walks up to the field `e` whose binade holds `p`.
pub proof fn lemma_binade_from(p: nat, start: nat, e: nat)
    requires
        start <= e <= 255,
        e > start ==> pow2(e + 171) <= p,
        e < 255 ==> p < pow2(e + 172),
    ensures
        binade_from(p, start) == e,
    decreases e - start,
{
    if start < e {
        lemma_pow2_monotonic(start + 172, e + 171);
        lemma_binade_from(p, start + 1, e);
    }
}

/// Rounding a value given as `q` whole steps of binade `e` plus a rest.
pub proof fn lemma_rounded(p: nat, e: nat, q: nat, rest: nat)
    requires
        1 <= e <= 254,
        q < 0x100_0000,
        e > 1 ==> q >= 0x80_0000,
        rest < pow2(e + 148),
        p == q * pow2(e + 148) + rest,
    ensures
        binade(p) == e,
        p / pow2(e + 148) == q,
        p % pow2(e + 148) == rest,
        rounded_magnitude(p) == (e - 1) * 0x80_0000 + q + (if 2 * rest > pow2(e + 148) || (2 * rest
            == pow2(e + 148) && q % 2 == 1) {
            1nat
        } else {
            0nat
        }),
{
    let ulp = pow2(e + 148);
    lemma_pow2_pos(e + 148);
    lemma2_to64();
    lemma_pow2_adds(23, e + 148);
    lemma_pow2_adds(24, e + 148);
    assert(pow2(e + 171) == 0x80_0000 * ulp);
    assert(pow2(e + 172) == 0x100_0000 * ulp);
    lemma_fundamental_div_mod_converse(p as int, ulp as int, q as int, rest as int);
    assert(p < 0x100_0000 * ulp) by (nonlinear_arith)
        requires
            p == q * ulp + rest,
            rest < ulp,
            q < 0x100_0000,
    ;
    if e > 1 {
        assert(0x80_0000 * ulp <= p) by (nonlinear_arith)
            requires
                p == q * ulp + rest,
                q >= 0x80_0000,
                ulp > 0,
        ;
    }
    lemma_binade_from(p, 1, e);
    let below = ((e - 1) * 0x80_0000 + q) as nat;
    assert(below % 2 == q % 2) by (nonlinear_arith)
        requires
            below == (e - 1) * 0x80_0000 + q,
            e >= 1,
    ;
}

/// Nothing rounds to nothing.
pub proof fn lemma_rounded_zero()
    ensures
        rounded_magnitude(0) == 0,
{
    lemma_pow2_pos(149);
    lemma_rounded(0, 1, 0, 0);
}

/// A value that is a magnitude already rounds to itself.
pub proof fn lemma_rounded_exact(m: nat)
    requires
        m < 0x7f80_0000,
    ensures
        rounded_magnitude(scaled(m) * pow2(149)) == m,
{
    lemma_scaled_split(m);
    let x = spacing(m);
    let q = significand(m);
    lemma_pow2_adds((x - 1) as nat, 149);
    lemma_pow2_pos(x + 148);
    assert(scaled(m) * pow2(149) == q * pow2(x + 148)) by (nonlinear_arith)
        requires
            scaled(m) == q * pow2((x - 1) as nat),
            pow2(x + 148) == pow2((x - 1) as nat) * pow2(149),
    ;
    lemma_rounded(scaled(m) * pow2(149), x, q, 0);
}

/// The distance between two values.
pub open spec fn distance(a: nat, b: nat) -> nat {
    if a >= b {
        (a - b) as nat
    } else {
        (b - a) as nat
    }
}

/// The value of a magnitude in units of 2^-298, the unit of exact products.
pub open spec fn grid(m: nat) -> nat {
    scaled(m) * pow2(149)
}

/// From one magnitude to the next the value grows by one step of the lower
/// one's binade.
pub proof fn lemma_scaled_step(m: nat)
    requires
        m < 0x7f80_0000,
    ensures
        scaled(m + 1) == scaled(m) + pow2((spacing(m) - 1) as nat),
{
    lemma2_to64();
    let e = m / 0x80_0000;
    let f = m % 0x80_0000;
    if f + 1 < 0x80_0000 {
        assert((m + 1) / 0x80_0000 == e && (m + 1) % 0x80_0000 == f + 1);
        if e > 0 {
            assert((0x80_0000 + f + 1) * pow2((e - 1) as nat) == (0x80_0000 + f) * pow2(
                (e - 1) as nat,
            ) + pow2((e - 1) as nat)) by (nonlinear_arith);
        }
    } else {
        assert((m + 1) / 0x80_0000 == e + 1 && (m + 1) % 0x80_0000 == 0);
        if e > 0 {
            lemma_pow2_unfold(e);
            assert(0x80_0000 * (2 * pow2((e - 1) as nat)) == (0x80_0000 + f) * pow2(
                (e - 1) as nat,
            ) + pow2((e - 1) as nat)) by (nonlinear_arith)
                requires
                    f == 0x7f_ffff,
            ;
        } else {
            assert(0x80_0000 * pow2(0) == 0x80_0000) by (nonlinear_arith)
                requires
                    pow2(0) == 1,
            ;
        }
    }
}

/// Magnitudes are ordered as their values are.
pub proof fn lemma_scaled_increases(a: nat, b: nat)
    requires
        a <= b <= 0x7f80_0000,
    ensures
        scaled(a) <= scaled(b),
        a < b ==> scaled(a) < scaled(b),
    decreases b - a,
{
    if a < b {
        lemma_scaled_increases(a, (b - 1) as nat);
        lemma_scaled_step((b - 1) as nat);
        lemma_pow2_pos((spacing((b - 1) as nat) - 1) as nat);
    }
}

/// The same order on the grid of exact products.
pub proof fn lemma_grid_increases(a: nat, b: nat)
    requires
        a <= b <= 0x7f80_0000,
    ensures
        grid(a) <= grid(b),
        a < b ==> grid(a) < grid(b),
{
    lemma_scaled_increases(a, b);
    lemma_pow2_pos(149);
    assert(scaled(a) * pow2(149) <= scaled(b) * pow2(149)) by (nonlinear_arith)
        requires
            scaled(a) <= scaled(b),
    ;
    if a < b {
        assert(scaled(a) * pow2(149) < scaled(b) * pow2(149)) by (nonlinear_arith)
            requires
                scaled(a) < scaled(b),
                pow2(149) > 0,
        ;
    }
}

/// Where `binade_from` stops, and why.
pub proof fn lemma_binade_bounds(p: nat, start: nat)
    requires
        start <= 255,
    ensures
        start <= binade_from(p, start) <= 255,
        binade_from(p, start) < 255 ==> p < pow2(binade_from(p, start) + 172),
        binade_from(p, start) > start ==> p >= pow2(binade_from(p, start) + 171),
    decreases 255 - start,
{
    if !(start >= 255 || p < pow2(start + 172)) {
        lemma_binade_bounds(p, start + 1);
        let e = binade_from(p, start + 1);
        if e == start + 1 {
            assert(p >= pow2(e + 171));
        }
    }
}

/// Rounding picks a nearest magnitude, and of two nearest ones the even one.
///
/// Distances are taken between exact values, with the pattern of infinity
/// standing for 2^128.
pub proof fn lemma_rounded_is_nearest(p: nat, m: nat)
    requires
        m <= 0x7f80_0000,
    ensures
        rounded_magnitude(p) <= 0x7f80_0000,
        distance(grid(rounded_magnitude(p)), p) <= distance(grid(m), p),
        distance(grid(rounded_magnitude(p)), p) == distance(grid(m), p) && m != rounded_magnitude(p)
            ==> rounded_magnitude(p) % 2 == 0,
{
    lemma2_to64();
    lemma_binade_bounds(p, 1);
    let e = binade(p);
    if e >= 255 {
        lemma_pow2_adds(23, 254);
        lemma_pow2_adds(277, 149);
        assert(scaled(0x7f80_0000) == 0x80_0000 * pow2(254));
        assert(grid(0x7f80_0000) == pow2(426));
        lemma_grid_increases(m, 0x7f80_0000);
    } else {
        let ulp = pow2(e + 148);
        let q = p / ulp;
        let rest = p % ulp;
        lemma_pow2_pos(e + 148);
        lemma_pow2_adds(23, e + 148);
        lemma_pow2_adds(24, e + 148);
        assert(p == q * ulp + rest && rest < ulp) by (nonlinear_arith)
            requires
                q == p / ulp,
                rest == p % ulp,
                ulp > 0,
        ;
        assert(q < 0x100_0000) by (nonlinear_arith)
            requires
                p == q * ulp + rest,
                p < 0x100_0000 * ulp,
                ulp > 0,
        ;
        if e > 1 {
            assert(q >= 0x80_0000) by (nonlinear_arith)
                requires
                    p == q * ulp + rest,
                    p >= 0x80_0000 * ulp,
                    rest < ulp,
            ;
        }
        let below = ((e - 1) * 0x80_0000 + q) as nat;
        assert(below < 0x7f80_0000);
        lemma_scaled_split(below);
        assert(spacing(below) == e && significand(below) == q);
        lemma_scaled_step(below);
        lemma_pow2_adds((e - 1) as nat, 149);
        let unit = pow2((e - 1) as nat);
        assert(grid(below) == q * ulp) by (nonlinear_arith)
            requires
                grid(below) == (q * unit) * pow2(149),
                ulp == unit * pow2(149),
        ;
        assert(grid(below + 1) == q * ulp + ulp) by (nonlinear_arith)
            requires
                grid(below + 1) == (q * unit + unit) * pow2(149),
                ulp == unit * pow2(149),
        ;
        if m <= below {
            lemma_grid_increases(m, below);
        } else {
            lemma_grid_increases(below + 1, m);
        }
        assert(below % 2 == 0 <==> (below + 1) % 2 == 1);
    }
}

/// Number of significant bits of a non-zero 48-bit product.
fn bit_length(m: u64) -> (n: u32)
    requires
        0 < m < 0x1_0000_0000_0000,
    ensures
        1 <= n <= 48,
        pow2((n - 1) as nat) <= m < pow2(n as nat),
{
    let mut n: u32 = 48;
    let mut top: u64 = 0x8000_0000_0000;
    proof {
        lemma2_to64();
        lemma2_to64_rest();
    }
    while m < top
        invariant
            1 <= n <= 48,
            top == pow2((n - 1) as nat),
            m < pow2(n as nat),
            0 < m,
        decreases n,
    {
        proof {
            lemma2_to64();
            assert(n > 1);
            lemma_pow2_unfold((n - 1) as nat);
        }
        top = top / 2;
        n = n - 1;
    }
    n
}

/// Rounds `m * 2^s` units of 2^-298 to the nearest magnitude, ties to even.
///
/// `m` is as wide as the product of two significands, and `s` as large as
/// the exponents of two finite magnitudes can add up to.
pub fn round_product(m: u64, s: u32) -> (r: u32)
    requires
        m < 0x1_0000_0000_0000,
        s <= 506,
    ensures
        r == rounded_magnitude(m as nat * pow2(s as nat)),
        r <= 0x7f80_0000,
{
    if m == 0 {
        proof {
            assert(m as nat * pow2(s as nat) == 0) by (nonlinear_arith)
                requires
                    m == 0,
            ;
            lemma_rounded_zero();
        }
        return 0;
    }
    let len: u32 = bit_length(m);
    let ghost p: nat = m as nat * pow2(s as nat);
    proof {
        lemma2_to64();
        lemma2_to64_rest();
        lemma_pow2_pos(s as nat);
        lemma_pow2_adds((len - 1) as nat, s as nat);
        lemma_pow2_adds(len as nat, s as nat);
        assert(pow2((len - 1 + s) as nat) <= p) by (nonlinear_arith)
            requires
                pow2((len - 1 + s) as nat) == pow2((len - 1) as nat) * pow2(s as nat),
                pow2((len - 1) as nat) <= m,
                p == m as nat * pow2(s as nat),
        ;
        assert(p < pow2((len + s) as nat)) by (nonlinear_arith)
            requires
                pow2((len + s) as nat) == pow2(len as nat) * pow2(s as nat),
                m < pow2(len as nat),
                pow2(s as nat) > 0,
                p == m as nat * pow2(s as nat),
        ;
    }
    if len + s >= 427 {
        proof {
            lemma_pow2_monotonic(426, (len - 1 + s) as nat);
            lemma_binade_from(p, 1, 255);
        }
        return 0x7f80_0000;
    }
    let e: u32 = if len + s > 173 {
        len + s - 172
    } else {
        1
    };
    let ghost ulp: nat = pow2((e + 148) as nat);
    if s > e + 148 {
        // The product is a whole number of steps: nothing is rounded away.
        let up: u32 = s - e - 148;
        proof {
            lemma_u64_shl_is_mul(1, up as u64);
            lemma_pow2_adds(up as nat, (e + 148) as nat);
            lemma_pow2_adds(len as nat, up as nat);
            lemma_pow2_adds((len - 1) as nat, up as nat);
            lemma_pow2_monotonic((len + up) as nat, 24);
            lemma_pow2_pos(up as nat);
            assert(m * pow2(up as nat) < pow2((len + up) as nat)) by (nonlinear_arith)
                requires
                    pow2((len + up) as nat) == pow2(len as nat) * pow2(up as nat),
                    m < pow2(len as nat),
                    pow2(up as nat) > 0,
            ;
            if e > 1 {
                assert(len - 1 + up == 23);
                assert(m * pow2(up as nat) >= pow2(23)) by (nonlinear_arith)
                    requires
                        pow2(23) == pow2((len - 1) as nat) * pow2(up as nat),
                        m >= pow2((len - 1) as nat),
                ;
            }
        }
        let q: u64 = m * (1u64 << up);
        proof {
            assert(p == q * ulp) by (nonlinear_arith)
                requires
                    p == m as nat * pow2(s as nat),
                    pow2(s as nat) == pow2(up as nat) * ulp,
                    q == m * pow2(up as nat),
            ;
            lemma_pow2_pos((e + 148) as nat);
            lemma_rounded(p, e as nat, q as nat, 0);
        }
        return (e - 1) * 0x80_0000 + (q as u32);
    }
    let down: u32 = e + 148 - s;
    if down >= 49 {
        // Less than half of the smallest subnormal.
        proof {
            assert(e == 1);
            lemma_pow2_adds(down as nat, s as nat);
            lemma_pow2_monotonic(49, down as nat);
            assert(2 * p < ulp) by (nonlinear_arith)
                requires
                    p == m as nat * pow2(s as nat),
                    ulp == pow2(down as nat) * pow2(s as nat),
                    2 * m < pow2(down as nat),
                    pow2(s as nat) > 0,
            ;
            lemma_rounded(p, 1, 0, p);
        }
        return 0;
    }
    proof {
        lemma_u64_shl_is_mul(1, down as u64);
        lemma_pow2_pos(down as nat);
        lemma_pow2_monotonic(down as nat, 48);
    }
    let step: u64 = 1u64 << down;
    let q: u64 = m / step;
    let rest: u64 = m % step;
    proof {
        lemma_pow2_adds(down as nat, s as nat);
        lemma_pow2_adds(24, down as nat);
        lemma_pow2_adds(23, down as nat);
        lemma_pow2_monotonic(len as nat, (24 + down) as nat);
        assert(m == q * step + rest) by (nonlinear_arith)
            requires
                q == m / step,
                rest == m % step,
                step > 0,
        ;
        assert(q < 0x100_0000) by (nonlinear_arith)
            requires
                m == q * step + rest,
                m < 0x100_0000 * step,
                step > 0,
        ;
        if e > 1 {
            assert(len - 1 == 23 + down);
            assert(q >= 0x80_0000) by (nonlinear_arith)
                requires
                    m == q * step + rest,
                    m >= 0x80_0000 * step,
                    rest < step,
            ;
        }
        let ghost unit = pow2(s as nat);
        assert(p == q * ulp + rest * unit && rest * unit < ulp && (2 * (rest * unit) > ulp <==> 2
            * rest > step) && (2 * (rest * unit) == ulp <==> 2 * rest == step))
            by (nonlinear_arith)
            requires
                p == m as nat * unit,
                ulp == step * unit,
                m == q * step + rest,
                rest < step,
                unit > 0,
        ;
        lemma_rounded(p, e as nat, q as nat, (rest * unit) as nat);
    }
    let below: u32 = (e - 1) * 0x80_0000 + (q as u32);
    if 2 * rest > step || (2 * rest == step && q % 2 == 1) {
        below + 1
    } else {
        below
    }
}

} // verus!
