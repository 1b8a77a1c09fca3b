//! The two bit-arithmetic quantities the accumulator is built on: the lowest
//! set bit of a position, which names the block of elements a slot aggregates
//! and the step every traversal advances by, and the highest power of two not
//! above the logical size, which seeds the binary-lifting searches. Both are
//! defined by halving recursion, and the facts the traversal proofs need are
//! proved here by induction.

use vstd::prelude::*;

verus! {

use vstd::arithmetic::div_mod::lemma_div_pos_is_pos;
use vstd::arithmetic::div_mod::lemma_fundamental_div_mod;
use vstd::arithmetic::div_mod::lemma_fundamental_div_mod_converse_div;
use vstd::arithmetic::div_mod::lemma_fundamental_div_mod_converse_mod;
use vstd::arithmetic::div_mod::lemma_mod_self_0;

/// The lowest set bit of `n` (0 for arguments without one): 1 when `n` is
/// odd, else twice the lowest set bit of `n / 2`.
pub open spec fn lsb_spec(n: int) -> int
    decreases n,
{
    if n <= 0 {
        0
    } else if n % 2 == 1 {
        1
    } else {
        2 * lsb_spec(n / 2)
    }
}

/// The highest power of two not above `n` (0 for arguments without one).
pub open spec fn msb_spec(n: int) -> int
    decreases n,
{
    if n <= 0 {
        0
    } else if n == 1 {
        1
    } else {
        2 * msb_spec(n / 2)
    }
}

/// Whether `n` is a power of two.
pub open spec fn is_pow2(n: int) -> bool
    decreases n,
{
    if n <= 0 {
        false
    } else if n == 1 {
        true
    } else {
        n % 2 == 0 && is_pow2(n / 2)
    }
}

/// The least power of two that is at least `x` (1 for `x <= 1`).
pub open spec fn np2(x: int) -> int
    decreases x,
{
    if x <= 1 {
        1
    } else {
        2 * np2((x + 1) / 2)
    }
}

/// The lowest set bit of a positive position is between 1 and the position.
pub proof fn lemma_lsb_bounds(n: int)
    requires
        1 <= n,
    ensures
        1 <= lsb_spec(n) <= n,
    decreases n,
{
    if n % 2 == 0 {
        lemma_lsb_bounds(n / 2);
    }
}

/// The lowest set bit of a positive position is a power of two.
pub proof fn lemma_lsb_is_pow2(n: int)
    requires
        1 <= n,
    ensures
        is_pow2(lsb_spec(n)),
    decreases n,
{
    if n % 2 == 0 {
        lemma_lsb_is_pow2(n / 2);
        lemma_lsb_bounds(n / 2);
    }
}

/// Between a position and the next one reached by adding its lowest set bit,
/// every position steps back at least to the first when its own lowest set
/// bit is removed.
pub proof fn lemma_lsb_gap(j: int, i: int)
    requires
        1 <= j,
        j < i < j + lsb_spec(j),
    ensures
        i - lsb_spec(i) >= j,
    decreases i,
{
    if j % 2 == 1 {
        assert(false);
    } else if i % 2 == 1 {
    } else {
        lemma_lsb_gap(j / 2, i / 2);
    }
}

/// Advancing a position by its lowest set bit at least doubles that bit.
pub proof fn lemma_lsb_raise(n: int)
    requires
        1 <= n,
    ensures
        lsb_spec(n + lsb_spec(n)) >= 2 * lsb_spec(n),
    decreases n,
{
    if n % 2 == 1 {
        lemma_lsb_bounds((n + 1) / 2);
    } else {
        lemma_lsb_raise(n / 2);
        assert(n + lsb_spec(n) == 2 * (n / 2 + lsb_spec(n / 2)));
    }
}

/// Removing the lowest set bit of a position at least doubles it, as long as
/// something is left.
pub proof fn lemma_lsb_clear(n: int)
    requires
        1 <= n,
        1 <= n - lsb_spec(n),
    ensures
        lsb_spec(n - lsb_spec(n)) >= 2 * lsb_spec(n),
    decreases n,
{
    if n % 2 == 1 {
        lemma_lsb_bounds((n - 1) / 2);
        assert(n - 1 == 2 * ((n - 1) / 2));
    } else {
        lemma_lsb_bounds(n / 2);
        assert(n / 2 - lsb_spec(n / 2) >= 1);
        lemma_lsb_clear(n / 2);
        assert(n - lsb_spec(n) == 2 * (n / 2 - lsb_spec(n / 2)));
    }
}

/// The highest power of two not above a positive number is a power of two.
pub proof fn lemma_msb_is_pow2(n: int)
    requires
        1 <= n,
    ensures
        is_pow2(msb_spec(n)),
    decreases n,
{
    if n >= 2 {
        lemma_msb_is_pow2(n / 2);
        lemma_msb_range(n / 2);
    }
}

/// A positive number lies between its highest covered power of two and the
/// double of that power.
pub proof fn lemma_msb_range(n: int)
    requires
        1 <= n,
    ensures
        msb_spec(n) <= n < 2 * msb_spec(n),
    decreases n,
{
    if n >= 2 {
        lemma_msb_range(n / 2);
    }
}

/// The least covering power of two is positive, at least the argument, and
/// a power of two.
pub proof fn lemma_np2_bounds(x: int)
    ensures
        1 <= np2(x),
        x <= np2(x),
        is_pow2(np2(x)),
    decreases x,
{
    if x >= 2 {
        lemma_np2_bounds((x + 1) / 2);
    }
}

/// Raising the argument by one either leaves the least covering power of two
/// unchanged, or the old argument was exactly that power and it doubles.
pub proof fn lemma_np2_step(x: int)
    requires
        1 <= x,
    ensures
        np2(x + 1) == np2(x) || (np2(x) == x && np2(x + 1) == 2 * x),
    decreases x,
{
    if x == 1 {
    } else if x % 2 == 0 {
        lemma_np2_step(x / 2);
        assert((x + 1 + 1) / 2 == x / 2 + 1);
        assert((x + 1) / 2 == x / 2);
    } else {
        assert((x + 1 + 1) / 2 == (x + 1) / 2);
    }
}

/// At a power of two the least covering power is the argument itself, and one
/// past it the least covering power doubles.
pub proof fn lemma_np2_of_pow2(w: int)
    requires
        is_pow2(w),
    ensures
        np2(w) == w,
        np2(w + 1) == 2 * w,
    decreases w,
{
    if w == 1 {
    } else {
        lemma_np2_of_pow2(w / 2);
        assert((w + 1) / 2 == w / 2);
        assert((w + 1 + 1) / 2 == w / 2 + 1);
    }
}

proof fn lemma_mod_double(x: int, m: int)
    by (nonlinear_arith)
    requires
        0 <= x,
        1 <= m,
    ensures
        (2 * x) % (2 * m) == 2 * (x % m),
{
}

proof fn lemma_mod_halve(x: int, m: int)
    requires
        0 <= x,
        2 <= m,
        x % 2 == 0,
        m % 2 == 0,
    ensures
        (x / 2) % (m / 2) == (x % m) / 2,
        (x % m) % 2 == 0,
{
    lemma_fundamental_div_mod(x, 2);
    lemma_fundamental_div_mod(m, 2);
    lemma_mod_double(x / 2, m / 2);
    assert(x == 2 * (x / 2));
    assert(m == 2 * (m / 2));
}

/// A multiple of twice a divisor is also a multiple of the divisor, before
/// and after one more step of the divisor itself.
pub proof fn lemma_mod_half_divisor(i: int, s: int)
    requires
        0 <= i,
        1 <= s,
        i % (2 * s) == 0,
    ensures
        i % s == 0,
        (i + s) % s == 0,
{
    let q = i / (2 * s);
    lemma_fundamental_div_mod(i, 2 * s);
    lemma_div_pos_is_pos(i, 2 * s);
    assert((2 * s) * q == (2 * q) * s) by (nonlinear_arith);
    lemma_fundamental_div_mod_converse_mod(i, s, 2 * q, 0);
    assert(i + s == (2 * q + 1) * s) by (nonlinear_arith)
        requires
            i == (2 * q) * s,
    ;
    lemma_fundamental_div_mod_converse_mod(i + s, s, 2 * q + 1, 0);
}

/// Divisibility is transitive: a multiple of `b` is a multiple of every
/// divisor `a` of `b`.
pub proof fn lemma_mod_trans(p: int, a: int, b: int)
    requires
        0 <= p,
        1 <= a,
        1 <= b,
        p % b == 0,
        b % a == 0,
    ensures
        p % a == 0,
{
    let qb = p / b;
    let ra = b / a;
    lemma_fundamental_div_mod(p, b);
    lemma_fundamental_div_mod(b, a);
    lemma_div_pos_is_pos(p, b);
    lemma_div_pos_is_pos(b, a);
    assert(p == (qb * ra) * a) by (nonlinear_arith)
        requires
            p == b * qb,
            b == a * ra,
    ;
    lemma_fundamental_div_mod_converse_mod(p, a, qb * ra, 0);
}

/// Stepping one divisor-width down from a positive multiple of twice the
/// divisor leaves remainder exactly the divisor.
pub proof fn lemma_mod_minus(p: int, x: int)
    requires
        1 <= x,
        x <= p,
        p % (2 * x) == 0,
    ensures
        (p - x) % (2 * x) == x,
{
    let q = p / (2 * x);
    lemma_fundamental_div_mod(p, 2 * x);
    lemma_div_pos_is_pos(p, 2 * x);
    assert(1 <= q) by (nonlinear_arith)
        requires
            p == (2 * x) * q,
            1 <= x,
            x <= p,
            0 <= q,
    ;
    assert(p - x == (q - 1) * (2 * x) + x) by (nonlinear_arith)
        requires
            p == (2 * x) * q,
    ;
    lemma_fundamental_div_mod_converse_mod(p - x, 2 * x, q - 1, x);
}

/// The lowest set bit of `n`, found by halving until the argument is odd.
pub fn lsb(n: usize) -> (r: usize)
    requires
        1 <= n,
    ensures
        r as int == lsb_spec(n as int),
        1 <= r <= n,
{
    proof {
        lemma_lsb_bounds(n as int);
    }
    let mut m: usize = n;
    let mut r: usize = 1;
    while m % 2 == 0
        invariant
            1 <= m <= n,
            1 <= r,
            r as int * lsb_spec(m as int) == lsb_spec(n as int),
            1 <= lsb_spec(m as int),
            lsb_spec(n as int) <= n as int,
        decreases m,
    {
        proof {
            lemma_lsb_bounds(m as int / 2);
            assert(lsb_spec(m as int) == 2 * lsb_spec(m as int / 2));
            assert(r as int * (2 * lsb_spec(m as int / 2)) == (2 * r as int) * lsb_spec(
                m as int / 2,
            )) by (nonlinear_arith);
            assert(2 * r as int <= r as int * (2 * lsb_spec(m as int / 2))) by (nonlinear_arith)
                requires
                    1 <= r as int,
                    1 <= lsb_spec(m as int / 2),
            ;
        }
        m = m / 2;
        r = r * 2;
    }
    r
}

/// The highest power of two not above `n` (0 for 0), found by halving down to
/// one while doubling the result.
pub fn msb(n: usize) -> (r: usize)
    ensures
        r as int == msb_spec(n as int),
{
    if n == 0 {
        return 0;
    }
    proof {
        lemma_msb_range(n as int);
    }
    let mut m: usize = n;
    let mut r: usize = 1;
    while m >= 2
        invariant
            1 <= m <= n,
            1 <= r,
            r as int * msb_spec(m as int) == msb_spec(n as int),
            1 <= msb_spec(m as int),
            msb_spec(n as int) <= n as int,
        decreases m,
    {
        proof {
            lemma_msb_range(m as int / 2);
            assert(msb_spec(m as int) == 2 * msb_spec(m as int / 2));
            assert(r as int * (2 * msb_spec(m as int / 2)) == (2 * r as int) * msb_spec(
                m as int / 2,
            )) by (nonlinear_arith);
            assert(2 * r as int <= r as int * (2 * msb_spec(m as int / 2))) by (nonlinear_arith)
                requires
                    1 <= r as int,
                    1 <= msb_spec(m as int / 2),
            ;
        }
        m = m / 2;
        r = r * 2;
    }
    r
}

/// A position is a multiple of twice its lowest set bit, plus that bit.
pub proof fn lemma_lsb_divides(n: int)
    requires
        1 <= n,
    ensures
        n % lsb_spec(n) == 0,
        n % (2 * lsb_spec(n)) == lsb_spec(n),
    decreases n,
{
    if n % 2 == 1 {
        lemma_fundamental_div_mod_converse_mod(n, 1, n, 0);
        lemma_fundamental_div_mod_converse_mod(n, 2, (n - 1) / 2, 1);
        assert(n == 2 * ((n - 1) / 2) + 1);
    } else {
        lemma_lsb_divides(n / 2);
        lemma_lsb_bounds(n / 2);
        let l = lsb_spec(n / 2);
        lemma_mod_double(n / 2, l);
        lemma_mod_double(n / 2, 2 * l);
        lemma_fundamental_div_mod(n, 2);
        assert(n == 2 * (n / 2));
    }
}

/// A position that is a multiple of twice a power of two, plus that power,
/// has exactly that power as its lowest set bit.
pub proof fn lemma_lsb_char(n: int, w: int)
    requires
        1 <= n,
        is_pow2(w),
        n % (2 * w) == w,
    ensures
        lsb_spec(n) == w,
    decreases w,
{
    if w == 1 {
        assert(n % 2 == 1);
    } else {
        let q = n / (2 * w);
        lemma_fundamental_div_mod(n, 2 * w);
        lemma_div_pos_is_pos(n, 2 * w);
        assert(n == (2 * w) * q + w);
        assert(w * q >= 0) by (nonlinear_arith)
            requires
                0 <= w,
                0 <= q,
        ;
        assert((2 * w) * q == 2 * (w * q)) by (nonlinear_arith);
        lemma_fundamental_div_mod(w, 2);
        let k = w * q + w / 2;
        assert(n == 2 * k);
        lemma_fundamental_div_mod_converse_mod(n, 2, k, 0);
        assert(n % 2 == 0);
        assert(2 <= n);
        lemma_fundamental_div_mod_converse_div(2 * w, 2, w, 0);
        lemma_fundamental_div_mod_converse_mod(2 * w, 2, w, 0);
        lemma_mod_halve(n, 2 * w);
        assert((n / 2) % w == w / 2);
        lemma_lsb_char(n / 2, w / 2);
    }
}

/// Adding a power of two to one of its even multiples yields a position whose
/// lowest set bit is exactly that power.
pub proof fn lemma_lsb_sum(i: int, w: int)
    requires
        0 <= i,
        is_pow2(w),
        i % (2 * w) == 0,
    ensures
        lsb_spec(i + w) == w,
{
    let q = i / (2 * w);
    lemma_fundamental_div_mod(i, 2 * w);
    assert(i + w == q * (2 * w) + w);
    lemma_fundamental_div_mod_converse_mod(i + w, 2 * w, q, w);
    lemma_lsb_char(i + w, w);
}

/// Of two powers of two, the smaller divides the larger, and when they differ
/// the larger is at least double.
pub proof fn lemma_pow2_le_divides(a: int, b: int)
    requires
        is_pow2(a),
        is_pow2(b),
        a <= b,
    ensures
        b % a == 0,
        a < b ==> 2 * a <= b && b % (2 * a) == 0,
    decreases b,
{
    if a == b {
        lemma_mod_self_0(a);
    } else if a == 1 {
        lemma_fundamental_div_mod_converse_mod(b, 1, b, 0);
        assert(b % 2 == 0);
    } else {
        lemma_pow2_le_divides(a / 2, b / 2);
        lemma_fundamental_div_mod(a, 2);
        lemma_fundamental_div_mod(b, 2);
        assert(a == 2 * (a / 2));
        assert(b == 2 * (b / 2));
        lemma_mod_double(b / 2, a / 2);
        lemma_mod_double(b / 2, a);
    }
}

} // verus!
