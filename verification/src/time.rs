//! Virtual-clock time values and the integer geometric mean.
//!
//! Time is measured on a virtual clock (see the list module): a monotone
//! counter of accept actions, held as a `u64` number of ticks.  The
//! geometric mean blends timing signals while damping outliers; here it is
//! the floor of the real-valued n-th root of the product of the inputs.

use vstd::arithmetic::div_mod::lemma_fundamental_div_mod;
use vstd::arithmetic::mul::lemma_mul_inequality;
use vstd::arithmetic::mul::lemma_mul_nonnegative;
use vstd::arithmetic::mul::lemma_mul_strict_inequality;
use vstd::arithmetic::mul::lemma_mul_upper_bound;
use vstd::arithmetic::power::lemma0_pow;
use vstd::arithmetic::power::lemma1_pow;
use vstd::arithmetic::power::lemma_pow1;
use vstd::arithmetic::power::lemma_pow_increases;
use vstd::arithmetic::power::lemma_pow_positive;
use vstd::arithmetic::power::pow;
use vstd::prelude::*;

verus! {

/// A point on the virtual clock, in ticks.
#[derive(Debug, Clone, Copy, PartialEq, Eq, Structural)]
pub struct Time(pub u64);

/// The product of a sequence of time values, as a mathematical integer.
pub open spec fn product_of(s: Seq<Time>) -> int
    decreases s.len(),
{
    if s.len() == 0 {
        1
    } else {
        product_of(s.drop_last()) * s.last().0
    }
}

/// Every value in the sequence is a positive number of ticks.
pub open spec fn all_positive(s: Seq<Time>) -> bool {
    forall|i: int| 0 <= i < s.len() ==> (#[trigger] s[i]).0 > 0
}

/// The floor of the real n-th root of `p`: the greatest `r` with
/// `pow(r, n) <= p`, built up one candidate at a time.
pub open spec fn floor_root(p: int, n: nat) -> int
    decreases p,
{
    if p <= 0 {
        0
    } else {
        let r = floor_root(p - 1, n);
        if pow(r + 1, n) <= p {
            r + 1
        } else {
            r
        }
    }
}

/// The geometric mean of a sequence of time values, rounded down;
/// an empty sequence is given the neutral mean of one tick.
pub open spec fn spec_geo_mean(s: Seq<Time>) -> int {
    if s.len() == 0 {
        1
    } else {
        floor_root(product_of(s), s.len())
    }
}

/// A power of a nonnegative base is nonnegative.
proof fn lemma_pow_nonneg(b: int, n: nat)
    requires
        0 <= b,
    ensures
        0 <= pow(b, n),
    decreases n,
{
    reveal(pow);
    if n > 0 {
        lemma_pow_nonneg(b, (n - 1) as nat);
        lemma_mul_nonnegative(b, pow(b, (n - 1) as nat));
    }
}

/// Raising to a power preserves the order of nonnegative bases.
proof fn lemma_pow_base_le(a: int, b: int, n: nat)
    requires
        0 <= a <= b,
    ensures
        pow(a, n) <= pow(b, n),
    decreases n,
{
    reveal(pow);
    if n > 0 {
        let m = (n - 1) as nat;
        lemma_pow_base_le(a, b, m);
        lemma_pow_nonneg(a, m);
        lemma_pow_nonneg(b, m);
        // a * pow(a, m) <= b * pow(a, m) <= b * pow(b, m)
        lemma_mul_inequality(a, b, pow(a, m));
        assert(b * pow(a, m) <= b * pow(b, m)) by {
            lemma_mul_inequality(pow(a, m), pow(b, m), b);
            assert(pow(a, m) * b == b * pow(a, m)) by (nonlinear_arith);
            assert(pow(b, m) * b == b * pow(b, m)) by (nonlinear_arith);
        }
    }
}

/// Raising to a positive power preserves strict order of nonnegative bases.
proof fn lemma_pow_base_lt(a: int, b: int, n: nat)
    requires
        0 <= a < b,
        1 <= n,
    ensures
        pow(a, n) < pow(b, n),
    decreases n,
{
    reveal(pow);
    let m = (n - 1) as nat;
    if m == 0 {
        lemma_pow1(a);
        lemma_pow1(b);
    } else {
        lemma_pow_base_lt(a, b, m);
        lemma_pow_nonneg(a, m);
        lemma_pow_positive(b, m);
        // a * pow(a, m) <= a * pow(b, m) < b * pow(b, m)
        assert(a * pow(a, m) <= a * pow(b, m)) by {
            lemma_mul_inequality(pow(a, m), pow(b, m), a);
            assert(pow(a, m) * a == a * pow(a, m)) by (nonlinear_arith);
            assert(pow(b, m) * a == a * pow(b, m)) by (nonlinear_arith);
        }
        lemma_mul_strict_inequality(a, b, pow(b, m));
    }
}

/// The defining property of `floor_root`: it brackets `p` between two
/// consecutive powers.
pub proof fn lemma_floor_root_props(p: int, n: nat)
    requires
        0 <= p,
        1 <= n,
    ensures
        0 <= floor_root(p, n),
        pow(floor_root(p, n), n) <= p,
        p < pow(floor_root(p, n) + 1, n),
    decreases p,
{
    if p == 0 {
        lemma0_pow(n);
        lemma1_pow(n);
    } else {
        lemma_floor_root_props(p - 1, n);
        let r = floor_root(p - 1, n);
        if pow(r + 1, n) <= p {
            // then pow(r + 1, n) == p exactly, and the next power is larger
            lemma_pow_base_lt(r + 1, r + 2, n);
        }
    }
}

/// Any `r` bracketing `p` between `pow(r, n)` and `pow(r + 1, n)` is the
/// floor root of `p`.
pub proof fn lemma_floor_root_unique(p: int, n: nat, r: int)
    requires
        1 <= n,
        0 <= r,
        pow(r, n) <= p,
        p < pow(r + 1, n),
    ensures
        floor_root(p, n) == r,
{
    lemma_pow_nonneg(r, n);
    lemma_floor_root_props(p, n);
    let r0 = floor_root(p, n);
    if r0 < r {
        lemma_pow_base_le(r0 + 1, r, n);
    } else if r0 > r {
        lemma_pow_base_le(r + 1, r0, n);
    }
}

/// A product of nonnegative values is nonnegative.
proof fn lemma_product_nonneg(s: Seq<Time>)
    ensures
        0 <= product_of(s),
    decreases s.len(),
{
    if s.len() > 0 {
        lemma_product_nonneg(s.drop_last());
        lemma_mul_nonnegative(product_of(s.drop_last()), s.last().0 as int);
    }
}

/// A product of positive values is at least one.
pub proof fn lemma_product_positive(s: Seq<Time>)
    requires
        all_positive(s),
    ensures
        1 <= product_of(s),
    decreases s.len(),
{
    if s.len() > 0 {
        assert(all_positive(s.drop_last()));
        lemma_product_positive(s.drop_last());
        lemma_mul_inequality(1, product_of(s.drop_last()), s.last().0 as int);
    }
}

/// A zero anywhere makes the whole product zero.
proof fn lemma_product_zero(s: Seq<Time>, i: int)
    requires
        0 <= i < s.len(),
        s[i].0 == 0,
    ensures
        product_of(s) == 0,
    decreases s.len(),
{
    if i == s.len() - 1 {
        assert(product_of(s) == product_of(s.drop_last()) * 0);
    } else {
        lemma_product_zero(s.drop_last(), i);
    }
}

/// A product of values bounded by `b` is bounded by the matching power of `b`.
pub proof fn lemma_product_le_pow(s: Seq<Time>, b: int)
    requires
        1 <= b,
        forall|i: int| 0 <= i < s.len() ==> (#[trigger] s[i]).0 <= b,
    ensures
        product_of(s) <= pow(b, s.len()),
    decreases s.len(),
{
    reveal(pow);
    if s.len() > 0 {
        lemma_product_le_pow(s.drop_last(), b);
        lemma_product_nonneg(s.drop_last());
        lemma_pow_nonneg(b, (s.len() - 1) as nat);
        lemma_mul_upper_bound(
            product_of(s.drop_last()),
            pow(b, (s.len() - 1) as nat),
            s.last().0 as int,
            b,
        );
        assert(pow(b, s.len()) == b * pow(b, (s.len() - 1) as nat));
        assert(pow(b, (s.len() - 1) as nat) * b == b * pow(b, (s.len() - 1) as nat))
            by (nonlinear_arith);
    }
}

/// A prefix of a product of positive values never exceeds the whole product.
proof fn lemma_product_prefix_le(s: Seq<Time>, i: int)
    requires
        all_positive(s),
        0 <= i <= s.len(),
    ensures
        product_of(s.take(i)) <= product_of(s),
    decreases s.len() - i,
{
    if i == s.len() {
        assert(s.take(i) =~= s);
    } else {
        lemma_product_prefix_le(s, i + 1);
        assert(s.take(i + 1).drop_last() =~= s.take(i));
        assert(s.take(i + 1).last() == s[i]);
        lemma_product_nonneg(s.take(i));
        lemma_mul_inequality(1, s[i].0 as int, product_of(s.take(i)));
        assert(product_of(s.take(i)) * (s[i].0 as int) == (s[i].0 as int) * product_of(
            s.take(i),
        )) by (nonlinear_arith);
    }
}

/// The geometric mean of values bounded by `b` lies between zero and `b`.
pub proof fn lemma_geo_mean_bounds(s: Seq<Time>, b: int)
    requires
        1 <= b,
        forall|i: int| 0 <= i < s.len() ==> (#[trigger] s[i]).0 <= b,
    ensures
        0 <= spec_geo_mean(s) <= b,
{
    if s.len() > 0 {
        lemma_product_nonneg(s);
        lemma_floor_root_props(product_of(s), s.len());
        let r = floor_root(product_of(s), s.len());
        if r > b {
            lemma_product_le_pow(s, b);
            lemma_pow_base_le(b + 1, r, s.len());
            lemma_pow_base_lt(b, b + 1, s.len());
        }
    }
}

/// Decides whether `pow(b, n) <= p`, multiplying one factor at a time and
/// stopping as soon as the partial power exceeds `p`.
fn pow_le(b: u128, n: usize, p: u128) -> (r: bool)
    requires
        1 <= n,
    ensures
        r == (pow(b as int, n as nat) <= p as int),
{
    if b == 0 {
        proof {
            lemma0_pow(n as nat);
        }
        return true;
    }
    if b == 1 {
        proof {
            lemma1_pow(n as nat);
        }
        return p >= 1;
    }
    proof {
        reveal(pow);
    }
    let mut acc: u128 = 1;
    let mut i: usize = 0;
    if p == 0 {
        proof {
            lemma_pow_positive(b as int, n as nat);
        }
        return false;
    }
    while i < n
        invariant
            1 <= n,
            2 <= b,
            1 <= p,
            0 <= i <= n,
            acc as int == pow(b as int, i as nat),
            acc as int <= p as int,
        decreases n - i,
    {
        let q: u128 = p / b;
        proof {
            reveal(pow);
            lemma_fundamental_div_mod(p as int, b as int);
            assert(pow(b as int, (i + 1) as nat) == b * pow(b as int, i as nat));
        }
        if acc > q {
            proof {
                // acc >= q + 1, so acc * b >= (q + 1) * b > p
                lemma_mul_inequality(q as int + 1, acc as int, b as int);
                assert((q as int + 1) * b as int == q as int * b as int + b as int)
                    by (nonlinear_arith);
                assert(b as int * q as int == q as int * b as int) by (nonlinear_arith);
                assert(acc as int * b as int == b as int * acc as int) by (nonlinear_arith);
                lemma_pow_increases(b as nat, (i + 1) as nat, n as nat);
            }
            return false;
        }
        proof {
            // acc <= q, so acc * b <= q * b <= p: no overflow
            lemma_mul_inequality(acc as int, q as int, b as int);
        }
        acc = acc * b;
        i += 1;
    }
    true
}

/// The geometric mean of the given time values, rounded down to whole
/// ticks; the mean of no values is one tick.
pub fn geometric_mean(data: &[Time]) -> (r: Time)
    requires
        all_positive(data@) ==> product_of(data@) <= u128::MAX as int,
    ensures
        r.0 == spec_geo_mean(data@),
{
    let n: usize = data.len();
    if n == 0 {
        return Time(1);
    }
    let mut i: usize = 0;
    while i < n
        invariant
            n == data@.len(),
            0 <= i <= n,
            forall|j: int| 0 <= j < i ==> (#[trigger] data@[j]).0 > 0,
        decreases n - i,
    {
        if data[i].0 == 0 {
            proof {
                lemma_product_zero(data@, i as int);
            }
            return Time(0);
        }
        i += 1;
    }
    assert(all_positive(data@));
    let ghost p = product_of(data@);
    proof {
        lemma_product_positive(data@);
    }
    let mut prod: u128 = 1;
    let mut i: usize = 0;
    while i < n
        invariant
            n == data@.len(),
            all_positive(data@),
            p == product_of(data@),
            1 <= p <= u128::MAX as int,
            0 <= i <= n,
            prod as int == product_of(data@.take(i as int)),
        decreases n - i,
    {
        proof {
            lemma_product_prefix_le(data@, i + 1);
            assert(data@.take(i + 1).drop_last() =~= data@.take(i as int));
            assert(data@.take(i + 1).last() == data@[i as int]);
        }
        prod = prod * (data[i].0 as u128);
        i += 1;
    }
    proof {
        assert(data@.take(n as int) =~= data@);
    }
    if n == 1 {
        proof {
            assert(data@.drop_last() =~= Seq::<Time>::empty());
            assert(product_of(data@.drop_last()) == 1);
            assert(p == product_of(data@.drop_last()) * data@.last().0 as int);
            assert(p == data@.last().0 as int);
            lemma_pow1(p);
            lemma_pow1(p + 1);
            lemma_floor_root_unique(p, 1, p);
        }
        return Time(prod as u64);
    }
    let mut lo: u128 = 0;
    let mut hi: u128 = 0xffff_ffff_ffff_ffff_u128 + 1;
    proof {
        reveal_with_fuel(pow, 3);
        lemma0_pow(n as nat);
        assert(pow(hi as int, 2) == hi as int * (hi as int * 1));
        assert(hi as int * (hi as int * 1) > u128::MAX as int) by (nonlinear_arith)
            requires hi as int == 0x1_0000_0000_0000_0000;
        lemma_pow_increases(hi as nat, 2, n as nat);
    }
    while lo + 1 < hi
        invariant
            2 <= n,
            n == data@.len(),
            p == product_of(data@),
            1 <= p <= u128::MAX as int,
            p == prod as int,
            lo < hi <= 0x1_0000_0000_0000_0000_u128,
            pow(lo as int, n as nat) <= p,
            p < pow(hi as int, n as nat),
        decreases hi - lo,
    {
        let mid: u128 = lo + (hi - lo) / 2;
        if pow_le(mid, n, prod) {
            lo = mid;
        } else {
            hi = mid;
        }
    }
    proof {
        lemma_floor_root_unique(p, n as nat, lo as int);
    }
    Time(lo as u64)
}

} // verus!
