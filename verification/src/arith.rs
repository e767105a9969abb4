//! Scalar and vector gcd / lcm on machine integers, the arithmetic kernel
//! under the exact-integer elimination of the solver.

use vstd::math::abs;
use vstd::prelude::*;

verus! {

/// The elements of a sequence of `i32`, as mathematical integers.
pub open spec fn int_view(s: Seq<i32>) -> Seq<int> {
    s.map_values(|x: i32| x as int)
}

/// Truncating integer division (the semantics of `/` on Rust's signed
/// integers), for a non-zero divisor.
pub open spec fn div_t(a: int, d: int) -> int
    recommends
        d != 0,
{
    if a >= 0 && d > 0 {
        a / d
    } else if a < 0 && d < 0 {
        (-a) / (-d)
    } else if a < 0 {
        -((-a) / d)
    } else {
        -(a / (-d))
    }
}

/// Greatest common divisor of two naturals, by Euclid's algorithm.
pub open spec fn spec_gcd(a: nat, b: nat) -> nat
    decreases b,
{
    if b == 0 {
        a
    } else {
        spec_gcd(b, a % b)
    }
}

/// Least common multiple of two naturals; 0 when either argument is 0.
pub open spec fn spec_lcm(a: nat, b: nat) -> nat {
    if spec_gcd(a, b) == 0 {
        0
    } else {
        (a * b) / spec_gcd(a, b)
    }
}

/// Left fold of `spec_gcd` over the absolute values of a sequence, from 0.
pub open spec fn spec_gcd_seq(s: Seq<int>) -> nat
    decreases s.len(),
{
    if s.len() == 0 {
        0
    } else {
        spec_gcd(spec_gcd_seq(s.drop_last()), abs(s.last()) as nat)
    }
}

/// Left fold of `spec_lcm` over the absolute values of a sequence, from 1.
pub open spec fn spec_lcm_seq(s: Seq<int>) -> nat
    decreases s.len(),
{
    if s.len() == 0 {
        1
    } else {
        spec_lcm(spec_lcm_seq(s.drop_last()), abs(s.last()) as nat)
    }
}

pub proof fn lemma_gcd_basics(a: nat, b: nat)
    ensures
        b == 0 ==> spec_gcd(a, b) == a,
        b > 0 ==> spec_gcd(a, b) <= b,
        spec_gcd(a, b) == 0 <==> (a == 0 && b == 0),
    decreases b,
{
    if b > 0 {
        lemma_gcd_basics(b, a % b);
    }
}

/// The gcd divides both of its arguments.
pub proof fn lemma_gcd_divides(a: nat, b: nat)
    ensures
        spec_gcd(a, b) > 0 ==> a % spec_gcd(a, b) == 0 && b % spec_gcd(a, b) == 0,
    decreases b,
{
    let g = spec_gcd(a, b);
    if b == 0 {
        if g > 0 {
            vstd::arithmetic::div_mod::lemma_mod_multiples_basic(1, a as int);
            vstd::arithmetic::div_mod::lemma_mod_multiples_basic(0, a as int);
        }
    } else {
        lemma_gcd_divides(b, a % b);
        if g > 0 {
            let gi = g as int;
            let q1 = b as int / gi;
            let q2 = (a % b) as int / gi;
            vstd::arithmetic::div_mod::lemma_fundamental_div_mod(b as int, gi);
            vstd::arithmetic::div_mod::lemma_fundamental_div_mod((a % b) as int, gi);
            vstd::arithmetic::div_mod::lemma_fundamental_div_mod(a as int, b as int);
            assert(a as int == (q1 * (a as int / b as int) + q2) * gi) by (nonlinear_arith)
                requires
                    b as int == gi * q1 && (a % b) as int == gi * q2 && a as int == b as int * (
                    a as int / b as int) + (a % b) as int,
            ;
            vstd::arithmetic::div_mod::lemma_mod_multiples_basic(
                q1 * (a as int / b as int) + q2,
                gi,
            );
        }
    }
}

pub(crate) fn gcd_u64(a: u64, b: u64) -> (r: u64)
    ensures
        r == spec_gcd(a as nat, b as nat),
{
    let mut x = a;
    let mut y = b;
    while y != 0
        invariant
            spec_gcd(x as nat, y as nat) == spec_gcd(a as nat, b as nat),
        decreases y,
    {
        let r = x % y;
        x = y;
        y = r;
    }
    x
}

/// Absolute value of an `i32` that is not `i32::MIN`, as a `u64`.
pub(crate) fn abs_u64(a: i32) -> (r: u64)
    ensures
        r == abs(a as int),
{
    if a < 0 {
        (-(a as i64)) as u64
    } else {
        a as u64
    }
}

pub fn gcd(a: i32, b: i32) -> (r: i32)
    requires
        a != i32::MIN,
        b != i32::MIN,
    ensures
        r == spec_gcd(abs(a as int) as nat, abs(b as int) as nat),
        0 <= r,
{
    let ua = abs_u64(a);
    let ub = abs_u64(b);
    proof {
        lemma_gcd_basics(ua as nat, ub as nat);
    }
    gcd_u64(ua, ub) as i32
}

pub fn gcd_vec(vec: &Vec<i32>) -> (r: i32)
    requires
        forall|i: int| 0 <= i < vec@.len() ==> vec@[i] != i32::MIN,
    ensures
        r == spec_gcd_seq(int_view(vec@)),
        0 <= r,
{
    let ghost s = int_view(vec@);
    let mut acc: i32 = 0;
    let mut i: usize = 0;
    while i < vec.len()
        invariant
            0 <= i <= vec@.len(),
            s == int_view(vec@),
            forall|j: int| 0 <= j < vec@.len() ==> vec@[j] != i32::MIN,
            0 <= acc,
            acc == spec_gcd_seq(s.take(i as int)),
        decreases vec@.len() - i,
    {
        proof {
            lemma_gcd_basics(acc as nat, abs(vec@[i as int] as int) as nat);
            assert(s.take(i + 1).drop_last() =~= s.take(i as int));
            assert(s.take(i + 1).last() == s[i as int]);
        }
        acc = gcd(acc, vec[i]);
        i = i + 1;
    }
    proof {
        assert(s.take(s.len() as int) =~= s);
    }
    acc
}

pub fn lcm(a: i32, b: i32) -> (r: i32)
    requires
        a != i32::MIN,
        b != i32::MIN,
        !(a == 0 && b == 0),
        spec_lcm(abs(a as int) as nat, abs(b as int) as nat) <= i32::MAX,
    ensures
        r == spec_lcm(abs(a as int) as nat, abs(b as int) as nat),
        0 <= r,
{
    let ua = abs_u64(a);
    let ub = abs_u64(b);
    let g = gcd_u64(ua, ub);
    proof {
        lemma_gcd_basics(ua as nat, ub as nat);
        assert(ua * ub <= 0x7fff_ffff * 0x7fff_ffffu64) by (nonlinear_arith)
            requires
                ua <= 0x7fff_ffff && ub <= 0x7fff_ffff,
        ;
    }
    ((ua * ub) / g) as i32
}

pub fn lcm_vec(vec: &Vec<i32>) -> (r: i32)
    requires
        forall|i: int| 0 <= i < vec@.len() ==> vec@[i] != i32::MIN,
        forall|i: int|
            0 <= i < vec@.len() ==> !(#[trigger] spec_lcm_seq(int_view(vec@).take(i)) == 0
                && vec@[i] == 0),
        forall|i: int|
            0 <= i <= vec@.len() ==> #[trigger] spec_lcm_seq(int_view(vec@).take(i))
                <= i32::MAX,
    ensures
        r == spec_lcm_seq(int_view(vec@)),
        0 <= r,
{
    let ghost s = int_view(vec@);
    let mut acc: i32 = 1;
    let mut i: usize = 0;
    while i < vec.len()
        invariant
            0 <= i <= vec@.len(),
            s == int_view(vec@),
            forall|j: int| 0 <= j < vec@.len() ==> vec@[j] != i32::MIN,
            forall|j: int|
                0 <= j < vec@.len() ==> !(#[trigger] spec_lcm_seq(s.take(j)) == 0 && vec@[j] == 0),
            forall|j: int| 0 <= j <= vec@.len() ==> #[trigger] spec_lcm_seq(s.take(j)) <= i32::MAX,
            0 <= acc,
            acc == spec_lcm_seq(s.take(i as int)),
        decreases vec@.len() - i,
    {
        proof {
            assert(s.take(i + 1).drop_last() =~= s.take(i as int));
            assert(s.take(i + 1).last() == s[i as int]);
            assert(spec_lcm_seq(s.take(i + 1)) == spec_lcm(
                spec_lcm_seq(s.take(i as int)),
                abs(s[i as int]) as nat,
            ));
        }
        acc = lcm(acc, vec[i]);
        i = i + 1;
    }
    proof {
        assert(s.take(s.len() as int) =~= s);
    }
    acc
}

} // verus!
