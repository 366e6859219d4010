use vstd::prelude::*;

verus! {

/// Greatest common divisor by the Euclidean rule.
pub open spec fn spec_gcd(a: nat, b: nat) -> nat
    decreases b,
{
    if b == 0 {
        a
    } else {
        spec_gcd(b, a % b)
    }
}

proof fn lemma_gcd_pos(a: nat, b: nat)
    requires
        b >= 1,
    ensures
        spec_gcd(a, b) >= 1,
    decreases b,
{
    if a % b == 0 {
        assert(spec_gcd(a, b) == spec_gcd(b, 0nat));
    } else {
        lemma_gcd_pos(b, a % b);
    }
}

proof fn lemma_gcd_le(a: nat, b: nat)
    requires
        b >= 1,
    ensures
        spec_gcd(a, b) <= b,
    decreases b,
{
    if a % b == 0 {
        assert(spec_gcd(a, b) == spec_gcd(b, 0nat));
    } else {
        lemma_gcd_le(b, a % b);
    }
}

fn gcd_u128(a: u128, b: u128) -> (g: u128)
    ensures
        g == spec_gcd(a as nat, b as nat),
{
    let mut x = a;
    let mut y = b;
    while y != 0
        invariant
            spec_gcd(x as nat, y as nat) == spec_gcd(a as nat, b as nat),
        decreases y,
    {
        let t = x % y;
        x = y;
        y = t;
    }
    x
}

/// A non-negative fraction with a positive denominator; the centrality scores
/// accumulate exactly in this type instead of rounding.
#[derive(Clone, Copy, Debug, PartialEq, Eq, Structural)]
pub struct Rational {
    pub num: u64,
    pub den: u64,
}

impl View for Rational {
    type V = (nat, nat);

    open spec fn view(&self) -> (nat, nat) {
        (self.num as nat, self.den as nat)
    }
}

impl Rational {
    pub open spec fn wf(&self) -> bool {
        self.den >= 1
    }

    /// The exact value zero.
    pub fn zero() -> (r: Rational)
        ensures
            r@ == (0nat, 1nat),
            r.wf(),
    {
        Rational { num: 0, den: 1 }
    }
}

/// `n/d` brought to lowest terms, when both reduced parts fit in a u64.
pub open spec fn rat_norm(n: nat, d: nat) -> Option<(nat, nat)> {
    let g = spec_gcd(n, d);
    if n / g <= u64::MAX && d / g <= u64::MAX {
        Some((n / g, d / g))
    } else {
        None
    }
}

/// The exact sum of two fractions, reduced; `None` when it cannot be represented.
pub open spec fn rat_add(a: (nat, nat), b: (nat, nat)) -> Option<(nat, nat)> {
    if a.0 * b.1 + b.0 * a.1 > u128::MAX {
        None
    } else {
        rat_norm(a.0 * b.1 + b.0 * a.1, a.1 * b.1)
    }
}

/// The exact value of one plus a fraction, reduced.
pub open spec fn rat_one_plus(a: (nat, nat)) -> Option<(nat, nat)> {
    rat_norm(a.0 + a.1, a.1)
}

/// The exact quotient of a fraction by a positive integer, reduced.
pub open spec fn rat_div(a: (nat, nat), k: nat) -> Option<(nat, nat)> {
    rat_norm(a.0, a.1 * k)
}

/// The exact half of a fraction, reduced.
pub open spec fn rat_half(a: (nat, nat)) -> Option<(nat, nat)> {
    rat_norm(a.0, a.1 * 2)
}

proof fn lemma_mul_u64_bounds(x: int, y: int)
    requires
        0 <= x <= u64::MAX,
        0 <= y <= u64::MAX,
    ensures
        x * y <= u128::MAX,
        x >= 1 && y >= 1 ==> x * y >= 1,
{
    assert(x * y <= 0xFFFF_FFFF_FFFF_FFFF * 0xFFFF_FFFF_FFFF_FFFF && (x >= 1 && y >= 1 ==> x * y
        >= 1)) by (nonlinear_arith)
        requires
            0 <= x <= 0xFFFF_FFFF_FFFF_FFFF,
            0 <= y <= 0xFFFF_FFFF_FFFF_FFFF,
    ;
}

fn norm_exec(n: u128, d: u128) -> (r: Option<Rational>)
    requires
        d >= 1,
    ensures
        r is Some <==> rat_norm(n as nat, d as nat) is Some,
        r is Some ==> r->Some_0@ == rat_norm(n as nat, d as nat)->Some_0 && r->Some_0.wf(),
{
    let g = gcd_u128(n, d);
    proof {
        lemma_gcd_pos(n as nat, d as nat);
        lemma_gcd_le(n as nat, d as nat);
    }
    let nn = n / g;
    let dd = d / g;
    if nn <= u64::MAX as u128 && dd <= u64::MAX as u128 {
        proof {
            vstd::arithmetic::div_mod::lemma_div_non_zero(d as int, g as int);
        }
        Some(Rational { num: nn as u64, den: dd as u64 })
    } else {
        None
    }
}

/// Adds two well-formed fractions exactly.
pub fn add_exec(a: Rational, b: Rational) -> (r: Option<Rational>)
    requires
        a.wf(),
        b.wf(),
    ensures
        r is Some <==> rat_add(a@, b@) is Some,
        r is Some ==> r->Some_0@ == rat_add(a@, b@)->Some_0 && r->Some_0.wf(),
{
    proof {
        lemma_mul_u64_bounds(a.num as int, b.den as int);
        lemma_mul_u64_bounds(b.num as int, a.den as int);
        lemma_mul_u64_bounds(a.den as int, b.den as int);
    }
    let p1 = (a.num as u128) * (b.den as u128);
    let p2 = (b.num as u128) * (a.den as u128);
    if p1 > u128::MAX - p2 {
        return None;
    }
    let d = (a.den as u128) * (b.den as u128);
    norm_exec(p1 + p2, d)
}

/// One plus a well-formed fraction, exactly.
pub fn one_plus_exec(a: Rational) -> (r: Option<Rational>)
    requires
        a.wf(),
    ensures
        r is Some <==> rat_one_plus(a@) is Some,
        r is Some ==> r->Some_0@ == rat_one_plus(a@)->Some_0 && r->Some_0.wf(),
{
    norm_exec(a.num as u128 + a.den as u128, a.den as u128)
}

/// A well-formed fraction divided by a positive count, exactly.
pub fn div_exec(a: Rational, k: u64) -> (r: Option<Rational>)
    requires
        a.wf(),
        k >= 1,
    ensures
        r is Some <==> rat_div(a@, k as nat) is Some,
        r is Some ==> r->Some_0@ == rat_div(a@, k as nat)->Some_0 && r->Some_0.wf(),
{
    proof {
        lemma_mul_u64_bounds(a.den as int, k as int);
    }
    norm_exec(a.num as u128, (a.den as u128) * (k as u128))
}

/// Half of a well-formed fraction, exactly.
pub fn half_exec(a: Rational) -> (r: Option<Rational>)
    requires
        a.wf(),
    ensures
        r is Some <==> rat_half(a@) is Some,
        r is Some ==> r->Some_0@ == rat_half(a@)->Some_0 && r->Some_0.wf(),
{
    proof {
        lemma_mul_u64_bounds(a.den as int, 2);
    }
    norm_exec(a.num as u128, (a.den as u128) * 2)
}

} // verus!
