//! Turn-by-turn walks through a network that repeat: the turns, and the
//! arithmetic of cycle lengths.

use vstd::prelude::*;

verus! {

/// Which way to go at a node.
#[derive(Copy, Clone, Debug, PartialEq, Eq, Structural)]
pub enum Instruction {
    Right,
    Left,
}

impl Instruction {
    /// `R` means right and `L` means left; no other character is a turn.
    pub fn from_char(c: char) -> (r: Option<Self>)
        ensures
            r == if c == 'R' {
                Some(Instruction::Right)
            } else if c == 'L' {
                Some(Instruction::Left)
            } else {
                None::<Instruction>
            },
    {
        if c == 'R' {
            Some(Instruction::Right)
        } else if c == 'L' {
            Some(Instruction::Left)
        } else {
            None
        }
    }
}

/// `n` is a multiple of `d`.
pub open spec fn divides(d: nat, n: nat) -> bool {
    exists|k: nat| n == #[trigger] (k * d)
}

/// `g` divides both `a` and `b`, and every number that does divides `g`.
pub open spec fn is_gcd(a: nat, b: nat, g: nat) -> bool {
    &&& divides(g, a)
    &&& divides(g, b)
    &&& forall|d: nat| divides(d, a) && divides(d, b) ==> #[trigger] divides(d, g)
}

/// The greatest common divisor, by repeated remainders.
pub open spec fn gcd_of(a: nat, b: nat) -> nat
    decreases b,
{
    if b == 0 {
        a
    } else {
        gcd_of(b, a % b)
    }
}

/// What divides `a` and `b` divides the remainder of `a` by `b`.
pub proof fn lemma_divides_remainder(d: nat, a: nat, b: nat)
    requires
        b > 0,
        divides(d, a),
        divides(d, b),
    ensures
        divides(d, a % b),
{
    let k1 = choose|k: nat| a == #[trigger] (k * d);
    let k2 = choose|k: nat| b == #[trigger] (k * d);
    let q = a / b;
    let r = a % b;
    vstd::arithmetic::div_mod::lemma_fundamental_div_mod(a as int, b as int);
    assert(d > 0) by (nonlinear_arith)
        requires
            b == k2 * d,
            b > 0,
    ;
    assert(r == (k1 - q * k2) * d) by (nonlinear_arith)
        requires
            a == b * q + r,
            a == k1 * d,
            b == k2 * d,
    ;
    assert(k1 - q * k2 >= 0) by (nonlinear_arith)
        requires
            r == (k1 - q * k2) * d,
            r >= 0,
            d > 0,
    ;
    let k3 = (k1 - q * k2) as nat;
    assert(r == k3 * d);
}

/// What divides `b` and the remainder of `a` by `b` divides `a`.
pub proof fn lemma_divides_dividend(d: nat, a: nat, b: nat)
    requires
        b > 0,
        divides(d, b),
        divides(d, a % b),
    ensures
        divides(d, a),
{
    let k2 = choose|k: nat| b == #[trigger] (k * d);
    let k3 = choose|k: nat| a % b == #[trigger] (k * d);
    let q = a / b;
    vstd::arithmetic::div_mod::lemma_fundamental_div_mod(a as int, b as int);
    assert(a == (q * k2 + k3) * d) by (nonlinear_arith)
        requires
            a == b * q + a % b,
            b == k2 * d,
            a % b == k3 * d,
    ;
    assert(q * k2 + k3 >= 0) by (nonlinear_arith)
        requires
            q >= 0,
            k2 >= 0,
            k3 >= 0,
    ;
    let k = (q * k2 + k3) as nat;
    assert(a == k * d);
}

/// Repeated remainders give the greatest common divisor.
pub proof fn lemma_gcd_of_is_gcd(a: nat, b: nat)
    ensures
        is_gcd(a, b, gcd_of(a, b)),
    decreases b,
{
    if b == 0 {
        assert(a == 1nat * a);
        assert(0nat == 0nat * a);
        assert(divides(a, a));
        assert(divides(a, 0));
    } else {
        lemma_gcd_of_is_gcd(b, a % b);
        let g = gcd_of(a, b);
        lemma_divides_dividend(g, a, b);
        assert forall|d: nat| divides(d, a) && divides(d, b) implies #[trigger] divides(d, g) by {
            lemma_divides_remainder(d, a, b);
        }
    }
}

/// The greatest common divisor of `a` and `b`.
pub fn gcd(a: u64, b: u64) -> (g: u64)
    ensures
        g == gcd_of(a as nat, b as nat),
        is_gcd(a as nat, b as nat, g as nat),
    decreases b,
{
    proof {
        lemma_gcd_of_is_gcd(a as nat, b as nat);
    }
    if b == 0 {
        return a;
    }
    gcd(b, a % b)
}

/// The product of `a` and `b` divided by their greatest common divisor: a
/// common multiple of the two.
pub fn lcm(a: u64, b: u64) -> (m: u64)
    requires
        a * b <= u64::MAX,
        a != 0 || b != 0,
    ensures
        m == (a * b) / (gcd_of(a as nat, b as nat) as int),
        divides(a as nat, m as nat),
        divides(b as nat, m as nat),
{
    let g = gcd(a, b);
    proof {
        lemma_common_multiple(a as nat, b as nat, g as nat);
    }
    a * b / g
}

/// Where `g` divides `a` and `b` and one of them is not zero, the product
/// divided by `g` is a multiple of both.
pub proof fn lemma_common_multiple(a: nat, b: nat, g: nat)
    requires
        is_gcd(a, b, g),
        a != 0 || b != 0,
    ensures
        g > 0,
        divides(a, (a * b) / g),
        divides(b, (a * b) / g),
{
    let k1 = choose|k: nat| a == #[trigger] (k * g);
    let k2 = choose|k: nat| b == #[trigger] (k * g);
    assert(g > 0) by (nonlinear_arith)
        requires
            a == k1 * g,
            b == k2 * g,
            a != 0 || b != 0,
    ;
    assert(a * b == (k1 * b) * g && a * b == (k2 * a) * g) by (nonlinear_arith)
        requires
            a == k1 * g,
            b == k2 * g,
    ;
    vstd::arithmetic::div_mod::lemma_div_by_multiple((k1 * b) as int, g as int);
    vstd::arithmetic::div_mod::lemma_div_by_multiple((k2 * a) as int, g as int);
    assert((a * b) / g == k1 * b);
    assert((a * b) / g == k2 * a);
}

} // verus!
