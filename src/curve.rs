use vstd::prelude::*;
use vstd::arithmetic::div_mod::{lemma_div_is_ordered, lemma_div_multiples_vanish};
use vstd::arithmetic::mul::lemma_mul_inequality;

verus! {

/// A response curve: the level at each position `0..=100`.
///
/// Its levels never decrease along the positions and never exceed the
/// maximum it was built for.
pub struct Curve {
    max: usize,
    levels: Vec<usize>,
}

impl View for Curve {
    type V = Seq<usize>;

    closed spec fn view(&self) -> Seq<usize> {
        self.levels@
    }
}

/// The level at `position` on the linear curve of `max`, rounded down.
pub open spec fn linear_level(max: nat, position: int) -> int {
    position * max / 100
}

impl Curve {
    /// The maximum the curve was built for.
    pub closed spec fn spec_max(&self) -> usize {
        self.max
    }

    /// One level per position `0..=100`, each within `[0, max]`, in
    /// non-decreasing order.
    pub open spec fn well_formed(&self) -> bool {
        &&& self@.len() == 101
        &&& forall|i: int| 0 <= i < 101 ==> self@[i] <= self.spec_max()
        &&& forall|i: int, j: int| 0 <= i <= j < 101 ==> self@[i] <= self@[j]
    }

    #[verifier::type_invariant]
    spec fn inv(&self) -> bool {
        self.well_formed()
    }

    pub fn max(&self) -> (r: usize)
        ensures
            r == self.spec_max(),
    {
        self.max
    }

    /// The levels of the curve, position by position.
    pub fn levels(&self) -> (r: &Vec<usize>)
        ensures
            r@ == self@,
            self.well_formed(),
    {
        proof {
            use_type_invariant(self);
        }
        &self.levels
    }

    /// The curve of exponent 1: position `p` maps to `p * max / 100`.
    pub fn linear(max: usize) -> (r: Curve)
        ensures
            r.spec_max() == max,
            r.well_formed(),
            forall|p: int| 0 <= p <= 100 ==> r@[p] == linear_level(max as nat, p),
    {
        let r = Curve::power(max, 1);
        proof {
            assert forall|p: int| 0 <= p <= 100 implies r@[p] == linear_level(max as nat, p) by {
                reveal_with_fuel(power, 2);
            }
        }
        r
    }

    /// The curve of a whole exponent `e`: position `p` maps to
    /// `p^e * max / 100^e`.
    pub fn power(max: usize, e: u32) -> (r: Curve)
        requires
            1 <= e <= 9,
        ensures
            r.spec_max() == max,
            r.well_formed(),
            forall|p: int| 0 <= p <= 100 ==> r@[p] == power_level(max as nat, e as nat, p as nat),
    {
        proof {
            power_exp_monotonic(100, e as nat, 9);
            reveal_with_fuel(power, 10);
        }
        let mut d: u128 = 1;
        let mut k: u32 = 0;
        while k < e
            invariant
                k <= e <= 9,
                d == power(100, k as nat),
                1 <= power(100, e as nat) <= 1_000_000_000_000_000_000,
            decreases e - k,
        {
            proof {
                power_exp_monotonic(100, (k + 1) as nat, e as nat);
            }
            d = d * 100;
            k += 1;
        }
        let mut levels: Vec<usize> = Vec::new();
        let mut p: usize = 0;
        while p <= 100
            invariant
                p <= 101,
                1 <= e <= 9,
                d == power(100, e as nat),
                1 <= d <= 1_000_000_000_000_000_000,
                levels@.len() == p,
                forall|i: int| 0 <= i < p ==> levels@[i] == power_level(max as nat, e as nat, i as nat),
            decreases 101 - p,
        {
            let mut pe: u128 = 1;
            let mut k: u32 = 0;
            while k < e
                invariant
                    k <= e <= 9,
                    p <= 100,
                    pe == power(p as nat, k as nat),
                    pe <= power(100, k as nat),
                    power(100, k as nat) <= d,
                    d == power(100, e as nat),
                    d <= 1_000_000_000_000_000_000,
                decreases e - k,
            {
                proof {
                    power_base_monotonic(p as nat, 100, (k + 1) as nat);
                    power_exp_monotonic(100, (k + 1) as nat, e as nat);
                    lemma_mul_inequality(pe as int, power(100, k as nat) as int, p as int);
                    assert(pe * p == p * pe) by (nonlinear_arith);
                }
                pe = pe * (p as u128);
                k += 1;
            }
            proof {
                power_level_monotonic(max as nat, e as nat, p as nat, 100);
                lemma_mul_inequality(pe as int, d as int, max as int);
                lemma_mul_inequality(d as int, 1_000_000_000_000_000_000, max as int);
            }
            let v = (pe * (max as u128) / d) as usize;
            levels.push(v);
            p += 1;
        }
        proof {
            assert forall|i: int, j: int| 0 <= i <= j < 101 implies levels@[i] <= levels@[j] by {
                power_level_monotonic(max as nat, e as nat, i as nat, j as nat);
            }
            assert forall|i: int| 0 <= i < 101 implies levels@[i] <= max by {
                power_level_monotonic(max as nat, e as nat, i as nat, 100);
            }
        }
        Curve { max, levels }
    }

    /// A curve from levels computed elsewhere: `None` unless there is one
    /// level per position `0..=100`, none above `max`, in non-decreasing
    /// order.
    pub fn from_levels(max: usize, levels: Vec<usize>) -> (r: Option<Curve>)
        ensures
            r is Some <==> {
                &&& levels@.len() == 101
                &&& forall|i: int| 0 <= i < 101 ==> levels@[i] <= max
                &&& forall|i: int, j: int| 0 <= i <= j < 101 ==> levels@[i] <= levels@[j]
            },
            r matches Some(c) ==> c@ == levels@ && c.spec_max() == max,
    {
        if levels.len() != 101 {
            return None;
        }
        let mut i: usize = 0;
        while i < 101
            invariant
                levels@.len() == 101,
                i <= 101,
                forall|a: int| 0 <= a < i ==> levels@[a] <= max,
                forall|a: int, b: int| 0 <= a <= b < i ==> levels@[a] <= levels@[b],
            decreases 101 - i,
        {
            if levels[i] > max {
                return None;
            }
            if i > 0 && levels[i - 1] > levels[i] {
                return None;
            }
            i += 1;
        }
        Some(Curve { max, levels })
    }
}

/// `b` to the power `e`.
pub open spec fn power(b: nat, e: nat) -> nat
    decreases e,
{
    if e == 0 {
        1
    } else {
        b * power(b, (e - 1) as nat)
    }
}

/// The level at `position` on the curve of exponent `e`:
/// `(position / 100)^e * max`, rounded down.
pub open spec fn power_level(max: nat, e: nat, position: nat) -> int {
    (power(position, e) * max) as int / power(100, e) as int
}

/// A power grows with its base.
pub proof fn power_base_monotonic(a: nat, b: nat, e: nat)
    requires
        a <= b,
    ensures
        power(a, e) <= power(b, e),
    decreases e,
{
    if e > 0 {
        power_base_monotonic(a, b, (e - 1) as nat);
        let x = power(a, (e - 1) as nat);
        let y = power(b, (e - 1) as nat);
        lemma_mul_inequality(a as int, b as int, x as int);
        lemma_mul_inequality(x as int, y as int, b as int);
        assert(x * b == b * x) by (nonlinear_arith);
        assert(y * b == b * y) by (nonlinear_arith);
    }
}

/// A power of a base of at least 1 grows with its exponent.
pub proof fn power_exp_monotonic(b: nat, e1: nat, e2: nat)
    requires
        b >= 1,
        e1 <= e2,
    ensures
        1 <= power(b, e1) <= power(b, e2),
    decreases e2,
{
    if e2 > 0 {
        if e1 < e2 {
            power_exp_monotonic(b, e1, (e2 - 1) as nat);
        } else {
            power_exp_monotonic(b, 0, (e2 - 1) as nat);
        }
        let y = power(b, (e2 - 1) as nat);
        lemma_mul_inequality(1, b as int, y as int);
    }
}

/// The level at `position` on a curve of exponent `e` grows with the
/// position and stays within `[0, max]` over `0..=100`.
pub proof fn power_level_monotonic(max: nat, e: nat, a: nat, b: nat)
    requires
        a <= b <= 100,
    ensures
        0 <= power_level(max, e, a) <= power_level(max, e, b) <= max,
{
    let d = power(100, e);
    power_exp_monotonic(100, 0, e);
    power_base_monotonic(a, b, e);
    power_base_monotonic(b, 100, e);
    lemma_mul_inequality(power(a, e) as int, power(b, e) as int, max as int);
    lemma_mul_inequality(power(b, e) as int, d as int, max as int);
    lemma_div_is_ordered(0, (power(a, e) * max) as int, d as int);
    lemma_div_is_ordered((power(a, e) * max) as int, (power(b, e) * max) as int, d as int);
    lemma_div_is_ordered((power(b, e) * max) as int, (d * max) as int, d as int);
    lemma_div_multiples_vanish(max as int, d as int);
    assert(d * max == max * d) by (nonlinear_arith);
}

/// Monotonic curve: along any curve, a later position never has a lower
/// level.
pub proof fn curve_monotonic(c: Curve, a: int, b: int)
    requires
        c.well_formed(),
        0 <= a <= b <= 100,
    ensures
        c@[a] <= c@[b],
{
}

} // verus!
