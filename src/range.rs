use vstd::prelude::*;
use vstd::arithmetic::div_mod::{
    lemma_basic_div, lemma_div_is_ordered, lemma_div_multiples_vanish, lemma_div_plus_one,
    lemma_hoist_over_denominator,
};
use vstd::arithmetic::mul::lemma_mul_inequality;

use crate::curve::Curve;
use crate::input::{Amount, Input, Sign, Step};

verus! {

/// Default bound on the number of levels one ramp writes.
pub const MAX_ITER_DEFAULT: usize = 10;

/// What a ramp starts from: the current level, the response curve (which
/// carries the maximum) and the bound on the number of levels written.
pub struct Range {
    pub curr: usize,
    pub curve: Curve,
    pub max_iter: usize,
}

impl Range {
    pub fn new(curr: usize, curve: Curve, max_iter: usize) -> (r: Range)
        ensures
            r.curr == curr,
            r.curve == curve,
            r.max_iter == max_iter,
    {
        Range { curr, curve, max_iter }
    }

    pub open spec fn spec_max(&self) -> nat {
        self.curve.spec_max() as nat
    }
}

/// `v` brought into `[0, max]`.
pub open spec fn clamp(v: int, max: int) -> int {
    if v < 0 {
        0
    } else if v > max {
        max
    } else {
        v
    }
}

/// The levels met moving one unit at a time from `from` to `to`: `from`
/// itself left out, `to` last; empty when they are equal.
pub open spec fn walk(from: usize, to: usize) -> Seq<usize> {
    if from <= to {
        Seq::new((to - from) as nat, |i: int| (from + 1 + i) as usize)
    } else {
        Seq::new((from - to) as nat, |i: int| (from - 1 - i) as usize)
    }
}

/// The level that an adjustment aims at, for every kind but a relative move
/// (which walks the curve instead).
pub open spec fn target(input: Input, curr: int, max: int) -> int {
    match input {
        Input::Absolute(a, Step::To) => clamp(a.truncated(), max),
        Input::Absolute(a, Step::By) => clamp(curr + a.truncated(), max),
        Input::Relative(a, _) => clamp((max * a.scaled() + 50_000_000) / 100_000_000, max),
    }
}

/// Whether the adjustment moves by a percentage, that is along the curve.
pub open spec fn is_curve_move(input: Input) -> bool {
    input matches Input::Relative(_, Step::By)
}

/// The first `n` elements of `s`, or all of them when it is shorter.
pub open spec fn first_n(s: Seq<usize>, n: nat) -> Seq<usize> {
    if n < s.len() {
        s.take(n as int)
    } else {
        s
    }
}

/// The levels in the order a move visits them: upward from position 0,
/// downward from position 100.
pub open spec fn in_direction(levels: Seq<usize>, upward: bool) -> Seq<usize> {
    if upward {
        levels
    } else {
        levels.reverse()
    }
}

/// Whether `v` lies beyond `curr` in the direction of the move.
pub open spec fn passes(curr: usize, upward: bool) -> spec_fn(usize) -> bool {
    |v: usize|
        if upward {
            v > curr
        } else {
            v < curr
        }
}

/// A move by a percentage: the curve levels beyond `curr` in the direction
/// of the sign, as many as the integer part of the percentage.
///
/// The percentage counts curve positions, not distinct levels: where the
/// curve is flat, several positions share a level, and that level repeats
/// in the sequence (`[4, 4, 4]` on the linear curve of 10 from 3 by `+3%`).
/// Levels never repeat in the walks of the other adjustments.
pub open spec fn curve_steps(levels: Seq<usize>, curr: usize, a: Amount) -> Seq<usize> {
    let upward = a.sign == Sign::Plus;
    first_n(in_direction(levels, upward).filter(passes(curr, upward)), a.whole as nat)
}

/// The full ramp of an adjustment, before its length is bounded.
pub open spec fn raw_ramp(input: Input, r: Range) -> Seq<usize> {
    match input {
        Input::Relative(a, Step::By) => curve_steps(r.curve@, r.curr, a),
        _ => walk(r.curr, target(input, r.curr as int, r.spec_max() as int) as usize),
    }
}

/// The stride of the step limiter for a sequence of `len` levels and a bound
/// of `n`.
pub open spec fn stride(len: nat, n: nat) -> nat {
    let t: nat = if n == 0 {
        0
    } else {
        (n - 1) as nat
    };
    if t == 0 {
        1
    } else {
        let s = (len + t) / t - 1;
        if s < 1 {
            1
        } else {
            s as nat
        }
    }
}

/// `s` bounded to `n` levels: unchanged when it fits; otherwise every
/// `stride`-th level from the first, at most `n - 1` of them, then the last
/// level of `s`. A bound of 0 counts as 1.
pub open spec fn limited(s: Seq<usize>, n: nat) -> Seq<usize> {
    if s.len() <= n {
        s
    } else {
        let t: nat = if n == 0 {
            0
        } else {
            (n - 1) as nat
        };
        let step = stride(s.len(), n);
        let avail: int = (s.len() + step - 1) / step as int;
        let k: nat = if t < avail {
            t
        } else {
            avail as nat
        };
        Seq::new(k, |i: int| s[i * step]).push(s.last())
    }
}

/// The ramp that `iter_with` returns.
pub open spec fn ramp(input: Input, r: Range) -> Seq<usize> {
    limited(raw_ramp(input, r), r.max_iter as nat)
}

/// Bounds `seq` to at most `max_iter` levels, keeping its last level.
pub fn limit(seq: Vec<usize>, max_iter: usize) -> (r: Vec<usize>)
    ensures
        r@ == limited(seq@, max_iter as nat),
{
    let len = seq.len();
    if len <= max_iter {
        return seq;
    }
    let t: usize = if max_iter == 0 {
        0
    } else {
        max_iter - 1
    };
    let step: usize = if t == 0 {
        1
    } else {
        let s = len / t;
        if s < 1 {
            1
        } else {
            s
        }
    };
    proof {
        if t > 0 {
            lemma_div_plus_one(len as int, t as int);
        }
        assert(step == stride(len as nat, max_iter as nat));
    }
    let ghost avail: int = (len + step - 1) / step as int;
    let ghost k_end: int = if t < avail {
        t as int
    } else {
        avail
    };
    let mut out: Vec<usize> = Vec::new();
    let mut idx: usize = 0;
    let mut k: usize = 0;
    while k < t && idx < len
        invariant
            len == seq@.len(),
            step >= 1,
            k <= t,
            k <= k_end,
            k_end == if t < avail {
                t as int
            } else {
                avail
            },
            avail == (len + step - 1) / step as int,
            idx == if k * step < len {
                k * step
            } else {
                len as int
            },
            out@ =~= Seq::new(k as nat, |i: int| seq@[i * step]),
        decreases t - k,
    {
        proof {
            assert((k + 1) * step == k * step + step) by (nonlinear_arith);
            lemma_div_is_ordered((k + 1) * step, len + step - 1, step as int);
            lemma_div_multiples_vanish((k + 1) as int, step as int);
            assert(step * (k + 1) == (k + 1) * step) by (nonlinear_arith);
        }
        out.push(seq[idx]);
        k += 1;
        idx = if step < len - idx {
            idx + step
        } else {
            len
        };
    }
    proof {
        if idx >= len && k < t {
            lemma_basic_div(step - 1, step as int);
            lemma_hoist_over_denominator(step - 1, k as int, step as nat);
            lemma_div_is_ordered(len + step - 1, k * step + step - 1, step as int);
            assert(k * step + (step - 1) == (step - 1) + k * step);
        }
        assert(k == k_end);
    }
    out.push(seq[len - 1]);
    out
}

impl Range {
    /// The walk from the current level to `new`.
    fn curr_to_new(&self, new: usize) -> (r: Vec<usize>)
        ensures
            r@ == walk(self.curr, new),
    {
        let curr = self.curr;
        let mut out: Vec<usize> = Vec::new();
        if new > curr {
            let mut v = curr;
            while v < new
                invariant
                    curr <= v <= new,
                    out@.len() == v - curr,
                    forall|i: int| 0 <= i < out@.len() ==> out@[i] == curr + 1 + i,
                decreases new - v,
            {
                v += 1;
                out.push(v);
            }
        } else {
            let mut v = curr;
            while v > new
                invariant
                    new <= v <= curr,
                    out@.len() == curr - v,
                    forall|i: int| 0 <= i < out@.len() ==> out@[i] == curr - 1 - i,
                decreases v - new,
            {
                v -= 1;
                out.push(v);
            }
        }
        assert(out@ =~= walk(curr, new));
        out
    }

    /// The level an adjustment other than a move along the curve aims at.
    fn target_level(&self, input: Input) -> (t: usize)
        requires
            !is_curve_move(input),
        ensures
            t == target(input, self.curr as int, self.spec_max() as int),
    {
        let curr = self.curr;
        let max = self.curve.max();
        match input {
            Input::Absolute(a, Step::To) => match a.sign {
                Sign::Plus => if (a.whole as u128) > (max as u128) {
                    max
                } else {
                    a.whole as usize
                },
                Sign::Minus => 0,
            },
            Input::Absolute(a, Step::By) => match a.sign {
                Sign::Plus => {
                    let s = (curr as u128) + (a.whole as u128);
                    if s > (max as u128) {
                        max
                    } else {
                        s as usize
                    }
                },
                Sign::Minus => {
                    if (a.whole as u128) >= (curr as u128) {
                        0
                    } else {
                        let d = curr - (a.whole as usize);
                        if d > max {
                            max
                        } else {
                            d
                        }
                    }
                },
            },
            Input::Relative(a, _) => {
                let m: u128 = (a.whole as u128) * 1_000_000 + (a.micros as u128);
                match a.sign {
                    Sign::Minus => {
                        proof {
                            lemma_mul_inequality(0, m as int, max as int);
                            assert(max * (-(m as int)) <= 0) by (nonlinear_arith)
                                requires
                                    max >= 0,
                                    m >= 0,
                            ;
                            lemma_div_is_ordered(
                                max * (-(m as int)) + 50_000_000,
                                99_999_999,
                                100_000_000,
                            );
                        }
                        0
                    },
                    Sign::Plus => {
                        if m >= 100_000_000 {
                            proof {
                                lemma_mul_inequality(100_000_000, m as int, max as int);
                                lemma_div_is_ordered(
                                    max * 100_000_000 + 50_000_000,
                                    max * m + 50_000_000,
                                    100_000_000,
                                );
                                lemma_hoist_over_denominator(
                                    50_000_000,
                                    max as int,
                                    100_000_000,
                                );
                                assert(max * 100_000_000 == 100_000_000 * max) by (nonlinear_arith);
                            }
                            max
                        } else {
                            proof {
                                lemma_mul_inequality(m as int, 100_000_000, max as int);
                                lemma_div_is_ordered(0, max * m + 50_000_000, 100_000_000);
                                assert(max * m == m * max) by (nonlinear_arith);
                            }
                            let n: u128 = (max as u128) * m + 50_000_000;
                            let t = n / 100_000_000;
                            if t > (max as u128) {
                                max
                            } else {
                                t as usize
                            }
                        }
                    },
                }
            },
        }
    }

    /// A move along the curve by `a` percent: as many curve levels beyond the
    /// current one as the integer part of `a`, in the direction of its sign.
    fn by_percent(&self, a: Amount) -> (r: Vec<usize>)
        ensures
            r@ == curve_steps(self.curve@, self.curr, a),
    {
        let upward = match a.sign {
            Sign::Plus => true,
            Sign::Minus => false,
        };
        take_beyond(self.curve.levels(), self.curr, a.whole, upward)
    }
}

/// The first `count` levels of `levels`, taken in the direction `upward`,
/// that lie beyond `curr`.
fn take_beyond(levels: &Vec<usize>, curr: usize, count: u64, upward: bool) -> (r: Vec<usize>)
    ensures
        r@ == first_n(in_direction(levels@, upward).filter(passes(curr, upward)), count as nat),
{
    let n = levels.len();
    let ghost seq = in_direction(levels@, upward);
    let ghost p = passes(curr, upward);
    let mut out: Vec<usize> = Vec::new();
    let mut j: usize = 0;
    while j < n
        invariant
            n == levels@.len(),
            seq == in_direction(levels@, upward),
            p == passes(curr, upward),
            seq.len() == n,
            j <= n,
            out@ == first_n(seq.take(j as int).filter(p), count as nat),
        decreases n - j,
    {
        let v = if upward {
            levels[j]
        } else {
            levels[n - 1 - j]
        };
        let ghost before = seq.take(j as int).filter(p);
        proof {
            assert(v == seq[j as int]);
            reveal(Seq::filter);
            assert(seq.take(j + 1).drop_last() =~= seq.take(j as int));
            assert(seq.take(j + 1).last() == v);
        }
        let keep = if upward {
            v > curr
        } else {
            v < curr
        };
        assert(keep == p(v));
        if keep && (out.len() as u64) < count {
            out.push(v);
            proof {
                let after = seq.take(j + 1).filter(p);
                assert(after == before.push(v));
                assert(out@ =~= after);
            }
        } else {
            proof {
                let after = seq.take(j + 1).filter(p);
                if keep {
                    assert(after == before.push(v));
                    assert(after.take(count as int) =~= before.take(count as int));
                }
            }
        }
        j += 1;
    }
    proof {
        assert(seq.take(n as int) =~= seq);
    }
    out
}

impl Input {
    /// The ramp from the current level to where this adjustment leads,
    /// bounded to `r.max_iter` levels.
    #[must_use]
    pub fn iter_with(self, r: Range) -> (v: Vec<usize>)
        ensures
            v@ == ramp(self, r),
    {
        let raw = match self {
            Input::Relative(a, Step::By) => r.by_percent(a),
            _ => {
                let new = r.target_level(self);
                r.curr_to_new(new)
            },
        };
        limit(raw, r.max_iter)
    }
}

/// Every level of `limited(s, n)` is a level of `s`.
pub proof fn limited_draws_from(s: Seq<usize>, n: nat)
    ensures
        forall|i: int| 0 <= i < limited(s, n).len() ==> s.contains(#[trigger] limited(s, n)[i]),
{
    if s.len() > n {
        let step = stride(s.len(), n);
        let avail: int = (s.len() + step - 1) / step as int;
        assert forall|i: int| 0 <= i < limited(s, n).len() implies s.contains(
            #[trigger] limited(s, n)[i],
        ) by {
            if i < limited(s, n).len() - 1 {
                vstd::arithmetic::div_mod::lemma_fundamental_div_mod(
                    s.len() + step - 1,
                    step as int,
                );
                assert(i <= avail - 1);
                assert(i * step <= (avail - 1) * step) by (nonlinear_arith)
                    requires
                        i <= avail - 1,
                        step >= 1,
                ;
                assert((avail - 1) * step == avail * step - step) by (nonlinear_arith);
                assert(step * avail == avail * step) by (nonlinear_arith);
                assert((s.len() + step - 1) % step as int >= 0);
                assert(0 <= i * step) by (nonlinear_arith)
                    requires
                        i >= 0,
                        step >= 1,
                ;
                assert(s[i * step] == limited(s, n)[i]);
            } else {
                assert(s[s.len() - 1] == limited(s, n)[i]);
            }
        }
    }
}

/// Clamping: when the current level is within `[0, max]`, every level a
/// ramp emits is within `[0, max]`, whatever the adjustment asks for.
pub proof fn ramp_within_range(input: Input, r: Range)
    requires
        r.curr <= r.spec_max(),
        r.curve.well_formed(),
    ensures
        forall|i: int| 0 <= i < ramp(input, r).len() ==> #[trigger] ramp(input, r)[i] <= r.spec_max(),
{
    let raw = raw_ramp(input, r);
    let max = r.spec_max();
    assert forall|i: int| 0 <= i < raw.len() implies #[trigger] raw[i] <= max by {
        match input {
            Input::Relative(a, Step::By) => {
                let upward = a.sign == Sign::Plus;
                let seq = in_direction(r.curve@, upward);
                let f = seq.filter(passes(r.curr, upward));
                seq.filter_lemma(passes(r.curr, upward));
                assert(raw[i] == f[i]);
                assert(f.contains(raw[i]));
                seq.lemma_filter_contains_rev(passes(r.curr, upward), raw[i]);
                let j = choose|j: int| 0 <= j < seq.len() && seq[j] == raw[i];
                if !upward {
                    assert(seq[j] == r.curve@[100 - j]);
                }
            },
            _ => {},
        }
    }
    limited_draws_from(raw, r.max_iter as nat);
    assert forall|i: int| 0 <= i < ramp(input, r).len() implies #[trigger] ramp(input, r)[i]
        <= max by {
        let j = choose|j: int| 0 <= j < raw.len() && raw[j] == ramp(input, r)[i];
    }
}

/// A ramp never revisits the level it starts from: the full ramp holds no
/// level equal to the current one, and neither does its bounded form.
pub proof fn ramp_skips_current(input: Input, r: Range)
    ensures
        forall|i: int| 0 <= i < raw_ramp(input, r).len() ==> #[trigger] raw_ramp(input, r)[i] != r.curr,
        forall|i: int| 0 <= i < ramp(input, r).len() ==> #[trigger] ramp(input, r)[i] != r.curr,
{
    let raw = raw_ramp(input, r);
    assert forall|i: int| 0 <= i < raw.len() implies #[trigger] raw[i] != r.curr by {
        if let Input::Relative(a, Step::By) = input {
            let upward = a.sign == Sign::Plus;
            let seq = in_direction(r.curve@, upward);
            seq.filter_lemma(passes(r.curr, upward));
            assert(raw[i] == seq.filter(passes(r.curr, upward))[i]);
        }
    }
    limited_draws_from(raw, r.max_iter as nat);
    assert forall|i: int| 0 <= i < ramp(input, r).len() implies #[trigger] ramp(input, r)[i]
        != r.curr by {
        let j = choose|j: int| 0 <= j < raw.len() && raw[j] == ramp(input, r)[i];
    }
}

/// No-op: when an adjustment other than a move along the curve aims at the
/// current level, the ramp is empty.
pub proof fn ramp_empty_at_target(input: Input, r: Range)
    requires
        !is_curve_move(input),
        target(input, r.curr as int, r.spec_max() as int) == r.curr,
    ensures
        raw_ramp(input, r).len() == 0,
        ramp(input, r).len() == 0,
{
}

/// An adjustment other than a move along the curve ends its ramp at its
/// target, however the ramp is bounded.
pub proof fn ramp_ends_at_target(input: Input, r: Range)
    requires
        !is_curve_move(input),
        target(input, r.curr as int, r.spec_max() as int) != r.curr,
    ensures
        ramp(input, r).len() > 0,
        ramp(input, r).last() == target(input, r.curr as int, r.spec_max() as int),
{
    let raw = raw_ramp(input, r);
    assert(raw.len() > 0);
    limited_keeps_last(raw, r.max_iter as nat);
}

/// Endpoint preservation: bounding a non-empty sequence keeps its last level.
pub proof fn limited_keeps_last(s: Seq<usize>, n: nat)
    requires
        s.len() > 0,
    ensures
        limited(s, n).len() > 0,
        limited(s, n).last() == s.last(),
{
}

/// Bounding keeps the first level as well, when the bound leaves room for
/// more than the last one.
pub proof fn limited_keeps_first(s: Seq<usize>, n: nat)
    requires
        s.len() > 0,
        n >= 2,
    ensures
        limited(s, n)[0] == s[0],
{
    if s.len() > n {
        let step = stride(s.len(), n);
        let avail: int = (s.len() + step - 1) / step as int;
        vstd::arithmetic::div_mod::lemma_div_is_ordered(step as int, s.len() + step - 1, step as int);
        vstd::arithmetic::div_mod::lemma_div_by_self(step as int);
        assert(avail >= 1);
    }
}

/// Bounded length: a sequence bounded to `n >= 1` levels has at most `n`.
pub proof fn limited_len_bounded(s: Seq<usize>, n: nat)
    requires
        n >= 1,
    ensures
        limited(s, n).len() <= n,
{
}


} // verus!
