use vstd::prelude::*;

use crate::curve::{power, power_exp_monotonic};
use crate::error::Error;

verus! {

/// The sign written in front of an adjustment.
#[derive(Debug, Clone, Copy, PartialEq, Eq, Structural)]
pub enum Sign {
    Plus,
    Minus,
}

/// Whether an adjustment sets a level (`To`) or moves the current one (`By`).
#[derive(Debug, Clone, Copy, PartialEq, Eq, Structural)]
pub enum Step {
    To,
    By,
}

/// A signed decimal magnitude, kept to millionths.
///
/// `whole` is the integer part, saturated at `u64::MAX`; `micros` holds the
/// first six digits after the decimal point.
#[derive(Debug, Clone, Copy, PartialEq, Eq, Structural)]
pub struct Amount {
    pub sign: Sign,
    pub whole: u64,
    pub micros: u32,
}

/// An adjustment: a magnitude in device units (`Absolute`) or in percent of
/// the maximum (`Relative`), applied as a target or as a move.
#[derive(Debug, Clone, Copy, PartialEq, Eq, Structural)]
pub enum Input {
    Absolute(Amount, Step),
    Relative(Amount, Step),
}

impl Amount {
    pub fn new(sign: Sign, whole: u64, micros: u32) -> (r: Amount)
        ensures
            r == (Amount { sign, whole, micros }),
    {
        Amount { sign, whole, micros }
    }

    /// The integer part with its sign: the magnitude truncated toward zero.
    pub open spec fn truncated(self) -> int {
        match self.sign {
            Sign::Plus => self.whole as int,
            Sign::Minus => -(self.whole as int),
        }
    }

    /// The signed magnitude in millionths.
    pub open spec fn scaled(self) -> int {
        let m = self.whole * 1_000_000 + self.micros;
        match self.sign {
            Sign::Plus => m,
            Sign::Minus => -m,
        }
    }
}

impl Step {
    pub fn absolute(self, v: Amount) -> (r: Input)
        ensures
            r == Input::Absolute(v, self),
    {
        Input::Absolute(v, self)
    }

    pub fn relative(self, v: Amount) -> (r: Input)
        ensures
            r == Input::Relative(v, self),
    {
        Input::Relative(v, self)
    }
}

/// Whether `c` is one of the digits `0` to `9`.
pub open spec fn is_digit(c: char) -> bool {
    '0' <= c && c <= '9'
}

/// The value of the digit `c`.
pub open spec fn digit_of(c: char) -> nat {
    ((c as u32) - ('0' as u32)) as nat
}

/// The value of the digits `s`, read in base ten.
pub open spec fn digits_value(s: Seq<char>) -> nat
    decreases s.len(),
{
    if s.len() == 0 {
        0
    } else {
        digits_value(s.drop_last()) * 10 + digit_of(s.last())
    }
}

/// Digits with at most one decimal point, and at least one digit.
pub open spec fn is_decimal(b: Seq<char>) -> bool {
    &&& forall|i: int| 0 <= i < b.len() ==> is_digit(b[i]) || b[i] == '.'
    &&& forall|i: int, j: int| 0 <= i < j < b.len() && b[i] == '.' ==> b[j] != '.'
    &&& exists|i: int| 0 <= i < b.len() && is_digit(b[i])
}

/// Where the decimal point of `b` stands, or `b.len()` when it has none.
pub open spec fn point_of(b: Seq<char>) -> int {
    if exists|i: int| 0 <= i < b.len() && b[i] == '.' {
        choose|i: int| 0 <= i < b.len() && b[i] == '.'
    } else {
        b.len() as int
    }
}

/// The first six digits of the fraction `f`, padded with zeros, as a number
/// of millionths.
pub open spec fn micros_of(f: Seq<char>) -> nat {
    digits_value(
        Seq::new(
            6,
            |i: int|
                if i < f.len() {
                    f[i]
                } else {
                    '0'
                },
        ),
    )
}

/// The magnitude that the decimal `b` denotes, with the sign `sign`.
pub open spec fn amount_of(sign: Sign, b: Seq<char>) -> Amount {
    let p = point_of(b);
    let w = digits_value(b.take(p));
    let f = if p < b.len() {
        b.skip(p + 1)
    } else {
        Seq::empty()
    };
    Amount {
        sign,
        whole: if w > u64::MAX {
            u64::MAX
        } else {
            w as u64
        },
        micros: micros_of(f) as u32,
    }
}

/// The sign that `s` starts with, if any.
pub open spec fn sign_of(s: Seq<char>) -> Option<Sign> {
    if s.len() > 0 && s[0] == '+' {
        Some(Sign::Plus)
    } else if s.len() > 0 && s[0] == '-' {
        Some(Sign::Minus)
    } else {
        None
    }
}

/// Whether `s` ends with a percent sign.
pub open spec fn is_percent(s: Seq<char>) -> bool {
    s.len() > 0 && s.last() == '%'
}

/// The adjustment that `s` denotes under the grammar `[+|-] decimal [%]`, or
/// `None`. A sign selects `By` and an absent one `To`; a trailing `%` selects
/// `Relative`. Only one sign and one `%` are taken: `"+-10"` and `"10%%"`
/// denote nothing. The number is plain decimal notation (`12`, `12.5`, `.5`,
/// `12.`); exponent notation, `inf` and `nan` denote nothing.
pub open spec fn parsed(s: Seq<char>) -> Option<Input> {
    let start: int = if sign_of(s) is Some {
        1
    } else {
        0
    };
    let end: int = if is_percent(s) {
        s.len() - 1
    } else {
        s.len() as int
    };
    let body = s.subrange(start, end);
    let step = if sign_of(s) is Some {
        Step::By
    } else {
        Step::To
    };
    let sign = match sign_of(s) {
        Some(g) => g,
        None => Sign::Plus,
    };
    if start <= end && is_decimal(body) {
        let a = amount_of(sign, body);
        Some(
            if is_percent(s) {
                Input::Relative(a, step)
            } else {
                Input::Absolute(a, step)
            },
        )
    } else {
        None
    }
}

/// The digit `c` as a number; `c` is a digit.
pub(crate) fn digit(c: char) -> (r: u64)
    requires
        is_digit(c),
    ensures
        r == digit_of(c),
        r <= 9,
{
    ((c as u32) - ('0' as u32)) as u64
}

/// The value of the digits `s[from..to]`, saturated at `u64::MAX`.
fn read_whole(s: &str, from: usize, to: usize) -> (r: u64)
    requires
        from <= to <= s@.len(),
        forall|k: int| from <= k < to ==> is_digit(s@[k]),
    ensures
        r == if digits_value(s@.subrange(from as int, to as int)) > u64::MAX {
            u64::MAX as nat
        } else {
            digits_value(s@.subrange(from as int, to as int))
        },
{
    let mut acc: u64 = 0;
    let mut i = from;
    while i < to
        invariant
            from <= i <= to <= s@.len(),
            forall|k: int| from <= k < to ==> is_digit(s@[k]),
            acc == if digits_value(s@.subrange(from as int, i as int)) > u64::MAX {
                u64::MAX as nat
            } else {
                digits_value(s@.subrange(from as int, i as int))
            },
        decreases to - i,
    {
        let c = s.get_char(i);
        let d = digit(c);
        proof {
            let next = s@.subrange(from as int, i + 1);
            assert(next.drop_last() =~= s@.subrange(from as int, i as int));
            assert(next.last() == c);
        }
        if acc > (u64::MAX - d) / 10 {
            acc = u64::MAX;
        } else {
            acc = acc * 10 + d;
        }
        i += 1;
    }
    acc
}

/// The fraction digits `s[from..to]` as a number of millionths, past the
/// sixth digit cut off.
fn read_micros(s: &str, from: usize, to: usize) -> (r: u32)
    requires
        from <= to <= s@.len(),
        forall|k: int| from <= k < to ==> is_digit(s@[k]),
    ensures
        r == micros_of(s@.subrange(from as int, to as int)),
{
    let ghost f = s@.subrange(from as int, to as int);
    let ghost padded = Seq::new(
        6,
        |i: int|
            if i < f.len() {
                f[i]
            } else {
                '0'
            },
    );
    let mut acc: u64 = 0;
    let mut q: usize = 0;
    while q < 6
        invariant
            q <= 6,
            from <= to <= s@.len(),
            forall|k: int| from <= k < to ==> is_digit(s@[k]),
            f == s@.subrange(from as int, to as int),
            padded.len() == 6,
            forall|i: int| 0 <= i < 6 ==> padded[i] == if i < f.len() {
                f[i]
            } else {
                '0'
            },
            acc == digits_value(padded.take(q as int)),
            acc < power(10, q as nat),
        decreases 6 - q,
    {
        let c = if q < to - from {
            s.get_char(from + q)
        } else {
            '0'
        };
        assert(c == padded[q as int]);
        let d = digit(c);
        proof {
            assert(padded.take(q + 1).drop_last() =~= padded.take(q as int));
            assert(power(10, (q + 1) as nat) == 10 * power(10, q as nat));
            power_exp_monotonic(10, q as nat, 5);
            reveal_with_fuel(power, 6);
        }
        acc = acc * 10 + d;
        q += 1;
    }
    proof {
        assert(padded.take(6) =~= padded);
        reveal_with_fuel(power, 7);
    }
    acc as u32
}

/// Checks that `s[start..end]` is a decimal, and finds its point: `None`
/// when it is no decimal, else where the point stands (`end` when there is
/// none).
fn find_point(s: &str, start: usize, end: usize) -> (r: Option<usize>)
    requires
        start <= end <= s@.len(),
    ensures
        r is Some <==> is_decimal(s@.subrange(start as int, end as int)),
        r matches Some(p) ==> {
            &&& start <= p <= end
            &&& p - start == point_of(s@.subrange(start as int, end as int))
            &&& forall|k: int| start <= k < p ==> is_digit(s@[k])
            &&& forall|k: int| p < k < end ==> is_digit(s@[k])
        },
{
    let ghost body = s@.subrange(start as int, end as int);
    let mut point = end;
    let mut any_digit = false;
    let mut i = start;
    while i < end
        invariant
            start <= i <= end <= s@.len(),
            body == s@.subrange(start as int, end as int),
            forall|k: int| start <= k < i ==> is_digit(s@[k]) || s@[k] == '.',
            point == end ==> forall|k: int| start <= k < i ==> s@[k] != '.',
            point != end ==> start <= point < i && s@[point as int] == '.' && forall|k: int|
                start <= k < i && k != point ==> s@[k] != '.',
            any_digit <==> exists|k: int| start <= k < i && is_digit(s@[k]),
        decreases end - i,
    {
        let c = s.get_char(i);
        if c == '.' {
            if point != end {
                assert(body[point - start] == '.' && body[i - start] == '.');
                return None;
            }
            point = i;
        } else if '0' <= c && c <= '9' {
            any_digit = true;
        } else {
            assert(!(is_digit(body[i - start]) || body[i - start] == '.'));
            return None;
        }
        i += 1;
    }
    if !any_digit {
        assert forall|k: int| 0 <= k < body.len() implies !is_digit(body[k]) by {
            assert(body[k] == s@[start + k]);
        }
        return None;
    }
    proof {
        assert forall|k: int| 0 <= k < body.len() implies is_digit(body[k]) || body[k] == '.' by {
            assert(body[k] == s@[start + k]);
        }
        assert forall|a: int, b: int|
            0 <= a < b < body.len() && body[a] == '.' implies body[b] != '.' by {
            assert(body[a] == s@[start + a]);
            assert(body[b] == s@[start + b]);
        }
        let k = choose|k: int| start <= k < i && is_digit(s@[k]);
        assert(body[k - start] == s@[k]);
        if point != end {
            assert(body[point - start] == '.');
            let q = point_of(body);
            assert(body[q] == s@[start + q]);
        } else {
            assert forall|k: int| 0 <= k < body.len() implies body[k] != '.' by {
                assert(body[k] == s@[start + k]);
            }
        }
    }
    Some(point)
}

impl Input {
    /// Reads an adjustment written as `[+|-] decimal [%]`.
    pub fn parse(s: &str) -> (r: Result<Input, Error>)
        ensures
            match parsed(s@) {
                Some(i) => r == Ok::<Input, Error>(i),
                None => r matches Err(Error::InvalidInput),
            },
    {
        let n = s.unicode_len();
        let first = if n > 0 {
            s.get_char(0)
        } else {
            ' '
        };
        let (sign, step, start) = if first == '+' {
            (Sign::Plus, Step::By, 1usize)
        } else if first == '-' {
            (Sign::Minus, Step::By, 1usize)
        } else {
            (Sign::Plus, Step::To, 0usize)
        };
        let percent = n > 0 && s.get_char(n - 1) == '%';
        let end = if percent {
            n - 1
        } else {
            n
        };
        assert(sign_of(s@) is Some <==> start == 1);
        assert(is_percent(s@) == percent);
        if start > end {
            return Err(Error::InvalidInput);
        }
        let point = match find_point(s, start, end) {
            Some(p) => p,
            None => {
                return Err(Error::InvalidInput);
            },
        };
        let whole = read_whole(s, start, point);
        let frac_from = if point < end {
            point + 1
        } else {
            end
        };
        let micros = read_micros(s, frac_from, end);
        proof {
            let body = s@.subrange(start as int, end as int);
            let p = point_of(body);
            assert(body.take(p) =~= s@.subrange(start as int, point as int));
            if p < body.len() {
                assert(body.skip(p + 1) =~= s@.subrange(frac_from as int, end as int));
            } else {
                assert(s@.subrange(frac_from as int, end as int) =~= Seq::<char>::empty());
            }
        }
        let a = Amount { sign, whole, micros };
        if percent {
            Ok(Input::Relative(a, step))
        } else {
            Ok(Input::Absolute(a, step))
        }
    }
}

impl std::str::FromStr for Input {
    type Err = Error;

    fn from_str(s: &str) -> (r: Result<Input, Error>)
        ensures
            match parsed(s@) {
                Some(i) => r == Ok::<Input, Error>(i),
                None => r matches Err(Error::InvalidInput),
            },
    {
        Input::parse(s)
    }
}

} // verus!
