use vstd::prelude::*;

use crate::input::{digit, digits_value, is_digit};

verus! {

/// A device's brightness: the level it is at and the largest level it takes.
#[derive(Debug, Clone, Copy, PartialEq, Eq, Structural)]
pub struct Brightness {
    pub current: usize,
    pub max: usize,
}

impl Brightness {
    pub fn new(current: usize, max: usize) -> (r: Self)
        ensures
            r.current == current,
            r.max == max,
    {
        Self { current, max }
    }

    /// Whether the device only knows the levels 0 and 1, and is toggled
    /// rather than ramped.
    pub fn is_binary(&self) -> (r: bool)
        ensures
            r == (self.max == 1),
    {
        self.max == 1
    }
}

/// The digits of a level as a device file holds it: the text without one
/// trailing newline.
pub open spec fn level_digits(s: Seq<char>) -> Seq<char> {
    if s.len() > 0 && s.last() == '\n' {
        s.drop_last()
    } else {
        s
    }
}

/// The level that the device file text `s` holds: decimal digits, at least
/// one, optionally followed by a newline, of a value that fits in `usize`.
pub open spec fn level_of(s: Seq<char>) -> Option<usize> {
    let d = level_digits(s);
    if d.len() > 0 && (forall|i: int| 0 <= i < d.len() ==> is_digit(d[i])) && digits_value(d)
        <= usize::MAX {
        Some(digits_value(d) as usize)
    } else {
        None
    }
}

/// Reads a level from the text of a device's `brightness` or
/// `max_brightness` file.
pub fn parse_level(s: &str) -> (r: Option<usize>)
    ensures
        r == level_of(s@),
{
    let n = s.unicode_len();
    let end = if n > 0 && s.get_char(n - 1) == '\n' {
        n - 1
    } else {
        n
    };
    let ghost d = s@.subrange(0, end as int);
    assert(d =~= level_digits(s@));
    if end == 0 {
        return None;
    }
    let mut acc: usize = 0;
    let mut i: usize = 0;
    while i < end
        invariant
            i <= end <= n,
            n == s@.len(),
            d == s@.subrange(0, end as int),
            d == level_digits(s@),
            forall|k: int| 0 <= k < i ==> is_digit(s@[k]),
            acc == digits_value(s@.subrange(0, i as int)),
        decreases end - i,
    {
        let c = s.get_char(i);
        if !('0' <= c && c <= '9') {
            assert(d[i as int] == c);
            return None;
        }
        let v = digit(c) as usize;
        proof {
            let next = s@.subrange(0, i + 1);
            assert(next.drop_last() =~= s@.subrange(0, i as int));
            assert(next.last() == c);
        }
        if acc > (usize::MAX - v) / 10 {
            proof {
                assert(d.subrange(0, i + 1) =~= s@.subrange(0, i + 1));
                digits_value_prefix_bound(d, i + 1);
            }
            return None;
        }
        acc = acc * 10 + v;
        i += 1;
    }
    assert(s@.subrange(0, end as int) =~= d);
    Some(acc)
}

/// A number's digits are worth no less than the digits of any prefix.
proof fn digits_value_prefix_bound(d: Seq<char>, k: int)
    requires
        0 <= k <= d.len(),
    ensures
        digits_value(d.subrange(0, k)) <= digits_value(d),
    decreases d.len() - k,
{
    if k < d.len() {
        digits_value_prefix_bound(d, k + 1);
        assert(d.subrange(0, k + 1).drop_last() =~= d.subrange(0, k));
    } else {
        assert(d.subrange(0, k) =~= d);
    }
}

} // verus!
