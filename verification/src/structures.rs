//! The timing domain model: stage times, deltas, and the in-memory
//! result data for one rally event.
//!
//! A stage time is stored as a whole number of tenths of a second: the
//! minimum resolution of recorded rally times. A stored value of zero
//! means "no time recorded" (did not start, did not finish, or the
//! timing point was never reached); there is no separate null
//! representation.

use vstd::prelude::*;

use std::collections::HashMap;

use crate::text::{dec_chars, digit_char, two_digit_chars};
use crate::text::{push_decimal, push_two_digits};

verus! {

/// Identity lookup: numeric id to the person's names.
pub type UidMap = HashMap<usize, Uid>;

/// One recorded duration, in tenths of a second. A value of zero is
/// the "invalid" sentinel: no time was recorded.
#[derive(Clone, Copy, Debug, PartialEq, Eq, Structural)]
pub struct StageTime {
    pub tenths: u64,
}

/// How one competitor's time compares to another's: faster, slower,
/// or equal; `Invalid` when at least one of the two times was never
/// recorded, so that no comparison is meaningful.
#[derive(Clone, Copy, Debug, PartialEq, Eq, Structural)]
pub enum DeltaKind {
    Faster,
    Slower,
    Equal,
    Invalid,
}

/// A distance-normalized gap between two stage times: seconds of gap
/// per mile, stored in hundredths (two decimal places), together with
/// its classification. The stored magnitude is never negative; the
/// direction lives in `kind`.
#[derive(Clone, Copy, Debug, PartialEq, Eq, Structural)]
pub struct Delta {
    /// Magnitude in hundredths of a second per mile.
    pub delta: u64,
    pub kind: DeltaKind,
}

/// The gap magnitude in hundredths of a second per mile: the time
/// difference (tenths of a second) divided by the distance (hundredths
/// of a mile), rounded to the nearest hundredth with halves rounding
/// up, and saturating at the largest storable magnitude.
pub open spec fn delta_hundredths(diff_tenths: nat, dist_hundredths: nat) -> nat
    recommends
        dist_hundredths > 0,
{
    let exact = (2000 * diff_tenths + dist_hundredths) / (2 * dist_hundredths);
    if exact > u64::MAX {
        u64::MAX as nat
    } else {
        exact
    }
}

/// What `StageTime::diff_per_mile` returns: invalid if either operand
/// is invalid; otherwise the classified, distance-normalized gap.
pub open spec fn spec_diff_per_mile(a: StageTime, b: StageTime, distance: u64) -> Delta {
    if a.tenths == 0 || b.tenths == 0 {
        Delta { delta: 0, kind: DeltaKind::Invalid }
    } else if a.tenths > b.tenths {
        Delta {
            delta: delta_hundredths((a.tenths - b.tenths) as nat, distance as nat) as u64,
            kind: DeltaKind::Slower,
        }
    } else if b.tenths > a.tenths {
        Delta {
            delta: delta_hundredths((b.tenths - a.tenths) as nat, distance as nat) as u64,
            kind: DeltaKind::Faster,
        }
    } else {
        Delta { delta: 0, kind: DeltaKind::Equal }
    }
}

impl StageTime {
    /// The zero duration, which doubles as the invalid sentinel.
    pub fn zero() -> (r: Self)
        ensures
            r.tenths == 0,
    {
        StageTime { tenths: 0 }
    }

    /// A time is valid exactly when some duration was recorded.
    pub fn is_valid(&self) -> (r: bool)
        ensures
            r == (self.tenths != 0),
    {
        self.tenths != 0
    }

    /// The sum of two durations.
    pub fn plus(self, other: Self) -> (r: Self)
        requires
            self.tenths + other.tenths <= u64::MAX,
        ensures
            r.tenths == self.tenths + other.tenths,
    {
        StageTime { tenths: self.tenths + other.tenths }
    }

    /// The difference of two durations; the caller must know that no
    /// underflow occurs.
    pub fn minus(self, other: Self) -> (r: Self)
        requires
            other.tenths <= self.tenths,
        ensures
            r.tenths == self.tenths - other.tenths,
    {
        StageTime { tenths: self.tenths - other.tenths }
    }

    /// The per-distance gap between this time and `other` over the
    /// given distance (hundredths of a mile, which must be positive):
    /// invalid if either time is invalid; otherwise classified as
    /// slower (this time is larger), faster, or equal, with the
    /// magnitude of the gap normalized by the distance.
    pub fn diff_per_mile(&self, other: &Self, distance: u64) -> (r: Delta)
        requires
            distance > 0,
        ensures
            r == spec_diff_per_mile(*self, *other, distance),
    {
        if !(self.is_valid() && other.is_valid()) {
            return Delta { delta: 0, kind: DeltaKind::Invalid };
        }
        if self.tenths > other.tenths {
            Delta {
                delta: div_round_half_up(self.tenths - other.tenths, distance),
                kind: DeltaKind::Slower,
            }
        } else if other.tenths > self.tenths {
            Delta {
                delta: div_round_half_up(other.tenths - self.tenths, distance),
                kind: DeltaKind::Faster,
            }
        } else {
            Delta { delta: 0, kind: DeltaKind::Equal }
        }
    }
}

/// Computes `delta_hundredths` in machine arithmetic.
fn div_round_half_up(diff_tenths: u64, dist_hundredths: u64) -> (r: u64)
    requires
        dist_hundredths > 0,
    ensures
        r == delta_hundredths(diff_tenths as nat, dist_hundredths as nat),
{
    let num: u128 = 2000 * (diff_tenths as u128) + (dist_hundredths as u128);
    let q: u128 = num / (2 * (dist_hundredths as u128));
    if q > (u64::MAX as u128) {
        u64::MAX
    } else {
        q as u64
    }
}

/// Whether `c` is a decimal digit.
pub open spec fn is_digit(c: char) -> bool {
    '0' <= c && c <= '9'
}

/// The value of a decimal digit character.
pub open spec fn digit_val(c: char) -> nat
    recommends
        is_digit(c),
{
    (c as u32 - '0' as u32) as nat
}

/// The first position at or after `i` that does not hold a digit
/// (or the end of the sequence).
pub open spec fn digits_end(s: Seq<char>, i: int) -> int
    decreases s.len() - i,
{
    if i < 0 || i >= s.len() || !is_digit(s[i]) {
        i
    } else {
        digits_end(s, i + 1)
    }
}

/// The value of the digit run `s[i..j)`, read as a decimal number.
pub open spec fn digits_val(s: Seq<char>, i: int, j: int) -> nat
    decreases j - i,
{
    if i >= j {
        0
    } else {
        digits_val(s, i, j - 1) * 10 + digit_val(s[j - 1])
    }
}

/// The tenths contribution of a fractional-seconds field that starts
/// just after a decimal point at `dot` and must run to the end of the
/// string: the fraction rounded to the nearest tenth, halves rounding
/// up, which needs only the first two fraction digits. `None` when the
/// field is empty or does not reach the end.
pub open spec fn frac_tenths(s: Seq<char>, dot: int) -> Option<nat> {
    let b = dot + 1;
    let e = digits_end(s, b);
    if e == b || e != s.len() {
        None
    } else if e > b + 1 && digit_val(s[b + 1]) >= 5 {
        Some(digit_val(s[b]) + 1)
    } else {
        Some(digit_val(s[b]))
    }
}

/// The accepted time-string grammar and its value in tenths of a
/// second. The accepted forms are `H:MM:SS.f`, `M:SS.f`, `SS.f` and
/// `M:SS` (each digit run of any positive length), plus the empty
/// string, which denotes the zero/invalid time. Anything else is
/// rejected.
pub open spec fn parse_tenths(s: Seq<char>) -> Option<nat> {
    if s.len() == 0 {
        Some(0)
    } else {
        let e1 = digits_end(s, 0);
        if e1 == 0 || e1 == s.len() {
            None
        } else if s[e1] == '.' {
            // SS.f
            match frac_tenths(s, e1) {
                Some(f) => Some(digits_val(s, 0, e1) * 10 + f),
                None => None,
            }
        } else if s[e1] == ':' {
            let e2 = digits_end(s, e1 + 1);
            if e2 == e1 + 1 {
                None
            } else if e2 == s.len() {
                // M:SS
                Some((digits_val(s, 0, e1) * 60 + digits_val(s, e1 + 1, e2)) * 10)
            } else if s[e2] == '.' {
                // M:SS.f
                match frac_tenths(s, e2) {
                    Some(f) => Some(
                        (digits_val(s, 0, e1) * 60 + digits_val(s, e1 + 1, e2)) * 10 + f,
                    ),
                    None => None,
                }
            } else if s[e2] == ':' {
                let e3 = digits_end(s, e2 + 1);
                if e3 == e2 + 1 || e3 == s.len() {
                    None
                } else if s[e3] == '.' {
                    // H:MM:SS.f
                    match frac_tenths(s, e3) {
                        Some(f) => Some(
                            ((digits_val(s, 0, e1) * 60 + digits_val(s, e1 + 1, e2)) * 60
                                + digits_val(s, e2 + 1, e3)) * 10 + f,
                        ),
                        None => None,
                    }
                } else {
                    None
                }
            } else {
                None
            }
        } else {
            None
        }
    }
}

/// A longer digit run never has a smaller value.
proof fn lemma_digits_val_monotone(s: Seq<char>, i: int, j: int, k: int)
    requires
        i <= j <= k,
    ensures
        digits_val(s, i, j) <= digits_val(s, i, k),
    decreases k - j,
{
    if j < k {
        lemma_digits_val_monotone(s, i, j, k - 1);
    }
}

/// Whether `c` is a decimal digit.
fn is_digit_exec(c: char) -> (r: bool)
    ensures
        r == is_digit(c),
{
    '0' <= c && c <= '9'
}

/// The value of a decimal digit character.
fn digit_of(c: char) -> (d: u64)
    requires
        is_digit(c),
    ensures
        d == digit_val(c),
        d <= 9,
{
    ((c as u32) - 48) as u64
}

/// Scans the digit run that starts at `start`.
fn scan_digits(s: &str, start: usize, n: usize) -> (e: usize)
    requires
        n == s@.len(),
        start <= n,
    ensures
        e == digits_end(s@, start as int),
        start <= e <= n,
{
    let mut i = start;
    while i < n && is_digit_exec(s.get_char(i))
        invariant
            start <= i <= n,
            n == s@.len(),
            digits_end(s@, start as int) == digits_end(s@, i as int),
        decreases n - i,
    {
        i = i + 1;
    }
    i
}

/// Reads the value of the digit run `s[start..end)`; `None` when it
/// does not fit in a `u64`.
fn digits_value(s: &str, start: usize, end: usize, n: usize) -> (r: Option<u64>)
    requires
        n == s@.len(),
        start <= end <= n,
        forall|k: int| start <= k < end ==> is_digit(s@[k]),
    ensures
        match r {
            Some(v) => v == digits_val(s@, start as int, end as int),
            None => digits_val(s@, start as int, end as int) > u64::MAX,
        },
{
    let mut acc: u64 = 0;
    let mut k = start;
    while k < end
        invariant
            start <= k <= end <= n,
            n == s@.len(),
            forall|t: int| start <= t < end ==> is_digit(s@[t]),
            acc == digits_val(s@, start as int, k as int),
        decreases end - k,
    {
        let d = digit_of(s.get_char(k));
        let shifted = match acc.checked_mul(10) {
            Some(v) => v,
            None => {
                proof {
                    lemma_digits_val_monotone(s@, start as int, k as int + 1, end as int);
                }
                return None;
            },
        };
        acc = match shifted.checked_add(d) {
            Some(v) => v,
            None => {
                proof {
                    lemma_digits_val_monotone(s@, start as int, k as int + 1, end as int);
                }
                return None;
            },
        };
        k = k + 1;
    }
    Some(acc)
}

/// Reads the fractional-seconds field that starts just after the
/// decimal point at `dot`, rounded to tenths.
fn parse_frac(s: &str, dot: usize, n: usize) -> (r: Option<u64>)
    requires
        n == s@.len(),
        dot < n,
    ensures
        match r {
            Some(f) => frac_tenths(s@, dot as int) == Some(f as nat) && f <= 10,
            None => frac_tenths(s@, dot as int) is None,
        },
{
    let b = dot + 1;
    let e = scan_digits(s, b, n);
    if e == b || e != n {
        return None;
    }
    proof {
        lemma_digits_end_range(s@, b as int);
    }
    let d1 = digit_of(s.get_char(b));
    if b + 1 < e && digit_of(s.get_char(b + 1)) >= 5 {
        Some(d1 + 1)
    } else {
        Some(d1)
    }
}

/// Parses a human-entered time string into a stage time: `H:MM:SS.f`,
/// `M:SS.f`, `SS.f` or `M:SS`, or the empty string for the
/// zero/invalid time. Fractional seconds are rounded to the nearest
/// tenth. `None` when the text matches no accepted form, or when the
/// value does not fit the stored resolution.
pub fn parse_stage_time(time: &str) -> (r: Option<StageTime>)
    ensures
        parse_tenths(time@) is None ==> r is None,
        parse_tenths(time@) matches Some(v) ==> if v <= u64::MAX {
            r == Some(StageTime { tenths: v as u64 })
        } else {
            r is None
        },
{
    let n = time.unicode_len();
    if n == 0 {
        return Some(StageTime::zero());
    }
    let e1 = scan_digits(time, 0, n);
    if e1 == 0 || e1 == n {
        return None;
    }
    proof {
        lemma_digits_end_range(time@, 0);
    }
    let c1 = time.get_char(e1);
    if c1 == '.' {
        let f = match parse_frac(time, e1, n) {
            Some(f) => f,
            None => {
                return None;
            },
        };
        let sec = match digits_value(time, 0, e1, n) {
            Some(v) => v,
            None => {
                return None;
            },
        };
        match sec.checked_mul(10) {
            Some(t) => match t.checked_add(f) {
                Some(total) => Some(StageTime { tenths: total }),
                None => None,
            },
            None => None,
        }
    } else if c1 == ':' {
        let e2 = scan_digits(time, e1 + 1, n);
        if e2 == e1 + 1 {
            return None;
        }
        proof {
            lemma_digits_end_range(time@, e1 as int + 1);
        }
        let m = match digits_value(time, 0, e1, n) {
            Some(v) => v,
            None => {
                return None;
            },
        };
        if e2 == n {
            let sec = match digits_value(time, e1 + 1, e2, n) {
                Some(v) => v,
                None => {
                    return None;
                },
            };
            match m.checked_mul(60) {
                Some(ms) => match ms.checked_add(sec) {
                    Some(t) => match t.checked_mul(10) {
                        Some(total) => Some(StageTime { tenths: total }),
                        None => None,
                    },
                    None => None,
                },
                None => None,
            }
        } else {
            let c2 = time.get_char(e2);
            if c2 == '.' {
                let f = match parse_frac(time, e2, n) {
                    Some(f) => f,
                    None => {
                        return None;
                    },
                };
                let sec = match digits_value(time, e1 + 1, e2, n) {
                    Some(v) => v,
                    None => {
                        return None;
                    },
                };
                match m.checked_mul(60) {
                    Some(ms) => match ms.checked_add(sec) {
                        Some(t) => match t.checked_mul(10) {
                            Some(tt) => match tt.checked_add(f) {
                                Some(total) => Some(StageTime { tenths: total }),
                                None => None,
                            },
                            None => None,
                        },
                        None => None,
                    },
                    None => None,
                }
            } else if c2 == ':' {
                let e3 = scan_digits(time, e2 + 1, n);
                if e3 == e2 + 1 || e3 == n {
                    return None;
                }
                proof {
                    lemma_digits_end_range(time@, e2 as int + 1);
                }
                let c3 = time.get_char(e3);
                if c3 != '.' {
                    return None;
                }
                let f = match parse_frac(time, e3, n) {
                    Some(f) => f,
                    None => {
                        return None;
                    },
                };
                let mins = match digits_value(time, e1 + 1, e2, n) {
                    Some(v) => v,
                    None => {
                        return None;
                    },
                };
                let sec = match digits_value(time, e2 + 1, e3, n) {
                    Some(v) => v,
                    None => {
                        return None;
                    },
                };
                match m.checked_mul(60) {
                    Some(hm) => match hm.checked_add(mins) {
                        Some(c1v) => match c1v.checked_mul(60) {
                            Some(c2v) => match c2v.checked_add(sec) {
                                Some(t) => match t.checked_mul(10) {
                                    Some(tt) => match tt.checked_add(f) {
                                        Some(total) => Some(StageTime { tenths: total }),
                                        None => None,
                                    },
                                    None => None,
                                },
                                None => None,
                            },
                            None => None,
                        },
                        None => None,
                    },
                    None => None,
                }
            } else {
                None
            }
        }
    } else {
        None
    }
}

/// `digits_end` never moves backwards and never passes the end, and
/// everything it passed over is a digit.
proof fn lemma_digits_end_range(s: Seq<char>, i: int)
    requires
        0 <= i <= s.len(),
    ensures
        i <= digits_end(s, i) <= s.len(),
        forall|k: int| i <= k < digits_end(s, i) ==> is_digit(s[k]),
        digits_end(s, i) < s.len() ==> !is_digit(s[digits_end(s, i)]),
    decreases s.len() - i,
{
    if i < s.len() && is_digit(s[i]) {
        lemma_digits_end_range(s, i + 1);
        assert forall|k: int| i <= k < digits_end(s, i) implies is_digit(s[k]) by {
            if k > i {
                assert(is_digit(s[k]));
            }
        }
    }
}

/// The rendering of a duration of `tenths` tenths of a second: the
/// hours component is omitted when zero, the minutes component is
/// omitted when hours and minutes are both zero, and the seconds
/// always show a two-digit zero-padded whole part and a two-digit
/// fractional part in hundredths.
pub open spec fn time_chars(tenths: nat) -> Seq<char> {
    let secs = tenths / 10;
    let frac = tenths % 10;
    let hours = secs / 3600;
    let mins = (secs % 3600) / 60;
    let s = secs % 60;
    let tail = seq!['.'] + two_digit_chars(frac * 10);
    if hours > 0 {
        dec_chars(hours) + seq![':'] + two_digit_chars(mins) + seq![':'] + two_digit_chars(s) + tail
    } else if mins > 0 {
        two_digit_chars(mins) + seq![':'] + two_digit_chars(s) + tail
    } else {
        two_digit_chars(s) + tail
    }
}

/// The rendering of a delta: a leading minus sign exactly when the
/// comparison came out slower, then the magnitude with two decimal
/// places.
pub open spec fn delta_chars(d: Delta) -> Seq<char> {
    let sign: Seq<char> = if d.kind == DeltaKind::Slower {
        seq!['-']
    } else {
        Seq::empty()
    };
    sign + dec_chars(d.delta as nat / 100) + seq!['.'] + two_digit_chars(d.delta as nat % 100)
}

/// A digit character is a digit, and carries its own value.
proof fn lemma_digit_char(m: nat)
    requires
        m < 10,
    ensures
        is_digit(digit_char(m)),
        digit_val(digit_char(m)) == m,
{
}

/// If everything from `i` up to `j` is a digit and `j` is the end or a
/// non-digit, the digit run that starts at `i` ends exactly at `j`.
proof fn lemma_digits_end_at(s: Seq<char>, i: int, j: int)
    requires
        0 <= i <= j <= s.len(),
        forall|k: int| i <= k < j ==> is_digit(s[k]),
        j == s.len() || !is_digit(s[j]),
    ensures
        digits_end(s, i) == j,
    decreases j - i,
{
    if i < j {
        lemma_digits_end_at(s, i + 1, j);
    }
}

/// Reading a digit run out of a larger sequence gives the same value
/// as reading it in place.
proof fn lemma_digits_val_shift(s: Seq<char>, i: int, j: int, k: int)
    requires
        0 <= i <= k <= j <= s.len(),
    ensures
        digits_val(s.subrange(i, j), 0, k - i) == digits_val(s, i, k),
    decreases k - i,
{
    if i < k {
        lemma_digits_val_shift(s, i, j, k - 1);
        assert(s.subrange(i, j)[k - 1 - i] == s[k - 1]);
    }
}

/// The decimal rendering of a number is a nonempty digit run whose
/// value is the number itself.
proof fn lemma_dec_chars(n: nat)
    ensures
        dec_chars(n).len() >= 1,
        forall|k: int| 0 <= k < dec_chars(n).len() ==> is_digit(#[trigger] dec_chars(n)[k]),
        digits_val(dec_chars(n), 0, dec_chars(n).len() as int) == n,
    decreases n,
{
    if n < 10 {
        lemma_digit_char(n);
        assert(digits_val(dec_chars(n), 0, 0) == 0);
        assert(digits_val(dec_chars(n), 0, 1) == digit_val(dec_chars(n)[0]));
    } else {
        lemma_dec_chars(n / 10);
        lemma_digit_char(n % 10);
        let a = dec_chars(n / 10);
        let d = dec_chars(n);
        let len = d.len() as int;
        assert(d.subrange(0, len - 1) =~= a);
        lemma_digits_val_shift(d, 0, len - 1, len - 1);
        assert(digits_val(d, 0, len) == digits_val(d, 0, len - 1) * 10 + digit_val(d[len - 1]));
    }
}

/// The two-digit rendering of a value below one hundred is a digit
/// pair whose value is the value itself.
proof fn lemma_two_digit(n: nat)
    requires
        n < 100,
    ensures
        two_digit_chars(n).len() == 2,
        is_digit(two_digit_chars(n)[0]),
        is_digit(two_digit_chars(n)[1]),
        digits_val(two_digit_chars(n), 0, 2) == n,
{
    lemma_digit_char(n / 10);
    lemma_digit_char(n % 10);
    let d = two_digit_chars(n);
    assert(digits_val(d, 0, 0) == 0);
    assert(digits_val(d, 0, 1) == digit_val(d[0]));
    assert(digits_val(d, 0, 2) == digit_val(d[0]) * 10 + digit_val(d[1]));
}

/// Reformatting a stage time and parsing the result yields the same
/// stage time: the rendered text is always accepted, and its value is
/// exact. Formatting never loses or distorts a stored duration.
#[verifier::rlimit(100)]
pub proof fn lemma_format_parse_roundtrip(t: StageTime)
    ensures
        parse_tenths(time_chars(t.tenths as nat)) == Some(t.tenths as nat),
{
    let tn = t.tenths as nat;
    let secs = tn / 10;
    let fr = tn % 10;
    let hours = secs / 3600;
    let mins = (secs % 3600) / 60;
    let s2 = secs % 60;
    let f0 = fr * 10;
    let ff = two_digit_chars(f0);
    let f = time_chars(tn);
    lemma_two_digit(f0);
    lemma_two_digit(mins);
    lemma_two_digit(s2);
    assert(ff[0] == digit_char(fr) && ff[1] == digit_char(0));
    lemma_digit_char(fr);
    lemma_digit_char(0);
    if hours > 0 {
        let a = dec_chars(hours);
        lemma_dec_chars(hours);
        let la = a.len() as int;
        assert(f =~= a + seq![':'] + two_digit_chars(mins) + seq![':'] + two_digit_chars(s2)
            + seq!['.'] + ff);
        assert(f.len() == la + 9);
        assert(forall|k: int| 0 <= k < la ==> f[k] == a[k]);
        assert(f[la] == ':' && f[la + 3] == ':' && f[la + 6] == '.');
        assert(f[la + 1] == two_digit_chars(mins)[0] && f[la + 2] == two_digit_chars(mins)[1]);
        assert(f[la + 4] == two_digit_chars(s2)[0] && f[la + 5] == two_digit_chars(s2)[1]);
        assert(f[la + 7] == ff[0] && f[la + 8] == ff[1]);
        lemma_digits_end_at(f, 0, la);
        lemma_digits_end_at(f, la + 1, la + 3);
        lemma_digits_end_at(f, la + 4, la + 6);
        lemma_digits_end_at(f, la + 7, la + 9);
        assert(f.subrange(0, la) =~= a);
        lemma_digits_val_shift(f, 0, la, la);
        assert(f.subrange(la + 1, la + 3) =~= two_digit_chars(mins));
        lemma_digits_val_shift(f, la + 1, la + 3, la + 3);
        assert(f.subrange(la + 4, la + 6) =~= two_digit_chars(s2));
        lemma_digits_val_shift(f, la + 4, la + 6, la + 6);
        assert(digits_val(f, 0, la) == hours);
        assert(digits_val(f, la + 1, la + 3) == mins);
        assert(digits_val(f, la + 4, la + 6) == s2);
        assert(frac_tenths(f, la + 6) == Some(fr));
        assert(secs == 3600 * hours + secs % 3600) by {
            vstd::arithmetic::div_mod::lemma_fundamental_div_mod(secs as int, 3600);
        }
        assert(secs % 3600 == 60 * mins + (secs % 3600) % 60) by {
            vstd::arithmetic::div_mod::lemma_fundamental_div_mod((secs % 3600) as int, 60);
        }
        assert((secs % 3600) % 60 == secs % 60) by {
            vstd::arithmetic::div_mod::lemma_mod_mod(secs as int, 60, 60);
        }
        assert((hours * 60 + mins) * 60 + s2 == secs);
        assert(parse_tenths(f) == Some(((hours * 60 + mins) * 60 + s2) * 10 + fr));
        assert(secs * 10 + fr == tn);
    } else if mins > 0 {
        assert(f =~= two_digit_chars(mins) + seq![':'] + two_digit_chars(s2) + seq!['.'] + ff);
        assert(f.len() == 8);
        assert(f[0] == two_digit_chars(mins)[0] && f[1] == two_digit_chars(mins)[1]);
        assert(f[2] == ':' && f[5] == '.');
        assert(f[3] == two_digit_chars(s2)[0] && f[4] == two_digit_chars(s2)[1]);
        assert(f[6] == ff[0] && f[7] == ff[1]);
        lemma_digits_end_at(f, 0, 2);
        lemma_digits_end_at(f, 3, 5);
        lemma_digits_end_at(f, 6, 8);
        assert(f.subrange(0, 2) =~= two_digit_chars(mins));
        lemma_digits_val_shift(f, 0, 2, 2);
        assert(f.subrange(3, 5) =~= two_digit_chars(s2));
        lemma_digits_val_shift(f, 3, 5, 5);
        assert(digits_val(f, 0, 2) == mins);
        assert(digits_val(f, 3, 5) == s2);
        assert(frac_tenths(f, 5) == Some(fr));
        assert(secs % 3600 == secs && secs / 3600 == 0) by {
            vstd::arithmetic::div_mod::lemma_small_mod(secs, 3600);
            vstd::arithmetic::div_mod::lemma_basic_div_specific_divisor(3600);
        }
        assert(secs == 60 * mins + s2) by {
            vstd::arithmetic::div_mod::lemma_fundamental_div_mod(secs as int, 60);
        }
        assert(parse_tenths(f) == Some((mins * 60 + s2) * 10 + fr));
        assert(secs * 10 + fr == tn);
    } else {
        assert(f =~= two_digit_chars(s2) + seq!['.'] + ff);
        assert(f.len() == 5);
        assert(f[0] == two_digit_chars(s2)[0] && f[1] == two_digit_chars(s2)[1]);
        assert(f[2] == '.');
        assert(f[3] == ff[0] && f[4] == ff[1]);
        lemma_digits_end_at(f, 0, 2);
        lemma_digits_end_at(f, 3, 5);
        assert(f.subrange(0, 2) =~= two_digit_chars(s2));
        lemma_digits_val_shift(f, 0, 2, 2);
        assert(digits_val(f, 0, 2) == s2);
        assert(frac_tenths(f, 2) == Some(fr));
        assert(secs < 60) by {
            if secs >= 60 {
                if secs >= 3600 {
                    assert(secs / 3600 >= 1) by {
                        vstd::arithmetic::div_mod::lemma_div_non_zero(secs as int, 3600);
                    }
                } else {
                    vstd::arithmetic::div_mod::lemma_small_mod(secs, 3600);
                    assert((secs % 3600) / 60 >= 1) by {
                        vstd::arithmetic::div_mod::lemma_div_non_zero(secs as int, 60);
                    }
                }
            }
        }
        assert(secs % 60 == secs) by {
            vstd::arithmetic::div_mod::lemma_small_mod(secs, 60);
        }
        assert(parse_tenths(f) == Some(s2 * 10 + fr));
        assert(secs * 10 + fr == tn);
    }
}

impl StageTime {
    /// Renders the duration as `H:MM:SS.ff`, `MM:SS.ff` or `SS.ff`,
    /// whichever is shortest without dropping a nonzero component.
    pub fn to_string(&self) -> (r: String)
        ensures
            r@ == time_chars(self.tenths as nat),
    {
        proof {
            reveal_strlit(":");
            reveal_strlit(".");
        }
        let mut out = String::new();
        let secs = self.tenths / 10;
        let frac = self.tenths % 10;
        let hours = secs / 3600;
        let mins = (secs % 3600) / 60;
        let s = secs % 60;
        if hours > 0 {
            push_decimal(&mut out, hours);
            out.append(":");
            push_two_digits(&mut out, mins);
            out.append(":");
        } else if mins > 0 {
            push_two_digits(&mut out, mins);
            out.append(":");
        }
        push_two_digits(&mut out, s);
        out.append(".");
        push_two_digits(&mut out, frac * 10);
        proof {
            assert(out@ =~= time_chars(self.tenths as nat));
        }
        out
    }
}

impl Delta {
    /// Renders the delta with two decimal places, with a leading
    /// minus sign exactly when the comparison came out slower.
    pub fn to_string(&self) -> (r: String)
        ensures
            r@ == delta_chars(*self),
    {
        proof {
            reveal_strlit("-");
            reveal_strlit(".");
        }
        let mut out = String::new();
        if matches!(self.kind, DeltaKind::Slower) {
            out.append("-");
        }
        push_decimal(&mut out, self.delta / 100);
        out.append(".");
        push_two_digits(&mut out, self.delta % 100);
        proof {
            assert(out@ =~= delta_chars(*self));
        }
        out
    }
}

/// A gap of two equal valid times is always classified `Equal`, with
/// zero magnitude, whatever the distance.
pub proof fn lemma_diff_equal_operands(a: StageTime, distance: u64)
    requires
        a.tenths != 0,
        distance > 0,
    ensures
        spec_diff_per_mile(a, a, distance) == (Delta { delta: 0, kind: DeltaKind::Equal }),
{
}

/// Swapping the operands of a gap swaps `Faster` and `Slower`, keeps
/// `Equal` and `Invalid`, and preserves the magnitude.
pub proof fn lemma_diff_antisymmetric(a: StageTime, b: StageTime, distance: u64)
    requires
        distance > 0,
    ensures
        spec_diff_per_mile(a, b, distance).delta == spec_diff_per_mile(b, a, distance).delta,
        spec_diff_per_mile(a, b, distance).kind == DeltaKind::Faster <==> spec_diff_per_mile(
            b,
            a,
            distance,
        ).kind == DeltaKind::Slower,
        spec_diff_per_mile(a, b, distance).kind == DeltaKind::Equal <==> spec_diff_per_mile(
            b,
            a,
            distance,
        ).kind == DeltaKind::Equal,
        spec_diff_per_mile(a, b, distance).kind == DeltaKind::Invalid <==> spec_diff_per_mile(
            b,
            a,
            distance,
        ).kind == DeltaKind::Invalid,
{
}

/// If either operand is invalid, the gap is invalid with zero
/// magnitude, regardless of the other operand and the distance.
pub proof fn lemma_diff_invalid_operand(a: StageTime, b: StageTime, distance: u64)
    requires
        a.tenths == 0 || b.tenths == 0,
        distance > 0,
    ensures
        spec_diff_per_mile(a, b, distance) == (Delta { delta: 0, kind: DeltaKind::Invalid }),
{
}

/// The sanctioning level a competitor is registered under.
#[derive(Clone, Copy, Debug, PartialEq, Eq, Structural)]
pub enum Category {
    National,
    Regional,
    RallySprint,
    RallyReadyRallySprint,
    Exhibition,
}

/// The competition class of a car.
#[derive(Clone, Copy, Debug, PartialEq, Eq, Structural)]
pub enum Class {
    O4WD,
    L4WD,
    O2WD,
    L2WD,
    RC2,
    NA4WD,
    ClassX,
}

/// The per-stage marker for a rule-based time adjustment: a red box
/// flags super-rally status, which overrides all other styling of the
/// time.
#[derive(Clone, Copy, Debug, PartialEq, Eq, Structural)]
pub enum BoxColor {
    Empty,
    Red,
}

/// One person in the identity lookup.
#[derive(Clone, Debug)]
pub struct Uid {
    pub uid: usize,
    pub first: String,
    pub last: String,
}

impl Uid {
    pub fn first_name(&self) -> (r: &str)
        ensures
            r@ == self.first@,
    {
        self.first.as_str()
    }

    pub fn last_name(&self) -> (r: &str)
        ensures
            r@ == self.last@,
    {
        self.last.as_str()
    }
}

/// One competitor's participation in a rally: identity, class and
/// category, and one slot per stage in each timing sequence.
#[derive(Clone, Debug)]
pub struct Entry {
    pub category: Category,
    pub number: usize,
    pub driver_uid: usize,
    pub codriver_uid: usize,
    pub class: Class,
    /// Stage-finish time for each stage, in stage order.
    pub times: Vec<StageTime>,
    /// Super-rally marker for each stage, in stage order.
    pub colors: Vec<BoxColor>,
    /// Recorded intermediate split times for each stage, in stage
    /// order; absent when the event published no split timing for
    /// this entry.
    pub splits: Option<Vec<Vec<StageTime>>>,
}

/// One timed competitive segment: its name, its length and the
/// distances of its intermediate timing points, all in hundredths of
/// a mile from the stage start.
#[derive(Clone, Debug)]
pub struct Stage {
    pub name: String,
    /// Stage length in hundredths of a mile.
    pub length: u64,
    /// Distances of the intermediate split points, in hundredths of a
    /// mile from the stage start; absent when the stage has no
    /// intermediate timing.
    pub splits: Option<Vec<u64>>,
}

/// One event's immutable result data.
#[derive(Clone, Debug)]
pub struct Rally {
    pub title: String,
    pub slug: String,
    pub entries: Vec<Entry>,
    pub stages: Vec<Stage>,
}

/// The stage's split distances with the stage length appended as the
/// implicit final split.
pub open spec fn stage_splits_spec(s: Stage) -> Seq<u64> {
    (match s.splits {
        Some(v) => v@,
        None => Seq::empty(),
    }) + seq![s.length]
}

/// An entry's cumulative split times for stage `i`, with the stage
/// finish time appended as the final element.
pub open spec fn entry_row(e: Entry, i: int) -> Seq<StageTime> {
    (match e.splits {
        Some(s) => s@[i]@,
        None => Seq::empty(),
    }) + seq![e.times@[i]]
}

/// Walks a cumulative split row deriving per-sector times: an invalid
/// (zero) entry passes through unchanged and leaves the accumulator
/// alone; a valid entry yields the difference from the accumulator,
/// which then becomes the new accumulator value.
pub open spec fn sector_row_from(row: Seq<StageTime>, i: int, prev: int) -> Seq<StageTime>
    decreases row.len() - i,
{
    if i < 0 || i >= row.len() {
        Seq::empty()
    } else if row[i].tenths == 0 {
        seq![row[i]] + sector_row_from(row, i + 1, prev)
    } else {
        seq![StageTime { tenths: (row[i].tenths - prev) as u64 }] + sector_row_from(
            row,
            i + 1,
            row[i].tenths - prev,
        )
    }
}

/// The per-sector times derived from a cumulative split row.
pub open spec fn sector_row(row: Seq<StageTime>) -> Seq<StageTime> {
    sector_row_from(row, 0, 0)
}

/// Whether sector derivation never underflows from position `i` on,
/// starting with the given accumulator.
pub open spec fn sector_row_ok_from(row: Seq<StageTime>, i: int, prev: int) -> bool
    decreases row.len() - i,
{
    if i < 0 || i >= row.len() {
        true
    } else if row[i].tenths == 0 {
        sector_row_ok_from(row, i + 1, prev)
    } else {
        row[i].tenths >= prev && sector_row_ok_from(row, i + 1, row[i].tenths - prev)
    }
}

/// Whether sector derivation is defined for the whole row: every
/// valid cumulative value is at least the accumulator it is diffed
/// against.
pub open spec fn sector_row_ok(row: Seq<StageTime>) -> bool {
    sector_row_ok_from(row, 0, 0)
}

/// Sector derivation keeps the length of the row.
pub proof fn lemma_sector_row_len(row: Seq<StageTime>, i: int, prev: int)
    requires
        0 <= i <= row.len(),
    ensures
        sector_row_from(row, i, prev).len() == row.len() - i,
    decreases row.len() - i,
{
    if i < row.len() {
        if row[i].tenths == 0 {
            lemma_sector_row_len(row, i + 1, prev);
        } else {
            lemma_sector_row_len(row, i + 1, row[i].tenths - prev);
        }
    }
}

/// Copies a vector of stage times.
fn copy_times(src: &Vec<StageTime>) -> (r: Vec<StageTime>)
    ensures
        r@ == src@,
{
    let mut out: Vec<StageTime> = Vec::new();
    let mut i: usize = 0;
    while i < src.len()
        invariant
            i <= src@.len(),
            out@ == src@.subrange(0, i as int),
        decreases src@.len() - i,
    {
        out.push(src[i]);
        i = i + 1;
    }
    proof {
        assert(out@ =~= src@);
    }
    out
}

/// Copies a vector of distances.
fn copy_distances(src: &Vec<u64>) -> (r: Vec<u64>)
    ensures
        r@ == src@,
{
    let mut out: Vec<u64> = Vec::new();
    let mut i: usize = 0;
    while i < src.len()
        invariant
            i <= src@.len(),
            out@ == src@.subrange(0, i as int),
        decreases src@.len() - i,
    {
        out.push(src[i]);
        i = i + 1;
    }
    proof {
        assert(out@ =~= src@);
    }
    out
}

impl Stage {
    /// Whether the stage has at least one intermediate timing point.
    pub fn has_splits(&self) -> (r: bool)
        ensures
            r == (match self.splits {
                Some(v) => v@.len() > 0,
                None => false,
            }),
    {
        match &self.splits {
            Some(v) => v.len() > 0,
            None => false,
        }
    }

    /// The split distances with the stage length appended as the
    /// implicit final split.
    pub fn splits_with_finish(&self) -> (r: Vec<u64>)
        ensures
            r@ == stage_splits_spec(*self),
    {
        let mut out = match &self.splits {
            Some(v) => copy_distances(v),
            None => Vec::new(),
        };
        out.push(self.length);
        out
    }
}

impl Entry {
    /// The driver's identity record.
    pub fn driver<'a>(&self, map: &'a UidMap) -> (r: &'a Uid)
        requires
            map@.contains_key(self.driver_uid),
        ensures
            *r == map@[self.driver_uid],
    {
        map.get(&self.driver_uid).unwrap()
    }

    /// The co-driver's identity record.
    pub fn codriver<'a>(&self, map: &'a UidMap) -> (r: &'a Uid)
        requires
            map@.contains_key(self.codriver_uid),
        ensures
            *r == map@[self.codriver_uid],
    {
        map.get(&self.codriver_uid).unwrap()
    }

    /// Renders the team label: the driver's and the co-driver's last
    /// names, separated by a slash.
    pub fn names(&self, map: &UidMap) -> (r: String)
        requires
            map@.contains_key(self.driver_uid),
            map@.contains_key(self.codriver_uid),
        ensures
            r@ == names_chars(*self, map@),
    {
        proof {
            reveal_strlit("/");
        }
        let mut out = String::new();
        out.append(self.driver(map).last_name());
        out.append("/");
        out.append(self.codriver(map).last_name());
        proof {
            assert(out@ =~= names_chars(*self, map@));
        }
        out
    }

    /// The cumulative split times for every stage, each row with the
    /// stage finish time appended as its final element. An entry
    /// without published split timing yields one-element rows holding
    /// only the finish times.
    pub fn splits_with_finish(&self) -> (r: Vec<Vec<StageTime>>)
        requires
            self.splits matches Some(s) ==> s@.len() == self.times@.len(),
        ensures
            r@.len() == self.times@.len(),
            forall|i: int| 0 <= i < r@.len() ==> #[trigger] r@[i]@ == entry_row(*self, i),
    {
        let n = self.times.len();
        let mut out: Vec<Vec<StageTime>> = Vec::new();
        let mut i: usize = 0;
        while i < n
            invariant
                i <= n,
                n == self.times@.len(),
                self.splits matches Some(s) ==> s@.len() == n,
                out@.len() == i,
                forall|k: int| 0 <= k < i ==> #[trigger] out@[k]@ == entry_row(*self, k),
            decreases n - i,
        {
            let mut row: Vec<StageTime> = match &self.splits {
                Some(s) => copy_times(&s[i]),
                None => Vec::new(),
            };
            row.push(self.times[i]);
            proof {
                assert(row@ =~= entry_row(*self, i as int));
            }
            out.push(row);
            i = i + 1;
        }
        out
    }

    /// The per-sector times for every stage, derived from the
    /// cumulative rows of `splits_with_finish`: each element is the
    /// difference between its cumulative value and the previously
    /// derived sector value, invalid entries passing through
    /// unchanged. The caller must know that no difference underflows.
    pub fn sectors_with_finish(&self) -> (r: Vec<Vec<StageTime>>)
        requires
            self.splits matches Some(s) ==> s@.len() == self.times@.len(),
            forall|i: int| 0 <= i < self.times@.len() ==> sector_row_ok(#[trigger] entry_row(*self, i)),
        ensures
            r@.len() == self.times@.len(),
            forall|i: int| 0 <= i < r@.len() ==> #[trigger] r@[i]@ == sector_row(entry_row(*self, i)),
    {
        let rows = self.splits_with_finish();
        let n = rows.len();
        let mut out: Vec<Vec<StageTime>> = Vec::new();
        let mut i: usize = 0;
        while i < n
            invariant
                i <= n,
                n == rows@.len(),
                rows@.len() == self.times@.len(),
                forall|k: int| 0 <= k < n ==> #[trigger] rows@[k]@ == entry_row(*self, k),
                forall|k: int| 0 <= k < self.times@.len() ==> sector_row_ok(
                    #[trigger] entry_row(*self, k),
                ),
                out@.len() == i,
                forall|k: int| 0 <= k < i ==> #[trigger] out@[k]@ == sector_row(entry_row(*self, k)),
            decreases n - i,
        {
            let row = derive_sectors(&rows[i]);
            out.push(row);
            i = i + 1;
        }
        out
    }
}

/// The team label: driver's and co-driver's last names separated by a
/// slash.
pub open spec fn names_chars(e: Entry, m: Map<usize, Uid>) -> Seq<char> {
    m[e.driver_uid].last@ + seq!['/'] + m[e.codriver_uid].last@
}

/// Derives the per-sector times of one cumulative split row.
pub fn derive_sectors(row: &Vec<StageTime>) -> (r: Vec<StageTime>)
    requires
        sector_row_ok(row@),
    ensures
        r@ == sector_row(row@),
        r@.len() == row@.len(),
{
    let mut out: Vec<StageTime> = Vec::new();
    let mut prev: u64 = 0;
    let mut i: usize = 0;
    proof {
        lemma_sector_row_len(row@, 0, 0);
    }
    while i < row.len()
        invariant
            i <= row@.len(),
            sector_row_ok_from(row@, i as int, prev as int),
            sector_row(row@) == out@ + sector_row_from(row@, i as int, prev as int),
            out@.len() == i,
        decreases row@.len() - i,
    {
        let t = row[i];
        if t.tenths == 0 {
            out.push(t);
        } else {
            let d = t.tenths - prev;
            out.push(StageTime { tenths: d });
            prev = d;
        }
        proof {
            assert(sector_row(row@) =~= out@ + sector_row_from(
                row@,
                i as int + 1,
                prev as int,
            ));
        }
        i = i + 1;
    }
    proof {
        assert(sector_row(row@) =~= out@);
    }
    out
}

impl Rally {
    /// The first entry racing under the given competitor number, if
    /// any.
    pub fn entry_by_driver_number<'a>(&'a self, number: usize) -> (r: Option<&'a Entry>)
        ensures
            match r {
                Some(e) => find_entry(self.entries@, number) == Some(*e),
                None => find_entry(self.entries@, number) is None,
            },
    {
        let n = self.entries.len();
        let mut i: usize = 0;
        proof {
            assert(self.entries@.skip(0) =~= self.entries@);
        }
        while i < n
            invariant
                i <= n,
                n == self.entries@.len(),
                find_entry(self.entries@, number) == find_entry(
                    self.entries@.skip(i as int),
                    number,
                ),
            decreases n - i,
        {
            proof {
                assert(self.entries@.skip(i as int).drop_first() =~= self.entries@.skip(
                    i as int + 1,
                ));
                assert(self.entries@.skip(i as int)[0] == self.entries@[i as int]);
            }
            if self.entries[i].number == number {
                return Some(&self.entries[i]);
            }
            i = i + 1;
        }
        None
    }
}

/// The first entry in the sequence racing under the given competitor
/// number.
pub open spec fn find_entry(entries: Seq<Entry>, number: usize) -> Option<Entry>
    decreases entries.len(),
{
    if entries.len() == 0 {
        None
    } else if entries[0].number == number {
        Some(entries[0])
    } else {
        find_entry(entries.drop_first(), number)
    }
}

/// An entry's split row for a stage always holds one element more
/// than its recorded intermediate splits, and its last element is the
/// stage finish time.
pub proof fn lemma_entry_row_shape(e: Entry, i: int)
    requires
        0 <= i,
        e.splits matches Some(s) ==> i < s@.len(),
    ensures
        entry_row(e, i).len() == 1 + (match e.splits {
            Some(s) => s@[i]@.len(),
            None => 0,
        }),
        entry_row(e, i).last() == e.times@[i],
{
}

/// A stage's split-distance row always holds one element more than
/// its intermediate splits, and its last element is the stage length.
pub proof fn lemma_stage_splits_shape(s: Stage)
    ensures
        stage_splits_spec(s).len() == 1 + (match s.splits {
            Some(sp) => sp@.len(),
            None => 0,
        }),
        stage_splits_spec(s).last() == s.length,
{
}

/// The split distance that precedes split `j`: the previous split's
/// distance, or zero for the first split.
pub open spec fn prev_split(sp: Seq<u64>, j: int) -> u64 {
    if j == 0 {
        0
    } else {
        sp[j - 1]
    }
}

/// An entry is well formed for a rally of `n_stages` stages: every
/// per-stage sequence has one slot per stage, and sector derivation
/// is defined for every stage's split row.
pub open spec fn entry_wf(e: Entry, n_stages: nat) -> bool {
    &&& e.times@.len() == n_stages
    &&& e.colors@.len() == n_stages
    &&& (e.splits matches Some(s) ==> s@.len() == n_stages)
    &&& forall|i: int| 0 <= i < n_stages ==> sector_row_ok(#[trigger] entry_row(e, i))
}

/// A stage is well formed: its length is positive and its split
/// distances are strictly increasing and strictly inside the stage.
pub open spec fn stage_wf(s: Stage) -> bool {
    &&& s.length > 0
    &&& (s.splits matches Some(sp) ==> forall|j: int|
        0 <= j < sp@.len() ==> sp@[j] > #[trigger] prev_split(sp@, j) && sp@[j] < s.length)
}

/// A rally is well formed: every stage and every entry is.
pub open spec fn rally_wf(r: Rally) -> bool {
    &&& forall|i: int| 0 <= i < r.stages@.len() ==> stage_wf(#[trigger] r.stages@[i])
    &&& forall|i: int|
        0 <= i < r.entries@.len() ==> entry_wf(#[trigger] r.entries@[i], r.stages@.len())
}

/// The rally is small enough for the report's cell coordinates: rows
/// fit in 32 bits and columns in 16 bits.
pub open spec fn rally_fits(r: Rally) -> bool {
    &&& r.stages@.len() <= 0xFFFF_FFFD
    &&& r.entries@.len() <= 32765
    &&& forall|i: int|
        0 <= i < r.stages@.len() ==> (match (#[trigger] r.stages@[i]).splits {
            Some(sp) => sp@.len() <= 21843,
            None => true,
        })
}

/// The identity lookup covers every driver and co-driver id that the
/// rally's entries reference.
pub open spec fn uids_ok(r: Rally, m: Map<usize, Uid>) -> bool {
    forall|i: int|
        0 <= i < r.entries@.len() ==> m.contains_key(
            (#[trigger] r.entries@[i]).driver_uid,
        ) && m.contains_key(r.entries@[i].codriver_uid)
}

/// Decides whether sector derivation is defined for one cumulative
/// split row.
pub fn check_sector_row_ok(row: &Vec<StageTime>) -> (b: bool)
    ensures
        b == sector_row_ok(row@),
{
    let mut prev: u64 = 0;
    let mut i: usize = 0;
    while i < row.len()
        invariant
            i <= row@.len(),
            sector_row_ok(row@) == sector_row_ok_from(row@, i as int, prev as int),
        decreases row@.len() - i,
    {
        let t = row[i];
        if t.tenths != 0 {
            if t.tenths < prev {
                return false;
            }
            prev = t.tenths - prev;
        }
        i = i + 1;
    }
    true
}

impl Entry {
    /// Decides whether this entry is well formed for a rally of
    /// `n_stages` stages.
    pub fn is_well_formed(&self, n_stages: usize) -> (b: bool)
        ensures
            b == entry_wf(*self, n_stages as nat),
    {
        if self.times.len() != n_stages {
            return false;
        }
        if self.colors.len() != n_stages {
            return false;
        }
        match &self.splits {
            Some(s) => {
                if s.len() != n_stages {
                    return false;
                }
            },
            None => {},
        }
        let rows = self.splits_with_finish();
        let mut i: usize = 0;
        while i < rows.len()
            invariant
                i <= rows@.len(),
                rows@.len() == n_stages,
                n_stages == self.times@.len(),
                forall|k: int| 0 <= k < rows@.len() ==> #[trigger] rows@[k]@ == entry_row(*self, k),
                forall|k: int| 0 <= k < i ==> sector_row_ok(#[trigger] entry_row(*self, k)),
            decreases rows@.len() - i,
        {
            if !check_sector_row_ok(&rows[i]) {
                return false;
            }
            i = i + 1;
        }
        true
    }
}

/// Decides whether a split-distance sequence is strictly increasing
/// and strictly inside a stage of the given length.
fn check_splits_increasing(sp: &Vec<u64>, length: u64) -> (b: bool)
    ensures
        b == (forall|j: int|
            0 <= j < sp@.len() ==> sp@[j] > #[trigger] prev_split(sp@, j) && sp@[j] < length),
{
    let mut prev: u64 = 0;
    let mut j: usize = 0;
    while j < sp.len()
        invariant
            j <= sp@.len(),
            prev == prev_split(sp@, j as int),
            forall|k: int| 0 <= k < j ==> sp@[k] > #[trigger] prev_split(sp@, k) && sp@[k] < length,
        decreases sp@.len() - j,
    {
        if sp[j] <= prev {
            proof {
                assert(!(sp@[j as int] > prev_split(sp@, j as int)));
            }
            return false;
        }
        if sp[j] >= length {
            proof {
                assert(!(sp@[j as int] < length));
            }
            return false;
        }
        prev = sp[j];
        j = j + 1;
    }
    true
}

impl Stage {
    /// Decides whether this stage is well formed.
    pub fn is_well_formed(&self) -> (b: bool)
        ensures
            b == stage_wf(*self),
    {
        if self.length == 0 {
            return false;
        }
        match &self.splits {
            Some(sp) => check_splits_increasing(sp, self.length),
            None => true,
        }
    }
}

impl Rally {
    /// Decides whether the whole rally is well formed and small
    /// enough for the report's cell coordinates.
    pub fn is_well_formed(&self) -> (b: bool)
        ensures
            b == (rally_wf(*self) && rally_fits(*self)),
    {
        let n_stages = self.stages.len();
        if n_stages > 0xFFFF_FFFD {
            return false;
        }
        if self.entries.len() > 32765 {
            return false;
        }
        let mut i: usize = 0;
        while i < self.stages.len()
            invariant
                i <= self.stages@.len(),
                n_stages == self.stages@.len(),
                forall|k: int| 0 <= k < i ==> stage_wf(#[trigger] self.stages@[k]),
                forall|k: int|
                    0 <= k < i ==> (match (#[trigger] self.stages@[k]).splits {
                        Some(sp) => sp@.len() <= 21843,
                        None => true,
                    }),
            decreases self.stages@.len() - i,
        {
            if !self.stages[i].is_well_formed() {
                return false;
            }
            match &self.stages[i].splits {
                Some(sp) => {
                    if sp.len() > 21843 {
                        return false;
                    }
                },
                None => {},
            }
            i = i + 1;
        }
        let mut e: usize = 0;
        while e < self.entries.len()
            invariant
                e <= self.entries@.len(),
                n_stages == self.stages@.len(),
                forall|k: int| 0 <= k < e ==> entry_wf(#[trigger] self.entries@[k], n_stages as nat),
            decreases self.entries@.len() - e,
        {
            if !self.entries[e].is_well_formed(n_stages) {
                return false;
            }
            e = e + 1;
        }
        true
    }

    /// Decides whether the identity lookup covers every id that this
    /// rally's entries reference.
    pub fn uids_complete(&self, map: &UidMap) -> (b: bool)
        ensures
            b == uids_ok(*self, map@),
    {
        let mut i: usize = 0;
        while i < self.entries.len()
            invariant
                i <= self.entries@.len(),
                forall|k: int|
                    0 <= k < i ==> map@.contains_key(
                        (#[trigger] self.entries@[k]).driver_uid,
                    ) && map@.contains_key(self.entries@[k].codriver_uid),
            decreases self.entries@.len() - i,
        {
            if !map.contains_key(&self.entries[i].driver_uid) {
                return false;
            }
            if !map.contains_key(&self.entries[i].codriver_uid) {
                return false;
            }
            i = i + 1;
        }
        true
    }
}

} // verus!
