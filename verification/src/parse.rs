//! The restriction grammar: time-of-day tokens `HH:MM`, window tokens
//! `HH:MM-HH:MM`, and duration tokens `<decimal><h|m>`.
//!
//! Every parser consumes its whole input and rejects anything else with a
//! `ConfigError`.

use vstd::prelude::*;
use vstd::arithmetic::div_mod::lemma_div_denominator;
use vstd::arithmetic::div_mod::lemma_hoist_over_denominator;
use crate::config::ConfigError;
use crate::config::DurationUnit;
use crate::config::StaticDuration;
use crate::MINUTES_PER_DAY;

verus! {

/// A decimal digit.
pub open spec fn is_digit(c: char) -> bool {
    48 <= c as u32 && c as u32 <= 57
}

/// The numeric value of a decimal digit.
pub open spec fn digit_val(c: char) -> int {
    c as u32 - 48
}

/// The value of a digit string read in base ten; 0 for the empty string.
pub open spec fn digits_val(s: Seq<char>) -> int
    decreases s.len(),
{
    if s.len() == 0 {
        0
    } else {
        digits_val(s.drop_last()) * 10 + digit_val(s.last())
    }
}

/// Whether every character of `s` is a decimal digit.
pub open spec fn all_digits(s: Seq<char>) -> bool {
    forall|i: int| 0 <= i < s.len() ==> is_digit(#[trigger] s[i])
}

/// Ten to the `n`.
pub open spec fn pow10(n: nat) -> int
    decreases n,
{
    if n == 0 {
        1
    } else {
        10 * pow10((n - 1) as nat)
    }
}

/// The value a `HH:MM` token denotes, in minutes since midnight: exactly
/// two digits, a colon, and two digits, with hours below 24 and minutes
/// below 60.  `None` on anything else.
pub open spec fn spec_time_minutes(s: Seq<char>) -> Option<u32> {
    if s.len() == 5 && is_digit(s[0]) && is_digit(s[1]) && s[2] == ':' && is_digit(s[3])
        && is_digit(s[4]) {
        let h = digit_val(s[0]) * 10 + digit_val(s[1]);
        let m = digit_val(s[3]) * 10 + digit_val(s[4]);
        if h <= 23 && m <= 59 {
            Some((h * 60 + m) as u32)
        } else {
            None
        }
    } else {
        None
    }
}

/// Reads a digit, or fails.
fn digit_of(c: char) -> (r: Result<u32, ConfigError>)
    ensures
        match r {
            Ok(v) => is_digit(c) && v == digit_val(c),
            Err(e) => !is_digit(c) && e == ConfigError::BadTime,
        },
{
    let u = c as u32;
    if 48 <= u && u <= 57 {
        Ok(u - 48)
    } else {
        Err(ConfigError::BadTime)
    }
}

/// Parses a `HH:MM` token to minutes since midnight.
pub fn parse_time(s: &str) -> (r: Result<u32, ConfigError>)
    ensures
        match r {
            Ok(v) => spec_time_minutes(s@) == Some(v) && v < MINUTES_PER_DAY,
            Err(e) => spec_time_minutes(s@) is None && e == ConfigError::BadTime,
        },
{
    if s.unicode_len() != 5 {
        return Err(ConfigError::BadTime);
    }
    if s.get_char(2) != ':' {
        return Err(ConfigError::BadTime);
    }
    let h1 = digit_of(s.get_char(0))?;
    let h2 = digit_of(s.get_char(1))?;
    let m1 = digit_of(s.get_char(3))?;
    let m2 = digit_of(s.get_char(4))?;
    let h = h1 * 10 + h2;
    let m = m1 * 10 + m2;
    if h > 23 || m > 59 {
        return Err(ConfigError::BadTime);
    }
    Ok(h * 60 + m)
}

/// The window a `HH:MM-HH:MM` token denotes.
pub open spec fn spec_window(s: Seq<char>) -> Option<StaticDuration> {
    if s.len() == 11 && s[5] == '-' && spec_time_minutes(s.subrange(0, 5)) is Some
        && spec_time_minutes(s.subrange(6, 11)) is Some {
        Some(
            StaticDuration {
                begin: spec_time_minutes(s.subrange(0, 5))->0,
                end: spec_time_minutes(s.subrange(6, 11))->0,
            },
        )
    } else {
        None
    }
}

/// Parses a `HH:MM-HH:MM` window token.
pub fn parse_static_duration(s: &str) -> (r: Result<StaticDuration, ConfigError>)
    ensures
        match r {
            Ok(w) => spec_window(s@) == Some(w) && w.wf(),
            Err(e) => spec_window(s@) is None && (e == ConfigError::BadWindow || e
                == ConfigError::BadTime),
        },
{
    if s.unicode_len() != 11 {
        return Err(ConfigError::BadWindow);
    }
    if s.get_char(5) != '-' {
        return Err(ConfigError::BadWindow);
    }
    let begin = parse_time(s.substring_char(0, 5))?;
    let end = parse_time(s.substring_char(6, 11))?;
    Ok(StaticDuration { begin, end })
}

/// How many minutes a duration token denotes: a non-empty run of digits,
/// an optional `.` with a possibly empty run of digits, and a unit, `h` or
/// `m`.  Sub-minute precision is discarded: for `m` the value is truncated
/// to whole minutes, and for `h` the whole part counts as hours while the
/// fractional part contributes `trunc(fraction * 60)` minutes.
pub open spec fn spec_duration_minutes(s: Seq<char>) -> Option<int> {
    if s.len() < 2 {
        None
    } else if s[s.len() - 1] != 'h' && s[s.len() - 1] != 'm' {
        None
    } else {
        let body = s.subrange(0, s.len() - 1);
        let hours = s[s.len() - 1] == 'h';
        if all_digits(body) {
            if hours {
                Some(digits_val(body) * 60)
            } else {
                Some(digits_val(body))
            }
        } else {
            spec_duration_split(body, hours)
        }
    }
}

/// The mixed `whole.fraction` case of the duration body.
pub open spec fn spec_duration_split(body: Seq<char>, hours: bool) -> Option<int> {
    if exists|k: int|
        0 < k < body.len() && body[k] == '.' && all_digits(#[trigger] body.subrange(0, k))
            && all_digits(body.subrange(k + 1, body.len() as int)) {
        let k = choose|k: int|
            0 < k < body.len() && body[k] == '.' && all_digits(#[trigger] body.subrange(0, k))
                && all_digits(body.subrange(k + 1, body.len() as int));
        let whole = body.subrange(0, k);
        let frac = body.subrange(k + 1, body.len() as int);
        if hours {
            Some(digits_val(whole) * 60 + (digits_val(frac) * 60) / pow10(frac.len()))
        } else {
            Some(digits_val(whole))
        }
    } else {
        None
    }
}

/// Whether the token is well-formed and its value fits the engine's range.
pub open spec fn spec_duration_ok(s: Seq<char>) -> bool {
    match spec_duration_minutes(s) {
        Some(v) => v <= u64::MAX,
        None => false,
    }
}

/// `digits_val` read from the front: the first digit weighs a power of
/// ten.
proof fn lemma_digits_val_front(s: Seq<char>)
    requires
        s.len() > 0,
    ensures
        digits_val(s) == digit_val(s[0]) * pow10((s.len() - 1) as nat) + digits_val(
            s.drop_first(),
        ),
    decreases s.len(),
{
    if s.len() == 1 {
        assert(s.drop_first().len() == 0);
        assert(s.drop_last().len() == 0);
        assert(digits_val(s.drop_first()) == 0);
        assert(digits_val(s.drop_last()) == 0);
        assert(digits_val(s) == digit_val(s.last()));
        assert(s.last() == s[0]);
        assert(pow10((s.len() - 1) as nat) == 1);
    } else {
        lemma_digits_val_front(s.drop_last());
        assert(s.drop_last().drop_first() =~= s.drop_first().drop_last());
        assert(s.drop_last()[0] == s[0]);
        assert(s.drop_first().last() == s.last());
        assert(digits_val(s.drop_first()) == digits_val(s.drop_first().drop_last()) * 10
            + digit_val(s.drop_first().last()));
        assert(digits_val(s) == digits_val(s.drop_last()) * 10 + digit_val(s.last()));
        assert(pow10((s.len() - 1) as nat) == 10 * pow10((s.len() - 2) as nat));
        let d0 = digit_val(s[0]);
        let p = pow10((s.len() - 2) as nat);
        assert(d0 * (10 * p) == d0 * p * 10) by (nonlinear_arith);
        assert(digits_val(s.drop_last()) == d0 * p + digits_val(s.drop_first().drop_last()));
        assert((d0 * p + digits_val(s.drop_first().drop_last())) * 10 == d0 * p * 10
            + digits_val(s.drop_first().drop_last()) * 10) by (nonlinear_arith);
        assert(digits_val(s) == d0 * p * 10 + digits_val(s.drop_first().drop_last()) * 10
            + digit_val(s.last()));
        assert(digits_val(s.drop_first()) == digits_val(s.drop_first().drop_last()) * 10
            + digit_val(s.drop_first().last()));
        assert(digit_val(s.drop_first().last()) == digit_val(s.last()));
        assert(digit_val(s[0]) * pow10((s.len() - 1) as nat) == d0 * p * 10);
    }
}

/// A digit string's value is non-negative.
proof fn lemma_digits_val_nonneg(s: Seq<char>)
    requires
        all_digits(s),
    ensures
        digits_val(s) >= 0,
    decreases s.len(),
{
    if s.len() > 0 {
        assert(all_digits(s.drop_last())) by {
            assert(forall|i: int|
                0 <= i < s.drop_last().len() ==> s.drop_last()[i] == s[i]);
        }
        lemma_digits_val_nonneg(s.drop_last());
        assert(is_digit(s.last()));
    }
}

/// Ten to the `n` is positive.
proof fn lemma_pow10_pos(n: nat)
    ensures
        pow10(n) >= 1,
    decreases n,
{
    if n > 0 {
        lemma_pow10_pos((n - 1) as nat);
    }
}

/// A slice of a digit string is a digit string.
proof fn lemma_all_digits_subrange(s: Seq<char>, a: int, b: int)
    requires
        all_digits(s),
        0 <= a <= b <= s.len(),
    ensures
        all_digits(s.subrange(a, b)),
{
    assert forall|i: int| 0 <= i < s.subrange(a, b).len() implies is_digit(
        #[trigger] s.subrange(a, b)[i],
    ) by {
        assert(s.subrange(a, b)[i] == s[a + i]);
    }
}

/// Reading more digits never shrinks the value.
proof fn lemma_digits_val_prefix_mono(s: Seq<char>, i: int, j: int)
    requires
        all_digits(s),
        0 <= i <= j <= s.len(),
    ensures
        digits_val(s.subrange(0, i)) <= digits_val(s.subrange(0, j)),
    decreases j - i,
{
    if i < j {
        lemma_digits_val_prefix_mono(s, i, j - 1);
        assert(s.subrange(0, j).drop_last() =~= s.subrange(0, j - 1));
        lemma_all_digits_subrange(s, 0, j - 1);
        lemma_digits_val_nonneg(s.subrange(0, j - 1));
        assert(is_digit(s[j - 1]));
        assert(s.subrange(0, j).last() == s[j - 1]);
        assert(digits_val(s.subrange(0, j)) == digits_val(s.subrange(0, j - 1)) * 10
            + digit_val(s[j - 1]));
        assert(digits_val(s.subrange(0, j - 1)) * 10 >= digits_val(s.subrange(0, j - 1)));
    }
}

/// The fractional carry: multiplying the decimal fraction `0.s` by 60 and
/// truncating, computed digit by digit from the right.
pub open spec fn carry60(s: Seq<char>) -> int
    decreases s.len(),
{
    if s.len() == 0 {
        0
    } else {
        (digit_val(s.first()) * 60 + carry60(s.drop_first())) / 10
    }
}

/// The carry computation equals `trunc(60 * fraction)`.
proof fn lemma_carry60(s: Seq<char>)
    requires
        all_digits(s),
    ensures
        carry60(s) == (digits_val(s) * 60) / pow10(s.len()),
    decreases s.len(),
{
    if s.len() == 0 {
    } else {
        let t = s.drop_first();
        assert(all_digits(t)) by {
            assert(forall|i: int| 0 <= i < t.len() ==> t[i] == s[i + 1]);
        }
        lemma_carry60(t);
        let p = pow10(t.len());
        let d0 = digit_val(s[0]);
        lemma_pow10_pos(t.len());
        lemma_digits_val_nonneg(t);
        lemma_digits_val_nonneg(s);
        lemma_digits_val_front(s);
        assert(digits_val(s) == d0 * p + digits_val(t));
        // hoist the whole part of the fraction over the denominator
        lemma_hoist_over_denominator(digits_val(t) * 60, d0 * 60, p as nat);
        assert(d0 * 60 + (digits_val(t) * 60) / p == (digits_val(t) * 60 + (d0 * 60) * p) / p);
        assert(digits_val(s) * 60 == digits_val(t) * 60 + (d0 * 60) * p) by (nonlinear_arith)
            requires
                digits_val(s) == d0 * p + digits_val(t),
        ;
        assert(digits_val(s) * 60 >= 0) by (nonlinear_arith)
            requires
                digits_val(s) >= 0,
        ;
        lemma_div_denominator(digits_val(s) * 60, p, 10);
        assert((digits_val(s) * 60) / p / 10 == (digits_val(s) * 60) / (p * 10));
        assert(pow10(s.len()) == 10 * p);
        assert(carry60(s) == (d0 * 60 + carry60(t)) / 10);
    }
}

/// Counts the digits of `s` from `from` up to at most `to`.
fn scan_digits(s: &str, from: usize, to: usize) -> (r: usize)
    requires
        from <= to <= s@.len(),
    ensures
        from <= r <= to,
        forall|i: int| from <= i < r ==> is_digit(#[trigger] s@[i]),
        r < to ==> !is_digit(s@[r as int]),
{
    let mut i: usize = from;
    while i < to
        invariant
            from <= i <= to <= s@.len(),
            forall|j: int| from <= j < i ==> is_digit(#[trigger] s@[j]),
        decreases to - i,
    {
        let c = s.get_char(i);
        let u = c as u32;
        if !(48 <= u && u <= 57) {
            return i;
        }
        i = i + 1;
    }
    i
}

/// Reads the digit run `s[from..to]` as a base-ten number, or reports that
/// it does not fit in a `u64`.
fn digits_to_u64(s: &str, from: usize, to: usize) -> (r: Option<u64>)
    requires
        from <= to <= s@.len(),
        all_digits(s@.subrange(from as int, to as int)),
    ensures
        match r {
            Some(v) => v as int == digits_val(s@.subrange(from as int, to as int)),
            None => digits_val(s@.subrange(from as int, to as int)) > u64::MAX,
        },
{
    let ghost t = s@.subrange(from as int, to as int);
    let mut acc: u64 = 0;
    let mut i: usize = from;
    while i < to
        invariant
            from <= i <= to <= s@.len(),
            t == s@.subrange(from as int, to as int),
            all_digits(t),
            acc as int == digits_val(t.subrange(0, i - from)),
        decreases to - i,
    {
        let c = s.get_char(i);
        proof {
            assert(t[i - from] == s@[i as int]);
            assert(is_digit(c));
        }
        let d = (c as u32 - 48) as u64;
        let ghost prefix = t.subrange(0, i + 1 - from);
        proof {
            assert(prefix.drop_last() =~= t.subrange(0, i - from));
            assert(prefix.last() == t[i - from]);
            assert(digits_val(prefix) == acc as int * 10 + d);
        }
        let acc10 = match acc.checked_mul(10) {
            Some(x) => x,
            None => {
                proof {
                    lemma_digits_val_prefix_mono(t, i + 1 - from, t.len() as int);
                    assert(t.subrange(0, t.len() as int) =~= t);
                }
                return None;
            },
        };
        let next = match acc10.checked_add(d) {
            Some(x) => x,
            None => {
                proof {
                    lemma_digits_val_prefix_mono(t, i + 1 - from, t.len() as int);
                    assert(t.subrange(0, t.len() as int) =~= t);
                }
                return None;
            },
        };
        acc = next;
        i = i + 1;
    }
    proof {
        assert(t.subrange(0, (to - from) as int) =~= t);
    }
    Some(acc)
}

/// Multiplies the decimal fraction `0.s[from..to]` by 60 and truncates.
fn frac_carry(s: &str, from: usize, to: usize) -> (r: u32)
    requires
        from <= to <= s@.len(),
        all_digits(s@.subrange(from as int, to as int)),
    ensures
        r as int == carry60(s@.subrange(from as int, to as int)),
        r <= 59,
{
    let ghost t = s@.subrange(from as int, to as int);
    let mut c: u32 = 0;
    let mut i: usize = to;
    while i > from
        invariant
            from <= i <= to <= s@.len(),
            t == s@.subrange(from as int, to as int),
            all_digits(t),
            c as int == carry60(t.subrange(i - from, t.len() as int)),
            c <= 59,
        decreases i - from,
    {
        i = i - 1;
        let ch = s.get_char(i);
        proof {
            assert(t[i - from] == s@[i as int]);
            assert(is_digit(ch));
        }
        let d = ch as u32 - 48;
        let ghost rest = t.subrange(i - from, t.len() as int);
        proof {
            assert(rest.first() == t[i - from]);
            assert(rest.drop_first() =~= t.subrange(i + 1 - from, t.len() as int));
        }
        c = (d * 60 + c) / 10;
    }
    proof {
        assert(t.subrange(0, t.len() as int) =~= t);
    }
    c
}

/// Parses a duration token to whole minutes.
pub fn parse_duration(s: &str) -> (r: Result<u64, ConfigError>)
    ensures
        match r {
            Ok(v) => spec_duration_minutes(s@) == Some(v as int),
            Err(e) => !spec_duration_ok(s@) && e == ConfigError::BadDuration,
        },
{
    let n = s.unicode_len();
    if n < 2 {
        return Err(ConfigError::BadDuration);
    }
    let unit = match s.get_char(n - 1) {
        'h' => DurationUnit::Hours,
        'm' => DurationUnit::Minutes,
        _ => {
            return Err(ConfigError::BadDuration);
        },
    };
    let hours = match unit {
        DurationUnit::Hours => true,
        DurationUnit::Minutes => false,
    };
    let ghost body = s@.subrange(0, n - 1);
    let w = scan_digits(s, 0, n - 1);
    proof {
        assert(forall|i: int| 0 <= i < body.len() ==> body[i] == s@[i]);
    }
    if w == 0 {
        proof {
            assert(!is_digit(s@[0]));
            assert(body[0] == s@[0]);
            assert(!is_digit(body[0]));
            lemma_no_duration_split(body, 0);
            assert(!all_digits(body));
        }
        return Err(ConfigError::BadDuration);
    }
    if w == n - 1 {
        // purely whole digits
        proof {
            assert(all_digits(body));
        }
        let v = match digits_to_u64(s, 0, n - 1) {
            Some(v) => v,
            None => {
                proof {
                    lemma_digits_val_nonneg(body);
                    assert(digits_val(body) * 60 >= digits_val(body));
                }
                return Err(ConfigError::BadDuration);
            },
        };
        if hours {
            match v.checked_mul(60) {
                Some(total) => {
                    return Ok(total);
                },
                None => {
                    proof {
                        lemma_digits_val_nonneg(body);
                    }
                    return Err(ConfigError::BadDuration);
                },
            }
        } else {
            return Ok(v);
        }
    }
    // mixed form: digits, a dot, digits
    if s.get_char(w) != '.' {
        proof {
            assert(!is_digit(body[w as int]));
            assert(!all_digits(body));
            lemma_no_duration_split(body, w as int);
        }
        return Err(ConfigError::BadDuration);
    }
    let frac_end = scan_digits(s, w + 1, n - 1);
    if frac_end < n - 1 {
        proof {
            assert(!is_digit(body[w as int]));
            assert(!all_digits(body));
            lemma_unique_duration_split(body, w as int);
            if spec_duration_split(body, hours) is Some {
                let k = choose|k: int|
                    0 < k < body.len() && body[k] == '.' && all_digits(
                        #[trigger] body.subrange(0, k),
                    ) && all_digits(body.subrange(k + 1, body.len() as int));
                assert(k == w);
                assert(body.subrange(k + 1, body.len() as int)[frac_end - (w + 1)] == body[
                    frac_end as int
                ]);
                assert(false);
            }
        }
        return Err(ConfigError::BadDuration);
    }
    proof {
        assert(!is_digit(body[w as int]));
        assert(!all_digits(body));
        lemma_unique_duration_split(body, w as int);
        assert(all_digits(body.subrange(0, w as int)));
        assert forall|i: int| 0 <= i < body.subrange(w + 1, body.len() as int).len() implies
            is_digit(#[trigger] body.subrange(w + 1, body.len() as int)[i]) by {
            assert(body.subrange(w + 1, body.len() as int)[i] == s@[w + 1 + i]);
        }
        assert(all_digits(body.subrange(w + 1, body.len() as int)));
        assert(spec_duration_split(body, hours) is Some);
        let k = choose|k: int|
            0 < k < body.len() && body[k] == '.' && all_digits(#[trigger] body.subrange(0, k))
                && all_digits(body.subrange(k + 1, body.len() as int));
        assert(k == w);
        assert(body.subrange(0, w as int) =~= s@.subrange(0, w as int));
        assert(body.subrange(w + 1, body.len() as int) =~= s@.subrange(w + 1, n - 1));
    }
    let whole = match digits_to_u64(s, 0, w) {
        Some(v) => v,
        None => {
            proof {
                lemma_split_value_exceeds(body, w as int, hours);
            }
            return Err(ConfigError::BadDuration);
        },
    };
    if !hours {
        return Ok(whole);
    }
    let base = match whole.checked_mul(60) {
        Some(x) => x,
        None => {
            proof {
                lemma_split_value_exceeds(body, w as int, hours);
            }
            return Err(ConfigError::BadDuration);
        },
    };
    proof {
        assert(all_digits(s@.subrange(w + 1, n - 1)));
    }
    let fm = frac_carry(s, w + 1, n - 1);
    proof {
        lemma_carry60(s@.subrange(w + 1, n - 1));
        lemma_digits_val_nonneg(s@.subrange(w + 1, n - 1));
        lemma_pow10_pos(s@.subrange(w + 1, n - 1).len());
    }
    match base.checked_add(fm as u64) {
        Some(total) => Ok(total),
        None => {
            proof {
                lemma_split_value_exceeds(body, w as int, hours);
            }
            Err(ConfigError::BadDuration)
        },
    }
}

/// When the first character of the body is not a digit, no split of the
/// body fits the grammar.
proof fn lemma_no_duration_split(body: Seq<char>, w: int)
    requires
        0 <= w < body.len(),
        forall|i: int| 0 <= i < w ==> is_digit(#[trigger] body[i]),
        !is_digit(body[w]),
        w > 0 ==> body[w] != '.',
    ensures
        spec_duration_split(body, true) is None,
        spec_duration_split(body, false) is None,
{
    assert((spec_duration_split(body, true) is None) && (spec_duration_split(body, false)
        is None)) by {
        if exists|k: int|
            0 < k < body.len() && body[k] == '.' && all_digits(#[trigger] body.subrange(0, k))
                && all_digits(body.subrange(k + 1, body.len() as int)) {
            let k = choose|k: int|
                0 < k < body.len() && body[k] == '.' && all_digits(
                    #[trigger] body.subrange(0, k),
                ) && all_digits(body.subrange(k + 1, body.len() as int));
            if w == 0 {
                assert(body.subrange(0, k)[0] == body[0]);
                assert(is_digit(body[0]));
                assert(false);
            } else if k < w {
                assert(is_digit(body[k]));
                assert(body[k] == '.');
                assert(('.' as u32) == 46);
                assert(false);
            } else if k == w {
                assert(false);
            } else {
                assert(body.subrange(0, k)[w] == body[w]);
                assert(is_digit(body[w]));
                assert(false);
            }
        }
    }
}

/// When the body is digits, a dot at `w`, and then anything, the only
/// split the grammar can pick is at `w`.
proof fn lemma_unique_duration_split(body: Seq<char>, w: int)
    requires
        0 < w < body.len(),
        forall|i: int| 0 <= i < w ==> is_digit(#[trigger] body[i]),
        !is_digit(body[w]),
    ensures
        forall|k: int|
            (0 < k < body.len() && body[k] == '.' && all_digits(#[trigger] body.subrange(0, k))
                && all_digits(body.subrange(k + 1, body.len() as int))) ==> k == w,
        all_digits(body.subrange(0, w)),
{
    assert forall|k: int|
        (0 < k < body.len() && body[k] == '.' && all_digits(#[trigger] body.subrange(0, k))
            && all_digits(body.subrange(k + 1, body.len() as int))) implies k == w by {
        if k < w {
            assert(is_digit(body[k]));
            assert(body[k] == '.');
            assert(('.' as u32) == 46);
            assert(false);
        } else if k > w {
            assert(body.subrange(0, k)[w] == body[w]);
            assert(is_digit(body[w]));
            assert(false);
        }
    }
    assert forall|i: int| 0 <= i < body.subrange(0, w).len() implies is_digit(
        #[trigger] body.subrange(0, w)[i],
    ) by {
        assert(body.subrange(0, w)[i] == body[i]);
    }
}

/// In the mixed form, the token's value is at least the value of its whole
/// part, and at least sixty times it when the unit is hours.
proof fn lemma_split_value_exceeds(body: Seq<char>, w: int, hours: bool)
    requires
        0 < w < body.len(),
        body[w] == '.',
        all_digits(body.subrange(0, w)),
        all_digits(body.subrange(w + 1, body.len() as int)),
        forall|k: int|
            (0 < k < body.len() && body[k] == '.' && all_digits(#[trigger] body.subrange(0, k))
                && all_digits(body.subrange(k + 1, body.len() as int))) ==> k == w,
    ensures
        spec_duration_split(body, hours) is Some,
        spec_duration_split(body, hours)->0 >= digits_val(body.subrange(0, w)),
        hours ==> spec_duration_split(body, hours)->0 >= digits_val(body.subrange(0, w)) * 60,
{
    let k = choose|k: int|
        0 < k < body.len() && body[k] == '.' && all_digits(#[trigger] body.subrange(0, k))
            && all_digits(body.subrange(k + 1, body.len() as int));
    assert(k == w);
    let whole = body.subrange(0, w);
    let frac = body.subrange(w + 1, body.len() as int);
    lemma_digits_val_nonneg(whole);
    lemma_digits_val_nonneg(frac);
    lemma_pow10_pos(frac.len());
    if hours {
        assert(digits_val(frac) * 60 >= 0) by (nonlinear_arith)
            requires
                digits_val(frac) >= 0,
        ;
        assert((digits_val(frac) * 60) / pow10(frac.len()) >= 0);
        assert(digits_val(whole) * 60 >= digits_val(whole)) by (nonlinear_arith)
            requires
                digits_val(whole) >= 0,
        ;
    }
}

} // verus!
