//! Durations as a person writes them: `30m`, `6h`, `2d`, `2w`.
use std::time::Duration;
use vstd::prelude::*;
use vstd::slice::slice_subrange;
use vstd::string::*;

use crate::clock::{duration_nanos, duration_secs};
use crate::number::{decimal, is_digit, lemma_decimal, number, push_u64, read_u64};
use crate::text::{chars_of, only_the_ends_are_taken_off, strip_white, trimmed, CharClass};

verus! {

/// How many seconds a unit suffix stands for.
pub open spec fn unit_size(c: char) -> Option<int> {
    if c == 's' {
        Some(1)
    } else if c == 'm' {
        Some(60)
    } else if c == 'h' {
        Some(3_600)
    } else if c == 'd' {
        Some(86_400)
    } else if c == 'w' {
        Some(604_800)
    } else {
        None
    }
}

/// How many seconds a text spells: a number and a unit, or a number alone for
/// seconds. The text stands without white space around it.
pub open spec fn spelled_seconds(text: Seq<char>) -> Option<int> {
    if text.len() == 0 {
        None
    } else {
        match unit_size(text.last()) {
            Some(size) => match number(trimmed(text.drop_last())) {
                Some(n) => if n <= u64::MAX {
                    Some(n * size)
                } else {
                    None
                },
                None => None,
            },
            None => if is_digit(text.last()) {
                match number(trimmed(text)) {
                    Some(n) => if n <= u64::MAX {
                        Some(n)
                    } else {
                        None
                    },
                    None => None,
                }
            } else {
                None
            },
        }
    }
}

/// What is said of a text that is not a duration.
pub open spec fn unreadable_message(text: Seq<char>) -> Seq<char> {
    "\""@ + text + "\" is not a valid duration (try 30m, 6h, 2d or 2w)"@
}

/// What is said of a duration longer than can be held.
pub open spec fn too_long_message(text: Seq<char>) -> Seq<char> {
    "\""@ + text + "\" is too long to be a duration"@
}

/// Parses a duration written with a unit suffix. No suffix means seconds.
///
/// Weeks are the largest unit on purpose: months and years have no fixed
/// length.
pub fn parse(text: &str) -> (r: Result<Duration, String>)
    ensures
        match r {
            Ok(d) => spelled_seconds(trimmed(text@)) is Some && duration_nanos(d)
                == spelled_seconds(trimmed(text@))->0 * 1_000_000_000,
            Err(message) => {
                ||| spelled_seconds(trimmed(text@)) is None && message@ == unreadable_message(
                    trimmed(text@),
                )
                ||| spelled_seconds(trimmed(text@)) is Some && spelled_seconds(trimmed(text@))->0
                    > u64::MAX && message@ == too_long_message(trimmed(text@))
            },
        },
        r is Ok <==> (spelled_seconds(trimmed(text@)) is Some && spelled_seconds(trimmed(text@))->0
            <= u64::MAX),
{
    let chars = chars_of(text);
    let text = strip_white(chars.as_slice());
    let n = text.len();
    if n == 0 {
        return Err(unreadable(text));
    }
    let last = text[n - 1];
    let without = slice_subrange(text, 0, n - 1);
    assert(without@ == text@.drop_last());
    let (digits, factor): (&[char], u64) = if last == 's' {
        (without, 1)
    } else if last == 'm' {
        (without, 60)
    } else if last == 'h' {
        (without, 3_600)
    } else if last == 'd' {
        (without, 86_400)
    } else if last == 'w' {
        (without, 604_800)
    } else if '0' <= last && last <= '9' {
        (text, 1)
    } else {
        return Err(unreadable(text));
    };
    match read_u64(strip_white(digits)) {
        None => Err(unreadable(text)),
        Some(value) => match value.checked_mul(factor) {
            Some(seconds) => Ok(Duration::from_secs(seconds)),
            None => {
                let mut out = String::new();
                out.push('"');
                out.append(crate::text::text_of(text).as_str());
                out.append("\" is too long to be a duration");
                proof {
                    reveal_strlit("\"");
                    assert(out@ == too_long_message(text@));
                }
                Err(out)
            },
        },
    }
}

fn unreadable(text: &[char]) -> (out: String)
    ensures
        out@ == unreadable_message(text@),
{
    let mut out = String::new();
    out.push('"');
    out.append(crate::text::text_of(text).as_str());
    out.append("\" is not a valid duration (try 30m, 6h, 2d or 2w)");
    proof {
        reveal_strlit("\"");
        assert(out@ == unreadable_message(text@));
    }
    out
}

/// A number of seconds in the largest unit that divides it.
pub open spec fn spelling(seconds: nat) -> Seq<char> {
    if seconds == 0 {
        seq!['0']
    } else if seconds % 604_800 == 0 {
        decimal(seconds / 604_800).push('w')
    } else if seconds % 86_400 == 0 {
        decimal(seconds / 86_400).push('d')
    } else if seconds % 3_600 == 0 {
        decimal(seconds / 3_600).push('h')
    } else if seconds % 60 == 0 {
        decimal(seconds / 60).push('m')
    } else {
        decimal(seconds).push('s')
    }
}

/// Writes a duration back the way somebody would have typed it.
pub fn format(duration: Duration) -> (r: String)
    ensures
        r@ == spelling(duration_secs(duration)),
{
    let seconds: u64 = duration.as_secs();
    let mut out = String::new();
    if seconds == 0 {
        out.push('0');
        assert(out@ == seq!['0']);
        return out;
    }
    let (count, unit): (u64, char) = if seconds % 604_800 == 0 {
        (seconds / 604_800, 'w')
    } else if seconds % 86_400 == 0 {
        (seconds / 86_400, 'd')
    } else if seconds % 3_600 == 0 {
        (seconds / 3_600, 'h')
    } else if seconds % 60 == 0 {
        (seconds / 60, 'm')
    } else {
        (seconds, 's')
    };
    push_u64(&mut out, count);
    out.push(unit);
    assert(out@ == decimal(count as nat).push(unit));
    out
}

proof fn lemma_digits_are_trimmed(s: Seq<char>)
    requires
        crate::number::all_digits(s),
    ensures
        trimmed(s) == s,
{
    assert(is_digit(s[0]));
    assert(is_digit(s[s.len() - 1]));
}

proof fn lemma_spelled(count: nat, unit: char)
    requires
        unit_size(unit) is Some,
        count <= u64::MAX,
    ensures
        spelled_seconds(trimmed(decimal(count).push(unit))) == Some(count * unit_size(unit)->0),
{
    lemma_decimal(count);
    let s = decimal(count).push(unit);
    assert(is_digit(decimal(count)[0]));
    assert(s[0] == decimal(count)[0]);
    assert(trimmed(s) == s);
    assert(s.drop_last() == decimal(count));
    lemma_digits_are_trimmed(decimal(count));
}

/// A duration written and read back is the same number of whole seconds.
pub proof fn what_is_written_reads_back(seconds: u64)
    ensures
        spelled_seconds(trimmed(spelling(seconds as nat))) == Some(seconds as int),
{
    let n = seconds as nat;
    if n == 0 {
        let s = seq!['0'];
        assert(is_digit(s[0]));
        assert(crate::number::all_digits(s));
        lemma_digits_are_trimmed(s);
        lemma_decimal(0);
        assert(crate::number::digit(0) == '0');
        assert(decimal(0) == s);
        assert(spelling(n) == s);
        assert(trimmed(trimmed(s)) == s);
    } else if n % 604_800 == 0 {
        lemma_spelled(n / 604_800, 'w');
        assert(unit_size('w') == Some(604_800int));
        assert(n / 604_800 * 604_800 == n);
    } else if n % 86_400 == 0 {
        lemma_spelled(n / 86_400, 'd');
        assert(unit_size('d') == Some(86_400int));
        assert(n / 86_400 * 86_400 == n);
    } else if n % 3_600 == 0 {
        lemma_spelled(n / 3_600, 'h');
        assert(unit_size('h') == Some(3_600int));
        assert(n / 3_600 * 3_600 == n);
    } else if n % 60 == 0 {
        lemma_spelled(n / 60, 'm');
        assert(unit_size('m') == Some(60int));
        assert(n / 60 * 60 == n);
    } else {
        lemma_spelled(n, 's');
    }
}

/// A number is that many seconds by itself and with an `s`, and with an `m`, an `h`, a `d`
/// or a `w` that many minutes, hours, days or weeks, with white space before the unit or
/// without.
pub proof fn what_a_number_and_a_unit_spell(n: nat)
    requires
        n <= u64::MAX,
    ensures
        spelled_seconds(decimal(n)) == Some(n as int),
        spelled_seconds(decimal(n).push('s')) == Some(n as int),
        spelled_seconds(decimal(n).push('m')) == Some(n as int * 60),
        spelled_seconds(decimal(n).push('h')) == Some(n as int * 60 * 60),
        spelled_seconds(decimal(n).push('d')) == Some(n as int * 24 * 60 * 60),
        spelled_seconds(decimal(n).push('w')) == Some(n as int * 7 * 24 * 60 * 60),
        spelled_seconds(decimal(n).push(' ').push('h')) == Some(n as int * 60 * 60),
{
    lemma_decimal(n);
    let s = decimal(n);
    lemma_digits_are_trimmed(s);
    assert(is_digit(s[s.len() - 1]));
    assert(s.push('s').drop_last() == s);
    assert(unit_size('s') == Some(1int));
    assert(spelled_seconds(s.push('s')) == Some(n as int * 1));
    assert(s.push('m').drop_last() == s);
    assert(s.push('h').drop_last() == s);
    assert(s.push('d').drop_last() == s);
    assert(s.push('w').drop_last() == s);
    assert(s.push(' ').push('h').drop_last() == s.push(' '));
    assert(is_digit(s[0]));
    let none = Seq::<char>::empty();
    assert(none + s + seq![' '] == s.push(' '));
    only_the_ends_are_taken_off(none, s, seq![' '], CharClass::White);
}

/// A text that does not end in a digit or one of the five units is no duration.
pub proof fn an_unknown_unit_is_refused(text: Seq<char>)
    requires
        text.len() == 0 || !(is_digit(text.last()) || text.last() == 's' || text.last() == 'm'
            || text.last() == 'h' || text.last() == 'd' || text.last() == 'w'),
    ensures
        spelled_seconds(text) is None,
{
}

/// A duration is written in the largest unit that it is a whole number of.
pub proof fn a_duration_is_written_in_its_largest_unit(n: nat)
    requires
        n > 0,
    ensures
        spelling(n * 604_800) == decimal(n).push('w'),
        n % 7 != 0 ==> spelling(n * 86_400) == decimal(n).push('d'),
        n % 24 != 0 ==> spelling(n * 3_600) == decimal(n).push('h'),
        n % 60 != 0 ==> spelling(n * 60) == decimal(n).push('m'),
        n % 60 != 0 ==> spelling(n) == decimal(n).push('s'),
{
    assert((n * 604_800) % 604_800 == 0 && n * 604_800 / 604_800 == n);
    if n % 7 != 0 {
        assert((n * 86_400) % 604_800 != 0);
        assert((n * 86_400) % 86_400 == 0 && n * 86_400 / 86_400 == n);
    }
    if n % 24 != 0 {
        assert((n * 3_600) % 86_400 != 0);
        assert((n * 3_600) % 604_800 != 0);
    }
    if n % 60 != 0 {
        assert((n * 60) % 3_600 != 0);
        assert((n * 60) % 86_400 != 0);
        assert((n * 60) % 604_800 != 0);
        assert(n % 3_600 != 0 && n % 86_400 != 0 && n % 604_800 != 0);
    }
}

} // verus!
