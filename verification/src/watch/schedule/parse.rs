//! Reading the two syntaxes: `--on`/`--at`, and a five-field cron expression.
use vstd::prelude::*;
use vstd::string::*;

use super::calendar::{Calendar, Times};
use super::ScheduleError;
use crate::number::{decimal, number, push_u64, read_u32};
use crate::text::{
    ascii_lower, ascii_lowercase, chars_of, cut_once, is_text, lemma_position, split_once,
    strip_white, text_of, texts, trimmed, words, words_of,
};

verus! {

/// A set of small numbers, as a bitmask.
///
/// Every cron field fits in 64 bits, so a field is one integer and testing
/// membership is one shift.
#[derive(Debug, Clone, Copy, PartialEq, Eq, Structural)]
pub struct FieldSet(pub u64);

impl FieldSet {
    /// Whether a number is in the set.
    pub open spec fn has(self, value: int) -> bool {
        0 <= value < 64 && self.0 & (1u64 << (value as u64)) != 0
    }

    /// Whether the set holds exactly the numbers between two bounds, both
    /// included.
    pub open spec fn is_whole(self, start: int, end: int) -> bool {
        forall|value: int|
            0 <= value < 64 ==> (#[trigger] self.has(value) <==> start <= value <= end)
    }

    /// Everything from `start` to `end`, which is what `*` means.
    pub fn all(start: u32, end: u32) -> (r: FieldSet)
        requires
            end < 64,
        ensures
            r.is_whole(start as int, end as int),
    {
        if start > end {
            proof {
                assert forall|value: int| 0 <= value < 64 implies !(#[trigger] FieldSet(0).has(
                    value,
                )) by {
                    let v = value as u64;
                    assert(0u64 & (1u64 << v) == 0) by (bit_vector);
                }
            }
            return FieldSet(0);
        }
        let through_end: u64 = u64::MAX >> (63 - end);
        proof {
            let s = start as u64;
            assert(1u64 << s >= 1) by (bit_vector)
                requires
                    s < 64,
            ;
        }
        let below_start: u64 = (1u64 << start) - 1;
        let r = FieldSet(through_end & !below_start);
        proof {
            assert forall|value: int| 0 <= value < 64 implies (#[trigger] r.has(value) <==> start
                <= value <= end) by {
                let v = value as u64;
                let (s, e) = (start as u64, end as u64);
                let top = (63 - e) as u64;
                assert((through_end & !below_start & (1u64 << v) != 0) <==> s <= v && v <= e)
                    by (bit_vector)
                    requires
                        v < 64,
                        s <= e,
                        e < 64,
                        top == 63 - e,
                        through_end == 0xffff_ffff_ffff_ffffu64 >> top,
                        below_start == (1u64 << s) - 1,
                ;
            }
        }
        r
    }

    pub fn contains(self, value: u32) -> (r: bool)
        ensures
            r == self.has(value as int),
    {
        value < 64 && self.0 & (1u64 << value) != 0
    }

    /// Whether this field was left unrestricted between two bounds.
    pub fn is_all(self, start: u32, end: u32) -> (r: bool)
        requires
            end < 64,
        ensures
            r == self.is_whole(start as int, end as int),
    {
        let whole = FieldSet::all(start, end);
        proof {
            if self.is_whole(start as int, end as int) {
                assert forall|value: int| 0 <= value < 64 implies self.has(value) == whole.has(
                    value,
                ) by {
                    assert(self.has(value) <==> start <= value <= end);
                    assert(whole.has(value) <==> start <= value <= end);
                }
                lemma_same_members(self, whole);
            }
        }
        self.0 == whole.0
    }

    /// The set with one number more.
    pub fn with(self, value: u32) -> (r: FieldSet)
        requires
            value < 64,
        ensures
            forall|v: int| #[trigger] r.has(v) <==> self.has(v) || v == value,
    {
        let r = FieldSet(self.0 | (1u64 << value));
        proof {
            assert forall|v: int| #[trigger] r.has(v) <==> self.has(v) || v == value by {
                if 0 <= v < 64 {
                    let (b, x, y) = (self.0, v as u64, value as u64);
                    assert(((b | (1u64 << y)) & (1u64 << x) != 0) <==> (b & (1u64 << x) != 0 || x
                        == y)) by (bit_vector)
                        requires
                            x < 64,
                            y < 64,
                    ;
                }
            }
        }
        r
    }

    /// The empty set.
    pub fn none() -> (r: FieldSet)
        ensures
            forall|v: int| !(#[trigger] r.has(v)),
    {
        proof {
            assert forall|v: int| !(#[trigger] FieldSet(0).has(v)) by {
                if 0 <= v < 64 {
                    let x = v as u64;
                    assert(0u64 & (1u64 << x) == 0) by (bit_vector);
                }
            }
        }
        FieldSet(0)
    }
}

proof fn lemma_same_high_bits(a: u64, b: u64, k: u64)
    requires
        k < 64,
        forall|v: int| 0 <= v < 64 ==> #[trigger] FieldSet(a).has(v) == FieldSet(b).has(v),
    ensures
        a >> k == b >> k,
    decreases 64 - k,
{
    assert(FieldSet(a).has(k as int) == FieldSet(b).has(k as int));
    if k == 63 {
        assert(a >> 63 == b >> 63) by (bit_vector)
            requires
                (a & (1u64 << 63) != 0) == (b & (1u64 << 63) != 0),
        ;
    } else {
        let next = (k + 1) as u64;
        lemma_same_high_bits(a, b, next);
        assert(a >> k == b >> k) by (bit_vector)
            requires
                k < 63,
                next == k + 1,
                a >> next == b >> next,
                (a & (1u64 << k) != 0) == (b & (1u64 << k) != 0),
        ;
    }
}

/// Two sets with the same members are the same mask.
pub proof fn lemma_same_members(a: FieldSet, b: FieldSet)
    requires
        forall|v: int| 0 <= v < 64 ==> #[trigger] a.has(v) == b.has(v),
    ensures
        a == b,
{
    assert forall|v: int| 0 <= v < 64 implies #[trigger] FieldSet(a.0).has(v) == FieldSet(b.0).has(
        v,
    ) by {
        assert(a.has(v) == b.has(v));
    }
    lemma_same_high_bits(a.0, b.0, 0);
    let (x, y) = (a.0, b.0);
    assert(x >> 0 == x && y >> 0 == y) by (bit_vector);
}

/// A day of the week, as `--on mon,thu` names them.
#[derive(Debug, Clone, Copy, PartialEq, Eq, Structural)]
pub enum Weekday {
    Sun,
    Mon,
    Tue,
    Wed,
    Thu,
    Fri,
    Sat,
}

/// The day a lowercase word names.
pub open spec fn named_day(word: Seq<char>) -> Option<Weekday> {
    if word == "sun"@ || word == "sunday"@ || word == "0"@ || word == "7"@ {
        Some(Weekday::Sun)
    } else if word == "mon"@ || word == "monday"@ || word == "1"@ {
        Some(Weekday::Mon)
    } else if word == "tue"@ || word == "tues"@ || word == "tuesday"@ || word == "2"@ {
        Some(Weekday::Tue)
    } else if word == "wed"@ || word == "weds"@ || word == "wednesday"@ || word == "3"@ {
        Some(Weekday::Wed)
    } else if word == "thu"@ || word == "thur"@ || word == "thurs"@ || word == "thursday"@ || word
        == "4"@ {
        Some(Weekday::Thu)
    } else if word == "fri"@ || word == "friday"@ || word == "5"@ {
        Some(Weekday::Fri)
    } else if word == "sat"@ || word == "saturday"@ || word == "6"@ {
        Some(Weekday::Sat)
    } else {
        None
    }
}

impl Weekday {
    /// Sunday is 0, the way cron numbers them.
    pub open spec fn index(self) -> int {
        match self {
            Weekday::Sun => 0,
            Weekday::Mon => 1,
            Weekday::Tue => 2,
            Weekday::Wed => 3,
            Weekday::Thu => 4,
            Weekday::Fri => 5,
            Weekday::Sat => 6,
        }
    }

    pub fn number(self) -> (r: u32)
        ensures
            r == self.index(),
            r < 7,
    {
        match self {
            Weekday::Sun => 0,
            Weekday::Mon => 1,
            Weekday::Tue => 2,
            Weekday::Wed => 3,
            Weekday::Thu => 4,
            Weekday::Fri => 5,
            Weekday::Sat => 6,
        }
    }

    /// The day a text names, whatever its case and the space around it.
    pub fn parse(text: &str) -> (r: Option<Weekday>)
        ensures
            r == named_day(ascii_lowercase(trimmed(text@))),
    {
        let chars = chars_of(text);
        let word = lower_chars(strip_white(chars.as_slice()));
        let word = word.as_slice();
        if is_text(word, "sun") || is_text(word, "sunday") || is_text(word, "0") || is_text(
            word,
            "7",
        ) {
            Some(Weekday::Sun)
        } else if is_text(word, "mon") || is_text(word, "monday") || is_text(word, "1") {
            Some(Weekday::Mon)
        } else if is_text(word, "tue") || is_text(word, "tues") || is_text(word, "tuesday")
            || is_text(word, "2") {
            Some(Weekday::Tue)
        } else if is_text(word, "wed") || is_text(word, "weds") || is_text(word, "wednesday")
            || is_text(word, "3") {
            Some(Weekday::Wed)
        } else if is_text(word, "thu") || is_text(word, "thur") || is_text(word, "thurs")
            || is_text(word, "thursday") || is_text(word, "4") {
            Some(Weekday::Thu)
        } else if is_text(word, "fri") || is_text(word, "friday") || is_text(word, "5") {
            Some(Weekday::Fri)
        } else if is_text(word, "sat") || is_text(word, "saturday") || is_text(word, "6") {
            Some(Weekday::Sat)
        } else {
            None
        }
    }
}

/// The text with its ASCII letters in their small form.
pub fn lower_chars(s: &[char]) -> (v: Vec<char>)
    ensures
        v@ == ascii_lowercase(s@),
{
    let mut v: Vec<char> = Vec::new();
    let mut i: usize = 0;
    while i < s.len()
        invariant
            i <= s@.len(),
            v@.len() == i,
            forall|j: int| 0 <= j < i ==> v@[j] == ascii_lower(s@[j]),
        decreases s@.len() - i,
    {
        let c = s[i];
        let lower = if 'A' <= c && c <= 'Z' {
            (c as u8 + 32) as char
        } else {
            c
        };
        v.push(lower);
        i = i + 1;
    }
    assert(v@ == ascii_lowercase(s@));
    v
}

/// The time of day a text spells.
pub open spec fn spelled_time(text: Seq<char>) -> Option<(int, int)> {
    match split_once(text, ':') {
        Some((hour, minute)) => match (number(trimmed(hour)), number(trimmed(minute))) {
            (Some(h), Some(m)) => if h <= 23 && m <= 59 {
                Some((h, m))
            } else {
                None
            },
            _ => None,
        },
        None => None,
    }
}

/// What is said of a text that is not a time.
pub open spec fn bad_time_message(text: Seq<char>) -> Seq<char> {
    "\""@ + text + "\" is not a time (try 09:00)"@
}

fn bad_time(text: &[char]) -> (e: ScheduleError)
    ensures
        e.says(bad_time_message(text@)),
{
    let mut out = String::new();
    out.append("\"");
    out.append(text_of(text).as_str());
    out.append("\" is not a time (try 09:00)");
    assert(out@ == bad_time_message(text@));
    ScheduleError::Unreadable(out)
}

/// Parses `HH:MM`.
pub fn parse_time(text: &str) -> (r: Result<(u32, u32), ScheduleError>)
    ensures
        match r {
            Ok((hour, minute)) => spelled_time(trimmed(text@)) == Some(
                (hour as int, minute as int),
            ),
            Err(e) => spelled_time(trimmed(text@)) is None && e.says(
                bad_time_message(trimmed(text@)),
            ),
        },
{
    let chars = chars_of(text);
    let text = strip_white(chars.as_slice());
    match cut_once(text, ':') {
        None => Err(bad_time(text)),
        Some((hour, minute)) => {
            match (read_u32(strip_white(hour)), read_u32(strip_white(minute))) {
                (Some(hour), Some(minute)) => {
                    if hour > 23 || minute > 59 {
                        Err(bad_time(text))
                    } else {
                        Ok((hour, minute))
                    }
                },
                _ => Err(bad_time(text)),
            }
        },
    }
}

/// The article a field's name takes.
pub open spec fn spec_article(name: Seq<char>) -> Seq<char> {
    if name.len() > 0 && (name[0] == 'a' || name[0] == 'e' || name[0] == 'i' || name[0] == 'o'
        || name[0] == 'u' || name[0] == 'h') {
        "an"@
    } else {
        "a"@
    }
}

fn article(name: &[char]) -> (r: &'static str)
    ensures
        r@ == spec_article(name@),
{
    if name.len() > 0 && (name[0] == 'a' || name[0] == 'e' || name[0] == 'i' || name[0] == 'o'
        || name[0] == 'u' || name[0] == 'h') {
        "an"
    } else {
        "a"
    }
}

/// What is said of a part of a field that cannot be read.
pub open spec fn bad_field_message(text: Seq<char>, name: Seq<char>) -> Seq<char> {
    "\""@ + text + "\" is not "@ + spec_article(name) + " "@ + name
        + " a cron expression can have"@
}

/// What is said of a number outside its field.
pub open spec fn out_of_range_message(value: int, low: int, high: int, name: Seq<char>) -> Seq<
    char,
> {
    decimal(value as nat) + " is not "@ + spec_article(name) + " "@ + name
        + " (it has to be between "@ + decimal(low as nat) + " and "@ + decimal(high as nat) + ")"@
}

fn unreadable_field(text: &[char], name: &[char]) -> (e: ScheduleError)
    ensures
        e.says(bad_field_message(text@, name@)),
{
    let mut out = String::new();
    out.append("\"");
    out.append(text_of(text).as_str());
    out.append("\" is not ");
    out.append(article(name));
    out.append(" ");
    out.append(text_of(name).as_str());
    out.append(" a cron expression can have");
    assert(out@ == bad_field_message(text@, name@));
    ScheduleError::Unreadable(out)
}

/// A number that a field can hold, or what is said of the text instead.
pub open spec fn field_number(text: Seq<char>, low: int, high: int, name: Seq<char>) -> Result<
    int,
    Seq<char>,
> {
    match number(trimmed(text)) {
        Some(value) => if value > u32::MAX {
            Err(bad_field_message(text, name))
        } else if low <= value <= high {
            Ok(value)
        } else {
            Err(out_of_range_message(value, low, high, name))
        },
        None => Err(bad_field_message(text, name)),
    }
}

fn read_number(text: &[char], low: u32, high: u32, name: &[char]) -> (r: Result<u32, ScheduleError>)
    ensures
        match (r, field_number(text@, low as int, high as int, name@)) {
            (Ok(v), Ok(s)) => v == s,
            (Err(e), Err(m)) => e.says(m),
            _ => false,
        },
{
    match read_u32(strip_white(text)) {
        None => Err(unreadable_field(text, name)),
        Some(value) => {
            if value < low || value > high {
                let mut out = String::new();
                push_u64(&mut out, value as u64);
                out.append(" is not ");
                out.append(article(name));
                out.append(" ");
                out.append(text_of(name).as_str());
                out.append(" (it has to be between ");
                push_u64(&mut out, low as u64);
                out.append(" and ");
                push_u64(&mut out, high as u64);
                out.append(")");
                assert(out@ == out_of_range_message(
                    value as int,
                    low as int,
                    high as int,
                    name@,
                ));
                Err(ScheduleError::Unreadable(out))
            } else {
                Ok(value)
            }
        },
    }
}

/// What one part of a field names: every `step`th number between two bounds.
pub struct Stretch {
    pub from: int,
    pub to: int,
    pub step: int,
}

impl Stretch {
    pub open spec fn names(self, value: int) -> bool {
        self.from <= value <= self.to && (value - self.from) % self.step == 0
    }
}

/// A part of a field without its step: `*`, `a-b` or a number. A bare number
/// with a step above one runs to the end of the field.
pub open spec fn part_bounds(
    spec_text: Seq<char>,
    step: int,
    low: int,
    high: int,
    name: Seq<char>,
) -> Result<(int, int), Seq<char>> {
    if spec_text == "*"@ {
        Ok((low, high))
    } else {
        match split_once(spec_text, '-') {
            Some((a, b)) => match field_number(a, low, high, name) {
                Err(m) => Err(m),
                Ok(from) => match field_number(b, low, high, name) {
                    Err(m) => Err(m),
                    Ok(to) => Ok((from, to)),
                },
            },
            None => match field_number(spec_text, low, high, name) {
                Err(m) => Err(m),
                Ok(value) => Ok(
                    (
                        value,
                        if step > 1 {
                            high
                        } else {
                            value
                        },
                    ),
                ),
            },
        }
    }
}

/// What a part of a field names, or what is said of it instead.
pub open spec fn part_stretch(part: Seq<char>, low: int, high: int, name: Seq<char>) -> Result<
    Stretch,
    Seq<char>,
> {
    let (spec_text, step) = match split_once(part, '/') {
        Some((spec_text, step)) => (spec_text, match number(step) {
            Some(n) => if 0 < n <= u32::MAX {
                Some(n)
            } else {
                None
            },
            None => None,
        }),
        None => (part, Some(1)),
    };
    match step {
        None => Err(bad_field_message(part, name)),
        Some(step) => match part_bounds(spec_text, step, low, high, name) {
            Err(m) => Err(m),
            Ok((from, to)) => if from > to {
                Err(bad_field_message(part, name))
            } else {
                Ok(Stretch { from, to, step })
            },
        },
    }
}

/// What the comma-separated parts of a field name, or what is said of the first
/// that cannot be read.
pub open spec fn field_stretches(text: Seq<char>, low: int, high: int, name: Seq<char>) -> Result<
    Seq<Stretch>,
    Seq<char>,
>
    decreases text.len(),
{
    match split_once(text, ',') {
        None => match part_stretch(text, low, high, name) {
            Err(m) => Err(m),
            Ok(stretch) => Ok(seq![stretch]),
        },
        Some((part, rest)) => {
            proof {
                lemma_position(text, ',');
            }
            match part_stretch(part, low, high, name) {
                Err(m) => Err(m),
                Ok(stretch) => match field_stretches(rest, low, high, name) {
                    Err(m) => Err(m),
                    Ok(others) => Ok(seq![stretch] + others),
                },
            }
        },
    }
}

/// Whether a number is named by any of these.
pub open spec fn any_names(stretches: Seq<Stretch>, value: int) -> bool {
    exists|i: int| 0 <= i < stretches.len() && #[trigger] stretches[i].names(value)
}

/// Adds what one stretch names to a set.
fn add_stretch(set: FieldSet, from: u32, to: u32, step: u32) -> (r: FieldSet)
    requires
        step > 0,
        from <= to < 64,
    ensures
        forall|v: int|
            #[trigger] r.has(v) <==> set.has(v) || (Stretch {
                from: from as int,
                to: to as int,
                step: step as int,
            }).names(v),
{
    let ghost stretch = Stretch { from: from as int, to: to as int, step: step as int };
    let mut r = set;
    let mut value: u64 = from as u64;
    assert((value - from) % (step as int) == 0) by {
        vstd::arithmetic::div_mod::lemma_small_mod(0, step as nat);
    }
    while value <= to as u64
        invariant
            step > 0,
            from <= to < 64,
            from <= value <= to as u64 + step as u64,
            (value - from) % (step as int) == 0,
            stretch == (Stretch { from: from as int, to: to as int, step: step as int }),
            forall|v: int|
                #[trigger] r.has(v) <==> set.has(v) || (stretch.names(v) && v < value),
        decreases to as u64 + step as u64 - value,
    {
        let ghost before = r;
        r = r.with(value as u32);
        proof {
            let (x, y, s) = (value as int, from as int, step as int);
            vstd::arithmetic::div_mod::lemma_mod_add_multiples_vanish(x - y, s);
            assert((x + s - y) % s == 0);
            assert forall|v: int| #[trigger] r.has(v) <==> set.has(v) || (stretch.names(v) && v < x
                + s) by {
                assert(r.has(v) <==> before.has(v) || v == x);
                if stretch.names(v) && x < v < x + s {
                    // Two multiples of the step are not closer than the step.
                    vstd::arithmetic::div_mod::lemma_sub_mod_noop(v - y, x - y, s);
                    assert((v - x) % s == ((v - y) % s - (x - y) % s) % s);
                    vstd::arithmetic::div_mod::lemma_small_mod((v - x) as nat, s as nat);
                    vstd::arithmetic::div_mod::lemma_small_mod(0, s as nat);
                    assert(false);
                }
            }
        }
        value = value + step as u64;
    }
    r
}

/// One part of a field: its bounds and its step.
fn read_part(part: &[char], low: u32, high: u32, name: &[char]) -> (r: Result<
    (u32, u32, u32),
    ScheduleError,
>)
    ensures
        match (r, part_stretch(part@, low as int, high as int, name@)) {
            (Ok((from, to, step)), Ok(s)) => from == s.from && to == s.to && step == s.step && step
                > 0 && from <= to <= high,
            (Err(e), Err(m)) => e.says(m),
            _ => false,
        },
{
    let (spec_text, step): (&[char], u32) = match cut_once(part, '/') {
        Some((spec_text, step)) => match read_u32(step) {
            Some(n) => {
                if n == 0 {
                    return Err(unreadable_field(part, name));
                }
                (spec_text, n)
            },
            None => {
                return Err(unreadable_field(part, name));
            },
        },
        None => (part, 1),
    };
    let (from, to): (u32, u32) = if is_text(spec_text, "*") {
        (low, high)
    } else {
        match cut_once(spec_text, '-') {
            Some((a, b)) => match read_number(a, low, high, name) {
                Err(e) => {
                    return Err(e);
                },
                Ok(from) => match read_number(b, low, high, name) {
                    Err(e) => {
                        return Err(e);
                    },
                    Ok(to) => (from, to),
                },
            },
            None => match read_number(spec_text, low, high, name) {
                Err(e) => {
                    return Err(e);
                },
                Ok(value) => {
                    if step > 1 {
                        (value, high)
                    } else {
                        (value, value)
                    }
                },
            },
        }
    };
    if from > to {
        return Err(unreadable_field(part, name));
    }
    Ok((from, to, step))
}

/// One cron field: `*`, `a`, `a-b`, any of those with `/step`, or a
/// comma-separated list of them.
pub fn cron_field(text: &[char], low: u32, high: u32, name: &str) -> (r: Result<
    FieldSet,
    ScheduleError,
>)
    requires
        high < 64,
    ensures
        match (r, field_stretches(text@, low as int, high as int, name@)) {
            (Ok(set), Ok(stretches)) => forall|v: int|
                #[trigger] set.has(v) <==> any_names(stretches, v),
            (Err(e), Err(m)) => e.says(m),
            _ => false,
        },
{
    let name_chars = chars_of(name);
    let label = name_chars.as_slice();
    let ghost (lo, hi) = (low as int, high as int);
    let mut set = FieldSet::none();
    let mut rest: &[char] = text;
    let ghost mut done: Seq<Stretch> = Seq::empty();
    proof {
        lemma_nothing_before(field_stretches(text@, lo, hi, name@));
    }
    loop
        invariant
            high < 64,
            lo == low,
            hi == high,
            label@ == name@,
            field_stretches(text@, lo, hi, name@) == preceded(
                done,
                field_stretches(rest@, lo, hi, name@),
            ),
            forall|v: int| #[trigger] set.has(v) <==> any_names(done, v),
        decreases rest@.len(),
    {
        let (part, others) = first_part(rest);
        let ghost before = done;
        proof {
            lemma_field_step(rest@, lo, hi, name@, before);
        }
        match read_part(part, low, high, label) {
            Err(e) => {
                return Err(e);
            },
            Ok((from, to, step)) => {
                set = add_stretch(set, from, to, step);
                proof {
                    let stretch = Stretch { from: from as int, to: to as int, step: step as int };
                    done = before + seq![stretch];
                    lemma_one_more(before, stretch);
                }
            },
        }
        match others {
            None => {
                return Ok(set);
            },
            Some(others) => {
                rest = others;
            },
        }
    }
}

/// The part of a field before its first comma, and what stands behind it.
fn first_part<'a>(text: &'a [char]) -> (r: (&'a [char], Option<&'a [char]>))
    ensures
        match split_once(text@, ',') {
            None => r.0@ == text@ && r.1 is None,
            Some((part, others)) => r.0@ == part && r.1 is Some && r.1->0@ == others && others.len()
                < text@.len(),
        },
{
    proof {
        lemma_position(text@, ',');
    }
    match cut_once(text, ',') {
        None => (text, None),
        Some((part, others)) => (part, Some(others)),
    }
}

/// Stretches that come before those of the rest of a field, or what is said of
/// the rest.
spec fn preceded(done: Seq<Stretch>, rest: Result<Seq<Stretch>, Seq<char>>) -> Result<
    Seq<Stretch>,
    Seq<char>,
> {
    match rest {
        Ok(others) => Ok(done + others),
        Err(m) => Err(m),
    }
}

proof fn lemma_nothing_before(rest: Result<Seq<Stretch>, Seq<char>>)
    ensures
        preceded(Seq::empty(), rest) == rest,
{
    if let Ok(others) = rest {
        assert(Seq::<Stretch>::empty() + others == others);
    }
}

/// The first part of a field comes before the others.
proof fn lemma_field_step(text: Seq<char>, low: int, high: int, name: Seq<char>, done: Seq<Stretch>)
    ensures
        match split_once(text, ',') {
            None => match part_stretch(text, low, high, name) {
                Err(m) => preceded(done, field_stretches(text, low, high, name)) == Err::<
                    Seq<Stretch>,
                    Seq<char>,
                >(m),
                Ok(stretch) => preceded(done, field_stretches(text, low, high, name)) == Ok::<
                    Seq<Stretch>,
                    Seq<char>,
                >(done + seq![stretch]),
            },
            Some((part, others)) => match part_stretch(part, low, high, name) {
                Err(m) => preceded(done, field_stretches(text, low, high, name)) == Err::<
                    Seq<Stretch>,
                    Seq<char>,
                >(m),
                Ok(stretch) => preceded(done, field_stretches(text, low, high, name)) == preceded(
                    done + seq![stretch],
                    field_stretches(others, low, high, name),
                ),
            },
        },
{
    if let Some((part, others)) = split_once(text, ',') {
        if let Ok(stretch) = part_stretch(part, low, high, name) {
            if let Ok(tail) = field_stretches(others, low, high, name) {
                assert(done + (seq![stretch] + tail) == (done + seq![stretch]) + tail);
            }
        }
    }
}

proof fn lemma_one_more(before: Seq<Stretch>, stretch: Stretch)
    ensures
        forall|v: int|
            #[trigger] any_names(before + seq![stretch], v) <==> any_names(before, v)
                || stretch.names(v),
{
    let after = before + seq![stretch];
    assert forall|v: int| #[trigger] any_names(after, v) <==> any_names(before, v)
        || stretch.names(v) by {
        if any_names(before, v) {
            let i = choose|i: int| 0 <= i < before.len() && #[trigger] before[i].names(v);
            assert(after[i].names(v));
        }
        if stretch.names(v) {
            assert(after[before.len() as int].names(v));
        }
        if any_names(after, v) {
            let i = choose|i: int| 0 <= i < after.len() && #[trigger] after[i].names(v);
            if i < before.len() {
                assert(before[i].names(v));
            } else {
                assert(after[i] == stretch);
            }
        }
    }
}

/// Whether a number is one that the text of a field names.
pub open spec fn field_names(text: Seq<char>, low: int, high: int, name: Seq<char>, value: int) -> bool {
    field_stretches(text, low, high, name) matches Ok(stretches) && any_names(stretches, value)
}

/// What is said of the text of a field that cannot be read.
pub open spec fn field_complaint(text: Seq<char>, low: int, high: int, name: Seq<char>) -> Option<
    Seq<char>,
> {
    match field_stretches(text, low, high, name) {
        Ok(stretches) => None,
        Err(m) => Some(m),
    }
}

/// What is said of a cron expression that cannot be read: that it does not have
/// five fields, or what is said of the first of them that cannot be read.
pub open spec fn cron_complaint(expression: Seq<char>) -> Option<Seq<char>> {
    let fields = words(expression);
    if fields.len() != 5 {
        Some(
            "a cron expression has five fields (minute hour day month weekday), and \""@
                + expression + "\" has "@ + decimal(fields.len()),
        )
    } else if field_complaint(fields[0], 0, 59, "minute"@) is Some {
        field_complaint(fields[0], 0, 59, "minute"@)
    } else if field_complaint(fields[1], 0, 23, "hour"@) is Some {
        field_complaint(fields[1], 0, 23, "hour"@)
    } else if field_complaint(fields[2], 1, 31, "day of month"@) is Some {
        field_complaint(fields[2], 1, 31, "day of month"@)
    } else if field_complaint(fields[3], 1, 12, "month"@) is Some {
        field_complaint(fields[3], 1, 12, "month"@)
    } else {
        field_complaint(fields[4], 0, 7, "day of week"@)
    }
}

/// Whether a calendar is the one five fields describe. The hours and the
/// minutes are crossed, and seven is read as Sunday.
pub open spec fn is_cron_calendar(calendar: Calendar, fields: Seq<Seq<char>>) -> bool {
    &&& calendar.times matches Times::Crossed { minutes, hours }
    &&& forall|v: int| #[trigger]
        minutes.has(v) <==> field_names(fields[0], 0, 59, "minute"@, v)
    &&& forall|v: int| #[trigger] hours.has(v) <==> field_names(fields[1], 0, 23, "hour"@, v)
    &&& forall|v: int| #[trigger]
        calendar.days_of_month.has(v) <==> field_names(fields[2], 1, 31, "day of month"@, v)
    &&& forall|v: int| #[trigger]
        calendar.months.has(v) <==> field_names(fields[3], 1, 12, "month"@, v)
    &&& forall|v: int| #[trigger]
        calendar.days_of_week.has(v) <==> if v == 0 {
            field_names(fields[4], 0, 7, "day of week"@, 0) || field_names(
                fields[4],
                0,
                7,
                "day of week"@,
                7,
            )
        } else {
            v != 7 && field_names(fields[4], 0, 7, "day of week"@, v)
        }
}

/// Parses a five-field cron expression into the same calendar `--on`/`--at`
/// produces.
pub fn parse_cron(expression: &str) -> (r: Result<Calendar, ScheduleError>)
    ensures
        match r {
            Ok(calendar) => cron_complaint(expression@) is None && is_cron_calendar(
                calendar,
                words(expression@),
            ),
            Err(e) => cron_complaint(expression@) is Some && e.says(
                cron_complaint(expression@)->0,
            ),
        },
{
    let chars = chars_of(expression);
    let fields = words_of(chars.as_slice());
    assert(texts(fields@).len() == fields@.len());
    if fields.len() != 5 {
        let mut out = String::new();
        out.append("a cron expression has five fields (minute hour day month weekday), and \"");
        out.append(expression);
        out.append("\" has ");
        push_u64(&mut out, fields.len() as u64);
        assert(out@ == cron_complaint(expression@)->0);
        return Err(ScheduleError::Unreadable(out));
    }
    assert forall|i: int| 0 <= i < 5 implies #[trigger] fields@[i]@ == words(expression@)[i] by {
        assert(texts(fields@)[i] == fields@[i]@);
    }
    let minutes = match cron_field(fields[0], 0, 59, "minute") {
        Ok(set) => set,
        Err(e) => {
            return Err(e);
        },
    };
    let hours = match cron_field(fields[1], 0, 23, "hour") {
        Ok(set) => set,
        Err(e) => {
            return Err(e);
        },
    };
    let days_of_month = match cron_field(fields[2], 1, 31, "day of month") {
        Ok(set) => set,
        Err(e) => {
            return Err(e);
        },
    };
    let months = match cron_field(fields[3], 1, 12, "month") {
        Ok(set) => set,
        Err(e) => {
            return Err(e);
        },
    };
    let days_of_week = match cron_field(fields[4], 0, 7, "day of week") {
        Ok(set) => fold_sunday(set),
        Err(e) => {
            return Err(e);
        },
    };
    Ok(
        Calendar {
            times: Times::Crossed { minutes, hours },
            days_of_month,
            months,
            days_of_week,
        },
    )
}

/// Seven means Sunday, and Sunday is zero everywhere else here.
pub fn fold_sunday(set: FieldSet) -> (r: FieldSet)
    ensures
        forall|v: int|
            #[trigger] r.has(v) <==> if v == 0 {
                set.has(0) || set.has(7)
            } else {
                v != 7 && set.has(v)
            },
{
    let r = if set.contains(7) {
        FieldSet((set.0 & !(1u64 << 7)) | 1)
    } else {
        set
    };
    proof {
        let b = set.0;
        assert forall|v: int| #[trigger] r.has(v) <==> if v == 0 {
            set.has(0) || set.has(7)
        } else {
            v != 7 && set.has(v)
        } by {
            if 0 <= v < 64 && set.has(7) {
                let x = v as u64;
                assert((((b & !(1u64 << 7)) | 1) & (1u64 << x) != 0) <==> (x == 0 || (x != 7 && b
                    & (1u64 << x) != 0))) by (bit_vector)
                    requires
                        x < 64,
                ;
            }
        }
    }
    r
}

} // verus!
