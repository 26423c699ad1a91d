//! What the written form of a schedule names, said of the text itself.
use vstd::prelude::*;
use vstd::string::*;

use super::calendar::{Calendar, Times};
use super::parse::{
    any_names, cron_complaint, field_complaint, field_names, field_number, field_stretches,
    is_cron_calendar, named_day, part_stretch, spelled_time, Stretch, Weekday,
};
use super::zone::{lemma_date_of, lemma_some_date, weekday_of};
use crate::number::{
    all_digits, decimal, digit, digits_value, is_digit, lemma_decimal, number, two_digits,
    unsigned_digits,
};
use crate::text::{
    is_white_space, lemma_position_at, lemma_word_len, split_once, trim_start, trimmed, word_len,
    words, CharClass,
};

verus! {

/// A written number holds digits only: none of the marks a field is made of, and
/// no white space.
proof fn lemma_plain_digits(s: Seq<char>)
    requires
        all_digits(s),
    ensures
        trimmed(s) == s,
        forall|i: int|
            0 <= i < s.len() ==> {
                &&& #[trigger] s[i] != ','
                &&& s[i] != '-'
                &&& s[i] != '/'
                &&& s[i] != '*'
                &&& s[i] != ':'
                &&& !is_white_space(s[i])
            },
{
    assert forall|i: int| 0 <= i < s.len() implies {
        &&& #[trigger] s[i] != ','
        &&& s[i] != '-'
        &&& s[i] != '/'
        &&& s[i] != '*'
        &&& s[i] != ':'
        &&& !is_white_space(s[i])
    } by {
        assert(is_digit(s[i]));
    }
    assert(!is_white_space(s[0]));
    assert(!is_white_space(s[s.len() - 1]));
}

/// A mark that does not stand before its place parts a text there.
proof fn lemma_parted(a: Seq<char>, c: char, b: Seq<char>)
    requires
        forall|i: int| 0 <= i < a.len() ==> #[trigger] a[i] != c,
    ensures
        split_once(a + seq![c] + b, c) == Some((a, b)),
{
    let s = a + seq![c] + b;
    lemma_position_at(s, c, a.len() as int);
    assert(s.take(a.len() as int) == a);
    assert(s.skip(a.len() as int + 1) == b);
}

/// A text without a mark is in one piece.
proof fn lemma_whole(s: Seq<char>, c: char)
    requires
        forall|i: int| 0 <= i < s.len() ==> #[trigger] s[i] != c,
    ensures
        split_once(s, c) is None,
{
    lemma_position_at(s, c, s.len() as int);
}

/// A part of a field by itself names what its stretch does.
proof fn lemma_single(text: Seq<char>, low: int, high: int, name: Seq<char>)
    requires
        split_once(text, ',') is None,
    ensures
        part_stretch(text, low, high, name) matches Ok(stretch) ==> field_complaint(
            text,
            low,
            high,
            name,
        ) is None && forall|v: int| #[trigger]
            field_names(text, low, high, name, v) <==> stretch.names(v),
        part_stretch(text, low, high, name) is Err ==> field_complaint(text, low, high, name)
            is Some && forall|v: int| !(#[trigger] field_names(text, low, high, name, v)),
{
    if let Ok(stretch) = part_stretch(text, low, high, name) {
        let all = seq![stretch];
        assert forall|v: int| #[trigger] field_names(text, low, high, name, v) <==> stretch.names(
            v,
        ) by {
            if stretch.names(v) {
                assert(all[0].names(v));
            }
        }
    }
}

proof fn lemma_every_one(from: int, to: int, v: int)
    ensures
        (Stretch { from, to, step: 1 }).names(v) <==> from <= v <= to,
{
}

/// A number in its field is read as itself.
proof fn lemma_field_number(a: nat, low: int, high: int, name: Seq<char>)
    requires
        low <= a <= high <= u32::MAX,
    ensures
        field_number(decimal(a), low, high, name) == Ok::<int, Seq<char>>(a as int),
{
    lemma_decimal(a);
    lemma_plain_digits(decimal(a));
}

/// A star names every number of its field and no other.
pub proof fn a_star_names_the_whole_field(low: int, high: int, name: Seq<char>)
    requires
        low <= high,
    ensures
        field_complaint("*"@, low, high, name) is None,
        forall|v: int| #[trigger] field_names("*"@, low, high, name, v) <==> low <= v <= high,
{
    reveal_strlit("*");
    let s = "*"@;
    lemma_whole(s, ',');
    lemma_whole(s, '/');
    lemma_single(s, low, high, name);
    assert forall|v: int| #[trigger] field_names(s, low, high, name, v) <==> low <= v <= high by {
        lemma_every_one(low, high, v);
    }
}

/// A number names itself alone, and one that its field does not have is refused.
pub proof fn a_number_names_itself(a: nat, low: int, high: int, name: Seq<char>)
    requires
        high <= u32::MAX,
    ensures
        field_complaint(decimal(a), low, high, name) is None <==> low <= a <= high,
        forall|v: int| #[trigger]
            field_names(decimal(a), low, high, name, v) <==> low <= a <= high && v == a,
{
    let s = decimal(a);
    lemma_decimal(a);
    lemma_plain_digits(s);
    lemma_whole(s, ',');
    lemma_whole(s, '/');
    lemma_whole(s, '-');
    reveal_strlit("*");
    assert(s != "*"@) by {
        assert(s[0] != '*');
        assert("*"@[0] == '*');
    }
    lemma_single(s, low, high, name);
    assert forall|v: int| #[trigger] field_names(s, low, high, name, v) <==> low <= a <= high && v
        == a by {
        lemma_every_one(a as int, a as int, v);
    }
}

/// What a range without a step is read as.
proof fn lemma_range(a: nat, b: nat, low: int, high: int, name: Seq<char>)
    ensures
        ({
            let s = decimal(a) + seq!['-'] + decimal(b);
            &&& split_once(s, ',') is None
            &&& split_once(s, '/') is None
            &&& split_once(s, '-') == Some((decimal(a), decimal(b)))
            &&& s != "*"@
            &&& forall|i: int| 0 <= i < s.len() ==> #[trigger] s[i] != ',' && s[i] != '/'
        }),
{
    let s = decimal(a) + seq!['-'] + decimal(b);
    lemma_decimal(a);
    lemma_decimal(b);
    lemma_plain_digits(decimal(a));
    lemma_plain_digits(decimal(b));
    assert forall|i: int| 0 <= i < s.len() implies #[trigger] s[i] != ',' && s[i] != '/' by {
        if i < decimal(a).len() {
            assert(s[i] == decimal(a)[i]);
        } else if i > decimal(a).len() {
            assert(s[i] == decimal(b)[i - decimal(a).len() - 1]);
        }
    }
    lemma_whole(s, ',');
    lemma_whole(s, '/');
    lemma_parted(decimal(a), '-', decimal(b));
    reveal_strlit("*");
    assert(s[0] == decimal(a)[0]);
}

/// A range names the numbers from one of its ends to the other, both of them
/// included.
pub proof fn a_range_names_both_its_ends(a: nat, b: nat, low: int, high: int, name: Seq<char>)
    requires
        low <= a <= b <= high <= u32::MAX,
    ensures
        field_complaint(decimal(a) + seq!['-'] + decimal(b), low, high, name) is None,
        forall|v: int| #[trigger]
            field_names(decimal(a) + seq!['-'] + decimal(b), low, high, name, v) <==> a <= v <= b,
{
    let s = decimal(a) + seq!['-'] + decimal(b);
    lemma_range(a, b, low, high, name);
    lemma_field_number(a, low, high, name);
    lemma_field_number(b, low, high, name);
    lemma_single(s, low, high, name);
    assert forall|v: int| #[trigger] field_names(s, low, high, name, v) <==> a <= v <= b by {
        lemma_every_one(a as int, b as int, v);
    }
}

/// A range that runs backwards, or out of its field, is refused.
pub proof fn a_range_backwards_or_outside_is_refused(
    a: nat,
    b: nat,
    low: int,
    high: int,
    name: Seq<char>,
)
    requires
        high <= u32::MAX,
        !(low <= a <= b <= high),
    ensures
        field_complaint(decimal(a) + seq!['-'] + decimal(b), low, high, name) is Some,
{
    let s = decimal(a) + seq!['-'] + decimal(b);
    lemma_range(a, b, low, high, name);
    lemma_decimal(a);
    lemma_decimal(b);
    lemma_plain_digits(decimal(a));
    lemma_plain_digits(decimal(b));
    lemma_single(s, low, high, name);
}

/// The numbers a step names are its start and every so many after it.
proof fn lemma_steps(from: int, to: int, n: nat, v: int)
    requires
        n > 0,
    ensures
        (Stretch { from, to, step: n as int }).names(v) <==> v <= to && exists|k: nat|
            v == from + #[trigger] (k * n),
{
    let step = n as int;
    if (Stretch { from, to, step }).names(v) {
        vstd::arithmetic::div_mod::lemma_fundamental_div_mod(v - from, step);
        let k = ((v - from) / step) as nat;
        vstd::arithmetic::div_mod::lemma_div_pos_is_pos(v - from, step);
        assert(step * ((v - from) / step) == ((v - from) / step) * step) by (nonlinear_arith);
        assert(v == from + k * n);
    }
    if v <= to && exists|k: nat| v == from + #[trigger] (k * n) {
        let k = choose|k: nat| v == from + #[trigger] (k * n);
        assert(k * step >= 0) by (nonlinear_arith)
            requires
                k >= 0,
                step > 0,
        ;
        vstd::arithmetic::div_mod::lemma_mod_multiples_basic(k as int, step);
    }
}

/// A part with a step is read as its bounds and the step.
proof fn lemma_stepped(bounds: Seq<char>, n: nat)
    requires
        forall|i: int| 0 <= i < bounds.len() ==> #[trigger] bounds[i] != ',' && bounds[i] != '/',
    ensures
        ({
            let s = bounds + seq!['/'] + decimal(n);
            split_once(s, '/') == Some((bounds, decimal(n))) && split_once(s, ',') is None
        }),
        number(decimal(n)) == Some(n as int),
{
    let s = bounds + seq!['/'] + decimal(n);
    lemma_decimal(n);
    lemma_plain_digits(decimal(n));
    lemma_parted(bounds, '/', decimal(n));
    assert forall|i: int| 0 <= i < s.len() implies #[trigger] s[i] != ',' by {
        if i < bounds.len() {
            assert(s[i] == bounds[i]);
        } else if i > bounds.len() {
            assert(s[i] == decimal(n)[i - bounds.len() - 1]);
        }
    }
    lemma_whole(s, ',');
}

/// A star with a step names the first number of its field and every so many after
/// it, up to the last.
pub proof fn a_stepped_star_starts_at_the_first(n: nat, low: int, high: int, name: Seq<char>)
    requires
        0 < n <= u32::MAX,
        low <= high,
    ensures
        field_complaint("*"@ + seq!['/'] + decimal(n), low, high, name) is None,
        forall|v: int| #[trigger]
            field_names("*"@ + seq!['/'] + decimal(n), low, high, name, v) <==> v <= high
                && exists|k: nat| v == low + #[trigger] (k * n),
{
    let s = "*"@ + seq!['/'] + decimal(n);
    reveal_strlit("*");
    lemma_stepped("*"@, n);
    lemma_single(s, low, high, name);
    assert forall|v: int| #[trigger] field_names(s, low, high, name, v) <==> v <= high
        && exists|k: nat| v == low + #[trigger] (k * n) by {
        lemma_steps(low, high, n, v);
    }
}

/// A range with a step names the first of its numbers and every so many after it,
/// up to the last.
pub proof fn a_stepped_range_starts_at_its_first(
    a: nat,
    b: nat,
    n: nat,
    low: int,
    high: int,
    name: Seq<char>,
)
    requires
        0 < n <= u32::MAX,
        low <= a <= b <= high <= u32::MAX,
    ensures
        field_complaint(
            decimal(a) + seq!['-'] + decimal(b) + seq!['/'] + decimal(n),
            low,
            high,
            name,
        ) is None,
        forall|v: int| #[trigger]
            field_names(
                decimal(a) + seq!['-'] + decimal(b) + seq!['/'] + decimal(n),
                low,
                high,
                name,
                v,
            ) <==> v <= b && exists|k: nat| v == a + #[trigger] (k * n),
{
    let bounds = decimal(a) + seq!['-'] + decimal(b);
    let s = bounds + seq!['/'] + decimal(n);
    lemma_range(a, b, low, high, name);
    lemma_field_number(a, low, high, name);
    lemma_field_number(b, low, high, name);
    lemma_stepped(bounds, n);
    lemma_single(s, low, high, name);
    assert forall|v: int| #[trigger] field_names(s, low, high, name, v) <==> v <= b
        && exists|k: nat| v == a + #[trigger] (k * n) by {
        lemma_steps(a as int, b as int, n, v);
    }
}

/// A number with a step above one names itself and every so many after it, up to
/// the end of its field; with a step of one it names itself alone.
pub proof fn a_stepped_number_runs_to_the_end(
    a: nat,
    n: nat,
    low: int,
    high: int,
    name: Seq<char>,
)
    requires
        0 < n <= u32::MAX,
        low <= a <= high <= u32::MAX,
    ensures
        field_complaint(decimal(a) + seq!['/'] + decimal(n), low, high, name) is None,
        n > 1 ==> forall|v: int| #[trigger]
            field_names(decimal(a) + seq!['/'] + decimal(n), low, high, name, v) <==> v <= high
                && exists|k: nat| v == a + #[trigger] (k * n),
        n == 1 ==> forall|v: int| #[trigger]
            field_names(decimal(a) + seq!['/'] + decimal(n), low, high, name, v) <==> v == a,
{
    let s = decimal(a) + seq!['/'] + decimal(n);
    lemma_decimal(a);
    lemma_plain_digits(decimal(a));
    lemma_whole(decimal(a), '-');
    lemma_field_number(a, low, high, name);
    reveal_strlit("*");
    assert(decimal(a) != "*"@) by {
        assert(decimal(a)[0] != '*');
        assert("*"@[0] == '*');
    }
    lemma_stepped(decimal(a), n);
    lemma_single(s, low, high, name);
    if n > 1 {
        assert forall|v: int| #[trigger] field_names(s, low, high, name, v) <==> v <= high
            && exists|k: nat| v == a + #[trigger] (k * n) by {
            lemma_steps(a as int, high, n, v);
        }
    } else {
        assert forall|v: int| #[trigger] field_names(s, low, high, name, v) <==> v == a by {
            lemma_every_one(a as int, a as int, v);
        }
    }
}

/// A step of nothing is refused, whatever it stands behind.
pub proof fn a_step_of_nothing_is_refused(
    bounds: Seq<char>,
    low: int,
    high: int,
    name: Seq<char>,
)
    requires
        forall|i: int| 0 <= i < bounds.len() ==> #[trigger] bounds[i] != ',' && bounds[i] != '/',
    ensures
        field_complaint(bounds + seq!['/'] + decimal(0), low, high, name) is Some,
{
    lemma_stepped(bounds, 0);
    lemma_single(bounds + seq!['/'] + decimal(0), low, high, name);
}

/// A list names what its first part names and what the rest of it names, and is
/// refused when either is.
pub proof fn a_list_names_what_its_parts_name(
    part: Seq<char>,
    rest: Seq<char>,
    low: int,
    high: int,
    name: Seq<char>,
)
    requires
        forall|i: int| 0 <= i < part.len() ==> #[trigger] part[i] != ',',
    ensures
        field_complaint(part + seq![','] + rest, low, high, name) is None <==> field_complaint(
            part,
            low,
            high,
            name,
        ) is None && field_complaint(rest, low, high, name) is None,
        field_complaint(part + seq![','] + rest, low, high, name) is None ==> forall|v: int|
            #[trigger]
            field_names(part + seq![','] + rest, low, high, name, v) <==> field_names(
                part,
                low,
                high,
                name,
                v,
            ) || field_names(rest, low, high, name, v),
{
    let s = part + seq![','] + rest;
    lemma_parted(part, ',', rest);
    lemma_whole(part, ',');
    lemma_single(part, low, high, name);
    if field_complaint(part, low, high, name) is None && field_complaint(rest, low, high, name)
        is None {
        let stretch = part_stretch(part, low, high, name)->Ok_0;
        let others = field_stretches(rest, low, high, name)->Ok_0;
        let all = seq![stretch] + others;
        assert(field_stretches(s, low, high, name) == Ok::<Seq<Stretch>, Seq<char>>(all));
        assert forall|v: int| #[trigger] field_names(s, low, high, name, v) <==> field_names(
            part,
            low,
            high,
            name,
            v,
        ) || field_names(rest, low, high, name, v) by {
            if stretch.names(v) {
                assert(all[0].names(v));
            }
            if any_names(others, v) {
                let i = choose|i: int| 0 <= i < others.len() && #[trigger] others[i].names(v);
                assert(all[i + 1].names(v));
            }
            if any_names(all, v) {
                let i = choose|i: int| 0 <= i < all.len() && #[trigger] all[i].names(v);
                if i > 0 {
                    assert(others[i - 1].names(v));
                }
            }
        }
    }
}

/// Whether a text is one word.
pub open spec fn is_word(s: Seq<char>) -> bool {
    s.len() > 0 && forall|i: int| 0 <= i < s.len() ==> !is_white_space(#[trigger] s[i])
}

/// The words of a text that opens with a word and a space.
proof fn lemma_first_word(word: Seq<char>, rest: Seq<char>)
    requires
        is_word(word),
    ensures
        words(word + seq![' '] + rest) == seq![word] + words(rest),
{
    let s = word + seq![' '] + rest;
    let n = word.len() as int;
    assert(s[0] == word[0]);
    assert(trim_start(s, CharClass::White) == s);
    lemma_word_len(s);
    assert(s[n] == ' ');
    if word_len(s) < n {
        assert(s[word_len(s) as int] == word[word_len(s) as int]);
    }
    assert(word_len(s) == n);
    assert(s.take(n) == word);
    let tail = seq![' '] + rest;
    assert(s.skip(n) == tail);
    assert(tail.drop_first() == rest);
    assert(trim_start(tail, CharClass::White) == trim_start(rest, CharClass::White));
    assert(words(tail) == words(rest));
}

proof fn lemma_last_word(word: Seq<char>)
    requires
        is_word(word),
    ensures
        words(word) == seq![word],
{
    let n = word.len() as int;
    assert(trim_start(word, CharClass::White) == word);
    lemma_word_len(word);
    assert(word_len(word) == n);
    assert(word.take(n) == word);
    let tail = word.skip(n);
    assert(tail.len() == 0);
    assert(words(tail) == Seq::<Seq<char>>::empty());
    assert(words(word) == seq![word] + words(tail));
}

/// Five fields, with a space between each and the next.
pub open spec fn cron_text(
    minute: Seq<char>,
    hour: Seq<char>,
    day: Seq<char>,
    month: Seq<char>,
    weekday: Seq<char>,
) -> Seq<char> {
    minute + seq![' '] + (hour + seq![' '] + (day + seq![' '] + (month + seq![' '] + weekday)))
}

proof fn lemma_five_fields(
    minute: Seq<char>,
    hour: Seq<char>,
    day: Seq<char>,
    month: Seq<char>,
    weekday: Seq<char>,
)
    requires
        is_word(minute),
        is_word(hour),
        is_word(day),
        is_word(month),
        is_word(weekday),
    ensures
        words(cron_text(minute, hour, day, month, weekday)) == seq![
            minute,
            hour,
            day,
            month,
            weekday,
        ],
{
    lemma_last_word(weekday);
    let d = month + seq![' '] + weekday;
    let c = day + seq![' '] + d;
    let b = hour + seq![' '] + c;
    lemma_first_word(month, weekday);
    lemma_first_word(day, d);
    lemma_first_word(hour, c);
    lemma_first_word(minute, b);
    assert(words(cron_text(minute, hour, day, month, weekday)) == seq![
        minute,
        hour,
        day,
        month,
        weekday,
    ]);
}

/// An expression is read exactly when each of its five fields is: minute, hour, day of
/// the month, month and day of the week, in that order.
#[verifier::spinoff_prover]
#[verifier::rlimit(60)]
pub proof fn an_expression_is_read_when_its_fields_are(
    minute: Seq<char>,
    hour: Seq<char>,
    day: Seq<char>,
    month: Seq<char>,
    weekday: Seq<char>,
)
    requires
        is_word(minute),
        is_word(hour),
        is_word(day),
        is_word(month),
        is_word(weekday),
    ensures
        cron_complaint(cron_text(minute, hour, day, month, weekday)) is None <==> {
            &&& field_complaint(minute, 0, 59, "minute"@) is None
            &&& field_complaint(hour, 0, 23, "hour"@) is None
            &&& field_complaint(day, 1, 31, "day of month"@) is None
            &&& field_complaint(month, 1, 12, "month"@) is None
            &&& field_complaint(weekday, 0, 7, "day of week"@) is None
        },
{
    lemma_five_fields(minute, hour, day, month, weekday);
}

proof fn lemma_calendar_times(calendar: Calendar, fields: Seq<Seq<char>>, h: int, m: int)
    requires
        is_cron_calendar(calendar, fields),
    ensures
        calendar.times.has(h, m) <==> field_names(fields[1], 0, 23, "hour"@, h) && field_names(
            fields[0],
            0,
            59,
            "minute"@,
            m,
        ),
{
    if let Times::Crossed { minutes, hours } = calendar.times {
        assert(hours.has(h) <==> field_names(fields[1], 0, 23, "hour"@, h));
        assert(minutes.has(m) <==> field_names(fields[0], 0, 59, "minute"@, m));
    }
}

proof fn lemma_calendar_days(calendar: Calendar, fields: Seq<Seq<char>>, v: int)
    requires
        is_cron_calendar(calendar, fields),
    ensures
        calendar.days_of_month.has(v) <==> field_names(fields[2], 1, 31, "day of month"@, v),
        calendar.months.has(v) <==> field_names(fields[3], 1, 12, "month"@, v),
{
}

proof fn lemma_calendar_weekdays(calendar: Calendar, fields: Seq<Seq<char>>, v: int)
    requires
        is_cron_calendar(calendar, fields),
    ensures
        1 <= v <= 6 ==> (calendar.days_of_week.has(v) <==> field_names(
            fields[4],
            0,
            7,
            "day of week"@,
            v,
        )),
        calendar.days_of_week.has(0) <==> field_names(fields[4], 0, 7, "day of week"@, 0)
            || field_names(fields[4], 0, 7, "day of week"@, 7),
        !calendar.days_of_week.has(7),
{
}

/// A time is allowed when its hour and its minute are named, and a day of the month and
/// a month when they are.
#[verifier::spinoff_prover]
#[verifier::rlimit(60)]
pub proof fn the_fields_stand_in_order(
    minute: Seq<char>,
    hour: Seq<char>,
    day: Seq<char>,
    month: Seq<char>,
    weekday: Seq<char>,
    calendar: Calendar,
)
    requires
        is_word(minute),
        is_word(hour),
        is_word(day),
        is_word(month),
        is_word(weekday),
        is_cron_calendar(calendar, words(cron_text(minute, hour, day, month, weekday))),
    ensures
        forall|h: int, m: int| #[trigger]
            calendar.times.has(h, m) <==> field_names(hour, 0, 23, "hour"@, h) && field_names(
                minute,
                0,
                59,
                "minute"@,
                m,
            ),
        forall|v: int| #[trigger]
            calendar.days_of_month.has(v) <==> field_names(day, 1, 31, "day of month"@, v),
        forall|v: int| #[trigger]
            calendar.months.has(v) <==> field_names(month, 1, 12, "month"@, v),
{
    lemma_five_fields(minute, hour, day, month, weekday);
    let fields = words(cron_text(minute, hour, day, month, weekday));
    assert forall|h: int, m: int| #[trigger] calendar.times.has(h, m) <==> field_names(
        hour,
        0,
        23,
        "hour"@,
        h,
    ) && field_names(minute, 0, 59, "minute"@, m) by {
        lemma_calendar_times(calendar, fields, h, m);
    }
    assert forall|v: int| #[trigger] calendar.days_of_month.has(v) <==> field_names(
        day,
        1,
        31,
        "day of month"@,
        v,
    ) by {
        lemma_calendar_days(calendar, fields, v);
    }
    assert forall|v: int| #[trigger] calendar.months.has(v) <==> field_names(
        month,
        1,
        12,
        "month"@,
        v,
    ) by {
        lemma_calendar_days(calendar, fields, v);
    }
}

/// The days of the week an expression names are those its last field does. Sunday is
/// named by a nought and by a seven.
#[verifier::spinoff_prover]
#[verifier::rlimit(60)]
pub proof fn sunday_is_a_nought_or_a_seven(
    minute: Seq<char>,
    hour: Seq<char>,
    day: Seq<char>,
    month: Seq<char>,
    weekday: Seq<char>,
    calendar: Calendar,
)
    requires
        is_word(minute),
        is_word(hour),
        is_word(day),
        is_word(month),
        is_word(weekday),
        is_cron_calendar(calendar, words(cron_text(minute, hour, day, month, weekday))),
    ensures
        forall|v: int|
            1 <= v <= 6 ==> (#[trigger] calendar.days_of_week.has(v) <==> field_names(
                weekday,
                0,
                7,
                "day of week"@,
                v,
            )),
        calendar.days_of_week.has(0) <==> field_names(weekday, 0, 7, "day of week"@, 0)
            || field_names(weekday, 0, 7, "day of week"@, 7),
        !calendar.days_of_week.has(7),
{
    lemma_five_fields(minute, hour, day, month, weekday);
    let fields = words(cron_text(minute, hour, day, month, weekday));
    lemma_calendar_weekdays(calendar, fields, 0);
    assert forall|v: int| 1 <= v <= 6 implies (#[trigger] calendar.days_of_week.has(v)
        <==> field_names(weekday, 0, 7, "day of week"@, v)) by {
        lemma_calendar_weekdays(calendar, fields, v);
    }
}

/// An expression that does not have five fields is refused.
pub proof fn four_fields_are_refused(
    minute: Seq<char>,
    hour: Seq<char>,
    day: Seq<char>,
    month: Seq<char>,
)
    requires
        is_word(minute),
        is_word(hour),
        is_word(day),
        is_word(month),
    ensures
        cron_complaint(
            minute + seq![' '] + (hour + seq![' '] + (day + seq![' '] + month)),
        ) is Some,
{
    lemma_last_word(month);
    let c = day + seq![' '] + month;
    let b = hour + seq![' '] + c;
    lemma_first_word(day, month);
    lemma_first_word(hour, c);
    lemma_first_word(minute, b);
}

/// An expression of a minute, an hour and three stars is that time of every day.
#[verifier::spinoff_prover]
#[verifier::rlimit(60)]
pub proof fn a_minute_and_an_hour_are_a_daily_run(m: nat, h: nat, calendar: Calendar)
    requires
        m <= 59,
        h <= 23,
        is_cron_calendar(
            calendar,
            words(cron_text(decimal(m), decimal(h), "*"@, "*"@, "*"@)),
        ),
    ensures
        forall|hour: int, minute: int| #[trigger]
            calendar.times.has(hour, minute) <==> hour == h && minute == m,
        forall|number: int| #[trigger] calendar.names_day(number),
{
    reveal_strlit("*");
    lemma_decimal(m);
    lemma_decimal(h);
    lemma_plain_digits(decimal(m));
    lemma_plain_digits(decimal(h));
    assert(is_word(decimal(m)) && is_word(decimal(h)) && is_word("*"@));
    the_fields_stand_in_order(decimal(m), decimal(h), "*"@, "*"@, "*"@, calendar);
    sunday_is_a_nought_or_a_seven(decimal(m), decimal(h), "*"@, "*"@, "*"@, calendar);
    a_number_names_itself(m, 0, 59, "minute"@);
    a_number_names_itself(h, 0, 23, "hour"@);
    a_star_names_the_whole_field(1, 31, "day of month"@);
    a_star_names_the_whole_field(1, 12, "month"@);
    a_star_names_the_whole_field(0, 7, "day of week"@);
    lemma_every_day(calendar);
}

proof fn lemma_every_day(calendar: Calendar)
    requires
        forall|v: int| #[trigger] calendar.days_of_month.has(v) <==> 1 <= v <= 31,
        forall|v: int| #[trigger] calendar.months.has(v) <==> 1 <= v <= 12,
        forall|v: int| 0 <= v <= 6 ==> #[trigger] calendar.days_of_week.has(v),
    ensures
        forall|number: int| #[trigger] calendar.names_day(number),
{
    assert(calendar.days_of_month.is_whole(1, 31));
    assert forall|number: int| #[trigger] calendar.names_day(number) by {
        let (year, month, day) = lemma_some_date(number);
        lemma_date_of(year, month, day);
        assert(0 <= weekday_of(number) <= 6);
    }
}

/// A day of the week is named by its number, and Sunday by a seven too.
pub proof fn a_day_is_named_by_its_number(n: nat)
    ensures
        n <= 6 ==> named_day(decimal(n)) is Some && named_day(decimal(n))->0.index() == n,
        n == 7 ==> named_day(decimal(n)) is Some && named_day(decimal(n))->0.index() == 0,
        n > 7 ==> named_day(decimal(n)) is None,
{
    lemma_decimal(n);
    let s = decimal(n);
    assert(is_digit(s[0]));
    lemma_day_names();
    if n < 10 {
        assert(s == seq![digit(n)]);
        assert(s[0] == digit(n));
    } else {
        lemma_decimal(n / 10);
        assert(s.len() >= 2);
    }
}

proof fn lemma_day_names()
    ensures
        "0"@ == seq!['0'],
        "1"@ == seq!['1'],
        "2"@ == seq!['2'],
        "3"@ == seq!['3'],
        "4"@ == seq!['4'],
        "5"@ == seq!['5'],
        "6"@ == seq!['6'],
        "7"@ == seq!['7'],
        "sun"@[0] == 's' && "sunday"@[0] == 's',
        "mon"@[0] == 'm' && "monday"@[0] == 'm',
        "tue"@[0] == 't' && "tues"@[0] == 't' && "tuesday"@[0] == 't',
        "wed"@[0] == 'w' && "weds"@[0] == 'w' && "wednesday"@[0] == 'w',
        "thu"@[0] == 't' && "thur"@[0] == 't' && "thurs"@[0] == 't' && "thursday"@[0] == 't',
        "fri"@[0] == 'f' && "friday"@[0] == 'f',
        "sat"@[0] == 's' && "saturday"@[0] == 's',
{
    reveal_strlit("0");
    reveal_strlit("1");
    reveal_strlit("2");
    reveal_strlit("3");
    reveal_strlit("4");
    reveal_strlit("5");
    reveal_strlit("6");
    reveal_strlit("7");
    reveal_strlit("sun");
    reveal_strlit("sunday");
    reveal_strlit("mon");
    reveal_strlit("monday");
    reveal_strlit("tue");
    reveal_strlit("tues");
    reveal_strlit("tuesday");
    reveal_strlit("wed");
    reveal_strlit("weds");
    reveal_strlit("wednesday");
    reveal_strlit("thu");
    reveal_strlit("thur");
    reveal_strlit("thurs");
    reveal_strlit("thursday");
    reveal_strlit("fri");
    reveal_strlit("friday");
    reveal_strlit("sat");
    reveal_strlit("saturday");
    assert("0"@ == seq!['0']);
    assert("1"@ == seq!['1']);
    assert("2"@ == seq!['2']);
    assert("3"@ == seq!['3']);
    assert("4"@ == seq!['4']);
    assert("5"@ == seq!['5']);
    assert("6"@ == seq!['6']);
    assert("7"@ == seq!['7']);
}

/// An hour and a minute with a colon between them are that time of day, one digit
/// or two, and there is none past 23:59.
pub proof fn an_hour_and_a_minute_are_a_time(h: nat, m: nat)
    ensures
        spelled_time(decimal(h) + seq![':'] + decimal(m)) == if h <= 23 && m <= 59 {
            Some((h as int, m as int))
        } else {
            None
        },
        h <= 99 && m <= 99 ==> spelled_time(two_digits(h) + seq![':'] + two_digits(m)) == if h <= 23
            && m <= 59 {
            Some((h as int, m as int))
        } else {
            None
        },
{
    lemma_decimal(h);
    lemma_decimal(m);
    lemma_plain_digits(decimal(h));
    lemma_plain_digits(decimal(m));
    lemma_parted(decimal(h), ':', decimal(m));
    if h <= 99 && m <= 99 {
        lemma_two_digits(h);
        lemma_two_digits(m);
        lemma_plain_digits(two_digits(h));
        lemma_plain_digits(two_digits(m));
        lemma_parted(two_digits(h), ':', two_digits(m));
    }
}

proof fn lemma_two_digits(n: nat)
    requires
        n <= 99,
    ensures
        all_digits(two_digits(n)),
        number(two_digits(n)) == Some(n as int),
{
    let s = two_digits(n);
    assert(is_digit(s[0]) && is_digit(s[1]));
    let t = s.drop_last();
    assert(t == seq![digit(n / 10)]);
    assert(t.drop_last() == Seq::<char>::empty());
    assert(digits_value(t.drop_last()) == 0);
    assert(digits_value(t) == n / 10);
    assert(unsigned_digits(s) == s);
}

/// A day of the week is named by its first three letters and by its whole name. Tuesday,
/// Wednesday and Thursday have a longer short form as well, and Thursday two.
pub proof fn a_day_is_named_by_its_name()
    ensures
        named_day("sun"@) == Some(Weekday::Sun) && named_day("sunday"@) == Some(Weekday::Sun),
        named_day("mon"@) == Some(Weekday::Mon) && named_day("monday"@) == Some(Weekday::Mon),
        named_day("tue"@) == Some(Weekday::Tue) && named_day("tues"@) == Some(Weekday::Tue),
        named_day("tuesday"@) == Some(Weekday::Tue),
        named_day("wed"@) == Some(Weekday::Wed) && named_day("weds"@) == Some(Weekday::Wed),
        named_day("wednesday"@) == Some(Weekday::Wed),
        named_day("thu"@) == Some(Weekday::Thu) && named_day("thur"@) == Some(Weekday::Thu),
        named_day("thurs"@) == Some(Weekday::Thu) && named_day("thursday"@) == Some(Weekday::Thu),
        named_day("fri"@) == Some(Weekday::Fri) && named_day("friday"@) == Some(Weekday::Fri),
        named_day("sat"@) == Some(Weekday::Sat) && named_day("saturday"@) == Some(Weekday::Sat),
{
    lemma_day_names();
    lemma_day_names_differ();
}

/// The names of days that open with the same letter differ in the next.
proof fn lemma_day_names_differ()
    ensures
        "sun"@[1] == 'u' && "sunday"@[1] == 'u' && "sat"@[1] == 'a' && "saturday"@[1] == 'a',
        "tue"@[1] == 'u' && "tues"@[1] == 'u' && "tuesday"@[1] == 'u',
        "thu"@[1] == 'h' && "thur"@[1] == 'h' && "thurs"@[1] == 'h' && "thursday"@[1] == 'h',
{
    reveal_strlit("sun");
    reveal_strlit("sunday");
    reveal_strlit("tue");
    reveal_strlit("tues");
    reveal_strlit("tuesday");
    reveal_strlit("thu");
    reveal_strlit("thur");
    reveal_strlit("thurs");
    reveal_strlit("thursday");
    reveal_strlit("sat");
    reveal_strlit("saturday");
}

} // verus!
