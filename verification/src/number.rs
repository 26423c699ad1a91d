//! Whole numbers, written in decimal and read back, and hexadecimal digits.
use vstd::prelude::*;
use vstd::slice::slice_subrange;
use vstd::string::*;

verus! {

pub open spec fn is_digit(c: char) -> bool {
    '0' <= c <= '9'
}

/// What a decimal digit stands for.
pub open spec fn digit_value(c: char) -> int {
    c as u32 - '0' as u32
}

/// The digit that stands for a number below ten.
pub open spec fn digit(n: nat) -> char {
    ('0' as u32 + n) as char
}

/// What a run of digits stands for, the most significant first.
pub open spec fn digits_value(s: Seq<char>) -> int
    decreases s.len(),
{
    if s.len() == 0 {
        0
    } else {
        digits_value(s.drop_last()) * 10 + digit_value(s.last())
    }
}

pub open spec fn all_digits(s: Seq<char>) -> bool {
    &&& s.len() > 0
    &&& forall|i: int| 0 <= i < s.len() ==> is_digit(#[trigger] s[i])
}

/// The digits of a text, past the one plus sign it may open with.
pub open spec fn unsigned_digits(s: Seq<char>) -> Seq<char> {
    if s.len() > 0 && s.first() == '+' {
        s.drop_first()
    } else {
        s
    }
}

/// The number a text spells: an optional plus sign, and then digits alone.
pub open spec fn number(s: Seq<char>) -> Option<int> {
    let digits = unsigned_digits(s);
    if all_digits(digits) {
        Some(digits_value(digits))
    } else {
        None
    }
}

/// A number in decimal, without leading zeros.
pub open spec fn decimal(n: nat) -> Seq<char>
    decreases n,
{
    if n < 10 {
        seq![digit(n)]
    } else {
        decimal(n / 10).push(digit(n % 10))
    }
}

/// A number in decimal, with a minus sign when it is below zero.
pub open spec fn signed_decimal(n: int) -> Seq<char> {
    if n < 0 {
        seq!['-'] + decimal((-n) as nat)
    } else {
        decimal(n as nat)
    }
}

/// A number below a hundred, as two digits.
pub open spec fn two_digits(n: nat) -> Seq<char> {
    seq![digit(n / 10), digit(n % 10)]
}

/// A number as at least two digits.
pub open spec fn padded(n: nat) -> Seq<char> {
    if n < 100 {
        two_digits(n)
    } else {
        decimal(n)
    }
}

/// A written number is a run of digits that stands for the number.
pub proof fn lemma_decimal(n: nat)
    ensures
        all_digits(decimal(n)),
        digits_value(decimal(n)) == n,
        number(decimal(n)) == Some(n as int),
    decreases n,
{
    if n < 10 {
        let s = decimal(n);
        assert(s.drop_last() == Seq::<char>::empty());
        assert(is_digit(digit(n)));
        assert(digits_value(s.drop_last()) == 0);
    } else {
        lemma_decimal(n / 10);
        let s = decimal(n);
        assert(s.drop_last() == decimal(n / 10));
        assert(is_digit(digit(n % 10)));
        assert forall|i: int| 0 <= i < s.len() implies is_digit(#[trigger] s[i]) by {
            if i < s.len() - 1 {
                assert(s[i] == decimal(n / 10)[i]);
            }
        }
    }
    assert(is_digit(decimal(n).first()));
}

proof fn lemma_digits_value_nonnegative(s: Seq<char>)
    requires
        forall|i: int| 0 <= i < s.len() ==> is_digit(#[trigger] s[i]),
    ensures
        digits_value(s) >= 0,
    decreases s.len(),
{
    if s.len() > 0 {
        let t = s.drop_last();
        assert forall|i: int| 0 <= i < t.len() implies is_digit(#[trigger] t[i]) by {
            assert(t[i] == s[i]);
        }
        lemma_digits_value_nonnegative(t);
        assert(is_digit(s[s.len() - 1]));
    }
}

proof fn lemma_digits_value_grows(s: Seq<char>, n: int)
    requires
        forall|i: int| 0 <= i < s.len() ==> is_digit(#[trigger] s[i]),
        0 <= n <= s.len(),
    ensures
        0 <= digits_value(s.take(n)) <= digits_value(s),
    decreases s.len(),
{
    lemma_digits_value_nonnegative(s.take(n));
    if n == s.len() {
        assert(s.take(n) == s);
    } else {
        let t = s.drop_last();
        assert forall|i: int| 0 <= i < t.len() implies is_digit(#[trigger] t[i]) by {
            assert(t[i] == s[i]);
        }
        assert(t.take(n) == s.take(n));
        lemma_digits_value_grows(t, n);
        assert(is_digit(s[s.len() - 1]));
    }
}

/// Reads a number that fits `u64`.
pub fn read_u64(s: &[char]) -> (r: Option<u64>)
    ensures
        match r {
            Some(v) => number(s@) == Some(v as int),
            None => number(s@) is None || number(s@)->0 > u64::MAX,
        },
{
    let digits = if s.len() > 0 && s[0] == '+' {
        slice_subrange(s, 1, s.len())
    } else {
        s
    };
    assert(digits@ == unsigned_digits(s@));
    if digits.len() == 0 {
        return None;
    }
    let mut i: usize = 0;
    while i < digits.len()
        invariant
            i <= digits@.len(),
            forall|j: int| 0 <= j < i ==> is_digit(#[trigger] digits@[j]),
            digits@ == unsigned_digits(s@),
        decreases digits@.len() - i,
    {
        let c = digits[i];
        if c < '0' || c > '9' {
            assert(!is_digit(digits@[i as int]));
            return None;
        }
        i = i + 1;
    }
    let mut value: u64 = 0;
    i = 0;
    while i < digits.len()
        invariant
            i <= digits@.len(),
            all_digits(digits@),
            digits@ == unsigned_digits(s@),
            value == digits_value(digits@.take(i as int)),
        decreases digits@.len() - i,
    {
        let c = digits[i];
        let d: u64 = (c as u32 - '0' as u32) as u64;
        proof {
            let next = digits@.take(i + 1);
            assert(next.drop_last() == digits@.take(i as int));
            assert(next.last() == c);
            assert(is_digit(digits@[i as int]));
            assert(digits_value(next) == value * 10 + d);
            lemma_digits_value_grows(digits@, i + 1);
        }
        if value > (u64::MAX - d) / 10 {
            return None;
        }
        value = value * 10 + d;
        i = i + 1;
    }
    assert(digits@.take(i as int) == digits@);
    Some(value)
}

/// Reads a number that fits `u32`.
pub fn read_u32(s: &[char]) -> (r: Option<u32>)
    ensures
        match r {
            Some(v) => number(s@) == Some(v as int),
            None => number(s@) is None || number(s@)->0 > u32::MAX,
        },
{
    match read_u64(s) {
        Some(v) => {
            if v <= u32::MAX as u64 {
                Some(v as u32)
            } else {
                None
            }
        },
        None => None,
    }
}

fn digit_of(n: u64) -> (c: char)
    requires
        n < 10,
    ensures
        c == digit(n as nat),
{
    ('0' as u8 + n as u8) as char
}

/// Appends a number in decimal.
pub fn push_u64(out: &mut String, n: u64)
    ensures
        final(out)@ == old(out)@ + decimal(n as nat),
    decreases n,
{
    if n >= 10 {
        push_u64(out, n / 10);
    }
    let ghost mid = out@;
    out.push(digit_of(n % 10));
    assert(out@ == old(out)@ + decimal(n as nat)) by {
        if n >= 10 {
            assert(mid.push(digit((n % 10) as nat)) == old(out)@ + decimal((n / 10) as nat).push(
                digit((n % 10) as nat),
            ));
        }
    }
}

/// Appends a number in decimal, with its sign when it is below zero.
pub fn push_i64(out: &mut String, n: i64)
    ensures
        final(out)@ == old(out)@ + signed_decimal(n as int),
{
    if n < 0 {
        out.push('-');
        let ghost mid = out@;
        let magnitude: u64 = (-(n as i128)) as u64;
        push_u64(out, magnitude);
        assert(mid + decimal(magnitude as nat) == old(out)@ + (seq!['-'] + decimal(
            magnitude as nat,
        )));
    } else {
        push_u64(out, n as u64);
    }
}

/// Appends a number as at least two digits.
pub fn push_two_digits(out: &mut String, n: u64)
    ensures
        final(out)@ == old(out)@ + padded(n as nat),
{
    if n < 100 {
        out.push(digit_of(n / 10));
        out.push(digit_of(n % 10));
        assert(out@ == old(out)@ + two_digits(n as nat));
    } else {
        push_u64(out, n);
    }
}

/// A number in decimal.
pub fn write_u64(n: u64) -> (r: String)
    ensures
        r@ == decimal(n as nat),
{
    let mut out = String::new();
    push_u64(&mut out, n);
    assert(Seq::<char>::empty() + decimal(n as nat) == decimal(n as nat));
    out
}

/// A number in decimal, with its sign when it is below zero.
pub fn write_i64(n: i64) -> (r: String)
    ensures
        r@ == signed_decimal(n as int),
{
    let mut out = String::new();
    push_i64(&mut out, n);
    assert(Seq::<char>::empty() + signed_decimal(n as int) == signed_decimal(n as int));
    out
}

/// The small hexadecimal digit of a number below sixteen.
pub open spec fn small_hex(n: int) -> char {
    if n < 10 {
        ('0' as u8 + n) as char
    } else {
        ('a' as u8 + (n - 10)) as char
    }
}

pub(crate) fn hex_digit(n: u8) -> (c: char)
    requires
        n < 16,
    ensures
        c == small_hex(n as int),
{
    if n < 10 {
        ('0' as u8 + n) as char
    } else {
        ('a' as u8 + (n - 10)) as char
    }
}

/// A number is spelled by its digits, with one plus sign before them or without, and with as
/// many noughts in front as there may be.
pub proof fn what_spells_a_number(n: nat)
    ensures
        number(decimal(n)) == Some(n as int),
        number(seq!['+'] + decimal(n)) == Some(n as int),
        number(seq!['0'] + decimal(n)) == Some(n as int),
        number(seq!['-'] + decimal(n)) is None,
        number(seq![' '] + decimal(n)) is None,
        number(Seq::empty()) is None,
        number(seq!['+']) is None,
{
    let s = decimal(n);
    lemma_decimal(n);
    let plus = seq!['+'] + s;
    assert(plus.drop_first() == s);
    let nought = seq!['0'] + s;
    assert(is_digit('0'));
    assert forall|i: int| 0 <= i < nought.len() implies is_digit(#[trigger] nought[i]) by {
        if i > 0 {
            assert(nought[i] == s[i - 1]);
        }
    }
    assert(nought.first() == '0');
    lemma_nought(s);
    let minus = seq!['-'] + s;
    assert(minus[0] == '-');
    assert(!is_digit(minus[0]));
    let space = seq![' '] + s;
    assert(!is_digit(space[0]));
    assert(seq!['+'].drop_first() == Seq::<char>::empty());
}

proof fn lemma_nought(s: Seq<char>)
    ensures
        digits_value(seq!['0'] + s) == digits_value(s),
    decreases s.len(),
{
    let t = seq!['0'] + s;
    if s.len() == 0 {
        assert(t.drop_last() == Seq::<char>::empty());
        assert(digits_value(t.drop_last()) == 0);
    } else {
        assert(t.drop_last() == seq!['0'] + s.drop_last());
        lemma_nought(s.drop_last());
    }
}

/// A text with anything but digits in it, past the sign it may open with, is no number.
pub proof fn only_digits_spell_a_number(s: Seq<char>, i: int)
    requires
        0 <= i < s.len(),
        !is_digit(s[i]),
        i > 0 || s[0] != '+',
    ensures
        number(s) is None,
{
    if s[0] == '+' {
        assert(s.drop_first()[i - 1] == s[i]);
    }
}

} // verus!
