//! Text as a sequence of characters.
//!
//! The readers in this crate work on slices of characters, so that every
//! position they speak of is a position in the sequence the contracts speak of.
use vstd::prelude::*;
use vstd::slice::slice_subrange;
use vstd::string::*;

verus! {

/// The characters with the Unicode property `White_Space`.
pub open spec fn is_white_space(c: char) -> bool {
    ||| '\u{0009}' <= c <= '\u{000d}'
    ||| c == '\u{0020}'
    ||| c == '\u{0085}'
    ||| c == '\u{00a0}'
    ||| c == '\u{1680}'
    ||| '\u{2000}' <= c <= '\u{200a}'
    ||| c == '\u{2028}'
    ||| c == '\u{2029}'
    ||| c == '\u{202f}'
    ||| c == '\u{205f}'
    ||| c == '\u{3000}'
}

/// `char::is_whitespace` answers whether the character has the Unicode
/// property `White_Space`, which is a closed list of twenty-five characters.
pub assume_specification[ char::is_whitespace ](c: char) -> (b: bool)
    ensures
        b == is_white_space(c),
;

/// `String::push` appends one character.
pub assume_specification[ String::push ](s: &mut String, c: char)
    ensures
        final(s)@ == old(s)@.push(c),
;

/// `String::with_capacity` makes an empty string with room set aside. It panics on
/// more than `isize::MAX` bytes.
pub assume_specification[ String::with_capacity ](capacity: usize) -> (s: String)
    requires
        capacity <= isize::MAX,
    ensures
        s@ == Seq::<char>::empty(),
;

/// What `str::to_lowercase` returns for a text.
pub uninterp spec fn lowercase(text: Seq<char>) -> Seq<char>;

/// Whether every character is in the ASCII range.
pub open spec fn all_ascii(s: Seq<char>) -> bool {
    forall|i: int| 0 <= i < s.len() ==> (#[trigger] s[i] as u32) < 128
}

/// `str::to_lowercase` is the lowercase form Unicode gives the text. On ASCII
/// text that is the ASCII form, letter by letter; what it is on other text is
/// not said here.
pub assume_specification[ str::to_lowercase ](s: &str) -> (r: String)
    ensures
        r@ == lowercase(s@),
        all_ascii(s@) ==> r@ == ascii_lowercase(s@),
;

/// The ASCII letter in its small form; any other character as it is.
pub open spec fn ascii_lower(c: char) -> char {
    if 'A' <= c <= 'Z' {
        ((c as u32 + 32) as u32) as char
    } else {
        c
    }
}

/// The text with its ASCII letters in their small form.
pub open spec fn ascii_lowercase(s: Seq<char>) -> Seq<char> {
    s.map_values(|c: char| ascii_lower(c))
}

/// A kind of character that is taken off the ends of a text.
#[derive(Clone, Copy, Debug, PartialEq, Eq, Structural)]
pub enum CharClass {
    /// Anything with the property `White_Space`.
    White,
    /// A single or a double quotation mark.
    Quote,
    Semicolon,
    At,
    /// U+FEFF.
    ByteOrderMark,
}

impl CharClass {
    pub open spec fn has(self, c: char) -> bool {
        match self {
            CharClass::White => is_white_space(c),
            CharClass::Quote => c == '"' || c == '\'',
            CharClass::Semicolon => c == ';',
            CharClass::At => c == '@',
            CharClass::ByteOrderMark => c == '\u{feff}',
        }
    }

    pub fn holds(self, c: char) -> (b: bool)
        ensures
            b == self.has(c),
    {
        match self {
            CharClass::White => c.is_whitespace(),
            CharClass::Quote => c == '"' || c == '\'',
            CharClass::Semicolon => c == ';',
            CharClass::At => c == '@',
            CharClass::ByteOrderMark => c == '\u{feff}',
        }
    }
}

/// The text without the characters of the class at its start.
pub open spec fn trim_start(s: Seq<char>, class: CharClass) -> Seq<char>
    decreases s.len(),
{
    if s.len() > 0 && class.has(s.first()) {
        trim_start(s.drop_first(), class)
    } else {
        s
    }
}

/// The text without the characters of the class at its end.
pub open spec fn trim_end(s: Seq<char>, class: CharClass) -> Seq<char>
    decreases s.len(),
{
    if s.len() > 0 && class.has(s.last()) {
        trim_end(s.drop_last(), class)
    } else {
        s
    }
}

/// The text without the characters of the class at either end.
pub open spec fn trim(s: Seq<char>, class: CharClass) -> Seq<char> {
    trim_end(trim_start(s, class), class)
}

/// The text without white space at either end.
pub open spec fn trimmed(s: Seq<char>) -> Seq<char> {
    trim(s, CharClass::White)
}

pub fn strip_start<'a>(s: &'a [char], class: CharClass) -> (r: &'a [char])
    ensures
        r@ == trim_start(s@, class),
{
    let mut i: usize = 0;
    assert(s@.skip(0) == s@);
    while i < s.len() && class.holds(s[i])
        invariant
            i <= s@.len(),
            trim_start(s@, class) == trim_start(s@.skip(i as int), class),
        decreases s@.len() - i,
    {
        assert(s@.skip(i as int).drop_first() == s@.skip(i + 1));
        i = i + 1;
    }
    assert(s@.skip(i as int) == s@.subrange(i as int, s@.len() as int));
    slice_subrange(s, i, s.len())
}

pub fn strip_end<'a>(s: &'a [char], class: CharClass) -> (r: &'a [char])
    ensures
        r@ == trim_end(s@, class),
{
    let mut n: usize = s.len();
    assert(s@.take(n as int) == s@);
    while n > 0 && class.holds(s[n - 1])
        invariant
            n <= s@.len(),
            trim_end(s@, class) == trim_end(s@.take(n as int), class),
        decreases n,
    {
        assert(s@.take(n as int).drop_last() == s@.take(n - 1));
        n = n - 1;
    }
    assert(s@.take(n as int) == s@.subrange(0, n as int));
    slice_subrange(s, 0, n)
}

pub fn strip<'a>(s: &'a [char], class: CharClass) -> (r: &'a [char])
    ensures
        r@ == trim(s@, class),
{
    strip_end(strip_start(s, class), class)
}

/// Takes white space off both ends.
pub fn strip_white<'a>(s: &'a [char]) -> (r: &'a [char])
    ensures
        r@ == trimmed(s@),
{
    strip(s, CharClass::White)
}

/// The characters of a text.
pub fn chars_of(s: &str) -> (v: Vec<char>)
    ensures
        v@ == s@,
{
    let mut v: Vec<char> = Vec::new();
    for c in it: s.chars()
        invariant
            it.seq() == s@,
            v@ == s@.take(it.index() as int),
    {
        v.push(c);
        assert(v@ == s@.take(it.index() + 1));
    }
    assert(s@.take(s@.len() as int) == s@);
    v
}

/// The text made of these characters.
pub fn text_of(s: &[char]) -> (r: String)
    ensures
        r@ == s@,
{
    let mut out = String::new();
    let mut i: usize = 0;
    while i < s.len()
        invariant
            i <= s@.len(),
            out@ == s@.take(i as int),
        decreases s@.len() - i,
    {
        out.push(s[i]);
        assert(out@ == s@.take(i + 1));
        i = i + 1;
    }
    assert(s@.take(s@.len() as int) == s@);
    out
}

/// Where a character first stands in a text, or the text's length.
pub open spec fn position(s: Seq<char>, c: char) -> int
    decreases s.len(),
{
    if s.len() == 0 || s.first() == c {
        0
    } else {
        1 + position(s.drop_first(), c)
    }
}

pub proof fn lemma_position(s: Seq<char>, c: char)
    ensures
        0 <= position(s, c) <= s.len(),
        position(s, c) < s.len() ==> s[position(s, c)] == c,
        forall|i: int| 0 <= i < position(s, c) ==> s[i] != c,
        position(s, c) == s.len() <==> !s.contains(c),
    decreases s.len(),
{
    if s.len() > 0 && s.first() != c {
        let rest = s.drop_first();
        lemma_position(rest, c);
        assert forall|i: int| 0 <= i < position(s, c) implies s[i] != c by {
            if i > 0 {
                assert(s[i] == rest[i - 1]);
            }
        }
    }
    if position(s, c) == s.len() {
        assert(!s.contains(c));
    }
}

/// The first place a character stands is the place before which it does not.
pub proof fn lemma_position_at(s: Seq<char>, c: char, p: int)
    requires
        0 <= p <= s.len(),
        p < s.len() ==> s[p] == c,
        forall|i: int| 0 <= i < p ==> s[i] != c,
    ensures
        position(s, c) == p,
{
    lemma_position(s, c);
    let q = position(s, c);
    if q < p {
        assert(s[q] == c);
    } else if p < q {
        assert(s[p] != c);
    }
}

pub fn find(s: &[char], c: char) -> (p: usize)
    ensures
        p == position(s@, c),
        p <= s@.len(),
{
    let mut i: usize = 0;
    while i < s.len() && s[i] != c
        invariant
            i <= s@.len(),
            forall|j: int| 0 <= j < i ==> s@[j] != c,
        decreases s@.len() - i,
    {
        i = i + 1;
    }
    proof {
        lemma_position_at(s@, c, i as int);
    }
    i
}

/// The two halves of a text around the first occurrence of a character.
pub open spec fn split_once(s: Seq<char>, c: char) -> Option<(Seq<char>, Seq<char>)> {
    let p = position(s, c);
    if p < s.len() {
        Some((s.take(p), s.skip(p + 1)))
    } else {
        None
    }
}

pub fn cut_once<'a>(s: &'a [char], c: char) -> (r: Option<(&'a [char], &'a [char])>)
    ensures
        match r {
            Some((a, b)) => split_once(s@, c) == Some((a@, b@)),
            None => split_once(s@, c) is None,
        },
{
    let p = find(s, c);
    if p < s.len() {
        assert(s@.take(p as int) == s@.subrange(0, p as int));
        assert(s@.skip(p + 1) == s@.subrange(p + 1, s@.len() as int));
        Some((slice_subrange(s, 0, p), slice_subrange(s, p + 1, s.len())))
    } else {
        None
    }
}

/// The pieces of a text between the occurrences of a character.
pub open spec fn split(s: Seq<char>, c: char) -> Seq<Seq<char>>
    decreases s.len(),
{
    match split_once(s, c) {
        Some((a, b)) => {
            proof {
                lemma_position(s, c);
            }
            seq![a] + split(b, c)
        },
        None => seq![s],
    }
}

/// The words of a text: its longest runs without white space.
pub open spec fn words(s: Seq<char>) -> Seq<Seq<char>>
    decreases s.len(),
{
    let t = trim_start(s, CharClass::White);
    let n = word_len(t);
    if n == 0 {
        Seq::empty()
    } else {
        proof {
            lemma_trim_start_len(s, CharClass::White);
            lemma_word_len(t);
        }
        seq![t.take(n as int)] + words(t.skip(n as int))
    }
}

/// How many characters stand before the first white space.
pub open spec fn word_len(s: Seq<char>) -> nat
    decreases s.len(),
{
    if s.len() == 0 || is_white_space(s.first()) {
        0
    } else {
        1 + word_len(s.drop_first())
    }
}

pub proof fn lemma_word_len(s: Seq<char>)
    ensures
        word_len(s) <= s.len(),
        forall|i: int| 0 <= i < word_len(s) ==> !is_white_space(s[i]),
        word_len(s) < s.len() ==> is_white_space(s[word_len(s) as int]),
    decreases s.len(),
{
    if s.len() > 0 && !is_white_space(s.first()) {
        let rest = s.drop_first();
        lemma_word_len(rest);
        assert forall|i: int| 0 <= i < word_len(s) implies !is_white_space(s[i]) by {
            if i > 0 {
                assert(s[i] == rest[i - 1]);
            }
        }
    }
}

pub proof fn lemma_trim_start_len(s: Seq<char>, class: CharClass)
    ensures
        trim_start(s, class).len() <= s.len(),
        trim_start(s, class).len() > 0 ==> !class.has(trim_start(s, class).first()),
    decreases s.len(),
{
    if s.len() > 0 && class.has(s.first()) {
        lemma_trim_start_len(s.drop_first(), class);
    }
}

pub proof fn lemma_trim_end_len(s: Seq<char>, class: CharClass)
    ensures
        trim_end(s, class).len() <= s.len(),
        trim_end(s, class).len() > 0 ==> !class.has(trim_end(s, class).last()),
    decreases s.len(),
{
    if s.len() > 0 && class.has(s.last()) {
        lemma_trim_end_len(s.drop_last(), class);
    }
}

/// Where the word at the start of a text ends.
pub fn word_end(s: &[char]) -> (n: usize)
    ensures
        n == word_len(s@),
        n <= s@.len(),
{
    let mut i: usize = 0;
    assert(s@.skip(0) == s@);
    while i < s.len() && !s[i].is_whitespace()
        invariant
            i <= s@.len(),
            word_len(s@) == i + word_len(s@.skip(i as int)),
        decreases s@.len() - i,
    {
        assert(s@.skip(i as int).drop_first() == s@.skip(i + 1));
        i = i + 1;
    }
    assert(word_len(s@.skip(i as int)) == 0);
    i
}

/// The texts a list of slices holds.
pub open spec fn texts(v: Seq<&[char]>) -> Seq<Seq<char>> {
    v.map_values(|w: &[char]| w@)
}

/// The words of a text, as slices of it.
pub fn words_of<'a>(s: &'a [char]) -> (v: Vec<&'a [char]>)
    ensures
        texts(v@) == words(s@),
{
    let mut v: Vec<&'a [char]> = Vec::new();
    let mut rest: &'a [char] = s;
    assert(texts(v@) + words(rest@) == words(s@));
    loop
        invariant
            texts(v@) + words(rest@) == words(s@),
        ensures
            texts(v@) == words(s@),
        decreases rest@.len(),
    {
        let t = strip_start(rest, CharClass::White);
        let n = word_end(t);
        proof {
            lemma_trim_start_len(rest@, CharClass::White);
            lemma_word_len(t@);
        }
        if n == 0 {
            assert(words(rest@) == Seq::<Seq<char>>::empty());
            assert(texts(v@) == words(s@));
            break;
        }
        let word = slice_subrange(t, 0, n);
        let ghost before = texts(v@);
        let ghost old_rest = rest@;
        v.push(word);
        rest = slice_subrange(t, n, t.len());
        proof {
            assert(t@.take(n as int) == word@);
            assert(t@.skip(n as int) == rest@);
            assert(texts(v@) == before.push(word@));
            assert(words(old_rest) == seq![word@] + words(rest@));
            assert(texts(v@) + words(rest@) == before + (seq![word@] + words(rest@)));
        }
    }
    v
}

/// Whether two runs of characters are the same.
pub fn same_chars(a: &[char], b: &[char]) -> (r: bool)
    ensures
        r == (a@ == b@),
{
    if a.len() != b.len() {
        return false;
    }
    let mut i: usize = 0;
    while i < a.len()
        invariant
            a@.len() == b@.len(),
            i <= a@.len(),
            forall|j: int| 0 <= j < i ==> a@[j] == b@[j],
        decreases a@.len() - i,
    {
        if a[i] != b[i] {
            assert(a@ != b@);
            return false;
        }
        i = i + 1;
    }
    assert(a@ == b@);
    true
}

/// Whether these characters are that text.
pub fn is_text(a: &[char], text: &str) -> (r: bool)
    ensures
        r == (a@ == text@),
{
    let b = chars_of(text);
    same_chars(a, b.as_slice())
}

/// Whether two texts are the same.
pub fn same_text(a: &str, b: &str) -> (r: bool)
    ensures
        r == (a@ == b@),
{
    let a = chars_of(a);
    let b = chars_of(b);
    same_chars(a.as_slice(), b.as_slice())
}

/// Whether a text starts with another.
pub open spec fn starts_with(s: Seq<char>, start: Seq<char>) -> bool {
    s.len() >= start.len() && s.take(start.len() as int) == start
}

/// What is left after a start, where the text has it.
pub fn after<'a>(s: &'a [char], start: &str) -> (r: Option<&'a [char]>)
    ensures
        match r {
            Some(rest) => starts_with(s@, start@) && rest@ == s@.skip(start@.len() as int),
            None => !starts_with(s@, start@),
        },
{
    let start = chars_of(start);
    if s.len() < start.len() {
        return None;
    }
    assert(s@.subrange(0, start@.len() as int) == s@.take(start@.len() as int));
    if same_chars(slice_subrange(s, 0, start.len()), start.as_slice()) {
        assert(s@.subrange(start@.len() as int, s@.len() as int) == s@.skip(start@.len() as int));
        Some(slice_subrange(s, start.len(), s.len()))
    } else {
        None
    }
}

proof fn lemma_trimmed_before(before: Seq<char>, rest: Seq<char>, class: CharClass)
    requires
        forall|i: int| 0 <= i < before.len() ==> class.has(#[trigger] before[i]),
    ensures
        trim_start(before + rest, class) == trim_start(rest, class),
    decreases before.len(),
{
    if before.len() == 0 {
        assert(before + rest == rest);
    } else {
        let fewer = before.drop_first();
        assert forall|i: int| 0 <= i < fewer.len() implies class.has(#[trigger] fewer[i]) by {
            assert(fewer[i] == before[i + 1]);
        }
        assert((before + rest).drop_first() == fewer + rest);
        assert(class.has(before[0]));
        lemma_trimmed_before(fewer, rest, class);
    }
}

proof fn lemma_trimmed_after(rest: Seq<char>, after: Seq<char>, class: CharClass)
    requires
        forall|i: int| 0 <= i < after.len() ==> class.has(#[trigger] after[i]),
    ensures
        trim_end(rest + after, class) == trim_end(rest, class),
    decreases after.len(),
{
    if after.len() == 0 {
        assert(rest + after == rest);
    } else {
        let fewer = after.drop_last();
        assert forall|i: int| 0 <= i < fewer.len() implies class.has(#[trigger] fewer[i]) by {
            assert(fewer[i] == after[i]);
        }
        assert((rest + after).drop_last() == rest + fewer);
        assert(class.has(after[after.len() - 1]));
        lemma_trimmed_after(rest, fewer, class);
    }
}

/// What is left of a text is what stands between the characters of the class at its two
/// ends, and those alone are taken off, however many there are.
pub proof fn only_the_ends_are_taken_off(
    before: Seq<char>,
    s: Seq<char>,
    after: Seq<char>,
    class: CharClass,
)
    requires
        forall|i: int| 0 <= i < before.len() ==> class.has(#[trigger] before[i]),
        forall|i: int| 0 <= i < after.len() ==> class.has(#[trigger] after[i]),
        s.len() > 0,
        !class.has(s[0]),
        !class.has(s[s.len() - 1]),
    ensures
        trim(before + s + after, class) == s,
        trim_start(before + s + after, class) == s + after,
        trim_end(before + s + after, class) == before + s,
        trim(s, class) == s,
        trim_start(s, class) == s,
        trim_end(s, class) == s,
{
    assert(before + s + after == before + (s + after));
    lemma_trimmed_before(before, s + after, class);
    assert((s + after)[0] == s[0]);
    lemma_trimmed_after(s, after, class);
    lemma_trimmed_after(before + s, after, class);
    assert((before + s).last() == s[s.len() - 1]);
}

/// Nothing is left of a text that holds characters of the class only.
pub proof fn nothing_is_left_of_a_blank(blank: Seq<char>, class: CharClass)
    requires
        forall|i: int| 0 <= i < blank.len() ==> class.has(#[trigger] blank[i]),
    ensures
        trim(blank, class).len() == 0,
        trim_start(blank, class).len() == 0,
        trim_end(blank, class).len() == 0,
{
    let none = Seq::<char>::empty();
    assert(blank + none == blank);
    assert(none + blank == blank);
    lemma_trimmed_before(blank, none, class);
    lemma_trimmed_after(none, blank, class);
}

/// A text is cut at the first of a mark: what stands before it holds none, and the two
/// halves with the mark between them are the text.
pub proof fn a_text_is_cut_at_the_first_mark(s: Seq<char>, c: char)
    ensures
        s.contains(c) <==> split_once(s, c) is Some,
        split_once(s, c) matches Some((a, b)) ==> a + seq![c] + b == s && !a.contains(c),
{
    lemma_position(s, c);
    if let Some((a, b)) = split_once(s, c) {
        let p = position(s, c);
        assert(a + seq![c] + b =~= s);
        if a.contains(c) {
            let i = choose|i: int| 0 <= i < a.len() && a[i] == c;
            assert(s[i] == c);
        }
    }
}

/// The lines of a text with a mark in it are its first line and those of the rest.
pub proof fn the_pieces_of_a_text(a: Seq<char>, c: char, b: Seq<char>)
    requires
        !a.contains(c),
    ensures
        split(a, c) == seq![a],
        split(a + seq![c] + b, c) == seq![a] + split(b, c),
{
    let s = a + seq![c] + b;
    assert forall|i: int| 0 <= i < a.len() implies a[i] != c by {
        assert(a.contains(a[i]));
    }
    lemma_position_at(a, c, a.len() as int);
    lemma_position_at(s, c, a.len() as int);
    assert(s.take(a.len() as int) == a);
    assert(s.skip(a.len() as int + 1) == b);
}

/// The capital letters of ASCII have a small form, and every other character is its own.
pub proof fn only_capital_letters_change(c: char)
    ensures
        'A' <= c && c <= 'Z' ==> ascii_lower(c) as int == c as int + 32,
        !('A' <= c && c <= 'Z') ==> ascii_lower(c) == c,
        ascii_lower(ascii_lower(c)) == ascii_lower(c),
{
}

/// A text in its small form is as long as it was, and each letter stands where it stood.
pub proof fn letters_stay_where_they_stand(s: Seq<char>, i: int)
    requires
        0 <= i < s.len(),
    ensures
        ascii_lowercase(s).len() == s.len(),
        ascii_lowercase(s)[i] == ascii_lower(s[i]),
{
}

/// Words are parted by white space, whichever and however much it is, and white space before the
/// first or behind the last is no word.
pub proof fn words_are_parted_by_white_space(
    before: Seq<char>,
    word: Seq<char>,
    gap: Seq<char>,
    rest: Seq<char>,
)
    requires
        forall|i: int| 0 <= i < before.len() ==> is_white_space(#[trigger] before[i]),
        word.len() > 0,
        forall|i: int| 0 <= i < word.len() ==> !is_white_space(#[trigger] word[i]),
        gap.len() > 0,
        forall|i: int| 0 <= i < gap.len() ==> is_white_space(#[trigger] gap[i]),
    ensures
        words(before + word + gap + rest) == seq![word] + words(rest),
        words(before + word) == seq![word],
        words(before).len() == 0,
{
    let class = CharClass::White;
    let none = Seq::<char>::empty();
    let n = word.len() as int;
    let s = word + gap + rest;
    assert(before + word + gap + rest == before + s);
    lemma_trimmed_before(before, s, class);
    assert(s[0] == word[0]);
    assert(trim_start(s, class) == s);
    lemma_word_len(s);
    assert(s[n] == gap[0]);
    if word_len(s) < n {
        assert(s[word_len(s) as int] == word[word_len(s) as int]);
    }
    assert(s.take(n) == word);
    assert(s.skip(n) == gap + rest);
    lemma_trimmed_before(gap, rest, class);
    assert(words(gap + rest) == words(rest));
    assert(words(before + s) == seq![word] + words(gap + rest));
    lemma_trimmed_before(before, word, class);
    assert(trim_start(word, class) == word);
    lemma_word_len(word);
    assert(word_len(word) == n);
    assert(word.take(n) == word);
    assert(word.skip(n) == none);
    assert(words(none) == Seq::<Seq<char>>::empty());
    assert(words(before + word) == seq![word] + words(word.skip(n)));
    nothing_is_left_of_a_blank(before, class);
    assert(trim_start(before, class) == none);
}

} // verus!
