//! Domain types: what gets stored and what goes out as JSON.
use vstd::prelude::*;
use vstd::string::*;
use vstd::utf8::encode_utf8;

use crate::text::{chars_of, is_white_space, same_text};
use crate::Pk;

verus! {

/// An account as it is stored.
#[derive(Debug, PartialEq, Eq)]
pub struct User {
    pub pk: Pk,
    pub username: String,
    pub full_name: Option<String>,
    pub is_private: Option<bool>,
    pub is_verified: Option<bool>,
    pub pfp_url: Option<String>,
}

/// A copy of a text that may be absent.
pub fn copy_text(text: &Option<String>) -> (r: Option<String>)
    ensures
        r == *text,
{
    match text {
        Some(text) => Some(text.clone()),
        None => None,
    }
}

impl Clone for User {
    fn clone(&self) -> (r: User)
        ensures
            r == *self,
    {
        User {
            pk: self.pk,
            username: self.username.clone(),
            full_name: copy_text(&self.full_name),
            is_private: self.is_private,
            is_verified: self.is_verified,
            pfp_url: copy_text(&self.pfp_url),
        }
    }
}

/// A letter or a digit of ASCII.
pub open spec fn is_alphanumeric(byte: u8) -> bool {
    ||| '0' as u8 <= byte <= '9' as u8
    ||| 'A' as u8 <= byte <= 'Z' as u8
    ||| 'a' as u8 <= byte <= 'z' as u8
}

/// What may sit in a path segment unescaped: RFC 3986's unreserved set.
pub open spec fn is_unreserved(byte: u8) -> bool {
    ||| is_alphanumeric(byte)
    ||| byte == '-' as u8
    ||| byte == '.' as u8
    ||| byte == '_' as u8
    ||| byte == '~' as u8
}

/// The capital hexadecimal digit of a number below sixteen.
pub open spec fn capital_hex(n: int) -> char {
    if n < 10 {
        ('0' as u8 + n) as char
    } else {
        ('A' as u8 + (n - 10)) as char
    }
}

/// A byte as a percent sign and two hexadecimal digits.
pub open spec fn escaped_byte(byte: u8) -> Seq<char> {
    seq!['%', capital_hex(byte as int / 16), capital_hex(byte as int % 16)]
}

/// `percent_encoding::percent_encode_byte` writes a byte, whatever it is, as a
/// percent sign and two capital hexadecimal digits.
pub assume_specification[ percent_encoding::percent_encode_byte ](byte: u8) -> (r: &'static str)
    ensures
        r@ == escaped_byte(byte),
;

/// A byte of a path segment: as it is where it may be, and escaped where not.
pub open spec fn path_byte(byte: u8) -> Seq<char> {
    if is_unreserved(byte) {
        seq![byte as char]
    } else {
        escaped_byte(byte)
    }
}

/// Bytes as one segment of a URL path.
pub open spec fn path_segment(bytes: Seq<u8>) -> Seq<char>
    decreases bytes.len(),
{
    if bytes.len() == 0 {
        Seq::empty()
    } else {
        path_segment(bytes.drop_last()) + path_byte(bytes.last())
    }
}

fn unreserved(byte: u8) -> (r: bool)
    ensures
        r == is_unreserved(byte),
{
    let c = byte as char;
    ('0' <= c && c <= '9') || ('A' <= c && c <= 'Z') || ('a' <= c && c <= 'z') || c == '-' || c
        == '.' || c == '_' || c == '~'
}

/// A name, ready to be one segment of a URL path.
///
/// Encoded rather than filtered: removing a character from a name yields the
/// address of a different account.
pub fn in_a_path(name: &str) -> (r: String)
    ensures
        r@ == path_segment(encode_utf8(name@)),
{
    let bytes = name.as_bytes();
    let mut out = String::new();
    let mut i: usize = 0;
    while i < bytes.len()
        invariant
            i <= bytes@.len(),
            out@ == path_segment(bytes@.take(i as int)),
        decreases bytes@.len() - i,
    {
        let byte: u8 = bytes[i];
        let ghost before = out@;
        if unreserved(byte) {
            out.push(byte as char);
        } else {
            out.append(percent_encoding::percent_encode_byte(byte));
        }
        proof {
            assert(bytes@.take(i + 1).drop_last() == bytes@.take(i as int));
            assert(bytes@.take(i + 1).last() == byte);
            assert(out@ == before + path_byte(byte));
        }
        i = i + 1;
    }
    assert(bytes@.take(bytes@.len() as int) == bytes@);
    out
}

/// What is left of a character a terminal is shown: a space for white space,
/// nothing for what it would obey rather than show, and itself otherwise.
pub open spec fn shown(c: char) -> Seq<char> {
    if is_white_space(c) {
        seq![' ']
    } else if is_control_char(c) || is_invisible_char(c) {
        Seq::empty()
    } else {
        seq![c]
    }
}

/// A text without what a terminal would obey rather than show.
pub open spec fn shown_text(s: Seq<char>) -> Seq<char>
    decreases s.len(),
{
    if s.len() == 0 {
        Seq::empty()
    } else {
        shown_text(s.drop_last()) + shown(s.last())
    }
}

/// The characters of the Unicode category `Cc`: the C0 and the C1 controls and
/// the delete between them.
pub open spec fn is_control_char(c: char) -> bool {
    c <= '\u{1f}' || '\u{7f}' <= c <= '\u{9f}'
}

/// `char::is_control` answers whether the character is in the category `Cc`.
pub assume_specification[ char::is_control ](c: char) -> (b: bool)
    ensures
        b == is_control_char(c),
;

/// The characters that show nothing but change how their neighbors read.
pub open spec fn is_invisible_char(c: char) -> bool {
    ||| c == '\u{00ad}'
    ||| '\u{0600}' <= c <= '\u{0605}'
    ||| c == '\u{061c}'
    ||| c == '\u{06dd}'
    ||| c == '\u{070f}'
    ||| '\u{0890}' <= c <= '\u{0891}'
    ||| c == '\u{08e2}'
    ||| '\u{115f}' <= c <= '\u{1160}'
    ||| c == '\u{180e}'
    ||| '\u{200b}' <= c <= '\u{200f}'
    ||| '\u{202a}' <= c <= '\u{202e}'
    ||| '\u{2060}' <= c <= '\u{206f}'
    ||| c == '\u{3164}'
    ||| c == '\u{feff}'
    ||| c == '\u{ffa0}'
    ||| '\u{fff9}' <= c <= '\u{fffb}'
    ||| c == '\u{110bd}'
    ||| c == '\u{110cd}'
    ||| '\u{13430}' <= c <= '\u{1343f}'
    ||| '\u{1bca0}' <= c <= '\u{1bca3}'
    ||| '\u{1d173}' <= c <= '\u{1d17a}'
    ||| '\u{e0000}' <= c <= '\u{e007f}'
}

fn within(c: char, low: char, high: char) -> (r: bool)
    ensures
        r == (low <= c <= high),
{
    low <= c && c <= high
}

/// The characters that show nothing but change how their neighbors read:
/// bidirectional overrides, zero-width characters, the tag block, and what is
/// blank by rendering rather than by category.
fn is_invisible(c: char) -> (r: bool)
    ensures
        r == is_invisible_char(c),
{
    c == '\u{00ad}' || within(c, '\u{0600}', '\u{0605}') || c == '\u{061c}' || c == '\u{06dd}' || c
        == '\u{070f}' || within(c, '\u{0890}', '\u{0891}') || c == '\u{08e2}' || within(
        c,
        '\u{115f}',
        '\u{1160}',
    ) || c == '\u{180e}' || within(c, '\u{200b}', '\u{200f}') || within(c, '\u{202a}', '\u{202e}')
        || within(c, '\u{2060}', '\u{206f}') || c == '\u{3164}' || c == '\u{feff}' || c
        == '\u{ffa0}' || within(c, '\u{fff9}', '\u{fffb}') || c == '\u{110bd}' || c == '\u{110cd}'
        || within(c, '\u{13430}', '\u{1343f}') || within(c, '\u{1bca0}', '\u{1bca3}') || within(
        c,
        '\u{1d173}',
        '\u{1d17a}',
    ) || within(c, '\u{e0000}', '\u{e007f}')
}

/// Strips what a terminal would obey rather than show.
///
/// White space becomes a space rather than vanishing, because deleting it would
/// join two words that were never one.
pub fn printable(text: &str) -> (r: String)
    ensures
        r@ == shown_text(text@),
{
    let chars = chars_of(text);
    let mut out = String::new();
    let mut i: usize = 0;
    while i < chars.len()
        invariant
            i <= chars@.len(),
            chars@ == text@,
            out@ == shown_text(chars@.take(i as int)),
        decreases chars@.len() - i,
    {
        let c = chars[i];
        let ghost before = out@;
        if c.is_whitespace() {
            out.push(' ');
        } else if !c.is_control() && !is_invisible(c) {
            out.push(c);
        }
        proof {
            assert(chars@.take(i + 1).drop_last() == chars@.take(i as int));
            assert(out@ == before + shown(c));
        }
        i = i + 1;
    }
    assert(chars@.take(chars@.len() as int) == chars@);
    out
}

impl User {
    /// The address of this account, with the name encoded into it.
    pub fn profile_url(&self) -> (r: String)
        ensures
            r@ == "https://www.instagram.com/"@ + path_segment(encode_utf8(self.username@)) + "/"@,
    {
        let mut out = String::new();
        out.append("https://www.instagram.com/");
        out.append(in_a_path(self.username.as_str()).as_str());
        out.append("/");
        assert(out@ == "https://www.instagram.com/"@ + path_segment(encode_utf8(self.username@))
            + "/"@);
        out
    }

    /// The full name with what a terminal would interpret taken out.
    pub fn safe_full_name(&self) -> (r: Option<String>)
        ensures
            match (r, self.full_name) {
                (Some(shown), Some(name)) => shown@ == shown_text(name@),
                (None, None) => true,
                _ => false,
            },
    {
        match &self.full_name {
            Some(name) => Some(printable(name.as_str())),
            None => None,
        }
    }

    /// The username, likewise.
    pub fn safe_username(&self) -> (r: String)
        ensures
            r@ == shown_text(self.username@),
    {
        printable(self.username.as_str())
    }
}

/// Which side of the follow relationship.
#[derive(Debug, Clone, Copy, PartialEq, Eq, Structural)]
pub enum ListKind {
    Followers,
    Following,
}

impl ListKind {
    /// How it is stored and how it appears in a path.
    pub open spec fn token(self) -> Seq<char> {
        match self {
            ListKind::Followers => "followers"@,
            ListKind::Following => "following"@,
        }
    }

    pub fn as_str(self) -> (r: &'static str)
        ensures
            r@ == self.token(),
    {
        match self {
            ListKind::Followers => "followers",
            ListKind::Following => "following",
        }
    }

    pub fn to_string(&self) -> (r: String)
        ensures
            r@ == self.token(),
    {
        self.as_str().to_owned()
    }

    /// The list a stored token names. Anything else is refused rather than
    /// taken for one of the two.
    pub fn parse(text: &str) -> (r: Option<ListKind>)
        ensures
            match r {
                Some(kind) => text@ == kind.token(),
                None => text@ != ListKind::Followers.token() && text@
                    != ListKind::Following.token(),
            },
    {
        if same_text(text, "followers") {
            Some(ListKind::Followers)
        } else if same_text(text, "following") {
            Some(ListKind::Following)
        } else {
            None
        }
    }
}

impl std::str::FromStr for ListKind {
    type Err = ();

    fn from_str(text: &str) -> (r: Result<ListKind, ()>)
        ensures
            match r {
                Ok(kind) => text@ == kind.token(),
                Err(_) => text@ != ListKind::Followers.token() && text@
                    != ListKind::Following.token(),
            },
    {
        match ListKind::parse(text) {
            Some(kind) => Ok(kind),
            None => Err(()),
        }
    }
}

/// Why a walk ended. Determines whether the snapshot can be compared against.
#[derive(Debug, Clone, Copy, PartialEq, Eq, Structural)]
pub enum StopReason {
    /// The whole list was walked.
    Completed,
    /// The user interrupted it.
    Canceled,
    /// A caller-requested page cap was hit.
    PageLimit,
    /// The far end stopped serving pages early.
    Truncated,
    /// The far end is throttling requests.
    RateLimit,
    /// A network failure that did not recover.
    Network,
    /// The session stopped working.
    SessionInvalid,
}

impl StopReason {
    /// Every variant.
    pub const ALL: [StopReason; 7] = [
        StopReason::Completed,
        StopReason::Canceled,
        StopReason::PageLimit,
        StopReason::Truncated,
        StopReason::RateLimit,
        StopReason::Network,
        StopReason::SessionInvalid,
    ];

    /// Whether the resulting snapshot can be used as the basis of a comparison.
    /// Only a full walk describes the whole list.
    pub fn yields_complete_list(self) -> (r: bool)
        ensures
            r == (self == StopReason::Completed),
    {
        matches!(self, StopReason::Completed)
    }

    /// How it is stored.
    pub open spec fn token(self) -> Seq<char> {
        match self {
            StopReason::Completed => "completed"@,
            StopReason::Canceled => "canceled"@,
            StopReason::PageLimit => "page_limit"@,
            StopReason::Truncated => "truncated"@,
            StopReason::RateLimit => "rate_limit"@,
            StopReason::Network => "network"@,
            StopReason::SessionInvalid => "session_invalid"@,
        }
    }

    pub fn as_str(self) -> (r: &'static str)
        ensures
            r@ == self.token(),
    {
        match self {
            StopReason::Completed => "completed",
            StopReason::Canceled => "canceled",
            StopReason::PageLimit => "page_limit",
            StopReason::Truncated => "truncated",
            StopReason::RateLimit => "rate_limit",
            StopReason::Network => "network",
            StopReason::SessionInvalid => "session_invalid",
        }
    }
}

/// The two lists are stored under different tokens.
pub proof fn the_two_lists_have_distinct_tokens(a: ListKind, b: ListKind)
    ensures
        a.token() == b.token() <==> a == b,
{
    reveal_strlit("followers");
    reveal_strlit("following");
    assert("followers"@[6] == 'e');
    assert("following"@[6] == 'i');
}

/// Every reason is stored under a token of its own.
pub proof fn every_reason_has_a_token_of_its_own(a: StopReason, b: StopReason)
    ensures
        a.token() == b.token() <==> a == b,
{
    reveal_strlit("completed");
    reveal_strlit("canceled");
    reveal_strlit("page_limit");
    reveal_strlit("truncated");
    reveal_strlit("rate_limit");
    reveal_strlit("network");
    reveal_strlit("session_invalid");
    assert("completed"@.len() == 9 && "canceled"@.len() == 8 && "page_limit"@.len() == 10);
    assert("truncated"@.len() == 9 && "rate_limit"@.len() == 10 && "network"@.len() == 7);
    assert("session_invalid"@.len() == 15);
    assert("page_limit"@[0] == 'p');
    assert("rate_limit"@[0] == 'r');
    assert("completed"@[0] == 'c');
    assert("truncated"@[0] == 't');
}

/// A name made of characters that may sit in a path comes out unchanged.
pub proof fn an_ordinary_name_is_its_own_path_segment(bytes: Seq<u8>)
    requires
        forall|i: int| 0 <= i < bytes.len() ==> is_unreserved(#[trigger] bytes[i]),
    ensures
        path_segment(bytes) == bytes.map_values(|b: u8| b as char),
    decreases bytes.len(),
{
    if bytes.len() > 0 {
        let rest = bytes.drop_last();
        assert forall|i: int| 0 <= i < rest.len() implies is_unreserved(#[trigger] rest[i]) by {
            assert(rest[i] == bytes[i]);
        }
        an_ordinary_name_is_its_own_path_segment(rest);
        assert(is_unreserved(bytes[bytes.len() - 1]));
        assert(path_segment(bytes) == bytes.map_values(|b: u8| b as char));
    } else {
        assert(path_segment(bytes) == bytes.map_values(|b: u8| b as char));
    }
}

proof fn lemma_escape_tells_bytes_apart(a: u8, b: u8)
    requires
        escaped_byte(a) == escaped_byte(b),
    ensures
        a == b,
{
    assert(escaped_byte(a)[1] == escaped_byte(b)[1]);
    assert(escaped_byte(a)[2] == escaped_byte(b)[2]);
}

proof fn lemma_segment_end(bytes: Seq<u8>)
    requires
        bytes.len() > 0,
    ensures
        ({
            let s = path_segment(bytes);
            let rest = path_segment(bytes.drop_last());
            if is_unreserved(bytes.last()) {
                s.len() == rest.len() + 1 && s.last() == bytes.last() as char
            } else {
                s.len() == rest.len() + 3 && s[s.len() - 3] == '%'
            }
        }),
{
}

/// Whether a character may stand in a path segment: an unreserved one, or the
/// percent sign of an escape.
pub open spec fn is_of_a_segment(c: char) -> bool {
    c == '%' || ((c as u32) < 0x80 && is_unreserved(c as u8))
}

/// Whatever a name holds, its path segment is made of unreserved characters and
/// percent signs alone: no slash, no white space and nothing to obey, so a name
/// cannot break out of the link it is put in.
pub proof fn a_name_cannot_break_out_of_its_link(bytes: Seq<u8>)
    ensures
        forall|i: int|
            0 <= i < path_segment(bytes).len() ==> is_of_a_segment(
                #[trigger] path_segment(bytes)[i],
            ),
    decreases bytes.len(),
{
    if bytes.len() > 0 {
        let rest = path_segment(bytes.drop_last());
        let end = path_byte(bytes.last());
        a_name_cannot_break_out_of_its_link(bytes.drop_last());
        assert forall|i: int| 0 <= i < end.len() implies is_of_a_segment(#[trigger] end[i]) by {}
        assert forall|i: int| 0 <= i < path_segment(bytes).len() implies is_of_a_segment(
            #[trigger] path_segment(bytes)[i],
        ) by {
            if i < rest.len() {
                assert(path_segment(bytes)[i] == rest[i]);
            } else {
                assert(path_segment(bytes)[i] == end[i - rest.len()]);
            }
        }
    }
}

/// A percent sign never stands among the last two characters of a segment.
proof fn lemma_segment_chars(bytes: Seq<u8>)
    ensures
        forall|i: int|
            path_segment(bytes).len() - 2 <= i < path_segment(bytes).len() && i >= 0
                ==> path_segment(bytes)[i] != '%',
    decreases bytes.len(),
{
    if bytes.len() > 0 {
        lemma_segment_chars(bytes.drop_last());
        lemma_segment_end(bytes);
    }
}

/// Two different names never have the same path segment: encoding one cannot
/// yield the address of another account.
pub proof fn a_path_segment_has_one_name(a: Seq<u8>, b: Seq<u8>)
    requires
        path_segment(a) == path_segment(b),
    ensures
        a == b,
    decreases a.len(),
{
    let s = path_segment(a);
    if a.len() == 0 || b.len() == 0 {
        if a.len() > 0 {
            lemma_segment_end(a);
        }
        if b.len() > 0 {
            lemma_segment_end(b);
        }
        assert(a == b);
    } else {
        lemma_segment_end(a);
        lemma_segment_end(b);
        lemma_segment_chars(a.drop_last());
        lemma_segment_chars(b.drop_last());
        let (x, y) = (a.last(), b.last());
        let (p, q) = (path_segment(a.drop_last()), path_segment(b.drop_last()));
        if is_unreserved(x) != is_unreserved(y) {
            // One ends in a plain character and the other in an escape, whose
            // percent sign stands third from the end.
            if is_unreserved(x) {
                assert(s[s.len() - 3] == '%');
                assert(s[s.len() - 3] == p[p.len() - 2]);
            } else {
                assert(s[s.len() - 3] == '%');
                assert(s[s.len() - 3] == q[q.len() - 2]);
            }
        }
        assert(p == s.take(p.len() as int));
        assert(q == s.take(q.len() as int));
        if is_unreserved(x) {
            assert(x == y);
        } else {
            assert(escaped_byte(x) == s.skip(p.len() as int));
            assert(escaped_byte(y) == s.skip(q.len() as int));
            lemma_escape_tells_bytes_apart(x, y);
        }
        a_path_segment_has_one_name(a.drop_last(), b.drop_last());
        assert(a == a.drop_last().push(x));
        assert(b == b.drop_last().push(y));
    }
}

/// Nothing a terminal would obey is left in what is shown.
pub proof fn what_is_shown_holds_nothing_to_obey(s: Seq<char>)
    ensures
        forall|i: int|
            0 <= i < shown_text(s).len() ==> !is_control_char(#[trigger] shown_text(s)[i])
                && !is_invisible_char(shown_text(s)[i]),
    decreases s.len(),
{
    if s.len() > 0 {
        what_is_shown_holds_nothing_to_obey(s.drop_last());
        let rest = shown_text(s.drop_last());
        assert forall|i: int| 0 <= i < shown_text(s).len() implies !is_control_char(
            #[trigger] shown_text(s)[i],
        ) && !is_invisible_char(shown_text(s)[i]) by {
            if i < rest.len() {
                assert(shown_text(s)[i] == rest[i]);
            }
        }
    }
}

/// Ordinary text is shown as it is.
pub proof fn ordinary_text_is_shown_as_it_is(s: Seq<char>)
    requires
        forall|i: int|
            0 <= i < s.len() ==> (#[trigger] s[i] == ' ' || !is_white_space(s[i]))
                && !is_control_char(s[i]) && !is_invisible_char(s[i]),
    ensures
        shown_text(s) == s,
    decreases s.len(),
{
    if s.len() > 0 {
        let rest = s.drop_last();
        assert forall|i: int| 0 <= i < rest.len() implies (#[trigger] rest[i] == ' '
            || !is_white_space(rest[i])) && !is_control_char(rest[i]) && !is_invisible_char(
            rest[i],
        ) by {
            assert(rest[i] == s[i]);
        }
        ordinary_text_is_shown_as_it_is(rest);
        assert(s[s.len() - 1] == s.last());
        assert(shown_text(s) == rest.push(s.last()));
        assert(rest.push(s.last()) == s);
    } else {
        assert(shown_text(s) == s);
    }
}

/// What has been made fit to show is shown as it is.
pub proof fn showing_twice_changes_nothing(s: Seq<char>)
    ensures
        shown_text(shown_text(s)) == shown_text(s),
    decreases s.len(),
{
    what_is_shown_holds_nothing_to_obey(s);
    lemma_only_plain_spaces(s);
    ordinary_text_is_shown_as_it_is(shown_text(s));
}

proof fn lemma_only_plain_spaces(s: Seq<char>)
    ensures
        forall|i: int|
            0 <= i < shown_text(s).len() ==> (#[trigger] shown_text(s)[i] == ' '
                || !is_white_space(shown_text(s)[i])),
    decreases s.len(),
{
    if s.len() > 0 {
        lemma_only_plain_spaces(s.drop_last());
        let rest = shown_text(s.drop_last());
        assert forall|i: int| 0 <= i < shown_text(s).len() implies (#[trigger] shown_text(s)[i]
            == ' ' || !is_white_space(shown_text(s)[i])) by {
            if i < rest.len() {
                assert(shown_text(s)[i] == rest[i]);
            }
        }
    }
}

/// Letters, digits and the marks `-`, `.`, `_` and `~` stand in a link as they are. Every
/// other byte is a percent sign and the two capital hexadecimal digits of the byte.
pub proof fn what_a_byte_becomes_in_a_link(byte: u8)
    ensures
        path_byte(byte) == if ('a' as u8 <= byte && byte <= 'z' as u8) || ('A' as u8 <= byte && byte
            <= 'Z' as u8) || ('0' as u8 <= byte && byte <= '9' as u8) || byte == 0x2d || byte
            == 0x2e || byte == 0x5f || byte == 0x7e {
            seq![byte as char]
        } else {
            seq![
                '%',
                "0123456789ABCDEF"@[byte as int / 16],
                "0123456789ABCDEF"@[byte as int % 16],
            ]
        },
{
    lemma_capital_digits();
}

proof fn lemma_capital_digits()
    ensures
        forall|n: int| 0 <= n < 16 ==> #[trigger] capital_hex(n) == "0123456789ABCDEF"@[n],
{
    reveal_strlit("0123456789ABCDEF");
    assert forall|n: int| 0 <= n < 16 implies #[trigger] capital_hex(n)
        == "0123456789ABCDEF"@[n] by {
        assert(n == 0 || n == 1 || n == 2 || n == 3 || n == 4 || n == 5 || n == 6 || n == 7 || n
            == 8 || n == 9 || n == 10 || n == 11 || n == 12 || n == 13 || n == 14 || n == 15);
    }
}

/// The parts of a name stand in its link one behind another.
pub proof fn a_name_stands_in_its_link_in_order(a: Seq<u8>, b: Seq<u8>)
    ensures
        path_segment(a + b) == path_segment(a) + path_segment(b),
    decreases b.len(),
{
    if b.len() == 0 {
        assert(a + b == a);
        assert(path_segment(a) + path_segment(b) == path_segment(a));
    } else {
        let rest = b.drop_last();
        assert((a + b).drop_last() == a + rest);
        a_name_stands_in_its_link_in_order(a, rest);
        assert(path_segment(a + b) =~= path_segment(a) + path_segment(b));
    }
}

/// The controls, the marks that turn the direction of a text, the characters without width
/// and the tags are not shown. A line break or a tab is shown as a space.
pub proof fn what_is_not_shown(c: char)
    ensures
        c == '\n' || c == '\r' || c == '\t' || c == '\u{2028}' || c == '\u{a0}' ==> shown(c) == seq![
            ' ',
        ],
        c < ' ' && !('\u{9}' <= c && c <= '\u{d}') ==> shown(c).len() == 0,
        '\u{7f}' <= c && c <= '\u{9f}' && c != '\u{85}' ==> shown(c).len() == 0,
        '\u{200b}' <= c && c <= '\u{200f}' ==> shown(c).len() == 0,
        '\u{202a}' <= c && c <= '\u{202e}' ==> shown(c).len() == 0,
        '\u{2060}' <= c && c <= '\u{206f}' ==> shown(c).len() == 0,
        '\u{e0000}' <= c && c <= '\u{e007f}' ==> shown(c).len() == 0,
        c == '\u{ad}' || c == '\u{61c}' || c == '\u{180e}' || c == '\u{3164}' || c == '\u{feff}' || c
            == '\u{ffa0}' ==> shown(c).len() == 0,
        '\u{600}' <= c && c <= '\u{605}' || c == '\u{6dd}' || c == '\u{70f}' ==> shown(c).len() == 0,
        '\u{890}' <= c && c <= '\u{891}' || c == '\u{8e2}' ==> shown(c).len() == 0,
        '\u{115f}' <= c && c <= '\u{1160}' ==> shown(c).len() == 0,
        '\u{fff9}' <= c && c <= '\u{fffb}' ==> shown(c).len() == 0,
        c == '\u{110bd}' || c == '\u{110cd}' ==> shown(c).len() == 0,
        '\u{13430}' <= c && c <= '\u{1343f}' ==> shown(c).len() == 0,
        '\u{1bca0}' <= c && c <= '\u{1bca3}' ==> shown(c).len() == 0,
        '\u{1d173}' <= c && c <= '\u{1d17a}' ==> shown(c).len() == 0,
        ' ' <= c && c <= '~' ==> shown(c) == seq![c],
        '\u{a1}' <= c && c <= '\u{ac}' ==> shown(c) == seq![c],
        '\u{ae}' <= c && c <= '\u{5ff}' ==> shown(c) == seq![c],
        '\u{3165}' <= c && c <= '\u{d7ff}' ==> shown(c) == seq![c],
        '\u{1f300}' <= c && c <= '\u{1faff}' ==> shown(c) == seq![c],
{
}

/// What is shown of a text is what is shown of its parts, one behind another.
pub proof fn a_text_is_shown_in_order(a: Seq<char>, b: Seq<char>)
    ensures
        shown_text(a + b) == shown_text(a) + shown_text(b),
    decreases b.len(),
{
    if b.len() == 0 {
        assert(a + b == a);
        assert(shown_text(a) + shown_text(b) == shown_text(a));
    } else {
        let rest = b.drop_last();
        assert((a + b).drop_last() == a + rest);
        a_text_is_shown_in_order(a, rest);
        assert(shown_text(a + b) =~= shown_text(a) + shown_text(b));
    }
}

} // verus!
