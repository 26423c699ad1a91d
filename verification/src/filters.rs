//! Filtering of account lists.
use vstd::prelude::*;
use vstd::slice::slice_subrange;
use vstd::string::*;

use crate::model::User;
use crate::text::{
    chars_of, cut_once, is_white_space, lemma_position, lowercase, nothing_is_left_of_a_blank,
    only_the_ends_are_taken_off, same_chars, same_text, split, split_once, strip, strip_start,
    strip_white, text_of, the_pieces_of_a_text, trim, trim_start, trimmed, CharClass,
};

verus! {

/// A fragment of the address of each default avatar there has been.
pub const DEFAULT_AVATAR_HASHES: [&'static str; 2] = [
    "44884218_345707102882519_2446069589734326272_n",
    "464760996_1254146839119862_3605321457742435801_n",
];

/// Attributes an account can be filtered by.
#[derive(Debug, Clone, Copy, PartialEq, Eq, Hash, Structural)]
pub enum Attribute {
    Verified,
    Private,
    NoPfp,
}

/// Whether a text stands somewhere in another.
pub open spec fn has_part(text: Seq<char>, part: Seq<char>) -> bool {
    exists|i: int|
        0 <= i <= text.len() - part.len() && #[trigger] text.subrange(i, i + part.len()) == part
}

fn contains_part(text: &[char], part: &[char]) -> (r: bool)
    ensures
        r == has_part(text@, part@),
{
    if part.len() > text.len() {
        return false;
    }
    let last: usize = text.len() - part.len();
    let mut i: usize = 0;
    loop
        invariant
            i <= last,
            last + part@.len() == text@.len(),
            text@.len() <= usize::MAX,
            forall|j: int|
                0 <= j < i ==> #[trigger] text@.subrange(j, j + part@.len()) != part@,
        decreases last - i,
    {
        let here = slice_subrange(text, i, i + part.len());
        if same_chars(here, part) {
            assert(text@.subrange(i as int, i + part@.len()) == part@);
            return true;
        }
        if i == last {
            return false;
        }
        i = i + 1;
    }
}

/// Whether an address is that of a default avatar.
pub open spec fn is_default_avatar(url: Seq<char>) -> bool {
    exists|i: int|
        0 <= i < DEFAULT_AVATAR_HASHES@.len() && has_part(
            url,
            (#[trigger] DEFAULT_AVATAR_HASHES@[i])@,
        )
}

fn shows_default_avatar(url: &str) -> (r: bool)
    ensures
        r == is_default_avatar(url@),
{
    let url_chars = chars_of(url);
    let mut i: usize = 0;
    while i < DEFAULT_AVATAR_HASHES.len()
        invariant
            i <= DEFAULT_AVATAR_HASHES@.len(),
            url_chars@ == url@,
            forall|j: int|
                0 <= j < i ==> !has_part(url@, (#[trigger] DEFAULT_AVATAR_HASHES@[j])@),
        decreases DEFAULT_AVATAR_HASHES@.len() - i,
    {
        let hash = chars_of(DEFAULT_AVATAR_HASHES[i]);
        if contains_part(url_chars.as_slice(), hash.as_slice()) {
            return true;
        }
        i = i + 1;
    }
    false
}

impl Attribute {
    /// Whether an account has it. What is unknown does not count.
    pub open spec fn is_of(self, u: User) -> bool {
        match self {
            Attribute::Verified => u.is_verified == Some(true),
            Attribute::Private => u.is_private == Some(true),
            Attribute::NoPfp => u.pfp_url matches Some(url) && is_default_avatar(url@),
        }
    }

    pub fn matches(self, u: &User) -> (r: bool)
        ensures
            r == self.is_of(*u),
    {
        match self {
            Attribute::Verified => match u.is_verified {
                Some(known) => known,
                None => false,
            },
            Attribute::Private => match u.is_private {
                Some(known) => known,
                None => false,
            },
            Attribute::NoPfp => match &u.pfp_url {
                Some(url) => shows_default_avatar(url.as_str()),
                None => false,
            },
        }
    }
}

/// What to let through.
#[derive(Debug, Clone)]
pub struct Filter {
    /// Anyone matching any of these is dropped.
    pub hide: Vec<Attribute>,
    /// If non-empty, only accounts matching all of these pass.
    pub only: Vec<Attribute>,
    /// Usernames that never show up, lowercased.
    pub excluded: Vec<String>,
}

impl Default for Filter {
    fn default() -> (r: Filter)
        ensures
            r.is_blank(),
    {
        Filter { hide: Vec::new(), only: Vec::new(), excluded: Vec::new() }
    }
}

/// Whether a text is one of a list.
pub open spec fn names_text(list: Seq<String>, text: Seq<char>) -> bool {
    exists|i: int| 0 <= i < list.len() && (#[trigger] list[i])@ == text
}

fn holds_text(list: &Vec<String>, text: &str) -> (r: bool)
    ensures
        r == names_text(list@, text@),
{
    let mut i: usize = 0;
    while i < list.len()
        invariant
            i <= list@.len(),
            forall|j: int| 0 <= j < i ==> (#[trigger] list@[j])@ != text@,
        decreases list@.len() - i,
    {
        if same_text(list[i].as_str(), text) {
            assert(list@[i as int]@ == text@);
            return true;
        }
        i = i + 1;
    }
    false
}

impl Filter {
    /// Whether this filter drops nobody.
    pub open spec fn is_blank(self) -> bool {
        self.hide@.len() == 0 && self.only@.len() == 0 && self.excluded@.len() == 0
    }

    /// Whether an account passes: it is not excluded by name, none of what is
    /// hidden is its, and all of what is asked for is.
    pub open spec fn passes(self, u: User) -> bool {
        &&& !names_text(self.excluded@, lowercase(u.username@))
        &&& forall|i: int| 0 <= i < self.hide@.len() ==> !(#[trigger] self.hide@[i]).is_of(u)
        &&& forall|i: int| 0 <= i < self.only@.len() ==> (#[trigger] self.only@[i]).is_of(u)
    }

    pub fn is_empty(&self) -> (r: bool)
        ensures
            r == self.is_blank(),
    {
        self.hide.is_empty() && self.only.is_empty() && self.excluded.is_empty()
    }

    pub fn allows(&self, u: &User) -> (r: bool)
        ensures
            r == self.passes(*u),
    {
        if !self.excluded.is_empty() {
            let name = u.username.as_str().to_lowercase();
            if holds_text(&self.excluded, name.as_str()) {
                return false;
            }
        }
        let mut i: usize = 0;
        while i < self.hide.len()
            invariant
                i <= self.hide@.len(),
                forall|j: int| 0 <= j < i ==> !(#[trigger] self.hide@[j]).is_of(*u),
            decreases self.hide@.len() - i,
        {
            if self.hide[i].matches(u) {
                return false;
            }
            i = i + 1;
        }
        i = 0;
        while i < self.only.len()
            invariant
                i <= self.only@.len(),
                forall|j: int| 0 <= j < i ==> (#[trigger] self.only@[j]).is_of(*u),
            decreases self.only@.len() - i,
        {
            if !self.only[i].matches(u) {
                return false;
            }
            i = i + 1;
        }
        true
    }

    /// Those who pass, in the order they came.
    pub fn apply(&self, users: Vec<User>) -> (r: Vec<User>)
        ensures
            r@ == users@.filter(|u: User| self.passes(u)),
    {
        if self.is_empty() {
            proof {
                lemma_blank_keeps_all(*self, users@);
            }
            return users;
        }
        let mut r: Vec<User> = Vec::new();
        let mut i: usize = 0;
        assert(r@ == users@.take(0).filter(|u: User| self.passes(u))) by {
            reveal(Seq::filter);
        }
        while i < users.len()
            invariant
                i <= users@.len(),
                r@ == users@.take(i as int).filter(|u: User| self.passes(u)),
            decreases users@.len() - i,
        {
            if self.allows(&users[i]) {
                r.push(users[i].clone());
            }
            proof {
                reveal(Seq::filter);
                assert(users@.take(i + 1).drop_last() == users@.take(i as int));
            }
            i = i + 1;
        }
        assert(users@.take(users@.len() as int) == users@);
        r
    }
}

proof fn lemma_blank_keeps_all(filter: Filter, users: Seq<User>)
    requires
        filter.is_blank(),
    ensures
        users.filter(|u: User| filter.passes(u)) == users,
    decreases users.len(),
{
    reveal(Seq::filter);
    if users.len() > 0 {
        lemma_blank_keeps_all(filter, users.drop_last());
        assert(filter.passes(users.last()));
        assert(users == users.drop_last().push(users.last()));
    }
}

/// The username a line of a list names. Blank lines and comments name none.
pub open spec fn line_name(line: Seq<char>) -> Option<Seq<char>> {
    let entry = trimmed(trim(trimmed(line), CharClass::ByteOrderMark));
    if entry.len() == 0 || entry[0] == '#' {
        None
    } else {
        let name = lowercase(trimmed(trim_start(entry, CharClass::At)));
        if name.len() == 0 {
            None
        } else {
            Some(name)
        }
    }
}

/// The lines of a list, past the byte-order marks it may open with.
pub open spec fn list_lines(contents: Seq<char>) -> Seq<Seq<char>> {
    split(trim_start(contents, CharClass::ByteOrderMark), '\n')
}

/// Whether one of these lines names a username.
pub open spec fn lines_name(lines: Seq<Seq<char>>, name: Seq<char>) -> bool {
    exists|i: int| 0 <= i < lines.len() && #[trigger] line_name(lines[i]) == Some(name)
}

/// Whether no text occurs twice in a list.
pub open spec fn all_distinct(list: Seq<String>) -> bool {
    forall|i: int, j: int| 0 <= i < j < list.len() ==> (#[trigger] list[i])@ != (#[trigger] list[j])@
}

fn read_line_name(line: &[char]) -> (r: Option<String>)
    ensures
        match (r, line_name(line@)) {
            (Some(name), Some(spelled)) => name@ == spelled,
            (None, None) => true,
            _ => false,
        },
{
    let entry = strip_white(strip(strip_white(line), CharClass::ByteOrderMark));
    if entry.len() == 0 || entry[0] == '#' {
        return None;
    }
    let name = text_of(strip_white(strip_start(entry, CharClass::At)));
    let name = name.as_str().to_lowercase();
    if name.as_str().is_empty() {
        None
    } else {
        Some(name)
    }
}

/// Reads a list of usernames, one per line.
///
/// Tolerates a leading at sign, surrounding space, blank lines, comments and
/// byte-order marks, because a hand-written file will have them.
pub fn parse_username_list(contents: &str) -> (r: Vec<String>)
    ensures
        all_distinct(r@),
        forall|name: Seq<char>| #[trigger]
            names_text(r@, name) <==> lines_name(list_lines(contents@), name),
{
    let chars = chars_of(contents);
    let mut rest: &[char] = strip_start(chars.as_slice(), CharClass::ByteOrderMark);
    let mut r: Vec<String> = Vec::new();
    let ghost lines = list_lines(contents@);
    let ghost mut done: Seq<Seq<char>> = Seq::empty();
    assert(done + split(rest@, '\n') == lines);
    loop
        invariant_except_break
            all_distinct(r@),
            done + split(rest@, '\n') == lines,
            forall|name: Seq<char>| #[trigger] names_text(r@, name) <==> lines_name(done, name),
        ensures
            all_distinct(r@),
            forall|name: Seq<char>| #[trigger] names_text(r@, name) <==> lines_name(lines, name),
        decreases rest@.len(),
    {
        let (line, others): (&[char], Option<&[char]>) = match cut_once(rest, '\n') {
            Some((line, others)) => (line, Some(others)),
            None => (rest, None),
        };
        proof {
            lemma_position(rest@, '\n');
        }
        let ghost before = done;
        let ghost old_r = r@;
        if let Some(name) = read_line_name(line) {
            if !holds_text(&r, name.as_str()) {
                r.push(name);
            }
        }
        proof {
            done = before.push(line@);
            if r@.len() > old_r.len() {
                assert(r@.drop_last() == old_r);
            }
            lemma_one_more_line(old_r, r@, before, line@);
        }
        match others {
            Some(others) => {
                assert(split(rest@, '\n') == seq![line@] + split(others@, '\n'));
                assert(done + split(others@, '\n') == before + (seq![line@] + split(
                    others@,
                    '\n',
                )));
                rest = others;
            },
            None => {
                assert(split(rest@, '\n') == seq![line@]);
                assert(done == lines);
                break;
            },
        }
    }
    r
}

proof fn lemma_one_more_line(
    before: Seq<String>,
    after: Seq<String>,
    lines: Seq<Seq<char>>,
    line: Seq<char>,
)
    requires
        forall|name: Seq<char>| #[trigger] names_text(before, name) <==> lines_name(lines, name),
        match line_name(line) {
            Some(name) => if names_text(before, name) {
                after == before
            } else {
                after.len() == before.len() + 1 && after.drop_last() == before && after.last()@
                    == name
            },
            None => after == before,
        },
    ensures
        forall|name: Seq<char>| #[trigger]
            names_text(after, name) <==> lines_name(lines.push(line), name),
{
    let more = lines.push(line);
    assert forall|name: Seq<char>| #[trigger] names_text(after, name) <==> lines_name(more, name)
        by {
        assert(names_text(before, name) <==> lines_name(lines, name));
        if lines_name(lines, name) {
            let i = choose|i: int|
                0 <= i < lines.len() && #[trigger] line_name(lines[i]) == Some(name);
            assert(line_name(more[i]) == Some(name));
        }
        if line_name(line) == Some(name) {
            assert(line_name(more[lines.len() as int]) == Some(name));
        }
        if lines_name(more, name) {
            let i = choose|i: int|
                0 <= i < more.len() && #[trigger] line_name(more[i]) == Some(name);
            if i < lines.len() {
                assert(line_name(lines[i]) == Some(name));
            }
        }
        if names_text(before, name) {
            let i = choose|i: int| 0 <= i < before.len() && (#[trigger] before[i])@ == name;
            assert(after[i]@ == name);
        }
        if after != before {
            if after.last()@ == name {
                assert(after[before.len() as int]@ == name);
            }
            if names_text(after, name) {
                let i = choose|i: int| 0 <= i < after.len() && (#[trigger] after[i])@ == name;
                if i < before.len() {
                    assert(before[i]@ == name);
                }
            }
        }
    }
}

/// What is hidden is dropped, whatever else is asked for.
pub proof fn hiding_beats_asking(filter: Filter, u: User, i: int)
    requires
        0 <= i < filter.hide@.len(),
        filter.hide@[i].is_of(u),
    ensures
        !filter.passes(u),
{
}

/// An account of which nothing is known has no attribute, so nothing hides it.
pub proof fn the_unknown_is_not_hidden(filter: Filter, u: User)
    requires
        u.is_verified is None,
        u.is_private is None,
        u.pfp_url is None,
        filter.only@.len() == 0,
        filter.excluded@.len() == 0,
    ensures
        filter.passes(u),
{
}

/// An attribute is one that is known: an account is verified or private when it is known to
/// be, and without a picture when its address holds that of a default one.
pub proof fn an_attribute_is_one_that_is_known(
    u: User,
    url: Seq<char>,
    head: Seq<char>,
    tail: Seq<char>,
)
    requires
        u.pfp_url is Some ==> u.pfp_url->0@ == url,
    ensures
        Attribute::Verified.is_of(u) <==> u.is_verified is Some && u.is_verified->0,
        Attribute::Private.is_of(u) <==> u.is_private is Some && u.is_private->0,
        u.pfp_url is None ==> !Attribute::NoPfp.is_of(u),
        u.pfp_url is Some && (url == head + "44884218_345707102882519_2446069589734326272_n"@ + tail
            || url == head + "464760996_1254146839119862_3605321457742435801_n"@ + tail)
            ==> Attribute::NoPfp.is_of(u),
        u.pfp_url is Some && url.len() < 46 ==> !Attribute::NoPfp.is_of(u),
{
    reveal_strlit("44884218_345707102882519_2446069589734326272_n");
    reveal_strlit("464760996_1254146839119862_3605321457742435801_n");
    let first = "44884218_345707102882519_2446069589734326272_n"@;
    let second = "464760996_1254146839119862_3605321457742435801_n"@;
    assert(DEFAULT_AVATAR_HASHES@[0]@ == first);
    assert(DEFAULT_AVATAR_HASHES@[1]@ == second);
    if url == head + first + tail {
        assert(url.subrange(head.len() as int, head.len() as int + first.len()) == first);
        assert(has_part(url, DEFAULT_AVATAR_HASHES@[0]@));
    }
    if url == head + second + tail {
        assert(url.subrange(head.len() as int, head.len() as int + second.len()) == second);
        assert(has_part(url, DEFAULT_AVATAR_HASHES@[1]@));
    }
    if url.len() < 46 && is_default_avatar(url) {
        let i = choose|i: int|
            0 <= i < DEFAULT_AVATAR_HASHES@.len() && has_part(
                url,
                (#[trigger] DEFAULT_AVATAR_HASHES@[i])@,
            );
        assert(i == 0 || i == 1);
        assert(first.len() == 46 && second.len() == 48);
    }
}

/// An account that is excluded by name is dropped whatever else is asked for, whichever
/// case its name is written in, and one that lacks anything of what is asked for is too.
pub proof fn leaving_out_beats_asking(filter: Filter, u: User, i: int)
    ensures
        0 <= i < filter.excluded@.len() && filter.excluded@[i]@ == lowercase(u.username@)
            ==> !filter.passes(u),
        0 <= i < filter.only@.len() && !filter.only@[i].is_of(u) ==> !filter.passes(u),
{
}

/// An account passes that is not excluded by name, has nothing of what is hidden and has
/// everything of what is asked for. A filter that says nothing lets everybody through.
pub proof fn whoever_is_not_left_out_passes(filter: Filter, u: User)
    requires
        forall|i: int|
            0 <= i < filter.excluded@.len() ==> (#[trigger] filter.excluded@[i])@ != lowercase(
                u.username@,
            ),
        forall|i: int| 0 <= i < filter.hide@.len() ==> !(#[trigger] filter.hide@[i]).is_of(u),
        forall|i: int| 0 <= i < filter.only@.len() ==> (#[trigger] filter.only@[i]).is_of(u),
    ensures
        filter.passes(u),
{
}

/// Whether a character is none of those a line of names gives a meaning to.
pub open spec fn is_plain(c: char) -> bool {
    !is_white_space(c) && c != '@' && c != '#' && c != '\u{feff}'
}

/// A line names its name in lowercase, with an at sign in front of it or without, and
/// whatever white space there is around it.
pub proof fn a_line_names_its_name(before: Seq<char>, name: Seq<char>, after: Seq<char>)
    requires
        forall|i: int| 0 <= i < before.len() ==> is_white_space(#[trigger] before[i]),
        forall|i: int| 0 <= i < after.len() ==> is_white_space(#[trigger] after[i]),
        name.len() > 0,
        forall|i: int| 0 <= i < name.len() ==> is_plain(#[trigger] name[i]),
        lowercase(name).len() > 0,
    ensures
        line_name(before + name + after) == Some(lowercase(name)),
        line_name(before + (seq!['@'] + name) + after) == Some(lowercase(name)),
{
    let none = Seq::<char>::empty();
    assert(is_plain(name[0]) && is_plain(name[name.len() - 1]));
    only_the_ends_are_taken_off(before, name, after, CharClass::White);
    only_the_ends_are_taken_off(none, name, none, CharClass::ByteOrderMark);
    only_the_ends_are_taken_off(none, name, none, CharClass::At);
    let marked = seq!['@'] + name;
    assert(marked[0] == '@' && marked[marked.len() - 1] == name[name.len() - 1]);
    only_the_ends_are_taken_off(before, marked, after, CharClass::White);
    only_the_ends_are_taken_off(none, marked, none, CharClass::ByteOrderMark);
    only_the_ends_are_taken_off(seq!['@'], name, none, CharClass::At);
    assert(seq!['@'] + name + none == marked);
    assert(name + none == name);
}

/// A line that is blank or opens with a number sign names nobody.
pub proof fn a_comment_names_nobody(before: Seq<char>, rest: Seq<char>)
    requires
        forall|i: int| 0 <= i < before.len() ==> is_white_space(#[trigger] before[i]),
    ensures
        line_name(before) is None,
        rest.len() > 0 && is_plain(rest[rest.len() - 1]) ==> line_name(
            before + (seq!['#'] + rest),
        ) is None,
{
    let none = Seq::<char>::empty();
    nothing_is_left_of_a_blank(before, CharClass::White);
    assert(trimmed(before) == none);
    nothing_is_left_of_a_blank(none, CharClass::ByteOrderMark);
    assert(trim(none, CharClass::ByteOrderMark) == none);
    nothing_is_left_of_a_blank(none, CharClass::White);
    if rest.len() > 0 && is_plain(rest[rest.len() - 1]) {
        let comment = seq!['#'] + rest;
        assert(comment[0] == '#' && comment[comment.len() - 1] == rest[rest.len() - 1]);
        only_the_ends_are_taken_off(before, comment, none, CharClass::White);
        assert(before + comment + none == before + comment);
        only_the_ends_are_taken_off(none, comment, none, CharClass::ByteOrderMark);
    }
}

/// A list names whoever one of its lines names: the first line or one of the rest, past the
/// mark it may open with.
pub proof fn a_list_names_whom_its_lines_name(first: Seq<char>, rest: Seq<char>, name: Seq<char>)
    requires
        !first.contains('\n'),
        first.len() > 0 ==> first[0] != '\u{feff}',
    ensures
        lines_name(list_lines(first + seq!['\n'] + rest), name) <==> line_name(first) == Some(name)
            || lines_name(split(rest, '\n'), name),
        list_lines(seq!['\u{feff}'] + (first + seq!['\n'] + rest)) == list_lines(
            first + seq!['\n'] + rest,
        ),
{
    let contents = first + seq!['\n'] + rest;
    let lines = seq![first] + split(rest, '\n');
    assert(contents[0] != '\u{feff}');
    assert(trim_start(contents, CharClass::ByteOrderMark) == contents);
    the_pieces_of_a_text(first, '\n', rest);
    assert(list_lines(contents) == lines);
    let marked = seq!['\u{feff}'] + contents;
    assert(marked.drop_first() == contents);
    assert(trim_start(marked, CharClass::ByteOrderMark) == contents);
    let others = split(rest, '\n');
    if line_name(first) == Some(name) {
        assert(line_name(lines[0]) == Some(name));
    }
    if lines_name(others, name) {
        let i = choose|i: int| 0 <= i < others.len() && #[trigger] line_name(others[i]) == Some(name);
        assert(line_name(lines[i + 1]) == Some(name));
    }
    if lines_name(lines, name) {
        let i = choose|i: int| 0 <= i < lines.len() && #[trigger] line_name(lines[i]) == Some(name);
        if i > 0 {
            assert(line_name(others[i - 1]) == Some(name));
        }
    }
}

} // verus!
