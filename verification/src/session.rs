//! The Instagram session the tool reuses.
//!
//! The two credential fields are [`Secret`], which shows itself to nobody and
//! clears itself when dropped. Anything added here that is itself a credential
//! belongs in the same type.
use vstd::prelude::*;
use vstd::slice::slice_subrange;
use vstd::string::*;

use crate::clock::{now, Epoch};
use crate::model::copy_text;
use crate::number::{decimal, is_digit, lemma_decimal, number, push_u64, read_u64};
use crate::secret::Secret;
use crate::text::{
    after, chars_of, cut_once, is_white_space, lemma_position_at, nothing_is_left_of_a_blank,
    only_the_ends_are_taken_off, split_once, starts_with, strip, strip_end, strip_white, text_of,
    trim, trim_end, trimmed, CharClass,
};
use crate::watch::schedule::zone::in_range;
use crate::Pk;

verus! {

pub const SESSION_SCHEMA_VERSION: u32 = 1;

/// What the Windows Credential Manager accepts, in bytes.
pub const MAX_KEYRING_SECRET_BYTES: usize = 2560;

/// Longest accepted User-Agent. Real ones run to about 130 characters.
pub const MAX_USER_AGENT_CHARS: usize = 512;

/// How many UTF-16 units a character takes: two outside the Basic Multilingual
/// Plane.
pub open spec fn utf16_units(c: char) -> nat {
    if c as u32 > 0xffff {
        2
    } else {
        1
    }
}

/// How many UTF-16 units a text takes.
pub open spec fn utf16_len(s: Seq<char>) -> nat
    decreases s.len(),
{
    if s.len() == 0 {
        0
    } else {
        utf16_len(s.drop_last()) + utf16_units(s.last())
    }
}

proof fn lemma_utf16_len_grows(s: Seq<char>, n: int)
    requires
        0 <= n <= s.len(),
    ensures
        utf16_len(s.take(n)) <= utf16_len(s),
    decreases s.len(),
{
    if n == s.len() {
        assert(s.take(n) == s);
    } else {
        assert(s.drop_last().take(n) == s.take(n));
        lemma_utf16_len_grows(s.drop_last(), n);
    }
}

/// Two texts take the room of both, one after the other: a character takes the same
/// room wherever it stands.
pub proof fn a_text_takes_the_room_of_its_parts(a: Seq<char>, b: Seq<char>)
    ensures
        utf16_len(a + b) == utf16_len(a) + utf16_len(b),
    decreases b.len(),
{
    if b.len() == 0 {
        assert(a + b == a);
    } else {
        assert((a + b).drop_last() == a + b.drop_last());
        a_text_takes_the_room_of_its_parts(a, b.drop_last());
    }
}

/// How much room a string takes in the Windows Credential Manager: two bytes
/// per UTF-16 unit, which is not the same as two per character.
pub fn keyring_bytes(text: &str) -> (r: usize)
    requires
        2 * utf16_len(text@) <= usize::MAX,
    ensures
        r == 2 * utf16_len(text@),
{
    let chars = chars_of(text);
    let mut bytes: usize = 0;
    let mut i: usize = 0;
    while i < chars.len()
        invariant
            i <= chars@.len(),
            chars@ == text@,
            2 * utf16_len(text@) <= usize::MAX,
            bytes == 2 * utf16_len(chars@.take(i as int)),
        decreases chars@.len() - i,
    {
        proof {
            assert(chars@.take(i + 1).drop_last() == chars@.take(i as int));
            lemma_utf16_len_grows(chars@, i + 1);
        }
        if chars[i] as u32 > 0xffff {
            bytes = bytes + 4;
        } else {
            bytes = bytes + 2;
        }
        i = i + 1;
    }
    assert(chars@.take(chars@.len() as int) == chars@);
    bytes
}

#[derive(Debug, Clone, Copy, PartialEq, Eq, Structural)]
pub enum SessionError {
    EmptySessionId,
    MalformedSessionId,
    EmptyUserAgent,
    SuspiciousUserAgent,
    UserAgentTooLong(usize),
    UnsupportedSchema { found: u32, expected: u32 },
}

impl SessionError {
    /// What is said to the user.
    pub open spec fn says(self) -> Seq<char> {
        match self {
            SessionError::EmptySessionId => "the sessionid is empty"@,
            SessionError::MalformedSessionId =>
                "unrecognized sessionid format: it should start with your numeric account id"@,
            SessionError::EmptyUserAgent => "the User-Agent is empty"@,
            SessionError::SuspiciousUserAgent =>
                "that does not look like a browser User-Agent: it should start with \"Mozilla/5.0\""@,
            SessionError::UserAgentTooLong(length) => "the User-Agent is too long ("@ + decimal(
                length as nat,
            ) + " characters)"@,
            SessionError::UnsupportedSchema { found, expected } =>
                "the stored session uses format "@ + decimal(found as nat)
                    + ", and this version understands "@ + decimal(expected as nat),
        }
    }

    pub fn to_string(&self) -> (r: String)
        ensures
            r@ == self.says(),
    {
        match self {
            SessionError::EmptySessionId => "the sessionid is empty".to_owned(),
            SessionError::MalformedSessionId =>
                "unrecognized sessionid format: it should start with your numeric account id".to_owned(),
            SessionError::EmptyUserAgent => "the User-Agent is empty".to_owned(),
            SessionError::SuspiciousUserAgent =>
                "that does not look like a browser User-Agent: it should start with \"Mozilla/5.0\"".to_owned(),
            SessionError::UserAgentTooLong(length) => {
                let mut out = "the User-Agent is too long (".to_owned();
                push_u64(&mut out, *length as u64);
                out.append(" characters)");
                out
            },
            SessionError::UnsupportedSchema { found, expected } => {
                let mut out = "the stored session uses format ".to_owned();
                push_u64(&mut out, *found as u64);
                out.append(", and this version understands ");
                push_u64(&mut out, *expected as u64);
                out
            },
        }
    }
}

/// Where the session came from. Worth storing because it changes the diagnosis
/// when something fails.
#[derive(Debug, Clone, Copy, PartialEq, Eq, Structural)]
pub enum SessionOrigin {
    Browser,
    Paste,
}

impl SessionOrigin {
    /// The stable token, shared by the stored form and machine-readable output.
    pub open spec fn token(self) -> Seq<char> {
        match self {
            SessionOrigin::Browser => "browser"@,
            SessionOrigin::Paste => "paste"@,
        }
    }

    pub fn as_str(self) -> (r: &'static str)
        ensures
            r@ == self.token(),
    {
        match self {
            SessionOrigin::Browser => "browser",
            SessionOrigin::Paste => "paste",
        }
    }

    /// The human wording, kept apart from the token so that rewording it cannot
    /// break a contract.
    pub fn to_string(&self) -> (r: String)
        ensures
            r@ == match *self {
                SessionOrigin::Browser => "browser"@,
                SessionOrigin::Paste => "manual paste"@,
            },
    {
        match self {
            SessionOrigin::Browser => "browser".to_owned(),
            SessionOrigin::Paste => "manual paste".to_owned(),
        }
    }
}

/// A session.
pub struct Session {
    pub schema_version: u32,
    pub ds_user_id: Pk,
    pub username: Option<String>,
    pub sessionid: Secret,
    pub csrftoken: Option<Secret>,
    pub mid: Option<String>,
    pub ig_did: Option<String>,
    pub user_agent: String,
    /// The user gave this User-Agent explicitly, so nothing may rewrite it.
    pub user_agent_pinned: bool,
    /// When the installed browser's version was last compared against the
    /// User-Agent. Absent means never.
    pub user_agent_checked_at: Option<i64>,
    /// Which browser the User-Agent describes, when one was picked.
    pub browser: Option<String>,
    pub origin: SessionOrigin,
    pub created_at: i64,
    pub validated_at: Option<i64>,
}

fn copy_secret(secret: &Option<Secret>) -> (r: Option<Secret>)
    ensures
        r == *secret,
{
    match secret {
        Some(secret) => Some(secret.clone()),
        None => None,
    }
}

impl Clone for Session {
    fn clone(&self) -> (r: Session)
        ensures
            r == *self,
    {
        Session {
            schema_version: self.schema_version,
            ds_user_id: self.ds_user_id,
            username: copy_text(&self.username),
            sessionid: self.sessionid.clone(),
            csrftoken: copy_secret(&self.csrftoken),
            mid: copy_text(&self.mid),
            ig_did: copy_text(&self.ig_did),
            user_agent: self.user_agent.clone(),
            user_agent_pinned: self.user_agent_pinned,
            user_agent_checked_at: self.user_agent_checked_at,
            browser: copy_text(&self.browser),
            origin: self.origin,
            created_at: self.created_at,
            validated_at: self.validated_at,
        }
    }
}

/// What is left of a pasted `sessionid` without the space, the name and the
/// quotes around it.
pub open spec fn cleaned(raw: Seq<char>) -> Seq<char> {
    let pair = trimmed(raw);
    let value = if starts_with(pair, "sessionid="@) {
        trimmed(pair.skip("sessionid="@.len() as int))
    } else {
        pair
    };
    let bare = trimmed(trim(value, CharClass::Quote));
    trimmed(trim_end(bare, CharClass::Semicolon))
}

/// Tolerates what people actually paste: white space, the whole `sessionid=…`
/// pair, and surrounding quotes.
pub fn clean_sessionid(raw: &str) -> (r: Result<String, SessionError>)
    ensures
        match r {
            Ok(id) => id@ == cleaned(raw@) && id@.len() > 0,
            Err(e) => cleaned(raw@).len() == 0 && e == SessionError::EmptySessionId,
        },
{
    let chars = chars_of(raw);
    let mut s: &[char] = strip_white(chars.as_slice());
    if let Some(rest) = after(s, "sessionid=") {
        s = strip_white(rest);
    }
    s = strip_white(strip(s, CharClass::Quote));
    s = strip_white(strip_end(s, CharClass::Semicolon));
    if s.len() == 0 {
        return Err(SessionError::EmptySessionId);
    }
    Ok(text_of(s))
}

/// Whether a text starts with an escaped colon.
pub open spec fn escaped_colon(s: Seq<char>) -> bool {
    s.len() >= 3 && s[0] == '%' && s[1] == '3' && (s[2] == 'A' || s[2] == 'a')
}

/// A text with the escaped colons written out.
pub open spec fn with_colons(s: Seq<char>) -> Seq<char>
    decreases s.len(),
{
    if s.len() == 0 {
        Seq::empty()
    } else if escaped_colon(s) {
        seq![':'] + with_colons(s.skip(3))
    } else {
        seq![s[0]] + with_colons(s.skip(1))
    }
}

fn write_colons(s: &[char]) -> (r: Vec<char>)
    ensures
        r@ == with_colons(s@),
{
    let mut out: Vec<char> = Vec::new();
    let mut i: usize = 0;
    assert(s@.skip(0) == s@);
    assert(out@ + with_colons(s@) == with_colons(s@));
    while i < s.len()
        invariant
            i <= s@.len(),
            out@ + with_colons(s@.skip(i as int)) == with_colons(s@),
        decreases s@.len() - i,
    {
        let ghost rest = s@.skip(i as int);
        let ghost before = out@;
        if s.len() - i >= 3 && s[i] == '%' && s[i + 1] == '3' && (s[i + 2] == 'A' || s[i + 2]
            == 'a') {
            assert(escaped_colon(rest));
            out.push(':');
            assert(rest.skip(3) == s@.skip(i + 3));
            assert(out@ + with_colons(s@.skip(i + 3)) == before + (seq![':'] + with_colons(
                s@.skip(i + 3),
            )));
            i = i + 3;
        } else {
            out.push(s[i]);
            assert(!escaped_colon(rest));
            assert(rest.skip(1) == s@.skip(i + 1));
            assert(out@ + with_colons(s@.skip(i + 1)) == before + (seq![rest[0]] + with_colons(
                s@.skip(i + 1),
            )));
            i = i + 1;
        }
    }
    assert(s@.skip(i as int) == Seq::<char>::empty());
    assert(out@ == with_colons(s@));
    out
}

/// The account a `sessionid` belongs to: the number before its first colon,
/// which usually arrives escaped.
pub open spec fn account_of(sessionid: Seq<char>) -> Option<int> {
    match split_once(with_colons(sessionid), ':') {
        Some((head, _)) => match number(head) {
            Some(id) => if id <= u64::MAX {
                Some(id)
            } else {
                None
            },
            None => None,
        },
        None => None,
    }
}

pub fn extract_pk(sessionid: &str) -> (r: Result<Pk, SessionError>)
    ensures
        match r {
            Ok(pk) => account_of(sessionid@) == Some(pk.0 as int),
            Err(e) => account_of(sessionid@) is None && e == SessionError::MalformedSessionId,
        },
{
    let chars = chars_of(sessionid);
    let normalized = write_colons(chars.as_slice());
    match cut_once(normalized.as_slice(), ':') {
        Some((head, _)) => match read_u64(head) {
            Some(id) => Ok(Pk(id)),
            None => Err(SessionError::MalformedSessionId),
        },
        None => Err(SessionError::MalformedSessionId),
    }
}

/// A User-Agent without the space and the quotes around it.
pub open spec fn bare_user_agent(ua: Seq<char>) -> Seq<char> {
    trimmed(trim(trimmed(ua), CharClass::Quote))
}

/// Why a User-Agent is refused, where it is.
pub open spec fn user_agent_refusal(ua: Seq<char>) -> Option<SessionError> {
    let bare = bare_user_agent(ua);
    if bare.len() == 0 {
        Some(SessionError::EmptyUserAgent)
    } else if bare.len() > MAX_USER_AGENT_CHARS {
        Some(SessionError::UserAgentTooLong(bare.len() as usize))
    } else if !starts_with(bare, "Mozilla/5.0"@) {
        Some(SessionError::SuspiciousUserAgent)
    } else {
        None
    }
}

pub fn validate_user_agent(ua: &str) -> (r: Result<String, SessionError>)
    ensures
        match r {
            Ok(bare) => user_agent_refusal(ua@) is None && bare@ == bare_user_agent(ua@),
            Err(e) => user_agent_refusal(ua@) == Some(e),
        },
{
    let chars = chars_of(ua);
    let bare = strip_white(strip(strip_white(chars.as_slice()), CharClass::Quote));
    if bare.len() == 0 {
        return Err(SessionError::EmptyUserAgent);
    }
    if bare.len() > MAX_USER_AGENT_CHARS {
        return Err(SessionError::UserAgentTooLong(bare.len()));
    }
    match after(bare, "Mozilla/5.0") {
        Some(_) => Ok(text_of(bare)),
        None => Err(SessionError::SuspiciousUserAgent),
    }
}

/// Why no session can be made of these, where none can.
pub open spec fn session_refusal(raw: Seq<char>, ua: Seq<char>) -> Option<SessionError> {
    if cleaned(raw).len() == 0 {
        Some(SessionError::EmptySessionId)
    } else if account_of(cleaned(raw)) is None {
        Some(SessionError::MalformedSessionId)
    } else {
        user_agent_refusal(ua)
    }
}

/// One more cookie, where there is a value for it.
pub open spec fn optional_cookie(name: Seq<char>, value: Option<Seq<char>>) -> Seq<char> {
    match value {
        Some(value) => if value.len() == 0 {
            Seq::empty()
        } else {
            "; "@ + name + seq!['='] + value
        },
        None => Seq::empty(),
    }
}

fn push_cookie(out: &mut String, name: &str, value: &str)
    ensures
        final(out)@ == old(out)@ + optional_cookie(name@, Some(value@)),
{
    if !value.is_empty() {
        out.append("; ");
        out.append(name);
        out.push('=');
        out.append(value);
        assert(out@ == old(out)@ + ("; "@ + name@ + seq!['='] + value@));
    }
}

/// The text in an optional string.
pub open spec fn text_in(text: Option<String>) -> Option<Seq<char>> {
    match text {
        Some(text) => Some(text@),
        None => None,
    }
}

/// The text in an optional secret.
pub open spec fn secret_in(secret: Option<Secret>) -> Option<Seq<char>> {
    match secret {
        Some(secret) => Some(secret@),
        None => None,
    }
}

impl Session {
    /// What a session made of a `sessionid` and a User-Agent holds, but for
    /// when.
    pub open spec fn is_made_of(
        self,
        raw: Seq<char>,
        ua: Seq<char>,
        origin: SessionOrigin,
    ) -> bool {
        &&& self.schema_version == SESSION_SCHEMA_VERSION
        &&& account_of(cleaned(raw)) == Some(self.ds_user_id.0 as int)
        &&& self.username is None
        &&& self.sessionid@ == cleaned(raw)
        &&& self.csrftoken is None
        &&& self.mid is None
        &&& self.ig_did is None
        &&& self.user_agent@ == bare_user_agent(ua)
        &&& !self.user_agent_pinned
        &&& self.user_agent_checked_at is None
        &&& self.browser is None
        &&& self.origin == origin
        &&& self.validated_at is None
    }

    /// Builds a session from the `sessionid` and the User-Agent of the browser
    /// that produced it, as of now. The account id is not asked for: it is
    /// encoded at the start of the `sessionid` itself.
    pub fn from_sessionid(raw_sessionid: &str, user_agent: &str, origin: SessionOrigin) -> (r:
        Result<Session, SessionError>)
        ensures
            match r {
                Ok(session) => {
                    &&& session_refusal(raw_sessionid@, user_agent@) is None
                    &&& session.is_made_of(raw_sessionid@, user_agent@, origin)
                    &&& in_range(session.created_at as int)
                },
                Err(e) => session_refusal(raw_sessionid@, user_agent@) == Some(e),
            },
    {
        Session::from_sessionid_at(raw_sessionid, user_agent, origin, now())
    }

    /// The same, as of a given moment.
    pub fn from_sessionid_at(
        raw_sessionid: &str,
        user_agent: &str,
        origin: SessionOrigin,
        at: Epoch,
    ) -> (r: Result<Session, SessionError>)
        ensures
            match r {
                Ok(session) => {
                    &&& session_refusal(raw_sessionid@, user_agent@) is None
                    &&& session.is_made_of(raw_sessionid@, user_agent@, origin)
                    &&& session.created_at == at.0
                },
                Err(e) => session_refusal(raw_sessionid@, user_agent@) == Some(e),
            },
    {
        let sessionid = match clean_sessionid(raw_sessionid) {
            Ok(id) => id,
            Err(e) => return Err(e),
        };
        let ds_user_id = match extract_pk(sessionid.as_str()) {
            Ok(pk) => pk,
            Err(e) => return Err(e),
        };
        let user_agent = match validate_user_agent(user_agent) {
            Ok(ua) => ua,
            Err(e) => return Err(e),
        };
        Ok(
            Session {
                schema_version: SESSION_SCHEMA_VERSION,
                ds_user_id,
                username: None,
                sessionid: Secret::new(sessionid),
                csrftoken: None,
                mid: None,
                ig_did: None,
                user_agent,
                user_agent_pinned: false,
                user_agent_checked_at: None,
                browser: None,
                origin,
                created_at: at.0,
                validated_at: None,
            },
        )
    }

    /// The value of the `Cookie` header. The `sessionid` goes exactly as the
    /// browser handed it over, undecoded, and a cookie without a value is left
    /// out.
    pub open spec fn cookies(self) -> Seq<char> {
        "sessionid="@ + self.sessionid@ + "; ds_user_id="@ + decimal(self.ds_user_id.0 as nat)
            + optional_cookie("csrftoken"@, secret_in(self.csrftoken)) + optional_cookie(
            "mid"@,
            text_in(self.mid),
        ) + optional_cookie("ig_did"@, text_in(self.ig_did))
    }

    /// The value of the `Cookie` header, built into one buffer reserved up
    /// front and handed back in a [`Secret`]: a `String` that grows leaves each
    /// outgrown buffer behind with the credential in it.
    pub fn cookie_header(&self) -> (r: Secret)
        ensures
            r@ == self.cookies(),
    {
        let mut out = String::with_capacity(512);
        out.append("sessionid=");
        out.append(self.sessionid.expose());
        out.append("; ds_user_id=");
        push_u64(&mut out, self.ds_user_id.0);
        let ghost fixed = out@;
        assert(fixed == "sessionid="@ + self.sessionid@ + "; ds_user_id="@ + decimal(
            self.ds_user_id.0 as nat,
        ));
        if let Some(token) = &self.csrftoken {
            push_cookie(&mut out, "csrftoken", token.expose());
        }
        let ghost with_token = out@;
        assert(with_token == fixed + optional_cookie("csrftoken"@, secret_in(self.csrftoken)));
        if let Some(mid) = &self.mid {
            push_cookie(&mut out, "mid", mid.as_str());
        }
        let ghost with_mid = out@;
        assert(with_mid == with_token + optional_cookie("mid"@, text_in(self.mid)));
        if let Some(ig_did) = &self.ig_did {
            push_cookie(&mut out, "ig_did", ig_did.as_str());
        }
        assert(out@ == with_mid + optional_cookie("ig_did"@, text_in(self.ig_did)));
        Secret::new(out)
    }

    /// Whether this version understands the record.
    pub fn check_schema(&self) -> (r: Result<(), SessionError>)
        ensures
            match r {
                Ok(()) => self.schema_version <= SESSION_SCHEMA_VERSION,
                Err(e) => self.schema_version > SESSION_SCHEMA_VERSION && e == (
                SessionError::UnsupportedSchema {
                    found: self.schema_version,
                    expected: SESSION_SCHEMA_VERSION,
                }),
            },
    {
        if self.schema_version > SESSION_SCHEMA_VERSION {
            return Err(
                SessionError::UnsupportedSchema {
                    found: self.schema_version,
                    expected: SESSION_SCHEMA_VERSION,
                },
            );
        }
        Ok(())
    }

    /// Notes that the session works, as of now.
    pub fn mark_validated(&mut self)
        ensures
            final(self).validated_at matches Some(at) && in_range(at as int),
            *final(self) == (Session { validated_at: final(self).validated_at, ..*old(self) }),
    {
        self.mark_validated_at(now());
    }

    /// The same, as of a given moment.
    pub fn mark_validated_at(&mut self, at: Epoch)
        ensures
            *final(self) == (Session { validated_at: Some(at.0), ..*old(self) }),
    {
        self.validated_at = Some(at.0);
    }

    /// Reduced version for when the store cannot take the full record. Keeps
    /// only what the session cannot work without.
    pub fn minimal(&self) -> (r: Session)
        ensures
            r == (Session { username: None, csrftoken: None, mid: None, ig_did: None, ..*self }),
    {
        let mut r = self.clone();
        r.username = None;
        r.csrftoken = None;
        r.mid = None;
        r.ig_did = None;
        r
    }
}

/// A cookie with an empty value is not sent: the header is that of the session
/// without the field.
pub proof fn an_empty_cookie_is_not_sent(session: Session)
    requires
        session.csrftoken matches Some(token) ==> token@.len() == 0,
        session.mid matches Some(mid) ==> mid@.len() == 0,
        session.ig_did matches Some(did) ==> did@.len() == 0,
    ensures
        session.cookies() == "sessionid="@ + session.sessionid@ + "; ds_user_id="@ + decimal(
            session.ds_user_id.0 as nat,
        ),
{
    let fixed = "sessionid="@ + session.sessionid@ + "; ds_user_id="@ + decimal(
        session.ds_user_id.0 as nat,
    );
    assert(session.cookies() == fixed + Seq::<char>::empty() + Seq::<char>::empty() + Seq::<
        char,
    >::empty());
}

/// A colon reads the same escaped as written out, in either case of the escape.
pub proof fn an_escaped_colon_is_a_colon(head: Seq<char>, rest: Seq<char>, escape: Seq<char>)
    requires
        escape.len() == 3,
        escaped_colon(escape),
        !head.contains('%'),
    ensures
        account_of(head + escape + rest) == account_of(head + seq![':'] + rest),
{
    lemma_no_escape(head, escape + rest);
    lemma_no_escape(head, seq![':'] + rest);
    let tail = escape + rest;
    assert(tail.skip(3) == rest);
    assert(escaped_colon(tail));
    assert(with_colons(tail) == seq![':'] + with_colons(rest));
    let plain = seq![':'] + rest;
    assert(plain.skip(1) == rest);
    assert(!escaped_colon(plain));
    assert(with_colons(plain) == seq![':'] + with_colons(rest));
    assert(head + escape + rest == head + (escape + rest));
    assert(head + seq![':'] + rest == head + (seq![':'] + rest));
}

proof fn lemma_no_escape(head: Seq<char>, rest: Seq<char>)
    requires
        !head.contains('%'),
    ensures
        with_colons(head + rest) == head + with_colons(rest),
    decreases head.len(),
{
    if head.len() == 0 {
        assert(head + rest == rest);
        assert(head + with_colons(rest) == with_colons(rest));
    } else {
        let s = head + rest;
        let tail = head.drop_first();
        assert(head.contains(head[0]));
        assert(s[0] == head[0]);
        assert(s.skip(1) == tail + rest);
        assert forall|c: char| tail.contains(c) implies head.contains(c) by {
            let i = choose|i: int| 0 <= i < tail.len() && tail[i] == c;
            assert(head[i + 1] == c);
        }
        lemma_no_escape(tail, rest);
        assert(with_colons(s) == seq![head[0]] + (tail + with_colons(rest)));
        assert(with_colons(s) == head + with_colons(rest));
    }
}

/// Whether a character stands in a bare value: not white space, a quotation mark or a
/// semicolon.
pub open spec fn is_bare(c: char) -> bool {
    !is_white_space(c) && c != '"' && c != '\'' && c != ';'
}

proof fn lemma_bare(id: Seq<char>)
    requires
        id.len() > 0,
        forall|i: int| 0 <= i < id.len() ==> is_bare(#[trigger] id[i]),
    ensures
        trimmed(id) == id,
        trim(id, CharClass::Quote) == id,
        trim_end(id, CharClass::Semicolon) == id,
{
    let none = Seq::<char>::empty();
    assert(is_bare(id[0]) && is_bare(id[id.len() - 1]));
    only_the_ends_are_taken_off(none, id, none, CharClass::White);
    only_the_ends_are_taken_off(none, id, none, CharClass::Quote);
    only_the_ends_are_taken_off(none, id, none, CharClass::Semicolon);
}

/// Whatever somebody copies, what is kept is the value: by itself, as the whole pair with its
/// name, in quotation marks, with the semicolon behind it, and with white space around it.
pub proof fn a_pasted_value_is_cleaned(before: Seq<char>, id: Seq<char>, after: Seq<char>)
    requires
        forall|i: int| 0 <= i < before.len() ==> is_white_space(#[trigger] before[i]),
        forall|i: int| 0 <= i < after.len() ==> is_white_space(#[trigger] after[i]),
        id.len() > 0,
        forall|i: int| 0 <= i < id.len() ==> is_bare(#[trigger] id[i]),
        !starts_with(id, "sessionid="@),
    ensures
        cleaned(before + id + after) == id,
        cleaned(before + ("sessionid="@ + id) + after) == id,
        cleaned(before + (seq!['"'] + id + seq!['"']) + after) == id,
        cleaned(before + ("sessionid="@ + id + seq![';']) + after) == id,
{
    reveal_strlit("sessionid=");
    let name = "sessionid="@;
    let none = Seq::<char>::empty();
    let last = id.len() - 1;
    lemma_bare(id);
    assert(is_bare(id[0]) && is_bare(id[last]));
    only_the_ends_are_taken_off(before, id, after, CharClass::White);
    assert(cleaned(before + id + after) == id);
    let pair = name + id;
    assert(pair[0] == 's' && pair[pair.len() - 1] == id[last]);
    only_the_ends_are_taken_off(before, pair, after, CharClass::White);
    assert(pair.take(name.len() as int) == name);
    assert(pair.skip(name.len() as int) == id);
    assert(cleaned(before + pair + after) == id);
    let quoted = seq!['"'] + id + seq!['"'];
    assert(quoted[0] == '"' && quoted[quoted.len() - 1] == '"');
    only_the_ends_are_taken_off(before, quoted, after, CharClass::White);
    assert(quoted.take(name.len() as int)[0] == '"' || quoted.len() < name.len());
    assert(!starts_with(quoted, name));
    only_the_ends_are_taken_off(seq!['"'], id, seq!['"'], CharClass::Quote);
    assert(cleaned(before + quoted + after) == id);
    let ended = name + id + seq![';'];
    assert(ended[0] == 's' && ended[ended.len() - 1] == ';');
    only_the_ends_are_taken_off(before, ended, after, CharClass::White);
    assert(ended.take(name.len() as int) == name);
    let value = id + seq![';'];
    assert(ended.skip(name.len() as int) == value);
    assert(value[0] == id[0] && value[value.len() - 1] == ';');
    only_the_ends_are_taken_off(none, value, none, CharClass::White);
    only_the_ends_are_taken_off(none, value, none, CharClass::Quote);
    only_the_ends_are_taken_off(none, id, seq![';'], CharClass::Semicolon);
    assert(none + id + seq![';'] == value);
    assert(none + id == id);
    assert(cleaned(before + ended + after) == id);
}

/// The account of a session is the number its `sessionid` opens with, up to the first
/// colon, written out or escaped. Without a colon there is none.
pub proof fn a_sessionid_opens_with_its_account(pk: u64, rest: Seq<char>)
    ensures
        account_of(decimal(pk as nat) + seq![':'] + rest) == Some(pk as int),
        account_of(decimal(pk as nat) + seq!['%', '3', 'A'] + rest) == Some(pk as int),
        account_of(decimal(pk as nat) + seq!['%', '3', 'a'] + rest) == Some(pk as int),
        account_of(decimal(pk as nat)) is None,
{
    let head = decimal(pk as nat);
    lemma_decimal(pk as nat);
    if head.contains('%') {
        let i = choose|i: int| 0 <= i < head.len() && head[i] == '%';
        assert(is_digit(head[i]));
    }
    let plain = seq![':'] + rest;
    lemma_no_escape(head, plain);
    assert(plain.skip(1) == rest);
    assert(with_colons(plain) == seq![':'] + with_colons(rest));
    assert(head + seq![':'] + rest == head + plain);
    let written = head + seq![':'] + with_colons(rest);
    assert(with_colons(head + plain) == written);
    assert forall|i: int| 0 <= i < head.len() implies head[i] != ':' by {
        assert(is_digit(head[i]));
    }
    lemma_position_at(written, ':', head.len() as int);
    assert(written.take(head.len() as int) == head);
    an_escaped_colon_is_a_colon(head, rest, seq!['%', '3', 'A']);
    an_escaped_colon_is_a_colon(head, rest, seq!['%', '3', 'a']);
    lemma_no_escape(head, Seq::empty());
    assert(head + Seq::<char>::empty() == head);
    assert(with_colons(head) == head);
    lemma_position_at(head, ':', head.len() as int);
}

/// A User-Agent is kept as it is when it opens as a browser's does and is no longer than 512
/// characters. An empty one, a longer one and one that opens otherwise are each refused as
/// what they are.
pub proof fn a_user_agent_opens_as_a_browsers_does(ua: Seq<char>)
    requires
        forall|i: int|
            #![trigger ua[i]]
            (i == 0 || i == ua.len() - 1) && 0 <= i < ua.len() ==> is_bare(ua[i]),
    ensures
        bare_user_agent(ua) == ua,
        ua.len() == 0 ==> user_agent_refusal(ua) == Some(SessionError::EmptyUserAgent),
        512 < ua.len() <= usize::MAX ==> user_agent_refusal(ua) == Some(
            SessionError::UserAgentTooLong(ua.len() as usize),
        ),
        0 < ua.len() <= 512 && !starts_with(ua, "Mozilla/5.0"@) ==> user_agent_refusal(ua) == Some(
            SessionError::SuspiciousUserAgent,
        ),
        0 < ua.len() <= 512 && starts_with(ua, "Mozilla/5.0"@) ==> user_agent_refusal(ua) is None,
{
    let none = Seq::<char>::empty();
    if ua.len() > 0 {
        assert(is_bare(ua[0]) && is_bare(ua[ua.len() - 1]));
        only_the_ends_are_taken_off(none, ua, none, CharClass::White);
        only_the_ends_are_taken_off(none, ua, none, CharClass::Quote);
    } else {
        assert(ua == none);
        nothing_is_left_of_a_blank(none, CharClass::White);
        nothing_is_left_of_a_blank(none, CharClass::Quote);
        assert(trim(none, CharClass::Quote) == none);
        assert(trimmed(none) == none);
    }
}

/// The header tells the session, the account, and every other cookie there is a value for,
/// in that order.
pub proof fn every_known_cookie_is_sent(session: Session)
    requires
        session.csrftoken is Some && session.csrftoken->0@.len() > 0,
        session.mid is Some && session.mid->0@.len() > 0,
        session.ig_did is Some && session.ig_did->0@.len() > 0,
    ensures
        session.cookies() == "sessionid="@ + session.sessionid@ + "; ds_user_id="@ + decimal(
            session.ds_user_id.0 as nat,
        ) + "; csrftoken="@ + session.csrftoken->0@ + "; mid="@ + session.mid->0@ + "; ig_did="@
            + session.ig_did->0@,
{
    reveal_strlit("; ");
    reveal_strlit("csrftoken");
    reveal_strlit("; csrftoken=");
    reveal_strlit("mid");
    reveal_strlit("; mid=");
    reveal_strlit("ig_did");
    reveal_strlit("; ig_did=");
    assert("; "@ + "csrftoken"@ + seq!['='] == "; csrftoken="@);
    assert("; "@ + "mid"@ + seq!['='] == "; mid="@);
    assert("; "@ + "ig_did"@ + seq!['='] == "; ig_did="@);
    assert(session.cookies() =~= "sessionid="@ + session.sessionid@ + "; ds_user_id="@ + decimal(
        session.ds_user_id.0 as nat,
    ) + "; csrftoken="@ + session.csrftoken->0@ + "; mid="@ + session.mid->0@ + "; ig_did="@
        + session.ig_did->0@);
}

/// A session is refused for its `sessionid` first: for an empty one, then for one without an
/// account. Only then for its User-Agent.
pub proof fn what_a_session_is_refused_for(raw: Seq<char>, ua: Seq<char>)
    ensures
        cleaned(raw).len() == 0 ==> session_refusal(raw, ua) == Some(SessionError::EmptySessionId),
        cleaned(raw).len() > 0 && account_of(cleaned(raw)) is None ==> session_refusal(raw, ua)
            == Some(SessionError::MalformedSessionId),
        cleaned(raw).len() > 0 && account_of(cleaned(raw)) is Some ==> session_refusal(raw, ua)
            == user_agent_refusal(ua),
{
}

/// A character outside the basic plane takes two units and any other takes one.
pub proof fn the_room_a_character_takes(s: Seq<char>, c: char)
    ensures
        utf16_len(Seq::empty()) == 0,
        c as u32 <= 0xffff ==> utf16_len(s.push(c)) == utf16_len(s) + 1,
        c as u32 > 0xffff ==> utf16_len(s.push(c)) == utf16_len(s) + 2,
{
    assert(s.push(c).drop_last() == s);
}

/// A session made of what somebody pasted is that of the account the value opens with. It
/// holds the value and the User-Agent, and nothing that was not told.
pub proof fn a_session_is_that_of_its_account(
    session: Session,
    pk: u64,
    rest: Seq<char>,
    ua: Seq<char>,
    origin: SessionOrigin,
)
    requires
        session.is_made_of(decimal(pk as nat) + seq![':'] + rest, ua, origin),
        forall|i: int| 0 <= i < rest.len() ==> is_bare(#[trigger] rest[i]),
        forall|i: int|
            #![trigger ua[i]]
            (i == 0 || i == ua.len() - 1) && 0 <= i < ua.len() ==> is_bare(ua[i]),
    ensures
        session.ds_user_id.0 == pk,
        session.sessionid@ == decimal(pk as nat) + seq![':'] + rest,
        session.user_agent@ == ua,
        session.origin == origin,
        session.schema_version == 1,
        session.username is None && session.csrftoken is None && session.mid is None
            && session.ig_did is None,
        session.validated_at is None && !session.user_agent_pinned,
{
    let head = decimal(pk as nat);
    let id = head + seq![':'] + rest;
    let none = Seq::<char>::empty();
    lemma_decimal(pk as nat);
    assert forall|i: int| 0 <= i < id.len() implies is_bare(#[trigger] id[i]) by {
        if i < head.len() {
            assert(is_digit(head[i]));
        } else if i > head.len() {
            assert(id[i] == rest[i - head.len() - 1]);
        }
    }
    reveal_strlit("sessionid=");
    assert(is_digit(head[0]) && id[0] == head[0]);
    assert(id.len() >= 10 ==> id.take(10)[0] == head[0]);
    assert(!starts_with(id, "sessionid="@));
    a_pasted_value_is_cleaned(none, id, none);
    assert(none + id + none == id);
    a_sessionid_opens_with_its_account(pk, rest);
    a_user_agent_opens_as_a_browsers_does(ua);
}

} // verus!
