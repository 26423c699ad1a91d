//! Where the session and the monitor's secrets are kept.
//!
//! By default in the system keyring. The file fallback exists for environments
//! without a desktop session, where the keyring simply is not there. What is
//! asked of either, and what follows from the answer, is decided here; the asking
//! itself is done by the caller.
use base64::Engine;
use vstd::prelude::*;
use vstd::string::*;
use vstd::utf8::{decode_utf8, valid_utf8};

use crate::number::{decimal, push_u64};
use crate::paths::{places, AppPaths, Location, PathError, Place};
use crate::secret::Secret;
use crate::session::{
    keyring_bytes, utf16_len, Session, MAX_KEYRING_SECRET_BYTES, SESSION_SCHEMA_VERSION,
};

verus! {

/// The name everything in the keyring stands under.
pub const KEYRING_SERVICE: &'static str = "snob-ig";

/// The entry of the session.
pub const KEYRING_USER: &'static str = "session";

/// Separate keyring entry used only to check that writing works. It is not the
/// session's: checking over that one would destroy a working session whenever
/// the login that follows ends up failing.
pub const KEYRING_PROBE_USER: &'static str = "write-probe";

/// What the credential store said when it was asked for one secret.
///
/// Three answers, not two: holding nothing under that name and not being
/// reachable at all are not the same fact.
pub enum Stored {
    Found(Secret),
    /// The store answered, and holds nothing under this name.
    Nothing,
    /// The store could not be opened. Whether anything is in it is unknown.
    Unreachable,
}

impl Stored {
    /// The secret, for callers that genuinely do not care why there is none.
    pub fn found(self) -> (r: Option<Secret>)
        ensures
            r == match self {
                Stored::Found(secret) => Some(secret),
                _ => None,
            },
    {
        match self {
            Stored::Found(secret) => Some(secret),
            Stored::Nothing => None,
            Stored::Unreachable => None,
        }
    }

    pub fn is_unreachable(&self) -> (r: bool)
        ensures
            r == (self is Unreachable),
    {
        matches!(self, Stored::Unreachable)
    }
}

/// Everything this tool may keep in the keyring.
#[derive(Debug, Clone, Copy, PartialEq, Eq, Structural)]
pub enum Kind {
    /// The Instagram session. What every command needs.
    Session,
    /// A token the monitor sends as a header to the user's webhook.
    WatchToken,
    /// The key the monitor signs the webhook body with.
    WatchSigningKey,
}

impl Kind {
    pub const ALL: [Kind; 3] = [Kind::Session, Kind::WatchToken, Kind::WatchSigningKey];

    /// The keyring entry's user name.
    pub open spec fn entry(self) -> Seq<char> {
        match self {
            Kind::Session => "session"@,
            Kind::WatchToken => "watch-token"@,
            Kind::WatchSigningKey => "watch-signing-key"@,
        }
    }

    /// The keyring entry's user name. Stable: changing one of these strands
    /// whatever is already stored under the old one.
    pub fn entry_name(self) -> (r: &'static str)
        ensures
            r@ == self.entry(),
    {
        match self {
            Kind::Session => KEYRING_USER,
            Kind::WatchToken => "watch-token",
            Kind::WatchSigningKey => "watch-signing-key",
        }
    }
}

/// Every kind is listed, and no two share an entry, nor is one the entry that
/// writing is checked with.
pub proof fn every_kind_has_a_name_of_its_own(a: Kind, b: Kind)
    ensures
        Kind::ALL@.contains(a),
        a.entry() == b.entry() <==> a == b,
        a.entry() != KEYRING_PROBE_USER@,
{
    reveal_strlit("session");
    reveal_strlit("watch-token");
    reveal_strlit("watch-signing-key");
    reveal_strlit("write-probe");
    assert("session"@.len() == 7);
    assert("watch-token"@.len() == 11 && "watch-token"@[1] == 'a');
    assert("watch-signing-key"@.len() == 17);
    assert("write-probe"@.len() == 11 && "write-probe"@[1] == 'r');
    assert(Kind::ALL@[0] == Kind::Session);
    assert(Kind::ALL@[1] == Kind::WatchToken);
    assert(Kind::ALL@[2] == Kind::WatchSigningKey);
}

/// What can go wrong with a secret.
#[derive(Debug, PartialEq, Eq)]
pub enum SecretsError {
    KeyringUnavailable(String),
    /// The keyring answered, and would not give the entry up. Not that there is
    /// no backend to talk to at all.
    KeyringRefused(String),
    Read { path: String, source: String },
    Write { path: String, source: String },
    Corrupt(String),
    Paths(PathError),
    Dpapi { operation: String, code: u32 },
}

impl SecretsError {
    /// What is said to the user.
    pub open spec fn says(self) -> Seq<char> {
        match self {
            SecretsError::KeyringUnavailable(why) => "the system keyring is unavailable: "@ + why@,
            SecretsError::KeyringRefused(why) =>
                "the system keyring would not delete the stored session: "@ + why@,
            SecretsError::Read { path, source } => "could not read "@ + path@ + ": "@ + source@,
            SecretsError::Write { path, source } => "could not write "@ + path@ + ": "@ + source@,
            SecretsError::Corrupt(why) => "the stored session is corrupt: "@ + why@,
            SecretsError::Paths(e) => e.says(),
            SecretsError::Dpapi { operation, code } => "could not "@ + operation@
                + " the session with DPAPI (code "@ + decimal(code as nat) + ")"@,
        }
    }

    pub fn to_string(&self) -> (r: String)
        ensures
            r@ == self.says(),
    {
        match self {
            SecretsError::KeyringUnavailable(why) => {
                let mut out = "the system keyring is unavailable: ".to_owned();
                out.append(why.as_str());
                out
            },
            SecretsError::KeyringRefused(why) => {
                let mut out = "the system keyring would not delete the stored session: ".to_owned();
                out.append(why.as_str());
                out
            },
            SecretsError::Read { path, source } => {
                let mut out = "could not read ".to_owned();
                out.append(path.as_str());
                out.append(": ");
                out.append(source.as_str());
                out
            },
            SecretsError::Write { path, source } => {
                let mut out = "could not write ".to_owned();
                out.append(path.as_str());
                out.append(": ");
                out.append(source.as_str());
                out
            },
            SecretsError::Corrupt(why) => {
                let mut out = "the stored session is corrupt: ".to_owned();
                out.append(why.as_str());
                out
            },
            SecretsError::Paths(e) => e.to_string(),
            SecretsError::Dpapi { operation, code } => {
                let mut out = "could not ".to_owned();
                out.append(operation.as_str());
                out.append(" the session with DPAPI (code ");
                push_u64(&mut out, *code as u64);
                out.append(")");
                out
            },
        }
    }
}

#[derive(Debug, Clone, Copy, PartialEq, Eq, Structural)]
pub enum Backend {
    /// The operating system keyring.
    Keyring,
    /// A file in the data directory. On Windows, protected with DPAPI.
    File,
}

impl Backend {
    /// Stable token for machine-readable output.
    pub open spec fn token(self) -> Seq<char> {
        match self {
            Backend::Keyring => "keyring"@,
            Backend::File => "file"@,
        }
    }

    pub fn as_str(self) -> (r: &'static str)
        ensures
            r@ == self.token(),
    {
        match self {
            Backend::Keyring => "keyring",
            Backend::File => "file",
        }
    }
}

/// How the payload of a session file is protected.
#[derive(Debug, Clone, Copy, PartialEq, Eq, Structural)]
pub enum Protection {
    /// Encrypted for the Windows account it was written by.
    Dpapi,
    /// As it is, behind the permissions of the file.
    Plain,
}

/// What a session file holds.
pub struct StoredSession {
    pub protection: Protection,
    pub payload: Secret,
}

/// Bytes in base64: what `base64`'s standard engine writes for them.
pub uninterp spec fn base64_text(bytes: Seq<u8>) -> Seq<char>;

/// What `base64`'s standard engine reads in a text: the bytes, or what it says is
/// wrong with it.
pub uninterp spec fn base64_bytes(text: Seq<char>) -> Result<Seq<u8>, Seq<char>>;

/// What `std` says of bytes that are not UTF-8.
pub uninterp spec fn utf8_complaint(bytes: Seq<u8>) -> Seq<char>;

/// How long bytes get in base64, padding included.
pub open spec fn base64_len(bytes: nat) -> int {
    (bytes as int + 2) / 3 * 4
}

/// `base64::Engine::encode` of the standard engine, which has the standard
/// alphabet and pads. That engine's `decode` gives the bytes back. It panics where
/// the text would not fit in memory.
#[verifier::external_body]
fn b64(bytes: &[u8]) -> (r: String)
    requires
        base64_len(bytes@.len()) <= isize::MAX,
    ensures
        r@ == base64_text(bytes@),
        base64_bytes(r@) is Ok && base64_bytes(r@)->Ok_0 == bytes@,
{
    base64::engine::general_purpose::STANDARD.encode(bytes)
}

/// `base64::Engine::decode` of the standard engine, with what the error says of
/// itself where it refuses.
#[verifier::external_body]
fn unb64(text: &str) -> (r: Result<Vec<u8>, String>)
    ensures
        match r {
            Ok(bytes) => base64_bytes(text@) == Ok::<Seq<u8>, Seq<char>>(bytes@),
            Err(why) => base64_bytes(text@) == Err::<Seq<u8>, Seq<char>>(why@),
        },
{
    base64::engine::general_purpose::STANDARD.decode(text).map_err(|e| e.to_string())
}

/// `String::from_utf8`: the text where the bytes are UTF-8, and where they are not
/// what the error says of itself.
#[verifier::external_body]
fn text_of(bytes: Vec<u8>) -> (r: Result<String, String>)
    ensures
        match r {
            Ok(text) => valid_utf8(bytes@) && text@ == decode_utf8(bytes@),
            Err(why) => !valid_utf8(bytes@) && why@ == utf8_complaint(bytes@),
        },
{
    String::from_utf8(bytes).map_err(|e| e.to_string())
}

/// What there is left to do with the payload of a session file.
pub enum Payload {
    /// It is the session.
    Session(Secret),
    /// It has to be decrypted first.
    Encrypted(Vec<u8>),
}

/// What the payload of a session file comes to.
pub enum Opened {
    Session(Seq<char>),
    Encrypted(Seq<u8>),
    Corrupt(Seq<char>),
}

impl View for Payload {
    type V = Opened;

    open spec fn view(&self) -> Opened {
        match self {
            Payload::Session(session) => Opened::Session(session@),
            Payload::Encrypted(bytes) => Opened::Encrypted(bytes@),
        }
    }
}

impl StoredSession {
    /// What is in the file, on a system that can decrypt it or cannot.
    pub open spec fn opened(self, has_dpapi: bool) -> Opened {
        match self.protection {
            Protection::Plain => Opened::Session(self.payload@),
            Protection::Dpapi => if !has_dpapi {
                Opened::Corrupt("the session is DPAPI-protected and this system is not Windows"@)
            } else {
                match base64_bytes(self.payload@) {
                    Ok(bytes) => Opened::Encrypted(bytes),
                    Err(why) => Opened::Corrupt("invalid base64: "@ + why),
                }
            },
        }
    }

    /// Whether this is how a session goes into a file: encrypted where the system
    /// can, and as it is where it cannot.
    pub open spec fn protects(self, json: Seq<char>, encrypted: Option<Seq<u8>>) -> bool {
        match encrypted {
            Some(bytes) => {
                &&& self.protection == Protection::Dpapi
                &&& self.payload@ == base64_text(bytes)
                &&& base64_bytes(self.payload@) == Ok::<Seq<u8>, Seq<char>>(bytes)
            },
            None => self.protection == Protection::Plain && self.payload@ == json,
        }
    }
}

/// What goes into a session file: on a system that encrypts, what it made of the
/// session; on one that does not, the session as it is, behind the permissions of
/// the file.
pub fn protect(json: &str, encrypted: Option<&[u8]>) -> (r: StoredSession)
    requires
        encrypted matches Some(bytes) ==> base64_len(bytes@.len()) <= isize::MAX,
    ensures
        r.protects(
            json@,
            match encrypted {
                Some(bytes) => Some(bytes@),
                None => None,
            },
        ),
{
    match encrypted {
        Some(bytes) => StoredSession {
            protection: Protection::Dpapi,
            payload: Secret::new(b64(bytes)),
        },
        None => StoredSession { protection: Protection::Plain, payload: Secret::from(json) },
    }
}

/// What the text of an encrypted payload comes to, by what reading it as base64
/// gave.
pub fn unsealed(read: Result<Vec<u8>, String>) -> (r: Result<Payload, SecretsError>)
    ensures
        match read {
            Ok(bytes) => r == Ok::<Payload, SecretsError>(Payload::Encrypted(bytes)),
            Err(why) => r matches Err(SecretsError::Corrupt(said)) && said@ == "invalid base64: "@
                + why@,
        },
{
    match read {
        Ok(bytes) => Ok(Payload::Encrypted(bytes)),
        Err(why) => {
            let mut said = "invalid base64: ".to_owned();
            said.append(why.as_str());
            Err(SecretsError::Corrupt(said))
        },
    }
}

/// Opens what a session file holds, on a system that can decrypt it or cannot.
pub fn unprotect(stored: StoredSession, has_dpapi: bool) -> (r: Result<Payload, SecretsError>)
    ensures
        match r {
            Ok(payload) => payload@ == stored.opened(has_dpapi),
            Err(e) => e matches SecretsError::Corrupt(why) && stored.opened(has_dpapi)
                == Opened::Corrupt(why@),
        },
{
    match stored.protection {
        Protection::Plain => Ok(Payload::Session(stored.payload)),
        Protection::Dpapi => {
            if has_dpapi {
                unsealed(unb64(stored.payload.expose()))
            } else {
                Err(
                    SecretsError::Corrupt(
                        "the session is DPAPI-protected and this system is not Windows".to_owned(),
                    ),
                )
            }
        },
    }
}

/// The session in what decrypting gave, by what reading it as UTF-8 gave.
pub fn session_text(read: Result<String, String>) -> (r: Result<Secret, SecretsError>)
    ensures
        match read {
            Ok(text) => r matches Ok(session) && session@ == text@,
            Err(why) => r matches Err(SecretsError::Corrupt(said)) && said@ == "not valid UTF-8: "@
                + why@,
        },
{
    match read {
        Ok(text) => Ok(Secret::new(text)),
        Err(why) => {
            let mut said = "not valid UTF-8: ".to_owned();
            said.append(why.as_str());
            Err(SecretsError::Corrupt(said))
        },
    }
}

/// The session in what decrypting a payload gave.
pub fn decrypted(bytes: Vec<u8>) -> (r: Result<Secret, SecretsError>)
    ensures
        match r {
            Ok(session) => valid_utf8(bytes@) && session@ == decode_utf8(bytes@),
            Err(e) => {
                &&& !valid_utf8(bytes@)
                &&& e matches SecretsError::Corrupt(why) && why@ == "not valid UTF-8: "@
                    + utf8_complaint(bytes@)
            },
        },
{
    session_text(text_of(bytes))
}

/// What was put into a session file comes out of it again on a system of the same
/// kind: the session, or the bytes that the encryption made of it.
pub proof fn what_was_protected_opens_again(
    stored: StoredSession,
    json: Seq<char>,
    encrypted: Option<Seq<u8>>,
)
    requires
        stored.protects(json, encrypted),
    ensures
        stored.opened(encrypted is Some) == match encrypted {
            Some(bytes) => Opened::Encrypted(bytes),
            None => Opened::Session(json),
        },
{
}

/// What the keyring said when it was asked for an entry.
pub enum KeyringAnswer {
    Value(Secret),
    /// The entry is simply not there.
    NoEntry,
    /// There is no keyring at all.
    Unavailable(String),
    /// The keyring is there and refused.
    Refused(String),
}

/// What the keyring said when it was told to hold a value.
#[derive(Debug, PartialEq, Eq)]
pub enum KeyringWrite {
    Done,
    Unavailable(String),
    Refused(String),
}

/// What the keyring said when it was told to remove an entry.
#[derive(Debug, PartialEq, Eq)]
pub enum KeyringReply {
    Done,
    NoEntry,
    Unavailable(String),
    Refused(String),
}

/// What a write check comes to.
#[derive(Debug, PartialEq, Eq)]
pub enum Probe {
    /// Try writing there next.
    Try(Backend),
    /// Writing works there.
    Lands(Backend),
    /// Writing works nowhere.
    Fails(SecretsError),
}

/// What follows from trying one place. A keyring that is not there is no reason to
/// refuse: the file is tried instead, and the answer says where it landed.
pub fn after_probe(tried: Backend, outcome: Result<(), SecretsError>) -> (r: Probe)
    ensures
        r == match (tried, outcome) {
            (_, Ok(())) => Probe::Lands(tried),
            (Backend::Keyring, Err(_)) => Probe::Try(Backend::File),
            (Backend::File, Err(e)) => Probe::Fails(e),
        },
{
    match outcome {
        Ok(()) => Probe::Lands(tried),
        Err(e) => match tried {
            Backend::Keyring => Probe::Try(Backend::File),
            Backend::File => Probe::Fails(e),
        },
    }
}

/// What becomes of handing the keyring a session, or the value that a write check
/// tries. A refusal reads like a keyring that is not there: either way there is
/// none to keep it.
pub fn session_kept(reply: KeyringWrite) -> (r: Result<(), SecretsError>)
    ensures
        r == match reply {
            KeyringWrite::Done => Ok::<(), SecretsError>(()),
            KeyringWrite::Unavailable(why) => Err(SecretsError::KeyringUnavailable(why)),
            KeyringWrite::Refused(why) => Err(SecretsError::KeyringUnavailable(why)),
        },
{
    match reply {
        KeyringWrite::Done => Ok(()),
        KeyringWrite::Unavailable(why) => Err(SecretsError::KeyringUnavailable(why)),
        KeyringWrite::Refused(why) => Err(SecretsError::KeyringUnavailable(why)),
    }
}

/// How to store a session.
pub struct SavePlan {
    /// Where it goes.
    pub backend: Backend,
    /// Whether only the fields it cannot work without go there.
    pub minimal: bool,
    /// Whether the keyring's own copy has to go.
    pub forget_entry: bool,
    /// The files that would be a second session lying around.
    pub stale: Vec<Location>,
}

/// Where a session is to be read.
pub enum Source {
    /// The keyring gave it.
    Keyring(Secret),
    File,
    /// The place an earlier version kept it. What is there moves to the current
    /// one.
    Legacy,
    Nowhere,
}

/// Where a session is to be read: where the keyring gave one, there; and otherwise in
/// the file, or where there is none in the place an earlier version kept it.
pub open spec fn source_of(
    paths: AppPaths,
    keyring: KeyringAnswer,
    file_exists: bool,
    legacy_exists: bool,
) -> Source {
    match keyring {
        KeyringAnswer::Value(secret) => Source::Keyring(secret),
        _ => if file_exists {
            Source::File
        } else if paths.legacy_place() is Some && legacy_exists {
            Source::Legacy
        } else {
            Source::Nowhere
        },
    }
}

/// What is known of a secret after the keyring was asked for it.
pub open spec fn known_of(answer: KeyringAnswer) -> Result<Stored, SecretsError> {
    match answer {
        KeyringAnswer::Value(secret) => Ok(Stored::Found(secret)),
        KeyringAnswer::NoEntry => Ok(Stored::Nothing),
        KeyringAnswer::Unavailable(_) => Ok(Stored::Unreachable),
        KeyringAnswer::Refused(why) => Err(SecretsError::KeyringRefused(why)),
    }
}

/// Everything to remove, all of it to be tried.
pub struct RemovalPlan {
    pub kinds: Vec<Kind>,
    pub files: Vec<Location>,
}

/// What became of removing one file.
#[derive(Debug, PartialEq, Eq)]
pub struct FileRemoval {
    pub path: String,
    /// Why it would not go, where it would not.
    pub refusal: Option<String>,
}

/// A store of secrets.
pub struct SecretStore {
    backend: Backend,
    paths: AppPaths,
    /// Keyring service name.
    service: String,
}

/// What there is to say where a session that was found cannot be read by this
/// version.
pub open spec fn unsupported_text(session: Session) -> Seq<char> {
    crate::session::SessionError::UnsupportedSchema {
        found: session.schema_version,
        expected: SESSION_SCHEMA_VERSION,
    }.says()
}

/// Accepts a session that was read, if this version understands it.
pub fn accept_session(session: Session) -> (r: Result<Session, SecretsError>)
    ensures
        match r {
            Ok(accepted) => accepted == session && session.schema_version <= SESSION_SCHEMA_VERSION,
            Err(e) => {
                &&& session.schema_version > SESSION_SCHEMA_VERSION
                &&& e matches SecretsError::Corrupt(why) && why@ == unsupported_text(session)
            },
        },
{
    match session.check_schema() {
        Ok(()) => Ok(session),
        Err(e) => Err(SecretsError::Corrupt(e.to_string())),
    }
}

impl SecretStore {
    pub closed spec fn spec_backend(self) -> Backend {
        self.backend
    }

    pub closed spec fn spec_paths(self) -> AppPaths {
        self.paths
    }

    pub closed spec fn spec_service(self) -> Seq<char> {
        self.service@
    }

    pub fn new(paths: AppPaths, prefer_file: bool) -> (r: SecretStore)
        ensures
            r.spec_backend() == (if prefer_file {
                Backend::File
            } else {
                Backend::Keyring
            }),
            r.spec_paths() == paths,
            r.spec_service() == KEYRING_SERVICE@,
    {
        let backend = if prefer_file {
            Backend::File
        } else {
            Backend::Keyring
        };
        SecretStore { backend, paths, service: KEYRING_SERVICE.to_owned() }
    }

    /// Points at a different keyring entry.
    pub fn with_service(self, service: &str) -> (r: SecretStore)
        ensures
            r.spec_backend() == self.spec_backend(),
            r.spec_paths() == self.spec_paths(),
            r.spec_service() == service@,
    {
        SecretStore { backend: self.backend, paths: self.paths, service: service.to_owned() }
    }

    /// Fixes the backend to the one that was found to work.
    pub fn using(self, backend: Backend) -> (r: SecretStore)
        ensures
            r.spec_backend() == backend,
            r.spec_paths() == self.spec_paths(),
            r.spec_service() == self.spec_service(),
    {
        SecretStore { backend, paths: self.paths, service: self.service }
    }

    pub fn backend(&self) -> (r: Backend)
        ensures
            r == self.spec_backend(),
    {
        self.backend
    }

    pub fn paths(&self) -> (r: &AppPaths)
        ensures
            *r == self.spec_paths(),
    {
        &self.paths
    }

    pub fn service(&self) -> (r: &str)
        ensures
            r@ == self.spec_service(),
    {
        self.service.as_str()
    }

    /// Where the session lives, for the user to read.
    pub fn describe(&self, separator: char) -> (r: String)
        ensures
            r@ == match self.spec_backend() {
                Backend::Keyring => "system keyring"@,
                Backend::File => "file "@ + self.spec_paths().session_place().text(separator),
            },
    {
        match self.backend {
            Backend::Keyring => "system keyring".to_owned(),
            Backend::File => {
                let mut out = "file ".to_owned();
                out.append(self.paths.session_file().to_text(separator).as_str());
                out
            },
        }
    }

    /// The file path, when the backend is one. Kept apart from
    /// [`SecretStore::describe`] so that machine-readable output does not have to
    /// dig it out of a sentence.
    pub fn storage_path(&self, separator: char) -> (r: Option<String>)
        ensures
            match self.spec_backend() {
                Backend::Keyring => r is None,
                Backend::File => r matches Some(text) && text@
                    == self.spec_paths().session_place().text(separator),
            },
    {
        match self.backend {
            Backend::Keyring => None,
            Backend::File => Some(self.paths.session_file().to_text(separator)),
        }
    }

    /// Where to check first that writing works.
    pub fn probe_writable(&self) -> (r: Probe)
        ensures
            r == Probe::Try(self.spec_backend()),
    {
        Probe::Try(self.backend)
    }

    /// How to store a session that is written as this text.
    ///
    /// Only the keyring has a size ceiling, so only there does a session shrink
    /// to fit. No second session is left lying around on either backend: every
    /// file one can be sitting in goes, but for the one just written.
    pub fn save(&self, json: &str) -> (r: SavePlan)
        requires
            2 * utf16_len(json@) <= usize::MAX,
        ensures
            r.backend == self.spec_backend(),
            r.minimal == (self.spec_backend() == Backend::Keyring && 2 * utf16_len(json@)
                > MAX_KEYRING_SECRET_BYTES),
            r.forget_entry == (self.spec_backend() == Backend::File),
            places(r.stale@) == match self.spec_backend() {
                Backend::Keyring => self.spec_paths().session_places(),
                Backend::File => self.spec_paths().session_places().filter(
                    |place: Place| place != self.spec_paths().session_place(),
                ),
            },
    {
        match self.backend {
            Backend::Keyring => SavePlan {
                backend: Backend::Keyring,
                minimal: keyring_bytes(json) > MAX_KEYRING_SECRET_BYTES,
                forget_entry: false,
                stale: self.paths.session_files(),
            },
            Backend::File => SavePlan {
                backend: Backend::File,
                minimal: false,
                forget_entry: true,
                stale: self.other_files(),
            },
        }
    }

    fn other_files(&self) -> (r: Vec<Location>)
        ensures
            places(r@) == self.spec_paths().session_places().filter(
                |place: Place| place != self.spec_paths().session_place(),
            ),
    {
        let written = self.paths.session_file();
        let all = self.paths.session_files();
        let ghost kept = |place: Place| place != self.spec_paths().session_place();
        let mut r: Vec<Location> = Vec::new();
        let mut i: usize = 0;
        assert(places(r@) =~= places(all@).take(0).filter(kept)) by {
            reveal(Seq::filter);
        }
        while i < all.len()
            invariant
                i <= all@.len(),
                written@ == self.spec_paths().session_place(),
                kept == (|place: Place| place != self.spec_paths().session_place()),
                places(r@) == places(all@).take(i as int).filter(kept),
            decreases all@.len() - i,
        {
            let ghost before = places(r@);
            proof {
                reveal(Seq::filter);
                assert(places(all@).take(i + 1).drop_last() == places(all@).take(i as int));
            }
            if !all[i].same(&written) {
                r.push(all[i].clone());
                assert(places(r@) =~= before.push(all@[i as int]@));
            }
            i = i + 1;
        }
        assert(places(all@).take(all@.len() as int) == places(all@));
        r
    }

    /// Where to read a session, by what the keyring said: there, where it gave
    /// one; whatever else it said, in the file, and where there is none in the
    /// place an earlier version kept it. All of them whatever the preferred
    /// backend: a session that was saved on the other one still has to show up.
    pub fn load(&self, keyring: KeyringAnswer, file_exists: bool, legacy_exists: bool) -> (r:
        Source)
        ensures
            r == source_of(self.spec_paths(), keyring, file_exists, legacy_exists),
    {
        if let KeyringAnswer::Value(secret) = keyring {
            return Source::Keyring(secret);
        }
        if file_exists {
            return Source::File;
        }
        match self.paths.legacy_session_file() {
            Some(_) => {
                if legacy_exists {
                    Source::Legacy
                } else {
                    Source::Nowhere
                }
            },
            None => Source::Nowhere,
        }
    }

    /// What becomes of storing one of the monitor's secrets, by what the keyring
    /// replied. There is no fallback for these: without one the monitor still
    /// runs. The session is stored by [`SecretStore::save`].
    pub fn save_secret(&self, kind: Kind, reply: KeyringWrite) -> (r: Result<(), SecretsError>)
        requires
            kind != Kind::Session,
        ensures
            r == match reply {
                KeyringWrite::Done => Ok::<(), SecretsError>(()),
                KeyringWrite::Unavailable(why) => Err(SecretsError::KeyringUnavailable(why)),
                KeyringWrite::Refused(why) => Err(SecretsError::KeyringRefused(why)),
            },
    {
        match reply {
            KeyringWrite::Done => Ok(()),
            KeyringWrite::Unavailable(why) => Err(SecretsError::KeyringUnavailable(why)),
            KeyringWrite::Refused(why) => Err(SecretsError::KeyringRefused(why)),
        }
    }

    /// What is known of a secret after the keyring was asked for it. A keyring
    /// that is not there is not an error, and not "nothing is stored" either.
    pub fn load_secret(&self, answer: KeyringAnswer) -> (r: Result<Stored, SecretsError>)
        ensures
            r == known_of(answer),
    {
        match answer {
            KeyringAnswer::Value(secret) => Ok(Stored::Found(secret)),
            KeyringAnswer::NoEntry => Ok(Stored::Nothing),
            KeyringAnswer::Unavailable(_) => Ok(Stored::Unreachable),
            KeyringAnswer::Refused(why) => Err(SecretsError::KeyringRefused(why)),
        }
    }

    /// What becomes of removing a secret, by what the keyring replied. One that
    /// was not there is gone, and so is one in a keyring there is none of.
    pub fn forget_secret(&self, reply: KeyringReply) -> (r: Result<(), SecretsError>)
        ensures
            match reply {
                KeyringReply::Refused(why) => r == Err::<(), SecretsError>(
                    SecretsError::KeyringRefused(why),
                ),
                _ => r == Ok::<(), SecretsError>(()),
            },
    {
        match reply {
            KeyringReply::Refused(why) => Err(SecretsError::KeyringRefused(why)),
            KeyringReply::Done => Ok(()),
            KeyringReply::NoEntry => Ok(()),
            KeyringReply::Unavailable(_) => Ok(()),
        }
    }

    /// Whether there is a credential on this machine at all, by what loading it
    /// gave. Anything but a clean "nothing there" counts as one: a session too
    /// corrupt to read is still a session on the disk.
    pub fn something_is_stored(&self, loaded: &Result<Option<Session>, SecretsError>) -> (r: bool)
        ensures
            r == !(loaded matches Ok(None)),
    {
        match loaded {
            Ok(None) => false,
            Ok(Some(_)) => true,
            Err(_) => true,
        }
    }

    /// Which of the monitor's secrets are on this machine, by what was found of
    /// each kind. The session is not among them.
    pub fn monitor_secrets_stored(&self, asked: &Vec<(Kind, Result<Stored, SecretsError>)>) -> (r:
        Vec<Kind>)
        ensures
            r@ == kinds_found(asked@),
    {
        let mut r: Vec<Kind> = Vec::new();
        let mut i: usize = 0;
        while i < asked.len()
            invariant
                i <= asked@.len(),
                r@ == kinds_found(asked@.take(i as int)),
            decreases asked@.len() - i,
        {
            let (kind, found) = &asked[i];
            assert(asked@.take(i + 1).drop_last() == asked@.take(i as int));
            if *kind != Kind::Session {
                if let Ok(Stored::Found(_)) = found {
                    r.push(*kind);
                }
            }
            i = i + 1;
        }
        assert(asked@.take(asked@.len() as int) == asked@);
        r
    }

    /// Removes the session from everywhere it can be, and nothing else.
    pub fn delete(&self) -> (r: RemovalPlan)
        ensures
            r.kinds@ == seq![Kind::Session],
            places(r.files@) == self.spec_paths().session_places(),
    {
        let mut kinds: Vec<Kind> = Vec::new();
        kinds.push(Kind::Session);
        assert(kinds@ =~= seq![Kind::Session]);
        RemovalPlan { kinds, files: self.paths.session_files() }
    }

    /// Removes every secret this tool has ever written.
    pub fn delete_all(&self) -> (r: RemovalPlan)
        ensures
            r.kinds@ == Kind::ALL@,
            places(r.files@) == self.spec_paths().session_places(),
    {
        let mut kinds: Vec<Kind> = Vec::new();
        kinds.push(Kind::Session);
        kinds.push(Kind::WatchToken);
        kinds.push(Kind::WatchSigningKey);
        assert(kinds@ =~= Kind::ALL@);
        RemovalPlan { kinds, files: self.paths.session_files() }
    }
}

/// The first file that would not go.
pub open spec fn first_file_refusal(files: Seq<FileRemoval>) -> Option<FileRemoval>
    decreases files.len(),
{
    if files.len() == 0 {
        None
    } else if files.first().refusal is Some {
        Some(files.first())
    } else {
        first_file_refusal(files.drop_first())
    }
}

/// What the keyring said of the first entry it would not give up.
pub open spec fn first_keyring_refusal(replies: Seq<KeyringReply>) -> Option<String>
    decreases replies.len(),
{
    if replies.len() == 0 {
        None
    } else {
        match replies.first() {
            KeyringReply::Refused(why) => Some(why),
            _ => first_keyring_refusal(replies.drop_first()),
        }
    }
}

/// What removing everything comes to, after all of it was tried: that it went,
/// only if it all did. Where a file and the keyring both refused, the file's
/// sentence is the one told, because it names a path somebody can go and delete
/// by hand.
pub fn removed(replies: &Vec<KeyringReply>, files: &Vec<FileRemoval>) -> (r: Result<
    (),
    SecretsError,
>)
    ensures
        match first_file_refusal(files@) {
            Some(file) => r == Err::<(), SecretsError>(
                SecretsError::Write { path: file.path, source: file.refusal->0 },
            ),
            None => match first_keyring_refusal(replies@) {
                Some(why) => r == Err::<(), SecretsError>(SecretsError::KeyringRefused(why)),
                None => r == Ok::<(), SecretsError>(()),
            },
        },
{
    let mut i: usize = 0;
    assert(files@.skip(0) == files@);
    while i < files.len()
        invariant
            i <= files@.len(),
            first_file_refusal(files@) == first_file_refusal(files@.skip(i as int)),
        decreases files@.len() - i,
    {
        assert(files@.skip(i as int).drop_first() == files@.skip(i + 1));
        if let Some(source) = &files[i].refusal {
            return Err(
                SecretsError::Write { path: files[i].path.clone(), source: source.clone() },
            );
        }
        i = i + 1;
    }
    let mut j: usize = 0;
    assert(replies@.skip(0) == replies@);
    while j < replies.len()
        invariant
            first_file_refusal(files@) is None,
            j <= replies@.len(),
            first_keyring_refusal(replies@) == first_keyring_refusal(replies@.skip(j as int)),
        decreases replies@.len() - j,
    {
        assert(replies@.skip(j as int).drop_first() == replies@.skip(j + 1));
        if let KeyringReply::Refused(why) = &replies[j] {
            return Err(SecretsError::KeyringRefused(why.clone()));
        }
        j = j + 1;
    }
    Ok(())
}

/// The kinds a secret was found of, but for the session, in the order they were
/// asked for.
pub open spec fn kinds_found(asked: Seq<(Kind, Result<Stored, SecretsError>)>) -> Seq<Kind>
    decreases asked.len(),
{
    if asked.len() == 0 {
        Seq::empty()
    } else {
        let (kind, found) = asked.last();
        let rest = kinds_found(asked.drop_last());
        if kind != Kind::Session && (found matches Ok(Stored::Found(_))) {
            rest.push(kind)
        } else {
            rest
        }
    }
}

/// Having nothing to remove is the result being asked for, not a refusal: where
/// every entry was gone, absent or out of reach and no file refused, it went.
pub proof fn nothing_stored_is_not_a_refusal(replies: Seq<KeyringReply>, files: Seq<FileRemoval>)
    requires
        forall|i: int| 0 <= i < replies.len() ==> !((#[trigger] replies[i]) is Refused),
        forall|i: int| 0 <= i < files.len() ==> (#[trigger] files[i]).refusal is None,
    ensures
        first_keyring_refusal(replies) is None,
        first_file_refusal(files) is None,
    decreases replies.len() + files.len(),
{
    if replies.len() > 0 {
        let rest = replies.drop_first();
        assert(!(replies[0] is Refused));
        assert forall|i: int| 0 <= i < rest.len() implies !((#[trigger] rest[i]) is Refused) by {
            assert(rest[i] == replies[i + 1]);
        }
        nothing_stored_is_not_a_refusal(rest, files);
    } else if files.len() > 0 {
        let rest = files.drop_first();
        assert(files[0].refusal is None);
        assert forall|i: int| 0 <= i < rest.len() implies (#[trigger] rest[i]).refusal is None by {
            assert(rest[i] == files[i + 1]);
        }
        nothing_stored_is_not_a_refusal(replies, rest);
    }
}

/// One copy that will not go is told of, whichever it is.
pub proof fn a_copy_that_will_not_go_is_told_of(
    replies: Seq<KeyringReply>,
    files: Seq<FileRemoval>,
    i: int,
)
    requires
        (0 <= i < replies.len() && replies[i] is Refused) || (0 <= i < files.len()
            && files[i].refusal is Some),
    ensures
        first_file_refusal(files) is Some || first_keyring_refusal(replies) is Some,
    decreases replies.len() + files.len(),
{
    if 0 <= i < files.len() && files[i].refusal is Some {
        if files.first().refusal is None {
            a_copy_that_will_not_go_is_told_of(replies, files.drop_first(), i - 1);
            assert(files.drop_first()[i - 1] == files[i]);
            lemma_later_file(files);
        }
    } else {
        if !(replies.first() is Refused) {
            assert(replies.drop_first()[i - 1] == replies[i]);
            a_copy_that_will_not_go_is_told_of(replies.drop_first(), files, i - 1);
        }
    }
}

/// No second session is left lying around: of the places one can be in, every one
/// but the one just written goes, and that one stays.
pub proof fn no_second_session_is_left(paths: AppPaths, place: Place)
    requires
        paths.session_places().contains(place),
    ensures
        paths.session_places().filter(|p: Place| p != paths.session_place()).contains(place)
            <==> place != paths.session_place(),
{
    let kept = |p: Place| p != paths.session_place();
    let all = paths.session_places();
    broadcast use vstd::seq_lib::group_filter_ensures;

    if place != paths.session_place() {
        assert(kept(place));
    }
    if all.filter(kept).contains(place) {
        let i = choose|i: int| 0 <= i < all.filter(kept).len() && all.filter(kept)[i] == place;
        assert(kept(all.filter(kept)[i]));
    }
}

/// What a machine holds of what this tool writes: the entries of its keyring, and the
/// places that have a session file.
pub struct Holdings {
    pub entries: Map<Kind, Secret>,
    pub files: Set<Place>,
}

impl Holdings {
    /// What its keyring says when it is asked for a secret.
    pub open spec fn answer(self, kind: Kind) -> KeyringAnswer {
        if self.entries.contains_key(kind) {
            KeyringAnswer::Value(self.entries[kind])
        } else {
            KeyringAnswer::NoEntry
        }
    }

    /// Whether a place has a file.
    pub open spec fn has_file(self, place: Option<Place>) -> bool {
        place matches Some(place) && self.files.contains(place)
    }
}

/// Whether this is what a machine holds after everything in a plan was tried, if its
/// replies are true: an entry is still there only where the keyring refused to give
/// it up, and a file only where it would not go. A keyring that is not there holds
/// nothing.
pub open spec fn is_left_of(
    left: Holdings,
    kinds: Seq<Kind>,
    replies: Seq<KeyringReply>,
    files: Seq<Place>,
    removals: Seq<FileRemoval>,
) -> bool {
    &&& replies.len() == kinds.len()
    &&& removals.len() == files.len()
    &&& forall|i: int|
        0 <= i < kinds.len() && left.entries.contains_key(#[trigger] kinds[i])
            ==> replies[i] is Refused
    &&& forall|i: int|
        0 <= i < files.len() && left.files.contains(#[trigger] files[i])
            ==> removals[i].refusal is Some
}

/// A purge leaves nothing behind. Every kind of secret and every place a session can be
/// in is in its plan. Where it is said to have gone, no entry and no session file is
/// left: there is no session to load from anywhere, and every secret is known not to be
/// there. Where it is not, what refused is all that can be left. Purging again is no
/// refusal: [`nothing_stored_is_not_a_refusal`].
pub proof fn a_purge_leaves_nothing_behind(
    paths: AppPaths,
    replies: Seq<KeyringReply>,
    removals: Seq<FileRemoval>,
    left: Holdings,
    kind: Kind,
    place: Place,
)
    requires
        is_left_of(left, Kind::ALL@, replies, paths.session_places(), removals),
        paths.session_places().contains(place),
    ensures
        Kind::ALL@.contains(kind),
        paths.session_places().contains(paths.session_place()),
        paths.legacy_session_place() matches Some(legacy) ==> paths.session_places().contains(legacy),
        first_file_refusal(removals) is None && first_keyring_refusal(replies) is None ==> {
            &&& !left.entries.contains_key(kind)
            &&& !left.files.contains(place)
            &&& source_of(
                paths,
                left.answer(Kind::Session),
                left.has_file(Some(paths.session_place())),
                left.has_file(paths.legacy_session_place()),
            ) is Nowhere
            &&& known_of(left.answer(kind)) == Ok::<Stored, SecretsError>(Stored::Nothing)
        },
        left.entries.contains_key(kind) ==> first_keyring_refusal(replies) is Some,
        left.files.contains(place) ==> first_file_refusal(removals) is Some,
{
    every_kind_has_a_name_of_its_own(kind, kind);
    every_kind_has_a_name_of_its_own(Kind::Session, Kind::Session);
    let files = paths.session_places();
    assert(files[0] == paths.session_place());
    if paths.legacy_session_place() is Some {
        assert(files[1] == paths.legacy_session_place()->0);
    }
    lemma_kept_is_told_of(left, replies, files, removals, kind, place);
    lemma_kept_is_told_of(left, replies, files, removals, Kind::Session, files[0]);
    if paths.legacy_session_place() is Some {
        lemma_kept_is_told_of(left, replies, files, removals, kind, files[1]);
    }
}

/// What is left of a purge is told of.
proof fn lemma_kept_is_told_of(
    left: Holdings,
    replies: Seq<KeyringReply>,
    files: Seq<Place>,
    removals: Seq<FileRemoval>,
    kind: Kind,
    place: Place,
)
    requires
        is_left_of(left, Kind::ALL@, replies, files, removals),
        files.contains(place),
    ensures
        left.entries.contains_key(kind) ==> first_keyring_refusal(replies) is Some,
        left.files.contains(place) ==> first_file_refusal(removals) is Some,
{
    every_kind_has_a_name_of_its_own(kind, kind);
    if left.entries.contains_key(kind) {
        let i = choose|i: int| 0 <= i < Kind::ALL@.len() && Kind::ALL@[i] == kind;
        a_copy_that_will_not_go_is_told_of(replies, Seq::empty(), i);
    }
    if left.files.contains(place) {
        let i = choose|i: int| 0 <= i < files.len() && files[i] == place;
        a_copy_that_will_not_go_is_told_of(Seq::empty(), removals, i);
    }
}

/// Whether a secret of a kind was found.
pub open spec fn was_found(asked: Seq<(Kind, Result<Stored, SecretsError>)>, kind: Kind) -> bool {
    exists|i: int|
        0 <= i < asked.len() && (#[trigger] asked[i]).0 == kind && (asked[i].1 matches Ok(
            Stored::Found(_),
        ))
}

/// Asked of every kind in turn, the kinds found are the monitor's, in their order and
/// once each: nothing found, no keyring and a refusal only leave one out, and the
/// session is never among them.
pub proof fn every_monitor_secret_is_listed_once(asked: Seq<(Kind, Result<Stored, SecretsError>)>)
    requires
        asked.len() == Kind::ALL@.len(),
        forall|i: int| 0 <= i < asked.len() ==> (#[trigger] asked[i]).0 == Kind::ALL@[i],
    ensures
        kinds_found(asked) == Kind::ALL@.filter(
            |kind: Kind| kind != Kind::Session && was_found(asked, kind),
        ),
        kinds_found(asked).no_duplicates(),
        !kinds_found(asked).contains(Kind::Session),
{
    let wanted = |kind: Kind| kind != Kind::Session && was_found(asked, kind);
    let all = Kind::ALL@;
    reveal_with_fuel(kinds_found, 4);
    reveal(Seq::filter);
    reveal_with_fuel(Seq::<_>::filter, 4);
    assert(all.len() == 3 && all[0] == Kind::Session && all[1] == Kind::WatchToken && all[2]
        == Kind::WatchSigningKey);
    assert(asked[0].0 == all[0] && asked[1].0 == all[1] && asked[2].0 == all[2]);
    assert(was_found(asked, all[1]) <==> (asked[1].1 matches Ok(Stored::Found(_))));
    assert(was_found(asked, all[2]) <==> (asked[2].1 matches Ok(Stored::Found(_))));
    let two = all.drop_last();
    let one = two.drop_last();
    assert(two.last() == all[1] && one.last() == all[0] && one.drop_last().len() == 0);
    assert(kinds_found(asked) =~= all.filter(wanted));
}

proof fn lemma_later_file(files: Seq<FileRemoval>)
    requires
        files.len() > 0,
        files.first().refusal is None,
    ensures
        first_file_refusal(files) == first_file_refusal(files.drop_first()),
{
}

/// A session is taken from the keyring where that has one. Where it has none, is not there or
/// refuses, it is taken from its file, and only where there is no file from where an earlier
/// version kept it.
pub proof fn where_a_session_is_taken_from(
    paths: AppPaths,
    secret: Secret,
    why: String,
    file_exists: bool,
    legacy_exists: bool,
)
    ensures
        source_of(paths, KeyringAnswer::Value(secret), file_exists, legacy_exists)
            == Source::Keyring(secret),
        forall|answer: KeyringAnswer|
            answer == KeyringAnswer::NoEntry || answer == KeyringAnswer::Unavailable(why) || answer
                == KeyringAnswer::Refused(why) ==> {
                let source = #[trigger] source_of(paths, answer, file_exists, legacy_exists);
                &&& file_exists ==> source is File
                &&& !file_exists && legacy_exists && paths.legacy_place() is Some ==> source
                    is Legacy
                &&& !file_exists && (!legacy_exists || paths.legacy_place() is None) ==> source
                    is Nowhere
            },
{
}

/// A secret is known to be there, known not to be there, or out of reach; and a keyring that
/// refuses is told of as that.
pub proof fn what_is_known_of_a_secret(secret: Secret, why: String)
    ensures
        known_of(KeyringAnswer::Value(secret)) == Ok::<Stored, SecretsError>(Stored::Found(secret)),
        known_of(KeyringAnswer::NoEntry) == Ok::<Stored, SecretsError>(Stored::Nothing),
        known_of(KeyringAnswer::Unavailable(why)) == Ok::<Stored, SecretsError>(
            Stored::Unreachable,
        ),
        known_of(KeyringAnswer::Refused(why)) == Err::<Stored, SecretsError>(
            SecretsError::KeyringRefused(why),
        ),
{
}

/// A session that was not encrypted opens on every system as it is. One that was opens only
/// where it can be decrypted.
pub proof fn where_a_session_file_opens(stored: StoredSession, has_dpapi: bool)
    ensures
        stored.protection == Protection::Plain ==> stored.opened(has_dpapi) == Opened::Session(
            stored.payload@,
        ),
        stored.protection == Protection::Dpapi && !has_dpapi ==> stored.opened(has_dpapi) is Corrupt,
        stored.protection == Protection::Dpapi && has_dpapi && base64_bytes(stored.payload@) is Err
            ==> stored.opened(has_dpapi) is Corrupt,
        stored.protection == Protection::Dpapi && has_dpapi && base64_bytes(stored.payload@) is Ok
            ==> stored.opened(has_dpapi) == Opened::Encrypted(base64_bytes(stored.payload@)->Ok_0),
{
}

/// Of the files that would not go the first is told of, and likewise of the entries.
pub proof fn the_first_refusal_is_told(
    files: Seq<FileRemoval>,
    i: int,
    replies: Seq<KeyringReply>,
    k: int,
    why: String,
)
    requires
        0 <= i < files.len(),
        files[i].refusal is Some,
        forall|j: int| 0 <= j < i ==> (#[trigger] files[j]).refusal is None,
        0 <= k < replies.len(),
        replies[k] == KeyringReply::Refused(why),
        forall|j: int| 0 <= j < k ==> !((#[trigger] replies[j]) is Refused),
    ensures
        first_file_refusal(files) == Some(files[i]),
        first_keyring_refusal(replies) == Some(why),
    decreases i + k,
{
    if i > 0 {
        let rest = files.drop_first();
        assert(files[0].refusal is None);
        assert forall|j: int| 0 <= j < i - 1 implies (#[trigger] rest[j]).refusal is None by {
            assert(rest[j] == files[j + 1]);
        }
        the_first_refusal_is_told(rest, i - 1, replies, k, why);
        lemma_later_file(files);
    } else if k > 0 {
        let rest = replies.drop_first();
        assert(!(replies[0] is Refused));
        assert forall|j: int| 0 <= j < k - 1 implies !((#[trigger] rest[j]) is Refused) by {
            assert(rest[j] == replies[j + 1]);
        }
        the_first_refusal_is_told(files, i, rest, k - 1, why);
    }
}

} // verus!
