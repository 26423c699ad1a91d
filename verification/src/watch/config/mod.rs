//! The monitor's configuration file.
//!
//! A mistyped key is refused rather than ignored: this file drives something
//! that runs unattended for months. No secrets live here.
use std::time::Duration;
use vstd::prelude::*;
use vstd::string::*;

pub mod document;
pub mod laws;
pub mod settings;
pub mod written;

pub use written::template;

use crate::clock::duration_nanos;
use crate::duration;
use crate::duration::{spelled_seconds, too_long_message, unreadable_message};
use crate::number::{decimal, push_u64};
use crate::paths::{AppPaths, Location, PathError};
use crate::text::{ascii_lower, ascii_lowercase, chars_of, same_text, trimmed};
use document::{document, field, find_field, toml_document, Field, Setting};

verus! {

/// The shape this version writes and understands.
pub const SCHEMA: u32 = 1;

/// What the file says.
#[derive(Debug, Clone, PartialEq, Eq)]
pub struct WatchConfig {
    /// Which shape of this file it is.
    pub schema: u32,
    /// How often to run: `6h`, `2d`, `2w`.
    pub every: Option<Duration>,
    /// Times of day, `09:00`.
    pub at: Vec<String>,
    /// Days of the week, `mon`.
    pub on: Vec<String>,
    /// A five-field cron expression.
    pub cron: Option<String>,
    /// How far a run may be pushed later.
    pub jitter: Option<Duration>,
    pub webhook: Option<WebhookConfig>,
    /// The accounts to watch. Empty means your own.
    pub accounts: Vec<AccountConfig>,
}

/// Where to report to.
#[derive(Debug, Clone, PartialEq, Eq)]
pub struct WebhookConfig {
    pub url: String,
    /// Extra headers. The values here are not secrets.
    pub headers: Vec<Header>,
    pub heartbeat: bool,
}

/// A header and its value.
#[derive(Debug, Clone, PartialEq, Eq)]
pub struct Header {
    pub name: String,
    pub value: String,
}

/// An account to watch.
#[derive(Debug, Clone, PartialEq, Eq)]
pub struct AccountConfig {
    /// The username, or `self` for the account the session belongs to.
    pub target: String,
    /// The recorded answer to "may this walk somebody else's lists?".
    pub consent: Option<ConsentConfig>,
}

/// That somebody answered, and when.
#[derive(Debug, Clone, Copy, PartialEq, Eq, Structural)]
pub struct ConsentConfig {
    /// When it was given, as an epoch in seconds.
    pub agreed_at: i64,
}

impl AccountConfig {
    /// Whether this line names the account the session belongs to, in whichever
    /// case it is written.
    pub fn is_own(&self) -> (r: bool)
        ensures
            r == (ascii_lowercase(self.target@) == "self"@),
    {
        let chars = chars_of(self.target.as_str());
        proof {
            reveal_strlit("self");
            assert("self"@ =~= seq!['s', 'e', 'l', 'f']);
        }
        let lower = ascii_lowercase_of(&chars);
        crate::text::is_text(lower.as_slice(), "self")
    }
}

fn ascii_lowercase_of(chars: &Vec<char>) -> (r: Vec<char>)
    ensures
        r@ == ascii_lowercase(chars@),
{
    let mut r: Vec<char> = Vec::new();
    let mut i: usize = 0;
    while i < chars.len()
        invariant
            i <= chars@.len(),
            r@ == ascii_lowercase(chars@.take(i as int)),
        decreases chars@.len() - i,
    {
        let c = chars[i];
        let lower = if 'A' <= c && c <= 'Z' {
            (c as u8 + 32) as char
        } else {
            c
        };
        r.push(lower);
        assert(lower == ascii_lower(c));
        assert(r@ =~= ascii_lowercase(chars@.take(i + 1)));
        i = i + 1;
    }
    assert(chars@.take(chars@.len() as int) == chars@);
    r
}

/// What can go wrong with the file.
#[derive(Debug, PartialEq, Eq)]
pub enum ConfigError {
    Read { path: String, source: String },
    Write { path: String, source: String },
    Invalid { path: String, message: String },
    Unknown { path: String, found: u32 },
    Paths(PathError),
}

impl ConfigError {
    /// What is said to the user.
    pub open spec fn says(self) -> Seq<char> {
        match self {
            ConfigError::Read { path, source } => "could not read "@ + path@ + ": "@ + source@,
            ConfigError::Write { path, source } => "could not write "@ + path@ + ": "@ + source@,
            ConfigError::Invalid { path, message } => path@ + " could not be read: "@ + message@,
            ConfigError::Unknown { path, found } => path@ + " says it is schema "@ + decimal(
                found as nat,
            ) + ", and this version of snob understands "@ + decimal(SCHEMA as nat)
                + ".\nIt was probably written by a newer snob; update, or move that file aside."@,
            ConfigError::Paths(e) => e.says(),
        }
    }

    pub fn to_string(&self) -> (r: String)
        ensures
            r@ == self.says(),
    {
        match self {
            ConfigError::Read { path, source } => {
                let mut out = "could not read ".to_owned();
                out.append(path.as_str());
                out.append(": ");
                out.append(source.as_str());
                out
            },
            ConfigError::Write { path, source } => {
                let mut out = "could not write ".to_owned();
                out.append(path.as_str());
                out.append(": ");
                out.append(source.as_str());
                out
            },
            ConfigError::Invalid { path, message } => {
                let mut out = path.clone();
                out.append(" could not be read: ");
                out.append(message.as_str());
                out
            },
            ConfigError::Unknown { path, found } => {
                let mut out = path.clone();
                out.append(" says it is schema ");
                push_u64(&mut out, *found as u64);
                out.append(", and this version of snob understands ");
                push_u64(&mut out, SCHEMA as u64);
                out.append(
                    ".\nIt was probably written by a newer snob; update, or move that file aside.",
                );
                out
            },
            ConfigError::Paths(e) => e.to_string(),
        }
    }
}

/// Where the file lives.
pub fn path(paths: &AppPaths) -> (r: Location)
    ensures
        r@ == paths.config_place().inside("watch.toml"@),
{
    paths.config_dir().join("watch.toml")
}

/// What is said of a value of the wrong kind.
pub open spec fn wrong_kind(name: Seq<char>, value: Setting, wanted: Seq<char>) -> Seq<char> {
    "invalid type for `"@ + name + "`: "@ + value.kind() + ", expected "@ + wanted
}

fn say_wrong_kind(name: &str, value: &Setting, wanted: &str) -> (r: String)
    ensures
        r@ == wrong_kind(name@, *value, wanted@),
{
    let mut out = "invalid type for `".to_owned();
    out.append(name);
    out.append("`: ");
    out.append(value.kind_name());
    out.append(", expected ");
    out.append(wanted);
    out
}

/// What is said of a key that is not a key.
pub open spec fn unknown_field(name: Seq<char>, known: Seq<char>) -> Seq<char> {
    "unknown field `"@ + name + "`, expected "@ + known
}

fn say_unknown_field(name: &str, known: &str) -> (r: String)
    ensures
        r@ == unknown_field(name@, known@),
{
    let mut out = "unknown field `".to_owned();
    out.append(name);
    out.append("`, expected ");
    out.append(known);
    out
}

/// What is wrong with a value that has to be a text.
pub open spec fn text_complaint(name: Seq<char>, value: Setting) -> Option<Seq<char>> {
    match value {
        Setting::Text(_) => None,
        _ => Some(wrong_kind(name, value, "a string"@)),
    }
}

/// What is wrong with a value that has to be a duration.
pub open spec fn duration_complaint(name: Seq<char>, value: Setting) -> Option<Seq<char>> {
    match value {
        Setting::Text(text) => match spelled_seconds(trimmed(text@)) {
            Some(seconds) => if seconds <= u64::MAX {
                None
            } else {
                Some(too_long_message(trimmed(text@)))
            },
            None => Some(unreadable_message(trimmed(text@))),
        },
        _ => Some(wrong_kind(name, value, "a string"@)),
    }
}

/// What is wrong with the first of some values that have to be texts.
pub open spec fn first_text_complaint(name: Seq<char>, list: Seq<Setting>) -> Option<Seq<char>>
    decreases list.len(),
{
    if list.len() == 0 {
        None
    } else if text_complaint(name, list.first()) is Some {
        text_complaint(name, list.first())
    } else {
        first_text_complaint(name, list.drop_first())
    }
}

/// What is wrong with a value that has to be a list of texts.
pub open spec fn texts_complaint(name: Seq<char>, value: Setting) -> Option<Seq<char>> {
    match value {
        Setting::List(list) => first_text_complaint(name, list@),
        _ => Some(wrong_kind(name, value, "a sequence"@)),
    }
}

/// What is wrong with a value that has to name the shape of the file.
pub open spec fn schema_complaint(value: Setting) -> Option<Seq<char>> {
    match value {
        Setting::Number(n) => if 0 <= n <= u32::MAX {
            None
        } else {
            Some("invalid value for `schema`, expected u32"@)
        },
        _ => Some(wrong_kind("schema"@, value, "u32"@)),
    }
}

/// What is wrong with a value that has to be headers.
pub open spec fn headers_complaint(value: Setting) -> Option<Seq<char>> {
    match value {
        Setting::Table(headers) => first_header_complaint(headers@),
        _ => Some(wrong_kind("headers"@, value, "a map"@)),
    }
}

/// What is wrong with a value that has to say whether there is a heartbeat.
pub open spec fn heartbeat_complaint(value: Setting) -> Option<Seq<char>> {
    match value {
        Setting::Flag(_) => None,
        _ => Some(wrong_kind("heartbeat"@, value, "a boolean"@)),
    }
}

/// What is wrong with a field of a webhook.
pub open spec fn webhook_field_complaint(f: Field) -> Option<Seq<char>> {
    if f.name@ == "url"@ {
        text_complaint("url"@, f.value)
    } else if f.name@ == "headers"@ {
        headers_complaint(f.value)
    } else if f.name@ == "heartbeat"@ {
        heartbeat_complaint(f.value)
    } else {
        Some(unknown_field(f.name@, "one of `url`, `headers`, `heartbeat`"@))
    }
}

/// What is wrong with the first header whose value is no text.
pub open spec fn first_header_complaint(headers: Seq<Field>) -> Option<Seq<char>>
    decreases headers.len(),
{
    if headers.len() == 0 {
        None
    } else if text_complaint(headers.first().name@, headers.first().value) is Some {
        text_complaint(headers.first().name@, headers.first().value)
    } else {
        first_header_complaint(headers.drop_first())
    }
}

/// What is wrong with the first field of a webhook that has something wrong with
/// it, or that a field is missing.
pub open spec fn webhook_fields_complaint(rest: Seq<Field>, all: Seq<Field>) -> Option<Seq<char>>
    decreases rest.len(),
{
    if rest.len() == 0 {
        if field(all, "url"@) is None {
            Some("missing field `url`"@)
        } else {
            None
        }
    } else if webhook_field_complaint(rest.first()) is Some {
        webhook_field_complaint(rest.first())
    } else {
        webhook_fields_complaint(rest.drop_first(), all)
    }
}

/// What is wrong with the values of a webhook listed in the order of its fields. What
/// is listed behind them is not looked at.
pub open spec fn webhook_list_complaint(list: Seq<Setting>) -> Option<Seq<char>> {
    if list.len() == 0 {
        Some("invalid length 0, expected struct WebhookConfig with 3 elements"@)
    } else if text_complaint("url"@, list[0]) is Some {
        text_complaint("url"@, list[0])
    } else if list.len() > 1 && headers_complaint(list[1]) is Some {
        headers_complaint(list[1])
    } else if list.len() > 2 {
        heartbeat_complaint(list[2])
    } else {
        None
    }
}

/// What is wrong with a webhook.
pub open spec fn webhook_complaint(value: Setting) -> Option<Seq<char>> {
    match value {
        Setting::Table(fields) => webhook_fields_complaint(fields@, fields@),
        Setting::List(list) => webhook_list_complaint(list@),
        _ => Some(wrong_kind("webhook"@, value, "struct WebhookConfig"@)),
    }
}

/// What is wrong with a value that has to be when a consent was given.
pub open spec fn agreed_at_complaint(value: Setting) -> Option<Seq<char>> {
    match value {
        Setting::Number(_) => None,
        _ => Some(wrong_kind("agreed_at"@, value, "i64"@)),
    }
}

/// What is wrong with a field of a consent.
pub open spec fn consent_field_complaint(f: Field) -> Option<Seq<char>> {
    if f.name@ == "agreed_at"@ {
        agreed_at_complaint(f.value)
    } else {
        Some(unknown_field(f.name@, "`agreed_at`"@))
    }
}

pub open spec fn consent_fields_complaint(rest: Seq<Field>, all: Seq<Field>) -> Option<Seq<char>>
    decreases rest.len(),
{
    if rest.len() == 0 {
        if field(all, "agreed_at"@) is None {
            Some("missing field `agreed_at`"@)
        } else {
            None
        }
    } else if consent_field_complaint(rest.first()) is Some {
        consent_field_complaint(rest.first())
    } else {
        consent_fields_complaint(rest.drop_first(), all)
    }
}

/// What is wrong with a consent listed in the order of its fields.
pub open spec fn consent_list_complaint(list: Seq<Setting>) -> Option<Seq<char>> {
    if list.len() == 0 {
        Some("invalid length 0, expected struct ConsentConfig with 1 element"@)
    } else {
        agreed_at_complaint(list[0])
    }
}

/// What is wrong with a consent.
pub open spec fn consent_complaint(value: Setting) -> Option<Seq<char>> {
    match value {
        Setting::Table(fields) => consent_fields_complaint(fields@, fields@),
        Setting::List(list) => consent_list_complaint(list@),
        _ => Some(wrong_kind("consent"@, value, "struct ConsentConfig"@)),
    }
}

/// What is wrong with a field of an account.
pub open spec fn account_field_complaint(f: Field) -> Option<Seq<char>> {
    if f.name@ == "target"@ {
        text_complaint("target"@, f.value)
    } else if f.name@ == "consent"@ {
        consent_complaint(f.value)
    } else {
        Some(unknown_field(f.name@, "`target` or `consent`"@))
    }
}

pub open spec fn account_fields_complaint(rest: Seq<Field>, all: Seq<Field>) -> Option<Seq<char>>
    decreases rest.len(),
{
    if rest.len() == 0 {
        if field(all, "target"@) is None {
            Some("missing field `target`"@)
        } else {
            None
        }
    } else if account_field_complaint(rest.first()) is Some {
        account_field_complaint(rest.first())
    } else {
        account_fields_complaint(rest.drop_first(), all)
    }
}

/// What is wrong with an account listed in the order of its fields.
pub open spec fn account_list_complaint(list: Seq<Setting>) -> Option<Seq<char>> {
    if list.len() == 0 {
        Some("invalid length 0, expected struct AccountConfig with 2 elements"@)
    } else if text_complaint("target"@, list[0]) is Some {
        text_complaint("target"@, list[0])
    } else if list.len() > 1 {
        consent_complaint(list[1])
    } else {
        None
    }
}

/// What is wrong with an account.
pub open spec fn account_complaint(value: Setting) -> Option<Seq<char>> {
    match value {
        Setting::Table(fields) => account_fields_complaint(fields@, fields@),
        Setting::List(list) => account_list_complaint(list@),
        _ => Some(wrong_kind("account"@, value, "struct AccountConfig"@)),
    }
}

/// What is wrong with the first account that has something wrong with it.
pub open spec fn first_account_complaint(list: Seq<Setting>) -> Option<Seq<char>>
    decreases list.len(),
{
    if list.len() == 0 {
        None
    } else if account_complaint(list.first()) is Some {
        account_complaint(list.first())
    } else {
        first_account_complaint(list.drop_first())
    }
}

/// What is wrong with a field of the file.
pub open spec fn field_complaint(f: Field) -> Option<Seq<char>> {
    if f.name@ == "schema"@ {
        schema_complaint(f.value)
    } else if f.name@ == "every"@ {
        duration_complaint("every"@, f.value)
    } else if f.name@ == "at"@ {
        texts_complaint("at"@, f.value)
    } else if f.name@ == "on"@ {
        texts_complaint("on"@, f.value)
    } else if f.name@ == "cron"@ {
        text_complaint("cron"@, f.value)
    } else if f.name@ == "jitter"@ {
        duration_complaint("jitter"@, f.value)
    } else if f.name@ == "webhook"@ {
        webhook_complaint(f.value)
    } else if f.name@ == "account"@ {
        match f.value {
            Setting::List(list) => first_account_complaint(list@),
            _ => Some(wrong_kind("account"@, f.value, "a sequence"@)),
        }
    } else {
        Some(
            unknown_field(
                f.name@,
                "one of `schema`, `every`, `at`, `on`, `cron`, `jitter`, `webhook`, `account`"@,
            ),
        )
    }
}

/// What is wrong with the first field of the file that has something wrong with
/// it.
pub open spec fn fields_complaint(fields: Seq<Field>) -> Option<Seq<char>>
    decreases fields.len(),
{
    if fields.len() == 0 {
        None
    } else if field_complaint(fields.first()) is Some {
        field_complaint(fields.first())
    } else {
        fields_complaint(fields.drop_first())
    }
}

/// What is wrong with a document.
pub open spec fn complaint(value: Setting) -> Option<Seq<char>> {
    match value {
        Setting::Table(fields) => fields_complaint(fields@),
        _ => Some(wrong_kind("the file"@, value, "struct WatchConfig"@)),
    }
}

/// The text in an optional message.
pub open spec fn said(message: Option<String>) -> Option<Seq<char>> {
    match message {
        Some(message) => Some(message@),
        None => None,
    }
}

fn check_text(name: &str, value: &Setting) -> (r: Option<String>)
    ensures
        said(r) == text_complaint(name@, *value),
{
    match value {
        Setting::Text(_) => None,
        _ => Some(say_wrong_kind(name, value, "a string")),
    }
}

fn check_duration(name: &str, value: &Setting) -> (r: Option<String>)
    ensures
        said(r) == duration_complaint(name@, *value),
{
    match value {
        Setting::Text(text) => match duration::parse(text.as_str()) {
            Ok(_) => None,
            Err(message) => Some(message),
        },
        _ => Some(say_wrong_kind(name, value, "a string")),
    }
}

#[verifier::loop_isolation(false)]
fn check_texts(name: &str, value: &Setting) -> (r: Option<String>)
    ensures
        said(r) == texts_complaint(name@, *value),
{
    match value {
        Setting::List(list) => {
            let mut i: usize = 0;
            assert(list@.skip(0) == list@);
            while i < list.len()
                invariant
                    i <= list@.len(),
                    first_text_complaint(name@, list@) == first_text_complaint(
                        name@,
                        list@.skip(i as int),
                    ),
                decreases list@.len() - i,
            {
                assert(list@.skip(i as int).drop_first() == list@.skip(i + 1));
                let r = check_text(name, &list[i]);
                if r.is_some() {
                    return r;
                }
                i = i + 1;
            }
            None
        },
        _ => Some(say_wrong_kind(name, value, "a sequence")),
    }
}

fn check_schema(value: &Setting) -> (r: Option<String>)
    ensures
        said(r) == schema_complaint(*value),
{
    match value {
        Setting::Number(n) => {
            if 0 <= *n && *n <= u32::MAX as i64 {
                None
            } else {
                Some("invalid value for `schema`, expected u32".to_owned())
            }
        },
        _ => Some(say_wrong_kind("schema", value, "u32")),
    }
}

#[verifier::loop_isolation(false)]
fn check_headers(value: &Setting) -> (r: Option<String>)
    ensures
        said(r) == headers_complaint(*value),
{
    match value {
        Setting::Table(headers) => {
            let mut i: usize = 0;
            assert(headers@.skip(0) == headers@);
            while i < headers.len()
                invariant
                    i <= headers@.len(),
                    first_header_complaint(headers@) == first_header_complaint(
                        headers@.skip(i as int),
                    ),
                decreases headers@.len() - i,
            {
                assert(headers@.skip(i as int).drop_first() == headers@.skip(i + 1));
                let r = check_text(headers[i].name.as_str(), &headers[i].value);
                if r.is_some() {
                    return r;
                }
                i = i + 1;
            }
            None
        },
        _ => Some(say_wrong_kind("headers", value, "a map")),
    }
}

fn check_heartbeat(value: &Setting) -> (r: Option<String>)
    ensures
        said(r) == heartbeat_complaint(*value),
{
    match value {
        Setting::Flag(_) => None,
        _ => Some(say_wrong_kind("heartbeat", value, "a boolean")),
    }
}

fn check_webhook_field(f: &Field) -> (r: Option<String>)
    ensures
        said(r) == webhook_field_complaint(*f),
{
    if same_text(f.name.as_str(), "url") {
        check_text("url", &f.value)
    } else if same_text(f.name.as_str(), "headers") {
        check_headers(&f.value)
    } else if same_text(f.name.as_str(), "heartbeat") {
        check_heartbeat(&f.value)
    } else {
        Some(say_unknown_field(f.name.as_str(), "one of `url`, `headers`, `heartbeat`"))
    }
}

fn check_webhook_list(list: &Vec<Setting>) -> (r: Option<String>)
    ensures
        said(r) == webhook_list_complaint(list@),
{
    if list.len() == 0 {
        return Some("invalid length 0, expected struct WebhookConfig with 3 elements".to_owned());
    }
    let url = check_text("url", &list[0]);
    if url.is_some() {
        return url;
    }
    if list.len() > 1 {
        let headers = check_headers(&list[1]);
        if headers.is_some() {
            return headers;
        }
    }
    if list.len() > 2 {
        check_heartbeat(&list[2])
    } else {
        None
    }
}

#[verifier::loop_isolation(false)]
fn check_webhook(value: &Setting) -> (r: Option<String>)
    ensures
        said(r) == webhook_complaint(*value),
{
    match value {
        Setting::Table(fields) => {
            let mut i: usize = 0;
            assert(fields@.skip(0) == fields@);
            while i < fields.len()
                invariant
                    i <= fields@.len(),
                    webhook_fields_complaint(fields@, fields@) == webhook_fields_complaint(
                        fields@.skip(i as int),
                        fields@,
                    ),
                decreases fields@.len() - i,
            {
                assert(fields@.skip(i as int).drop_first() == fields@.skip(i + 1));
                let r = check_webhook_field(&fields[i]);
                if r.is_some() {
                    return r;
                }
                i = i + 1;
            }
            match find_field(fields, "url") {
                Some(_) => None,
                None => Some("missing field `url`".to_owned()),
            }
        },
        Setting::List(list) => check_webhook_list(list),
        _ => Some(say_wrong_kind("webhook", value, "struct WebhookConfig")),
    }
}

fn check_agreed_at(value: &Setting) -> (r: Option<String>)
    ensures
        said(r) == agreed_at_complaint(*value),
{
    match value {
        Setting::Number(_) => None,
        _ => Some(say_wrong_kind("agreed_at", value, "i64")),
    }
}

fn check_consent_field(f: &Field) -> (r: Option<String>)
    ensures
        said(r) == consent_field_complaint(*f),
{
    if same_text(f.name.as_str(), "agreed_at") {
        check_agreed_at(&f.value)
    } else {
        Some(say_unknown_field(f.name.as_str(), "`agreed_at`"))
    }
}

#[verifier::loop_isolation(false)]
fn check_consent(value: &Setting) -> (r: Option<String>)
    ensures
        said(r) == consent_complaint(*value),
{
    match value {
        Setting::Table(fields) => {
            let mut i: usize = 0;
            assert(fields@.skip(0) == fields@);
            while i < fields.len()
                invariant
                    i <= fields@.len(),
                    consent_fields_complaint(fields@, fields@) == consent_fields_complaint(
                        fields@.skip(i as int),
                        fields@,
                    ),
                decreases fields@.len() - i,
            {
                assert(fields@.skip(i as int).drop_first() == fields@.skip(i + 1));
                let r = check_consent_field(&fields[i]);
                if r.is_some() {
                    return r;
                }
                i = i + 1;
            }
            match find_field(fields, "agreed_at") {
                Some(_) => None,
                None => Some("missing field `agreed_at`".to_owned()),
            }
        },
        Setting::List(list) => {
            if list.len() == 0 {
                Some("invalid length 0, expected struct ConsentConfig with 1 element".to_owned())
            } else {
                check_agreed_at(&list[0])
            }
        },
        _ => Some(say_wrong_kind("consent", value, "struct ConsentConfig")),
    }
}

fn check_account_field(f: &Field) -> (r: Option<String>)
    ensures
        said(r) == account_field_complaint(*f),
{
    if same_text(f.name.as_str(), "target") {
        check_text("target", &f.value)
    } else if same_text(f.name.as_str(), "consent") {
        check_consent(&f.value)
    } else {
        Some(say_unknown_field(f.name.as_str(), "`target` or `consent`"))
    }
}

fn check_account_list(list: &Vec<Setting>) -> (r: Option<String>)
    ensures
        said(r) == account_list_complaint(list@),
{
    if list.len() == 0 {
        return Some("invalid length 0, expected struct AccountConfig with 2 elements".to_owned());
    }
    let target = check_text("target", &list[0]);
    if target.is_some() {
        return target;
    }
    if list.len() > 1 {
        check_consent(&list[1])
    } else {
        None
    }
}

#[verifier::loop_isolation(false)]
fn check_account(value: &Setting) -> (r: Option<String>)
    ensures
        said(r) == account_complaint(*value),
{
    match value {
        Setting::Table(fields) => {
            let mut i: usize = 0;
            assert(fields@.skip(0) == fields@);
            while i < fields.len()
                invariant
                    i <= fields@.len(),
                    account_fields_complaint(fields@, fields@) == account_fields_complaint(
                        fields@.skip(i as int),
                        fields@,
                    ),
                decreases fields@.len() - i,
            {
                assert(fields@.skip(i as int).drop_first() == fields@.skip(i + 1));
                let r = check_account_field(&fields[i]);
                if r.is_some() {
                    return r;
                }
                i = i + 1;
            }
            match find_field(fields, "target") {
                Some(_) => None,
                None => Some("missing field `target`".to_owned()),
            }
        },
        Setting::List(list) => check_account_list(list),
        _ => Some(say_wrong_kind("account", value, "struct AccountConfig")),
    }
}

fn check_accounts(list: &Vec<Setting>) -> (r: Option<String>)
    ensures
        said(r) == first_account_complaint(list@),
{
    let mut i: usize = 0;
    assert(list@.skip(0) == list@);
    while i < list.len()
        invariant
            i <= list@.len(),
            first_account_complaint(list@) == first_account_complaint(list@.skip(i as int)),
        decreases list@.len() - i,
    {
        assert(list@.skip(i as int).drop_first() == list@.skip(i + 1));
        let r = check_account(&list[i]);
        if r.is_some() {
            return r;
        }
        i = i + 1;
    }
    None
}

fn check_field(f: &Field) -> (r: Option<String>)
    ensures
        said(r) == field_complaint(*f),
{
    if same_text(f.name.as_str(), "schema") {
        check_schema(&f.value)
    } else if same_text(f.name.as_str(), "every") {
        check_duration("every", &f.value)
    } else if same_text(f.name.as_str(), "at") {
        check_texts("at", &f.value)
    } else if same_text(f.name.as_str(), "on") {
        check_texts("on", &f.value)
    } else if same_text(f.name.as_str(), "cron") {
        check_text("cron", &f.value)
    } else if same_text(f.name.as_str(), "jitter") {
        check_duration("jitter", &f.value)
    } else if same_text(f.name.as_str(), "webhook") {
        check_webhook(&f.value)
    } else if same_text(f.name.as_str(), "account") {
        match &f.value {
            Setting::List(list) => check_accounts(list),
            _ => Some(say_wrong_kind("account", &f.value, "a sequence")),
        }
    } else {
        Some(
            say_unknown_field(
                f.name.as_str(),
                "one of `schema`, `every`, `at`, `on`, `cron`, `jitter`, `webhook`, `account`",
            ),
        )
    }
}

#[verifier::loop_isolation(false)]
fn check(value: &Setting) -> (r: Option<String>)
    ensures
        said(r) == complaint(*value),
{
    match value {
        Setting::Table(fields) => {
            let mut i: usize = 0;
            assert(fields@.skip(0) == fields@);
            while i < fields.len()
                invariant
                    i <= fields@.len(),
                    fields_complaint(fields@) == fields_complaint(fields@.skip(i as int)),
                decreases fields@.len() - i,
            {
                assert(fields@.skip(i as int).drop_first() == fields@.skip(i + 1));
                let r = check_field(&fields[i]);
                if r.is_some() {
                    return r;
                }
                i = i + 1;
            }
            None
        },
        _ => Some(say_wrong_kind("the file", value, "struct WatchConfig")),
    }
}

/// Whether a text is what an optional setting says.
pub open spec fn is_text_of(text: Option<String>, value: Option<Setting>) -> bool {
    match value {
        Some(value) => value matches Setting::Text(t) && text == Some(t),
        None => text is None,
    }
}

/// Whether a duration is what an optional setting spells.
pub open spec fn is_duration_of(length: Option<Duration>, value: Option<Setting>) -> bool {
    match value {
        Some(value) => {
            &&& value matches Setting::Text(t)
            &&& length is Some
            &&& spelled_seconds(trimmed(t@)) is Some
            &&& duration_nanos(length->0) == spelled_seconds(trimmed(t@))->0 * 1_000_000_000
        },
        None => length is None,
    }
}

/// Whether some texts are what an optional setting lists.
pub open spec fn are_texts_of(texts: Seq<String>, value: Option<Setting>) -> bool {
    match value {
        Some(value) => {
            &&& value matches Setting::List(list)
            &&& list@.len() == texts.len()
            &&& forall|i: int|
                0 <= i < texts.len() ==> #[trigger] list@[i] == Setting::Text(texts[i])
        },
        None => texts.len() == 0,
    }
}

/// Whether headers are what an optional setting tells.
pub open spec fn are_headers_of(headers: Seq<Header>, value: Option<Setting>) -> bool {
    match value {
        Some(value) => {
            &&& value matches Setting::Table(fields)
            &&& fields@.len() == headers.len()
            &&& forall|i: int|
                0 <= i < headers.len() ==> (#[trigger] fields@[i]).name == headers[i].name
                    && fields@[i].value == Setting::Text(headers[i].value)
        },
        None => headers.len() == 0,
    }
}

/// A part of a value: that under a name in a table, and that in a place in a list.
pub open spec fn part(value: Setting, name: Seq<char>, place: int) -> Option<Setting> {
    match value {
        Setting::Table(fields) => field(fields@, name),
        Setting::List(list) => if place < list@.len() {
            Some(list@[place])
        } else {
            None
        },
        _ => None,
    }
}

fn find_part<'a>(value: &'a Setting, name: &str, place: usize) -> (r: Option<&'a Setting>)
    ensures
        match r {
            Some(found) => part(*value, name@, place as int) == Some(*found),
            None => part(*value, name@, place as int) is None,
        },
{
    match value {
        Setting::Table(fields) => find_field(fields, name),
        Setting::List(list) => {
            if place < list.len() {
                Some(&list[place])
            } else {
                None
            }
        },
        _ => None,
    }
}

/// Whether a webhook is what a setting tells: a table of its fields, or a list of
/// their values in order.
pub open spec fn is_webhook_of(webhook: WebhookConfig, value: Setting) -> bool {
    &&& is_text_of(Some(webhook.url), part(value, "url"@, 0))
    &&& are_headers_of(webhook.headers@, part(value, "headers"@, 1))
    &&& webhook.heartbeat == match part(value, "heartbeat"@, 2) {
        Some(Setting::Flag(flag)) => flag,
        _ => false,
    }
}

/// Whether an account is what a setting tells: a table of its fields, or a list of
/// their values in order, and its consent likewise.
pub open spec fn is_account_of(account: AccountConfig, value: Setting) -> bool {
    &&& is_text_of(Some(account.target), part(value, "target"@, 0))
    &&& match part(value, "consent"@, 1) {
        Some(consent) => {
            &&& account.consent is Some
            &&& part(consent, "agreed_at"@, 0) == Some(
                Setting::Number(account.consent->0.agreed_at),
            )
        },
        None => account.consent is None,
    }
}

/// Which shape of the file a document says it is.
pub open spec fn schema_in(value: Setting) -> int {
    match value {
        Setting::Table(fields) => match field(fields@, "schema"@) {
            Some(Setting::Number(n)) => n as int,
            _ => 1,
        },
        _ => 1,
    }
}

/// Whether a configuration is what a document tells: each setting where it is
/// there, and what stands for it where it is not.
pub open spec fn is_config_of(config: WatchConfig, value: Setting) -> bool {
    &&& value matches Setting::Table(fields)
    &&& config.schema == schema_in(value)
    &&& is_duration_of(config.every, field(fields@, "every"@))
    &&& are_texts_of(config.at@, field(fields@, "at"@))
    &&& are_texts_of(config.on@, field(fields@, "on"@))
    &&& is_text_of(config.cron, field(fields@, "cron"@))
    &&& is_duration_of(config.jitter, field(fields@, "jitter"@))
    &&& match field(fields@, "webhook"@) {
        Some(webhook) => config.webhook is Some && is_webhook_of(config.webhook->0, webhook),
        None => config.webhook is None,
    }
    &&& match field(fields@, "account"@) {
        Some(accounts) => {
            &&& accounts matches Setting::List(list)
            &&& list@.len() == config.accounts@.len()
            &&& forall|i: int|
                0 <= i < list@.len() ==> is_account_of(#[trigger] config.accounts@[i], list@[i])
        },
        None => config.accounts@.len() == 0,
    }
}

proof fn lemma_field_is_fine(fields: Seq<Field>, name: Seq<char>)
    requires
        fields_complaint(fields) is None,
        field(fields, name) is Some,
    ensures
        exists|f: Field|
            f.name@ == name && f.value == field(fields, name)->0 && #[trigger] field_complaint(f) is None,
    decreases fields.len(),
{
    if fields.first().name@ == name {
        assert(field_complaint(fields.first()) is None);
    } else {
        lemma_field_is_fine(fields.drop_first(), name);
    }
}

proof fn lemma_names()
    ensures
        "schema"@ != "every"@,
        "schema"@ != "at"@,
        "schema"@ != "on"@,
        "schema"@ != "cron"@,
        "schema"@ != "jitter"@,
        "schema"@ != "webhook"@,
        "schema"@ != "account"@,
        "every"@ != "at"@,
        "every"@ != "on"@,
        "every"@ != "cron"@,
        "every"@ != "jitter"@,
        "every"@ != "webhook"@,
        "every"@ != "account"@,
        "at"@ != "on"@,
        "at"@ != "cron"@,
        "at"@ != "jitter"@,
        "at"@ != "webhook"@,
        "at"@ != "account"@,
        "on"@ != "cron"@,
        "on"@ != "jitter"@,
        "on"@ != "webhook"@,
        "on"@ != "account"@,
        "cron"@ != "jitter"@,
        "cron"@ != "webhook"@,
        "cron"@ != "account"@,
        "jitter"@ != "webhook"@,
        "jitter"@ != "account"@,
        "webhook"@ != "account"@,
        "url"@ != "headers"@,
        "url"@ != "heartbeat"@,
        "headers"@ != "heartbeat"@,
        "target"@ != "consent"@,
{
    reveal_strlit("schema");
    reveal_strlit("every");
    reveal_strlit("at");
    reveal_strlit("on");
    reveal_strlit("cron");
    reveal_strlit("jitter");
    reveal_strlit("webhook");
    reveal_strlit("account");
    reveal_strlit("url");
    reveal_strlit("headers");
    reveal_strlit("heartbeat");
    reveal_strlit("target");
    reveal_strlit("consent");
    assert("schema"@[0] == 's');
    assert("every"@[0] == 'e');
    assert("at"@[0] == 'a' && "at"@.len() == 2);
    assert("on"@[0] == 'o');
    assert("cron"@[0] == 'c');
    assert("jitter"@[0] == 'j');
    assert("webhook"@[0] == 'w');
    assert("account"@[0] == 'a' && "account"@.len() == 7);
    assert("url"@[0] == 'u');
    assert("headers"@.len() == 7 && "headers"@[0] == 'h');
    assert("heartbeat"@.len() == 9 && "heartbeat"@[0] == 'h');
    assert("target"@[0] == 't');
    assert("consent"@[0] == 'c');
}

fn text_in_it(value: Option<&Setting>) -> (r: Option<String>)
    requires
        value matches Some(value) ==> *value is Text,
    ensures
        match value {
            Some(value) => is_text_of(r, Some(*value)),
            None => r is None,
        },
{
    match value {
        Some(Setting::Text(text)) => Some(text.clone()),
        _ => None,
    }
}

fn read_text(fields: &Vec<Field>, name: &str) -> (r: Option<String>)
    requires
        field(fields@, name@) matches Some(value) ==> value is Text,
    ensures
        is_text_of(r, field(fields@, name@)),
{
    text_in_it(find_field(fields, name))
}

fn read_duration(fields: &Vec<Field>, name: &str) -> (r: Option<Duration>)
    requires
        field(fields@, name@) matches Some(value) ==> duration_complaint(name@, value) is None,
    ensures
        is_duration_of(r, field(fields@, name@)),
{
    match find_field(fields, name) {
        Some(Setting::Text(text)) => match duration::parse(text.as_str()) {
            Ok(length) => Some(length),
            Err(_) => None,
        },
        _ => None,
    }
}

proof fn lemma_texts_are_fine(name: Seq<char>, list: Seq<Setting>, i: int)
    requires
        first_text_complaint(name, list) is None,
        0 <= i < list.len(),
    ensures
        list[i] is Text,
    decreases list.len(),
{
    if i > 0 {
        lemma_texts_are_fine(name, list.drop_first(), i - 1);
    }
}

#[verifier::loop_isolation(false)]
fn read_texts(fields: &Vec<Field>, name: &str) -> (r: Vec<String>)
    requires
        field(fields@, name@) matches Some(value) ==> texts_complaint(name@, value) is None,
    ensures
        are_texts_of(r@, field(fields@, name@)),
{
    let mut r: Vec<String> = Vec::new();
    if let Some(Setting::List(list)) = find_field(fields, name) {
        let mut i: usize = 0;
        while i < list.len()
            invariant
                i <= list@.len(),
                r@.len() == i,
                forall|j: int| 0 <= j < i ==> #[trigger] list@[j] == Setting::Text(r@[j]),
            decreases list@.len() - i,
        {
            proof {
                lemma_texts_are_fine(name@, list@, i as int);
            }
            if let Setting::Text(text) = &list[i] {
                r.push(text.clone());
            }
            i = i + 1;
        }
    }
    r
}

proof fn lemma_webhook_field_is_fine(rest: Seq<Field>, all: Seq<Field>, name: Seq<char>)
    requires
        webhook_fields_complaint(rest, all) is None,
    ensures
        field(all, "url"@) is Some,
        field(rest, name) is Some ==> exists|f: Field|
            f.name@ == name && f.value == field(rest, name)->0
                && #[trigger] webhook_field_complaint(f) is None,
    decreases rest.len(),
{
    if rest.len() > 0 {
        lemma_webhook_field_is_fine(rest.drop_first(), all, name);
        if rest.first().name@ == name {
            assert(webhook_field_complaint(rest.first()) is None);
        }
    }
}

proof fn lemma_header_is_fine(headers: Seq<Field>, i: int)
    requires
        first_header_complaint(headers) is None,
        0 <= i < headers.len(),
    ensures
        headers[i].value is Text,
    decreases headers.len(),
{
    if i > 0 {
        lemma_header_is_fine(headers.drop_first(), i - 1);
    }
}

#[verifier::loop_isolation(false)]
fn read_headers(headers: &Vec<Field>) -> (r: Vec<Header>)
    requires
        first_header_complaint(headers@) is None,
    ensures
        are_headers_of(r@, Some(Setting::Table(*headers))),
{
    let mut r: Vec<Header> = Vec::new();
    let mut i: usize = 0;
    while i < headers.len()
        invariant
            i <= headers@.len(),
            r@.len() == i,
            forall|j: int|
                0 <= j < i ==> (#[trigger] headers@[j]).name == r@[j].name && headers@[j].value
                    == Setting::Text(r@[j].value),
        decreases headers@.len() - i,
    {
        proof {
            lemma_header_is_fine(headers@, i as int);
        }
        if let Setting::Text(text) = &headers[i].value {
            r.push(Header { name: headers[i].name.clone(), value: text.clone() });
        }
        i = i + 1;
    }
    r
}

/// The parts of a webhook with nothing wrong with it are of the right kinds.
proof fn lemma_webhook_parts(value: Setting)
    requires
        webhook_complaint(value) is None,
    ensures
        part(value, "url"@, 0) matches Some(url) && url is Text,
        part(value, "headers"@, 1) matches Some(headers) ==> headers_complaint(headers) is None,
        part(value, "heartbeat"@, 2) matches Some(flag) ==> flag is Flag,
{
    lemma_names();
    if let Setting::Table(fields) = value {
        lemma_webhook_field_is_fine(fields@, fields@, "url"@);
        lemma_webhook_field_is_fine(fields@, fields@, "headers"@);
        lemma_webhook_field_is_fine(fields@, fields@, "heartbeat"@);
    }
}

fn read_webhook(value: &Setting) -> (r: WebhookConfig)
    requires
        webhook_complaint(*value) is None,
    ensures
        is_webhook_of(r, *value),
{
    proof {
        lemma_webhook_parts(*value);
    }
    let url = match text_in_it(find_part(value, "url", 0)) {
        Some(url) => url,
        None => String::new(),
    };
    let headers: Vec<Header> = match find_part(value, "headers", 1) {
        Some(Setting::Table(headers)) => read_headers(headers),
        _ => Vec::new(),
    };
    let heartbeat = match find_part(value, "heartbeat", 2) {
        Some(Setting::Flag(flag)) => *flag,
        _ => false,
    };
    WebhookConfig { url, headers, heartbeat }
}

proof fn lemma_consent_field_is_fine(rest: Seq<Field>, all: Seq<Field>)
    requires
        consent_fields_complaint(rest, all) is None,
    ensures
        field(all, "agreed_at"@) is Some,
        field(rest, "agreed_at"@) matches Some(value) ==> value is Number,
    decreases rest.len(),
{
    if rest.len() > 0 {
        lemma_consent_field_is_fine(rest.drop_first(), all);
        assert(consent_field_complaint(rest.first()) is None);
    }
}

proof fn lemma_account_field_is_fine(rest: Seq<Field>, all: Seq<Field>, name: Seq<char>)
    requires
        account_fields_complaint(rest, all) is None,
    ensures
        field(all, "target"@) is Some,
        field(rest, name) is Some ==> exists|f: Field|
            f.name@ == name && f.value == field(rest, name)->0
                && #[trigger] account_field_complaint(f) is None,
    decreases rest.len(),
{
    if rest.len() > 0 {
        lemma_account_field_is_fine(rest.drop_first(), all, name);
        if rest.first().name@ == name {
            assert(account_field_complaint(rest.first()) is None);
        }
    }
}

/// The parts of an account with nothing wrong with it are of the right kinds.
proof fn lemma_account_parts(value: Setting)
    requires
        account_complaint(value) is None,
    ensures
        part(value, "target"@, 0) matches Some(target) && target is Text,
        part(value, "consent"@, 1) matches Some(consent) ==> consent_complaint(consent) is None,
{
    lemma_names();
    if let Setting::Table(fields) = value {
        lemma_account_field_is_fine(fields@, fields@, "target"@);
        lemma_account_field_is_fine(fields@, fields@, "consent"@);
    }
}

fn read_consent(value: &Setting) -> (r: ConsentConfig)
    requires
        consent_complaint(*value) is None,
    ensures
        part(*value, "agreed_at"@, 0) == Some(Setting::Number(r.agreed_at)),
{
    proof {
        if let Setting::Table(fields) = value {
            lemma_consent_field_is_fine(fields@, fields@);
        }
    }
    match find_part(value, "agreed_at", 0) {
        Some(Setting::Number(at)) => ConsentConfig { agreed_at: *at },
        _ => ConsentConfig { agreed_at: 0 },
    }
}

fn read_account(value: &Setting) -> (r: AccountConfig)
    requires
        account_complaint(*value) is None,
    ensures
        is_account_of(r, *value),
{
    proof {
        lemma_account_parts(*value);
    }
    let target = match text_in_it(find_part(value, "target", 0)) {
        Some(target) => target,
        None => String::new(),
    };
    let consent = match find_part(value, "consent", 1) {
        Some(consent) => Some(read_consent(consent)),
        None => None,
    };
    AccountConfig { target, consent }
}

proof fn lemma_account_is_fine(list: Seq<Setting>, i: int)
    requires
        first_account_complaint(list) is None,
        0 <= i < list.len(),
    ensures
        account_complaint(list[i]) is None,
    decreases list.len(),
{
    if i > 0 {
        lemma_account_is_fine(list.drop_first(), i - 1);
    }
}

#[verifier::loop_isolation(false)]
fn read_accounts(list: &Vec<Setting>) -> (r: Vec<AccountConfig>)
    requires
        first_account_complaint(list@) is None,
    ensures
        r@.len() == list@.len(),
        forall|i: int| 0 <= i < list@.len() ==> is_account_of(#[trigger] r@[i], list@[i]),
{
    let mut r: Vec<AccountConfig> = Vec::new();
    let mut i: usize = 0;
    while i < list.len()
        invariant
            i <= list@.len(),
            r@.len() == i,
            forall|j: int| 0 <= j < i ==> is_account_of(#[trigger] r@[j], list@[j]),
        decreases list@.len() - i,
    {
        proof {
            lemma_account_is_fine(list@, i as int);
        }
        r.push(read_account(&list[i]));
        i = i + 1;
    }
    r
}

/// Reads a document as a configuration, or says what is wrong with it: a key
/// that is not a key, a value of the wrong kind, a duration that is not one, or
/// a field that is missing.
pub fn read_config(value: &Setting) -> (r: Result<WatchConfig, String>)
    ensures
        match r {
            Ok(config) => complaint(*value) is None && is_config_of(config, *value),
            Err(message) => complaint(*value) == Some(message@),
        },
{
    if let Some(message) = check(value) {
        return Err(message);
    }
    match value {
        Setting::Table(fields) => {
            proof {
                lemma_names();
                lemma_known_fields(fields@);
            }
            let schema: u32 = match find_field(fields, "schema") {
                Some(Setting::Number(n)) => *n as u32,
                _ => 1,
            };
            let webhook = match find_field(fields, "webhook") {
                Some(value) => Some(read_webhook(value)),
                None => None,
            };
            let accounts: Vec<AccountConfig> = match find_field(fields, "account") {
                Some(Setting::List(list)) => read_accounts(list),
                _ => Vec::new(),
            };
            Ok(
                WatchConfig {
                    schema,
                    every: read_duration(fields, "every"),
                    at: read_texts(fields, "at"),
                    on: read_texts(fields, "on"),
                    cron: read_text(fields, "cron"),
                    jitter: read_duration(fields, "jitter"),
                    webhook,
                    accounts,
                },
            )
        },
        _ => Err(say_wrong_kind("the file", value, "struct WatchConfig")),
    }
}

proof fn lemma_known_fields(fields: Seq<Field>)
    requires
        fields_complaint(fields) is None,
    ensures
        field(fields, "schema"@) matches Some(v) ==> schema_complaint(v) is None,
        field(fields, "every"@) matches Some(v) ==> duration_complaint("every"@, v) is None,
        field(fields, "at"@) matches Some(v) ==> texts_complaint("at"@, v) is None,
        field(fields, "on"@) matches Some(v) ==> texts_complaint("on"@, v) is None,
        field(fields, "cron"@) matches Some(v) ==> text_complaint("cron"@, v) is None,
        field(fields, "jitter"@) matches Some(v) ==> duration_complaint("jitter"@, v) is None,
        field(fields, "webhook"@) matches Some(v) ==> webhook_complaint(v) is None,
        field(fields, "account"@) matches Some(v) ==> (v matches Setting::List(list)
            && first_account_complaint(list@) is None),
{
    lemma_names();
    if field(fields, "schema"@) is Some {
        lemma_field_is_fine(fields, "schema"@);
    }
    if field(fields, "every"@) is Some {
        lemma_field_is_fine(fields, "every"@);
    }
    if field(fields, "at"@) is Some {
        lemma_field_is_fine(fields, "at"@);
    }
    if field(fields, "on"@) is Some {
        lemma_field_is_fine(fields, "on"@);
    }
    if field(fields, "cron"@) is Some {
        lemma_field_is_fine(fields, "cron"@);
    }
    if field(fields, "jitter"@) is Some {
        lemma_field_is_fine(fields, "jitter"@);
    }
    if field(fields, "webhook"@) is Some {
        lemma_field_is_fine(fields, "webhook"@);
    }
    if field(fields, "account"@) is Some {
        lemma_field_is_fine(fields, "account"@);
    }
}

/// Whether an error says that a file is not what it has to be, and what is wrong
/// with it.
pub open spec fn is_invalid(e: ConfigError, path: Seq<char>, message: Seq<char>) -> bool {
    e matches ConfigError::Invalid { path: p, message: m } && p@ == path && m@ == message
}

/// The shape a document says its file has, where it says one.
pub open spec fn told_schema(value: Setting) -> Option<u32> {
    match value {
        Setting::Table(fields) => match field(fields@, "schema"@) {
            Some(Setting::Number(n)) => if 0 <= n <= u32::MAX {
                Some(n as u32)
            } else {
                None
            },
            _ => None,
        },
        _ => None,
    }
}

fn schema_told(value: &Setting) -> (r: Option<u32>)
    ensures
        r == told_schema(*value),
{
    if let Setting::Table(fields) = value {
        if let Some(Setting::Number(n)) = find_field(fields, "schema") {
            if 0 <= *n && *n <= u32::MAX as i64 {
                return Some(*n as u32);
            }
        }
    }
    None
}

/// What parsing gives for a document, or for the reason there is none. The shape
/// of the file is read before anything else, so that one of another shape is
/// refused as what it is and not at a field.
pub open spec fn parsed(
    r: Result<WatchConfig, ConfigError>,
    read: Result<Setting, Seq<char>>,
    path: Seq<char>,
) -> bool {
    match read {
        Err(message) => r matches Err(e) && is_invalid(e, path, message),
        Ok(value) => if told_schema(value) matches Some(found) && found != SCHEMA {
            &&& r matches Err(ConfigError::Unknown { path: p, found })
            &&& p@ == path
            &&& Some(found) == told_schema(value)
        } else {
            match complaint(value) {
                Some(message) => r matches Err(e) && is_invalid(e, path, message),
                None => r matches Ok(config) && is_config_of(config, value),
            }
        },
    }
}

/// Parses a file, naming it in anything it complains about.
///
/// What the parser of the format says of a text that is no document is handed on,
/// with its place. What is wrong with a document is said in this library's own
/// words, the first complaint in the order of the names and without a line; where
/// the file was read as a configuration by the parser itself, [`parse_read`] says it
/// in the parser's. A webhook, an account and a consent are read from a table of
/// their fields or from a list of the values in order, and headers from a table.
pub fn parse(text: &str, path: &str) -> (r: Result<WatchConfig, ConfigError>)
    ensures
        parsed(r, toml_document(text@), path@),
{
    let read = document(text);
    parse_document(read, path)
}

/// The same, of a document that was read, or of the reason there is none. A file
/// of another shape is refused as what it is.
pub fn parse_document(read: Result<Setting, String>, path: &str) -> (r: Result<
    WatchConfig,
    ConfigError,
>)
    ensures
        parsed(
            r,
            match read {
                Ok(value) => Ok(value),
                Err(message) => Err(message@),
            },
            path@,
        ),
{
    let value = match read {
        Ok(value) => value,
        Err(message) => return Err(ConfigError::Invalid { path: path.to_owned(), message }),
    };
    if let Some(found) = schema_told(&value) {
        if found != SCHEMA {
            return Err(ConfigError::Unknown { path: path.to_owned(), found });
        }
    }
    match read_config(&value) {
        Ok(config) => Ok(config),
        Err(message) => Err(ConfigError::Invalid { path: path.to_owned(), message }),
    }
}

/// What parsing gives for a text that the parser of the format has read as a
/// configuration, or said why it could not. The shape of the file goes before
/// anything else here too.
pub open spec fn accepted(
    r: Result<WatchConfig, ConfigError>,
    document: Result<Setting, Seq<char>>,
    read: Result<WatchConfig, String>,
    path: Seq<char>,
) -> bool {
    let told = match document {
        Ok(value) => told_schema(value),
        Err(_) => None,
    };
    if told is Some && told != Some(SCHEMA) {
        &&& r matches Err(ConfigError::Unknown { path: p, found })
        &&& p@ == path
        &&& Some(found) == told
    } else {
        match read {
            Err(message) => r matches Err(e) && is_invalid(e, path, message@),
            Ok(config) => if config.schema == SCHEMA {
                r == Ok::<WatchConfig, ConfigError>(config)
            } else {
                &&& r matches Err(ConfigError::Unknown { path: p, found })
                &&& p@ == path
                &&& found == config.schema
            },
        }
    }
}

/// Parses a file that the parser of the format has read as a configuration: what it
/// read where the file has the shape this version understands, and otherwise what is
/// wrong, in the parser's own words and with its place.
pub fn parse_read(text: &str, read: Result<WatchConfig, String>, path: &str) -> (r: Result<
    WatchConfig,
    ConfigError,
>)
    ensures
        accepted(r, toml_document(text@), read, path@),
{
    if let Ok(value) = document(text) {
        if let Some(found) = schema_told(&value) {
            if found != SCHEMA {
                return Err(ConfigError::Unknown { path: path.to_owned(), found });
            }
        }
    }
    match read {
        Ok(config) => {
            if config.schema == SCHEMA {
                Ok(config)
            } else {
                Err(ConfigError::Unknown { path: path.to_owned(), found: config.schema })
            }
        },
        Err(message) => Err(ConfigError::Invalid { path: path.to_owned(), message }),
    }
}

impl WebhookConfig {
    /// The value of a header.
    pub open spec fn header_of(headers: Seq<Header>, name: Seq<char>) -> Option<Seq<char>>
        decreases headers.len(),
    {
        if headers.len() == 0 {
            None
        } else if headers.first().name@ == name {
            Some(headers.first().value@)
        } else {
            Self::header_of(headers.drop_first(), name)
        }
    }

    pub fn header(&self, name: &str) -> (r: Option<&str>)
        ensures
            match r {
                Some(value) => Self::header_of(self.headers@, name@) == Some(value@),
                None => Self::header_of(self.headers@, name@) is None,
            },
    {
        let mut i: usize = 0;
        assert(self.headers@.skip(0) == self.headers@);
        while i < self.headers.len()
            invariant
                i <= self.headers@.len(),
                Self::header_of(self.headers@, name@) == Self::header_of(
                    self.headers@.skip(i as int),
                    name@,
                ),
            decreases self.headers@.len() - i,
        {
            assert(self.headers@.skip(i as int).drop_first() == self.headers@.skip(i + 1));
            if same_text(self.headers[i].name.as_str(), name) {
                return Some(self.headers[i].value.as_str());
            }
            i = i + 1;
        }
        None
    }
}

} // verus!
