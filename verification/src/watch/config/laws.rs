//! What a configuration file that was written is read back as.
use std::time::Duration;
use vstd::prelude::*;
use vstd::string::*;

use super::document::{field, Field, Setting};
use super::{
    account_complaint, account_field_complaint, account_fields_complaint,
    are_texts_of, complaint, consent_field_complaint, consent_fields_complaint, field_complaint,
    fields_complaint, first_account_complaint, first_header_complaint, is_account_of, is_config_of,
    is_duration_of, is_text_of, is_webhook_of, lemma_names, parsed, told_schema,
    webhook_field_complaint, webhook_fields_complaint, AccountConfig, ConfigError, Header,
    WatchConfig, WebhookConfig, SCHEMA,
};
use crate::clock::{duration_nanos, duration_secs};
use crate::duration::{spelling, what_is_written_reads_back};

verus! {

/// Whether no two fields have the same name, which is so of every table of a file.
pub open spec fn is_a_table(fields: Seq<Field>) -> bool {
    forall|i: int, j: int|
        0 <= i < j < fields.len() ==> (#[trigger] fields[i]).name@ != (#[trigger] fields[j]).name@
}

/// Whether a value is this text.
pub open spec fn is_just(value: Option<Setting>, text: Seq<char>) -> bool {
    value matches Some(Setting::Text(t)) && t@ == text
}

/// Whether a header that was written is one of the fields of a table.
pub open spec fn is_among(fields: Seq<Field>, header: (String, String)) -> bool {
    is_just(field(fields, header.0@), header.1@)
}

/// Whether a table is that of the headers that were written, in whichever order.
pub open spec fn is_headers_table(value: Setting, headers: Seq<(String, String)>) -> bool {
    &&& value matches Setting::Table(fields)
    &&& is_a_table(fields@)
    &&& fields@.len() == headers.len()
    &&& forall|j: int| 0 <= j < fields@.len() ==> (#[trigger] fields@[j]).value is Text
    &&& forall|i: int| 0 <= i < headers.len() ==> is_among(fields@, #[trigger] headers[i])
}

/// Whether a table is that of the webhook that was written.
pub open spec fn is_webhook_table(
    value: Setting,
    url: Seq<char>,
    heartbeat: bool,
    headers: Seq<(String, String)>,
) -> bool {
    &&& value matches Setting::Table(fields)
    &&& is_a_table(fields@)
    &&& forall|i: int|
        0 <= i < fields@.len() ==> {
            ||| (#[trigger] fields@[i]).name@ == "url"@
            ||| fields@[i].name@ == "heartbeat"@
            ||| fields@[i].name@ == "headers"@
        }
    &&& is_just(field(fields@, "url"@), url)
    &&& field(fields@, "heartbeat"@) == Some(Setting::Flag(heartbeat))
    &&& match field(fields@, "headers"@) {
        Some(table) => headers.len() > 0 && is_headers_table(table, headers),
        None => headers.len() == 0,
    }
}

/// Whether a table is that of an account that was written.
pub open spec fn is_account_table(value: Setting, account: (String, Option<i64>)) -> bool {
    &&& value matches Setting::Table(fields)
    &&& is_a_table(fields@)
    &&& forall|i: int|
        0 <= i < fields@.len() ==> (#[trigger] fields@[i]).name@ == "target"@ || fields@[i].name@
            == "consent"@
    &&& is_just(field(fields@, "target"@), account.0@)
    &&& match (field(fields@, "consent"@), account.1) {
        (Some(Setting::Table(inner)), Some(at)) => {
            &&& inner@.len() == 1
            &&& inner@[0].name@ == "agreed_at"@
            &&& inner@[0].value == Setting::Number(at)
        },
        (None, None) => true,
        _ => false,
    }
}

/// Whether a name is one of those that say when to run.
pub open spec fn says_when(name: Seq<char>) -> bool {
    name == "every"@ || name == "at"@ || name == "on"@ || name == "cron"@
}

/// Whether these are settings that say when to run, each fit to be read.
pub open spec fn is_a_schedule(schedule: Seq<Field>) -> bool {
    &&& is_a_table(schedule)
    &&& forall|i: int|
        0 <= i < schedule.len() ==> says_when((#[trigger] schedule[i]).name@) && field_complaint(
            schedule[i],
        ) is None
}

/// Whether a document is the one that a file written by
/// [`template`](super::template) holds, its schedule line being these settings.
pub open spec fn is_document_of(
    value: Setting,
    schedule: Seq<Field>,
    jitter: Option<Duration>,
    webhook: Option<Seq<char>>,
    heartbeat: bool,
    headers: Seq<(String, String)>,
    accounts: Seq<(String, Option<i64>)>,
) -> bool {
    &&& value matches Setting::Table(fields)
    &&& is_a_table(fields@)
    &&& forall|i: int|
        0 <= i < fields@.len() ==> {
            ||| says_when((#[trigger] fields@[i]).name@)
            ||| fields@[i].name@ == "schema"@
            ||| fields@[i].name@ == "jitter"@
            ||| fields@[i].name@ == "webhook"@
            ||| fields@[i].name@ == "account"@
        }
    &&& field(fields@, "every"@) == field(schedule, "every"@)
    &&& field(fields@, "at"@) == field(schedule, "at"@)
    &&& field(fields@, "on"@) == field(schedule, "on"@)
    &&& field(fields@, "cron"@) == field(schedule, "cron"@)
    &&& field(fields@, "schema"@) == Some(Setting::Number(SCHEMA as i64))
    &&& match jitter {
        Some(jitter) => is_just(field(fields@, "jitter"@), spelling(duration_secs(jitter))),
        None => field(fields@, "jitter"@) is None,
    }
    &&& match (field(fields@, "webhook"@), webhook) {
        (Some(table), Some(url)) => is_webhook_table(table, url, heartbeat, headers),
        (None, None) => true,
        _ => false,
    }
    &&& match field(fields@, "account"@) {
        Some(Setting::List(list)) => {
            &&& accounts.len() > 0
            &&& list@.len() == accounts.len()
            &&& forall|i: int|
                0 <= i < accounts.len() ==> is_account_table(#[trigger] list@[i], accounts[i])
        },
        Some(_) => false,
        None => accounts.len() == 0,
    }
}

/// Whether a webhook is the one that was written.
pub open spec fn is_webhook_written(
    webhook: WebhookConfig,
    url: Seq<char>,
    heartbeat: bool,
    headers: Seq<(String, String)>,
) -> bool {
    &&& webhook.url@ == url
    &&& webhook.heartbeat == heartbeat
    &&& webhook.headers@.len() == headers.len()
    &&& forall|i: int|
        0 <= i < headers.len() ==> WebhookConfig::header_of(
            webhook.headers@,
            (#[trigger] headers[i]).0@,
        ) == Some(headers[i].1@)
}

/// Whether an account is the one that was written.
pub open spec fn is_account_written(
    account: AccountConfig,
    written: (String, Option<i64>),
) -> bool {
    &&& account.target@ == written.0@
    &&& match (account.consent, written.1) {
        (Some(consent), Some(at)) => consent.agreed_at == at,
        (None, None) => true,
        _ => false,
    }
}

/// Whether a configuration is the one that was written.
pub open spec fn is_what_was_written(
    config: WatchConfig,
    schedule: Seq<Field>,
    jitter: Option<Duration>,
    webhook: Option<Seq<char>>,
    heartbeat: bool,
    headers: Seq<(String, String)>,
    accounts: Seq<(String, Option<i64>)>,
) -> bool {
    &&& config.schema == SCHEMA
    &&& is_duration_of(config.every, field(schedule, "every"@))
    &&& are_texts_of(config.at@, field(schedule, "at"@))
    &&& are_texts_of(config.on@, field(schedule, "on"@))
    &&& is_text_of(config.cron, field(schedule, "cron"@))
    &&& match (config.jitter, jitter) {
        (Some(read), Some(given)) => duration_nanos(read) == duration_secs(given) * 1_000_000_000,
        (None, None) => true,
        _ => false,
    }
    &&& match (config.webhook, webhook) {
        (Some(read), Some(url)) => is_webhook_written(read, url, heartbeat, headers),
        (None, None) => true,
        _ => false,
    }
    &&& config.accounts@.len() == accounts.len()
    &&& forall|i: int|
        0 <= i < accounts.len() ==> is_account_written(
            #[trigger] config.accounts@[i],
            accounts[i],
        )
}

/// In a table, the value under the name of a field is that field's.
pub proof fn lemma_field_at(fields: Seq<Field>, i: int)
    requires
        is_a_table(fields),
        0 <= i < fields.len(),
    ensures
        field(fields, fields[i].name@) == Some(fields[i].value),
    decreases fields.len(),
{
    if i > 0 {
        let rest = fields.drop_first();
        assert(fields[0].name@ != fields[i].name@);
        assert forall|a: int, b: int| 0 <= a < b < rest.len() implies (#[trigger] rest[a]).name@ != (
        #[trigger] rest[b]).name@ by {
            assert(rest[a] == fields[a + 1] && rest[b] == fields[b + 1]);
        }
        lemma_field_at(rest, i - 1);
    }
}

/// A value under a name is that of a field of that name.
proof fn lemma_some_field(fields: Seq<Field>, name: Seq<char>) -> (i: int)
    requires
        field(fields, name) is Some,
    ensures
        0 <= i < fields.len(),
        fields[i].name@ == name,
        field(fields, name) == Some(fields[i].value),
    decreases fields.len(),
{
    if fields.first().name@ == name {
        0
    } else {
        lemma_some_field(fields.drop_first(), name) + 1
    }
}

proof fn lemma_fields_are_fine(fields: Seq<Field>)
    requires
        forall|i: int| 0 <= i < fields.len() ==> field_complaint(#[trigger] fields[i]) is None,
    ensures
        fields_complaint(fields) is None,
    decreases fields.len(),
{
    if fields.len() > 0 {
        assert(field_complaint(fields[0]) is None);
        let rest = fields.drop_first();
        assert forall|i: int| 0 <= i < rest.len() implies field_complaint(
            #[trigger] rest[i],
        ) is None by {
            assert(rest[i] == fields[i + 1]);
        }
        lemma_fields_are_fine(rest);
    }
}

proof fn lemma_webhook_is_fine(rest: Seq<Field>, all: Seq<Field>)
    requires
        forall|i: int| 0 <= i < rest.len() ==> webhook_field_complaint(#[trigger] rest[i]) is None,
        field(all, "url"@) is Some,
    ensures
        webhook_fields_complaint(rest, all) is None,
    decreases rest.len(),
{
    if rest.len() > 0 {
        assert(webhook_field_complaint(rest[0]) is None);
        let less = rest.drop_first();
        assert forall|i: int| 0 <= i < less.len() implies webhook_field_complaint(
            #[trigger] less[i],
        ) is None by {
            assert(less[i] == rest[i + 1]);
        }
        lemma_webhook_is_fine(less, all);
    }
}

proof fn lemma_headers_are_fine(headers: Seq<Field>)
    requires
        forall|i: int| 0 <= i < headers.len() ==> (#[trigger] headers[i]).value is Text,
    ensures
        first_header_complaint(headers) is None,
    decreases headers.len(),
{
    if headers.len() > 0 {
        assert(headers[0].value is Text);
        let rest = headers.drop_first();
        assert forall|i: int| 0 <= i < rest.len() implies (#[trigger] rest[i]).value is Text by {
            assert(rest[i] == headers[i + 1]);
        }
        lemma_headers_are_fine(rest);
    }
}

proof fn lemma_account_is_readable(rest: Seq<Field>, all: Seq<Field>)
    requires
        forall|i: int| 0 <= i < rest.len() ==> account_field_complaint(#[trigger] rest[i]) is None,
        field(all, "target"@) is Some,
    ensures
        account_fields_complaint(rest, all) is None,
    decreases rest.len(),
{
    if rest.len() > 0 {
        assert(account_field_complaint(rest[0]) is None);
        let less = rest.drop_first();
        assert forall|i: int| 0 <= i < less.len() implies account_field_complaint(
            #[trigger] less[i],
        ) is None by {
            assert(less[i] == rest[i + 1]);
        }
        lemma_account_is_readable(less, all);
    }
}

proof fn lemma_accounts_are_fine(list: Seq<Setting>)
    requires
        forall|i: int| 0 <= i < list.len() ==> account_complaint(#[trigger] list[i]) is None,
    ensures
        first_account_complaint(list) is None,
    decreases list.len(),
{
    if list.len() > 0 {
        assert(account_complaint(list[0]) is None);
        let rest = list.drop_first();
        assert forall|i: int| 0 <= i < rest.len() implies account_complaint(
            #[trigger] rest[i],
        ) is None by {
            assert(rest[i] == list[i + 1]);
        }
        lemma_accounts_are_fine(rest);
    }
}

/// A webhook's table that was written has nothing wrong with it.
proof fn lemma_webhook_table(
    fields: Seq<Field>,
    value: Setting,
    url: Seq<char>,
    heartbeat: bool,
    headers: Seq<(String, String)>,
)
    requires
        value matches Setting::Table(inner) && inner@ == fields,
        is_webhook_table(value, url, heartbeat, headers),
    ensures
        webhook_fields_complaint(fields, fields) is None,
{
    lemma_names();
    assert forall|i: int| 0 <= i < fields.len() implies webhook_field_complaint(
        #[trigger] fields[i],
    ) is None by {
        lemma_field_at(fields, i);
        if fields[i].name@ == "headers"@ {
            lemma_headers_are_fine(fields[i].value->Table_0@);
        }
    }
    lemma_webhook_is_fine(fields, fields);
}

/// An account's table that was written has nothing wrong with it.
proof fn lemma_account_table(value: Setting, account: (String, Option<i64>))
    requires
        is_account_table(value, account),
    ensures
        account_complaint(value) is None,
{
    lemma_names();
    let fields = value->Table_0@;
    assert forall|i: int| 0 <= i < fields.len() implies account_field_complaint(
        #[trigger] fields[i],
    ) is None by {
        lemma_field_at(fields, i);
        if fields[i].name@ == "consent"@ {
            let inner = fields[i].value->Table_0@;
            let rest = inner.drop_first();
            assert(inner.first() == inner[0]);
            assert(consent_field_complaint(inner.first()) is None);
            assert(field(inner, "agreed_at"@) == Some(inner[0].value));
            assert(rest.len() == 0);
            assert(consent_fields_complaint(rest, inner) is None);
            assert(consent_fields_complaint(inner, inner) is None);
        }
    }
    lemma_account_is_readable(fields, fields);
}

/// A document that was written has nothing wrong with it.
proof fn lemma_document(
    value: Setting,
    schedule: Seq<Field>,
    jitter: Option<Duration>,
    webhook: Option<Seq<char>>,
    heartbeat: bool,
    headers: Seq<(String, String)>,
    accounts: Seq<(String, Option<i64>)>,
)
    requires
        is_document_of(value, schedule, jitter, webhook, heartbeat, headers, accounts),
        is_a_schedule(schedule),
        jitter matches Some(jitter) ==> duration_secs(jitter) <= u64::MAX,
    ensures
        complaint(value) is None,
{
    lemma_names();
    let fields = value->Table_0@;
    assert forall|i: int| 0 <= i < fields.len() implies field_complaint(
        #[trigger] fields[i],
    ) is None by {
        lemma_field_at(fields, i);
        let name = fields[i].name@;
        if says_when(name) {
            let k = lemma_some_field(schedule, name);
            assert(field_complaint(schedule[k]) is None);
        } else if name == "jitter"@ {
            what_is_written_reads_back(duration_secs(jitter->0) as u64);
        } else if name == "webhook"@ {
            lemma_webhook_table(
                fields[i].value->Table_0@,
                fields[i].value,
                webhook->0,
                heartbeat,
                headers,
            );
        } else if name == "account"@ {
            let list = fields[i].value->List_0@;
            assert forall|k: int| 0 <= k < list.len() implies account_complaint(
                #[trigger] list[k],
            ) is None by {
                lemma_account_table(list[k], accounts[k]);
            }
            lemma_accounts_are_fine(list);
        }
    }
    lemma_fields_are_fine(fields);
}

/// The value of a header that was read is that of the field it was read from.
proof fn lemma_header_of(read: Seq<Header>, fields: Seq<Field>, name: Seq<char>)
    requires
        fields.len() == read.len(),
        forall|i: int|
            0 <= i < read.len() ==> (#[trigger] fields[i]).name == read[i].name && fields[i].value
                == Setting::Text(read[i].value),
    ensures
        match WebhookConfig::header_of(read, name) {
            Some(value) => is_just(field(fields, name), value),
            None => field(fields, name) is None,
        },
    decreases read.len(),
{
    if read.len() > 0 {
        assert(fields[0].name == read[0].name);
        let (a, b) = (read.drop_first(), fields.drop_first());
        assert forall|i: int| 0 <= i < a.len() implies (#[trigger] b[i]).name == a[i].name
            && b[i].value == Setting::Text(a[i].value) by {
            assert(fields[i + 1].name == read[i + 1].name);
        }
        lemma_header_of(a, b, name);
    }
}

/// A webhook read from the table that was written is the one that was written.
proof fn lemma_webhook_read(
    read: WebhookConfig,
    value: Setting,
    url: Seq<char>,
    heartbeat: bool,
    headers: Seq<(String, String)>,
)
    requires
        is_webhook_of(read, value),
        is_webhook_table(value, url, heartbeat, headers),
    ensures
        is_webhook_written(read, url, heartbeat, headers),
{
    let fields = value->Table_0@;
    if headers.len() > 0 {
        let inner = (field(fields, "headers"@)->0)->Table_0@;
        assert forall|i: int| 0 <= i < headers.len() implies WebhookConfig::header_of(
            read.headers@,
            (#[trigger] headers[i]).0@,
        ) == Some(headers[i].1@) by {
            assert(is_among(inner, headers[i]));
            lemma_header_of(read.headers@, inner, headers[i].0@);
        }
    }
}

/// What is written is read back: the document that a written file holds is accepted,
/// and the configuration read from it has the schedule, the jitter in whole seconds,
/// the webhook with its headers, and the accounts in order with the consents, that
/// were written. Whether the body is signed changes nothing that is read.
///
/// That the text of a file reads as its document is for the parser of the format:
/// [`a_quoted_value_reads_back`](super::written::a_quoted_value_reads_back) says it of
/// the values in it.
pub proof fn what_is_written_is_read_back(
    r: Result<WatchConfig, ConfigError>,
    path: Seq<char>,
    value: Setting,
    schedule: Seq<Field>,
    jitter: Option<Duration>,
    webhook: Option<Seq<char>>,
    heartbeat: bool,
    headers: Seq<(String, String)>,
    accounts: Seq<(String, Option<i64>)>,
)
    requires
        is_document_of(value, schedule, jitter, webhook, heartbeat, headers, accounts),
        is_a_schedule(schedule),
        jitter matches Some(jitter) ==> duration_secs(jitter) <= u64::MAX,
        parsed(r, Ok(value), path),
    ensures
        r matches Ok(config) && is_what_was_written(
            config,
            schedule,
            jitter,
            webhook,
            heartbeat,
            headers,
            accounts,
        ),
{
    lemma_document(value, schedule, jitter, webhook, heartbeat, headers, accounts);
    assert(told_schema(value) == Some(SCHEMA));
    let config = r->Ok_0;
    assert(is_config_of(config, value));
    let fields = value->Table_0@;
    if jitter is Some {
        what_is_written_reads_back(duration_secs(jitter->0) as u64);
    }
    if webhook is Some {
        lemma_webhook_read(
            config.webhook->0,
            field(fields, "webhook"@)->0,
            webhook->0,
            heartbeat,
            headers,
        );
    }
    assert forall|i: int| 0 <= i < accounts.len() implies is_account_written(
        #[trigger] config.accounts@[i],
        accounts[i],
    ) by {
        let list = (field(fields, "account"@)->0)->List_0@;
        assert(is_account_of(config.accounts@[i], list[i]));
        assert(is_account_table(list[i], accounts[i]));
        if accounts[i].1 is Some {
            let inner = (field(list[i]->Table_0@, "consent"@)->0)->Table_0@;
            assert(inner.first() == inner[0]);
            assert(field(inner, "agreed_at"@) == Some(inner[0].value));
        }
    }
}

} // verus!
