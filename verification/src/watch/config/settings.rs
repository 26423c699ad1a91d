//! What each setting of a configuration file does, said of the setting itself.
use std::time::Duration;
use vstd::prelude::*;
use vstd::string::*;

use super::document::{field, Field, Setting};
use super::laws::{is_a_table, lemma_field_at};
use super::written::{account_text, file_text, headers_text, quoted, webhook_text};
use super::{
    accepted, account_complaint, account_field_complaint, account_fields_complaint,
    consent_field_complaint, consent_fields_complaint, field_complaint, fields_complaint,
    first_account_complaint, first_text_complaint, is_account_of, is_config_of, is_webhook_of,
    lemma_names, parsed, text_complaint, told_schema, webhook_field_complaint,
    webhook_fields_complaint, AccountConfig, ConfigError, Header, WatchConfig, WebhookConfig,
};
use crate::clock::duration_nanos;
use crate::duration::spelled_seconds;
use crate::number::signed_decimal;
use crate::text::trimmed;

verus! {

/// A field that something is wrong with is something wrong with the file.
proof fn lemma_one_is_enough(fields: Seq<Field>, i: int)
    requires
        0 <= i < fields.len(),
        field_complaint(fields[i]) is Some,
    ensures
        fields_complaint(fields) is Some,
    decreases fields.len(),
{
    if i > 0 && field_complaint(fields.first()) is None {
        assert(fields.drop_first()[i - 1] == fields[i]);
        lemma_one_is_enough(fields.drop_first(), i - 1);
    }
}

/// A file with a setting that nobody knows is refused.
pub proof fn an_unknown_setting_is_refused(
    r: Result<WatchConfig, ConfigError>,
    fields: Vec<Field>,
    path: Seq<char>,
    i: int,
)
    requires
        parsed(r, Ok(Setting::Table(fields)), path),
        0 <= i < fields@.len(),
        fields@[i].name@ != "schema"@ && fields@[i].name@ != "every"@ && fields@[i].name@ != "at"@
            && fields@[i].name@ != "on"@ && fields@[i].name@ != "cron"@ && fields@[i].name@
            != "jitter"@ && fields@[i].name@ != "webhook"@ && fields@[i].name@ != "account"@,
    ensures
        r is Err,
{
    lemma_one_is_enough(fields@, i);
}

/// A file with a setting of the wrong kind is refused: a schedule, a time or a length that is
/// no text, days or times that are no list, a webhook that is neither a table nor a list, or
/// accounts that are no list.
pub proof fn a_setting_of_the_wrong_kind_is_refused(
    r: Result<WatchConfig, ConfigError>,
    fields: Vec<Field>,
    path: Seq<char>,
    i: int,
)
    requires
        parsed(r, Ok(Setting::Table(fields)), path),
        0 <= i < fields@.len(),
        ({
            let f = fields@[i];
            ||| (f.name@ == "every"@ || f.name@ == "jitter"@ || f.name@ == "cron"@) && !(
            f.value is Text)
            ||| (f.name@ == "at"@ || f.name@ == "on"@ || f.name@ == "account"@) && !(
            f.value is List)
            ||| f.name@ == "webhook"@ && !(f.value is Table) && !(f.value is List)
            ||| f.name@ == "schema"@ && !(f.value is Number)
        }),
    ensures
        r is Err,
{
    lemma_names();
    lemma_one_is_enough(fields@, i);
}

/// A length that cannot be read is refused.
pub proof fn a_length_that_cannot_be_read_is_refused(
    r: Result<WatchConfig, ConfigError>,
    fields: Vec<Field>,
    path: Seq<char>,
    i: int,
)
    requires
        parsed(r, Ok(Setting::Table(fields)), path),
        0 <= i < fields@.len(),
        fields@[i].name@ == "every"@ || fields@[i].name@ == "jitter"@,
        fields@[i].value matches Setting::Text(t) && spelled_seconds(trimmed(t@)) is None,
    ensures
        r is Err,
{
    lemma_names();
    lemma_one_is_enough(fields@, i);
}

/// A file that says it is of another shape is refused as that, whatever else is in it.
pub proof fn another_shape_is_refused_as_that(
    r: Result<WatchConfig, ConfigError>,
    fields: Vec<Field>,
    path: Seq<char>,
    i: int,
)
    requires
        parsed(r, Ok(Setting::Table(fields)), path),
        is_a_table(fields@),
        0 <= i < fields@.len(),
        fields@[i].name@ == "schema"@,
        fields@[i].value matches Setting::Number(n) && 0 <= n <= u32::MAX && n != 1,
    ensures
        r matches Err(ConfigError::Unknown { path: p, found }) && p@ == path && found
            == fields@[i].value->Number_0,
{
    lemma_field_at(fields@, i);
}

/// What a file that was accepted says of when to run is what is held: the expression, the
/// interval and the jitter as long as they are spelled, and the times and the days in order.
pub proof fn when_to_run_is_as_the_file_says(
    config: WatchConfig,
    fields: Vec<Field>,
    path: Seq<char>,
    i: int,
)
    requires
        parsed(Ok(config), Ok(Setting::Table(fields)), path),
        is_a_table(fields@),
        0 <= i < fields@.len(),
    ensures
        config.schema == 1,
        fields@[i].name@ == "cron"@ ==> config.cron is Some && fields@[i].value == Setting::Text(
            config.cron->0,
        ),
        fields@[i].name@ == "every"@ ==> config.every is Some && fields@[i].value is Text
            && spelled_seconds(trimmed((fields@[i].value->Text_0)@)) is Some && duration_nanos(
            config.every->0,
        ) == spelled_seconds(trimmed((fields@[i].value->Text_0)@))->0 * 1_000_000_000,
        fields@[i].name@ == "jitter"@ ==> config.jitter is Some && fields@[i].value is Text
            && spelled_seconds(trimmed((fields@[i].value->Text_0)@)) is Some && duration_nanos(
            config.jitter->0,
        ) == spelled_seconds(trimmed((fields@[i].value->Text_0)@))->0 * 1_000_000_000,
        fields@[i].name@ == "at"@ ==> fields@[i].value is List && (fields@[i].value->List_0)@.len()
            == config.at@.len() && forall|k: int|
            0 <= k < config.at@.len() ==> (fields@[i].value->List_0)@[k] == Setting::Text(
                #[trigger] config.at@[k],
            ),
        fields@[i].name@ == "on"@ ==> fields@[i].value is List && (fields@[i].value->List_0)@.len()
            == config.on@.len() && forall|k: int|
            0 <= k < config.on@.len() ==> (fields@[i].value->List_0)@[k] == Setting::Text(
                #[trigger] config.on@[k],
            ),
{
    lemma_names();
    lemma_field_at(fields@, i);
    let value = Setting::Table(fields);
    assert(is_config_of(config, value));
    if told_schema(value) is None {
        if field(fields@, "schema"@) is Some {
            lemma_fields_fine(fields@, "schema"@);
        }
    }
}

/// Where nothing is wrong with a file, nothing is wrong with what stands under a name in it.
proof fn lemma_fields_fine(fields: Seq<Field>, name: Seq<char>)
    requires
        fields_complaint(fields) is None,
        field(fields, name) is Some,
    ensures
        exists|i: int|
            0 <= i < fields.len() && (#[trigger] fields[i]).name@ == name && field_complaint(
                fields[i],
            ) is None && field(fields, name) == Some(fields[i].value),
    decreases fields.len(),
{
    if fields.first().name@ == name {
        assert(fields[0].name@ == name);
    } else {
        let rest = fields.drop_first();
        lemma_fields_fine(rest, name);
        let i = choose|i: int|
            0 <= i < rest.len() && (#[trigger] rest[i]).name@ == name && field_complaint(rest[i])
                is None && field(rest, name) == Some(rest[i].value);
        assert(fields[i + 1] == rest[i]);
    }
}

/// What a file does not say is left open: no schedule, no jitter of its own, no webhook, and
/// no accounts but one's own.
pub proof fn what_a_file_does_not_say_is_left_open(
    config: WatchConfig,
    fields: Vec<Field>,
    path: Seq<char>,
)
    requires
        parsed(Ok(config), Ok(Setting::Table(fields)), path),
    ensures
        field(fields@, "every"@) is None ==> config.every is None,
        field(fields@, "jitter"@) is None ==> config.jitter is None,
        field(fields@, "cron"@) is None ==> config.cron is None,
        field(fields@, "at"@) is None ==> config.at@.len() == 0,
        field(fields@, "on"@) is None ==> config.on@.len() == 0,
        field(fields@, "webhook"@) is None ==> config.webhook is None,
        field(fields@, "account"@) is None ==> config.accounts@.len() == 0,
{
}

/// The webhook of a file is where its address says, with the headers it lists in order, and
/// with a heartbeat only where it is switched on.
pub proof fn a_webhook_is_as_the_file_says(
    webhook: WebhookConfig,
    inner: Vec<Field>,
    i: int,
)
    requires
        is_webhook_of(webhook, Setting::Table(inner)),
        is_a_table(inner@),
        0 <= i < inner@.len(),
    ensures
        inner@[i].name@ == "url"@ ==> inner@[i].value == Setting::Text(webhook.url),
        inner@[i].name@ == "heartbeat"@ && inner@[i].value is Flag ==> webhook.heartbeat
            == inner@[i].value->Flag_0,
        field(inner@, "heartbeat"@) is None ==> !webhook.heartbeat,
        field(inner@, "headers"@) is None ==> webhook.headers@.len() == 0,
        inner@[i].name@ == "headers"@ ==> inner@[i].value is Table && (
        inner@[i].value->Table_0)@.len() == webhook.headers@.len() && forall|k: int|
            0 <= k < webhook.headers@.len() ==> (inner@[i].value->Table_0)@[k].name == (
            #[trigger] webhook.headers@[k]).name && (inner@[i].value->Table_0)@[k].value
                == Setting::Text(webhook.headers@[k].value),
{
    lemma_names();
    lemma_field_at(inner@, i);
}

/// The accounts of a file are those it lists, in order, each with the consent that was given
/// for it and without one where none was.
pub proof fn the_accounts_are_those_the_file_lists(
    config: WatchConfig,
    fields: Vec<Field>,
    path: Seq<char>,
    list: Vec<Setting>,
    k: int,
    inner: Vec<Field>,
)
    requires
        parsed(Ok(config), Ok(Setting::Table(fields)), path),
        field(fields@, "account"@) == Some(Setting::List(list)),
        0 <= k < list@.len(),
        list@[k] == Setting::Table(inner),
    ensures
        config.accounts@.len() == list@.len(),
        field(inner@, "target"@) == Some(Setting::Text(config.accounts@[k].target)),
        field(inner@, "consent"@) is None ==> config.accounts@[k].consent is None,
        field(inner@, "consent"@) matches Some(Setting::Table(given)) ==> config.accounts@[k].consent
            is Some && field(given@, "agreed_at"@) == Some(
            Setting::Number(config.accounts@[k].consent->0.agreed_at),
        ),
{
    assert(is_account_of(config.accounts@[k], list@[k]));
}

/// The value of a header is the one of the first header of exactly that name.
pub proof fn a_header_is_found_by_its_name(headers: Seq<Header>, i: int, name: Seq<char>)
    requires
        0 <= i < headers.len(),
        headers[i].name@ == name,
        forall|j: int| 0 <= j < i ==> (#[trigger] headers[j]).name@ != name,
    ensures
        WebhookConfig::header_of(headers, name) == Some(headers[i].value@),
    decreases headers.len(),
{
    if i > 0 {
        let rest = headers.drop_first();
        assert(headers[0].name@ != name);
        assert forall|j: int| 0 <= j < i - 1 implies (#[trigger] rest[j]).name@ != name by {
            assert(rest[j] == headers[j + 1]);
        }
        a_header_is_found_by_its_name(rest, i - 1, name);
    }
}

/// A file written with one more account is the file without it and the account behind it: its
/// name in quotes and, where it was given, its consent with the moment.
pub proof fn every_account_is_written(
    schedule_line: Seq<char>,
    jitter: Option<Duration>,
    webhook: Option<Seq<char>>,
    heartbeat: bool,
    headers: Seq<(String, String)>,
    accounts: Seq<(String, Option<i64>)>,
    signed: bool,
    account: (String, Option<i64>),
) -> (note: Seq<char>)
    ensures
        file_text(
            schedule_line,
            jitter,
            webhook,
            heartbeat,
            headers,
            accounts.push(account),
            signed,
        ) == file_text(schedule_line, jitter, webhook, heartbeat, headers, accounts, signed)
            + "\n[[account]]\n"@ + "target = "@ + quoted(account.0@) + "\n"@ + note,
        account.1 is None ==> note.len() == 0,
        account.1 matches Some(at) ==> exists|remark: Seq<char>| #[trigger]
            (remark + "[account.consent]\n"@ + "agreed_at = "@ + signed_decimal(at as int)
                + "\n"@) == note,
{
    let all = accounts.push(account);
    assert(all.drop_last() == accounts);
    let before = file_text(
        schedule_line,
        jitter,
        webhook,
        heartbeat,
        headers,
        accounts,
        signed,
    );
    let after = file_text(schedule_line, jitter, webhook, heartbeat, headers, all, signed);
    let block = account_text(account);
    assert(after =~= before + block);
    let opening = "\n[[account]]\n"@ + "target = "@ + quoted(account.0@) + "\n"@;
    let note = block.skip(opening.len() as int);
    assert(block.take(opening.len() as int) =~= opening);
    assert(block =~= opening + note);
    assert(after =~= before + "\n[[account]]\n"@ + "target = "@ + quoted(account.0@) + "\n"@ + note);
    if let Some(at) = account.1 {
        let end = "[account.consent]\n"@ + "agreed_at = "@ + signed_decimal(at as int) + "\n"@;
        let remark = note.take(note.len() - end.len());
        assert(note =~= remark + "[account.consent]\n"@ + "agreed_at = "@ + signed_decimal(at as int)
            + "\n"@);
    }
    note
}

/// A webhook is written with its address in quotes, whether there is a heartbeat, and every
/// header in order, its name and its value in quotes.
pub proof fn every_header_is_written(
    url: Seq<char>,
    heartbeat: bool,
    headers: Seq<(String, String)>,
    signed: bool,
    header: (String, String),
)
    ensures
        headers.len() > 0 ==> webhook_text(url, heartbeat, headers.push(header), signed)
            == webhook_text(url, heartbeat, headers, signed) + quoted(header.0@) + " = "@ + quoted(
            header.1@,
        ) + "\n"@,
        headers.len() == 0 ==> webhook_text(url, heartbeat, headers.push(header), signed)
            == webhook_text(url, heartbeat, headers, signed) + "\n[webhook.headers]\n"@ + quoted(
            header.0@,
        ) + " = "@ + quoted(header.1@) + "\n"@,
{
    let all = headers.push(header);
    assert(all.drop_last() == headers);
    assert(headers_text(all) == headers_text(headers) + quoted(header.0@) + " = "@ + quoted(
        header.1@,
    ) + "\n"@);
    if headers.len() > 0 {
        assert(webhook_text(url, heartbeat, all, signed) =~= webhook_text(
            url,
            heartbeat,
            headers,
            signed,
        ) + quoted(header.0@) + " = "@ + quoted(header.1@) + "\n"@);
    } else {
        assert(headers_text(headers) == "\n[webhook.headers]\n"@);
        assert(webhook_text(url, heartbeat, all, signed) =~= webhook_text(
            url,
            heartbeat,
            headers,
            signed,
        ) + "\n[webhook.headers]\n"@ + quoted(header.0@) + " = "@ + quoted(header.1@) + "\n"@);
    }
}

proof fn lemma_webhook_is_refused(rest: Seq<Field>, all: Seq<Field>, i: int)
    requires
        field(all, "url"@) is None || (0 <= i < rest.len() && webhook_field_complaint(rest[i])
            is Some),
    ensures
        webhook_fields_complaint(rest, all) is Some,
    decreases rest.len(),
{
    if rest.len() > 0 && webhook_field_complaint(rest.first()) is None {
        if i > 0 {
            assert(i < rest.len() ==> rest.drop_first()[i - 1] == rest[i]);
        }
        lemma_webhook_is_refused(rest.drop_first(), all, i - 1);
    }
}

/// A webhook without an address is refused, and so is one with a setting nobody knows, with an
/// address that is no text or with a heartbeat that is neither on nor off.
pub proof fn a_webhook_that_is_refused(
    r: Result<WatchConfig, ConfigError>,
    fields: Vec<Field>,
    path: Seq<char>,
    i: int,
    inner: Vec<Field>,
    k: int,
)
    requires
        parsed(r, Ok(Setting::Table(fields)), path),
        0 <= i < fields@.len(),
        fields@[i].name@ == "webhook"@,
        fields@[i].value == Setting::Table(inner),
        field(inner@, "url"@) is None || (0 <= k < inner@.len() && {
            let f = inner@[k];
            ||| f.name@ != "url"@ && f.name@ != "headers"@ && f.name@ != "heartbeat"@
            ||| f.name@ == "url"@ && !(f.value is Text)
            ||| f.name@ == "heartbeat"@ && !(f.value is Flag)
            ||| f.name@ == "headers"@ && !(f.value is Table)
        }),
    ensures
        r is Err,
{
    lemma_names();
    lemma_webhook_is_refused(inner@, inner@, k);
    lemma_one_is_enough(fields@, i);
}

proof fn lemma_account_is_refused(rest: Seq<Field>, all: Seq<Field>, i: int)
    requires
        field(all, "target"@) is None || (0 <= i < rest.len() && account_field_complaint(rest[i])
            is Some),
    ensures
        account_fields_complaint(rest, all) is Some,
    decreases rest.len(),
{
    if rest.len() > 0 && account_field_complaint(rest.first()) is None {
        if i > 0 {
            assert(i < rest.len() ==> rest.drop_first()[i - 1] == rest[i]);
        }
        lemma_account_is_refused(rest.drop_first(), all, i - 1);
    }
}

proof fn lemma_account_in_a_list(list: Seq<Setting>, k: int)
    requires
        0 <= k < list.len(),
        account_complaint(list[k]) is Some,
    ensures
        first_account_complaint(list) is Some,
    decreases list.len(),
{
    if k > 0 && account_complaint(list.first()) is None {
        assert(list.drop_first()[k - 1] == list[k]);
        lemma_account_in_a_list(list.drop_first(), k - 1);
    }
}

/// An account without a name is refused, and so is one with a setting nobody knows or a name
/// that is no text.
pub proof fn an_account_that_is_refused(
    r: Result<WatchConfig, ConfigError>,
    fields: Vec<Field>,
    path: Seq<char>,
    i: int,
    list: Vec<Setting>,
    k: int,
    inner: Vec<Field>,
    n: int,
)
    requires
        parsed(r, Ok(Setting::Table(fields)), path),
        0 <= i < fields@.len(),
        fields@[i].name@ == "account"@,
        fields@[i].value == Setting::List(list),
        0 <= k < list@.len(),
        list@[k] == Setting::Table(inner),
        field(inner@, "target"@) is None || (0 <= n < inner@.len() && {
            let f = inner@[n];
            ||| f.name@ != "target"@ && f.name@ != "consent"@
            ||| f.name@ == "target"@ && !(f.value is Text)
        }),
    ensures
        r is Err,
{
    lemma_names();
    lemma_account_is_refused(inner@, inner@, n);
    lemma_account_in_a_list(list@, k);
    lemma_one_is_enough(fields@, i);
}

proof fn lemma_text_in_a_list(name: Seq<char>, list: Seq<Setting>, k: int)
    requires
        0 <= k < list.len(),
        !(list[k] is Text),
    ensures
        first_text_complaint(name, list) is Some,
    decreases list.len(),
{
    if k > 0 && text_complaint(name, list.first()) is None {
        assert(list.drop_first()[k - 1] == list[k]);
        lemma_text_in_a_list(name, list.drop_first(), k - 1);
    }
}

/// Days and times are texts, each of them: a list with anything else in it is refused.
pub proof fn days_and_times_are_texts(
    r: Result<WatchConfig, ConfigError>,
    fields: Vec<Field>,
    path: Seq<char>,
    i: int,
    list: Vec<Setting>,
    k: int,
)
    requires
        parsed(r, Ok(Setting::Table(fields)), path),
        0 <= i < fields@.len(),
        fields@[i].name@ == "at"@ || fields@[i].name@ == "on"@,
        fields@[i].value == Setting::List(list),
        0 <= k < list@.len(),
        !(list@[k] is Text),
    ensures
        r is Err,
{
    lemma_names();
    lemma_text_in_a_list(fields@[i].name@, list@, k);
    lemma_one_is_enough(fields@, i);
}

proof fn lemma_consent_is_refused(rest: Seq<Field>, all: Seq<Field>, i: int)
    requires
        field(all, "agreed_at"@) is None || (0 <= i < rest.len() && consent_field_complaint(rest[i])
            is Some),
    ensures
        consent_fields_complaint(rest, all) is Some,
    decreases rest.len(),
{
    if rest.len() > 0 && consent_field_complaint(rest.first()) is None {
        if i > 0 {
            assert(i < rest.len() ==> rest.drop_first()[i - 1] == rest[i]);
        }
        lemma_consent_is_refused(rest.drop_first(), all, i - 1);
    }
}

/// A consent that does not say when it was given is refused, and so is one that says anything
/// else, or a moment that is no number.
pub proof fn a_consent_that_is_refused(
    r: Result<WatchConfig, ConfigError>,
    fields: Vec<Field>,
    path: Seq<char>,
    i: int,
    list: Vec<Setting>,
    k: int,
    inner: Vec<Field>,
    n: int,
    given: Vec<Field>,
    m: int,
)
    requires
        parsed(r, Ok(Setting::Table(fields)), path),
        0 <= i < fields@.len(),
        fields@[i].name@ == "account"@,
        fields@[i].value == Setting::List(list),
        0 <= k < list@.len(),
        list@[k] == Setting::Table(inner),
        0 <= n < inner@.len(),
        inner@[n].name@ == "consent"@,
        inner@[n].value == Setting::Table(given),
        field(given@, "agreed_at"@) is None || (0 <= m < given@.len() && (given@[m].name@
            != "agreed_at"@ || !(given@[m].value is Number))),
    ensures
        r is Err,
{
    lemma_names();
    lemma_consent_is_refused(given@, given@, m);
    lemma_account_is_refused(inner@, inner@, n);
    lemma_account_in_a_list(list@, k);
    lemma_one_is_enough(fields@, i);
}

/// A webhook told as a list is told in the order address, headers, heartbeat, and an account as
/// a list in the order name, consent. What is left out at the end is as if it were not said.
pub proof fn a_list_tells_in_order(
    webhook: WebhookConfig,
    account: AccountConfig,
    list: Vec<Setting>,
)
    requires
        list@.len() > 0,
    ensures
        is_webhook_of(webhook, Setting::List(list)) ==> {
            &&& list@[0] == Setting::Text(webhook.url)
            &&& list@.len() == 1 ==> webhook.headers@.len() == 0
            &&& list@.len() <= 2 ==> !webhook.heartbeat
            &&& list@.len() > 2 && list@[2] is Flag ==> webhook.heartbeat == list@[2]->Flag_0
        },
        is_account_of(account, Setting::List(list)) ==> {
            &&& list@[0] == Setting::Text(account.target)
            &&& list@.len() == 1 ==> account.consent is None
            &&& list@.len() > 1 ==> account.consent is Some
        },
{
}

/// A file that was read whole is held to the shape it says it has: of another shape it is
/// refused as that. Otherwise it is held as it was read, or refused with what was said of it.
pub proof fn a_file_read_whole_is_held_as_it_was_read(
    r: Result<WatchConfig, ConfigError>,
    value: Setting,
    read: Result<WatchConfig, String>,
    path: Seq<char>,
)
    requires
        accepted(r, Ok(value), read, path),
        told_schema(value) is None || told_schema(value) == Some(1u32),
    ensures
        read matches Ok(config) ==> config.schema == 1 ==> r == Ok::<WatchConfig, ConfigError>(
            config,
        ),
        read matches Ok(config) ==> config.schema != 1 ==> r is Err,
        read is Err ==> (r matches Err(ConfigError::Invalid { path: p, message }) && p@ == path
            && message@ == (read->Err_0)@),
{
}

} // verus!
