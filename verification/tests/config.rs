use std::time::Duration;

use snob_core::paths::PathError;
use snob_core::watch::config::document::{document, Field, Setting};
use snob_core::watch::config::written::quote;
use snob_core::watch::config::{
    parse, parse_document, parse_read, read_config, template, ConfigError, WatchConfig, SCHEMA,
};

fn at(text: &str) -> Result<WatchConfig, ConfigError> {
    parse(text, "watch.toml")
}

fn refused(text: &str) -> ConfigError {
    match at(text) {
        Ok(_) => panic!("it should be refused: {text}"),
        Err(e) => e,
    }
}

#[test]
fn it_reads_an_interval_and_a_webhook() {
    let config = at(r#"
schema = 1
every = "6h"
jitter = "15m"

[webhook]
url = "https://n8n.local/webhook/snob"
heartbeat = true

[webhook.headers]
"X-Source" = "homelab"
"#)
    .unwrap();

    assert_eq!(config.every, Some(Duration::from_secs(21_600)));
    assert_eq!(config.jitter, Some(Duration::from_secs(900)));
    let webhook = config.webhook.unwrap();
    assert_eq!(webhook.url, "https://n8n.local/webhook/snob");
    assert!(webhook.heartbeat);
    assert_eq!(webhook.header("X-Source"), Some("homelab"));
    assert_eq!(webhook.header("X-Other"), None);
}

#[test]
fn it_reads_a_calendar() {
    let config = at(r#"
schema = 1
on = ["mon", "thu"]
at = ["09:00", "21:00"]
"#)
    .unwrap();
    assert_eq!(config.on, vec!["mon", "thu"]);
    assert_eq!(config.at, vec!["09:00", "21:00"]);
}

/// A typo in a file that drives something unattended for months would otherwise
/// be a schedule nobody is running.
#[test]
fn a_key_that_is_not_a_key_is_refused_rather_than_ignored() {
    let error = refused("schema = 1\nevry = \"6h\"\n");
    assert!(matches!(error, ConfigError::Invalid { .. }), "{}", error.to_string());
    assert!(error.to_string().contains("evry"), "{}", error.to_string());
}

/// A newer file is refused as what it is rather than as a missing key.
#[test]
fn a_file_from_a_newer_version_says_so() {
    let error = refused("schema = 99\n");
    assert!(
        matches!(error, ConfigError::Unknown { found: 99, .. }),
        "{}",
        error.to_string()
    );
    assert!(error.to_string().contains("update"), "{}", error.to_string());

    let error = refused("schema = 2\nsomething_new = true\nevery = 6\n");
    assert!(
        matches!(error, ConfigError::Unknown { found: 2, .. }),
        "whatever else it holds: {}",
        error.to_string()
    );
    assert!(matches!(refused("schema = \"2\"\n"), ConfigError::Invalid { .. }));
    assert!(matches!(refused("schema = -1\n"), ConfigError::Invalid { .. }));
}

#[test]
fn a_duration_that_is_not_one_is_refused_where_it_is_written() {
    let error = refused("schema = 1\nevery = \"six hours\"\n");
    assert!(
        error.to_string().contains("not a valid duration"),
        "{}",
        error.to_string()
    );
}

/// The record has to say somebody answered, not merely that the answer is yes.
#[test]
fn a_third_party_carries_when_it_was_agreed_to() {
    let config = at(r#"
schema = 1
every = "6h"

[[account]]
target = "self"

[[account]]
target = "someone"
[account.consent]
agreed_at = 1786925176
"#)
    .unwrap();

    assert_eq!(config.accounts.len(), 2);
    assert!(config.accounts[0].is_own());
    assert!(config.accounts[0].consent.is_none());
    assert_eq!(config.accounts[1].consent.unwrap().agreed_at, 1_786_925_176);
}

/// The template is written by hand so it can explain itself, which means nothing
/// but a test stops it drifting away from the parser.
#[test]
fn what_the_template_writes_is_what_the_parser_reads() {
    let text = template(
        "every = \"6h\"",
        Some(Duration::from_secs(900)),
        Some("https://n8n.local/webhook/snob"),
        true,
        &[("X-Source".into(), "homelab".into())],
        &[("self".into(), None), ("someone".into(), Some(1_700))],
        true,
    );

    let config = at(&text).expect("the template has to parse");
    assert_eq!(config.every, Some(Duration::from_secs(21_600)));
    assert_eq!(config.jitter, Some(Duration::from_secs(900)));
    assert!(config.webhook.as_ref().unwrap().heartbeat);
    assert_eq!(config.accounts.len(), 2);
    assert_eq!(config.accounts[1].consent.unwrap().agreed_at, 1_700);
}

#[test]
fn a_calendar_template_parses_too() {
    let text = template(
        "on = [\"mon\", \"thu\"]\nat = [\"09:00\"]",
        None,
        None,
        false,
        &[],
        &[("self".into(), None)],
        false,
    );
    let config = at(&text).unwrap();
    assert_eq!(config.on, vec!["mon", "thu"]);
    assert_eq!(config.at, vec!["09:00"]);
}

/// A URL or a header value with a quote in it has to survive the round trip.
#[test]
fn a_value_with_a_quote_in_it_survives_being_written() {
    let text = template(
        "every = \"6h\"",
        None,
        Some(r#"https://example.com/a"b\c"#),
        false,
        &[("X-Odd".into(), "a\"b".into())],
        &[],
        false,
    );
    let config = at(&text).unwrap();
    let webhook = config.webhook.unwrap();
    assert_eq!(webhook.url, r#"https://example.com/a"b\c"#);
    assert_eq!(webhook.header("X-Odd"), Some("a\"b"));
}

/// A file with only a schedule is complete.
#[test]
fn a_schedule_on_its_own_is_a_whole_file() {
    let config = at("schema = 1\nevery = \"6h\"\n").unwrap();
    assert!(config.webhook.is_none());
    assert!(config.accounts.is_empty());
}

#[test]
fn what_is_left_out_has_a_value_of_its_own() {
    let config = at("").unwrap();
    assert_eq!(config.schema, SCHEMA);
    assert_eq!(config.every, None);
    assert!(config.at.is_empty() && config.on.is_empty());
    assert_eq!(config.cron, None);
    let config = at("cron = \"0 9 * * 1\"\n[webhook]\nurl = \"u\"\n").unwrap();
    assert_eq!(config.cron, Some("0 9 * * 1".to_string()));
    let webhook = config.webhook.unwrap();
    assert!(!webhook.heartbeat);
    assert!(webhook.headers.is_empty());
}

#[test]
fn a_file_of_the_wrong_shape_is_refused() {
    for bad in [
        "every = 6",
        "every = ",
        "at = \"09:00\"",
        "at = [9]",
        "cron = 1.5",
        "schema = -1",
        "schema = \"1\"",
        "jitter = 1979-05-27",
        "webhook = true",
        "[webhook]\nheartbeat = true",
        "[webhook]\nurl = \"u\"\nheartbeat = \"yes\"",
        "[webhook]\nurl = \"u\"\nextra = 1",
        "[webhook]\nurl = \"u\"\n[webhook.headers]\nA = 1",
        "[account]\ntarget = \"self\"",
        "[[account]]",
        "[[account]]\ntarget = \"self\"\nconsent = true",
        "[[account]]\ntarget = \"self\"\n[account.consent]\n",
        "[[account]]\ntarget = \"self\"\n[account.consent]\nagreed_at = \"now\"",
        "[[account]]\ntarget = \"self\"\n[account.consent]\nagreed_at = 1\nby = \"me\"",
    ] {
        assert!(matches!(refused(bad), ConfigError::Invalid { .. }), "{bad}");
    }
}

#[test]
fn a_document_is_read_value_by_value() {
    let read = document("b = [1, \"two\", true]\na = 1.5\n[c]\nd = 1979-05-27\n").unwrap();
    let field = |name: &str, value: Setting| Field { name: name.to_string(), value };
    assert_eq!(
        read,
        Setting::Table(vec![
            field("a", Setting::Fraction),
            field(
                "b",
                Setting::List(vec![
                    Setting::Number(1),
                    Setting::Text("two".to_string()),
                    Setting::Flag(true),
                ])
            ),
            field("c", Setting::Table(vec![field("d", Setting::Moment)])),
        ])
    );
    assert!(document("= 1").is_err());
}

#[test]
fn the_first_thing_wrong_is_what_is_said() {
    let field = |name: &str, value: Setting| Field { name: name.to_string(), value };
    let fields = Setting::Table(vec![field("every", Setting::Number(6)), field("evry", Setting::Moment)]);
    assert_eq!(
        read_config(&fields).unwrap_err(),
        "invalid type for `every`: integer, expected a string"
    );
    let Err(e) = parse_document(Ok(Setting::Table(vec![field("evry", Setting::Moment)])), "w.toml")
    else {
        panic!("it is not a key");
    };
    assert_eq!(
        e.to_string(),
        "w.toml could not be read: unknown field `evry`, expected one of `schema`, `every`, `at`, `on`, `cron`, `jitter`, `webhook`, `account`"
    );
    let Err(e) = parse_document(Err("nonsense".to_string()), "w.toml") else {
        panic!("there is no document");
    };
    assert_eq!(e.to_string(), "w.toml could not be read: nonsense");
}

#[test]
fn a_quoted_value_reads_back_through_the_parser() {
    for value in ["", "plain", "a\"b", "back\\slash", "line\nbreak\r\ttab", "\\n", "a\u{1}b\u{1b}[0m\u{7f}"] {
        let text = format!("cron = {}\n", quote(value));
        assert_eq!(at(&text).unwrap().cron, Some(value.to_string()), "{text}");
    }
    assert_eq!(quote("a\"b\\c\nd"), "\"a\\\"b\\\\c\\nd\"");
    assert_eq!(quote("\u{1b}\u{7f}"), "\"\\u001b\\u007f\"");
}

#[test]
fn a_target_is_ones_own_in_any_case() {
    let config = at("[[account]]\ntarget = \"SeLf\"\n[[account]]\ntarget = \"selfie\"\n").unwrap();
    assert!(config.accounts[0].is_own());
    assert!(!config.accounts[1].is_own());
}

#[test]
fn what_went_wrong_with_the_file_is_named() {
    assert_eq!(
        refused("schema = 2").to_string(),
        "watch.toml says it is schema 2, and this version of snob understands 1.\nIt was probably written by a newer snob; update, or move that file aside."
    );
    assert_eq!(
        ConfigError::Read { path: "w".to_string(), source: "no".to_string() }.to_string(),
        "could not read w: no"
    );
    assert_eq!(
        ConfigError::Write { path: "w".to_string(), source: "no".to_string() }.to_string(),
        "could not write w: no"
    );
    assert_eq!(
        ConfigError::Paths(PathError::NoHome).to_string(),
        PathError::NoHome.to_string()
    );
}

#[test]
fn the_template_is_the_documented_text() {
    assert_eq!(
        template(
            "every = \"6h\"",
            Some(Duration::from_secs(0)),
            Some("u"),
            false,
            &[("A".into(), "b".into())],
            &[("self".into(), None), ("x".into(), Some(-5))],
            true,
        ),
        "# snob watch. Written by \"snob watch setup\", and safe to edit by hand.\n\
         #\n\
         # Times are your local ones. Durations are written the way you would say\n\
         # them: 30m, 6h, 2d, 2w.\n\
         \n\
         schema = 1\n\
         \n\
         # When to run.\n\
         every = \"6h\"\n\
         \n\
         # How far each run may be pushed past its due moment, so the walks do\n\
         # not start on the same second every day. \"0\" turns it off.\n\
         jitter = \"0\"\n\
         \n\
         [webhook]\n\
         url = \"u\"\n\
         # Send a report even when nothing changed, so something watching for\n\
         # silence can tell \"nothing happened\" from \"it stopped running\".\n\
         heartbeat = false\n\
         # The body is signed: the key is in the system keyring, not here.\n\
         # So is any token below that you gave to \"snob watch setup\".\n\
         \n\
         [webhook.headers]\n\
         \"A\" = \"b\"\n\
         \n\
         [[account]]\n\
         target = \"self\"\n\
         \n\
         [[account]]\n\
         target = \"x\"\n\
         # You were asked whether this may read that account's lists, and you\n\
         # said yes. A scheduled run cannot ask, so it reads this instead.\n\
         [account.consent]\n\
         agreed_at = -5\n"
    );
}

/// The document in a written file, value by value.
#[test]
fn a_written_file_holds_what_it_was_written_from() {
    let field = |name: &str, value: Setting| Field { name: name.to_string(), value };
    let text = |value: &str| Setting::Text(value.to_string());
    for signed in [true, false] {
        let file = template(
            "every = \"6h\"",
            Some(Duration::from_secs(900)),
            Some("https://x/\"\\\u{1}"),
            true,
            &[("X-B".into(), "two\nlines".into()), ("X A".into(), "one".into())],
            &[("self".into(), None), ("some\tone".into(), Some(-1_700))],
            signed,
        );
        assert_eq!(
            document(&file).unwrap(),
            Setting::Table(vec![
                field(
                    "account",
                    Setting::List(vec![
                        Setting::Table(vec![field("target", text("self"))]),
                        Setting::Table(vec![
                            field(
                                "consent",
                                Setting::Table(vec![field("agreed_at", Setting::Number(-1_700))])
                            ),
                            field("target", text("some\tone")),
                        ]),
                    ])
                ),
                field("every", text("6h")),
                field("jitter", text("15m")),
                field("schema", Setting::Number(1)),
                field(
                    "webhook",
                    Setting::Table(vec![
                        field(
                            "headers",
                            Setting::Table(vec![
                                field("X A", text("one")),
                                field("X-B", text("two\nlines")),
                            ])
                        ),
                        field("heartbeat", Setting::Flag(true)),
                        field("url", text("https://x/\"\\\u{1}")),
                    ])
                ),
            ])
        );
    }
    let bare = template("cron = \"0 9 * * 1\"", None, None, true, &[("A".into(), "b".into())], &[], true);
    assert_eq!(
        document(&bare).unwrap(),
        Setting::Table(vec![
            field("cron", text("0 9 * * 1")),
            field("schema", Setting::Number(1)),
        ])
    );
}

/// The values of a webhook, an account or a consent may be listed in order.
#[test]
fn values_listed_in_order_are_read_as_fields() {
    let config = at("webhook = [\"https://x\", { A = \"b\" }, true]").unwrap();
    let webhook = config.webhook.unwrap();
    assert_eq!(webhook.url, "https://x");
    assert_eq!(webhook.header("A"), Some("b"));
    assert!(webhook.heartbeat);
    // What is left out has its own value, and what is listed behind is not read.
    let webhook = at("webhook = [\"https://x\"]").unwrap().webhook.unwrap();
    assert!(webhook.headers.is_empty() && !webhook.heartbeat);
    let webhook = at("webhook = [\"u\", {}, false, 7]").unwrap().webhook.unwrap();
    assert!(!webhook.heartbeat);

    let config = at("account = [[\"self\"], [\"someone\", [1_700]], [\"other\", { agreed_at = 5 }]]")
        .unwrap();
    assert_eq!(config.accounts.len(), 3);
    assert!(config.accounts[0].is_own() && config.accounts[0].consent.is_none());
    assert_eq!(config.accounts[1].consent.unwrap().agreed_at, 1_700);
    assert_eq!(config.accounts[2].target, "other");
    assert_eq!(config.accounts[2].consent.unwrap().agreed_at, 5);

    for (bad, why) in [
        ("webhook = []", "invalid length 0, expected struct WebhookConfig with 3 elements"),
        ("webhook = [1]", "invalid type for `url`: integer, expected a string"),
        ("webhook = [\"u\", [\"a\"]]", "invalid type for `headers`: sequence, expected a map"),
        ("webhook = [\"u\", {}, 1]", "invalid type for `heartbeat`: integer, expected a boolean"),
        ("account = [[]]", "invalid length 0, expected struct AccountConfig with 2 elements"),
        (
            "[[account]]\ntarget = \"a\"\nconsent = []",
            "invalid length 0, expected struct ConsentConfig with 1 element",
        ),
        (
            "account = [[\"a\", [true]]]",
            "invalid type for `agreed_at`: boolean, expected i64",
        ),
    ] {
        assert_eq!(
            refused(bad).to_string(),
            format!("watch.toml could not be read: {why}"),
            "{bad}"
        );
    }
}

#[test]
fn a_file_the_parser_has_read_is_taken_at_its_word() {
    let text = "every = \"6h\"\n";
    let config = at(text).unwrap();
    assert_eq!(parse_read(text, Ok(config.clone()), "w.toml"), Ok(config.clone()));

    // What the parser says is said as it says it.
    let words = "TOML parse error at line 1, column 9\n  |\n1 | every = 6\n  |         ^\ninvalid type: integer `6`, expected a string\n";
    assert_eq!(
        parse_read("every = 6\n", Err(words.to_string()), "w.toml"),
        Err(ConfigError::Invalid { path: "w.toml".to_string(), message: words.to_string() })
    );

    // The shape of the file goes first, whatever the parser made of the rest.
    let unknown = |found| Err(ConfigError::Unknown { path: "w.toml".to_string(), found });
    assert_eq!(parse_read("schema = 2\nnew = 1\n", Err("no".to_string()), "w.toml"), unknown(2));
    let other = WatchConfig { schema: 3, ..config };
    assert_eq!(parse_read("", Ok(other), "w.toml"), unknown(3));
}
