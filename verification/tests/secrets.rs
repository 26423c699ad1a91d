use snob_core::paths::{AppPaths, Location, PathError, UserDirs};
use snob_core::secret::Secret;
use snob_core::secrets::{
    accept_session, after_probe, decrypted, protect, removed, session_kept, session_text,
    unprotect, unsealed, Backend, FileRemoval, KeyringAnswer, KeyringReply, KeyringWrite, Kind,
    Payload, Probe, Protection, SecretStore, SecretsError, Source, Stored, StoredSession,
    KEYRING_PROBE_USER, KEYRING_SERVICE,
};
use snob_core::session::{Session, SessionOrigin, MAX_KEYRING_SECRET_BYTES};

const UA: &str = "Mozilla/5.0 (Windows NT 10.0; Win64; x64) AppleWebKit/537.36 (KHTML, like Gecko) Chrome/138.0.0.0 Safari/537.36";
const SID: &str = "71234567890%3AAbCdEfGhIjKl%3A20";

fn session() -> Session {
    match Session::from_sessionid(SID, UA, SessionOrigin::Paste) {
        Ok(session) => session,
        Err(e) => panic!("{}", e.to_string()),
    }
}

fn paths() -> AppPaths {
    AppPaths::rooted_at(Location {
        root: "/".to_string(),
        names: vec!["tmp".to_string(), "test".to_string()],
    })
}

fn store(prefer_file: bool) -> SecretStore {
    SecretStore::new(paths(), prefer_file).with_service("snob-ig-test-1-1")
}

#[test]
fn tests_never_point_at_the_real_keyring() {
    let store = store(true);
    assert_ne!(store.service(), KEYRING_SERVICE);
    assert!(store.service().starts_with("snob-ig-test-"));
    assert_eq!(SecretStore::new(paths(), true).service(), KEYRING_SERVICE);
}

/// Every kind has an entry name, and no two share one.
#[test]
fn every_kind_has_a_name_of_its_own() {
    fn is_a_kind(kind: Kind) -> bool {
        match kind {
            Kind::Session | Kind::WatchToken | Kind::WatchSigningKey => true,
        }
    }
    assert!(Kind::ALL.into_iter().all(is_a_kind));
    assert_eq!(Kind::ALL.len(), 3, "a kind left `ALL`, so `purge` no longer removes it");

    let names: Vec<&str> = Kind::ALL.iter().map(|k| k.entry_name()).collect();
    let unique: std::collections::BTreeSet<_> = names.iter().collect();
    assert_eq!(names.len(), unique.len(), "two kinds share an entry: {names:?}");
    assert!(!names.contains(&KEYRING_PROBE_USER));
}

#[test]
fn the_backend_token_is_stable() {
    assert_eq!(Backend::Keyring.as_str(), "keyring");
    assert_eq!(Backend::File.as_str(), "file");
}

/// The list a purge walks: everything this tool has ever written.
#[test]
fn purging_takes_every_kind_of_secret_with_it() {
    let plan = store(true).delete_all();
    assert_eq!(plan.kinds, Kind::ALL.to_vec());
    assert_eq!(plan.files.len(), 2);
}

/// Logging out takes the session and nothing else.
#[test]
fn logging_out_leaves_the_monitors_secrets_alone() {
    let plan = store(true).delete();
    assert_eq!(plan.kinds, vec![Kind::Session]);
    assert_eq!(plan.files.len(), 2);
}

/// Saving to the file clears an earlier version's copy too, and spares the one
/// just written.
#[test]
fn saving_to_the_file_clears_an_earlier_versions_copy() {
    let store = store(true);
    let plan = store.save("{}");
    assert_eq!(plan.backend, Backend::File);
    assert!(plan.forget_entry);
    assert_eq!(plan.stale.len(), 1);
    assert!(plan.stale[0].same(&paths().legacy_session_file().unwrap()));
}

/// The keyring's size ceiling is the keyring's, not the file's.
#[test]
fn the_file_backend_does_not_shrink_to_fit_a_keyring() {
    let long = "x".repeat(MAX_KEYRING_SECRET_BYTES);
    assert!(!store(true).save(&long).minimal);
    let keyring = store(false).save(&long);
    assert!(keyring.minimal);
    assert!(!keyring.forget_entry);
    assert_eq!(keyring.stale.len(), 2);
    assert!(!store(false).save(&"x".repeat(MAX_KEYRING_SECRET_BYTES / 2)).minimal);
}

/// The promise of the check: whatever backend it names is where the session
/// lands, and a machine with no keyring gets the file.
#[test]
fn the_session_lands_where_the_probe_said_it_would() {
    let store = store(false);
    assert_eq!(store.probe_writable(), Probe::Try(Backend::Keyring));
    assert_eq!(after_probe(Backend::Keyring, Ok(())), Probe::Lands(Backend::Keyring));
    let none = SecretsError::KeyringUnavailable("no bus".to_string());
    assert_eq!(after_probe(Backend::Keyring, Err(none)), Probe::Try(Backend::File));
    assert_eq!(after_probe(Backend::File, Ok(())), Probe::Lands(Backend::File));
    let no_home = SecretsError::Paths(PathError::NoHome);
    assert_eq!(
        after_probe(Backend::File, Err(no_home)),
        Probe::Fails(SecretsError::Paths(PathError::NoHome))
    );
    let store = store.using(Backend::File);
    assert_eq!(store.backend(), Backend::File);
    assert_eq!(store.save("{}").backend, Backend::File);
}

#[test]
fn with_no_session_stored_it_returns_none() {
    let store = store(true);
    assert!(matches!(store.load(KeyringAnswer::NoEntry, false, false), Source::Nowhere));
    assert!(!store.something_is_stored(&Ok(None)));
    assert!(store.something_is_stored(&Ok(Some(session()))));
    assert!(
        store.something_is_stored(&Err(SecretsError::Corrupt("half a file".to_string()))),
        "a session too corrupt to read is still on the disk"
    );
}

#[test]
fn a_session_in_the_legacy_location_is_rescued() {
    let store = store(true);
    assert!(matches!(store.load(KeyringAnswer::NoEntry, false, true), Source::Legacy));
    assert!(matches!(store.load(KeyringAnswer::NoEntry, true, true), Source::File));
    let one = Location { root: "/".to_string(), names: vec!["a".to_string(), "b".to_string()] };
    let dirs = UserDirs { config: one.clone(), local_data: one.clone(), roaming_data: one };
    let Ok(paths) = AppPaths::discover(Some(dirs)) else {
        panic!("there is a home");
    };
    let single = SecretStore::new(paths, true);
    assert!(matches!(single.load(KeyringAnswer::NoEntry, false, true), Source::Nowhere));
}

#[test]
fn a_keyring_that_refuses_sends_the_search_to_the_file() {
    for answer in [
        KeyringAnswer::Refused("locked".to_string()),
        KeyringAnswer::Unavailable("none".to_string()),
    ] {
        assert!(matches!(store(false).load(answer, true, false), Source::File));
    }
    let given = KeyringAnswer::Value(Secret::from("json"));
    assert!(
        matches!(store(true).load(given, true, true), Source::Keyring(s) if s.expose() == "json"),
        "the keyring is read first, whatever the backend"
    );
}

#[test]
fn a_stored_secret_reads_back_and_can_be_forgotten() {
    let store = store(false);
    let Ok(found) = store.load_secret(KeyringAnswer::Value(Secret::from("Bearer abc"))) else {
        panic!("it was there");
    };
    assert!(!found.is_unreachable());
    assert_eq!(found.found().unwrap().expose(), "Bearer abc");
    assert!(matches!(store.load_secret(KeyringAnswer::NoEntry), Ok(Stored::Nothing)));
    let Ok(unreachable) = store.load_secret(KeyringAnswer::Unavailable("no bus".to_string()))
    else {
        panic!("not an error: the tool works without one");
    };
    assert!(unreachable.is_unreachable());
    assert!(unreachable.found().is_none());
    assert!(matches!(
        store.load_secret(KeyringAnswer::Refused("locked".to_string())),
        Err(SecretsError::KeyringRefused(_))
    ));
    for gone in [
        KeyringReply::Done,
        KeyringReply::NoEntry,
        KeyringReply::Unavailable("no bus".to_string()),
    ] {
        assert!(store.forget_secret(gone).is_ok());
    }
    assert!(store.forget_secret(KeyringReply::Refused("locked".to_string())).is_err());
    assert!(store.save_secret(Kind::WatchToken, KeyringWrite::Done).is_ok());
    assert_eq!(
        store.save_secret(Kind::WatchToken, KeyringWrite::Unavailable("no bus".to_string())),
        Err(SecretsError::KeyringUnavailable("no bus".to_string()))
    );
    assert_eq!(
        store.save_secret(Kind::WatchSigningKey, KeyringWrite::Refused("full".to_string())),
        Err(SecretsError::KeyringRefused("full".to_string()))
    );
    assert_eq!(session_kept(KeyringWrite::Done), Ok(()));
    for reply in [
        KeyringWrite::Unavailable("no bus".to_string()),
        KeyringWrite::Refused("no bus".to_string()),
    ] {
        assert_eq!(
            session_kept(reply),
            Err(SecretsError::KeyringUnavailable("no bus".to_string()))
        );
    }
}

#[test]
fn nothing_stored_is_not_a_refusal() {
    let replies = vec![KeyringReply::NoEntry, KeyringReply::Unavailable("no bus".to_string())];
    let files = vec![FileRemoval { path: "/a".to_string(), refusal: None }];
    assert_eq!(removed(&replies, &files), Ok(()));
}

#[test]
fn a_copy_that_will_not_go_is_reported_and_does_not_stop_the_others() {
    let replies = vec![KeyringReply::Done, KeyringReply::Refused("locked".to_string())];
    let fine = vec![FileRemoval { path: "/a".to_string(), refusal: None }];
    assert_eq!(
        removed(&replies, &fine),
        Err(SecretsError::KeyringRefused("locked".to_string()))
    );
    let stuck = vec![
        FileRemoval { path: "/a".to_string(), refusal: None },
        FileRemoval { path: "/b".to_string(), refusal: Some("is a directory".to_string()) },
        FileRemoval { path: "/c".to_string(), refusal: Some("busy".to_string()) },
    ];
    assert_eq!(
        removed(&replies, &stuck),
        Err(SecretsError::Write {
            path: "/b".to_string(),
            source: "is a directory".to_string()
        }),
        "the file's sentence names a path somebody can go and delete by hand"
    );
}

#[test]
fn the_monitors_secrets_are_named_and_the_session_is_not() {
    let found = || Ok(Stored::Found(Secret::from("x")));
    let store = store(false);
    assert_eq!(
        store.monitor_secrets_stored(&vec![
            (Kind::Session, found()),
            (Kind::WatchToken, found()),
            (Kind::WatchSigningKey, found()),
        ]),
        vec![Kind::WatchToken, Kind::WatchSigningKey]
    );
    assert_eq!(
        store.monitor_secrets_stored(&vec![
            (Kind::WatchToken, Ok(Stored::Nothing)),
            (Kind::WatchSigningKey, found()),
        ]),
        vec![Kind::WatchSigningKey]
    );
    let refused = Err(SecretsError::KeyringRefused("locked".to_string()));
    assert_eq!(
        store.monitor_secrets_stored(&vec![
            (Kind::WatchToken, refused),
            (Kind::WatchSigningKey, Ok(Stored::Unreachable)),
        ]),
        vec![]
    );
}

#[test]
fn a_file_protected_elsewhere_gives_a_clear_error() {
    let sealed = protect("json", Some(b"any"));
    assert_eq!(sealed.protection, Protection::Dpapi);
    let Err(e) = unprotect(sealed, false) else {
        panic!("it cannot be opened here");
    };
    assert_eq!(
        e.to_string(),
        "the stored session is corrupt: the session is DPAPI-protected and this system is not Windows"
    );
}

#[test]
fn what_was_protected_opens_again() {
    let plain = protect("json", None);
    assert_eq!(plain.protection, Protection::Plain);
    assert_eq!(plain.payload.expose(), "json");
    assert!(matches!(unprotect(plain, false), Ok(Payload::Session(s)) if s.expose() == "json"));

    let sealed = protect("json", Some(&[0xfb, 0xff, 0x00, 0x61]));
    assert_eq!(sealed.payload.expose(), "+/8AYQ==", "the standard alphabet, padded");
    let Ok(Payload::Encrypted(bytes)) = unprotect(sealed, true) else {
        panic!("it was sealed on a system like this one");
    };
    assert_eq!(bytes, vec![0xfb, 0xff, 0x00, 0x61]);
}

#[test]
fn a_payload_that_is_not_what_it_says_is_corrupt() {
    let garbled = StoredSession { protection: Protection::Dpapi, payload: Secret::from("b64!") };
    let Err(e) = unprotect(garbled, true) else {
        panic!("not base64");
    };
    assert!(e.to_string().starts_with("the stored session is corrupt: invalid base64: "));
    assert_eq!(decrypted("caf\u{e9}".as_bytes().to_vec()).ok().unwrap().expose(), "caf\u{e9}");
    let Err(e) = decrypted(vec![0x66, 0xff]) else {
        panic!("not UTF-8");
    };
    assert!(e.to_string().starts_with("the stored session is corrupt: not valid UTF-8: "));
    assert!(matches!(
        unsealed(Err("odd length".to_string())),
        Err(SecretsError::Corrupt(why)) if why == "invalid base64: odd length"
    ));
    assert!(matches!(unsealed(Ok(vec![7])), Ok(Payload::Encrypted(bytes)) if bytes == vec![7]));
    assert!(matches!(
        session_text(Err("at 1".to_string())),
        Err(SecretsError::Corrupt(why)) if why == "not valid UTF-8: at 1"
    ));
}

#[test]
fn a_session_of_a_newer_format_is_not_accepted() {
    assert!(accept_session(session()).is_ok());
    let mut newer = session();
    newer.schema_version = 9;
    let Err(e) = accept_session(newer) else {
        panic!("this version does not understand it");
    };
    assert_eq!(
        e.to_string(),
        "the stored session is corrupt: the stored session uses format 9, and this version understands 1"
    );
}

#[test]
fn where_the_session_lives_is_told_both_ways() {
    assert_eq!(store(false).describe('/'), "system keyring");
    assert_eq!(store(false).storage_path('/'), None);
    assert_eq!(store(true).describe('/'), "file /tmp/test/data/session.json");
    assert_eq!(store(true).storage_path('/'), Some("/tmp/test/data/session.json".to_string()));
    assert!(store(true).paths().data_dir().same(paths().data_dir()));
}

#[test]
fn what_went_wrong_with_a_secret_is_named() {
    assert_eq!(
        SecretsError::KeyringUnavailable("no bus".to_string()).to_string(),
        "the system keyring is unavailable: no bus"
    );
    assert_eq!(
        SecretsError::KeyringRefused("locked".to_string()).to_string(),
        "the system keyring would not delete the stored session: locked"
    );
    assert_eq!(
        SecretsError::Read { path: "/a".to_string(), source: "no".to_string() }.to_string(),
        "could not read /a: no"
    );
    assert_eq!(
        SecretsError::Dpapi { operation: "encrypt".to_string(), code: 5 }.to_string(),
        "could not encrypt the session with DPAPI (code 5)"
    );
    assert_eq!(
        SecretsError::Paths(PathError::NoHome).to_string(),
        PathError::NoHome.to_string()
    );
}

/// What a purge is told to take, and what is found where all of it went.
#[test]
fn after_a_purge_there_is_nothing_to_find() {
    for prefer_file in [false, true] {
        let store = store(prefer_file);
        let plan = store.delete_all();
        assert_eq!(plan.kinds, Kind::ALL.to_vec());
        let places = store.paths().session_files();
        assert_eq!(plan.files.len(), places.len());
        assert!(plan.files.iter().zip(&places).all(|(file, place)| file.same(place)));

        let replies = vec![KeyringReply::Done, KeyringReply::NoEntry, KeyringReply::Done];
        let files: Vec<FileRemoval> = plan
            .files
            .iter()
            .map(|_| FileRemoval { path: "/a".to_string(), refusal: None })
            .collect();
        assert_eq!(removed(&replies, &files), Ok(()));
        assert!(matches!(store.load(KeyringAnswer::NoEntry, false, false), Source::Nowhere));
        for _ in Kind::ALL {
            assert!(matches!(store.load_secret(KeyringAnswer::NoEntry), Ok(Stored::Nothing)));
        }
        let again = vec![KeyringReply::NoEntry, KeyringReply::NoEntry, KeyringReply::NoEntry];
        assert_eq!(removed(&again, &files), Ok(()));
    }
}
