use snob_core::clock::Epoch;
use snob_core::secret::Secret;
use snob_core::session::{
    clean_sessionid, keyring_bytes, Session, SessionError, SessionOrigin, MAX_KEYRING_SECRET_BYTES,
    SESSION_SCHEMA_VERSION,
};

const UA: &str = "Mozilla/5.0 (Windows NT 10.0; Win64; x64) AppleWebKit/537.36 (KHTML, like Gecko) Chrome/138.0.0.0 Safari/537.36";
const SID: &str = "71234567890%3AAbCdEfGhIjKl%3A20%3AAYc123";

fn session() -> Session {
    made(SID, UA)
}

fn made(sessionid: &str, ua: &str) -> Session {
    match Session::from_sessionid(sessionid, ua, SessionOrigin::Paste) {
        Ok(session) => session,
        Err(e) => panic!("\"{sessionid}\" should be accepted, but failed: {}", e.to_string()),
    }
}

fn refused(sessionid: &str, ua: &str) -> SessionError {
    match Session::from_sessionid(sessionid, ua, SessionOrigin::Paste) {
        Ok(_) => panic!("\"{sessionid}\" should be rejected"),
        Err(e) => e,
    }
}

#[test]
fn the_account_id_is_taken_from_the_sessionid() {
    assert_eq!(session().ds_user_id.get(), 71234567890);
}

#[test]
fn an_unescaped_colon_is_accepted() {
    let s = made("71234567890:AbCd:20", UA);
    assert_eq!(s.ds_user_id.get(), 71234567890);
}

#[test]
fn it_tolerates_how_people_paste() {
    for input in [
        "  71234567890%3AAbCd%3A20  ",
        "sessionid=71234567890%3AAbCd%3A20",
        "\"71234567890%3AAbCd%3A20\"",
        "71234567890%3AAbCd%3A20;",
    ] {
        let s = made(input, UA);
        assert_eq!(s.ds_user_id.get(), 71234567890);
        assert_eq!(s.sessionid.expose(), "71234567890%3AAbCd%3A20");
    }
}

#[test]
fn an_invalid_sessionid_is_rejected() {
    for input in ["", "   ", "noseparator", "%3Anoprefix", "abc%3Adef"] {
        assert!(
            Session::from_sessionid(input, UA, SessionOrigin::Paste).is_err(),
            "\"{input}\" should be rejected"
        );
    }
    assert_eq!(refused("   ", UA), SessionError::EmptySessionId);
    assert_eq!(refused("noseparator", UA), SessionError::MalformedSessionId);
}

#[test]
fn a_user_agent_that_is_not_a_browser_is_rejected() {
    assert!(matches!(refused(SID, "curl/8.0"), SessionError::SuspiciousUserAgent));
    assert!(matches!(refused(SID, "  "), SessionError::EmptyUserAgent));
    let long = format!("Mozilla/5.0 {}", "x".repeat(600));
    assert!(matches!(refused(SID, &long), SessionError::UserAgentTooLong(_)));
}

#[test]
fn the_sessionid_travels_undecoded_in_the_cookie() {
    let header = session().cookie_header();
    assert!(header
        .expose()
        .contains("sessionid=71234567890%3AAbCdEfGhIjKl%3A20%3AAYc123"));
    assert!(header.expose().contains("ds_user_id=71234567890"));
}

#[test]
fn the_cookie_omits_absent_fields() {
    let header = session().cookie_header();
    assert!(!header.expose().contains("csrftoken"));
    assert!(!header.expose().contains("mid="));
}

/// A cookie sent with an empty value is worse than one not sent at all.
#[test]
fn no_cookie_is_ever_sent_with_an_empty_value() {
    let mut s = session();
    s.csrftoken = Some(Secret::new(String::new()));
    s.mid = Some(String::new());
    s.ig_did = Some(String::new());

    let header = s.cookie_header();
    for pair in header.expose().split("; ") {
        let (name, value) = pair.split_once('=').expect("every cookie is a pair");
        assert!(!value.is_empty(), "{name} went out empty: {}", header.expose());
    }
}

#[test]
fn the_whole_cookie_is_spelled_in_order() {
    let mut s = session();
    s.csrftoken = Some(Secret::from("tok"));
    s.mid = Some("m1".to_string());
    s.ig_did = Some("d1".to_string());
    assert_eq!(
        s.cookie_header().expose(),
        "sessionid=71234567890%3AAbCdEfGhIjKl%3A20%3AAYc123; ds_user_id=71234567890; csrftoken=tok; mid=m1; ig_did=d1"
    );
}

/// The machine-readable token must not follow the human wording around.
#[test]
fn the_origin_token_is_independent_of_its_display_text() {
    assert_eq!(SessionOrigin::Paste.as_str(), "paste");
    assert_eq!(SessionOrigin::Paste.to_string(), "manual paste");
    assert_eq!(SessionOrigin::Browser.as_str(), "browser");
    assert_eq!(SessionOrigin::Browser.to_string(), "browser");
}

/// Windows measures the secret in UTF-16 bytes, not in characters. A character
/// outside the Basic Multilingual Plane is four bytes.
#[test]
fn the_ceiling_is_measured_the_way_windows_measures_it() {
    assert_eq!(keyring_bytes("abc"), 6);
    // Two UTF-16 units, one character.
    assert_eq!("\u{1f600}".chars().count(), 1);
    assert_eq!(keyring_bytes("\u{1f600}"), 4);

    // A string of exactly the ceiling in characters would have been accepted by
    // a count of characters and refused by Windows.
    let past_the_ceiling = "\u{1f600}".repeat(MAX_KEYRING_SECRET_BYTES / 4 + 1);
    assert!(past_the_ceiling.chars().count() < MAX_KEYRING_SECRET_BYTES);
    assert!(keyring_bytes(&past_the_ceiling) > MAX_KEYRING_SECRET_BYTES);
}

#[test]
fn a_newer_format_than_we_understand_is_rejected() {
    let mut s = session();
    assert!(s.check_schema().is_ok());
    s.schema_version = SESSION_SCHEMA_VERSION + 1;
    assert!(matches!(s.check_schema(), Err(SessionError::UnsupportedSchema { .. })));
}

#[test]
fn a_session_is_dated_and_marked_by_the_moment() {
    let at = Epoch::new(1_722_700_000);
    let Ok(mut s) = Session::from_sessionid_at(SID, UA, SessionOrigin::Browser, at) else {
        panic!("it should be accepted");
    };
    assert_eq!(s.created_at, 1_722_700_000);
    assert_eq!(s.validated_at, None);
    s.mark_validated_at(Epoch::new(1_722_700_060));
    assert_eq!(s.validated_at, Some(1_722_700_060));
    s.mark_validated();
    assert!(s.validated_at.unwrap() > 1_722_700_060);
    assert!(session().created_at > 1_600_000_000);
}

#[test]
fn the_reduced_session_keeps_what_it_cannot_work_without() {
    let mut s = session();
    s.username = Some("someone".to_string());
    s.csrftoken = Some(Secret::from("tok"));
    s.mid = Some("m1".to_string());
    s.ig_did = Some("d1".to_string());
    s.browser = Some("Chrome".to_string());
    let small = s.minimal();
    assert!(small.username.is_none() && small.csrftoken.is_none());
    assert!(small.mid.is_none() && small.ig_did.is_none());
    assert_eq!(small.sessionid.expose(), s.sessionid.expose());
    assert_eq!(small.user_agent, s.user_agent);
    assert_eq!(small.browser, s.browser);
    assert_eq!(small.ds_user_id, s.ds_user_id);
}

#[test]
fn a_refusal_says_what_is_wrong() {
    assert_eq!(SessionError::EmptySessionId.to_string(), "the sessionid is empty");
    assert_eq!(
        SessionError::UserAgentTooLong(612).to_string(),
        "the User-Agent is too long (612 characters)"
    );
    assert_eq!(
        SessionError::UnsupportedSchema { found: 2, expected: 1 }.to_string(),
        "the stored session uses format 2, and this version understands 1"
    );
    assert_eq!(
        SessionError::SuspiciousUserAgent.to_string(),
        "that does not look like a browser User-Agent: it should start with \"Mozilla/5.0\""
    );
}

#[test]
fn the_escape_of_a_colon_reads_in_either_case() {
    assert_eq!(made("12%3aabc", UA).ds_user_id.get(), 12);
    assert_eq!(made("12%3Aabc", UA).ds_user_id.get(), 12);
    assert_eq!(refused("12%3Babc", UA), SessionError::MalformedSessionId);
    assert_eq!(refused("18446744073709551616:a", UA), SessionError::MalformedSessionId);
    assert_eq!(clean_sessionid(" sessionid= '7:a'; ").unwrap(), "7:a'");
}

#[test]
fn two_texts_take_the_room_of_both() {
    let (a, b) = ("abc\u{1f600}", "\u{e9}\u{ffff}\u{10000}");
    assert_eq!((keyring_bytes(a), keyring_bytes(b)), (10, 8));
    assert_eq!(keyring_bytes(&format!("{a}{b}")), 18);
}
