use snob_core::model::{in_a_path, printable, ListKind, StopReason, User};
use snob_core::Pk;

fn named(username: &str) -> User {
    User {
        pk: Pk::new(1),
        username: username.to_string(),
        full_name: None,
        is_private: None,
        is_verified: None,
        pfp_url: None,
    }
}

#[test]
fn an_ordinary_name_comes_out_of_the_link_unchanged() {
    assert_eq!(
        named("some.user_1-x").profile_url(),
        "https://www.instagram.com/some.user_1-x/"
    );
}

#[test]
fn a_name_cannot_break_out_of_the_link_it_is_put_in() {
    let url = named("a\x1b\\\x1b]8;;http://evil.test\x1b\\Official").profile_url();

    assert!(!url.contains('\x1b'), "an escape survived: {url}");
    assert!(!url.contains(']'), "a sequence introducer survived: {url}");
    assert!(
        !url.contains("evil.test/"),
        "the second address is still a path of its own: {url}"
    );
}

#[test]
fn an_accent_still_points_at_the_same_account() {
    assert_eq!(named("søren").profile_url(), "https://www.instagram.com/s%C3%B8ren/");
}

#[test]
fn only_a_full_walk_yields_a_complete_list() {
    assert!(StopReason::Completed.yields_complete_list());
    for partial in [
        StopReason::Canceled,
        StopReason::PageLimit,
        StopReason::Truncated,
        StopReason::RateLimit,
        StopReason::Network,
        StopReason::SessionInvalid,
    ] {
        assert!(
            !partial.yields_complete_list(),
            "{partial:?} does not describe the whole list"
        );
    }
}

#[test]
fn invisible_characters_do_not_survive() {
    for hidden in [
        '\u{061c}',  // Arabic letter mark
        '\u{200b}',  // zero-width space
        '\u{200d}',  // zero-width joiner
        '\u{202e}',  // right-to-left override
        '\u{2060}',  // word joiner
        '\u{2068}',  // first strong isolate
        '\u{feff}',  // byte-order mark
        '\u{e0041}', // tag latin capital A
    ] {
        let name = format!("real{hidden}name");
        assert_eq!(printable(&name), "realname", "U+{:04X} survived", hidden as u32);
    }
}

#[test]
fn the_other_invisible_characters_do_not_survive_either() {
    for hidden in [
        '\u{00ad}', // soft hyphen
        '\u{115f}', // Hangul choseong filler
        '\u{1160}', // Hangul jungseong filler
        '\u{180e}', // Mongolian vowel separator
        '\u{206a}', // inhibit symmetric swapping
        '\u{206f}', // nominal digit shapes
        '\u{3164}', // Hangul filler
        '\u{ffa0}', // halfwidth Hangul filler
        '\u{fff9}', // interlinear annotation anchor
        '\u{fffb}', // interlinear annotation terminator
        '\u{0600}',  // Arabic number sign
        '\u{06dd}',  // Arabic end of ayah
        '\u{070f}',  // Syriac abbreviation mark
        '\u{0890}',  // Arabic pound mark above
        '\u{08e2}',  // Arabic disputed end of ayah
        '\u{110bd}', // Kaithi number sign
        '\u{110cd}', // Kaithi number sign above
        '\u{13430}', // Egyptian hieroglyph vertical joiner
        '\u{1bca0}', // shorthand format letter overlap
        '\u{1d173}', // musical symbol begin beam
    ] {
        let name = format!("real{hidden}name");
        assert_eq!(printable(&name), "realname", "U+{:04X} survived", hidden as u32);
    }
}

#[test]
fn a_zero_width_character_cannot_forge_a_name() {
    let impostor = "insta\u{200b}gram";
    assert_ne!(impostor, "instagram");
    assert_eq!(printable(impostor), "instagram");
}

#[test]
fn ordinary_text_is_untouched() {
    for name in ["Jos\u{e9} Mu\u{f1}oz", "\u{4e2d}\u{6587}", "ana \u{1f600}"] {
        assert_eq!(printable(name), name);
    }
}

#[test]
fn the_list_kind_wire_value_is_lowercase_english() {
    assert_eq!(ListKind::Followers.as_str(), "followers");
    assert_eq!(ListKind::Following.as_str(), "following");
}

#[test]
fn every_stop_reason_has_a_distinct_stored_value() {
    let mut seen = std::collections::HashSet::new();
    for reason in StopReason::ALL {
        assert!(seen.insert(reason.as_str()), "{reason:?} is duplicated");
    }
    assert_eq!(seen.len(), 7);
}

#[test]
fn a_list_kind_reads_back_from_its_token_and_nothing_else_does() {
    for kind in [ListKind::Followers, ListKind::Following] {
        assert_eq!(kind.as_str().parse::<ListKind>().unwrap(), kind);
        assert_eq!(ListKind::parse(&kind.to_string()), Some(kind));
    }
    assert!("Followers".parse::<ListKind>().is_err());
    assert_eq!(ListKind::parse(""), None);
}

#[test]
fn every_byte_that_may_not_stand_in_a_path_is_escaped() {
    assert_eq!(in_a_path("a/b c?"), "a%2Fb%20c%3F");
    assert_eq!(in_a_path("~._-09azAZ"), "~._-09azAZ");
    assert_eq!(in_a_path("%"), "%25");
}

#[test]
fn white_space_and_controls_are_shown_apart() {
    assert_eq!(printable("one\ttwo\nthree\u{a0}four\u{3000}five"), "one two three four five");
    assert_eq!(printable("\u{1b}[31mred\u{7f}\u{9b}"), "[31mred");
    let twice = printable(&printable("a\u{200b}\tb"));
    assert_eq!(twice, printable("a\u{200b}\tb"));
}

#[test]
fn a_user_is_shown_without_what_a_terminal_would_obey() {
    let mut u = named("in\u{200b}sta");
    assert_eq!(u.safe_username(), "insta");
    assert_eq!(u.safe_full_name(), None);
    u.full_name = Some("A\u{202e}B\tC".to_string());
    assert_eq!(u.safe_full_name(), Some("AB C".to_string()));
    assert_eq!(u.clone(), u);
}
