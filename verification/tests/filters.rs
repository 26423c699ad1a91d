use snob_core::filters::{
    parse_username_list, Attribute, Filter, DEFAULT_AVATAR_HASHES,
};
use snob_core::model::User;
use snob_core::Pk;

fn user(name: &str) -> User {
    User {
        pk: Pk::new(1),
        username: name.into(),
        full_name: None,
        is_private: None,
        is_verified: None,
        pfp_url: None,
    }
}

fn verified() -> User {
    User { is_verified: Some(true), ..user("celebrity") }
}

fn private() -> User {
    User { is_private: Some(true), ..user("reserved") }
}

fn without_picture() -> User {
    User {
        pfp_url: Some(format!("https://scontent.cdninstagram.com/v/{}.jpg", DEFAULT_AVATAR_HASHES[0])),
        ..user("faceless")
    }
}

fn has(list: &[String], name: &str) -> bool {
    list.iter().any(|entry| entry == name)
}

#[test]
fn an_empty_filter_drops_nobody() {
    let f = Filter::default();
    let list = vec![verified(), private(), user("plain")];
    assert!(f.is_empty());
    assert_eq!(f.apply(list).len(), 3);
}

#[test]
fn hide_drops_whoever_matches() {
    let f = Filter { hide: vec![Attribute::Verified], ..Default::default() };
    let left = f.apply(vec![verified(), user("plain")]);
    assert_eq!(left.len(), 1);
    assert_eq!(left[0].username, "plain");
}

#[test]
fn only_requires_every_attribute() {
    let f = Filter { only: vec![Attribute::Verified, Attribute::Private], ..Default::default() };
    let both = User { is_private: Some(true), ..verified() };
    assert!(f.allows(&both));
    assert!(!f.allows(&verified()));
    assert!(!f.allows(&private()));
}

#[test]
fn the_default_avatar_is_recognized() {
    assert!(Attribute::NoPfp.matches(&without_picture()));
    assert!(!Attribute::NoPfp.matches(&user("has_a_picture")));

    let own_picture = User {
        pfp_url: Some("https://scontent.cdninstagram.com/v/their_own.jpg".into()),
        ..user("has_a_picture")
    };
    assert!(!Attribute::NoPfp.matches(&own_picture));

    let newer = User { pfp_url: Some(DEFAULT_AVATAR_HASHES[1].to_string()), ..user("faceless") };
    assert!(Attribute::NoPfp.matches(&newer));
}

#[test]
fn unknown_does_not_count_as_matching() {
    let no_data = user("mystery");
    assert!(!Attribute::Verified.matches(&no_data));
    assert!(!Attribute::Private.matches(&no_data));
    assert!(!Attribute::NoPfp.matches(&no_data));

    let f = Filter { hide: vec![Attribute::Verified], ..Default::default() };
    assert!(f.allows(&no_data), "not hidden just in case");
}

#[test]
fn exclusion_ignores_case_and_the_at_sign() {
    let f = Filter { excluded: parse_username_list("@Friend\nother"), ..Default::default() };
    assert!(!f.allows(&user("friend")));
    assert!(!f.allows(&user("FRIEND")));
    assert!(!f.allows(&user("other")));
    assert!(f.allows(&user("stranger")));
}

#[test]
fn the_username_list_tolerates_how_people_write_it() {
    let read = parse_username_list(
        "# people I keep\n\
         @one\n\
         \n\
           two  \n\
         THREE\n\
         @ four\n\
         @\n",
    );
    assert_eq!(read.len(), 4, "{read:?}");
    assert!(has(&read, "one"));
    assert!(has(&read, "two"));
    assert!(has(&read, "three"));
    // A space after the sign is how it is typed when the sign is an
    // afterthought.
    assert!(has(&read, "four"), "{read:?}");
    assert!(!has(&read, ""), "a bare sign is not an account");
}

#[test]
fn a_byte_order_mark_does_not_hide_the_first_name() {
    let read = parse_username_list("\u{feff}alice\nbob\n");

    assert!(has(&read, "alice"), "{read:?}");
    assert!(has(&read, "bob"), "{read:?}");
    assert_eq!(read.len(), 2);

    let f = Filter { excluded: read, ..Default::default() };
    assert!(!f.allows(&user("alice")), "the name the file exists to hide");
}

#[test]
fn hide_beats_only() {
    // If something is on both lists it does not show up: hiding is an explicit
    // refusal and should weigh more.
    let f = Filter {
        hide: vec![Attribute::Verified],
        only: vec![Attribute::Verified],
        ..Default::default()
    };
    assert!(!f.allows(&verified()));
}

#[test]
fn a_name_listed_twice_is_listed_once() {
    assert_eq!(parse_username_list("one\n@ONE\n one \n"), vec!["one".to_string()]);
}

#[test]
fn a_capital_outside_ascii_is_lowered_too() {
    assert_eq!(parse_username_list("S\u{d8}REN"), vec!["s\u{f8}ren".to_string()]);
    let f = Filter { excluded: parse_username_list("s\u{f8}ren"), ..Default::default() };
    assert!(!f.allows(&user("S\u{d8}REN")));
}
