use snob_core::secret::Secret;

#[test]
fn debug_never_shows_the_value() {
    let secret = Secret::new("71234567890%3AAbCdEfGhIjKl%3A20".to_string());
    assert_eq!(secret.debug_text(), "<hidden>");
    assert!(!secret.debug_text().contains("AbCdEfGh"));
}

#[test]
fn debug_stays_hidden_inside_a_container() {
    let held = Some(Secret::new("AbCdEfGh".to_string()));
    assert!(!held.iter().any(|s| s.debug_text().contains("AbCdEfGh")));

    let pair = vec![Secret::new("one".to_string()), Secret::new("two".to_string())];
    let shown: Vec<String> = pair.iter().map(|s| s.debug_text()).collect();
    assert_eq!(format!("[{}]", shown.join(", ")), "[<hidden>, <hidden>]");
}

#[test]
fn the_value_is_still_readable_when_asked_for() {
    let secret = Secret::from("abc");
    assert_eq!(secret.expose(), "abc");
    assert!(!secret.is_empty());
    assert!(Secret::new(String::new()).is_empty());
}

#[test]
fn a_copy_holds_the_same_value() {
    let secret = Secret::from("abc".to_string());
    assert!(secret.clone() == secret);
    assert!(Secret::default().is_empty());
    drop(secret);
}
