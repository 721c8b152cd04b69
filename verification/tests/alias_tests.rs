use psdevbot::aliases::UsernameAliases;

#[test]
fn test_username_aliases() {
    let mut username_aliases = UsernameAliases::default();
    username_aliases.insert("A".into(), "Awesome".into());
    assert_eq!(username_aliases.get("a"), "Awesome");
    assert_eq!(username_aliases.get("b"), "b");
}

#[test]
fn alias_scenario() {
    let mut aliases = UsernameAliases::default();
    aliases.insert("Steve".into(), "Steve the Great".into());
    assert_eq!(aliases.get("steve"), "Steve the Great");
    assert_eq!(aliases.get("STEVE"), "Steve the Great");
    assert_eq!(aliases.get("stevie"), "stevie");
}

#[test]
fn unknown_name_keeps_its_casing() {
    let aliases = UsernameAliases::default();
    assert_eq!(aliases.get("MixedCase"), "MixedCase");
    assert_eq!(aliases.get(""), "");
}

#[test]
fn colliding_fold_overwrites() {
    let mut aliases = UsernameAliases::default();
    aliases.insert("Steve".into(), "One".into());
    aliases.insert("STEVE".into(), "Two".into());
    assert_eq!(aliases.get("steve"), "Two");
    assert_eq!(aliases.get("sTeVe"), "Two");
}

#[test]
fn folding_reaches_beyond_ascii() {
    let mut aliases = UsernameAliases::default();
    aliases.insert("stra\u{df}e".into(), "Canonical".into());
    assert_eq!(aliases.get("STRASSE"), "Canonical");
}

#[test]
fn distinct_folds_stay_distinct() {
    let mut aliases = UsernameAliases::default();
    aliases.insert("Alice".into(), "A. Liddell".into());
    aliases.insert("Bob".into(), "Builder".into());
    assert_eq!(aliases.get("ALICE"), "A. Liddell");
    assert_eq!(aliases.get("bob"), "Builder");
    assert_eq!(aliases.get("carol"), "carol");
}
