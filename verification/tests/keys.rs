use locale_schema::error::Error;
use locale_schema::key::Key;
use locale_schema::key::KeySeed;
use locale_schema::key::KeyVecSeed;

#[test]
fn key_new_replaces_hyphens() {
    let k = Key::new("hello-world").unwrap();
    assert_eq!(k.name, "hello-world");
    assert_eq!(k.ident, "hello_world");
    let k2 = Key::new("a-b-c").unwrap();
    assert_eq!(k2.ident, "a_b_c");
}

#[test]
fn key_new_trims_whitespace() {
    let k = Key::new("  greet \n").unwrap();
    assert_eq!(k.name, "greet");
    assert_eq!(k.ident, "greet");
}

#[test]
fn key_new_rejects_non_identifiers() {
    assert!(Key::new("9lives").is_none());
    assert!(Key::new("has space").is_none());
    assert!(Key::new("").is_none());
    assert!(Key::new("   ").is_none());
    assert!(Key::new("fn").is_none());
}

#[test]
fn key_try_new_reports_offending_string() {
    match Key::try_new("9lives") {
        Err(Error::InvalidKey(s)) => assert_eq!(s, "9lives"),
        _ => panic!("expected an invalid-key error"),
    }
    assert!(Key::try_new("fine").is_ok());
}

#[test]
fn key_equality_is_by_name_only() {
    let a = Key { name: String::from("x"), ident: String::from("x") };
    let b = Key { name: String::from("x"), ident: String::from("different") };
    assert!(a == b);
    let c = Key::new("a-b").unwrap();
    let d = Key::new("a-b").unwrap();
    assert!(c == d);
    let e = Key::new("other").unwrap();
    assert!(c != e);
}

#[test]
fn key_seed_expecting_messages() {
    assert_eq!(
        KeySeed::LocaleName.expecting(),
        "a string representing a locale that can be used as a valid rust identifier"
    );
    assert_eq!(
        KeySeed::Namespace.expecting(),
        "a string representing a namespace key that can be used as a valid rust identifier"
    );
    assert_eq!(
        KeySeed::LocaleKey { locale: "en", namespace: None }.expecting(),
        "a string representing a locale key that can be used as a valid rust identifier"
    );
}

#[test]
fn key_seed_visits_strings() {
    let k = KeySeed::LocaleName.visit_str("en-GB").unwrap();
    assert_eq!(k.ident, "en_GB");
    assert!(KeySeed::LocaleName.visit_str("no good").is_err());
}

#[test]
fn key_vec_seed_visits_sequences() {
    let raw = vec![String::from("en"), String::from("fr-FR")];
    let ks = KeyVecSeed(KeySeed::LocaleName).visit_seq(&raw).unwrap();
    assert_eq!(ks.len(), 2);
    assert_eq!(ks[0].name, "en");
    assert_eq!(ks[1].ident, "fr_FR");
    let bad = vec![String::from("en"), String::from("1bad")];
    assert!(KeyVecSeed(KeySeed::LocaleName).visit_seq(&bad).is_err());
}
