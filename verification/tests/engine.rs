use locale_schema::error::Error;
use locale_schema::fetch::LocaleServerFnOutputClient;
use locale_schema::fetch::LocaleServerFnOutputServer;
use locale_schema::fetch::RegisterCtx;
use locale_schema::error::Warning;
use locale_schema::key::Key;
use locale_schema::key::KeyPath;
use locale_schema::locale::Locale;
use locale_schema::locale::LocalesOrNamespaces;
use locale_schema::locale::Namespace;
use locale_schema::merge::build_schema;
use locale_schema::merge::check_locales;
use locale_schema::merge::BuildersKeys;
use locale_schema::merge::LocaleValue;
use locale_schema::parse::parse_value;
use locale_schema::plural::check_arms;
use locale_schema::plural::select_arm;
use locale_schema::raw::RawValue;
use locale_schema::resolve::resolve_foreign_keys;
use locale_schema::value::ParsedValue;
use locale_schema::value::Selector;

fn k(s: &str) -> Key {
    Key::new(s).unwrap()
}

fn scalar(s: &str) -> RawValue {
    RawValue::Scalar(String::from(s))
}

fn map(entries: Vec<(&str, RawValue)>) -> RawValue {
    RawValue::Mapping(entries.into_iter().map(|(a, b)| (String::from(a), b)).collect())
}

fn locale(name: &str, raw: RawValue) -> Locale {
    Locale::new(k(name), None, &raw).unwrap()
}

fn root() -> KeyPath {
    KeyPath::new(None)
}

#[test]
fn parse_plain_string() {
    let v = parse_value(&scalar("hello"), &root()).unwrap();
    assert!(matches!(v, ParsedValue::Str(s) if s == "hello"));
}

#[test]
fn parse_variable_marker() {
    let v = parse_value(&scalar("{{ name }}"), &root()).unwrap();
    match v {
        ParsedValue::Variable(key) => assert_eq!(key.name, "name"),
        _ => panic!("expected a variable"),
    }
}

#[test]
fn parse_reference_marker() {
    let v = parse_value(&scalar("@:common.greeting"), &root()).unwrap();
    match v {
        ParsedValue::ForeignKey { path, resolved } => {
            assert!(resolved.is_none());
            assert!(path.namespace.is_none());
            assert_eq!(path.keys.len(), 2);
            assert_eq!(path.keys[0].name, "common");
            assert_eq!(path.keys[1].name, "greeting");
        },
        _ => panic!("expected a reference"),
    }
}

#[test]
fn parse_reference_with_namespace() {
    let v = parse_value(&scalar("@:shared/title"), &root()).unwrap();
    match v {
        ParsedValue::ForeignKey { path, .. } => {
            assert_eq!(path.namespace.unwrap().name, "shared");
            assert_eq!(path.keys.len(), 1);
            assert_eq!(path.keys[0].name, "title");
        },
        _ => panic!("expected a reference"),
    }
}

#[test]
fn parse_plural_construct() {
    let raw = map(vec![
        ("$plural", scalar("count")),
        ("0", scalar("none")),
        ("1..=4", scalar("few")),
        ("_", scalar("many")),
    ]);
    let v = parse_value(&raw, &root()).unwrap();
    match v {
        ParsedValue::Plural { count, arms } => {
            assert_eq!(count.name, "count");
            assert_eq!(arms.len(), 3);
            assert_eq!(arms[0].0, Selector::Exact(0));
            assert_eq!(arms[1].0, Selector::Range(1, 4));
            assert_eq!(arms[2].0, Selector::Fallback);
        },
        _ => panic!("expected a plural construct"),
    }
}

#[test]
fn parse_component_construct() {
    let raw = map(vec![("$component", scalar("b")), ("$body", scalar("hi"))]);
    let v = parse_value(&raw, &root()).unwrap();
    match v {
        ParsedValue::Component { key, body } => {
            assert_eq!(key.name, "b");
            assert!(matches!(*body, ParsedValue::Str(s) if s == "hi"));
        },
        _ => panic!("expected a component"),
    }
}

#[test]
fn parse_rejects_sequences() {
    let raw = RawValue::Sequence(vec![scalar("a")]);
    assert!(matches!(parse_value(&raw, &root()), Err(Error::UnexpectedSequence(_))));
}

#[test]
fn parse_rejects_bad_selector() {
    let raw = map(vec![("$plural", scalar("count")), ("abc", scalar("x")), ("_", scalar("y"))]);
    match parse_value(&raw, &root()) {
        Err(Error::InvalidPluralSelector(s)) => assert_eq!(s, "abc"),
        _ => panic!("expected an invalid-selector error"),
    }
}

#[test]
fn selector_count_width() {
    let raw = map(vec![
        ("$plural", scalar("count")),
        ("9999999999999999999", scalar("big")),
        ("_", scalar("rest")),
    ]);
    let v = parse_value(&raw, &root()).unwrap();
    match v {
        ParsedValue::Plural { arms, .. } => {
            assert_eq!(arms[0].0, Selector::Exact(9_999_999_999_999_999_999));
        },
        _ => panic!("expected a plural construct"),
    }
    let too_wide = map(vec![
        ("$plural", scalar("count")),
        ("99999999999999999999", scalar("big")),
        ("_", scalar("rest")),
    ]);
    assert!(matches!(parse_value(&too_wide, &root()), Err(Error::InvalidPluralSelector(_))));
}

fn arm(sel: Selector, text: &str) -> (Selector, ParsedValue) {
    (sel, ParsedValue::Str(String::from(text)))
}

#[test]
fn plural_selection_is_first_match() {
    let arms = vec![
        arm(Selector::Exact(0), "none"),
        arm(Selector::Range(1, 4), "few"),
        arm(Selector::Fallback, "many"),
    ];
    let pick = |n: u64| -> String {
        match select_arm(&arms, n) {
            Some(ParsedValue::Str(s)) => s.clone(),
            _ => panic!("no arm selected"),
        }
    };
    assert_eq!(pick(0), "none");
    assert_eq!(pick(2), "few");
    assert_eq!(pick(4), "few");
    assert_eq!(pick(100), "many");
}

#[test]
fn plural_overlap_and_missing_fallback_are_independent() {
    let arms = vec![arm(Selector::Range(1, 3), "a"), arm(Selector::Range(2, 4), "b")];
    let errs = check_arms(&root(), &arms);
    assert_eq!(errs.len(), 2);
    assert!(matches!(errs[0], Error::OverlappingPluralSelectors(_)));
    assert!(matches!(errs[1], Error::NonExhaustivePlural(_)));
    let fine = vec![
        arm(Selector::Exact(0), "none"),
        arm(Selector::Range(1, 4), "few"),
        arm(Selector::Fallback, "many"),
    ];
    assert!(check_arms(&root(), &fine).is_empty());
    let two_fallbacks = vec![arm(Selector::Fallback, "a"), arm(Selector::Fallback, "b")];
    let errs2 = check_arms(&root(), &two_fallbacks);
    assert_eq!(errs2.len(), 1);
    assert!(matches!(errs2[0], Error::OverlappingPluralSelectors(_)));
}

fn flat(locales: Vec<Locale>) -> LocalesOrNamespaces {
    LocalesOrNamespaces::Locales(locales)
}

#[test]
fn resolver_substitutes_reference() {
    let en = locale(
        "en",
        map(vec![("hello", scalar("world")), ("greet", scalar("@:hello"))]),
    );
    let trees = flat(vec![en]);
    let resolved = resolve_foreign_keys(&trees, &k("en")).unwrap();
    match &resolved {
        LocalesOrNamespaces::Locales(ls) => {
            let greet = &ls[0].keys[1].1;
            match greet {
                ParsedValue::ForeignKey { resolved: Some(b), .. } => {
                    assert!(matches!(&**b, ParsedValue::Str(s) if s == "world"));
                },
                _ => panic!("reference was not substituted"),
            }
        },
        _ => panic!("expected flat locales"),
    }
}

#[test]
fn resolver_is_idempotent() {
    let en = locale(
        "en",
        map(vec![
            ("hello", scalar("world")),
            ("greet", scalar("@:hello")),
            ("nested", map(vec![("inner", scalar("@:greet"))])),
        ]),
    );
    let trees = flat(vec![en]);
    let once = resolve_foreign_keys(&trees, &k("en")).unwrap();
    let twice = resolve_foreign_keys(&once, &k("en")).unwrap();
    assert!(once == twice);
}

#[test]
fn resolver_reports_cycle() {
    let en = locale("en", map(vec![("a", scalar("@:b")), ("b", scalar("@:a"))]));
    let trees = flat(vec![en]);
    assert!(matches!(resolve_foreign_keys(&trees, &k("en")), Err(Error::ForeignKeyCycle(_))));
}

#[test]
fn resolver_reports_undefined_target() {
    let en = locale("en", map(vec![("a", scalar("@:missing"))]));
    let trees = flat(vec![en]);
    assert!(matches!(
        resolve_foreign_keys(&trees, &k("en")),
        Err(Error::UndefinedForeignKey(_))
    ));
}

#[test]
fn resolver_falls_back_to_default_locale() {
    let en = locale("en", map(vec![("title", scalar("the title")), ("uses", scalar("ok"))]));
    let fr = locale("fr", map(vec![("uses", scalar("@:title"))]));
    let trees = flat(vec![en, fr]);
    let resolved = resolve_foreign_keys(&trees, &k("en")).unwrap();
    match &resolved {
        LocalesOrNamespaces::Locales(ls) => match &ls[1].keys[0].1 {
            ParsedValue::ForeignKey { resolved: Some(b), .. } => {
                assert!(matches!(&**b, ParsedValue::Str(s) if s == "the title"));
            },
            _ => panic!("reference was not substituted from the default locale"),
        },
        _ => panic!("expected flat locales"),
    }
}

fn schema_keys(bk: &BuildersKeys) -> Vec<String> {
    match bk {
        BuildersKeys::Locales { keys, .. } => {
            keys.0.iter().map(|(key, _)| key.name.clone()).collect()
        },
        _ => panic!("expected flat output"),
    }
}

#[test]
fn missing_key_yields_one_warning_and_keeps_default() {
    let en = locale("en", map(vec![("greet", scalar("hi")), ("extra", scalar("bye"))]));
    let fr = locale("fr", map(vec![("greet", scalar("salut"))]));
    let trees = flat(vec![en, fr]);
    let mut warnings: Vec<Warning> = Vec::new();
    let bk = build_schema(&trees, &k("en"), &mut warnings).unwrap();
    assert_eq!(warnings.len(), 1);
    match &warnings[0] {
        Warning::MissingKey { locale, path } => {
            assert_eq!(locale.name, "fr");
            assert_eq!(path.keys.len(), 1);
            assert_eq!(path.keys[0].name, "extra");
        },
        _ => panic!("expected a missing-key warning"),
    }
    assert_eq!(schema_keys(&bk), vec![String::from("greet"), String::from("extra")]);
}

#[test]
fn surplus_key_yields_one_warning_and_is_discarded() {
    let en = locale("en", map(vec![("greet", scalar("hi"))]));
    let fr = locale("fr", map(vec![("greet", scalar("salut")), ("extra2", scalar("??"))]));
    let trees = flat(vec![en, fr]);
    let mut warnings: Vec<Warning> = Vec::new();
    let bk = build_schema(&trees, &k("en"), &mut warnings).unwrap();
    assert_eq!(warnings.len(), 1);
    match &warnings[0] {
        Warning::SurplusKey { locale, path } => {
            assert_eq!(locale.name, "fr");
            assert_eq!(path.keys[0].name, "extra2");
        },
        _ => panic!("expected a surplus-key warning"),
    }
    assert_eq!(schema_keys(&bk), vec![String::from("greet")]);
}

#[test]
fn empty_leaf_requests_default_with_warning() {
    let en = locale("en", map(vec![("greet", scalar("hi"))]));
    let fr = locale("fr", map(vec![("greet", scalar(""))]));
    let trees = flat(vec![en, fr]);
    let mut warnings: Vec<Warning> = Vec::new();
    build_schema(&trees, &k("en"), &mut warnings).unwrap();
    assert_eq!(warnings.len(), 1);
    assert!(matches!(&warnings[0], Warning::MissingKey { .. }));
}

#[test]
fn merge_is_order_independent_across_locales() {
    let en = || {
        locale(
            "en",
            map(vec![("msg", scalar("{{name}}")), ("both", scalar("x")), ("gap", scalar("y"))]),
        )
    };
    let fr = || locale("fr", map(vec![("msg", scalar("{{name}} fr")), ("both", scalar("a"))]));
    let de = || {
        locale(
            "de",
            map(vec![
                ("msg", scalar("{{name}} de")),
                ("both", scalar("b")),
                ("gap", scalar("c")),
                ("spare", scalar("d")),
            ]),
        )
    };
    let mut w1: Vec<Warning> = Vec::new();
    let mut w2: Vec<Warning> = Vec::new();
    let bk1 = build_schema(&flat(vec![en(), fr(), de()]), &k("en"), &mut w1).unwrap();
    let bk2 = build_schema(&flat(vec![en(), de(), fr()]), &k("en"), &mut w2).unwrap();
    let schema_equal = match (&bk1, &bk2) {
        (
            BuildersKeys::Locales { keys: k1, .. },
            BuildersKeys::Locales { keys: k2, .. },
        ) => k1 == k2,
        _ => false,
    };
    assert!(schema_equal);
    assert_eq!(w1.len(), w2.len());
    for w in &w1 {
        assert!(w2.contains(w));
    }
    for w in &w2 {
        assert!(w1.contains(w));
    }
}

#[test]
fn merge_unions_signatures_across_locales() {
    let en = locale("en", map(vec![("msg", scalar("{{a}}"))]));
    let fr = locale("fr", map(vec![("msg", scalar("{{b}}"))]));
    let trees = flat(vec![en, fr]);
    let mut warnings: Vec<Warning> = Vec::new();
    let bk = build_schema(&trees, &k("en"), &mut warnings).unwrap();
    match &bk {
        BuildersKeys::Locales { keys, .. } => match &keys.0[0].1 {
            LocaleValue::Value(Some(sig)) => {
                let names: Vec<&str> =
                    sig.variables.iter().map(|key| key.name.as_str()).collect();
                assert!(names.contains(&"a"));
                assert!(names.contains(&"b"));
                assert_eq!(names.len(), 2);
                assert!(sig.components.is_empty());
                assert!(sig.counts.is_empty());
            },
            _ => panic!("expected a parameterized value"),
        },
        _ => panic!("expected flat output"),
    }
}

#[test]
fn merge_rejects_shape_mismatch() {
    let en = locale("en", map(vec![("msg", scalar("plain"))]));
    let fr = locale("fr", map(vec![("msg", map(vec![("sub", scalar("x"))]))]));
    let trees = flat(vec![en, fr]);
    let mut warnings: Vec<Warning> = Vec::new();
    assert!(matches!(
        build_schema(&trees, &k("en"), &mut warnings),
        Err(Error::LocaleKeyTypeMismatch(_))
    ));
    assert!(warnings.is_empty());
}

#[test]
fn merge_rejects_conflicting_argument_kinds() {
    let en = locale("en", map(vec![("msg", scalar("{{x}}"))]));
    let fr = locale(
        "fr",
        map(vec![("msg", map(vec![("$component", scalar("x")), ("$body", scalar("hi"))]))]),
    );
    let trees = flat(vec![en, fr]);
    let mut warnings: Vec<Warning> = Vec::new();
    assert!(matches!(
        build_schema(&trees, &k("en"), &mut warnings),
        Err(Error::LocaleKeyTypeMismatch(_))
    ));
}

#[test]
fn merge_rejects_empty_default_value() {
    let en = locale("en", map(vec![("greet", scalar(""))]));
    let trees = flat(vec![en]);
    let mut warnings: Vec<Warning> = Vec::new();
    assert!(matches!(
        build_schema(&trees, &k("en"), &mut warnings),
        Err(Error::MissingDefaultValue(_))
    ));
}

#[test]
fn merge_requires_default_locale_tree() {
    let fr = locale("fr", map(vec![("greet", scalar("salut"))]));
    let trees = flat(vec![fr]);
    let mut warnings: Vec<Warning> = Vec::new();
    assert!(matches!(
        check_locales(&trees, &k("en"), &mut warnings),
        Err(Error::MissingDefaultValue(_))
    ));
}

#[test]
fn merge_validates_plurals_per_locale() {
    let en = locale(
        "en",
        map(vec![(
            "items",
            map(vec![("$plural", scalar("count")), ("1..=3", scalar("a")), ("2..=4", scalar("b"))]),
        )]),
    );
    let trees = flat(vec![en]);
    let mut warnings: Vec<Warning> = Vec::new();
    assert!(matches!(
        build_schema(&trees, &k("en"), &mut warnings),
        Err(Error::OverlappingPluralSelectors(_))
    ));
}

#[test]
fn namespaces_merge_and_cross_reference() {
    let ns1 = Namespace {
        key: k("common"),
        locales: vec![
            Locale::new(
                k("en"),
                Some(&k("common")),
                &map(vec![("title", scalar("the title"))]),
            )
            .unwrap(),
        ],
    };
    let ns2 = Namespace {
        key: k("home"),
        locales: vec![
            Locale::new(
                k("en"),
                Some(&k("home")),
                &map(vec![("header", scalar("@:common/title"))]),
            )
            .unwrap(),
        ],
    };
    let trees = LocalesOrNamespaces::Namespaces(vec![ns1, ns2]);
    let mut warnings: Vec<Warning> = Vec::new();
    let bk = build_schema(&trees, &k("en"), &mut warnings).unwrap();
    match &bk {
        BuildersKeys::NameSpaces { namespaces, keys } => {
            assert_eq!(namespaces.len(), 2);
            assert_eq!(keys.len(), 2);
            assert_eq!(keys[0].0.name, "common");
            assert_eq!(keys[1].0.name, "home");
        },
        _ => panic!("expected namespaced output"),
    }
    assert!(warnings.is_empty());
}

#[test]
fn register_renders_script() {
    let mut ctx = RegisterCtx::provide_context();
    ctx.register(
        String::from("en"),
        None,
        vec![String::from("a"), String::from("b")],
    );
    ctx.register(String::from("fr"), Some(String::from("unit")), vec![String::from("c")]);
    let s = ctx.to_array();
    assert_eq!(
        s,
        "window.__LEPTOS_I18N_TRANSLATIONS = [{\"locale\":\"en\",\"id\":null,\"values\":[\"a\",\"b\"]},{\"locale\":\"fr\",\"id\":\"unit\",\"values\":[\"c\"]}];"
    );
}

#[test]
fn register_replaces_same_unit() {
    let mut ctx = RegisterCtx::provide_context();
    ctx.register(String::from("en"), None, vec![String::from("old")]);
    ctx.register(String::from("en"), None, vec![String::from("new")]);
    assert_eq!(ctx.entries.len(), 1);
    assert_eq!(ctx.entries[0].values, vec![String::from("new")]);
}

#[test]
fn server_and_client_outputs_carry_strings() {
    static STRINGS: [&str; 2] = ["x", "y"];
    let server = LocaleServerFnOutputServer::new(&STRINGS);
    assert_eq!(server.0.len(), 2);
    let client = LocaleServerFnOutputClient::new(vec![String::from("x")]);
    assert_eq!(client.0.len(), 1);
}
