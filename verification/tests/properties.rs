use rust_i18n::compile::{compile_entries, resolve_fallback, DirEntry, LocaleMap};
use rust_i18n::gen::{Namespace, Plural, Singular, Value};
use rust_i18n::loader::{parse, RawValue, ResourceMap};
use rust_i18n::message::Message;
use rust_i18n::message_index;
use rust_i18n::ordmap::OrdMap;
use rust_i18n::resource::MessageSet;
use rust_i18n::result::I18nError;

#[test]
fn plural_single_variant_always_first() {
    for n in [0usize, 1, 2, 7, 1000] {
        assert_eq!(0, message_index(&1, &n));
    }
}

#[test]
fn plural_two_variants_singular_only_at_one() {
    assert_eq!(0, message_index(&2, &1));
    assert_eq!(1, message_index(&2, &0));
    assert_eq!(1, message_index(&2, &2));
    assert_eq!(1, message_index(&2, &9));
}

#[test]
fn plural_many_variants_clamp() {
    let l: usize = 5;
    assert_eq!(0, message_index(&l, &0));
    assert_eq!(3, message_index(&l, &3));
    assert_eq!(l - 1, message_index(&l, &(l - 1)));
    assert_eq!(l - 1, message_index(&l, &(l + 5)));
    assert_eq!(2, message_index(&3, &100));
}

#[test]
fn explicit_round_trip() {
    let m = Message::parse_explicit("{0}-{1}-{0}");
    assert_eq!("A-B-A", m.substitute(&vec!["A", "B"]));
}

#[test]
fn implicit_round_trip() {
    let m = Message::parse_implicit("{} and {}");
    assert_eq!("x and y", m.substitute(&vec!["x", "y"]));
}

#[test]
fn interpolated_scenario() {
    let m = Message::parse_implicit("これは{}です");
    assert_eq!("これはペンです", m.substitute(&vec!["ペン"]));
}

fn leaf(text: &str) -> MessageSet {
    MessageSet::new(vec![Message::parse_explicit(text)])
}

#[test]
fn fallback_completeness() {
    let mut src: ResourceMap = OrdMap::new();
    src.insert("p1".to_string(), leaf("source one"));
    src.insert("p2".to_string(), leaf("source two"));
    src.insert("p3".to_string(), leaf("source three"));
    let mut tgt: ResourceMap = OrdMap::new();
    tgt.insert("p2".to_string(), leaf("target two"));
    let mut locales: LocaleMap = OrdMap::new();
    locales.insert("src".to_string(), src);
    locales.insert("tgt".to_string(), tgt);

    let resolved = resolve_fallback(&locales, "src").unwrap();
    let t = resolved.get("tgt").unwrap();
    assert_eq!("source one", t.get("p1").unwrap().get());
    assert_eq!("target two", t.get("p2").unwrap().get());
    assert_eq!("source three", t.get("p3").unwrap().get());
    let s = resolved.get("src").unwrap();
    assert_eq!("source two", s.get("p2").unwrap().get());
}

#[test]
fn fallback_missing_source_fails() {
    let mut locales: LocaleMap = OrdMap::new();
    let mut en: ResourceMap = OrdMap::new();
    en.insert("k".to_string(), leaf("v"));
    locales.insert("en".to_string(), en);
    let r = resolve_fallback(&locales, "ja");
    assert!(matches!(r, Err(I18nError::SourceLocaleNotExists)));
}

#[test]
fn schema_driven_iteration_drops_extra_paths() {
    let mut src = Namespace(Vec::new());
    src.insert(vec!["a"], Value::Singular(Singular("A".to_string())));
    src.insert(vec!["b"], Value::Singular(Singular("B".to_string())));
    let mut tgt = Namespace(Vec::new());
    tgt.insert(vec!["a"], Value::Singular(Singular("a2".to_string())));
    tgt.insert(vec!["p4"], Value::Singular(Singular("extra".to_string())));

    let code = tgt.generate_code("Root", Some(&src));
    assert!(!code.contains("p4"));
    assert!(!code.contains("extra"));
    assert!(code.contains("a: \"a2\",\n"));
    assert!(code.contains("b: \"B\",\n"));
}

#[test]
fn end_to_end_two_locales() {
    let ja = DirEntry {
        path: "lang/ja.yaml".to_string(),
        value: Some(RawValue::Mapping(vec![(
            "general".to_string(),
            RawValue::Mapping(vec![(
                "hello".to_string(),
                RawValue::Mapping(vec![(
                    "world".to_string(),
                    RawValue::Str("こんにちは".to_string()),
                )]),
            )]),
        )])),
    };
    let en = DirEntry {
        path: "lang/en.yaml".to_string(),
        value: Some(RawValue::Mapping(vec![(
            "general".to_string(),
            RawValue::Mapping(vec![(
                "hello".to_string(),
                RawValue::Mapping(vec![(
                    "world".to_string(),
                    RawValue::Str("Hello World".to_string()),
                )]),
            )]),
        )])),
    };
    let compiled = compile_entries(&vec![ja, en], "ja").unwrap();
    assert_eq!(
        "こんにちは",
        compiled
            .translator("ja")
            .get("general.hello.world")
            .unwrap()
            .get()
    );
    assert_eq!(
        "Hello World",
        compiled
            .locales
            .get("en")
            .unwrap()
            .get("general.hello.world")
            .unwrap()
            .get()
    );
    assert!(compiled.skipped.is_empty());
}

#[test]
fn skippable_extension_is_recorded() {
    let en = DirEntry {
        path: "lang/en.yaml".to_string(),
        value: Some(RawValue::Mapping(vec![(
            "hello".to_string(),
            RawValue::Str("Hello".to_string()),
        )])),
    };
    let readme = DirEntry {
        path: "lang/README.md".to_string(),
        value: None,
    };
    let compiled = compile_entries(&vec![en, readme], "en").unwrap();
    assert_eq!(vec!["lang/README.md".to_string()], compiled.skipped);
    assert_eq!(
        "Hello",
        compiled.locales.get("en").unwrap().get("hello").unwrap().get()
    );
}

#[test]
fn missing_source_locale_is_a_configuration_error() {
    let en = DirEntry {
        path: "lang/en.yaml".to_string(),
        value: Some(RawValue::Mapping(vec![(
            "hello".to_string(),
            RawValue::Str("Hello".to_string()),
        )])),
    };
    let fr = DirEntry {
        path: "lang/fr.yaml".to_string(),
        value: Some(RawValue::Mapping(vec![(
            "hello".to_string(),
            RawValue::Str("Bonjour".to_string()),
        )])),
    };
    let r = compile_entries(&vec![en, fr], "ja");
    assert!(matches!(r, Err(I18nError::SourceLocaleNotExists)));
}

#[test]
fn unsupported_leaf_is_a_format_error() {
    let bad = RawValue::Mapping(vec![("count".to_string(), RawValue::Other)]);
    let r = parse(&bad);
    assert!(matches!(r, Err(I18nError::InvalidSourceFileFormat(p)) if p == "count"));
}

#[test]
fn unreadable_supported_file_is_a_format_error() {
    let broken = DirEntry {
        path: "lang/en.yaml".to_string(),
        value: None,
    };
    let r = compile_entries(&vec![broken], "en");
    assert!(matches!(r, Err(I18nError::InvalidSourceFileFormat(p)) if p == "lang/en.yaml"));
}

#[test]
fn plural_generate_struct_uses_longest_variant() {
    let p = Plural(vec!["one {a}".to_string(), "two {a} {b}".to_string()]);
    let text = p.generate_struct("items");
    assert!(text.contains(", a_0: &str, b_1: &str"));
    assert!(text.contains("message_index(&self.items.len(), num)"));
}
