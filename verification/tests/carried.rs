use rust_i18n::compile::{compile_entries, DirEntry};
use rust_i18n::gen::{generate, Namespace, Plural, Singular, Value};
use rust_i18n::loader::RawValue;
use rust_i18n::message::{Message, Span};
use rust_i18n::ordmap::OrdMap;
use rust_i18n::resource::MessageSet;
use rust_i18n::sample::I18n;

#[test]
fn test() {
    let i18n = I18n::new("ja");
    assert_eq!(i18n.t.general.hello.world(), "こんにちは");
    assert_eq!(i18n.t.general.this.is.a("ペン"), "これはペンです");

    let i18n_en = I18n::new("en");
    assert_eq!(i18n_en.t.general.hello.world(), "Hello World");
}

#[test]
fn test_load_resources() {
    let mut source = Namespace(Vec::new());
    source.insert(
        vec!["general", "key1"],
        Value::Singular(Singular("キー1".to_string())),
    );
    source.insert(
        vec!["general", "key23"],
        Value::Plural(Plural(vec!["キー2".to_string(), "キー3".to_string()])),
    );
    source.insert(
        vec!["general", "key4"],
        Value::Singular(Singular("キー4 {}".to_string())),
    );

    let mut value = Namespace(Vec::new());
    value.insert(
        vec!["general", "key23"],
        Value::Plural(Plural(vec!["key2".to_string(), "key3".to_string()])),
    );
    value.insert(
        vec!["general", "key4"],
        Value::Singular(Singular("key4 {}".to_string())),
    );

    let mut root_message = Namespace(Vec::new());
    root_message.insert(vec!["ja"], Value::Namespace(source));
    root_message.insert(vec!["en"], Value::Namespace(value));

    let generated = generate("ja", &root_message);
    println!("{}", generated.structs);
    for (locale, code) in &generated.codes {
        println!("{locale}: {code}");
    }
}

#[test]
fn test_i18n() {
    let mut resources: OrdMap<MessageSet> = OrdMap::new();
    resources.insert(
        "a".to_string(),
        MessageSet::new(vec![
            Message::new("a".to_string(), vec![]),
            Message::new("b".to_string(), vec![]),
        ]),
    );
    resources.insert(
        "b".to_string(),
        MessageSet::new(vec![Message::new(
            "aa{0}bb".to_string(),
            vec![Span {
                index: 0,
                start: 2,
                end: 5,
            }],
        )]),
    );

    assert_eq!("a", resources.get("a").unwrap().get());
    assert_eq!("a", resources.get("a").unwrap().plural(1).text());
    assert_eq!("b", resources.get("a").unwrap().plural(0).text());
    assert_eq!("b", resources.get("a").unwrap().plural(5).text());
    assert_eq!("aacbb", resources.get("b").unwrap().replace(&vec!["c"]));
    assert_eq!(
        "aacbb",
        resources.get("b").unwrap().plural(5).substitute(&vec!["c"])
    );

    let files = vec![
        DirEntry {
            path: "lang/ja.yaml".to_string(),
            value: Some(RawValue::Mapping(vec![(
                "general".to_string(),
                RawValue::Mapping(vec![(
                    "hello".to_string(),
                    RawValue::Mapping(vec![(
                        "world".to_string(),
                        RawValue::Str("こんにちは".to_string()),
                    )]),
                )]),
            )])),
        },
        DirEntry {
            path: "lang/en.yaml".to_string(),
            value: Some(RawValue::Mapping(vec![(
                "general".to_string(),
                RawValue::Mapping(vec![(
                    "hello".to_string(),
                    RawValue::Mapping(vec![(
                        "world".to_string(),
                        RawValue::Str("Hello World".to_string()),
                    )]),
                )]),
            )])),
        },
    ];
    let compiled = compile_entries(&files, "ja").unwrap();
    let en = compiled.locales.get("en").unwrap();
    assert_eq!(
        "Hello World",
        en.get("general.hello.world").unwrap().get()
    );
}
