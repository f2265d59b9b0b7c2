use rust_i18n::compile::{compile_entries, DirEntry};
use rust_i18n::gen::{scan_captures, Namespace, Plural, Singular, Value};
use rust_i18n::loader::{parse, path_namespaces, RawValue};
use rust_i18n::message::Message;
use rust_i18n::ordmap::OrdMap;
use rust_i18n::strutil::stem_of;

#[test]
fn explicit_parse_records_spans() {
    let m = Message::parse_explicit("aa{0}bb");
    assert_eq!("aa{0}bb", m.text());
    assert_eq!(1, m.span_count());
    assert_eq!("aacbb", m.substitute(&vec!["c"]));
}

#[test]
fn explicit_parse_ignores_empty_and_named_braces() {
    let m = Message::parse_explicit("x{}y{name}z{2}w");
    assert_eq!(1, m.span_count());
    assert_eq!("x{}y{name}zCw", m.substitute(&vec!["", "", "C"]));
}

#[test]
fn explicit_indices_may_repeat_and_skip() {
    let m = Message::parse_explicit("{2}{2}{0}");
    assert_eq!("CCA", m.substitute(&vec!["A", "B", "C"]));
}

#[test]
fn implicit_parse_numbers_markers_in_order() {
    let m = Message::parse_implicit("{}{}{}");
    assert_eq!(3, m.span_count());
    assert_eq!("abc", m.substitute(&vec!["a", "b", "c"]));
}

#[test]
fn message_without_placeholders_is_kept_whole() {
    let m = Message::parse_explicit("plain text");
    assert_eq!("plain text", m.substitute(&vec![]));
    let m2 = Message::parse_implicit("");
    assert_eq!("", m2.substitute(&vec![]));
}

#[test]
fn scalar_with_separator_splits_into_variants() {
    let v = RawValue::Mapping(vec![(
        "apples".to_string(),
        RawValue::Str("one apple | {0} apples".to_string()),
    )]);
    let table = parse(&v).unwrap();
    let set = table.get("apples").unwrap();
    assert_eq!(2, set.len());
    assert_eq!("one apple", set.plural(1).text());
    assert_eq!("5 apples", set.plural(5).substitute(&vec!["5"]));
}

#[test]
fn list_leaf_becomes_plural_variants() {
    let v = RawValue::Mapping(vec![(
        "keys".to_string(),
        RawValue::List(vec![
            RawValue::Str("zero".to_string()),
            RawValue::Str("one".to_string()),
            RawValue::Str("many".to_string()),
        ]),
    )]);
    let table = parse(&v).unwrap();
    let set = table.get("keys").unwrap();
    assert_eq!(3, set.len());
    assert_eq!("zero", set.plural(0).text());
    assert_eq!("one", set.plural(1).text());
    assert_eq!("many", set.plural(7).text());
}

#[test]
fn nested_mappings_flatten_to_dotted_paths() {
    let v = RawValue::Mapping(vec![(
        "a".to_string(),
        RawValue::Mapping(vec![
            ("b".to_string(), RawValue::Str("deep".to_string())),
            (
                "c".to_string(),
                RawValue::Mapping(vec![("d".to_string(), RawValue::Str("deeper".to_string()))]),
            ),
        ]),
    )]);
    let table = parse(&v).unwrap();
    assert_eq!("deep", table.get("a.b").unwrap().get());
    assert_eq!("deeper", table.get("a.c.d").unwrap().get());
    assert!(table.get("a.c").is_none());
}

#[test]
fn non_mapping_root_loads_empty() {
    let table = parse(&RawValue::Str("just text".to_string())).unwrap();
    assert_eq!(0, table.len());
}

#[test]
fn stem_strips_directory_and_extension() {
    assert_eq!("en", stem_of("lang/en.yaml"));
    assert_eq!("fr", stem_of("a/b/fr.yml"));
    assert_eq!("de", stem_of("de.json"));
    assert_eq!("README", stem_of("lang/README"));
}

#[test]
fn path_namespaces_moves_locale_first() {
    let segs = path_namespaces("app/config/en");
    assert_eq!(vec!["en", "config", "app"], segs);
    let single = path_namespaces("en");
    assert_eq!(vec!["en"], single);
}

#[test]
fn singular_generate_struct_text() {
    let s = Singular("this is a {}".to_string());
    let expected = "\n            pub fn a(&self, _0: &str) -> String {\n                self.a.replacen(\"{}\", _0, 1)\n            }\n            ";
    assert_eq!(expected, s.generate_struct("a"));
}

#[test]
fn singular_without_captures_copies() {
    let s = Singular("Hello World".to_string());
    let expected = "\n            pub fn world(&self) -> String {\n                self.world.to_string()\n            }\n            ";
    assert_eq!(expected, s.generate_struct("world"));
    assert_eq!("\"Hello World\"", s.generate_code());
}

#[test]
fn plural_generate_code_renders_vector() {
    let p = Plural(vec!["キー2".to_string(), "キー3".to_string()]);
    assert_eq!("vec![\"キー2\", \"キー3\"]", p.generate_code());
}

#[test]
fn namespace_generate_struct_pascal_cases_names() {
    let mut root = Namespace(Vec::new());
    root.insert(
        vec!["general", "hello_world"],
        Value::Singular(Singular("hi".to_string())),
    );
    let text = root.generate_struct("root");
    assert!(text.contains("pub struct Root"));
    assert!(text.contains("pub general: General,"));
    assert!(text.contains("pub struct General"));
    assert!(text.contains("pub hello_world: &'static str,"));
    assert!(text.contains("pub fn hello_world(&self) -> String"));
}

#[test]
fn namespace_insert_replaces_existing_path() {
    let mut root = Namespace(Vec::new());
    root.insert(vec!["a", "b"], Value::Singular(Singular("first".to_string())));
    root.insert(vec!["a", "b"], Value::Singular(Singular("second".to_string())));
    root.insert(vec!["a", "c"], Value::Singular(Singular("third".to_string())));
    let a = match &root.0[0].1 {
        Value::Namespace(m) => m,
        _ => panic!("expected a namespace"),
    };
    assert_eq!(2, a.0.len());
    assert_eq!("b", a.0[0].0);
    match &a.0[0].1 {
        Value::Singular(s) => assert_eq!("second", s.0),
        _ => panic!("expected a singular"),
    }
}

#[test]
fn scan_captures_takes_lazy_matches() {
    let caps = scan_captures("{a} and {} and {b}");
    assert_eq!(vec!["a", "", "b"], caps);
}

#[test]
fn as_map_reaches_nested_namespace() {
    let mut root = Namespace(Vec::new());
    root.insert(vec!["x", "y"], Value::Singular(Singular("v".to_string())));
    let x = root.0[0].1.as_map();
    assert_eq!(1, x.0.len());
}

#[test]
fn json_and_yml_extensions_are_supported() {
    let en = DirEntry {
        path: "lang/en.json".to_string(),
        value: Some(RawValue::Mapping(vec![(
            "greet".to_string(),
            RawValue::Str("Hello".to_string()),
        )])),
    };
    let fr = DirEntry {
        path: "lang/fr.yml".to_string(),
        value: Some(RawValue::Mapping(vec![])),
    };
    let compiled = compile_entries(&vec![en, fr], "en").unwrap();
    assert!(compiled.skipped.is_empty());
    assert_eq!("Hello", compiled.translator("en").get("greet").unwrap().get());
    // the empty French table inherits the source's message
    assert_eq!("Hello", compiled.translator("fr").get("greet").unwrap().get());
}

#[test]
fn table_keeps_insertion_order() {
    let mut m: OrdMap<usize> = OrdMap::new();
    m.insert("b".to_string(), 1);
    m.insert("a".to_string(), 2);
    m.insert("c".to_string(), 3);
    m.insert("a".to_string(), 4);
    assert_eq!(3, m.len());
    assert_eq!("b", m.key_at(0));
    assert_eq!("a", m.key_at(1));
    assert_eq!("c", m.key_at(2));
    assert_eq!(&4, m.value_at(1));
    assert_eq!(Some(&4), m.get("a"));
    assert_eq!(None, m.get("d"));
}
