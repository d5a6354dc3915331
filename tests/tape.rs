use rust_wasm::tape::{parse_jomini, resolve_settings, DuplicateKeys, TapeError, TypeNarrowing};

#[test]
fn repeated_key_grouped() {
    let out = parse_jomini("a=1 a=2", Some(DuplicateKeys::Group), Some(false), None).unwrap();
    assert_eq!(out, "{\"a\":[1,2]}");
}

#[test]
fn repeated_key_preserved() {
    let out = parse_jomini("a=1 a=2", Some(DuplicateKeys::Preserve), Some(false), None).unwrap();
    assert_eq!(out, "{\"a\":1,\"a\":2}");
}

#[test]
fn repeated_key_as_pairs() {
    let out = parse_jomini("a=1 a=2", Some(DuplicateKeys::KeyValuePairs), Some(false), None).unwrap();
    assert!(out.contains("[[\"a\",1],[\"a\",2]]"));
}

#[test]
fn unquoted_number_narrowed() {
    for tn in [TypeNarrowing::All, TypeNarrowing::Unquoted] {
        let out = parse_jomini("a=42", None, Some(false), Some(tn)).unwrap();
        assert_eq!(out, "{\"a\":42}");
    }
}

#[test]
fn quoted_number_narrowed_only_under_all() {
    let out = parse_jomini("a=\"42\"", None, Some(false), Some(TypeNarrowing::All)).unwrap();
    assert_eq!(out, "{\"a\":42}");
    let out = parse_jomini("a=\"42\"", None, Some(false), Some(TypeNarrowing::Unquoted)).unwrap();
    assert_eq!(out, "{\"a\":\"42\"}");
    let out = parse_jomini("a=\"42\"", None, Some(false), Some(TypeNarrowing::Disabled)).unwrap();
    assert_eq!(out, "{\"a\":\"42\"}");
}

#[test]
fn defaults_preserve_narrow_and_pretty_print() {
    let s = resolve_settings(None, None, None);
    assert_eq!(s.duplicate_keys, DuplicateKeys::Preserve);
    assert!(s.prettyprint);
    assert_eq!(s.type_narrowing, TypeNarrowing::All);
    let out = parse_jomini("a=1 a=2", None, None, None).unwrap();
    assert!(out.contains('\n'));
    assert_eq!(out.split_whitespace().collect::<String>(), "{\"a\":1,\"a\":2}");
}

#[test]
fn truncated_input_fails() {
    assert_eq!(parse_jomini("a{b=}", None, None, None), Err(TapeError::Parse));
}
