use docgaps::{Classification, Classify, ClassifyKind};

fn all_kinds() -> Vec<ClassifyKind> {
    vec![
        ClassifyKind::AssociatedConstant,
        ClassifyKind::AssociatedFunction,
        ClassifyKind::AssociatedType,
        ClassifyKind::Constant,
        ClassifyKind::Crate,
        ClassifyKind::Enum,
        ClassifyKind::Function,
        ClassifyKind::Macro,
        ClassifyKind::Method,
        ClassifyKind::Struct,
        ClassifyKind::StructField,
        ClassifyKind::Trait,
        ClassifyKind::TypeAlias,
        ClassifyKind::Variant,
        ClassifyKind::Static,
    ]
}

#[test]
fn keys_are_snake_case() {
    let keys: Vec<&str> = all_kinds().iter().map(|k| k.as_key()).collect();
    assert_eq!(
        keys,
        vec![
            "associated_constant",
            "associated_function",
            "associated_type",
            "constant",
            "crate",
            "enum",
            "function",
            "macro",
            "method",
            "struct",
            "struct_field",
            "trait",
            "type_alias",
            "variant",
            "static",
        ]
    );
}

#[test]
fn phrases_are_as_the_lint_writes_them() {
    let phrases: Vec<&str> = all_kinds().iter().map(|k| k.as_str()).collect();
    assert_eq!(
        phrases,
        vec![
            "associated constant",
            "associated function",
            "associated type",
            "constant",
            "the crate",
            "enum",
            "function",
            "macro",
            "method",
            "struct",
            "struct field",
            "trait",
            "type alias",
            "variant",
            "static",
        ]
    );
}

#[test]
fn parse_finds_every_kind_by_its_phrase() {
    for kind in all_kinds() {
        let text = format!("missing documentation for a {}", kind.as_str());
        let offset = "missing documentation for a ".len();
        assert_eq!(ClassifyKind::parse(&text), Some((kind, offset)));
    }
}

#[test]
fn parse_of_a_bare_phrase_has_offset_zero() {
    assert_eq!(ClassifyKind::parse("enum"), Some((ClassifyKind::Enum, 0)));
    assert_eq!(ClassifyKind::parse("the crate"), Some((ClassifyKind::Crate, 0)));
}

#[test]
fn parse_prefers_struct_field_to_struct() {
    assert_eq!(
        ClassifyKind::parse("missing documentation for a struct field"),
        Some((ClassifyKind::StructField, 28))
    );
    assert_eq!(
        ClassifyKind::parse("missing documentation for a struct"),
        Some((ClassifyKind::Struct, 28))
    );
}

#[test]
fn parse_prefers_the_longer_of_two_phrases() {
    assert_eq!(
        ClassifyKind::parse("an associated constant"),
        Some((ClassifyKind::AssociatedConstant, 3))
    );
    assert_eq!(ClassifyKind::parse("a constant"), Some((ClassifyKind::Constant, 2)));
    assert_eq!(
        ClassifyKind::parse("an associated function"),
        Some((ClassifyKind::AssociatedFunction, 3))
    );
    assert_eq!(ClassifyKind::parse("a function"), Some((ClassifyKind::Function, 2)));
}

#[test]
fn parse_counts_the_offset_in_bytes() {
    let text = "dokumentation fehlt für trait";
    assert_eq!(
        ClassifyKind::parse(text),
        Some((ClassifyKind::Trait, text.len() - "trait".len()))
    );
    assert_eq!(text.len() - "trait".len(), 25);
}

#[test]
fn parse_of_unknown_text_is_none() {
    assert_eq!(ClassifyKind::parse(""), None);
    assert_eq!(ClassifyKind::parse("missing documentation for a module"), None);
    assert_eq!(ClassifyKind::parse("struct "), None);
    assert_eq!(ClassifyKind::parse("Struct"), None);
    assert_eq!(ClassifyKind::parse("enu"), None);
    assert_eq!(ClassifyKind::parse("num"), None);
}

#[test]
fn classify_splits_at_the_phrase() {
    match Classify::classify("missing documentation for a struct field") {
        Classification::Classified { head, tail, kind } => {
            assert_eq!(head, "missing documentation for a ");
            assert_eq!(tail, "struct field");
            assert_eq!(kind, ClassifyKind::StructField);
        }
        Classification::Unclassified(_) => panic!("a struct field must be classified"),
    }
}

#[test]
fn classify_of_the_empty_text_is_unclassified() {
    match Classify::classify("") {
        Classification::Unclassified(text) => assert_eq!(text, ""),
        Classification::Classified { .. } => panic!("the empty text names no kind"),
    }
}

#[test]
fn classify_passes_unknown_text_through() {
    let text = "unsafe function's docs are missing a `# Safety` section";
    match Classify::classify(text) {
        Classification::Unclassified(whole) => assert_eq!(whole, text),
        Classification::Classified { .. } => panic!("no kind ends this text"),
    }
}

#[test]
fn classify_head_and_tail_make_up_the_message() {
    for kind in all_kinds() {
        let text = format!("día de {}", kind.as_str());
        match Classify::classify(&text) {
            Classification::Classified { head, tail, kind: found } => {
                assert_eq!(found, kind);
                assert_eq!(tail, kind.as_str());
                assert_eq!(format!("{head}{tail}"), text);
            }
            Classification::Unclassified(_) => panic!("the phrase of a kind ends the text"),
        }
    }
}
