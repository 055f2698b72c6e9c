use docgaps::{
    partition, Classification, Classify, ClassifyKind, Filename, Message, MissingDocs, Span, Text,
    VisitError,
};

fn span<'a>(name: &'a str, row: usize, col: usize, text: Vec<Text<'a>>) -> Span<'a> {
    Span { file: Filename { name, row, col }, text }
}

fn message<'a>(code: &'a str, text: &'a str, spans: Vec<Span<'a>>) -> Message<'a> {
    Message { code: Some(code), message: text, spans }
}

fn unfiltered() -> MissingDocs {
    MissingDocs::new(vec![], vec![], vec![])
}

fn rows(docs: &MissingDocs, path: &str) -> Vec<usize> {
    match docs.map.get(path) {
        Some(group) => group.entries.iter().map(|entry| entry.message.row).collect(),
        None => vec![],
    }
}

fn paths(docs: &MissingDocs) -> Vec<String> {
    docs.map.groups().iter().map(|group| group.path.clone()).collect()
}

#[test]
fn new_walker_is_empty() {
    let docs = unfiltered();
    assert!(docs.map.is_empty());
    assert_eq!(docs.map.len(), 0);
    assert!(docs.last.is_none());
    assert!(docs.map.get("lib.rs").is_none());
}

#[test]
fn end_to_end_struct_field() {
    let text = "missing documentation for a struct field";
    let forest = [message(
        "missing_docs",
        text,
        vec![span("lib.rs", 4, 1, vec![Text { data: "    pub x: u8,\n", start: 8, end: 9 }])],
    )];
    let mut docs = unfiltered();
    assert_eq!(docs.walk(&forest), Ok(()));

    assert_eq!(paths(&docs), vec!["lib.rs"]);
    let group = docs.map.get("lib.rs").unwrap();
    assert_eq!(group.entries.len(), 1);
    let entry = &group.entries[0];
    assert_eq!(entry.message.item, text);
    assert_eq!((entry.message.row, entry.message.col), (4, 1));
    assert_eq!(entry.text.len(), 1);
    assert_eq!(entry.text[0].data, "    pub x: u8,\n");
    assert_eq!((entry.text[0].start, entry.text[0].end), (8, 9));

    match Classify::classify(&entry.message.item) {
        Classification::Classified { head, tail, kind } => {
            assert_eq!(head, "missing documentation for a ");
            assert_eq!(tail, "struct field");
            assert_eq!(kind, ClassifyKind::StructField);
        }
        Classification::Unclassified(_) => panic!("a struct field must be classified"),
    }

    let windows = partition(&entry.text).unwrap();
    assert_eq!(windows.len(), 1);
    assert_eq!(windows[0].prefix, "pub");
    assert_eq!(windows[0].highlighted, " ");
    assert_eq!(windows[0].suffix, "x: u8,\n");
    assert_eq!(
        format!("{}{}{}", windows[0].prefix, windows[0].highlighted, windows[0].suffix),
        "pub x: u8,\n"
    );
}

#[test]
fn path_gate_drops_the_span_and_its_message() {
    let forest = [
        message(
            "missing_docs",
            "missing documentation for a struct",
            vec![span("other.rs", 1, 1, vec![])],
        ),
        message(
            "missing_docs",
            "missing documentation for an enum",
            vec![span("lib.rs", 2, 5, vec![])],
        ),
    ];
    let mut docs = MissingDocs::new(vec![String::from("lib.rs")], vec![], vec![]);
    assert_eq!(docs.walk(&forest), Ok(()));
    assert_eq!(paths(&docs), vec!["lib.rs"]);
    assert!(docs.map.get("other.rs").is_none());
    let group = docs.map.get("lib.rs").unwrap();
    assert_eq!(group.entries.len(), 1);
    assert_eq!(group.entries[0].message.item, "missing documentation for an enum");
    assert!(docs.last.is_none());
}

#[test]
fn path_gate_leaves_no_message_for_a_later_span() {
    let mut docs = MissingDocs::new(vec![String::from("lib.rs")], vec![], vec![]);
    assert!(docs.offer(Some("missing_docs"), "missing documentation for a struct"));
    assert_eq!(docs.visit_span(Filename { name: "other.rs", row: 1, col: 1 }, &[]), Ok(()));
    assert!(docs.last.is_none());
    assert!(docs.map.is_empty());
    assert_eq!(
        docs.visit_span(Filename { name: "lib.rs", row: 2, col: 1 }, &[]),
        Err(VisitError::SpanWithoutMessage)
    );
    assert!(docs.map.is_empty());
}

#[test]
fn entries_keep_the_order_of_visiting() {
    let forest = [
        message("missing_docs", "first", vec![span("lib.rs", 10, 1, vec![])]),
        message("missing_docs", "second", vec![span("lib.rs", 3, 7, vec![])]),
        message("missing_docs", "third", vec![span("lib.rs", 5, 2, vec![])]),
    ];
    let mut docs = unfiltered();
    assert_eq!(docs.walk(&forest), Ok(()));
    assert_eq!(rows(&docs, "lib.rs"), vec![10, 3, 5]);
    let items: Vec<&str> = docs.map.get("lib.rs").unwrap().entries.iter().map(|e| &*e.message.item).collect();
    assert_eq!(items, vec!["first", "second", "third"]);
}

#[test]
fn entries_of_interleaved_files_keep_their_order() {
    let forest = [
        message("missing_docs", "a", vec![span("b.rs", 9, 1, vec![])]),
        message("missing_docs", "b", vec![span("a.rs", 8, 1, vec![])]),
        message("missing_docs", "c", vec![span("b.rs", 1, 1, vec![])]),
        message("missing_docs", "d", vec![span("a.rs", 2, 1, vec![])]),
        message("missing_docs", "e", vec![span("b.rs", 4, 1, vec![])]),
    ];
    let mut docs = unfiltered();
    assert_eq!(docs.walk(&forest), Ok(()));
    assert_eq!(paths(&docs), vec!["a.rs", "b.rs"]);
    assert_eq!(rows(&docs, "a.rs"), vec![8, 2]);
    assert_eq!(rows(&docs, "b.rs"), vec![9, 1, 4]);
}

#[test]
fn files_stand_in_byte_order_of_their_paths() {
    let names = ["src/z.rs", "src/a.rs", "src/lib.rs", "Src/a.rs", "src/a", "a", "src.rs", "src/é.rs"];
    let mut docs = unfiltered();
    for (row, name) in names.iter().enumerate() {
        assert!(docs.offer(Some("missing_docs"), "text"));
        assert_eq!(docs.visit_span(Filename { name, row, col: 1 }, &[]), Ok(()));
    }
    let mut sorted: Vec<String> = names.iter().map(|name| name.to_string()).collect();
    sorted.sort();
    assert_eq!(paths(&docs), sorted);
    assert_eq!(docs.map.len(), names.len());
    for (row, name) in names.iter().enumerate() {
        assert_eq!(rows(&docs, name), vec![row]);
    }
}

#[test]
fn span_without_message_is_an_error() {
    let mut docs = unfiltered();
    assert_eq!(
        docs.visit_span(Filename { name: "lib.rs", row: 1, col: 1 }, &[]),
        Err(VisitError::SpanWithoutMessage)
    );
    assert!(docs.map.is_empty());
    assert!(docs.last.is_none());
}

#[test]
fn second_span_of_a_message_is_an_error() {
    let forest = [message(
        "missing_docs",
        "missing documentation for a struct",
        vec![span("lib.rs", 1, 1, vec![]), span("lib.rs", 2, 1, vec![])],
    )];
    let mut docs = unfiltered();
    assert_eq!(docs.walk(&forest), Err(VisitError::SpanWithoutMessage));
}

#[test]
fn rejected_message_has_its_spans_passed_over() {
    let forest = [
        message("dead_code", "unused", vec![span("lib.rs", 1, 1, vec![])]),
        Message { code: None, message: "no code", spans: vec![span("lib.rs", 2, 1, vec![])] },
        message("missing_docs", "missing documentation for a trait", vec![span("lib.rs", 3, 1, vec![])]),
    ];
    let mut docs = unfiltered();
    assert_eq!(docs.walk(&forest), Ok(()));
    assert_eq!(rows(&docs, "lib.rs"), vec![3]);
}

#[test]
fn rejected_message_clears_a_waiting_message() {
    let mut docs = unfiltered();
    assert!(docs.offer(Some("missing_docs"), "waits"));
    assert_eq!(docs.last.as_deref(), Some("waits"));
    assert!(!docs.offer(Some("dead_code"), "turned away"));
    assert!(docs.last.is_none());
}

#[test]
fn admitted_message_replaces_a_waiting_message() {
    let mut docs = unfiltered();
    assert!(docs.offer(Some("missing_docs"), "stale"));
    assert!(docs.offer(Some("clippy::empty_docs"), "fresh"));
    assert_eq!(docs.visit_span(Filename { name: "lib.rs", row: 1, col: 2 }, &[]), Ok(()));
    let group = docs.map.get("lib.rs").unwrap();
    assert_eq!(group.entries.len(), 1);
    assert_eq!(group.entries[0].message.item, "fresh");
    assert!(docs.last.is_none());
}

#[test]
fn message_without_spans_waits() {
    let forest = [message("missing_docs", "missing documentation for the crate", vec![])];
    let mut docs = unfiltered();
    assert_eq!(docs.walk(&forest), Ok(()));
    assert!(docs.map.is_empty());
    assert_eq!(docs.last.as_deref(), Some("missing documentation for the crate"));
}

#[test]
fn kind_filters_apply_to_the_walk() {
    let forest = [
        message("missing_docs", "missing documentation for a struct", vec![span("lib.rs", 1, 1, vec![])]),
        message("missing_docs", "missing documentation for a trait", vec![span("lib.rs", 2, 1, vec![])]),
        message("missing_docs", "missing documentation for an enum", vec![span("lib.rs", 3, 1, vec![])]),
    ];
    let mut only = MissingDocs::new(vec![], vec![ClassifyKind::Trait], vec![]);
    assert_eq!(only.walk(&forest), Ok(()));
    assert_eq!(rows(&only, "lib.rs"), vec![2]);

    let mut without = MissingDocs::new(vec![], vec![], vec![ClassifyKind::Trait]);
    assert_eq!(without.walk(&forest), Ok(()));
    assert_eq!(rows(&without, "lib.rs"), vec![1, 3]);

    let mut both = MissingDocs::new(vec![], vec![ClassifyKind::Trait], vec![ClassifyKind::Trait]);
    assert_eq!(both.walk(&forest), Ok(()));
    assert_eq!(rows(&both, "lib.rs"), vec![2]);
}

#[test]
fn filter_message_applies_both_gates() {
    let docs = MissingDocs::new(vec![], vec![ClassifyKind::Method], vec![]);
    let method = message("missing_docs", "missing documentation for a method", vec![]);
    let trait_ = message("missing_docs", "missing documentation for a trait", vec![]);
    let other = message("unused", "missing documentation for a method", vec![]);
    assert!(docs.filter_message(&method));
    assert!(!docs.filter_message(&trait_));
    assert!(!docs.filter_message(&other));
}

#[test]
fn lines_are_copied_in_order() {
    let lines = vec![
        Text { data: "    /// a", start: 5, end: 8 },
        Text { data: "", start: 0, end: 0 },
        Text { data: "    fn f() {}", start: 5, end: 7 },
    ];
    let forest = [message("missing_docs", "missing documentation for a function", vec![span("lib.rs", 7, 5, lines)])];
    let mut docs = unfiltered();
    assert_eq!(docs.walk(&forest), Ok(()));
    let entry = &docs.map.get("lib.rs").unwrap().entries[0];
    let copied: Vec<(&str, usize, usize)> = entry.text.iter().map(|t| (&*t.data, t.start, t.end)).collect();
    assert_eq!(copied, vec![("    /// a", 5, 8), ("", 0, 0), ("    fn f() {}", 5, 7)]);
    assert_eq!((entry.message.row, entry.message.col), (7, 5));
}

#[test]
fn forest_with_one_span_for_each_message_never_fails() {
    let forest = [
        message("missing_docs", "missing documentation for a struct", vec![span("a.rs", 1, 1, vec![])]),
        message("dead_code", "unused", vec![span("a.rs", 2, 1, vec![])]),
        message("missing_docs", "missing documentation for a trait", vec![]),
        message("clippy::empty_docs", "empty doc comment", vec![span("b.rs", 3, 1, vec![])]),
        Message { code: None, message: "note", spans: vec![span("c.rs", 4, 1, vec![])] },
        message("missing_docs", "missing documentation for an enum", vec![span("c.rs", 5, 1, vec![])]),
    ];
    for set in [vec![], vec![String::from("a.rs")], vec![String::from("c.rs"), String::from("x.rs")]] {
        for included in [vec![], vec![ClassifyKind::Struct], vec![ClassifyKind::Enum, ClassifyKind::Trait]] {
            for excluded in [vec![], vec![ClassifyKind::Enum]] {
                let mut docs = MissingDocs::new(set.clone(), included.clone(), excluded);
                assert_eq!(docs.walk(&forest), Ok(()));
            }
        }
    }
}
