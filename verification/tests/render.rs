use docgaps::{
    count_digits, pad_locations, shorten, Classify, ClassifyKind, Color, FileGroup, Kinds,
    Missing, Spanned, Style, Theme,
};

fn plain(color: Color) -> Style {
    Style { color: Some(color), bold: false, italic: false, underline: false, dimmed: false }
}

fn theme(kinds: Kinds) -> Theme {
    Theme {
        file_header: None,
        file_name: None,
        location: None,
        message: None,
        highlight_code: None,
        code: None,
        kinds,
    }
}

fn group(path: &str, places: &[(usize, usize)]) -> FileGroup {
    FileGroup {
        path: path.to_string(),
        entries: places
            .iter()
            .map(|(row, col)| Missing { message: Spanned::new(String::from("m"), *row, *col), text: vec![] })
            .collect(),
    }
}

#[test]
fn count_digits_counts_decimal_digits() {
    assert_eq!(count_digits(0), 1);
    assert_eq!(count_digits(9), 1);
    assert_eq!(count_digits(10), 2);
    assert_eq!(count_digits(99), 2);
    assert_eq!(count_digits(100), 3);
    assert_eq!(count_digits(12345), 5);
    assert_eq!(count_digits(999_999_999), 9);
    assert_eq!(count_digits(1_000_000_000), 10);
    assert_eq!(count_digits(usize::MAX), usize::MAX.to_string().len());
}

#[test]
fn shorten_takes_stock_phrases_off() {
    assert_eq!(shorten("missing documentation for a struct"), "struct");
    assert_eq!(shorten("missing documentation for an enum"), "enum");
    assert_eq!(shorten("docs for function returning `Result` missing `# Errors` section"), "missing `# Errors` section");
    assert_eq!(shorten("docs for function which may panic missing `# Panics` section"), "missing `# Panics` section");
    assert_eq!(shorten("safe function's docs have unnecessary `# Safety` section"), "unnecessary `# Safety` section");
    assert_eq!(shorten("unsafe function's docs are missing a `# Safety` section"), "missing a `# Safety` section");
}

#[test]
fn shorten_leaves_other_text_alone() {
    assert_eq!(shorten(""), "");
    assert_eq!(shorten("missing documentation for the crate"), "missing documentation for the crate");
    assert_eq!(shorten("Missing documentation for a struct"), "Missing documentation for a struct");
    assert_eq!(shorten(" missing documentation for a struct"), " missing documentation for a struct");
}

#[test]
fn shorten_takes_each_phrase_once_and_in_order() {
    assert_eq!(
        shorten("missing documentation for a missing documentation for a struct"),
        "missing documentation for a struct"
    );
    assert_eq!(
        shorten("missing documentation for a safe function's docs have x"),
        "x"
    );
    assert_eq!(
        shorten("safe function's docs have missing documentation for a x"),
        "missing documentation for a x"
    );
}

#[test]
fn pad_locations_of_an_empty_report_is_one() {
    assert_eq!(pad_locations(&[]), 1);
}

#[test]
fn pad_locations_is_the_widest_location() {
    // "lib.rs" + 2 + (2 + 1), "main.rs" + 2 + (1 + 1)
    let groups = [group("lib.rs", &[(4, 1), (10, 3)]), group("main.rs", &[(1, 1)])];
    assert_eq!(pad_locations(&groups), 11);
    let groups = [group("a.rs", &[(1, 1)]), group("a_longer_name.rs", &[(100, 20), (7, 1234)])];
    assert_eq!(pad_locations(&groups), 16 + 2 + 5);
}

#[test]
fn pad_locations_counts_one_for_a_file_without_findings() {
    assert_eq!(pad_locations(&[group("lib.rs", &[])]), 9);
}

#[test]
fn pad_locations_counts_the_bytes_of_a_path() {
    assert_eq!(pad_locations(&[group("é.rs", &[(1, 1)])]), 5 + 2 + 2);
}

#[test]
fn kinds_are_found_by_their_keys() {
    let red = plain(Color(255, 0, 0));
    let blue = plain(Color(0, 0, 255));
    let kinds = Kinds { structure: Some(red), the_crate: Some(blue), ..Kinds::default() };
    assert_eq!(kinds.get("struct"), Some(red));
    assert_eq!(kinds.get("the_crate"), Some(blue));
    assert_eq!(kinds.get("crate"), None);
    assert_eq!(kinds.get("enum"), None);
    assert_eq!(kinds.get("structure"), None);
    assert_eq!(kinds.get(""), None);
}

#[test]
fn every_key_of_kinds_has_its_own_field() {
    let style = |n: u8| plain(Color(n, n, n));
    let kinds = Kinds {
        associated_constant: Some(style(1)),
        associated_function: Some(style(2)),
        enumeration: Some(style(3)),
        function: Some(style(4)),
        method: Some(style(5)),
        module: Some(style(6)),
        structure: Some(style(7)),
        struct_field: Some(style(8)),
        traity: Some(style(9)),
        variant: Some(style(10)),
        the_crate: Some(style(11)),
    };
    let keys = [
        "associated_constant",
        "associated_function",
        "enum",
        "function",
        "method",
        "module",
        "struct",
        "struct_field",
        "trait",
        "variant",
        "the_crate",
    ];
    for (n, key) in keys.iter().enumerate() {
        assert_eq!(kinds.get(key), Some(style(n as u8 + 1)), "{key}");
    }
}

#[test]
fn themed_classification_needs_a_style() {
    let green = plain(Color(0, 255, 0));
    let themed = theme(Kinds { struct_field: Some(green), ..Kinds::default() });
    assert_eq!(
        Classify::with_theme("missing documentation for a struct field", &themed),
        Some(("missing documentation for a ", "struct field", green))
    );
    assert_eq!(Classify::with_theme("missing documentation for a struct", &themed), None);
    assert_eq!(Classify::with_theme("nothing to see", &themed), None);
    assert_eq!(Classify::with_theme("", &themed), None);
}

#[test]
fn themed_classification_uses_the_key_of_the_kind() {
    let style = plain(Color(1, 2, 3));
    let themed = theme(Kinds { the_crate: Some(style), enumeration: Some(style), ..Kinds::default() });
    assert_eq!(ClassifyKind::Crate.as_key(), "crate");
    assert_eq!(Classify::with_theme("missing documentation for the crate", &themed), None);
    assert_eq!(
        Classify::with_theme("missing documentation for an enum", &themed),
        Some(("missing documentation for an ", "enum", style))
    );
}
