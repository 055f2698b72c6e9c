use docgaps::{
    ceil_char_boundary, floor_char_boundary, partition, window, HighlightFragment, WindowError,
};

fn fragment(data: &str, start: usize, end: usize) -> HighlightFragment {
    HighlightFragment { data: data.to_string(), start, end }
}

fn pieces(spans: &[HighlightFragment]) -> Vec<(String, String, String)> {
    partition(spans)
        .expect("the lines can be cut")
        .iter()
        .map(|w| (w.prefix.to_string(), w.highlighted.to_string(), w.suffix.to_string()))
        .collect()
}

fn triple(a: &str, b: &str, c: &str) -> (String, String, String) {
    (a.to_string(), b.to_string(), c.to_string())
}

#[test]
fn floor_keeps_a_boundary() {
    assert_eq!(floor_char_boundary("hello", 0), 0);
    assert_eq!(floor_char_boundary("hello", 3), 3);
    assert_eq!(floor_char_boundary("hello", 4), 4);
}

#[test]
fn floor_of_an_index_at_or_past_the_end_is_the_length() {
    assert_eq!(floor_char_boundary("hello", 5), 5);
    assert_eq!(floor_char_boundary("hello", 6), 5);
    assert_eq!(floor_char_boundary("hello", usize::MAX), 5);
    assert_eq!(floor_char_boundary("", 0), 0);
    assert_eq!(floor_char_boundary("", 7), 0);
}

#[test]
fn floor_snaps_back_inside_a_character() {
    // a (1 byte), é (2), 日 (3), 😀 (4), z (1)
    let text = "aé日😀z";
    let expected = [0, 1, 1, 3, 3, 3, 6, 6, 6, 6, 10, 11, 11];
    for (index, at) in expected.iter().enumerate() {
        assert_eq!(floor_char_boundary(text, index), *at, "index {index}");
    }
}

#[test]
fn ceil_keeps_a_boundary() {
    assert_eq!(ceil_char_boundary("hello", 0), 0);
    assert_eq!(ceil_char_boundary("hello", 3), 3);
    assert_eq!(ceil_char_boundary("hello", 5), 5);
}

#[test]
fn ceil_of_an_index_past_the_end_is_the_length() {
    assert_eq!(ceil_char_boundary("hello", 6), 5);
    assert_eq!(ceil_char_boundary("hello", usize::MAX), 5);
    assert_eq!(ceil_char_boundary("", 0), 0);
    assert_eq!(ceil_char_boundary("", 1), 0);
}

#[test]
fn ceil_snaps_forward_inside_a_character() {
    let text = "aé日😀z";
    let expected = [0, 1, 3, 3, 6, 6, 6, 10, 10, 10, 10, 11, 11];
    for (index, at) in expected.iter().enumerate() {
        assert_eq!(ceil_char_boundary(text, index), *at, "index {index}");
    }
}

#[test]
fn ceil_reaches_the_end_over_a_last_wide_character() {
    assert_eq!(ceil_char_boundary("ab😀", 3), 6);
    assert_eq!(ceil_char_boundary("ab😀", 5), 6);
    assert_eq!(floor_char_boundary("ab😀", 5), 2);
}

#[test]
fn snapped_indices_are_boundaries() {
    let text = "día 日本 😀 ok";
    for index in 0..text.len() + 3 {
        let floor = floor_char_boundary(text, index);
        let ceil = ceil_char_boundary(text, index);
        assert!(text.is_char_boundary(floor));
        assert!(text.is_char_boundary(ceil));
        if index <= text.len() {
            assert!(floor <= index && index <= ceil);
            assert!(ceil - floor <= 4);
        }
    }
}

#[test]
fn window_cuts_an_indented_line() {
    let line = fragment("    pub x: u8,\n", 8, 9);
    let mut pad = None;
    let w = window(&line, true, &mut pad).unwrap().unwrap();
    assert_eq!(pad, Some(4));
    assert_eq!((w.prefix, w.highlighted, w.suffix), ("pub", " ", "x: u8,\n"));
}

#[test]
fn window_moves_the_bounds_left_by_the_pad_and_one() {
    let line = fragment("  let value = 1;", 7, 12);
    let mut pad = None;
    let w = window(&line, true, &mut pad).unwrap().unwrap();
    assert_eq!(pad, Some(2));
    // 7 - 3 = 4 and 12 - 3 = 9, read in "let value = 1;"
    assert_eq!((w.prefix, w.highlighted, w.suffix), ("let ", "value", " = 1;"));
}

#[test]
fn window_stops_the_bounds_at_zero() {
    let line = fragment("    abc", 2, 5);
    let mut pad = None;
    let w = window(&line, true, &mut pad).unwrap().unwrap();
    assert_eq!((w.prefix, w.highlighted, w.suffix), ("", "", "abc"));
    let line = fragment("    abc", 0, 7);
    let w = window(&line, true, &mut pad).unwrap().unwrap();
    assert_eq!((w.prefix, w.highlighted, w.suffix), ("", "ab", "c"));
}

#[test]
fn window_skips_a_blank_line() {
    let mut pad = None;
    assert!(window(&fragment("", 0, 0), false, &mut pad).unwrap().is_none());
    assert!(window(&fragment("   \t\n", 1, 2), false, &mut pad).unwrap().is_none());
    assert_eq!(pad, None);
}

#[test]
fn window_takes_the_pad_of_a_blank_first_line() {
    let mut pad = None;
    assert!(window(&fragment("  \n", 0, 0), true, &mut pad).unwrap().is_none());
    assert_eq!(pad, Some(3));
    let line = fragment("   x = 1", 4, 5);
    let w = window(&line, false, &mut pad).unwrap().unwrap();
    assert_eq!(pad, Some(3));
    assert_eq!((w.prefix, w.highlighted, w.suffix), ("", "x", " = 1"));
}

#[test]
fn window_keeps_the_shared_pad_on_later_lines() {
    let mut pad = Some(4);
    let line = fragment("        body", 9, 13);
    let w = window(&line, false, &mut pad).unwrap().unwrap();
    assert_eq!(pad, Some(4));
    assert_eq!((w.prefix, w.highlighted, w.suffix), ("    ", "body", ""));
}

#[test]
fn window_without_a_shared_pad_cuts_nothing_off() {
    let mut pad = None;
    let line = fragment("  ab", 2, 4);
    let w = window(&line, false, &mut pad).unwrap().unwrap();
    assert_eq!(pad, None);
    assert_eq!((w.prefix, w.highlighted, w.suffix), (" ", " a", "b"));
}

#[test]
fn window_replaces_the_pad_on_a_first_line() {
    let mut pad = Some(9);
    let line = fragment(" ab", 2, 3);
    let w = window(&line, true, &mut pad).unwrap().unwrap();
    assert_eq!(pad, Some(1));
    assert_eq!((w.prefix, w.highlighted, w.suffix), ("", "a", "b"));
}

#[test]
fn window_counts_characters_not_bytes() {
    // é takes two bytes: the adjusted bounds 7 and 9 lie in the characters
    // 4 and 6, and these are read as byte offsets.
    let line = fragment("ééé abc", 8, 10);
    let mut pad = None;
    let w = window(&line, true, &mut pad).unwrap().unwrap();
    assert_eq!(pad, Some(0));
    assert_eq!((w.prefix, w.highlighted, w.suffix), ("éé", "é", " abc"));
}

#[test]
fn window_snaps_inside_a_two_byte_character() {
    let line = fragment("héllo wörld", 2, 4);
    let mut pad = None;
    let w = window(&line, true, &mut pad).unwrap().unwrap();
    assert_eq!((w.prefix, w.highlighted, w.suffix), ("h", "é", "llo wörld"));
}

#[test]
fn window_snaps_inside_a_three_byte_character() {
    let line = fragment("日本語テキスト", 5, 9);
    let mut pad = None;
    let w = window(&line, true, &mut pad).unwrap().unwrap();
    assert_eq!((w.prefix, w.highlighted, w.suffix), ("", "日", "本語テキスト"));
}

#[test]
fn window_snaps_inside_a_four_byte_character() {
    let line = fragment("a😀b😀c", 4, 9);
    let mut pad = None;
    let w = window(&line, true, &mut pad).unwrap().unwrap();
    assert_eq!((w.prefix, w.highlighted, w.suffix), ("a", "😀", "b😀c"));
    let line = fragment("😀😀😀😀😀", 14, 21);
    let w = window(&line, true, &mut pad).unwrap().unwrap();
    assert_eq!((w.prefix, w.highlighted, w.suffix), ("", "😀😀", "😀😀😀"));
}

#[test]
fn window_strips_unicode_white_space() {
    let line = fragment("\u{a0}\u{3000}\u{2003}x y", 0, 0);
    let mut pad = None;
    let w = window(&line, true, &mut pad).unwrap().unwrap();
    assert_eq!(pad, Some(8));
    assert_eq!((w.prefix, w.highlighted, w.suffix), ("", "", "x y"));
}

#[test]
fn window_keeps_what_is_not_white_space() {
    let line = fragment("\u{200b}x", 0, 0);
    let mut pad = None;
    let w = window(&line, true, &mut pad).unwrap().unwrap();
    assert_eq!(pad, Some(0));
    assert_eq!((w.prefix, w.highlighted, w.suffix), ("", "", "\u{200b}x"));
}

#[test]
fn window_of_an_interval_past_the_end_is_empty_at_the_end() {
    let line = fragment("  ab", 50, 60);
    let mut pad = None;
    let w = window(&line, true, &mut pad).unwrap().unwrap();
    assert_eq!((w.prefix, w.highlighted, w.suffix), ("ab", "", ""));
}

#[test]
fn window_refuses_a_pad_that_splits_a_character() {
    let mut pad = Some(2);
    assert_eq!(
        window(&fragment(" éb", 0, 1), false, &mut pad).err(),
        Some(WindowError::Misaligned)
    );
    assert_eq!(pad, Some(2));
}

#[test]
fn window_refuses_a_pad_longer_than_the_line() {
    let mut pad = Some(4);
    assert_eq!(window(&fragment("}", 0, 1), false, &mut pad).err(), Some(WindowError::Misaligned));
}

#[test]
fn window_refuses_an_interval_that_ends_before_it_begins() {
    let mut pad = None;
    assert_eq!(
        window(&fragment("abcdef", 6, 2), true, &mut pad).err(),
        Some(WindowError::Reversed)
    );
}

#[test]
fn window_bears_the_largest_bounds_and_pad() {
    let mut pad = Some(usize::MAX);
    assert!(window(&fragment("   ", usize::MAX, usize::MAX), false, &mut pad).unwrap().is_none());
    let mut pad = Some(0);
    let line = fragment("ab", usize::MAX, usize::MAX);
    let w = window(&line, false, &mut pad).unwrap().unwrap();
    assert_eq!((w.prefix, w.highlighted, w.suffix), ("ab", "", ""));
}

#[test]
fn window_pieces_make_up_the_trimmed_line() {
    let lines = ["  día 日本 😀 ok ", "\tx", "plain", " é", "😀"];
    for line in lines {
        for start in 0..line.len() + 3 {
            for end in start..line.len() + 3 {
                let mut pad = None;
                let cut = fragment(line, start, end);
                let w = window(&cut, true, &mut pad).unwrap().unwrap();
                assert_eq!(format!("{}{}{}", w.prefix, w.highlighted, w.suffix), line.trim_start());
                assert_eq!(pad, Some(line.len() - line.trim_start().len()));
            }
        }
    }
}

#[test]
fn partition_of_nothing_is_nothing() {
    assert_eq!(pieces(&[]), vec![]);
}

#[test]
fn partition_shares_the_pad_of_the_first_line() {
    let spans = [
        fragment("    fn a() {", 8, 9),
        fragment("        body", 9, 13),
        fragment("", 0, 0),
        fragment("    }", 5, 6),
    ];
    assert_eq!(
        pieces(&spans),
        vec![triple("fn ", "a", "() {"), triple("    ", "body", ""), triple("", "}", "")]
    );
}

#[test]
fn partition_takes_the_pad_of_a_blank_first_line() {
    let spans = [fragment("  ", 0, 0), fragment("    x = 1", 5, 6)];
    assert_eq!(pieces(&spans), vec![triple("  ", "x", " = 1")]);
}

#[test]
fn partition_stops_at_a_line_that_the_pad_does_not_fit() {
    let spans = [fragment("    a", 0, 0), fragment("é", 0, 0), fragment("    b", 0, 0)];
    assert_eq!(partition(&spans).err(), Some(WindowError::Misaligned));
    let spans = [fragment("    a", 0, 0), fragment("    ", 0, 0), fragment("  ", 0, 0)];
    assert_eq!(pieces(&spans), vec![triple("", "", "a")]);
}

#[test]
fn partition_stops_at_a_reversed_interval() {
    let spans = [fragment("abc", 1, 2), fragment("abcdef", 6, 2)];
    assert_eq!(partition(&spans).err(), Some(WindowError::Reversed));
}

/// The index of the character that holds a byte, or the number of
/// characters past the end.
fn index_of_character(data: &str, byte_idx: usize) -> usize {
    data.char_indices().take_while(|(at, c)| at + c.len_utf8() <= byte_idx).count()
}

#[test]
fn window_keeps_some_width_for_an_interval_inside_the_line() {
    let lines = ["abc é日😀 xyz", "plain text", "é", "a😀", "  日本語 text"];
    for data in lines {
        let pad = data.len() - data.trim_start().len();
        let text = &data[pad..];
        for start in 0..data.len() + 3 {
            for end in start..data.len() + 3 {
                let line = fragment(data, start, end);
                let mut shared = None;
                let w = window(&line, true, &mut shared).unwrap().unwrap();
                let first = index_of_character(data, start.saturating_sub(pad + 1));
                let last = index_of_character(data, end.saturating_sub(pad + 1));
                if first < last && first < text.len() {
                    assert!(!w.highlighted.is_empty(), "{data:?} {start} {end}");
                }
                assert!(text.is_char_boundary(w.prefix.len()));
                assert!(text.is_char_boundary(w.prefix.len() + w.highlighted.len()));
            }
        }
    }
}

#[test]
fn window_may_lose_all_width_past_the_end_of_the_padded_line() {
    // the bounds 5 and 7 lie in the characters 5 and 6 of the whole line,
    // both past the end of what is left after the pad
    let line = fragment("    ab", 10, 12);
    let mut pad = None;
    let w = window(&line, true, &mut pad).unwrap().unwrap();
    assert_eq!((w.prefix, w.highlighted, w.suffix), ("ab", "", ""));
}

#[test]
fn window_may_lose_all_width_inside_one_character() {
    let line = fragment("é", 1, 2);
    let mut pad = None;
    let w = window(&line, true, &mut pad).unwrap().unwrap();
    assert_eq!((w.prefix, w.highlighted, w.suffix), ("", "", "é"));
}
