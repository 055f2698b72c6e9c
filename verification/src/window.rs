//! Cutting a source line into the text before a marked interval, the marked
//! text itself and the text after it.

use crate::boundary::{
    ceil_boundary, ceil_char_boundary, floor_boundary, floor_char_boundary, lemma_ceil_boundary,
    lemma_floor_boundary,
};
use crate::trim::{leading_white_space, lemma_leading_white_space_bound, trim_start, trimmed};
use crate::utf8::{lemma_boundary_in_range, lemma_skip_chars};
use vstd::prelude::*;
use vstd::string::*;
use vstd::utf8::*;

verus! {

/// A line of source text and the byte interval `[start, end)` of the part of
/// it that a diagnostic marks.
#[derive(Clone, Debug)]
pub struct HighlightFragment {
    pub data: String,
    pub start: usize,
    pub end: usize,
}

/// What a [`HighlightFragment`] holds, as mathematical values.
pub struct FragmentView {
    pub data: Seq<char>,
    pub start: nat,
    pub end: nat,
}

impl View for HighlightFragment {
    type V = FragmentView;

    open spec fn view(&self) -> FragmentView {
        FragmentView { data: self.data@, start: self.start as nat, end: self.end as nat }
    }
}

/// The three pieces of a line: before the marked text, the marked text, and
/// after it.
#[derive(Clone, Copy, Debug)]
pub struct Window<'a> {
    pub prefix: &'a str,
    pub highlighted: &'a str,
    pub suffix: &'a str,
}

/// What a [`Window`] holds, as mathematical values.
pub struct WindowView {
    pub prefix: Seq<char>,
    pub highlighted: Seq<char>,
    pub suffix: Seq<char>,
}

impl<'a> View for Window<'a> {
    type V = WindowView;

    open spec fn view(&self) -> WindowView {
        WindowView {
            prefix: self.prefix@,
            highlighted: self.highlighted@,
            suffix: self.suffix@,
        }
    }
}

/// Why a line could not be cut.
#[derive(Clone, Copy, Debug, PartialEq, Eq, Structural)]
pub enum WindowError {
    /// The shared left pad does not fall on a character boundary of the line.
    Misaligned,
    /// The snapped start of the marked text lies after its snapped end.
    Reversed,
}

/// Whether `chars` holds nothing but white space.
pub open spec fn is_blank(chars: Seq<char>) -> bool {
    trimmed(chars).len() == 0
}

/// The number of bytes that the leading white space of `chars` takes.
pub open spec fn left_pad(chars: Seq<char>) -> nat {
    encode_utf8(chars.take(leading_white_space(chars) as int)).len()
}

/// The index of the character whose encoding holds byte `byte_idx` of the
/// encoding of `chars`; the number of characters when `byte_idx` is past the
/// end.
pub open spec fn char_index_of_byte(chars: Seq<char>, byte_idx: int) -> nat
    decreases chars.len(),
{
    if chars.len() == 0 {
        0
    } else {
        let width = encode_scalar(chars[0] as u32).len();
        if byte_idx < width {
            0
        } else {
            1 + char_index_of_byte(chars.drop_first(), byte_idx - width)
        }
    }
}

/// A raw interval bound moved left by the pad and by one more for the
/// one-based column, stopping at zero.
pub open spec fn adjusted(bound: nat, pad: nat) -> nat {
    if bound > pad + 1 {
        (bound - (pad + 1)) as nat
    } else {
        0
    }
}

/// Whether a line can be cut after its first `pad` bytes.
pub open spec fn fits(data: Seq<char>, pad: nat) -> bool {
    is_char_boundary(encode_utf8(data), pad as int)
}

/// The bytes of a line after its first `pad` bytes.
pub open spec fn text_bytes(data: Seq<char>, pad: nat) -> Seq<u8> {
    encode_utf8(data).skip(pad as int)
}

/// The index that the start of the marked interval is snapped from: the
/// adjusted bound, counted in characters of the whole line.
pub open spec fn first_index(fragment: FragmentView, pad: nat) -> nat {
    char_index_of_byte(fragment.data, adjusted(fragment.start, pad) as int)
}

/// The index that the end of the marked interval is snapped from.
pub open spec fn last_index(fragment: FragmentView, pad: nat) -> nat {
    char_index_of_byte(fragment.data, adjusted(fragment.end, pad) as int)
}

/// Where the marked text begins in the line after the pad.
pub open spec fn cut_start(fragment: FragmentView, pad: nat) -> int {
    floor_boundary(text_bytes(fragment.data, pad), first_index(fragment, pad) as int)
}

/// Where the marked text ends in the line after the pad.
pub open spec fn cut_end(fragment: FragmentView, pad: nat) -> int {
    ceil_boundary(text_bytes(fragment.data, pad), last_index(fragment, pad) as int)
}

/// The pieces that a line is cut into under a given left pad.  A blank line
/// gives no pieces.
pub open spec fn window_of(fragment: FragmentView, pad: nat) -> Result<
    Option<WindowView>,
    WindowError,
> {
    if is_blank(fragment.data) {
        Ok(None)
    } else if !fits(fragment.data, pad) {
        Err(WindowError::Misaligned)
    } else {
        let text = text_bytes(fragment.data, pad);
        let start = cut_start(fragment, pad);
        let end = cut_end(fragment, pad);
        if start > end {
            Err(WindowError::Reversed)
        } else {
            Ok(
                Some(
                    WindowView {
                        prefix: decode_utf8(text.subrange(0, start)),
                        highlighted: decode_utf8(text.subrange(start, end)),
                        suffix: decode_utf8(text.subrange(end, text.len() as int)),
                    },
                ),
            )
        }
    }
}

/// The left pad in force for a line: the one its own leading white space
/// gives if it is the first line, else the one already shared, else none.
pub open spec fn pad_in_force(data: Seq<char>, is_first: bool, shared: Option<usize>) -> nat {
    if is_first {
        left_pad(data)
    } else {
        match shared {
            Some(pad) => pad as nat,
            None => 0,
        }
    }
}

/// `str_indices::chars::from_byte_idx`: the index of the character that the
/// byte at `byte_idx` belongs to, or the number of characters in `text` when
/// `byte_idx` is past the end.
#[verifier::external_body]
fn char_index(text: &str, byte_idx: usize) -> (index: usize)
    ensures
        index == char_index_of_byte(text@, byte_idx as int),
{
    str_indices::chars::from_byte_idx(text, byte_idx)
}

/// The characters that a slice holds are those that its bytes decode to.
proof fn lemma_view_of_bytes(text: &str, bytes: Seq<u8>)
    requires
        text.spec_bytes() == bytes,
    ensures
        text@ == decode_utf8(bytes),
{
    encode_utf8_decode_utf8(text@);
}

/// A boundary at or after another boundary is a boundary of what follows
/// that other one.
pub proof fn lemma_boundary_after(bytes: Seq<u8>, from: int, at: int)
    requires
        valid_utf8(bytes),
        is_char_boundary(bytes, from),
        is_char_boundary(bytes, at),
        from <= at,
    ensures
        valid_utf8(bytes.skip(from)),
        is_char_boundary(bytes.skip(from), at - from),
{
    lemma_boundary_in_range(bytes, from);
    lemma_boundary_in_range(bytes, at);
    valid_utf8_split(bytes, from);
    let rest = bytes.skip(from);
    if at == bytes.len() {
        is_char_boundary_start_end_of_seq(rest);
    } else if at > from {
        is_char_boundary_iff_not_is_continuation_byte(bytes, at);
        is_char_boundary_iff_not_is_continuation_byte(rest, at - from);
    }
}

/// Cuts one line into the text before the marked interval, the marked text,
/// and the text after it.
///
/// The first line of a sequence fixes the left pad, the number of bytes of
/// its leading white space, and stores it in `shared_left_pad`; every later
/// line is cut with that same pad.  A line of white space only is skipped.
/// The interval's bounds are moved left by the pad plus one, turned into
/// character indices of the whole line, read as byte offsets into the line
/// after the pad, and there snapped outward to character boundaries.
pub fn window<'a>(
    fragment: &'a HighlightFragment,
    is_first: bool,
    shared_left_pad: &mut Option<usize>,
) -> (pieces: Result<Option<Window<'a>>, WindowError>)
    ensures
        *final(shared_left_pad) == if is_first {
            Some(left_pad(fragment@.data) as usize)
        } else {
            *old(shared_left_pad)
        },
        left_pad(fragment@.data) <= usize::MAX,
        match pieces {
            Ok(Some(w)) => window_of(
                fragment@,
                pad_in_force(fragment@.data, is_first, *old(shared_left_pad)),
            ) == Ok::<Option<WindowView>, WindowError>(Some(w@)),
            Ok(None) => window_of(
                fragment@,
                pad_in_force(fragment@.data, is_first, *old(shared_left_pad)),
            ) == Ok::<Option<WindowView>, WindowError>(None),
            Err(e) => window_of(
                fragment@,
                pad_in_force(fragment@.data, is_first, *old(shared_left_pad)),
            ) == Err::<Option<WindowView>, WindowError>(e),
        },
{
    let data: &str = fragment.data.as_str();
    let rest = trim_start(data);
    proof {
        lemma_leading_white_space_bound(data@);
        lemma_skip_chars(data@, leading_white_space(data@) as int);
    }
    let own_pad = data.as_bytes().len() - rest.as_bytes().len();
    if is_first {
        *shared_left_pad = Some(own_pad);
    }
    if rest.is_empty() {
        return Ok(None);
    }
    let pad = match *shared_left_pad {
        Some(pad) => pad,
        None => 0,
    };
    if !data.is_char_boundary(pad) {
        return Err(WindowError::Misaligned);
    }
    let (_, text) = data.split_at(pad);
    let first = char_index(data, fragment.start.saturating_sub(pad.saturating_add(1)));
    let last = char_index(data, fragment.end.saturating_sub(pad.saturating_add(1)));
    let start = floor_char_boundary(text, first);
    let end = ceil_char_boundary(text, last);
    if start > end {
        return Err(WindowError::Reversed);
    }
    proof {
        let bytes = text.spec_bytes();
        encode_utf8_valid_utf8(text@);
        lemma_floor_boundary(bytes, first as int);
        lemma_ceil_boundary(bytes, last as int);
        lemma_boundary_after(bytes, start as int, end as int);
    }
    let (prefix, tail) = text.split_at(start);
    let (highlighted, suffix) = tail.split_at(end - start);
    proof {
        let bytes = text.spec_bytes();
        assert(highlighted.spec_bytes() =~= bytes.subrange(start as int, end as int));
        assert(suffix.spec_bytes() =~= bytes.subrange(end as int, bytes.len() as int));
        lemma_view_of_bytes(prefix, bytes.subrange(0, start as int));
        lemma_view_of_bytes(highlighted, bytes.subrange(start as int, end as int));
        lemma_view_of_bytes(suffix, bytes.subrange(end as int, bytes.len() as int));
    }
    Ok(Some(Window { prefix, highlighted, suffix }))
}

/// The three pieces of a line, put together again, are the line
/// after the pad, and each piece is a whole number of characters of it.  With
/// the line's own pad they make up the line without its leading white space.
pub proof fn lemma_window_round_trip(fragment: FragmentView, pad: nat, w: WindowView)
    requires
        window_of(fragment, pad) == Ok::<Option<WindowView>, WindowError>(Some(w)),
    ensures
        w.prefix + w.highlighted + w.suffix == decode_utf8(text_bytes(fragment.data, pad)),
        is_char_boundary(text_bytes(fragment.data, pad), cut_start(fragment, pad)),
        is_char_boundary(text_bytes(fragment.data, pad), cut_end(fragment, pad)),
        encode_utf8(w.prefix) == text_bytes(fragment.data, pad).subrange(
            0,
            cut_start(fragment, pad),
        ),
        encode_utf8(w.highlighted) == text_bytes(fragment.data, pad).subrange(
            cut_start(fragment, pad),
            cut_end(fragment, pad),
        ),
        encode_utf8(w.suffix) == text_bytes(fragment.data, pad).subrange(
            cut_end(fragment, pad),
            text_bytes(fragment.data, pad).len() as int,
        ),
        pad == left_pad(fragment.data) ==> w.prefix + w.highlighted + w.suffix == trimmed(
            fragment.data,
        ),
{
    let all = encode_utf8(fragment.data);
    let text = text_bytes(fragment.data, pad);
    let start = cut_start(fragment, pad);
    let end = cut_end(fragment, pad);
    encode_utf8_valid_utf8(fragment.data);
    lemma_boundary_in_range(all, pad as int);
    valid_utf8_split(all, pad as int);
    lemma_floor_boundary(text, first_index(fragment, pad) as int);
    lemma_ceil_boundary(text, last_index(fragment, pad) as int);
    lemma_boundary_after(text, start, end);
    let tail = text.skip(start);
    valid_utf8_split(text, start);
    decode_utf8_split(text, start);
    valid_utf8_split(tail, end - start);
    decode_utf8_split(tail, end - start);
    assert(tail.subrange(0, end - start) =~= text.subrange(start, end));
    assert(tail.subrange(end - start, tail.len() as int) =~= text.subrange(
        end,
        text.len() as int,
    ));
    decode_utf8_encode_utf8(text.subrange(0, start));
    decode_utf8_encode_utf8(text.subrange(start, end));
    decode_utf8_encode_utf8(text.subrange(end, text.len() as int));
    if pad == left_pad(fragment.data) {
        lemma_leading_white_space_bound(fragment.data);
        lemma_skip_chars(fragment.data, leading_white_space(fragment.data) as int);
        encode_utf8_decode_utf8(trimmed(fragment.data));
    }
}

/// The marked text keeps some width whenever the interval it
/// is snapped from has some and begins inside the line after the pad.
pub proof fn lemma_window_keeps_width(fragment: FragmentView, pad: nat, w: WindowView)
    requires
        window_of(fragment, pad) == Ok::<Option<WindowView>, WindowError>(Some(w)),
        first_index(fragment, pad) < last_index(fragment, pad),
        first_index(fragment, pad) < text_bytes(fragment.data, pad).len(),
    ensures
        cut_start(fragment, pad) <= first_index(fragment, pad) < cut_end(fragment, pad),
        w.highlighted.len() > 0,
{
    let text = text_bytes(fragment.data, pad);
    lemma_window_round_trip(fragment, pad, w);
    let all = encode_utf8(fragment.data);
    encode_utf8_valid_utf8(fragment.data);
    lemma_boundary_in_range(all, pad as int);
    valid_utf8_split(all, pad as int);
    lemma_floor_boundary(text, first_index(fragment, pad) as int);
    lemma_ceil_boundary(text, last_index(fragment, pad) as int);
}

/// The views of a sequence of fragments.
pub open spec fn fragment_views(fragments: Seq<HighlightFragment>) -> Seq<FragmentView> {
    Seq::new(fragments.len(), |i: int| fragments[i]@)
}

/// The views of a sequence of windows.
pub open spec fn window_views(windows: Seq<Window<'_>>) -> Seq<WindowView> {
    Seq::new(windows.len(), |i: int| windows[i]@)
}

/// The left pad that a sequence of lines shares: that of its first line.
pub open spec fn shared_pad(fragments: Seq<FragmentView>) -> nat {
    if fragments.len() == 0 {
        0
    } else {
        left_pad(fragments[0].data)
    }
}

/// The pieces of the first `n` lines of a sequence, in order, blank lines
/// left out; the first failure, if a line cannot be cut.
pub open spec fn windows_upto(fragments: Seq<FragmentView>, n: int) -> Result<
    Seq<WindowView>,
    WindowError,
>
    decreases n,
{
    if n <= 0 {
        Ok(Seq::empty())
    } else {
        match windows_upto(fragments, n - 1) {
            Err(e) => Err(e),
            Ok(before) => match window_of(fragments[n - 1], shared_pad(fragments)) {
                Err(e) => Err(e),
                Ok(None) => Ok(before),
                Ok(Some(w)) => Ok(before.push(w)),
            },
        }
    }
}

/// Once a line cannot be cut, no later line changes the outcome.
proof fn lemma_failure_stays(fragments: Seq<FragmentView>, n: int, m: int)
    requires
        windows_upto(fragments, n) is Err,
        n <= m,
    ensures
        windows_upto(fragments, m) == windows_upto(fragments, n),
    decreases m - n,
{
    if n < m {
        lemma_failure_stays(fragments, n, m - 1);
    }
}

/// The pieces of every line of a sequence.
pub open spec fn windows_of(fragments: Seq<FragmentView>) -> Result<Seq<WindowView>, WindowError> {
    windows_upto(fragments, fragments.len() as int)
}

/// Cuts each line of `spans` in turn, all with the left pad of the first
/// line, and collects the pieces of the lines that are not blank.
pub fn partition<'a>(spans: &'a [HighlightFragment]) -> (pieces: Result<
    Vec<Window<'a>>,
    WindowError,
>)
    ensures
        match pieces {
            Ok(windows) => windows_of(fragment_views(spans@)) == Ok::<
                Seq<WindowView>,
                WindowError,
            >(window_views(windows@)),
            Err(e) => windows_of(fragment_views(spans@)) == Err::<Seq<WindowView>, WindowError>(e),
        },
{
    let mut windows: Vec<Window<'a>> = Vec::new();
    let mut left_pad: Option<usize> = None;
    let ghost views = fragment_views(spans@);
    assert(window_views(windows@) =~= Seq::empty());
    let mut i: usize = 0;
    while i < spans.len()
        invariant
            i <= spans@.len(),
            views == fragment_views(spans@),
            windows_upto(views, i as int) == Ok::<Seq<WindowView>, WindowError>(
                window_views(windows@),
            ),
            i > 0 ==> left_pad == Some(shared_pad(views) as usize) && shared_pad(views)
                <= usize::MAX,
        decreases spans@.len() - i,
    {
        let ghost before = window_views(windows@);
        match window(&spans[i], i == 0, &mut left_pad) {
            Err(e) => {
                proof {
                    lemma_failure_stays(views, i + 1, views.len() as int);
                }
                return Err(e);
            },
            Ok(None) => {},
            Ok(Some(w)) => {
                windows.push(w);
                assert(window_views(windows@) =~= before.push(w@));
            },
        }
        i += 1;
    }
    Ok(windows)
}

/// A later byte lies in no earlier character.
pub proof fn lemma_char_index_monotonic(chars: Seq<char>, a: int, b: int)
    requires
        a <= b,
    ensures
        char_index_of_byte(chars, a) <= char_index_of_byte(chars, b),
        char_index_of_byte(chars, b) <= chars.len(),
    decreases chars.len(),
{
    if chars.len() > 0 {
        let width = encode_scalar(chars[0] as u32).len();
        lemma_char_index_monotonic(chars.drop_first(), a - width, b - width);
    }
}

/// Snapping the start back and the end forward never makes them cross.
pub proof fn lemma_snap_keeps_order(bytes: Seq<u8>, first: int, last: int)
    requires
        valid_utf8(bytes),
        0 <= first <= last,
    ensures
        floor_boundary(bytes, first) <= ceil_boundary(bytes, last),
{
    lemma_floor_boundary(bytes, first);
    lemma_ceil_boundary(bytes, last);
}

/// A line that is not blank, with an interval that does not end before it
/// begins, can always be cut at its own left pad.
pub proof fn lemma_window_of_own_pad(fragment: FragmentView)
    requires
        !is_blank(fragment.data),
        fragment.start <= fragment.end,
    ensures
        window_of(fragment, left_pad(fragment.data)) matches Ok(Some(_)),
{
    let pad = left_pad(fragment.data);
    let all = encode_utf8(fragment.data);
    let text = text_bytes(fragment.data, pad);
    lemma_leading_white_space_bound(fragment.data);
    lemma_skip_chars(fragment.data, leading_white_space(fragment.data) as int);
    encode_utf8_valid_utf8(fragment.data);
    valid_utf8_split(all, pad as int);
    lemma_char_index_monotonic(
        fragment.data,
        adjusted(fragment.start, pad) as int,
        adjusted(fragment.end, pad) as int,
    );
    lemma_snap_keeps_order(
        text,
        first_index(fragment, pad) as int,
        last_index(fragment, pad) as int,
    );
}

} // verus!
