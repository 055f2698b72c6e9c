//! What the report shows: shortened and classified messages, and the width
//! that the locations are padded to.

use crate::args::ClassifyKind;
use crate::config::{Style, Theme};
use crate::report::{group_views, missing_views, FileGroup, GroupView, Missing, MissingView};
use crate::text::{ends_with, strip_prefix, without_prefix};
use crate::utf8::lemma_split_chars;
use crate::window::{
    partition, window_views, windows_of, Window, WindowError, WindowView,
};
use vstd::prelude::*;
use vstd::string::*;
use vstd::utf8::*;

verus! {

/// How the report is shown.
#[derive(Clone, Copy, Debug)]
pub struct Options {
    pub compact: bool,
    pub show_item: bool,
}

/// The number of decimal digits of `d`.
pub open spec fn digits(d: nat) -> nat
    decreases d,
{
    if d < 10 {
        1
    } else {
        1 + digits(d / 10)
    }
}

/// A greater number has no fewer digits.
pub proof fn lemma_digits_monotonic(a: nat, b: nat)
    requires
        a <= b,
    ensures
        digits(a) <= digits(b),
    decreases b,
{
    if a >= 10 {
        lemma_digits_monotonic(a / 10, b / 10);
    }
}

/// A number that fits in 64 bits has at most twenty digits.
pub proof fn lemma_digits_bound(d: nat)
    requires
        d <= u64::MAX,
    ensures
        1 <= digits(d) <= 20,
{
    lemma_digits_monotonic(d, u64::MAX as nat);
    assert(digits(u64::MAX as nat) == 20) by {
        reveal_with_fuel(digits, 21);
    }
}

/// The number of decimal digits of `d`.
pub fn count_digits(d: usize) -> (len: usize)
    ensures
        len == digits(d as nat),
        1 <= len <= 20,
{
    proof {
        lemma_digits_bound(d as nat);
    }
    let mut len: usize = 1;
    let mut rest = d;
    while rest >= 10
        invariant
            1 <= len,
            len + digits(rest as nat) == digits(d as nat) + 1,
            digits(d as nat) <= 20,
        decreases rest,
    {
        rest = rest / 10;
        len += 1;
    }
    len
}

/// A message without the stock phrases that it may begin with, each taken
/// off at most once and in this order.
pub open spec fn shortened(text: Seq<char>) -> Seq<char> {
    let text = without_prefix(text, "missing documentation for a "@);
    let text = without_prefix(text, "missing documentation for an "@);
    let text = without_prefix(text, "docs for function returning `Result` "@);
    let text = without_prefix(text, "docs for function which may panic "@);
    let text = without_prefix(text, "safe function's docs have "@);
    without_prefix(text, "unsafe function's docs are "@)
}

/// Takes the stock phrases off the front of a message.
pub fn shorten(input: &str) -> (short: &str)
    ensures
        short@ == shortened(input@),
{
    let input = strip_prefix(input, "missing documentation for a ");
    let input = strip_prefix(input, "missing documentation for an ");
    let input = strip_prefix(input, "docs for function returning `Result` ");
    let input = strip_prefix(input, "docs for function which may panic ");
    let input = strip_prefix(input, "safe function's docs have ");
    strip_prefix(input, "unsafe function's docs are ")
}

/// A message, split where the phrase of its item kind begins, or whole if it
/// names no kind.
#[derive(Clone, Copy, Debug)]
pub enum Classification<'a> {
    Classified { head: &'a str, tail: &'a str, kind: ClassifyKind },
    Unclassified(&'a str),
}

/// The classifier of messages.
pub struct Classify;

impl Classify {
    /// Classifies a message by the phrase it ends with.  The tail of a
    /// classified message is exactly the phrase of its kind, and the head is
    /// all that stands before it.
    pub fn classify<'a>(input: &'a str) -> (class: Classification<'a>)
        ensures
            match class {
                Classification::Classified { head, tail, kind } => {
                    &&& ClassifyKind::lookup(input@) == Some(kind)
                    &&& tail@ == kind.suffix()
                    &&& head@ + tail@ == input@
                },
                Classification::Unclassified(text) => {
                    &&& ClassifyKind::lookup(input@) is None
                    &&& text@ == input@
                },
            },
    {
        match ClassifyKind::parse(input) {
            None => Classification::Unclassified(input),
            Some((kind, offset)) => {
                let (head, tail) = input.split_at(offset);
                proof {
                    crate::args::lemma_lookup(input@);
                    crate::utf8::lemma_suffix_chars_bytes(input@, kind.suffix());
                    lemma_split_chars(input@, offset as int);
                    encode_utf8_decode_utf8(head@);
                    encode_utf8_decode_utf8(tail@);
                    encode_utf8_decode_utf8(kind.suffix());
                }
                Classification::Classified { head, tail, kind }
            },
        }
    }

    /// The head and the tail of a classified message with the style that the
    /// theme has for its kind; nothing if the message names no kind or the
    /// theme has no style for it.
    pub fn with_theme<'a>(input: &'a str, theme: &Theme) -> (styled: Option<
        (&'a str, &'a str, Style),
    >)
        ensures
            match styled {
                Some((head, tail, style)) => {
                    &&& ClassifyKind::lookup(input@) matches Some(kind)
                    &&& theme.kinds.style_of(kind.key()) == Some(style)
                    &&& tail@ == kind.suffix()
                    &&& head@ + tail@ == input@
                },
                None => ClassifyKind::lookup(input@) matches Some(kind)
                    ==> theme.kinds.style_of(kind.key()) is None,
            },
    {
        match Self::classify(input) {
            Classification::Unclassified(_) => None,
            Classification::Classified { head, tail, kind } => {
                match theme.kinds.get(kind.as_key()) {
                    None => None,
                    Some(style) => Some((head, tail, style)),
                }
            },
        }
    }
}

/// The width of the widest pair of row and column among the first `n`
/// findings, in digits.
pub open spec fn widest_upto(entries: Seq<MissingView>, n: int) -> nat
    decreases n,
{
    if n <= 0 {
        0
    } else {
        let before = widest_upto(entries, n - 1);
        let here = digits(entries[n - 1].row) + digits(entries[n - 1].col);
        if here > before {
            here
        } else {
            before
        }
    }
}

/// The width that the locations of a file take: its path, two colons, and
/// the widest pair of row and column, or one where it has no finding.
pub open spec fn group_width(group: GroupView) -> nat {
    encode_utf8(group.path).len() + 2 + if group.entries.len() == 0 {
        1
    } else {
        widest_upto(group.entries, group.entries.len() as int)
    }
}

/// The greatest width among the first `n` groups.
pub open spec fn padding_upto(groups: Seq<GroupView>, n: int) -> nat
    decreases n,
{
    if n <= 0 {
        0
    } else {
        let before = padding_upto(groups, n - 1);
        let here = group_width(groups[n - 1]);
        if here > before {
            here
        } else {
            before
        }
    }
}

/// The width that all locations of a report are padded to: the greatest
/// width of a file, or one for an empty report.
pub open spec fn padding(groups: Seq<GroupView>) -> nat {
    if groups.len() == 0 {
        1
    } else {
        padding_upto(groups, groups.len() as int)
    }
}

/// The width that the locations of one file take.
fn width_of(group: &FileGroup) -> (width: usize)
    ensures
        width == if group_width(group@) > usize::MAX {
            usize::MAX as nat
        } else {
            group_width(group@)
        },
{
    let ghost entries = missing_views(group.entries@);
    let mut widest: usize = 0;
    let mut i: usize = 0;
    while i < group.entries.len()
        invariant
            i <= group.entries@.len(),
            entries == missing_views(group.entries@),
            widest == widest_upto(entries, i as int),
            widest <= 40,
        decreases group.entries@.len() - i,
    {
        let entry = &group.entries[i];
        let here = count_digits(entry.message.row) + count_digits(entry.message.col);
        if here > widest {
            widest = here;
        }
        i += 1;
    }
    if group.entries.len() == 0 {
        widest = 1;
    }
    group.path.as_str().as_bytes().len().saturating_add(2).saturating_add(widest)
}

/// The width that the locations of a report are padded to.  A width that
/// does not fit the machine word is cut to the greatest that does.
pub fn pad_locations(groups: &[FileGroup]) -> (width: usize)
    ensures
        width == if padding(group_views(groups@)) > usize::MAX {
            usize::MAX as nat
        } else {
            padding(group_views(groups@))
        },
{
    let ghost views = group_views(groups@);
    let mut width: usize = 0;
    let mut i: usize = 0;
    while i < groups.len()
        invariant
            i <= groups@.len(),
            views == group_views(groups@),
            width == if padding_upto(views, i as int) > usize::MAX {
                usize::MAX as nat
            } else {
                padding_upto(views, i as int)
            },
        decreases groups@.len() - i,
    {
        let here = width_of(&groups[i]);
        if here > width {
            width = here;
        }
        i += 1;
    }
    if groups.len() == 0 {
        width = 1;
    }
    width
}

/// The text of a finding as it is shown: split where the phrase of its kind
/// begins, with the style of that kind, or whole.
#[derive(Clone, Copy, Debug)]
pub enum Shown<'a> {
    Split { head: &'a str, tail: &'a str, style: Style },
    Whole(&'a str),
}

/// What a [`Shown`] holds, as mathematical values.
pub enum ShownView {
    Split { head: Seq<char>, tail: Seq<char>, style: Style },
    Whole(Seq<char>),
}

impl<'a> View for Shown<'a> {
    type V = ShownView;

    open spec fn view(&self) -> ShownView {
        match *self {
            Shown::Split { head, tail, style } => ShownView::Split { head: head@, tail: tail@, style },
            Shown::Whole(text) => ShownView::Whole(text@),
        }
    }
}

/// One line of the report.
#[derive(Clone, Copy, Debug)]
pub enum Line<'a> {
    /// The empty line between two files, `width` spaces wide after the
    /// indent.
    Gap { width: usize },
    /// The heading of a file.
    Header { file: &'a str },
    /// A finding: where it is, `fill` spaces to line the messages up, and
    /// its text.
    Finding { file: &'a str, row: usize, col: usize, fill: usize, text: Shown<'a> },
    /// A source line under a finding.
    Excerpt { window: Window<'a> },
}

/// What a [`Line`] holds, as mathematical values.
pub enum LineView {
    Gap { width: usize },
    Header { file: Seq<char> },
    Finding { file: Seq<char>, row: usize, col: usize, fill: usize, text: ShownView },
    Excerpt { window: WindowView },
}

impl<'a> View for Line<'a> {
    type V = LineView;

    open spec fn view(&self) -> LineView {
        match *self {
            Line::Gap { width } => LineView::Gap { width },
            Line::Header { file } => LineView::Header { file: file@ },
            Line::Finding { file, row, col, fill, text } => LineView::Finding {
                file: file@,
                row,
                col,
                fill,
                text: text@,
            },
            Line::Excerpt { window } => LineView::Excerpt { window: window@ },
        }
    }
}

/// The views of a sequence of lines.
pub open spec fn line_views(lines: Seq<Line<'_>>) -> Seq<LineView> {
    Seq::new(lines.len(), |i: int| lines[i]@)
}

/// A width, cut to the greatest that fits the machine word.
pub open spec fn capped(width: nat) -> usize {
    if width > usize::MAX {
        usize::MAX
    } else {
        width as usize
    }
}

/// The message of a finding as it is shown.
pub open spec fn shown_text(message: Seq<char>, options: Options) -> Seq<char> {
    if options.compact {
        shortened(message)
    } else {
        message
    }
}

/// How a text is shown under a theme: split if it names a kind that the
/// theme has a style for, else whole.
pub open spec fn shown(text: Seq<char>, theme: Theme) -> ShownView {
    match ClassifyKind::lookup(text) {
        None => ShownView::Whole(text),
        Some(kind) => match theme.kinds.style_of(kind.key()) {
            None => ShownView::Whole(text),
            Some(style) => ShownView::Split {
                head: text.take(text.len() - kind.suffix().len()),
                tail: kind.suffix(),
                style,
            },
        },
    }
}

/// The number of spaces that line the message of a finding up with the
/// others: what its location leaves of the padding.
pub open spec fn fill_of(padding: usize, path: Seq<char>, row: nat, col: nat) -> usize {
    let used = capped(encode_utf8(path).len() + 2 + digits(row) + digits(col));
    if padding > used {
        (padding - used) as usize
    } else {
        0
    }
}

/// Whether the source lines of a finding are shown: only if asked for, and
/// not for a finding about the crate as a whole.
pub open spec fn shows_item(text: Seq<char>, options: Options) -> bool {
    options.show_item && !"the crate"@.is_suffix_of(text)
}

/// The excerpt lines of a sequence of windows.
pub open spec fn excerpts(windows: Seq<WindowView>) -> Seq<LineView> {
    Seq::new(windows.len(), |i: int| LineView::Excerpt { window: windows[i] })
}

/// The lines of one finding: the finding itself and, if they are shown, its
/// source lines.
pub open spec fn entry_lines(
    entry: MissingView,
    path: Seq<char>,
    padding: usize,
    options: Options,
    theme: Theme,
) -> Result<Seq<LineView>, WindowError> {
    let text = shown_text(entry.message, options);
    let first = LineView::Finding {
        file: path,
        row: entry.row as usize,
        col: entry.col as usize,
        fill: fill_of(padding, path, entry.row, entry.col),
        text: shown(text, theme),
    };
    if shows_item(text, options) {
        match windows_of(entry.text) {
            Ok(windows) => Ok(seq![first] + excerpts(windows)),
            Err(e) => Err(e),
        }
    } else {
        Ok(seq![first])
    }
}

/// The lines of the first `n` findings of a file.
pub open spec fn entries_lines(
    entries: Seq<MissingView>,
    n: int,
    path: Seq<char>,
    padding: usize,
    options: Options,
    theme: Theme,
) -> Result<Seq<LineView>, WindowError>
    decreases n,
{
    if n <= 0 {
        Ok(Seq::empty())
    } else {
        match entries_lines(entries, n - 1, path, padding, options, theme) {
            Err(e) => Err(e),
            Ok(before) => match entry_lines(entries[n - 1], path, padding, options, theme) {
                Err(e) => Err(e),
                Ok(lines) => Ok(before + lines),
            },
        }
    }
}

/// The lines of one file: a gap unless it is the first, the heading, and the
/// lines of its findings.
pub open spec fn group_lines(
    group: GroupView,
    first: bool,
    padding: usize,
    options: Options,
    theme: Theme,
) -> Result<Seq<LineView>, WindowError> {
    let gap = if first {
        Seq::<LineView>::empty()
    } else {
        seq![LineView::Gap { width: capped((padding + 1) as nat) }]
    };
    match entries_lines(
        group.entries,
        group.entries.len() as int,
        group.path,
        padding,
        options,
        theme,
    ) {
        Err(e) => Err(e),
        Ok(lines) => Ok(gap + seq![LineView::Header { file: group.path }] + lines),
    }
}

/// The lines of the first `n` files of a report.
pub open spec fn groups_lines(
    groups: Seq<GroupView>,
    n: int,
    padding: usize,
    options: Options,
    theme: Theme,
) -> Result<Seq<LineView>, WindowError>
    decreases n,
{
    if n <= 0 {
        Ok(Seq::empty())
    } else {
        match groups_lines(groups, n - 1, padding, options, theme) {
            Err(e) => Err(e),
            Ok(before) => match group_lines(groups[n - 1], n == 1, padding, options, theme) {
                Err(e) => Err(e),
                Ok(lines) => Ok(before + lines),
            },
        }
    }
}

/// The lines of a report, or the first failure to cut a source line.
pub open spec fn report_lines(groups: Seq<GroupView>, options: Options, theme: Theme) -> Result<
    Seq<LineView>,
    WindowError,
> {
    groups_lines(groups, groups.len() as int, capped(padding(groups)), options, theme)
}

/// Once a finding fails, no later finding changes the outcome.
proof fn lemma_entries_failure_stays(
    entries: Seq<MissingView>,
    n: int,
    m: int,
    path: Seq<char>,
    padding: usize,
    options: Options,
    theme: Theme,
)
    requires
        entries_lines(entries, n, path, padding, options, theme) is Err,
        n <= m,
    ensures
        entries_lines(entries, m, path, padding, options, theme) == entries_lines(
            entries,
            n,
            path,
            padding,
            options,
            theme,
        ),
    decreases m - n,
{
    if n < m {
        lemma_entries_failure_stays(entries, n, m - 1, path, padding, options, theme);
    }
}

/// Once a file fails, no later file changes the outcome.
proof fn lemma_groups_failure_stays(
    groups: Seq<GroupView>,
    n: int,
    m: int,
    padding: usize,
    options: Options,
    theme: Theme,
)
    requires
        groups_lines(groups, n, padding, options, theme) is Err,
        n <= m,
    ensures
        groups_lines(groups, m, padding, options, theme) == groups_lines(
            groups,
            n,
            padding,
            options,
            theme,
        ),
    decreases m - n,
{
    if n < m {
        lemma_groups_failure_stays(groups, n, m - 1, padding, options, theme);
    }
}

/// How a text is shown under a theme.
pub fn show_text<'a>(text: &'a str, theme: &Theme) -> (text_shown: Shown<'a>)
    ensures
        text_shown@ == shown(text@, *theme),
{
    match Classify::with_theme(text, theme) {
        Some((head, tail, style)) => {
            assert(head@ =~= text@.take(text@.len() - tail@.len()));
            Shown::Split { head, tail, style }
        },
        None => Shown::Whole(text),
    }
}

/// Adds the lines of one finding to `lines`.
fn push_entry_lines<'a>(
    lines: &mut Vec<Line<'a>>,
    entry: &'a Missing,
    path: &'a str,
    padding: usize,
    options: &Options,
    theme: &Theme,
) -> (done: Result<(), WindowError>)
    ensures
        match done {
            Ok(()) => entry_lines(entry@, path@, padding, *options, *theme) matches Ok(added)
                && line_views(final(lines)@) == line_views(old(lines)@) + added,
            Err(e) => entry_lines(entry@, path@, padding, *options, *theme) == Err::<
                Seq<LineView>,
                WindowError,
            >(e),
        },
{
    let ghost before = line_views(lines@);
    let message: &'a str = entry.message.item.as_str();
    let text = if options.compact {
        shorten(message)
    } else {
        message
    };
    let used = path.as_bytes().len().saturating_add(2).saturating_add(
        count_digits(entry.message.row) + count_digits(entry.message.col),
    );
    let first = Line::Finding {
        file: path,
        row: entry.message.row,
        col: entry.message.col,
        fill: padding.saturating_sub(used),
        text: show_text(text, theme),
    };
    if options.show_item && !ends_with(text, "the crate") {
        let windows = partition(entry.text.as_slice())?;
        lines.push(first);
        let ghost views = window_views(windows@);
        let mut i: usize = 0;
        while i < windows.len()
            invariant
                i <= windows@.len(),
                views == window_views(windows@),
                line_views(lines@) == before + seq![first@] + excerpts(views).take(i as int),
            decreases windows@.len() - i,
        {
            let ghost so_far = line_views(lines@);
            lines.push(Line::Excerpt { window: windows[i] });
            assert(line_views(lines@) =~= so_far.push(excerpts(views)[i as int]));
            assert(excerpts(views).take(i + 1) =~= excerpts(views).take(i as int).push(
                excerpts(views)[i as int],
            ));
            i += 1;
        }
        assert(before + seq![first@] + excerpts(views) =~= before + (seq![first@] + excerpts(
            views,
        )));
    } else {
        lines.push(first);
    }
    Ok(())
}

/// Adds the lines of one file to `lines`.
fn push_group_lines<'a>(
    lines: &mut Vec<Line<'a>>,
    group: &'a FileGroup,
    first: bool,
    padding: usize,
    options: &Options,
    theme: &Theme,
) -> (done: Result<(), WindowError>)
    ensures
        match done {
            Ok(()) => group_lines(group@, first, padding, *options, *theme) matches Ok(added)
                && line_views(final(lines)@) == line_views(old(lines)@) + added,
            Err(e) => group_lines(group@, first, padding, *options, *theme) == Err::<
                Seq<LineView>,
                WindowError,
            >(e),
        },
{
    let ghost before = line_views(lines@);
    let ghost entries = missing_views(group.entries@);
    let path: &'a str = group.path.as_str();
    if !first {
        lines.push(Line::Gap { width: padding.saturating_add(1) });
    }
    lines.push(Line::Header { file: path });
    let ghost head = if first {
        seq![LineView::Header { file: path@ }]
    } else {
        seq![LineView::Gap { width: capped((padding + 1) as nat) }] + seq![LineView::Header { file: path@ }]
    };
    let mut i: usize = 0;
    while i < group.entries.len()
        invariant
            i <= group.entries@.len(),
            entries == missing_views(group.entries@),
            path@ == group.path@,
            entries_lines(entries, i as int, path@, padding, *options, *theme) matches Ok(added)
                && line_views(lines@) == before + head + added,
        decreases group.entries@.len() - i,
    {
        match push_entry_lines(lines, &group.entries[i], path, padding, options, theme) {
            Ok(()) => {},
            Err(e) => {
                proof {
                    lemma_entries_failure_stays(
                        entries,
                        i + 1,
                        entries.len() as int,
                        path@,
                        padding,
                        *options,
                        *theme,
                    );
                }
                return Err(e);
            },
        }
        i += 1;
    }
    Ok(())
}

/// Lays the report out: for each file a heading and its findings, each with
/// its source lines if they are asked for, and a gap between two files.
pub fn layout<'a>(groups: &'a [FileGroup], options: &Options, theme: &Theme) -> (laid: Result<
    Vec<Line<'a>>,
    WindowError,
>)
    ensures
        match laid {
            Ok(lines) => report_lines(group_views(groups@), *options, *theme) == Ok::<
                Seq<LineView>,
                WindowError,
            >(line_views(lines@)),
            Err(e) => report_lines(group_views(groups@), *options, *theme) == Err::<
                Seq<LineView>,
                WindowError,
            >(e),
        },
{
    let width = pad_locations(groups);
    let ghost views = group_views(groups@);
    let mut lines: Vec<Line<'a>> = Vec::new();
    assert(line_views(lines@) =~= Seq::<LineView>::empty());
    let mut i: usize = 0;
    while i < groups.len()
        invariant
            i <= groups@.len(),
            views == group_views(groups@),
            width == capped(padding(views)),
            groups_lines(views, i as int, width, *options, *theme) == Ok::<
                Seq<LineView>,
                WindowError,
            >(line_views(lines@)),
        decreases groups@.len() - i,
    {
        match push_group_lines(&mut lines, &groups[i], i == 0, width, options, theme) {
            Ok(()) => {},
            Err(e) => {
                proof {
                    lemma_groups_failure_stays(
                        views,
                        i + 1,
                        views.len() as int,
                        width,
                        *options,
                        *theme,
                    );
                }
                return Err(e);
            },
        }
        i += 1;
    }
    Ok(lines)
}

} // verus!
