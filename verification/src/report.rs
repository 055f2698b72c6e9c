//! The report: the findings of each file, the files in lexicographic order of
//! their paths.

use crate::text::{
    lemma_lex_irreflexive, lemma_lex_total, lemma_lex_transitive, lex_lt, precedes, same_text,
};
use crate::utf8::lemma_encode_injective;
use crate::window::{
    fragment_views, partition, window_views, windows_of, FragmentView, HighlightFragment, Window,
    WindowError, WindowView,
};
use vstd::prelude::*;
use vstd::string::*;
use vstd::utf8::*;

verus! {

/// A value together with the place in a file that it belongs to.
#[derive(Copy, Clone, Debug, PartialEq)]
pub struct Spanned<T> {
    pub item: T,
    pub row: usize,
    pub col: usize,
}

impl<T> Spanned<T> {
    /// Puts a value at a row and a column.
    pub fn new(item: T, row: usize, col: usize) -> (spanned: Self)
        ensures
            spanned.item == item,
            spanned.row == row,
            spanned.col == col,
    {
        Self { item, row, col }
    }
}

/// One finding: a diagnostic message, where it was reported, and the source
/// lines that it marks.
#[derive(Debug)]
pub struct Missing {
    pub message: Spanned<String>,
    pub text: Vec<HighlightFragment>,
}

/// What a [`Missing`] holds, as mathematical values.
pub struct MissingView {
    pub message: Seq<char>,
    pub row: nat,
    pub col: nat,
    pub text: Seq<FragmentView>,
}

impl View for Missing {
    type V = MissingView;

    open spec fn view(&self) -> MissingView {
        MissingView {
            message: self.message.item@,
            row: self.message.row as nat,
            col: self.message.col as nat,
            text: fragment_views(self.text@),
        }
    }
}

impl Missing {
    /// The source lines of the finding, each cut into the text before the
    /// marked interval, the marked text and the text after it.  All lines
    /// share the left pad of the first, and blank lines are left out.
    pub fn windows(&self) -> (pieces: Result<Vec<Window<'_>>, WindowError>)
        ensures
            match pieces {
                Ok(windows) => windows_of(self@.text) == Ok::<Seq<WindowView>, WindowError>(
                    window_views(windows@),
                ),
                Err(e) => windows_of(self@.text) == Err::<Seq<WindowView>, WindowError>(e),
            },
    {
        partition(self.text.as_slice())
    }
}

/// The findings of one file, in the order in which they were recorded.
#[derive(Debug)]
pub struct FileGroup {
    pub path: String,
    pub entries: Vec<Missing>,
}

/// What a [`FileGroup`] holds, as mathematical values.
pub struct GroupView {
    pub path: Seq<char>,
    pub entries: Seq<MissingView>,
}

/// The views of a sequence of findings.
pub open spec fn missing_views(entries: Seq<Missing>) -> Seq<MissingView> {
    Seq::new(entries.len(), |i: int| entries[i]@)
}

impl View for FileGroup {
    type V = GroupView;

    open spec fn view(&self) -> GroupView {
        GroupView { path: self.path@, entries: missing_views(self.entries@) }
    }
}

/// The views of a sequence of groups.
pub open spec fn group_views(groups: Seq<FileGroup>) -> Seq<GroupView> {
    Seq::new(groups.len(), |i: int| groups[i]@)
}

/// Whether the groups stand in strictly ascending byte order of their paths.
/// No path then occurs twice.
pub open spec fn ascending(groups: Seq<GroupView>) -> bool {
    forall|i: int, j: int|
        0 <= i < j < groups.len() ==> lex_lt(
            encode_utf8(#[trigger] groups[i].path),
            encode_utf8(#[trigger] groups[j].path),
        )
}

/// Whether every group holds a finding.
pub open spec fn inhabited(groups: Seq<GroupView>) -> bool {
    forall|i: int| 0 <= i < groups.len() ==> (#[trigger] groups[i]).entries.len() > 0
}

/// The number of groups at the front whose paths sort before `path`.
pub open spec fn position(groups: Seq<GroupView>, path: Seq<char>) -> int
    decreases groups.len(),
{
    if groups.len() == 0 || !lex_lt(encode_utf8(groups[0].path), encode_utf8(path)) {
        0
    } else {
        1 + position(groups.drop_first(), path)
    }
}

/// Whether a group for `path` exists.
pub open spec fn has_group(groups: Seq<GroupView>, path: Seq<char>) -> bool {
    exists|i: int| 0 <= i < groups.len() && (#[trigger] groups[i]).path == path
}

/// The findings recorded for `path`, in order; none if it has no group.
pub open spec fn entries_for(groups: Seq<GroupView>, path: Seq<char>) -> Seq<MissingView> {
    if has_group(groups, path) {
        groups[choose|i: int| 0 <= i < groups.len() && (#[trigger] groups[i]).path == path].entries
    } else {
        Seq::empty()
    }
}

/// The report after one more finding for `path`: the finding goes to the end
/// of the group of `path`, and a new group takes its place in path order if
/// there was none.
pub open spec fn recorded(groups: Seq<GroupView>, path: Seq<char>, entry: MissingView) -> Seq<
    GroupView,
> {
    let at = position(groups, path);
    if at < groups.len() && groups[at].path == path {
        groups.update(at, GroupView { path, entries: groups[at].entries.push(entry) })
    } else {
        groups.insert(at, GroupView { path, entries: seq![entry] })
    }
}

/// In an ascending report, `position` is where `path` is or belongs: every
/// group before it sorts before `path`, and every group from it on does not.
pub proof fn lemma_position(groups: Seq<GroupView>, path: Seq<char>)
    requires
        ascending(groups),
    ensures
        0 <= position(groups, path) <= groups.len(),
        forall|i: int|
            0 <= i < position(groups, path) ==> lex_lt(
                encode_utf8(#[trigger] groups[i].path),
                encode_utf8(path),
            ),
        forall|i: int|
            position(groups, path) <= i < groups.len() ==> !lex_lt(
                encode_utf8(#[trigger] groups[i].path),
                encode_utf8(path),
            ),
        forall|i: int|
            position(groups, path) < i < groups.len() ==> lex_lt(
                encode_utf8(path),
                encode_utf8(#[trigger] groups[i].path),
            ),
        forall|i: int|
            0 <= i < groups.len() && (#[trigger] groups[i]).path == path ==> i == position(
                groups,
                path,
            ),
    decreases groups.len(),
{
    let p = encode_utf8(path);
    if groups.len() > 0 {
        let rest = groups.drop_first();
        assert(ascending(rest));
        if !lex_lt(encode_utf8(groups[0].path), p) {
            assert forall|i: int| 0 <= i < groups.len() implies !lex_lt(
                encode_utf8(#[trigger] groups[i].path),
                p,
            ) by {
                if i > 0 && lex_lt(encode_utf8(groups[i].path), p) {
                    lemma_lex_transitive(encode_utf8(groups[0].path), encode_utf8(groups[i].path), p);
                }
            }
            assert forall|i: int| 0 < i < groups.len() implies lex_lt(
                p,
                encode_utf8(#[trigger] groups[i].path),
            ) by {
                let g = encode_utf8(groups[i].path);
                let g0 = encode_utf8(groups[0].path);
                lemma_lex_total(g0, p);
                if g0 != p {
                    lemma_lex_transitive(p, g0, g);
                }
            }
            assert forall|i: int| 0 <= i < groups.len() && (#[trigger] groups[i]).path
                == path implies i == 0 by {
                if i > 0 {
                    lemma_lex_irreflexive(p);
                    let g0 = encode_utf8(groups[0].path);
                    lemma_lex_total(g0, p);
                    if g0 != p {
                        lemma_lex_transitive(p, g0, p);
                    }
                }
            }
        } else {
            lemma_position(rest, path);
            let at = position(groups, path);
            assert forall|i: int| 0 <= i < at implies lex_lt(
                encode_utf8(#[trigger] groups[i].path),
                p,
            ) by {
                if i > 0 {
                    assert(rest[i - 1] == groups[i]);
                }
            }
            assert forall|i: int| at <= i < groups.len() implies !lex_lt(
                encode_utf8(#[trigger] groups[i].path),
                p,
            ) by {
                assert(rest[i - 1] == groups[i]);
            }
            assert forall|i: int| at < i < groups.len() implies lex_lt(
                p,
                encode_utf8(#[trigger] groups[i].path),
            ) by {
                assert(rest[i - 1] == groups[i]);
            }
            assert forall|i: int| 0 <= i < groups.len() && (#[trigger] groups[i]).path
                == path implies i == at by {
                if i == 0 {
                    lemma_lex_irreflexive(p);
                } else {
                    assert(rest[i - 1] == groups[i]);
                }
            }
        }
    }
}

/// Recording keeps the report ascending and every group inhabited.
pub proof fn lemma_recorded_ascending(groups: Seq<GroupView>, path: Seq<char>, entry: MissingView)
    requires
        ascending(groups),
        inhabited(groups),
    ensures
        ascending(recorded(groups, path, entry)),
        inhabited(recorded(groups, path, entry)),
{
    lemma_position(groups, path);
    let at = position(groups, path);
    let p = encode_utf8(path);
    if at < groups.len() && groups[at].path != path {
        lemma_lex_total(encode_utf8(groups[at].path), p);
        if encode_utf8(groups[at].path) == p {
            lemma_encode_injective(groups[at].path, path);
        }
    }
}

/// In an ascending report, the group of a path is found at any index that
/// holds the path.
pub proof fn lemma_entries_at(groups: Seq<GroupView>, i: int)
    requires
        ascending(groups),
        0 <= i < groups.len(),
    ensures
        has_group(groups, groups[i].path),
        entries_for(groups, groups[i].path) == groups[i].entries,
{
    let path = groups[i].path;
    lemma_position(groups, path);
}

/// A finding goes to the end of what was recorded for
/// its path before, whatever its row and column, and nothing recorded for
/// any other path changes.
pub proof fn lemma_recorded_entries(
    groups: Seq<GroupView>,
    path: Seq<char>,
    entry: MissingView,
    other: Seq<char>,
)
    requires
        ascending(groups),
        inhabited(groups),
    ensures
        entries_for(recorded(groups, path, entry), path) == entries_for(groups, path).push(entry),
        other != path ==> entries_for(recorded(groups, path, entry), other) == entries_for(
            groups,
            other,
        ),
        has_group(recorded(groups, path, entry), other) == (other == path || has_group(
            groups,
            other,
        )),
{
    lemma_position(groups, path);
    lemma_recorded_ascending(groups, path, entry);
    let at = position(groups, path);
    let after = recorded(groups, path, entry);
    let updated = at < groups.len() && groups[at].path == path;
    lemma_entries_at(after, at);
    if updated {
        lemma_entries_at(groups, at);
    }
    if other != path {
        if has_group(groups, other) {
            let k = choose|k: int| 0 <= k < groups.len() && (#[trigger] groups[k]).path == other;
            lemma_entries_at(groups, k);
            let k2 = if updated || k < at {
                k
            } else {
                k + 1
            };
            lemma_entries_at(after, k2);
        }
    }
}

/// Adds a finding to the groups of an ascending report.
fn record_into(groups: &mut Vec<FileGroup>, path: &str, entry: Missing)
    requires
        ascending(group_views(old(groups)@)),
        inhabited(group_views(old(groups)@)),
    ensures
        group_views(final(groups)@) == recorded(group_views(old(groups)@), path@, entry@),
{
    let ghost before = group_views(groups@);
    assert(before.skip(0) =~= before);
    let mut at: usize = 0;
    while at < groups.len() && precedes(groups[at].path.as_str(), path)
        invariant
            at <= groups@.len(),
            before == group_views(groups@),
            position(before, path@) == at + position(before.skip(at as int), path@),
        decreases groups@.len() - at,
    {
        proof {
            let rest = before.skip(at as int);
            assert(rest.drop_first() =~= before.skip(at + 1));
        }
        at += 1;
    }
    if at < groups.len() && same_text(groups[at].path.as_str(), path) {
        let mut group = groups.remove(at);
        let ghost entries = missing_views(group.entries@);
        group.entries.push(entry);
        assert(missing_views(group.entries@) =~= entries.push(entry@));
        groups.insert(at, group);
    } else {
        let mut entries: Vec<Missing> = Vec::new();
        entries.push(entry);
        assert(missing_views(entries@) =~= seq![entry@]);
        groups.insert(at, FileGroup { path: path.to_owned(), entries });
    }
}

/// The report: one group of findings per file, the groups in ascending byte
/// order of their paths.
#[derive(Debug)]
pub struct ReportIndex {
    groups: Vec<FileGroup>,
}

impl View for ReportIndex {
    type V = Seq<GroupView>;

    closed spec fn view(&self) -> Seq<GroupView> {
        group_views(self.groups@)
    }
}

impl ReportIndex {
    #[verifier::type_invariant]
    spec fn well_formed(self) -> bool {
        ascending(self@) && inhabited(self@)
    }

    /// A report without findings.
    pub fn new() -> (report: Self)
        ensures
            report@ == Seq::<GroupView>::empty(),
    {
        let report = ReportIndex { groups: Vec::new() };
        report
    }

    /// The groups, in ascending order of their paths.
    pub fn groups(&self) -> (groups: &[FileGroup])
        ensures
            group_views(groups@) == self@,
            ascending(self@),
            inhabited(self@),
    {
        proof {
            use_type_invariant(self);
        }
        self.groups.as_slice()
    }

    /// The number of files with findings.
    pub fn len(&self) -> (len: usize)
        ensures
            len == self@.len(),
    {
        self.groups.len()
    }

    /// Whether no finding was recorded.
    pub fn is_empty(&self) -> (empty: bool)
        ensures
            empty == (self@.len() == 0),
    {
        self.groups.len() == 0
    }

    /// The group of `path`, if a finding was recorded for it.
    pub fn get(&self, path: &str) -> (group: Option<&FileGroup>)
        ensures
            match group {
                Some(group) => {
                    &&& has_group(self@, path@)
                    &&& group@.path == path@
                    &&& group@.entries == entries_for(self@, path@)
                },
                None => !has_group(self@, path@),
            },
    {
        proof {
            use_type_invariant(self);
        }
        let ghost views = self@;
        let mut i: usize = 0;
        while i < self.groups.len()
            invariant
                i <= self.groups@.len(),
                views == group_views(self.groups@),
                ascending(views),
                forall|j: int| 0 <= j < i ==> (#[trigger] views[j]).path != path@,
            decreases self.groups@.len() - i,
        {
            if same_text(self.groups[i].path.as_str(), path) {
                proof {
                    lemma_entries_at(views, i as int);
                }
                return Some(&self.groups[i]);
            }
            i += 1;
        }
        None
    }

    /// Records a finding for `path`, after those already recorded for it.
    pub fn record(&mut self, path: &str, entry: Missing)
        ensures
            final(self)@ == recorded(old(self)@, path@, entry@),
            ascending(old(self)@),
            inhabited(old(self)@),
            ascending(final(self)@),
            inhabited(final(self)@),
    {
        proof {
            use_type_invariant(&*self);
            lemma_recorded_ascending(self@, path@, entry@);
        }
        let mut groups: Vec<FileGroup> = Vec::new();
        std::mem::swap(&mut self.groups, &mut groups);
        record_into(&mut groups, path, entry);
        std::mem::swap(&mut self.groups, &mut groups);
    }
}

} // verus!
