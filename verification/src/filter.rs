//! The gates that decide which diagnostics and which spans are in scope.

use crate::args::ClassifyKind;
use crate::text::{ends_with, same_text, starts_with};
use vstd::prelude::*;
use vstd::string::*;

verus! {

/// Whether `code` is one of the lint codes that report missing or malformed
/// documentation.
pub open spec fn is_doc_code(code: Seq<char>) -> bool {
    ||| code == "missing_docs"@
    ||| code == "clippy::empty_docs"@
    ||| code == "clippy::suspicious_doc_comments"@
    ||| code == "clippy::missing-errors-doc"@
    ||| code == "clippy::missing-panics-doc"@
    ||| code == "clippy::missing-safety-doc"@
    ||| code == "clippy::unnecessary_safety_doc"@
    ||| code == "clippy::undocumented_unsafe_blocks"@
}

/// Whether `text` ends with the phrase of one of `kinds`.
pub open spec fn ends_with_any(text: Seq<char>, kinds: Seq<ClassifyKind>) -> bool {
    exists|i: int| 0 <= i < kinds.len() && (#[trigger] kinds[i]).suffix().is_suffix_of(text)
}

/// The kind gate.  A non-empty `included` set admits only messages that end with
/// the phrase of an included kind, and `excluded` is then not consulted.  With
/// an empty `included`, a non-empty `excluded` turns away messages that end
/// with the phrase of an excluded kind.  Two empty sets admit everything.
pub open spec fn kind_gate(
    included: Seq<ClassifyKind>,
    excluded: Seq<ClassifyKind>,
    text: Seq<char>,
) -> bool {
    if included.len() > 0 {
        ends_with_any(text, included)
    } else if excluded.len() > 0 {
        !ends_with_any(text, excluded)
    } else {
        true
    }
}

/// Whether a message passes both the code gate and the kind gate.
pub open spec fn admits(
    included: Seq<ClassifyKind>,
    excluded: Seq<ClassifyKind>,
    code: Option<Seq<char>>,
    text: Seq<char>,
) -> bool {
    match code {
        Some(code) => is_doc_code(code) && kind_gate(included, excluded, text),
        None => false,
    }
}

/// The path gate: an empty allow-list lets every file through, any other
/// only the files it names.
pub open spec fn path_allowed(allow: Seq<Seq<char>>, file: Seq<char>) -> bool {
    allow.len() == 0 || allow.contains(file)
}

/// Whether a path, written with `/` between its parts, lies in the build
/// directory `target`: it is that directory or begins with it as its first
/// part.
pub open spec fn is_under_target(path: Seq<char>) -> bool {
    path == "target"@ || "target/"@.is_prefix_of(path)
}

/// The texts that a list of strings holds.
pub open spec fn texts_of(strings: Seq<String>) -> Seq<Seq<char>> {
    Seq::new(strings.len(), |i: int| strings[i]@)
}

/// Whether a path, written with `/` between its parts, lies in the build
/// directory.  Such files are never in scope.
pub fn under_target(path: &str) -> (under: bool)
    ensures
        under == is_under_target(path@),
{
    same_text(path, "target") || starts_with(path, "target/")
}

/// The code gate.
pub fn code_allowed(code: &str) -> (allowed: bool)
    ensures
        allowed == is_doc_code(code@),
{
    same_text(code, "missing_docs") || same_text(code, "clippy::empty_docs") || same_text(
        code,
        "clippy::suspicious_doc_comments",
    ) || same_text(code, "clippy::missing-errors-doc") || same_text(
        code,
        "clippy::missing-panics-doc",
    ) || same_text(code, "clippy::missing-safety-doc") || same_text(
        code,
        "clippy::unnecessary_safety_doc",
    ) || same_text(code, "clippy::undocumented_unsafe_blocks")
}

/// Whether `text` ends with the phrase of one of `kinds`.
pub fn matches_any(text: &str, kinds: &[ClassifyKind]) -> (found: bool)
    ensures
        found == ends_with_any(text@, kinds@),
{
    let mut i: usize = 0;
    while i < kinds.len()
        invariant
            i <= kinds@.len(),
            forall|j: int| 0 <= j < i ==> !(#[trigger] kinds@[j]).suffix().is_suffix_of(text@),
        decreases kinds@.len() - i,
    {
        if ends_with(text, kinds[i].as_str()) {
            return true;
        }
        i += 1;
    }
    false
}

/// The kind gate.
pub fn kind_allowed(included: &[ClassifyKind], excluded: &[ClassifyKind], text: &str) -> (allowed:
    bool)
    ensures
        allowed == kind_gate(included@, excluded@, text@),
{
    if included.len() > 0 {
        matches_any(text, included)
    } else if excluded.len() > 0 {
        !matches_any(text, excluded)
    } else {
        true
    }
}

/// The path gate.
pub fn path_in_scope(allow: &[String], file: &str) -> (allowed: bool)
    ensures
        allowed == path_allowed(texts_of(allow@), file@),
{
    if allow.len() == 0 {
        return true;
    }
    let ghost texts = texts_of(allow@);
    let mut i: usize = 0;
    while i < allow.len()
        invariant
            i <= allow@.len(),
            texts == texts_of(allow@),
            forall|j: int| 0 <= j < i ==> #[trigger] texts[j] != file@,
        decreases allow@.len() - i,
    {
        assert(texts[i as int] == allow@[i as int]@);
        if same_text(allow[i].as_str(), file) {
            return true;
        }
        i += 1;
    }
    false
}

/// With nothing included and nothing excluded, every message whose
/// code is a documentation lint passes.
pub proof fn lemma_empty_filters_admit(code: Seq<char>, text: Seq<char>)
    requires
        is_doc_code(code),
    ensures
        kind_gate(Seq::empty(), Seq::empty(), text),
        admits(Seq::empty(), Seq::empty(), Some(code), text),
{
}

/// Where kinds are included, the excluded kinds have no say.
pub proof fn lemma_included_take_precedence(
    included: Seq<ClassifyKind>,
    excluded: Seq<ClassifyKind>,
    text: Seq<char>,
)
    requires
        included.len() > 0,
    ensures
        kind_gate(included, excluded, text) == kind_gate(included, Seq::empty(), text),
        kind_gate(included, excluded, text) == ends_with_any(text, included),
{
}

/// The filters of a walk: the files in scope, and the kinds that are
/// included or excluded.
#[derive(Debug)]
pub struct Filters {
    set: Vec<String>,
    included: Vec<ClassifyKind>,
    excluded: Vec<ClassifyKind>,
}

/// What [`Filters`] hold, as mathematical values.
pub struct FiltersView {
    /// The files that are in scope; all files if empty.
    pub allow: Seq<Seq<char>>,
    /// The kinds that alone are in scope, if there are any.
    pub included: Seq<ClassifyKind>,
    /// The kinds that are out of scope, consulted if none is included.
    pub excluded: Seq<ClassifyKind>,
}

impl View for Filters {
    type V = FiltersView;

    closed spec fn view(&self) -> FiltersView {
        FiltersView {
            allow: texts_of(self.set@),
            included: self.included@,
            excluded: self.excluded@,
        }
    }
}

impl Filters {
    /// Filters that let through the files that `set` names, all files if it
    /// is empty, and the kinds that `included` and `excluded` leave.
    pub fn new(set: Vec<String>, included: Vec<ClassifyKind>, excluded: Vec<ClassifyKind>) -> (filters:
        Self)
        ensures
            filters@ == (FiltersView {
                allow: texts_of(set@),
                included: included@,
                excluded: excluded@,
            }),
    {
        Filters { set, included, excluded }
    }

    /// Whether a message with this code and text passes the code gate and
    /// the kind gate.
    pub fn admits_message(&self, code: Option<&str>, text: &str) -> (admitted: bool)
        ensures
            admitted == admits(
                self@.included,
                self@.excluded,
                match code {
                    Some(code) => Some(code@),
                    None => None,
                },
                text@,
            ),
    {
        match code {
            None => false,
            Some(code) => code_allowed(code) && kind_allowed(
                self.included.as_slice(),
                self.excluded.as_slice(),
                text,
            ),
        }
    }

    /// Whether a span of `file` passes the path gate.
    pub fn allows_path(&self, file: &str) -> (allowed: bool)
        ensures
            allowed == path_allowed(self@.allow, file@),
    {
        path_in_scope(self.set.as_slice(), file)
    }
}

} // verus!
