//! The closed set of documentable item kinds.

use crate::text::ends_with;
use crate::utf8::{lemma_suffix_boundary, lemma_suffix_chars_bytes};
use vstd::prelude::*;
use vstd::string::*;
use vstd::utf8::*;

verus! {

/// The kind of item a diagnostic refers to.
#[derive(Copy, Clone, Debug, PartialEq, Eq, Structural)]
pub enum ClassifyKind {
    AssociatedConstant,
    AssociatedFunction,
    AssociatedType,
    Constant,
    Crate,
    Enum,
    Function,
    Macro,
    Method,
    Struct,
    StructField,
    Trait,
    TypeAlias,
    Variant,
    Static,
}

impl ClassifyKind {
    /// The lowercase snake-case key under which this kind is configured.
    pub open spec fn key(self) -> Seq<char> {
        match self {
            Self::AssociatedConstant => "associated_constant"@,
            Self::AssociatedFunction => "associated_function"@,
            Self::AssociatedType => "associated_type"@,
            Self::Constant => "constant"@,
            Self::Crate => "crate"@,
            Self::Enum => "enum"@,
            Self::Function => "function"@,
            Self::Macro => "macro"@,
            Self::Method => "method"@,
            Self::Struct => "struct"@,
            Self::StructField => "struct_field"@,
            Self::Trait => "trait"@,
            Self::TypeAlias => "type_alias"@,
            Self::Variant => "variant"@,
            Self::Static => "static"@,
        }
    }

    /// The phrase a diagnostic message ends with when it refers to this kind.
    pub open spec fn suffix(self) -> Seq<char> {
        match self {
            Self::AssociatedConstant => "associated constant"@,
            Self::AssociatedFunction => "associated function"@,
            Self::AssociatedType => "associated type"@,
            Self::Constant => "constant"@,
            Self::Crate => "the crate"@,
            Self::Enum => "enum"@,
            Self::Function => "function"@,
            Self::Macro => "macro"@,
            Self::Method => "method"@,
            Self::Struct => "struct"@,
            Self::StructField => "struct field"@,
            Self::Trait => "trait"@,
            Self::TypeAlias => "type alias"@,
            Self::Variant => "variant"@,
            Self::Static => "static"@,
        }
    }

    /// The kinds in the order in which their phrases are tried.  A phrase that
    /// ends another one comes after it, so the longer phrase wins.
    pub open spec fn priority() -> Seq<ClassifyKind> {
        seq![
            Self::AssociatedConstant,
            Self::AssociatedFunction,
            Self::AssociatedType,
            Self::Constant,
            Self::Crate,
            Self::Enum,
            Self::Function,
            Self::Macro,
            Self::Method,
            Self::Struct,
            Self::StructField,
            Self::Trait,
            Self::TypeAlias,
            Self::Variant,
            Self::Static,
        ]
    }

    /// The first of `kinds` whose phrase ends `text`.
    pub open spec fn first_match(text: Seq<char>, kinds: Seq<ClassifyKind>) -> Option<
        ClassifyKind,
    >
        decreases kinds.len(),
    {
        if kinds.len() == 0 {
            None
        } else if kinds[0].suffix().is_suffix_of(text) {
            Some(kinds[0])
        } else {
            Self::first_match(text, kinds.drop_first())
        }
    }

    /// The kind that `text` refers to: the first one, in priority order, whose
    /// phrase ends it.
    pub open spec fn lookup(text: Seq<char>) -> Option<ClassifyKind> {
        Self::first_match(text, Self::priority())
    }

    /// The byte offset at which the phrase of `kind` begins in a text of
    /// `len` bytes that ends with it.
    pub open spec fn suffix_offset(len: nat, kind: ClassifyKind) -> int {
        len - encode_utf8(kind.suffix()).len()
    }

    /// The key under which this kind is configured.
    pub fn as_key(&self) -> (key: &'static str)
        ensures
            key@ == self.key(),
    {
        match self {
            Self::AssociatedConstant => "associated_constant",
            Self::AssociatedFunction => "associated_function",
            Self::AssociatedType => "associated_type",
            Self::Constant => "constant",
            Self::Crate => "crate",
            Self::Enum => "enum",
            Self::Function => "function",
            Self::Macro => "macro",
            Self::Method => "method",
            Self::Struct => "struct",
            Self::StructField => "struct_field",
            Self::Trait => "trait",
            Self::TypeAlias => "type_alias",
            Self::Variant => "variant",
            Self::Static => "static",
        }
    }

    /// The phrase that a message about this kind ends with.
    pub fn as_str(&self) -> (phrase: &'static str)
        ensures
            phrase@ == self.suffix(),
    {
        match self {
            Self::AssociatedConstant => "associated constant",
            Self::AssociatedFunction => "associated function",
            Self::AssociatedType => "associated type",
            Self::Constant => "constant",
            Self::Crate => "the crate",
            Self::Enum => "enum",
            Self::Function => "function",
            Self::Macro => "macro",
            Self::Method => "method",
            Self::Struct => "struct",
            Self::StructField => "struct field",
            Self::Trait => "trait",
            Self::TypeAlias => "type alias",
            Self::Variant => "variant",
            Self::Static => "static",
        }
    }

    /// Finds the kind whose phrase ends `input`, trying the kinds in priority
    /// order, and the byte offset at which that phrase begins.
    pub fn parse(input: &str) -> (found: Option<(Self, usize)>)
        ensures
            match found {
                Some((kind, offset)) => {
                    &&& Self::lookup(input@) == Some(kind)
                    &&& offset == Self::suffix_offset(input.spec_bytes().len(), kind)
                    &&& is_char_boundary(input.spec_bytes(), offset as int)
                },
                None => Self::lookup(input@) is None,
            },
    {
        let kinds: [ClassifyKind; 15] = [
            Self::AssociatedConstant,
            Self::AssociatedFunction,
            Self::AssociatedType,
            Self::Constant,
            Self::Crate,
            Self::Enum,
            Self::Function,
            Self::Macro,
            Self::Method,
            Self::Struct,
            Self::StructField,
            Self::Trait,
            Self::TypeAlias,
            Self::Variant,
            Self::Static,
        ];
        assert(Self::priority().skip(0) =~= Self::priority());
        let mut i: usize = 0;
        while i < 15
            invariant
                i <= 15,
                kinds@ == Self::priority(),
                Self::lookup(input@) == Self::first_match(input@, Self::priority().skip(i as int)),
            decreases 15 - i,
        {
            let kind = kinds[i];
            let phrase = kind.as_str();
            proof {
                let rest = Self::priority().skip(i as int);
                assert(rest.drop_first() =~= Self::priority().skip(i + 1));
            }
            if ends_with(input, phrase) {
                proof {
                    lemma_suffix_chars_bytes(input@, phrase@);
                    encode_utf8_valid_utf8(input@);
                    encode_utf8_valid_utf8(phrase@);
                    lemma_suffix_boundary(input.spec_bytes(), phrase.spec_bytes());
                }
                return Some((kind, input.as_bytes().len() - phrase.as_bytes().len()));
            }
            i += 1;
        }
        None
    }
}

/// The place of a kind in the priority order.
pub open spec fn rank(kind: ClassifyKind) -> int {
    match kind {
        ClassifyKind::AssociatedConstant => 0,
        ClassifyKind::AssociatedFunction => 1,
        ClassifyKind::AssociatedType => 2,
        ClassifyKind::Constant => 3,
        ClassifyKind::Crate => 4,
        ClassifyKind::Enum => 5,
        ClassifyKind::Function => 6,
        ClassifyKind::Macro => 7,
        ClassifyKind::Method => 8,
        ClassifyKind::Struct => 9,
        ClassifyKind::StructField => 10,
        ClassifyKind::Trait => 11,
        ClassifyKind::TypeAlias => 12,
        ClassifyKind::Variant => 13,
        ClassifyKind::Static => 14,
    }
}

/// Every kind stands in the priority order, at its rank.
pub proof fn lemma_rank(kind: ClassifyKind)
    ensures
        0 <= rank(kind) < ClassifyKind::priority().len(),
        ClassifyKind::priority()[rank(kind)] == kind,
        ClassifyKind::priority().len() == 15,
{
}

/// What `first_match` finds: the first of `kinds` whose phrase ends `text`,
/// and nothing only if no phrase does.
pub proof fn lemma_first_match(text: Seq<char>, kinds: Seq<ClassifyKind>)
    ensures
        match ClassifyKind::first_match(text, kinds) {
            Some(kind) => exists|i: int|
                {
                    &&& 0 <= i < kinds.len()
                    &&& #[trigger] kinds[i] == kind
                    &&& kind.suffix().is_suffix_of(text)
                    &&& forall|j: int|
                        0 <= j < i ==> !(#[trigger] kinds[j]).suffix().is_suffix_of(text)
                },
            None => forall|j: int|
                0 <= j < kinds.len() ==> !(#[trigger] kinds[j]).suffix().is_suffix_of(text),
        },
    decreases kinds.len(),
{
    if kinds.len() > 0 && !kinds[0].suffix().is_suffix_of(text) {
        let rest = kinds.drop_first();
        lemma_first_match(text, rest);
        match ClassifyKind::first_match(text, rest) {
            Some(kind) => {
                let i = choose|i: int|
                    {
                        &&& 0 <= i < rest.len()
                        &&& #[trigger] rest[i] == kind
                        &&& kind.suffix().is_suffix_of(text)
                        &&& forall|j: int|
                            0 <= j < i ==> !(#[trigger] rest[j]).suffix().is_suffix_of(text)
                    };
                assert forall|j: int| 0 <= j < i + 1 implies !(#[trigger] kinds[j]).suffix().is_suffix_of(
                    text,
                ) by {
                    if j > 0 {
                        assert(kinds[j] == rest[j - 1]);
                    }
                }
            },
            None => {
                assert forall|j: int| 0 <= j < kinds.len() implies !(#[trigger] kinds[j]).suffix().is_suffix_of(
                    text,
                ) by {
                    if j > 0 {
                        assert(kinds[j] == rest[j - 1]);
                    }
                }
            },
        }
    }
}

/// A text is left unclassified exactly when it ends with the
/// phrase of no kind, and what is found is a kind whose phrase ends it.
pub proof fn lemma_lookup(text: Seq<char>)
    ensures
        ClassifyKind::lookup(text) is None <==> forall|kind: ClassifyKind|
            !(#[trigger] kind.suffix()).is_suffix_of(text),
        ClassifyKind::lookup(text) matches Some(kind) ==> kind.suffix().is_suffix_of(text),
{
    let order = ClassifyKind::priority();
    lemma_first_match(text, order);
    if ClassifyKind::lookup(text) is None {
        assert forall|kind: ClassifyKind| !(#[trigger] kind.suffix()).is_suffix_of(text) by {
            lemma_rank(kind);
        }
    }
}

/// The phrase of every kind has at least four characters.
pub proof fn lemma_suffix_not_empty(kind: ClassifyKind)
    ensures
        kind.suffix().len() >= 4,
{
    reveal_strlit("associated constant");
    reveal_strlit("associated function");
    reveal_strlit("associated type");
    reveal_strlit("constant");
    reveal_strlit("the crate");
    reveal_strlit("enum");
    reveal_strlit("function");
    reveal_strlit("macro");
    reveal_strlit("method");
    reveal_strlit("struct");
    reveal_strlit("struct field");
    reveal_strlit("trait");
    reveal_strlit("type alias");
    reveal_strlit("variant");
    reveal_strlit("static");
}

/// The empty text is unclassified.
pub proof fn lemma_empty_unclassified()
    ensures
        ClassifyKind::lookup(Seq::empty()) is None,
{
    lemma_lookup(Seq::empty());
    assert forall|kind: ClassifyKind| !(#[trigger] kind.suffix()).is_suffix_of(
        Seq::<char>::empty(),
    ) by {
        lemma_suffix_not_empty(kind);
    }
}

/// A text that ends with "struct field" is a struct field, never a
/// struct, although the phrase of `Struct` is tried first.
pub proof fn lemma_struct_field_wins(text: Seq<char>)
    requires
        ClassifyKind::StructField.suffix().is_suffix_of(text),
    ensures
        ClassifyKind::lookup(text) == Some(ClassifyKind::StructField),
{
    reveal_strlit("associated constant");
    reveal_strlit("associated function");
    reveal_strlit("associated type");
    reveal_strlit("constant");
    reveal_strlit("the crate");
    reveal_strlit("enum");
    reveal_strlit("function");
    reveal_strlit("macro");
    reveal_strlit("method");
    reveal_strlit("struct");
    reveal_strlit("struct field");
    let order = ClassifyKind::priority();
    let n = text.len() as int;
    let field = ClassifyKind::StructField.suffix();
    assert(text[n - 2] == field[10]);
    assert forall|j: int| 0 <= j < 10 implies !(#[trigger] order[j]).suffix().is_suffix_of(
        text,
    ) by {
        let phrase = order[j].suffix();
        if phrase.is_suffix_of(text) {
            let m = phrase.len() as int;
            assert(phrase[m - 2] == text[n - 2]);
        }
    }
    lemma_first_match(text, order);
    assert(order[10].suffix().is_suffix_of(text));
}

/// Of two kinds whose phrases both end a text, the one that is tried first
/// has the longer phrase.
pub proof fn lemma_earlier_is_longer(text: Seq<char>, first: ClassifyKind, second: ClassifyKind)
    requires
        first.suffix().is_suffix_of(text),
        second.suffix().is_suffix_of(text),
        rank(first) < rank(second),
    ensures
        second.suffix().len() < first.suffix().len(),
{
    reveal_strlit("associated constant");
    reveal_strlit("associated function");
    reveal_strlit("associated type");
    reveal_strlit("constant");
    reveal_strlit("the crate");
    reveal_strlit("enum");
    reveal_strlit("function");
    reveal_strlit("macro");
    reveal_strlit("method");
    reveal_strlit("struct");
    reveal_strlit("struct field");
    reveal_strlit("trait");
    reveal_strlit("type alias");
    reveal_strlit("variant");
    reveal_strlit("static");
    let n = text.len() as int;
    let a = first.suffix();
    let b = second.suffix();
    let la = a.len() as int;
    let lb = b.len() as int;
    assert(a[la - 1] == text[n - 1] && b[lb - 1] == text[n - 1]);
    assert(a[la - 2] == text[n - 2] && b[lb - 2] == text[n - 2]);
}

/// The kind that is found has the longest phrase of all the kinds
/// whose phrases end the text.
pub proof fn lemma_lookup_longest(text: Seq<char>, other: ClassifyKind)
    requires
        other.suffix().is_suffix_of(text),
    ensures
        ClassifyKind::lookup(text) matches Some(kind) && kind.suffix().is_suffix_of(text)
            && other.suffix().len() <= kind.suffix().len(),
{
    let order = ClassifyKind::priority();
    lemma_first_match(text, order);
    lemma_rank(other);
    match ClassifyKind::first_match(text, order) {
        Some(kind) => {
            let i = choose|i: int|
                {
                    &&& 0 <= i < order.len()
                    &&& #[trigger] order[i] == kind
                    &&& kind.suffix().is_suffix_of(text)
                    &&& forall|j: int|
                        0 <= j < i ==> !(#[trigger] order[j]).suffix().is_suffix_of(text)
                };
            lemma_rank(kind);
            if rank(other) > i {
                lemma_earlier_is_longer(text, kind, other);
            }
        },
        None => {},
    }
}

} // verus!
