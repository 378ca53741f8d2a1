//! How user-facing labels map onto the classes and rules of the pseudonymization pipeline.
use vstd::prelude::*;
use crate::text::{string_from_chars, str_eq};

verus! {

/// A class of personal data as the labels name it. `Other` carries the lowercased label,
/// which the pipeline resolves to a policy class or a custom class.
#[derive(Debug, Clone, PartialEq, Eq)]
pub enum ClassLabel {
    Name,
    Organization,
    Location,
    Email,
    Other(String),
}

/// The mathematical form of a [`ClassLabel`].
pub enum ClassView {
    Name,
    Organization,
    Location,
    Email,
    Other(Seq<char>),
}

impl View for ClassLabel {
    type V = ClassView;

    open spec fn view(&self) -> ClassView {
        match self {
            ClassLabel::Name => ClassView::Name,
            ClassLabel::Organization => ClassView::Organization,
            ClassLabel::Location => ClassView::Location,
            ClassLabel::Email => ClassView::Email,
            ClassLabel::Other(s) => ClassView::Other(s@),
        }
    }
}

impl ClassLabel {
    /// A copy of this class label.
    pub fn duplicate(&self) -> (r: ClassLabel)
        ensures
            r@ == self@,
    {
        match self {
            ClassLabel::Name => ClassLabel::Name,
            ClassLabel::Organization => ClassLabel::Organization,
            ClassLabel::Location => ClassLabel::Location,
            ClassLabel::Email => ClassLabel::Email,
            ClassLabel::Other(s) => ClassLabel::Other(s.clone()),
        }
    }
}

/// ASCII lowercase of one character (`char::to_ascii_lowercase`).
pub open spec fn ascii_lower_char(c: char) -> char {
    if 'A' <= c && c <= 'Z' {
        ((c as u32) + 32) as char
    } else {
        c
    }
}

/// ASCII lowercase of a string (`str::to_ascii_lowercase`).
pub open spec fn spec_ascii_lowercase(s: Seq<char>) -> Seq<char> {
    s.map_values(|c: char| ascii_lower_char(c))
}

/// `str::to_ascii_lowercase`: letters A-Z become a-z, everything else is kept.
pub fn ascii_lowercase(s: &str) -> (r: String)
    ensures
        r@ == spec_ascii_lowercase(s@),
{
    let mut out: Vec<char> = Vec::new();
    for c in it: s.chars()
        invariant
            it.seq() == s@,
            out@ == spec_ascii_lowercase(s@.take(it.index() as int)),
    {
        let l = if 'A' <= c && c <= 'Z' {
            let u = (c as u32) + 32;
            proof {
                assert(0x61 <= u <= 0x7a);
            }
            char_from_ascii(u)
        } else {
            c
        };
        out.push(l);
        proof {
            assert(spec_ascii_lowercase(s@.take(it.index() + 1)) =~= spec_ascii_lowercase(
                s@.take(it.index() as int),
            ).push(l));
        }
    }
    proof {
        assert(s@.take(s@.len() as int) =~= s@);
    }
    string_from_chars(out)
}

fn char_from_ascii(u: u32) -> (c: char)
    requires
        u < 0x80,
    ensures
        c == u as char,
{
    (u as u8) as char
}

/// The class a label denotes.
pub open spec fn spec_pii_class(label: Seq<char>) -> ClassView {
    let l = spec_ascii_lowercase(label);
    if l == "person"@ || l == "name"@ {
        ClassView::Name
    } else if l == "organization"@ || l == "org"@ {
        ClassView::Organization
    } else if l == "location"@ {
        ClassView::Location
    } else if l == "email"@ {
        ClassView::Email
    } else {
        ClassView::Other(l)
    }
}

/// The class a label denotes: the built-in classes by their common names, any other label
/// (lowercased) for the pipeline to resolve.
pub fn pii_class(label: &str) -> (r: ClassLabel)
    ensures
        r@ == spec_pii_class(label@),
{
    let l = ascii_lowercase(label);
    if str_eq(l.as_str(), "person") || str_eq(l.as_str(), "name") {
        ClassLabel::Name
    } else if str_eq(l.as_str(), "organization") || str_eq(l.as_str(), "org") {
        ClassLabel::Organization
    } else if str_eq(l.as_str(), "location") {
        ClassLabel::Location
    } else if str_eq(l.as_str(), "email") {
        ClassLabel::Email
    } else {
        ClassLabel::Other(l)
    }
}

/// A rule of the redaction policy.
#[derive(Debug, Clone, PartialEq, Eq)]
pub enum RuleSpec {
    /// Replace every detection of the class by a reversible token.
    Tokenize(ClassLabel),
    /// Leave everything no other rule names unchanged.
    PreserveByDefault,
}

/// The mathematical form of a [`RuleSpec`].
pub enum RuleView {
    Tokenize(ClassView),
    PreserveByDefault,
}

impl View for RuleSpec {
    type V = RuleView;

    open spec fn view(&self) -> RuleView {
        match self {
            RuleSpec::Tokenize(c) => RuleView::Tokenize(c@),
            RuleSpec::PreserveByDefault => RuleView::PreserveByDefault,
        }
    }
}

/// The policy rules for a set of labels: tokenize each label's class, in order, then keep
/// everything else.
pub fn tokenize_rules(labels: &Vec<&str>) -> (r: Vec<RuleSpec>)
    ensures
        r@.len() == labels@.len() + 1,
        forall|i: int|
            0 <= i < labels@.len() ==> #[trigger] r@[i]@ == RuleView::Tokenize(
                spec_pii_class(labels@[i]@),
            ),
        r@[labels@.len() as int]@ == RuleView::PreserveByDefault,
{
    let mut rules: Vec<RuleSpec> = Vec::new();
    let mut i: usize = 0;
    while i < labels.len()
        invariant
            i <= labels@.len(),
            rules@.len() == i,
            forall|j: int|
                0 <= j < i ==> #[trigger] rules@[j]@ == RuleView::Tokenize(
                    spec_pii_class(labels@[j]@),
                ),
        decreases labels@.len() - i,
    {
        let class = pii_class(labels[i]);
        rules.push(RuleSpec::Tokenize(class));
        i += 1;
    }
    rules.push(RuleSpec::PreserveByDefault);
    rules
}

} // verus!
