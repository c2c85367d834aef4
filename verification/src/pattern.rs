//! The compiled form of a pattern and its mathematical model.

use vstd::prelude::*;

verus! {

/// How often a node may repeat.
#[derive(Debug, Clone, Copy, PartialEq, Eq, Structural)]
pub enum Modifier {
    ZeroOrOne,
    ZeroOrMore,
    OneOrMore,
}

/// What a node matches: the model of `PatternKind`, with sequences in
/// place of vectors and natural numbers in place of machine integers.
pub enum Kind {
    /// A class: what any of the members matches.
    Alternatives(Seq<PatternNode>),
    /// A negated class: one character at which no member matches.
    NotAlternatives(Seq<PatternNode>),
    /// Exactly this character.
    Literal(char),
    /// One alphanumeric character or underscore.
    AlphaNumeric,
    /// One ASCII decimal digit.
    Digit,
    /// The start of the input: an anchor at the head of a pattern only.
    InputStart,
    /// The end of the input; consumes nothing.
    InputEnd,
    /// Any one character.
    Any,
    /// A group with its id: the first of the alternative sequences that
    /// matches as a whole; its text is captured under the id.
    AlternateGroups(nat, Seq<Seq<PatternNode>>),
    /// The text captured by the group with the id one less than this number.
    BackRef(nat),
}

/// One matchable unit with its quantifier: the model of `SubPattern`.
pub struct PatternNode {
    pub kind: Kind,
    pub modifier: Option<Modifier>,
}

/// What a compiled node matches.
#[derive(Debug, PartialEq, Eq)]
pub enum PatternKind {
    /// A class `[..]`: what any of the members matches.
    Alternatives(Vec<SubPattern>),
    /// A negated class `[^..]`: one character at which no member matches.
    NotAlternatives(Vec<SubPattern>),
    /// Exactly this character.
    Literal(char),
    /// `\w`: one alphanumeric character or underscore.
    AlphaNumeric,
    /// `\d`: one ASCII decimal digit.
    Digit,
    /// `^`: the start of the input; an anchor at the head of a pattern only.
    InputStart,
    /// `$`: the end of the input; consumes nothing.
    InputEnd,
    /// `.`: any one character.
    Any,
    /// A group `(..|..)` with its id: the first of the alternative sequences
    /// that matches as a whole; its text is captured under the id.
    AlternateGroups(usize, Vec<Vec<SubPattern>>),
    /// `\1` to `\9`: the text captured by the group with the id one less
    /// than this number.
    BackRef(usize),
}

/// One compiled node: a kind, and the quantifier written behind it.
#[derive(Debug, PartialEq, Eq)]
pub struct SubPattern {
    pub kind: PatternKind,
    pub modifier: Option<Modifier>,
}

/// The model of a sequence of compiled nodes.
pub open spec fn nodes_view(v: Seq<SubPattern>) -> Seq<PatternNode>
    decreases v, 1int,
{
    Seq::new(v.len(), |i: int| if 0 <= i < v.len() { v[i].view() } else { arbitrary() })
}

/// The model of the alternatives of a group.
pub open spec fn alts_view(v: Seq<Vec<SubPattern>>) -> Seq<Seq<PatternNode>>
    decreases v, 1int,
{
    Seq::new(v.len(), |i: int| if 0 <= i < v.len() { nodes_view(v[i]@) } else { arbitrary() })
}

impl View for PatternKind {
    type V = Kind;

    open spec fn view(&self) -> Kind
        decreases self, 0int,
    {
        match self {
            PatternKind::Alternatives(v) => Kind::Alternatives(nodes_view(v@)),
            PatternKind::NotAlternatives(v) => Kind::NotAlternatives(nodes_view(v@)),
            PatternKind::Literal(c) => Kind::Literal(*c),
            PatternKind::AlphaNumeric => Kind::AlphaNumeric,
            PatternKind::Digit => Kind::Digit,
            PatternKind::InputStart => Kind::InputStart,
            PatternKind::InputEnd => Kind::InputEnd,
            PatternKind::Any => Kind::Any,
            PatternKind::AlternateGroups(id, alts) => Kind::AlternateGroups(*id as nat, alts_view(alts@)),
            PatternKind::BackRef(id) => Kind::BackRef(*id as nat),
        }
    }
}

impl View for SubPattern {
    type V = PatternNode;

    open spec fn view(&self) -> PatternNode
        decreases self, 0int,
    {
        PatternNode { kind: self.kind.view(), modifier: self.modifier }
    }
}

} // verus!
