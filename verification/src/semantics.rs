//! What matching means: the outcome of every matching step as a function of
//! the text, the nodes, the captures so far and the nesting allowance.
//!
//! Every step hands on the capture table, because a group records its text
//! also where the node around it fails afterwards. Lengths and offsets count
//! characters.

use crate::captures::record_capture;
use crate::chars::{is_digit, is_word};
use crate::pattern::{Kind, Modifier, PatternNode};
use crate::syntax::{compile, CompileError};
use vstd::prelude::*;

verus! {

/// Why a match attempt was given up.
#[derive(Debug, Clone, Copy, PartialEq, Eq, Structural)]
pub enum MatchError {
    /// The pattern, or a captured text that a backreference reads as a
    /// pattern, does not compile.
    Compile(CompileError),
    /// A `^` was reached in the middle of matching. Only a `^` at the head of
    /// the pattern of an unanchored search is an anchor.
    MisplacedStart,
    /// Backreferences resolved through more nested captures than allowed.
    TooDeep,
}

/// The outcome of a step that consumes a prefix: the number of characters
/// consumed, no match, or an error; and the captures behind the step.
pub struct Step {
    pub outcome: Result<Option<nat>, MatchError>,
    pub table: Map<nat, Seq<char>>,
}

/// The outcome of a step that also looks for a place: a pair of offsets, no
/// match, or an error; and the captures behind the step.
pub struct Search {
    pub outcome: Result<Option<(nat, nat)>, MatchError>,
    pub table: Map<nat, Seq<char>>,
}

/// Whether the node before a failing one lets the search try again: a
/// repetition or a group does.
pub open spec fn gives_back(prev: PatternNode) -> bool {
    prev.modifier == Some(Modifier::ZeroOrMore) || prev.modifier == Some(Modifier::OneOrMore)
        || prev.kind is AlternateGroups
}

/// Where the search resumes behind a failure: where a `*` node began, one
/// character further for any other node that gives back.
pub open spec fn resume_at(prev: PatternNode, prev_pos: nat) -> nat {
    if prev.modifier == Some(Modifier::ZeroOrMore) {
        prev_pos
    } else {
        prev_pos + 1
    }
}

/// One attempt of `kind` at the head of `rem`.
pub open spec fn kind_match(rem: Seq<char>, kind: Kind, table: Map<nat, Seq<char>>, depth: nat) -> Step
    decreases 2 * depth, kind, 0nat,
{
    match kind {
        Kind::InputStart => Step { outcome: Err(MatchError::MisplacedStart), table },
        Kind::InputEnd => Step {
            outcome: Ok(
                if rem.len() == 0 {
                    Some(0nat)
                } else {
                    None
                },
            ),
            table,
        },
        Kind::Any => Step {
            outcome: Ok(
                if rem.len() > 0 {
                    Some(1nat)
                } else {
                    None
                },
            ),
            table,
        },
        Kind::Literal(c) => Step {
            outcome: Ok(
                if rem.len() > 0 && rem[0] == c {
                    Some(1nat)
                } else {
                    None
                },
            ),
            table,
        },
        Kind::Digit => Step {
            outcome: Ok(
                if rem.len() > 0 && is_digit(rem[0]) {
                    Some(1nat)
                } else {
                    None
                },
            ),
            table,
        },
        Kind::AlphaNumeric => Step {
            outcome: Ok(
                if rem.len() > 0 && is_word(rem[0]) {
                    Some(1nat)
                } else {
                    None
                },
            ),
            table,
        },
        Kind::Alternatives(members) => any_member(rem, members, 0, table, depth),
        Kind::NotAlternatives(members) => {
            let s = any_member(rem, members, 0, table, depth);
            match s.outcome {
                Err(e) => s,
                Ok(Some(_)) => Step { outcome: Ok(None), table: s.table },
                Ok(None) => Step {
                    outcome: Ok(
                        if rem.len() > 0 {
                            Some(1nat)
                        } else {
                            None
                        },
                    ),
                    table: s.table,
                },
            }
        },
        Kind::AlternateGroups(id, alts) => first_alternative(rem, id, alts, 0, table, depth),
        Kind::BackRef(n) => {
            if n >= 1 && table.contains_key((n - 1) as nat) {
                if depth == 0 {
                    Step { outcome: Err(MatchError::TooDeep), table }
                } else {
                    let s = match_text(
                        rem,
                        table[(n - 1) as nat],
                        true,
                        table,
                        (depth - 1) as nat,
                    );
                    Step {
                        outcome: match s.outcome {
                            Err(e) => Err(e),
                            Ok(None) => Ok(None),
                            Ok(Some((start, end))) => Ok(
                                if start == 0 {
                                    Some(end)
                                } else {
                                    None
                                },
                            ),
                        },
                        table: s.table,
                    }
                }
            } else {
                Step { outcome: Ok(None), table }
            }
        },
    }
}

/// The first member from index `i` on that matches at the head of `rem`.
pub open spec fn any_member(
    rem: Seq<char>,
    members: Seq<PatternNode>,
    i: nat,
    table: Map<nat, Seq<char>>,
    depth: nat,
) -> Step
    decreases 2 * depth, members, members.len() - i,
{
    if i >= members.len() {
        Step { outcome: Ok(None), table }
    } else {
        let s = node_match(rem, members[i as int], table, depth);
        match s.outcome {
            Ok(None) => any_member(rem, members, i + 1, s.table, depth),
            _ => s,
        }
    }
}

/// The first alternative from index `j` on whose whole sequence matches at
/// the head of `rem`. Its text is captured under `id`, unless `id` has a
/// capture already.
pub open spec fn first_alternative(
    rem: Seq<char>,
    id: nat,
    alts: Seq<Seq<PatternNode>>,
    j: nat,
    table: Map<nat, Seq<char>>,
    depth: nat,
) -> Step
    decreases 2 * depth, alts, alts.len() - j,
{
    if j >= alts.len() {
        Step { outcome: Ok(None), table }
    } else {
        let s = sequence_match(rem, alts[j as int], 0, 0, table, depth);
        match s.outcome {
            Err(e) => s,
            Ok(None) => first_alternative(rem, id, alts, j + 1, s.table, depth),
            Ok(Some(k)) => Step {
                outcome: Ok(Some(k)),
                table: record_capture(s.table, id, rem.take(k as int)),
            },
        }
    }
}

/// A node with its modifier at the head of `rem`.
pub open spec fn node_match(rem: Seq<char>, node: PatternNode, table: Map<nat, Seq<char>>, depth: nat) -> Step
    decreases 2 * depth, node, 0nat,
{
    match node.modifier {
        None => kind_match(rem, node.kind, table, depth),
        Some(Modifier::ZeroOrOne) => {
            let s = kind_match(rem, node.kind, table, depth);
            match s.outcome {
                Ok(None) => Step { outcome: Ok(Some(0nat)), table: s.table },
                _ => s,
            }
        },
        Some(Modifier::ZeroOrMore) => repeat_match(rem, node.kind, 0, table, depth),
        Some(Modifier::OneOrMore) => {
            let s = repeat_match(rem, node.kind, 0, table, depth);
            match s.outcome {
                Ok(Some(k)) => if k == 0 {
                    Step { outcome: Ok(None), table: s.table }
                } else {
                    s
                },
                _ => s,
            }
        },
    }
}

/// Greedy repetition of `kind` behind the first `consumed` characters of
/// `rem`: the total consumed. It goes on while an attempt consumes
/// something and text is left.
pub open spec fn repeat_match(
    rem: Seq<char>,
    kind: Kind,
    consumed: nat,
    table: Map<nat, Seq<char>>,
    depth: nat,
) -> Step
    decreases 2 * depth, kind, rem.len() - consumed + 1,
    when consumed <= rem.len()
{
    let s = kind_match(rem.skip(consumed as int), kind, table, depth);
    match s.outcome {
        Err(e) => s,
        Ok(None) => Step { outcome: Ok(Some(consumed)), table: s.table },
        Ok(Some(k)) => if k == 0 || consumed + k >= rem.len() {
            Step { outcome: Ok(Some(consumed + k)), table: s.table }
        } else {
            repeat_match(rem, kind, consumed + k, s.table, depth)
        },
    }
}

/// The nodes from index `i` on, one behind the other, behind the first
/// `consumed` characters of `rem`: the total consumed. Nothing is retried.
pub open spec fn sequence_match(
    rem: Seq<char>,
    nodes: Seq<PatternNode>,
    i: nat,
    consumed: nat,
    table: Map<nat, Seq<char>>,
    depth: nat,
) -> Step
    decreases 2 * depth, nodes, nodes.len() - i,
{
    if i >= nodes.len() {
        Step { outcome: Ok(Some(consumed)), table }
    } else {
        let s = node_match(rem.skip(consumed as int), nodes[i as int], table, depth);
        match s.outcome {
            Ok(Some(k)) => sequence_match(rem, nodes, i + 1, consumed + k, s.table, depth),
            _ => s,
        }
    }
}

/// The first offset from `n` on, before the end of `rem`, at which `node`
/// matches: that offset and the number of characters consumed there.
pub open spec fn find_start(
    rem: Seq<char>,
    node: PatternNode,
    n: nat,
    table: Map<nat, Seq<char>>,
    depth: nat,
) -> Search
    decreases 2 * depth, node, rem.len() - n,
{
    if n >= rem.len() {
        Search { outcome: Ok(None), table }
    } else {
        let s = node_match(rem.skip(n as int), node, table, depth);
        match s.outcome {
            Err(e) => Search { outcome: Err(e), table: s.table },
            Ok(Some(k)) => Search { outcome: Ok(Some((n, k))), table: s.table },
            Ok(None) => find_start(rem, node, n + 1, s.table, depth),
        }
    }
}

/// The nodes from index `i` on against `input` from offset `pos` on: the
/// offset behind the last of them. `first` is the index at which the walk
/// began and `prev_pos` the offset at which node `i - 1` matched.
///
/// Where a node fails and the node before it gives back, the failing node is
/// looked for again from the place that `resume_at` names, and the walk goes
/// on from where it is found. Only the node directly before is asked.
pub open spec fn walk(
    input: Seq<char>,
    nodes: Seq<PatternNode>,
    i: nat,
    first: nat,
    pos: nat,
    prev_pos: nat,
    table: Map<nat, Seq<char>>,
    depth: nat,
) -> Step
    decreases 2 * depth, nodes, nodes.len() - i,
{
    if i >= nodes.len() {
        Step { outcome: Ok(Some(pos)), table }
    } else {
        let s = node_match(input.skip(pos as int), nodes[i as int], table, depth);
        match s.outcome {
            Err(e) => s,
            Ok(Some(k)) => walk(input, nodes, i + 1, first, pos + k, pos, s.table, depth),
            Ok(None) => {
                if i > first && gives_back(nodes[i - 1]) && resume_at(nodes[i - 1], prev_pos)
                    <= input.len() {
                    let from = resume_at(nodes[i - 1], prev_pos);
                    let f = find_start(input.skip(from as int), nodes[i as int], 0, s.table, depth);
                    match f.outcome {
                        Err(e) => Step { outcome: Err(e), table: f.table },
                        Ok(None) => Step { outcome: Ok(None), table: f.table },
                        Ok(Some((n, _))) => {
                            let again = node_match(
                                input.skip((from + n) as int),
                                nodes[i as int],
                                f.table,
                                depth,
                            );
                            match again.outcome {
                                Ok(Some(k)) => walk(
                                    input,
                                    nodes,
                                    i + 1,
                                    first,
                                    from + n + k,
                                    from + n,
                                    again.table,
                                    depth,
                                ),
                                _ => again,
                            }
                        },
                    }
                } else {
                    Step { outcome: Ok(None), table: s.table }
                }
            },
        }
    }
}

/// The span of `input` that the compiled `nodes` match.
///
/// No nodes match the empty span at 0. With `force_from_start`, or behind a
/// `^` at the head, which is dropped, the nodes are walked from offset 0.
/// Otherwise the first node is looked for from offset 0 on and the others
/// are walked from behind it.
pub open spec fn match_nodes(
    input: Seq<char>,
    nodes: Seq<PatternNode>,
    force_from_start: bool,
    table: Map<nat, Seq<char>>,
    depth: nat,
) -> Search
    decreases 2 * depth, nodes, nodes.len() + 1,
{
    if nodes.len() == 0 {
        Search { outcome: Ok(Some((0nat, 0nat))), table }
    } else if force_from_start || nodes[0].kind is InputStart {
        let first: nat = if force_from_start {
            0
        } else {
            1
        };
        let s = walk(input, nodes, first, first, 0, 0, table, depth);
        Search {
            outcome: match s.outcome {
                Err(e) => Err(e),
                Ok(None) => Ok(None),
                Ok(Some(end)) => Ok(Some((0nat, end))),
            },
            table: s.table,
        }
    } else {
        let f = find_start(input, nodes[0], 0, table, depth);
        match f.outcome {
            Err(e) => f,
            Ok(None) => f,
            Ok(Some((start, k))) => {
                let s = walk(input, nodes, 1, 1, start + k, start + k, f.table, depth);
                Search {
                    outcome: match s.outcome {
                        Err(e) => Err(e),
                        Ok(None) => Ok(None),
                        Ok(Some(end)) => Ok(Some((start, end))),
                    },
                    table: s.table,
                }
            },
        }
    }
}

/// The span of `input` that the pattern text `pattern` matches, with the
/// captures in `table` and `depth` further levels of backreference
/// resolution allowed.
pub open spec fn match_text(
    input: Seq<char>,
    pattern: Seq<char>,
    force_from_start: bool,
    table: Map<nat, Seq<char>>,
    depth: nat,
) -> Search
    decreases 2 * depth + 1, Seq::<PatternNode>::empty(), 0nat,
{
    match compile(pattern) {
        Err(e) => Search { outcome: Err(MatchError::Compile(e)), table },
        Ok(nodes) => match_nodes(input, nodes, force_from_start, table, depth),
    }
}

} // verus!
