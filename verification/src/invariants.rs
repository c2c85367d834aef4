//! What holds of every matching step: it consumes no more than there is,
//! it keeps every capture made before it, and a larger nesting allowance
//! changes no answer that a smaller one gave.

use crate::captures::record_capture;
use crate::pattern::{Kind, Modifier, PatternNode};
use crate::semantics::{
    any_member, find_start, first_alternative, gives_back, kind_match, match_nodes, match_text,
    node_match, repeat_match, resume_at, sequence_match, walk, MatchError, Search, Step,
};
use crate::syntax::compile;
use vstd::prelude::*;

verus! {

/// Every capture of `before` stands unchanged in `after`.
pub open spec fn extends(before: Map<nat, Seq<char>>, after: Map<nat, Seq<char>>) -> bool {
    forall|id: nat| #[trigger]
        before.contains_key(id) ==> after.contains_key(id) && after[id] == before[id]
}

/// The step kept the captures of `table` and consumed at most `len`
/// characters.
pub open spec fn step_within(len: nat, table: Map<nat, Seq<char>>, s: Step) -> bool {
    &&& extends(table, s.table)
    &&& s.outcome matches Ok(Some(k)) ==> k <= len
}

/// The search kept the captures of `table` and reports a span inside a text
/// of `len` characters.
pub open spec fn search_within(len: nat, table: Map<nat, Seq<char>>, s: Search) -> bool {
    &&& extends(table, s.table)
    &&& s.outcome matches Ok(Some((start, end))) ==> start <= end <= len
}

/// An attempt of a kind consumes no more than remains and keeps the
/// captures.
pub proof fn lemma_kind_match_within(
    rem: Seq<char>,
    kind: Kind,
    table: Map<nat, Seq<char>>,
    depth: nat,
)
    ensures
        step_within(rem.len(), table, kind_match(rem, kind, table, depth)),
    decreases 2 * depth, kind, 0nat,
{
    match kind {
        Kind::Alternatives(members) => {
            lemma_any_member_within(rem, members, 0, table, depth);
        },
        Kind::NotAlternatives(members) => {
            lemma_any_member_within(rem, members, 0, table, depth);
        },
        Kind::AlternateGroups(id, alts) => {
            lemma_first_alternative_within(rem, id, alts, 0, table, depth);
        },
        Kind::BackRef(n) => {
            if n >= 1 && table.contains_key((n - 1) as nat) && depth > 0 {
                lemma_match_text_within(
                    rem,
                    table[(n - 1) as nat],
                    true,
                    table,
                    (depth - 1) as nat,
                );
            }
        },
        _ => {},
    }
}

/// The members of a class, tried in order, consume no more than remains and
/// keep the captures.
pub proof fn lemma_any_member_within(
    rem: Seq<char>,
    members: Seq<PatternNode>,
    i: nat,
    table: Map<nat, Seq<char>>,
    depth: nat,
)
    ensures
        step_within(rem.len(), table, any_member(rem, members, i, table, depth)),
    decreases 2 * depth, members, members.len() - i,
{
    if i < members.len() {
        lemma_node_match_within(rem, members[i as int], table, depth);
        let s = node_match(rem, members[i as int], table, depth);
        if s.outcome == Ok::<Option<nat>, MatchError>(None) {
            lemma_any_member_within(rem, members, i + 1, s.table, depth);
        }
    }
}

/// The alternatives of a group, tried in order, consume no more than
/// remains and keep the captures: a group adds a capture and changes none.
pub proof fn lemma_first_alternative_within(
    rem: Seq<char>,
    id: nat,
    alts: Seq<Seq<PatternNode>>,
    j: nat,
    table: Map<nat, Seq<char>>,
    depth: nat,
)
    ensures
        step_within(rem.len(), table, first_alternative(rem, id, alts, j, table, depth)),
    decreases 2 * depth, alts, alts.len() - j,
{
    if j < alts.len() {
        lemma_sequence_match_within(rem, alts[j as int], 0, 0, table, depth);
        let s = sequence_match(rem, alts[j as int], 0, 0, table, depth);
        match s.outcome {
            Ok(None) => {
                lemma_first_alternative_within(rem, id, alts, j + 1, s.table, depth);
            },
            Ok(Some(k)) => {
                assert(extends(s.table, record_capture(s.table, id, rem.take(k as int))));
            },
            Err(_) => {},
        }
    }
}

/// A node with its modifier consumes no more than remains and keeps the
/// captures.
pub proof fn lemma_node_match_within(
    rem: Seq<char>,
    node: PatternNode,
    table: Map<nat, Seq<char>>,
    depth: nat,
)
    ensures
        step_within(rem.len(), table, node_match(rem, node, table, depth)),
    decreases 2 * depth, node, 0nat,
{
    match node.modifier {
        None => {
            lemma_kind_match_within(rem, node.kind, table, depth);
        },
        Some(Modifier::ZeroOrOne) => {
            lemma_kind_match_within(rem, node.kind, table, depth);
        },
        Some(Modifier::ZeroOrMore) => {
            lemma_repeat_match_within(rem, node.kind, 0, table, depth);
        },
        Some(Modifier::OneOrMore) => {
            lemma_repeat_match_within(rem, node.kind, 0, table, depth);
        },
    }
}

/// A repetition never fails: it reports a total between what was consumed
/// before it and the length of the text, or an error. It keeps the captures.
pub proof fn lemma_repeat_match_within(
    rem: Seq<char>,
    kind: Kind,
    consumed: nat,
    table: Map<nat, Seq<char>>,
    depth: nat,
)
    requires
        consumed <= rem.len(),
    ensures
        extends(table, repeat_match(rem, kind, consumed, table, depth).table),
        repeat_match(rem, kind, consumed, table, depth).outcome != Ok::<Option<nat>, MatchError>(
            None,
        ),
        repeat_match(rem, kind, consumed, table, depth).outcome matches Ok(Some(total))
            ==> consumed <= total <= rem.len(),
    decreases 2 * depth, kind, rem.len() - consumed + 1,
{
    let rest = rem.skip(consumed as int);
    lemma_kind_match_within(rest, kind, table, depth);
    let s = kind_match(rest, kind, table, depth);
    match s.outcome {
        Ok(Some(k)) => {
            if !(k == 0 || consumed + k >= rem.len()) {
                lemma_repeat_match_within(rem, kind, consumed + k, s.table, depth);
            }
        },
        _ => {},
    }
}

/// A sequence of nodes consumes no more than the text holds and keeps the
/// captures.
pub proof fn lemma_sequence_match_within(
    rem: Seq<char>,
    nodes: Seq<PatternNode>,
    i: nat,
    consumed: nat,
    table: Map<nat, Seq<char>>,
    depth: nat,
)
    requires
        consumed <= rem.len(),
    ensures
        step_within(rem.len(), table, sequence_match(rem, nodes, i, consumed, table, depth)),
    decreases 2 * depth, nodes, nodes.len() - i,
{
    if i < nodes.len() {
        let rest = rem.skip(consumed as int);
        lemma_node_match_within(rest, nodes[i as int], table, depth);
        let s = node_match(rest, nodes[i as int], table, depth);
        match s.outcome {
            Ok(Some(k)) => {
                lemma_sequence_match_within(rem, nodes, i + 1, consumed + k, s.table, depth);
            },
            _ => {},
        }
    }
}

/// A node is found at an offset not before the one asked for, and its match
/// ends inside the text. The search keeps the captures.
pub proof fn lemma_find_start_within(
    rem: Seq<char>,
    node: PatternNode,
    n: nat,
    table: Map<nat, Seq<char>>,
    depth: nat,
)
    ensures
        extends(table, find_start(rem, node, n, table, depth).table),
        find_start(rem, node, n, table, depth).outcome matches Ok(Some((at, k))) ==> n <= at
            && at + k <= rem.len(),
    decreases 2 * depth, node, rem.len() - n,
{
    if n < rem.len() {
        let rest = rem.skip(n as int);
        lemma_node_match_within(rest, node, table, depth);
        let s = node_match(rest, node, table, depth);
        if s.outcome == Ok::<Option<nat>, MatchError>(None) {
            lemma_find_start_within(rem, node, n + 1, s.table, depth);
        }
    }
}

/// A walk ends inside the input, not before the place where the node before
/// it matched, and keeps the captures.
pub proof fn lemma_walk_within(
    input: Seq<char>,
    nodes: Seq<PatternNode>,
    i: nat,
    first: nat,
    pos: nat,
    prev_pos: nat,
    table: Map<nat, Seq<char>>,
    depth: nat,
)
    requires
        prev_pos <= pos <= input.len(),
    ensures
        extends(table, walk(input, nodes, i, first, pos, prev_pos, table, depth).table),
        walk(input, nodes, i, first, pos, prev_pos, table, depth).outcome matches Ok(Some(end))
            ==> prev_pos <= end <= input.len(),
    decreases 2 * depth, nodes, nodes.len() - i,
{
    if i < nodes.len() {
        let rest = input.skip(pos as int);
        lemma_node_match_within(rest, nodes[i as int], table, depth);
        let s = node_match(rest, nodes[i as int], table, depth);
        match s.outcome {
            Err(_) => {},
            Ok(Some(k)) => {
                lemma_walk_within(input, nodes, i + 1, first, pos + k, pos, s.table, depth);
            },
            Ok(None) => {
                if i > first && gives_back(nodes[i - 1]) && resume_at(nodes[i - 1], prev_pos)
                    <= input.len() {
                    let from = resume_at(nodes[i - 1], prev_pos);
                    let tail = input.skip(from as int);
                    lemma_find_start_within(tail, nodes[i as int], 0, s.table, depth);
                    let f = find_start(tail, nodes[i as int], 0, s.table, depth);
                    match f.outcome {
                        Ok(Some((n, _))) => {
                            let at = from + n;
                            lemma_node_match_within(
                                input.skip(at as int),
                                nodes[i as int],
                                f.table,
                                depth,
                            );
                            let again = node_match(
                                input.skip(at as int),
                                nodes[i as int],
                                f.table,
                                depth,
                            );
                            match again.outcome {
                                Ok(Some(k)) => {
                                    lemma_walk_within(
                                        input,
                                        nodes,
                                        i + 1,
                                        first,
                                        at + k,
                                        at,
                                        again.table,
                                        depth,
                                    );
                                },
                                _ => {},
                            }
                        },
                        _ => {},
                    }
                }
            },
        }
    }
}

/// The span that compiled nodes match lies inside the input, and begins at
/// offset 0 where the start is forced. Matching keeps the captures.
pub proof fn lemma_match_nodes_within(
    input: Seq<char>,
    nodes: Seq<PatternNode>,
    force_from_start: bool,
    table: Map<nat, Seq<char>>,
    depth: nat,
)
    ensures
        search_within(
            input.len(),
            table,
            match_nodes(input, nodes, force_from_start, table, depth),
        ),
        force_from_start ==> (match_nodes(
            input,
            nodes,
            force_from_start,
            table,
            depth,
        ).outcome matches Ok(Some((start, _))) ==> start == 0),
    decreases 2 * depth, nodes, nodes.len() + 1,
{
    if nodes.len() > 0 {
        if force_from_start {
            lemma_walk_within(input, nodes, 0, 0, 0, 0, table, depth);
        } else if nodes[0].kind is InputStart {
            lemma_walk_within(input, nodes, 1, 1, 0, 0, table, depth);
        } else {
            lemma_find_start_within(input, nodes[0], 0, table, depth);
            let f = find_start(input, nodes[0], 0, table, depth);
            match f.outcome {
                Ok(Some((start, k))) => {
                    lemma_walk_within(
                        input,
                        nodes,
                        1,
                        1,
                        start + k,
                        start + k,
                        f.table,
                        depth,
                    );
                },
                _ => {},
            }
        }
    }
}

/// The span that a pattern matches lies inside the input, and begins at
/// offset 0 where the start is forced. Matching keeps every capture that it
/// was handed: the first capture of a group stays.
pub proof fn lemma_match_text_within(
    input: Seq<char>,
    pattern: Seq<char>,
    force_from_start: bool,
    table: Map<nat, Seq<char>>,
    depth: nat,
)
    ensures
        search_within(
            input.len(),
            table,
            match_text(input, pattern, force_from_start, table, depth),
        ),
        force_from_start ==> (match_text(
            input,
            pattern,
            force_from_start,
            table,
            depth,
        ).outcome matches Ok(Some((start, _))) ==> start == 0),
    decreases 2 * depth + 1, Seq::<PatternNode>::empty(), 0nat,
{
    match compile(pattern) {
        Ok(nodes) => {
            lemma_match_nodes_within(input, nodes, force_from_start, table, depth);
        },
        Err(_) => {},
    }
}

/// A node under `+` that matches has consumed at least one character.
pub proof fn lemma_one_or_more_consumes(
    rem: Seq<char>,
    node: PatternNode,
    table: Map<nat, Seq<char>>,
    depth: nat,
)
    requires
        node.modifier == Some(Modifier::OneOrMore),
    ensures
        node_match(rem, node, table, depth).outcome matches Ok(Some(k)) ==> k >= 1,
{
}

/// A node under `?` or `*` never fails to match: it consumes something,
/// or nothing, or ends in an error.
pub proof fn lemma_optional_node_never_fails(
    rem: Seq<char>,
    node: PatternNode,
    table: Map<nat, Seq<char>>,
    depth: nat,
)
    requires
        node.modifier == Some(Modifier::ZeroOrOne) || node.modifier == Some(Modifier::ZeroOrMore),
    ensures
        node_match(rem, node, table, depth).outcome != Ok::<Option<nat>, MatchError>(None),
{
    if node.modifier == Some(Modifier::ZeroOrMore) {
        lemma_repeat_match_within(rem, node.kind, 0, table, depth);
    }
}

/// The step did not end because the nesting allowance ran out.
pub open spec fn not_cut_off<T>(outcome: Result<T, MatchError>) -> bool {
    outcome != Err::<T, MatchError>(MatchError::TooDeep)
}

/// An attempt of a kind that the allowance did not cut off comes out the
/// same with one more level allowed.
pub proof fn lemma_kind_match_deeper(
    rem: Seq<char>,
    kind: Kind,
    table: Map<nat, Seq<char>>,
    depth: nat,
)
    ensures
        not_cut_off(kind_match(rem, kind, table, depth).outcome) ==> kind_match(
            rem,
            kind,
            table,
            depth + 1,
        ) == kind_match(rem, kind, table, depth),
    decreases 2 * depth, kind, 0nat,
{
    match kind {
        Kind::Alternatives(members) => {
            lemma_any_member_deeper(rem, members, 0, table, depth);
        },
        Kind::NotAlternatives(members) => {
            lemma_any_member_deeper(rem, members, 0, table, depth);
        },
        Kind::AlternateGroups(id, alts) => {
            lemma_first_alternative_deeper(rem, id, alts, 0, table, depth);
        },
        Kind::BackRef(n) => {
            if n >= 1 && table.contains_key((n - 1) as nat) && depth > 0 {
                lemma_match_text_deeper(
                    rem,
                    table[(n - 1) as nat],
                    true,
                    table,
                    (depth - 1) as nat,
                );
            }
        },
        _ => {},
    }
}

/// The members of a class, where the allowance did not cut them off, come
/// out the same with one more level allowed.
pub proof fn lemma_any_member_deeper(
    rem: Seq<char>,
    members: Seq<PatternNode>,
    i: nat,
    table: Map<nat, Seq<char>>,
    depth: nat,
)
    ensures
        not_cut_off(any_member(rem, members, i, table, depth).outcome) ==> any_member(
            rem,
            members,
            i,
            table,
            depth + 1,
        ) == any_member(rem, members, i, table, depth),
    decreases 2 * depth, members, members.len() - i,
{
    if i < members.len() {
        lemma_node_match_deeper(rem, members[i as int], table, depth);
        let s = node_match(rem, members[i as int], table, depth);
        if s.outcome == Ok::<Option<nat>, MatchError>(None) {
            lemma_any_member_deeper(rem, members, i + 1, s.table, depth);
        }
    }
}

/// The alternatives of a group, where the allowance did not cut them off,
/// come out the same with one more level allowed.
pub proof fn lemma_first_alternative_deeper(
    rem: Seq<char>,
    id: nat,
    alts: Seq<Seq<PatternNode>>,
    j: nat,
    table: Map<nat, Seq<char>>,
    depth: nat,
)
    ensures
        not_cut_off(first_alternative(rem, id, alts, j, table, depth).outcome)
            ==> first_alternative(rem, id, alts, j, table, depth + 1) == first_alternative(
            rem,
            id,
            alts,
            j,
            table,
            depth,
        ),
    decreases 2 * depth, alts, alts.len() - j,
{
    if j < alts.len() {
        lemma_sequence_match_deeper(rem, alts[j as int], 0, 0, table, depth);
        let s = sequence_match(rem, alts[j as int], 0, 0, table, depth);
        if s.outcome == Ok::<Option<nat>, MatchError>(None) {
            lemma_first_alternative_deeper(rem, id, alts, j + 1, s.table, depth);
        }
    }
}

/// A node that the allowance did not cut off comes out the same with one
/// more level allowed.
pub proof fn lemma_node_match_deeper(
    rem: Seq<char>,
    node: PatternNode,
    table: Map<nat, Seq<char>>,
    depth: nat,
)
    ensures
        not_cut_off(node_match(rem, node, table, depth).outcome) ==> node_match(
            rem,
            node,
            table,
            depth + 1,
        ) == node_match(rem, node, table, depth),
    decreases 2 * depth, node, 0nat,
{
    match node.modifier {
        None => {
            lemma_kind_match_deeper(rem, node.kind, table, depth);
        },
        Some(Modifier::ZeroOrOne) => {
            lemma_kind_match_deeper(rem, node.kind, table, depth);
        },
        Some(Modifier::ZeroOrMore) => {
            lemma_repeat_match_deeper(rem, node.kind, 0, table, depth);
        },
        Some(Modifier::OneOrMore) => {
            lemma_repeat_match_deeper(rem, node.kind, 0, table, depth);
        },
    }
}

/// A repetition that the allowance did not cut off comes out the same with
/// one more level allowed.
pub proof fn lemma_repeat_match_deeper(
    rem: Seq<char>,
    kind: Kind,
    consumed: nat,
    table: Map<nat, Seq<char>>,
    depth: nat,
)
    requires
        consumed <= rem.len(),
    ensures
        not_cut_off(repeat_match(rem, kind, consumed, table, depth).outcome) ==> repeat_match(
            rem,
            kind,
            consumed,
            table,
            depth + 1,
        ) == repeat_match(rem, kind, consumed, table, depth),
    decreases 2 * depth, kind, rem.len() - consumed + 1,
{
    let rest = rem.skip(consumed as int);
    lemma_kind_match_deeper(rest, kind, table, depth);
    let s = kind_match(rest, kind, table, depth);
    match s.outcome {
        Ok(Some(k)) => {
            if !(k == 0 || consumed + k >= rem.len()) {
                lemma_repeat_match_deeper(rem, kind, consumed + k, s.table, depth);
            }
        },
        _ => {},
    }
}

/// A sequence that the allowance did not cut off comes out the same with
/// one more level allowed.
pub proof fn lemma_sequence_match_deeper(
    rem: Seq<char>,
    nodes: Seq<PatternNode>,
    i: nat,
    consumed: nat,
    table: Map<nat, Seq<char>>,
    depth: nat,
)
    ensures
        not_cut_off(sequence_match(rem, nodes, i, consumed, table, depth).outcome)
            ==> sequence_match(rem, nodes, i, consumed, table, depth + 1) == sequence_match(
            rem,
            nodes,
            i,
            consumed,
            table,
            depth,
        ),
    decreases 2 * depth, nodes, nodes.len() - i,
{
    if i < nodes.len() {
        let rest = rem.skip(consumed as int);
        lemma_node_match_deeper(rest, nodes[i as int], table, depth);
        let s = node_match(rest, nodes[i as int], table, depth);
        match s.outcome {
            Ok(Some(k)) => {
                lemma_sequence_match_deeper(rem, nodes, i + 1, consumed + k, s.table, depth);
            },
            _ => {},
        }
    }
}

/// A search for a node that the allowance did not cut off comes out the
/// same with one more level allowed.
pub proof fn lemma_find_start_deeper(
    rem: Seq<char>,
    node: PatternNode,
    n: nat,
    table: Map<nat, Seq<char>>,
    depth: nat,
)
    ensures
        not_cut_off(find_start(rem, node, n, table, depth).outcome) ==> find_start(
            rem,
            node,
            n,
            table,
            depth + 1,
        ) == find_start(rem, node, n, table, depth),
    decreases 2 * depth, node, rem.len() - n,
{
    if n < rem.len() {
        let rest = rem.skip(n as int);
        lemma_node_match_deeper(rest, node, table, depth);
        let s = node_match(rest, node, table, depth);
        if s.outcome == Ok::<Option<nat>, MatchError>(None) {
            lemma_find_start_deeper(rem, node, n + 1, s.table, depth);
        }
    }
}

/// A walk that the allowance did not cut off comes out the same with one
/// more level allowed.
pub proof fn lemma_walk_deeper(
    input: Seq<char>,
    nodes: Seq<PatternNode>,
    i: nat,
    first: nat,
    pos: nat,
    prev_pos: nat,
    table: Map<nat, Seq<char>>,
    depth: nat,
)
    ensures
        not_cut_off(walk(input, nodes, i, first, pos, prev_pos, table, depth).outcome) ==> walk(
            input,
            nodes,
            i,
            first,
            pos,
            prev_pos,
            table,
            depth + 1,
        ) == walk(input, nodes, i, first, pos, prev_pos, table, depth),
    decreases 2 * depth, nodes, nodes.len() - i,
{
    if i < nodes.len() {
        let rest = input.skip(pos as int);
        lemma_node_match_deeper(rest, nodes[i as int], table, depth);
        let s = node_match(rest, nodes[i as int], table, depth);
        match s.outcome {
            Err(_) => {},
            Ok(Some(k)) => {
                lemma_walk_deeper(input, nodes, i + 1, first, pos + k, pos, s.table, depth);
            },
            Ok(None) => {
                if i > first && gives_back(nodes[i - 1]) && resume_at(nodes[i - 1], prev_pos)
                    <= input.len() {
                    let from = resume_at(nodes[i - 1], prev_pos);
                    let tail = input.skip(from as int);
                    lemma_find_start_deeper(tail, nodes[i as int], 0, s.table, depth);
                    let f = find_start(tail, nodes[i as int], 0, s.table, depth);
                    match f.outcome {
                        Ok(Some((n, _))) => {
                            let at = from + n;
                            lemma_node_match_deeper(
                                input.skip(at as int),
                                nodes[i as int],
                                f.table,
                                depth,
                            );
                            let again = node_match(
                                input.skip(at as int),
                                nodes[i as int],
                                f.table,
                                depth,
                            );
                            match again.outcome {
                                Ok(Some(k)) => {
                                    lemma_walk_deeper(
                                        input,
                                        nodes,
                                        i + 1,
                                        first,
                                        at + k,
                                        at,
                                        again.table,
                                        depth,
                                    );
                                },
                                _ => {},
                            }
                        },
                        _ => {},
                    }
                }
            },
        }
    }
}

/// Compiled nodes whose match the allowance did not cut off match the same
/// with one more level allowed.
pub proof fn lemma_match_nodes_deeper(
    input: Seq<char>,
    nodes: Seq<PatternNode>,
    force_from_start: bool,
    table: Map<nat, Seq<char>>,
    depth: nat,
)
    ensures
        not_cut_off(match_nodes(input, nodes, force_from_start, table, depth).outcome)
            ==> match_nodes(input, nodes, force_from_start, table, depth + 1) == match_nodes(
            input,
            nodes,
            force_from_start,
            table,
            depth,
        ),
    decreases 2 * depth, nodes, nodes.len() + 1,
{
    if nodes.len() > 0 {
        if force_from_start {
            lemma_walk_deeper(input, nodes, 0, 0, 0, 0, table, depth);
        } else if nodes[0].kind is InputStart {
            lemma_walk_deeper(input, nodes, 1, 1, 0, 0, table, depth);
        } else {
            lemma_find_start_deeper(input, nodes[0], 0, table, depth);
            let f = find_start(input, nodes[0], 0, table, depth);
            match f.outcome {
                Ok(Some((start, k))) => {
                    lemma_walk_deeper(
                        input,
                        nodes,
                        1,
                        1,
                        start + k,
                        start + k,
                        f.table,
                        depth,
                    );
                },
                _ => {},
            }
        }
    }
}

/// A pattern whose match the allowance did not cut off matches the same
/// with one more level allowed.
pub proof fn lemma_match_text_deeper(
    input: Seq<char>,
    pattern: Seq<char>,
    force_from_start: bool,
    table: Map<nat, Seq<char>>,
    depth: nat,
)
    ensures
        not_cut_off(match_text(input, pattern, force_from_start, table, depth).outcome)
            ==> match_text(input, pattern, force_from_start, table, depth + 1) == match_text(
            input,
            pattern,
            force_from_start,
            table,
            depth,
        ),
    decreases 2 * depth + 1, Seq::<PatternNode>::empty(), 0nat,
{
    match compile(pattern) {
        Ok(nodes) => {
            lemma_match_nodes_deeper(input, nodes, force_from_start, table, depth);
        },
        Err(_) => {},
    }
}

/// The nesting allowance only cuts off: where a match attempt does not end
/// with `MatchError::TooDeep`, every larger allowance gives the same span,
/// the same failure or the same error, and the same captures.
pub proof fn lemma_allowance_only_cuts_off(
    input: Seq<char>,
    pattern: Seq<char>,
    force_from_start: bool,
    table: Map<nat, Seq<char>>,
    depth: nat,
    more: nat,
)
    requires
        depth <= more,
        not_cut_off(match_text(input, pattern, force_from_start, table, depth).outcome),
    ensures
        match_text(input, pattern, force_from_start, table, more) == match_text(
            input,
            pattern,
            force_from_start,
            table,
            depth,
        ),
    decreases more - depth,
{
    if depth < more {
        lemma_allowance_only_cuts_off(
            input,
            pattern,
            force_from_start,
            table,
            depth,
            (more - 1) as nat,
        );
        lemma_match_text_deeper(input, pattern, force_from_start, table, (more - 1) as nat);
    }
}

} // verus!
