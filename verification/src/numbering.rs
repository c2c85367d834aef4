//! How the compiler numbers groups: from 0, one by one, in the order in
//! which the groups open.

use crate::pattern::{Kind, PatternNode};
use crate::syntax::{
    alt_end, atom_end, class_close, compile, lemma_alt_end_bounds, lemma_atom_end_bounds,
    lemma_class_close_bounds, modifier_at, parse_alts, parse_atom, parse_nodes,
};
use vstd::prelude::*;

verus! {

/// The ids of the groups in the nodes from index `i` on, each group before
/// the groups inside it and before the groups behind it.
pub open spec fn ids_in_nodes(nodes: Seq<PatternNode>, i: nat) -> Seq<nat>
    decreases nodes, nodes.len() - i,
{
    if i >= nodes.len() {
        Seq::empty()
    } else {
        ids_in_kind(nodes[i as int].kind) + ids_in_nodes(nodes, i + 1)
    }
}

/// The ids of the groups in a kind, in the order in which they open.
pub open spec fn ids_in_kind(kind: Kind) -> Seq<nat>
    decreases kind, 0nat,
{
    match kind {
        Kind::Alternatives(members) => ids_in_nodes(members, 0),
        Kind::NotAlternatives(members) => ids_in_nodes(members, 0),
        Kind::AlternateGroups(id, alts) => seq![id] + ids_in_alts(alts, 0),
        _ => Seq::empty(),
    }
}

/// The ids of the groups in the alternatives from index `j` on.
pub open spec fn ids_in_alts(alts: Seq<Seq<PatternNode>>, j: nat) -> Seq<nat>
    decreases alts, alts.len() - j,
{
    if j >= alts.len() {
        Seq::empty()
    } else {
        ids_in_nodes(alts[j as int], 0) + ids_in_alts(alts, j + 1)
    }
}

/// The ids of all groups of a compiled pattern, in the order in which the
/// groups open.
pub open spec fn group_ids(nodes: Seq<PatternNode>) -> Seq<nat> {
    ids_in_nodes(nodes, 0)
}

/// The numbers from `from` up to, not including, `to`.
pub open spec fn counting(from: nat, to: nat) -> Seq<nat> {
    Seq::new((to - from) as nat, |k: int| (from + k) as nat)
}

proof fn lemma_ids_push(nodes: Seq<PatternNode>, node: PatternNode, i: nat)
    requires
        i <= nodes.len(),
    ensures
        ids_in_nodes(nodes.push(node), i) == ids_in_nodes(nodes, i) + ids_in_kind(node.kind),
    decreases nodes.len() - i,
{
    let longer = nodes.push(node);
    if i < nodes.len() {
        lemma_ids_push(nodes, node, i + 1);
        assert(longer[i as int] == nodes[i as int]);
        assert(ids_in_nodes(longer, i) =~= ids_in_nodes(nodes, i) + ids_in_kind(node.kind));
    } else {
        assert(longer[i as int] == node);
        assert(ids_in_nodes(longer, i + 1) =~= Seq::<nat>::empty());
        assert(ids_in_nodes(longer, i) =~= ids_in_nodes(nodes, i) + ids_in_kind(node.kind));
    }
}

proof fn lemma_ids_alts_push(alts: Seq<Seq<PatternNode>>, nodes: Seq<PatternNode>, j: nat)
    requires
        j <= alts.len(),
    ensures
        ids_in_alts(alts.push(nodes), j) == ids_in_alts(alts, j) + ids_in_nodes(nodes, 0),
    decreases alts.len() - j,
{
    let longer = alts.push(nodes);
    if j < alts.len() {
        lemma_ids_alts_push(alts, nodes, j + 1);
        assert(longer[j as int] == alts[j as int]);
        assert(ids_in_alts(longer, j) =~= ids_in_alts(alts, j) + ids_in_nodes(nodes, 0));
    } else {
        assert(longer[j as int] == nodes);
        assert(ids_in_alts(longer, j + 1) =~= Seq::<nat>::empty());
        assert(ids_in_alts(longer, j) =~= ids_in_alts(alts, j) + ids_in_nodes(nodes, 0));
    }
}

proof fn lemma_counting_joins(a: nat, b: nat, c: nat)
    requires
        a <= b <= c,
    ensures
        counting(a, b) + counting(b, c) =~= counting(a, c),
        seq![a] + counting(a + 1, b + 1) =~= counting(a, b + 1),
        counting(a, a) =~= Seq::<nat>::empty(),
{
}

/// The nodes read from position `i` on hold the ids from `id` up to the
/// next unused one, in order, behind the ids of the nodes read before.
pub proof fn lemma_parse_nodes_ids(p: Seq<char>, i: int, id: nat, acc: Seq<PatternNode>)
    requires
        0 <= i <= p.len(),
    ensures
        parse_nodes(p, i, id, acc) matches Ok((nodes, next_id)) ==> id <= next_id && group_ids(
            nodes,
        ) == group_ids(acc) + counting(id, next_id),
    decreases p.len(), p.len() - i, 1int,
{
    if i >= p.len() {
        lemma_counting_joins(id, id, id);
        assert(group_ids(acc) + counting(id, id) =~= group_ids(acc));
    } else if crate::chars::is_quantifier(p[i]) {
        lemma_parse_nodes_ids(p, i + 1, id, acc);
    } else {
        lemma_parse_atom_ids(p, i, id);
        match parse_atom(p, i, id) {
            Err(_) => {},
            Ok((kind, mid)) => {
                lemma_atom_end_bounds(p, i);
                let next = atom_end(p, i);
                let node = PatternNode { kind, modifier: modifier_at(p, next) };
                lemma_ids_push(acc, node, 0);
                lemma_parse_nodes_ids(p, next, mid, acc.push(node));
                match parse_nodes(p, next, mid, acc.push(node)) {
                    Err(_) => {},
                    Ok((nodes, next_id)) => {
                        lemma_counting_joins(id, mid, next_id);
                        assert(group_ids(nodes) =~= group_ids(acc) + counting(id, next_id));
                    },
                }
            },
        }
    }
}

/// The token at position `i` holds the ids from `id` up to the next unused
/// one, in order.
pub proof fn lemma_parse_atom_ids(p: Seq<char>, i: int, id: nat)
    requires
        0 <= i < p.len(),
    ensures
        parse_atom(p, i, id) matches Ok((kind, next_id)) ==> id <= next_id && ids_in_kind(kind)
            == counting(id, next_id),
    decreases p.len(), p.len() - i, 0int,
{
    lemma_counting_joins(id, id, id);
    if p[i] == '.' || p[i] == '^' || p[i] == '$' {
    } else if p[i] == '(' {
        lemma_parse_alts_ids(p, i + 1, id + 1, Seq::empty());
        match parse_alts(p, i + 1, id + 1, Seq::empty()) {
            Err(_) => {},
            Ok((alts, next_id)) => {
                lemma_counting_joins(id, (next_id - 1) as nat, (next_id - 1) as nat);
                assert(ids_in_alts(Seq::<Seq<PatternNode>>::empty(), 0) =~= Seq::<nat>::empty());
                assert(ids_in_kind(Kind::AlternateGroups(id, alts)) =~= counting(id, next_id));
            },
        }
    } else if p[i] == '[' {
        if i + 1 < p.len() {
            let from = if p[i + 1] == '^' {
                i + 2
            } else {
                i + 1
            };
            lemma_class_close_bounds(p, i + 2);
            let body = p.subrange(from, class_close(p, i + 2));
            lemma_parse_nodes_ids(body, 0, id, Seq::empty());
            match parse_nodes(body, 0, id, Seq::empty()) {
                Err(_) => {},
                Ok((members, next_id)) => {
                    assert(group_ids(Seq::<PatternNode>::empty()) =~= Seq::<nat>::empty());
                    assert(group_ids(members) =~= counting(id, next_id));
                },
            }
        }
    } else {
    }
}

/// The alternatives read from position `from` on hold the ids from `id` up
/// to the next unused one, in order, behind the ids of the alternatives
/// read before.
pub proof fn lemma_parse_alts_ids(p: Seq<char>, from: int, id: nat, acc: Seq<Seq<PatternNode>>)
    requires
        1 <= from <= p.len(),
    ensures
        parse_alts(p, from, id, acc) matches Ok((alts, next_id)) ==> id <= next_id && ids_in_alts(
            alts,
            0,
        ) == ids_in_alts(acc, 0) + counting(id, next_id),
    decreases p.len(), p.len() - from, 0int,
{
    let e = alt_end(p, from, 0);
    lemma_alt_end_bounds(p, from, 0);
    let body = p.subrange(from, e);
    lemma_parse_nodes_ids(body, 0, id, Seq::empty());
    match parse_nodes(body, 0, id, Seq::empty()) {
        Err(_) => {},
        Ok((nodes, mid)) => {
            assert(group_ids(Seq::<PatternNode>::empty()) =~= Seq::<nat>::empty());
            assert(group_ids(nodes) =~= counting(id, mid));
            lemma_ids_alts_push(acc, nodes, 0);
            if e < p.len() && p[e] == '|' {
                lemma_parse_alts_ids(p, e + 1, mid, acc.push(nodes));
                match parse_alts(p, e + 1, mid, acc.push(nodes)) {
                    Err(_) => {},
                    Ok((alts, next_id)) => {
                        lemma_counting_joins(id, mid, next_id);
                        assert(ids_in_alts(alts, 0) =~= ids_in_alts(acc, 0) + counting(
                            id,
                            next_id,
                        ));
                    },
                }
            }
        },
    }
}

/// The groups of a compiled pattern are numbered 0, 1, 2 and so on in the
/// order in which they open: a group before the groups inside it, and these
/// before the groups behind it.
pub proof fn lemma_groups_numbered_in_order(p: Seq<char>)
    ensures
        compile(p) matches Ok(nodes) ==> forall|k: int|
            0 <= k < group_ids(nodes).len() ==> #[trigger] group_ids(nodes)[k] == k,
{
    lemma_parse_nodes_ids(p, 0, 0, Seq::empty());
    match parse_nodes(p, 0, 0, Seq::empty()) {
        Err(_) => {},
        Ok((nodes, next_id)) => {
            assert(group_ids(Seq::<PatternNode>::empty()) =~= Seq::<nat>::empty());
            assert(group_ids(nodes) =~= counting(0, next_id));
        },
    }
}

} // verus!
