//! Laws of the engine, proved over the models of `syntax` and `semantics`.

use crate::compile::compiled_view;
use crate::pattern::{nodes_view, Kind, PatternNode, SubPattern};
use crate::semantics::{
    find_start, kind_match, match_nodes, match_text, node_match, walk, MatchError, Search, Step,
};
use crate::syntax::{atom_end, compile, modifier_at, parse_atom, parse_nodes, CompileError};
use vstd::prelude::*;

verus! {

/// A character that the compiler reads as more than itself.
pub open spec fn is_metachar(c: char) -> bool {
    c == '+' || c == '*' || c == '?' || c == '.' || c == '^' || c == '$' || c == '(' || c == '['
        || c == '\\'
}

/// A text without metacharacters.
pub open spec fn is_plain(p: Seq<char>) -> bool {
    forall|i: int| 0 <= i < p.len() ==> !is_metachar(#[trigger] p[i])
}

/// The node that matches exactly the character `c`.
pub open spec fn literal_node(c: char) -> PatternNode {
    PatternNode { kind: Kind::Literal(c), modifier: None }
}

/// One literal node for each character of `p`.
pub open spec fn literal_nodes(p: Seq<char>) -> Seq<PatternNode> {
    Seq::new(p.len(), |i: int| literal_node(p[i]))
}

/// `p` stands in `input` at offset `at`.
pub open spec fn occurs_at(input: Seq<char>, p: Seq<char>, at: int) -> bool {
    &&& 0 <= at
    &&& at + p.len() <= input.len()
    &&& forall|k: int| 0 <= k < p.len() ==> input[at + k] == #[trigger] p[k]
}

/// `p` stands in `input` at offset `at` and at no offset before it.
pub open spec fn first_occurrence(input: Seq<char>, p: Seq<char>, at: int) -> bool {
    &&& occurs_at(input, p, at)
    &&& forall|j: int| 0 <= j < at ==> !occurs_at(input, p, j)
}

/// The first offset from `n` on at which `c` stands in `s`.
pub open spec fn index_from(s: Seq<char>, c: char, n: nat) -> Option<nat>
    decreases s.len() - n,
{
    if n >= s.len() {
        None
    } else if s[n as int] == c {
        Some(n)
    } else {
        index_from(s, c, n + 1)
    }
}

/// What the search for a plain pattern comes to: the pattern is looked for
/// only at the first place where its first character stands.
pub open spec fn plain_search(input: Seq<char>, p: Seq<char>) -> Result<
    Option<(nat, nat)>,
    MatchError,
> {
    if p.len() == 0 {
        Ok(Some((0nat, 0nat)))
    } else {
        match index_from(input, p[0], 0) {
            None => Ok(None),
            Some(s) => if occurs_at(input, p, s as int) {
                Ok(Some((s, s + p.len())))
            } else {
                Ok(None)
            },
        }
    }
}

proof fn lemma_index_from(s: Seq<char>, c: char, n: nat)
    ensures
        match index_from(s, c, n) {
            None => forall|j: int| n <= j < s.len() ==> s[j] != c,
            Some(at) => n <= at < s.len() && s[at as int] == c && forall|j: int|
                n <= j < at ==> s[j] != c,
        },
    decreases s.len() - n,
{
    if n < s.len() && s[n as int] != c {
        lemma_index_from(s, c, n + 1);
    }
}

proof fn lemma_parse_plain(p: Seq<char>, i: int, id: nat, acc: Seq<PatternNode>)
    requires
        is_plain(p),
        0 <= i <= p.len(),
        acc == literal_nodes(p).take(i),
    ensures
        parse_nodes(p, i, id, acc) == Ok::<(Seq<PatternNode>, nat), CompileError>(
            (literal_nodes(p), id),
        ),
    decreases p.len() - i,
{
    if i < p.len() {
        assert(!is_metachar(p[i]));
        assert(parse_atom(p, i, id) == Ok::<(Kind, nat), CompileError>((Kind::Literal(p[i]), id)));
        assert(atom_end(p, i) == i + 1);
        if i + 1 < p.len() {
            assert(!is_metachar(p[i + 1]));
        }
        assert(modifier_at(p, i + 1) == None::<crate::pattern::Modifier>);
        let node = literal_node(p[i]);
        assert(acc.push(node) =~= literal_nodes(p).take(i + 1));
        lemma_parse_plain(p, i + 1, id, acc.push(node));
    } else {
        assert(acc =~= literal_nodes(p));
    }
}

/// A text without metacharacters compiles to one literal node for each of
/// its characters.
pub proof fn lemma_compile_plain(p: Seq<char>)
    requires
        is_plain(p),
    ensures
        compile(p) == Ok::<Seq<PatternNode>, CompileError>(literal_nodes(p)),
{
    assert(literal_nodes(p).take(0) =~= Seq::<PatternNode>::empty());
    lemma_parse_plain(p, 0, 0, Seq::empty());
}

proof fn lemma_find_literal(
    input: Seq<char>,
    c: char,
    n: nat,
    table: Map<nat, Seq<char>>,
    depth: nat,
)
    ensures
        find_start(input, literal_node(c), n, table, depth) == (Search {
            outcome: match index_from(input, c, n) {
                None => Ok(None),
                Some(at) => Ok(Some((at, 1nat))),
            },
            table,
        }),
    decreases input.len() - n,
{
    if n < input.len() {
        let rem = input.skip(n as int);
        assert(rem[0] == input[n as int]);
        assert(node_match(rem, literal_node(c), table, depth) == kind_match(
            rem,
            Kind::Literal(c),
            table,
            depth,
        ));
        if input[n as int] != c {
            lemma_find_literal(input, c, n + 1, table, depth);
        }
    }
}

/// The characters of `p` from index `i` on stand in `input` from `pos` on.
pub open spec fn tail_occurs(input: Seq<char>, p: Seq<char>, i: nat, pos: nat) -> bool {
    &&& pos + (p.len() - i) <= input.len()
    &&& forall|k: int| i <= k < p.len() ==> input[pos + k - i] == #[trigger] p[k]
}

proof fn lemma_walk_plain(
    input: Seq<char>,
    p: Seq<char>,
    i: nat,
    first: nat,
    pos: nat,
    prev_pos: nat,
    table: Map<nat, Seq<char>>,
    depth: nat,
)
    requires
        i <= p.len(),
        pos <= input.len(),
    ensures
        walk(input, literal_nodes(p), i, first, pos, prev_pos, table, depth) == (Step {
            outcome: if tail_occurs(input, p, i, pos) {
                Ok(Some((pos + p.len() - i) as nat))
            } else {
                Ok(None)
            },
            table,
        }),
    decreases p.len() - i,
{
    let nodes = literal_nodes(p);
    if i < p.len() {
        let rem = input.skip(pos as int);
        assert(nodes[i as int] == literal_node(p[i as int]));
        assert(node_match(rem, nodes[i as int], table, depth) == kind_match(
            rem,
            Kind::Literal(p[i as int]),
            table,
            depth,
        ));
        if pos < input.len() && input[pos as int] == p[i as int] {
            assert(rem.len() > 0 && rem[0] == p[i as int]);
            lemma_walk_plain(input, p, i + 1, first, pos + 1, pos, table, depth);
            if tail_occurs(input, p, i + 1, pos + 1) {
                assert forall|k: int| i <= k < p.len() implies input[pos + k - i]
                    == #[trigger] p[k] by {
                    if k > i {
                        assert(input[(pos + 1) + k - (i + 1)] == p[k]);
                    }
                }
            } else {
                if tail_occurs(input, p, i, pos) {
                    assert forall|k: int| i + 1 <= k < p.len() implies input[(pos + 1) + k - (i
                        + 1)] == #[trigger] p[k] by {
                        assert(input[pos + k - i] == p[k]);
                    }
                }
            }
        } else {
            if pos < input.len() {
                assert(rem[0] == input[pos as int]);
            } else {
                assert(rem.len() == 0);
            }
            if i > first {
                assert(nodes[i - 1] == literal_node(p[i - 1]));
            }
            if tail_occurs(input, p, i, pos) {
                assert(input[pos + i - i] == p[i as int]);
            }
        }
    }
}

/// What an unanchored search for a text without metacharacters comes to,
/// whatever the captures and the nesting allowance: `plain_search`, with
/// the captures untouched.
pub proof fn lemma_plain_pattern_search(
    input: Seq<char>,
    p: Seq<char>,
    table: Map<nat, Seq<char>>,
    depth: nat,
)
    requires
        is_plain(p),
    ensures
        match_text(input, p, false, table, depth) == (Search {
            outcome: plain_search(input, p),
            table,
        }),
{
    lemma_compile_plain(p);
    let nodes = literal_nodes(p);
    if p.len() > 0 {
        assert(nodes[0] == literal_node(p[0]));
        lemma_find_literal(input, p[0], 0, table, depth);
        lemma_index_from(input, p[0], 0);
        match index_from(input, p[0], 0) {
            None => {},
            Some(s) => {
                lemma_walk_plain(input, p, 1, 1, s + 1, s + 1, table, depth);
                if occurs_at(input, p, s as int) {
                    assert forall|k: int| 1 <= k < p.len() implies input[(s + 1) + k - 1]
                        == #[trigger] p[k] by {
                        assert(input[s + k] == p[k]);
                    }
                    assert(tail_occurs(input, p, 1, s + 1));
                } else {
                    if tail_occurs(input, p, 1, s + 1) {
                        assert forall|k: int| 0 <= k < p.len() implies input[s + k]
                            == #[trigger] p[k] by {
                            if k >= 1 {
                                assert(input[(s + 1) + k - 1] == p[k]);
                            }
                        }
                        assert(false);
                    }
                }
            },
        }
    }
}

/// A span that the search for a text without metacharacters reports is the
/// first occurrence of that text in the input, and such a search never ends
/// in an error.
pub proof fn lemma_plain_match_is_first_occurrence(
    input: Seq<char>,
    p: Seq<char>,
    table: Map<nat, Seq<char>>,
    depth: nat,
)
    requires
        is_plain(p),
    ensures
        match_text(input, p, false, table, depth).outcome is Ok,
        match_text(input, p, false, table, depth).outcome matches Ok(Some((start, end)))
            ==> first_occurrence(input, p, start as int) && end == start + p.len(),
{
    lemma_plain_pattern_search(input, p, table, depth);
    if p.len() > 0 {
        lemma_index_from(input, p[0], 0);
        match index_from(input, p[0], 0) {
            None => {},
            Some(s) => {
                assert forall|j: int| 0 <= j < s implies !occurs_at(input, p, j) by {
                    if occurs_at(input, p, j) {
                        assert(input[j + 0] == p[0]);
                    }
                }
            },
        }
    }
}

/// The search for a text without metacharacters succeeds exactly where the
/// text is a substring of the input, and then reports its first occurrence.
///
/// The search looks for the text only at the first place where its first
/// character stands. So this holds of the inputs in which that character
/// does not stand before the first occurrence of the text.
pub proof fn lemma_plain_pattern_matches_substring(
    input: Seq<char>,
    p: Seq<char>,
    table: Map<nat, Seq<char>>,
    depth: nat,
)
    requires
        is_plain(p),
        forall|at: int, j: int|
            p.len() > 0 && first_occurrence(input, p, at) && 0 <= j < at ==> input[j] != p[0],
    ensures
        match_text(input, p, false, table, depth).outcome is Ok,
        match_text(input, p, false, table, depth).outcome matches Ok(Some(_)) <==> exists|at: int|
            occurs_at(input, p, at),
        match_text(input, p, false, table, depth).outcome matches Ok(Some((start, end)))
            ==> first_occurrence(input, p, start as int) && end == start + p.len(),
{
    lemma_plain_pattern_search(input, p, table, depth);
    lemma_plain_match_is_first_occurrence(input, p, table, depth);
    let outcome = match_text(input, p, false, table, depth).outcome;
    if p.len() == 0 {
        assert(occurs_at(input, p, 0));
    } else {
        lemma_index_from(input, p[0], 0);
        match outcome {
            Ok(Some((start, _))) => {
                assert(occurs_at(input, p, start as int));
            },
            _ => {},
        }
        if exists|at: int| occurs_at(input, p, at) {
            let some = choose|at: int| occurs_at(input, p, at);
            let at = lemma_first_occurrence_exists(input, p, some);
            assert(input[at + 0] == p[0]);
            let s = index_from(input, p[0], 0)->Some_0;
            assert(s == at);
        }
    }
}

proof fn lemma_first_occurrence_exists(input: Seq<char>, p: Seq<char>, some: int) -> (at: int)
    requires
        occurs_at(input, p, some),
    ensures
        first_occurrence(input, p, at),
        at <= some,
    decreases some,
{
    if exists|j: int| 0 <= j < some && occurs_at(input, p, j) {
        let j = choose|j: int| 0 <= j < some && occurs_at(input, p, j);
        lemma_first_occurrence_exists(input, p, j)
    } else {
        some
    }
}

/// The empty pattern matches the empty span at offset 0 of every input,
/// the empty input too, anchored or not, and leaves the captures as they
/// are.
pub proof fn lemma_empty_pattern_matches(
    input: Seq<char>,
    force_from_start: bool,
    table: Map<nat, Seq<char>>,
    depth: nat,
)
    ensures
        match_text(input, Seq::empty(), force_from_start, table, depth) == (Search {
            outcome: Ok(Some((0nat, 0nat))),
            table,
        }),
{
    assert(compile(Seq::empty()) == Ok::<Seq<PatternNode>, CompileError>(Seq::empty()));
}

/// Compiling is a function of the pattern text: two compilations of one
/// text end alike, and where they give nodes, these give the same result on
/// the same input, captures and allowance.
pub proof fn lemma_recompiled_pattern_matches_alike(
    pattern: Seq<char>,
    once: Result<Vec<SubPattern>, CompileError>,
    again: Result<Vec<SubPattern>, CompileError>,
    input: Seq<char>,
    force_from_start: bool,
    table: Map<nat, Seq<char>>,
    depth: nat,
)
    requires
        compiled_view(once) == compile(pattern),
        compiled_view(again) == compile(pattern),
    ensures
        once is Ok <==> again is Ok,
        once is Err ==> once->Err_0 == again->Err_0,
        once is Ok ==> match_nodes(
            input,
            nodes_view(once->Ok_0@),
            force_from_start,
            table,
            depth,
        ) == match_nodes(input, nodes_view(again->Ok_0@), force_from_start, table, depth),
        once is Ok ==> match_nodes(
            input,
            nodes_view(once->Ok_0@),
            force_from_start,
            table,
            depth,
        ) == match_text(input, pattern, force_from_start, table, depth),
{
}

} // verus!
