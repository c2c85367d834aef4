//! The matcher: a leftmost, greedy search that asks only the node directly
//! before a failing one to give back.

use crate::captures::Captures;
use crate::chars::{char_count, is_digit_char, is_word_char, skip_chars, slice_chars};
use crate::compile::parse_pattern;
use crate::laws::{is_plain, lemma_empty_pattern_matches, lemma_plain_pattern_search, plain_search};
use crate::pattern::{alts_view, nodes_view, Modifier, PatternKind, PatternNode, SubPattern};
use crate::semantics::{
    any_member, find_start, first_alternative, gives_back, kind_match, match_nodes, match_text,
    node_match, repeat_match, resume_at, sequence_match, walk, MatchError, Search, Step,
};
use vstd::prelude::*;

verus! {

/// How many captured texts may be resolved inside one another before a
/// match attempt is given up with `MatchError::TooDeep`.
pub const BACKREF_DEPTH: usize = 64;

/// The model of a consuming step's result, with the captures behind it.
pub open spec fn step_of(r: Result<Option<usize>, MatchError>, table: Map<nat, Seq<char>>) -> Step {
    Step {
        outcome: match r {
            Ok(Some(k)) => Ok(Some(k as nat)),
            Ok(None) => Ok(None),
            Err(e) => Err(e),
        },
        table,
    }
}

/// The model of a span result, with the captures behind it.
pub open spec fn search_of(
    r: Result<Option<(usize, usize)>, MatchError>,
    table: Map<nat, Seq<char>>,
) -> Search {
    Search {
        outcome: match r {
            Ok(Some((a, b))) => Ok(Some((a as nat, b as nat))),
            Ok(None) => Ok(None),
            Err(e) => Err(e),
        },
        table,
    }
}

/// The model of what `find_match_start` hands back: the offset found and the
/// number of characters between it and the rest.
pub open spec fn found_of(
    input: Seq<char>,
    r: Result<Option<(&str, usize)>, MatchError>,
    table: Map<nat, Seq<char>>,
) -> Search {
    Search {
        outcome: match r {
            Ok(Some((rest, n))) => Ok(Some((n as nat, (input.len() - n - rest@.len()) as nat))),
            Ok(None) => Ok(None),
            Err(e) => Err(e),
        },
        table,
    }
}

/// The first member that matches at the head of `remaining`.
#[verifier::loop_isolation(false)]
fn match_any_member(
    remaining: &str,
    members: &Vec<SubPattern>,
    captures: &mut Captures,
    depth: usize,
) -> (r: Result<Option<usize>, MatchError>)
    ensures
        step_of(r, final(captures)@) == any_member(
            remaining@,
            nodes_view(members@),
            0,
            old(captures)@,
            depth as nat,
        ),
        r matches Ok(Some(k)) ==> k <= remaining@.len(),
    decreases 2 * depth, nodes_view(members@), 0nat,
{
    let ghost table0 = captures@;
    let mut i: usize = 0;
    while i < members.len()
        invariant
            i <= members.len(),
            any_member(remaining@, nodes_view(members@), 0, table0, depth as nat) == any_member(
                remaining@,
                nodes_view(members@),
                i as nat,
                captures@,
                depth as nat,
            ),
        decreases members.len() - i,
    {
        assert(nodes_view(members@)[i as int] == members[i as int]@);
        match match_subpattern(remaining, &members[i], captures, depth) {
            Ok(None) => {},
            other => {
                return other;
            },
        }
        i = i + 1;
    }
    Ok(None)
}

/// The first alternative whose whole sequence matches at the head of
/// `remaining`; its text is captured under `id`.
#[verifier::loop_isolation(false)]
fn match_first_alternative(
    remaining: &str,
    id: usize,
    alts: &Vec<Vec<SubPattern>>,
    captures: &mut Captures,
    depth: usize,
) -> (r: Result<Option<usize>, MatchError>)
    ensures
        step_of(r, final(captures)@) == first_alternative(
            remaining@,
            id as nat,
            alts_view(alts@),
            0,
            old(captures)@,
            depth as nat,
        ),
        r matches Ok(Some(k)) ==> k <= remaining@.len(),
    decreases 2 * depth, alts_view(alts@), 0nat,
{
    let ghost table0 = captures@;
    let mut j: usize = 0;
    while j < alts.len()
        invariant
            j <= alts.len(),
            first_alternative(remaining@, id as nat, alts_view(alts@), 0, table0, depth as nat)
                == first_alternative(
                remaining@,
                id as nat,
                alts_view(alts@),
                j as nat,
                captures@,
                depth as nat,
            ),
        decreases alts.len() - j,
    {
        assert(alts_view(alts@)[j as int] == nodes_view(alts[j as int]@));
        match match_all_subpatterns(remaining, alts[j].as_slice(), captures, depth) {
            Err(e) => {
                return Err(e);
            },
            Ok(Some(k)) => {
                captures.record(id, slice_chars(remaining, 0, k));
                return Ok(Some(k));
            },
            Ok(None) => {},
        }
        j = j + 1;
    }
    Ok(None)
}

/// One attempt of `kind` at the head of `remaining`: the number of
/// characters consumed, or `None`.
///
/// `$` consumes nothing and needs the text to be at its end. `.`, a literal,
/// `\d` and `\w` consume one fitting character. A class consumes what its
/// first matching member consumes; a negated class consumes one character
/// where no member matches. A group tries its alternatives in order, each as
/// a whole sequence without retry, and captures the text of the first that
/// matches, unless its id has a capture already. A backreference reads the
/// captured text as a pattern and matches it anchored at the head; it fails
/// where the group has no capture. A `^` here is an error.
pub fn match_subpattern_kind(
    remaining: &str,
    kind: &PatternKind,
    captures: &mut Captures,
    depth: usize,
) -> (r: Result<Option<usize>, MatchError>)
    ensures
        step_of(r, final(captures)@) == kind_match(
            remaining@,
            kind@,
            old(captures)@,
            depth as nat,
        ),
        r matches Ok(Some(k)) ==> k <= remaining@.len(),
    decreases 2 * depth, kind@, 0nat,
{
    match kind {
        PatternKind::InputStart => Err(MatchError::MisplacedStart),
        PatternKind::InputEnd => {
            if remaining.is_empty() {
                Ok(Some(0))
            } else {
                Ok(None)
            }
        },
        PatternKind::Any => {
            if !remaining.is_empty() {
                Ok(Some(1))
            } else {
                Ok(None)
            }
        },
        PatternKind::Literal(l) => {
            if !remaining.is_empty() && remaining.get_char(0) == *l {
                Ok(Some(1))
            } else {
                Ok(None)
            }
        },
        PatternKind::Digit => {
            if !remaining.is_empty() && is_digit_char(remaining.get_char(0)) {
                Ok(Some(1))
            } else {
                Ok(None)
            }
        },
        PatternKind::AlphaNumeric => {
            if !remaining.is_empty() && is_word_char(remaining.get_char(0)) {
                Ok(Some(1))
            } else {
                Ok(None)
            }
        },
        PatternKind::Alternatives(v) => match_any_member(remaining, v, captures, depth),
        PatternKind::NotAlternatives(v) => {
            match match_any_member(remaining, v, captures, depth) {
                Err(e) => Err(e),
                Ok(Some(_)) => Ok(None),
                Ok(None) => {
                    if !remaining.is_empty() {
                        Ok(Some(1))
                    } else {
                        Ok(None)
                    }
                },
            }
        },
        PatternKind::AlternateGroups(id, groups) => match_first_alternative(
            remaining,
            *id,
            groups,
            captures,
            depth,
        ),
        PatternKind::BackRef(n) => {
            if *n == 0 {
                return Ok(None);
            }
            let text: String = match captures.get(*n - 1) {
                None => {
                    return Ok(None);
                },
                Some(g) => g.clone(),
            };
            if depth == 0 {
                return Err(MatchError::TooDeep);
            }
            match match_pattern_in(remaining, text.as_str(), true, captures, depth - 1) {
                Err(e) => Err(e),
                Ok(None) => Ok(None),
                Ok(Some((start, end))) => {
                    if start == 0 {
                        Ok(Some(end))
                    } else {
                        Ok(None)
                    }
                },
            }
        },
    }
}

/// What a repetition that consumed `total` characters reports.
fn repeated(one_or_more: bool, total: usize) -> (r: Result<Option<usize>, MatchError>)
    ensures
        r == if one_or_more && total == 0 {
            Ok::<Option<usize>, MatchError>(None)
        } else {
            Ok::<Option<usize>, MatchError>(Some(total))
        },
{
    if one_or_more && total == 0 {
        Ok(None)
    } else {
        Ok(Some(total))
    }
}

/// A node with its modifier at the head of `remaining`: the number of
/// characters consumed, or `None`.
///
/// Without a modifier the node matches as its kind does. With `?` a failed
/// attempt consumes nothing and still matches. With `*` and `+` the kind is
/// repeated greedily, while an attempt consumes something and text is left;
/// `+` fails where nothing was consumed.
#[verifier::loop_isolation(false)]
pub fn match_subpattern(remaining: &str, sp: &SubPattern, captures: &mut Captures, depth: usize) -> (r:
    Result<Option<usize>, MatchError>)
    ensures
        step_of(r, final(captures)@) == node_match(
            remaining@,
            sp@,
            old(captures)@,
            depth as nat,
        ),
        r matches Ok(Some(k)) ==> k <= remaining@.len(),
    decreases 2 * depth, sp@, 0nat,
{
    let one_or_more = match sp.modifier {
        None => {
            return match_subpattern_kind(remaining, &sp.kind, captures, depth);
        },
        Some(Modifier::ZeroOrOne) => {
            return match match_subpattern_kind(remaining, &sp.kind, captures, depth) {
                Ok(None) => Ok(Some(0)),
                other => other,
            };
        },
        Some(Modifier::ZeroOrMore) => false,
        Some(Modifier::OneOrMore) => true,
    };
    let ghost table0 = captures@;
    let n = char_count(remaining);
    let mut consumed: usize = 0;
    loop
        invariant
            n == remaining@.len(),
            consumed <= n,
            sp.modifier == Some(Modifier::ZeroOrMore) || sp.modifier == Some(Modifier::OneOrMore),
            one_or_more == (sp.modifier == Some(Modifier::OneOrMore)),
            repeat_match(remaining@, sp@.kind, 0, table0, depth as nat) == repeat_match(
                remaining@,
                sp@.kind,
                consumed as nat,
                captures@,
                depth as nat,
            ),
        decreases n - consumed,
    {
        let rest = skip_chars(remaining, consumed);
        match match_subpattern_kind(rest, &sp.kind, captures, depth) {
            Err(e) => {
                return Err(e);
            },
            Ok(None) => {
                return repeated(one_or_more, consumed);
            },
            Ok(Some(k)) => {
                let total = consumed + k;
                if k == 0 || total >= n {
                    return repeated(one_or_more, total);
                }
                consumed = total;
            },
        }
    }
}

/// The first offset of `input`, before its end, at which `sp` matches: the
/// text behind the match, and the offset.
#[verifier::loop_isolation(false)]
pub fn find_match_start<'a>(
    input: &'a str,
    sp: &SubPattern,
    captures: &mut Captures,
    depth: usize,
) -> (r: Result<Option<(&'a str, usize)>, MatchError>)
    ensures
        found_of(input@, r, final(captures)@) == find_start(
            input@,
            sp@,
            0,
            old(captures)@,
            depth as nat,
        ),
        r matches Ok(Some((rest, n))) ==> n + rest@.len() <= input@.len() && rest@
            == input@.skip(input@.len() - rest@.len()),
    decreases 2 * depth, sp@, 1nat,
{
    let ghost table0 = captures@;
    let len = char_count(input);
    let mut n: usize = 0;
    while n < len
        invariant
            len == input@.len(),
            n <= len,
            find_start(input@, sp@, 0, table0, depth as nat) == find_start(
                input@,
                sp@,
                n as nat,
                captures@,
                depth as nat,
            ),
        decreases len - n,
    {
        let tail = skip_chars(input, n);
        match match_subpattern(tail, sp, captures, depth) {
            Err(e) => {
                return Err(e);
            },
            Ok(Some(k)) => {
                let rest = skip_chars(input, n + k);
                return Ok(Some((rest, n)));
            },
            Ok(None) => {},
        }
        n = n + 1;
    }
    Ok(None)
}

/// The nodes one behind the other at the head of `input`, nothing retried:
/// the total number of characters consumed, or `None`.
#[verifier::loop_isolation(false)]
pub fn match_all_subpatterns(
    input: &str,
    subpatterns: &[SubPattern],
    captures: &mut Captures,
    depth: usize,
) -> (r: Result<Option<usize>, MatchError>)
    ensures
        step_of(r, final(captures)@) == sequence_match(
            input@,
            nodes_view(subpatterns@),
            0,
            0,
            old(captures)@,
            depth as nat,
        ),
        r matches Ok(Some(k)) ==> k <= input@.len(),
    decreases 2 * depth, nodes_view(subpatterns@), 0nat,
{
    let ghost table0 = captures@;
    let len = char_count(input);
    let mut i: usize = 0;
    let mut consumed: usize = 0;
    while i < subpatterns.len()
        invariant
            i <= subpatterns.len(),
            consumed <= input@.len(),
            sequence_match(input@, nodes_view(subpatterns@), 0, 0, table0, depth as nat)
                == sequence_match(
                input@,
                nodes_view(subpatterns@),
                i as nat,
                consumed as nat,
                captures@,
                depth as nat,
            ),
        decreases subpatterns.len() - i,
    {
        assert(nodes_view(subpatterns@)[i as int] == subpatterns[i as int]@);
        let remaining = skip_chars(input, consumed);
        match match_subpattern(remaining, &subpatterns[i], captures, depth) {
            Ok(Some(k)) => {
                consumed = consumed + k;
            },
            other => {
                return other;
            },
        }
        i = i + 1;
    }
    Ok(Some(consumed))
}

/// Whether the node before a failing one lets the search try again.
fn node_gives_back(prev: &SubPattern) -> (r: bool)
    ensures
        r == gives_back(prev@),
{
    let repeats = match prev.modifier {
        Some(Modifier::ZeroOrMore) => true,
        Some(Modifier::OneOrMore) => true,
        _ => false,
    };
    let group = match prev.kind {
        PatternKind::AlternateGroups(_, _) => true,
        _ => false,
    };
    repeats || group
}

/// Whether the node stands under `*`.
fn is_zero_or_more(node: &SubPattern) -> (r: bool)
    ensures
        r == (node@.modifier == Some(Modifier::ZeroOrMore)),
{
    match node.modifier {
        Some(Modifier::ZeroOrMore) => true,
        _ => false,
    }
}

/// Whether the node is a `^`, whatever its modifier.
fn is_input_start(node: &SubPattern) -> (r: bool)
    ensures
        r == (node@.kind is InputStart),
{
    match node.kind {
        PatternKind::InputStart => true,
        _ => false,
    }
}

/// Walks the nodes from index `first` on against `input` from offset `pos`
/// on: the offset behind the last node, or `None`.
#[verifier::loop_isolation(false)]
fn walk_nodes(
    input: &str,
    nodes: &[SubPattern],
    first: usize,
    pos: usize,
    captures: &mut Captures,
    depth: usize,
) -> (r: Result<Option<usize>, MatchError>)
    requires
        first <= nodes@.len(),
        pos <= input@.len(),
    ensures
        step_of(r, final(captures)@) == walk(
            input@,
            nodes_view(nodes@),
            first as nat,
            first as nat,
            pos as nat,
            pos as nat,
            old(captures)@,
            depth as nat,
        ),
        r matches Ok(Some(end)) ==> pos <= end <= input@.len(),
    decreases 2 * depth, nodes_view(nodes@), 0nat,
{
    let ghost table0 = captures@;
    let ghost pos0 = pos;
    let len = char_count(input);
    let mut i: usize = first;
    let mut pos: usize = pos;
    let mut prev_pos: usize = pos;
    while i < nodes.len()
        invariant
            len == input@.len(),
            first <= i <= nodes.len(),
            pos0 <= prev_pos <= pos <= len,
            walk(
                input@,
                nodes_view(nodes@),
                first as nat,
                first as nat,
                pos0 as nat,
                pos0 as nat,
                table0,
                depth as nat,
            ) == walk(
                input@,
                nodes_view(nodes@),
                i as nat,
                first as nat,
                pos as nat,
                prev_pos as nat,
                captures@,
                depth as nat,
            ),
        decreases nodes.len() - i,
    {
        assert(nodes_view(nodes@)[i as int] == nodes[i as int]@);
        let remaining = skip_chars(input, pos);
        match match_subpattern(remaining, &nodes[i], captures, depth) {
            Err(e) => {
                return Err(e);
            },
            Ok(Some(k)) => {
                prev_pos = pos;
                pos = pos + k;
            },
            Ok(None) => {
                if i == first {
                    return Ok(None);
                }
                assert(nodes_view(nodes@)[i - 1] == nodes[i - 1]@);
                if !node_gives_back(&nodes[i - 1]) {
                    return Ok(None);
                }
                let from = if is_zero_or_more(&nodes[i - 1]) {
                    prev_pos
                } else if prev_pos < len {
                    prev_pos + 1
                } else {
                    return Ok(None);
                };
                let tail = skip_chars(input, from);
                match find_match_start(tail, &nodes[i], captures, depth) {
                    Err(e) => {
                        return Err(e);
                    },
                    Ok(None) => {
                        return Ok(None);
                    },
                    Ok(Some((_, n))) => {
                        let at = from + n;
                        let again = skip_chars(input, at);
                        match match_subpattern(again, &nodes[i], captures, depth) {
                            Ok(Some(k)) => {
                                prev_pos = at;
                                pos = at + k;
                            },
                            other => {
                                return other;
                            },
                        }
                    },
                }
            },
        }
        i = i + 1;
    }
    Ok(Some(pos))
}

/// The span of `input` that the compiled `nodes` match, with the captures
/// and the nesting allowance handed in.
pub fn match_compiled(
    input: &str,
    nodes: &[SubPattern],
    force_from_start: bool,
    captures: &mut Captures,
    depth: usize,
) -> (r: Result<Option<(usize, usize)>, MatchError>)
    ensures
        search_of(r, final(captures)@) == match_nodes(
            input@,
            nodes_view(nodes@),
            force_from_start,
            old(captures)@,
            depth as nat,
        ),
        r matches Ok(Some((start, end))) ==> start <= end <= input@.len(),
        force_from_start ==> (r matches Ok(Some((start, _))) ==> start == 0),
    decreases 2 * depth, nodes_view(nodes@), 1nat,
{
    if nodes.len() == 0 {
        return Ok(Some((0, 0)));
    }
    assert(nodes_view(nodes@)[0] == nodes[0]@);
    if force_from_start {
        return match walk_nodes(input, nodes, 0, 0, captures, depth) {
            Err(e) => Err(e),
            Ok(None) => Ok(None),
            Ok(Some(end)) => Ok(Some((0, end))),
        };
    }
    if is_input_start(&nodes[0]) {
        return match walk_nodes(input, nodes, 1, 0, captures, depth) {
            Err(e) => Err(e),
            Ok(None) => Ok(None),
            Ok(Some(end)) => Ok(Some((0, end))),
        };
    }
    match find_match_start(input, &nodes[0], captures, depth) {
        Err(e) => Err(e),
        Ok(None) => Ok(None),
        Ok(Some((rest, start))) => {
            let pos = char_count(input) - char_count(rest);
            match walk_nodes(input, nodes, 1, pos, captures, depth) {
                Err(e) => Err(e),
                Ok(None) => Ok(None),
                Ok(Some(end)) => Ok(Some((start, end))),
            }
        },
    }
}

/// Matches `pattern` against `input_line` with the captures and the nesting
/// allowance handed in. What `match_pattern` does, for a caller that keeps
/// the capture table.
pub fn match_pattern_in(
    input_line: &str,
    pattern: &str,
    force_from_start: bool,
    captures: &mut Captures,
    depth: usize,
) -> (r: Result<Option<(usize, usize)>, MatchError>)
    ensures
        search_of(r, final(captures)@) == match_text(
            input_line@,
            pattern@,
            force_from_start,
            old(captures)@,
            depth as nat,
        ),
        r matches Ok(Some((start, end))) ==> start <= end <= input_line@.len(),
        force_from_start ==> (r matches Ok(Some((start, _))) ==> start == 0),
    decreases 2 * depth + 1, Seq::<PatternNode>::empty(), 0nat,
{
    match parse_pattern(pattern) {
        Err(e) => Err(MatchError::Compile(e)),
        Ok(nodes) => match_compiled(input_line, nodes.as_slice(), force_from_start, captures, depth),
    }
}

/// Compiles `pattern` and looks for its leftmost match in `input_line`: the
/// offsets of the first character of the match and of the character behind
/// it, counted in characters.
///
/// The empty pattern matches the empty span at 0. With `force_from_start`,
/// or with a `^` at the head of the pattern, the match begins at offset 0;
/// otherwise it begins at the first offset, before the end of the line, at
/// which the first node matches. A `^` that the walk reaches, which is any
/// `^` but the one dropped from the head of an unanchored pattern, ends the
/// attempt with `MatchError::MisplacedStart`. Every call starts from an
/// empty capture table and allows `BACKREF_DEPTH` nested captures.
pub fn match_pattern(input_line: &str, pattern: &str, force_from_start: bool) -> (r: Result<
    Option<(usize, usize)>,
    MatchError,
>)
    ensures
        search_of(r, Map::empty()).outcome == match_text(
            input_line@,
            pattern@,
            force_from_start,
            Map::empty(),
            BACKREF_DEPTH as nat,
        ).outcome,
        r matches Ok(Some((start, end))) ==> start <= end <= input_line@.len(),
        pattern@.len() == 0 ==> r == Ok::<Option<(usize, usize)>, MatchError>(Some((0, 0))),
        is_plain(pattern@) && !force_from_start ==> search_of(r, Map::empty()).outcome
            == plain_search(input_line@, pattern@),
{
    proof {
        if pattern@.len() == 0 {
            assert(pattern@ =~= Seq::<char>::empty());
            lemma_empty_pattern_matches(
                input_line@,
                force_from_start,
                Map::empty(),
                BACKREF_DEPTH as nat,
            );
        }
        if is_plain(pattern@) {
            lemma_plain_pattern_search(input_line@, pattern@, Map::empty(), BACKREF_DEPTH as nat);
        }
    }
    let mut captures = Captures::new();
    match_pattern_in(input_line, pattern, force_from_start, &mut captures, BACKREF_DEPTH)
}

} // verus!
