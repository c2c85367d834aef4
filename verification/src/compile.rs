//! The compiler: from the text of a pattern to its node sequence.

use crate::chars::{digit_of, is_digit_char, slice_chars};
use crate::pattern::{alts_view, nodes_view, Kind, Modifier, PatternKind, PatternNode, SubPattern};
use crate::syntax::{
    alt_end, atom_end, behind, class_close, compile, group_close, lemma_alt_end_bounds,
    lemma_atom_end_bounds, lemma_class_close_bounds, modifier_of, parse_alts, parse_atom,
    parse_nodes, CompileError,
};
use vstd::prelude::*;

verus! {

/// The model of what the compiler hands back.
pub open spec fn compiled_view(r: Result<Vec<SubPattern>, CompileError>) -> Result<
    Seq<PatternNode>,
    CompileError,
> {
    match r {
        Ok(nodes) => Ok(nodes_view(nodes@)),
        Err(e) => Err(e),
    }
}

/// The quantifier that `c` stands for.
fn modifier_for(c: char) -> (m: Option<Modifier>)
    ensures
        m == modifier_of(c),
{
    if c == '+' {
        Some(Modifier::OneOrMore)
    } else if c == '*' {
        Some(Modifier::ZeroOrMore)
    } else if c == '?' {
        Some(Modifier::ZeroOrOne)
    } else {
        None
    }
}

/// Finds the end of the alternative that starts at `from`.
fn scan_alternative(pattern: &str, n: usize, from: usize) -> (e: usize)
    requires
        n == pattern@.len(),
        from <= n,
    ensures
        e == alt_end(pattern@, from as int, 0),
        from <= e <= n,
{
    let mut j: usize = from;
    let mut depth: usize = 0;
    while j < n
        invariant
            n == pattern@.len(),
            from <= j <= n,
            depth <= j - from,
            alt_end(pattern@, from as int, 0) == alt_end(pattern@, j as int, depth as nat),
        decreases n - j,
    {
        let c = pattern.get_char(j);
        if c == '(' {
            depth = depth + 1;
        } else if c == ')' {
            if depth == 0 {
                return j;
            }
            depth = depth - 1;
        } else if c == '|' && depth == 0 {
            return j;
        }
        j = j + 1;
    }
    j
}

/// Finds the `]` that ends a class whose body is searched from `from` on.
fn scan_class(pattern: &str, n: usize, from: usize) -> (e: usize)
    requires
        n == pattern@.len(),
        from <= n,
    ensures
        e == class_close(pattern@, from as int),
        from <= e <= n,
{
    let mut j: usize = from;
    while j < n
        invariant
            n == pattern@.len(),
            from <= j <= n,
            class_close(pattern@, from as int) == class_close(pattern@, j as int),
        decreases n - j,
    {
        if pattern.get_char(j) == ']' {
            return j;
        }
        j = j + 1;
    }
    j
}

/// Compiles the token that starts at `i`: its kind, the position behind it,
/// and the next unused group id.
fn parse_atom_at(pattern: &str, n: usize, i: usize, id: usize) -> (r: Result<
    (PatternKind, usize, usize),
    CompileError,
>)
    requires
        n == pattern@.len(),
        i < n,
        id + (n - i) <= usize::MAX,
    ensures
        match r {
            Ok((kind, next, next_id)) => {
                &&& parse_atom(pattern@, i as int, id as nat) == Ok::<(Kind, nat), CompileError>(
                    (kind@, next_id as nat),
                )
                &&& next == atom_end(pattern@, i as int)
                &&& i < next <= n
                &&& next_id <= id + (next - i)
            },
            Err(e) => parse_atom(pattern@, i as int, id as nat) == Err::<(Kind, nat), CompileError>(e),
        },
    decreases pattern@.len(), 0int,
{
    let ghost p = pattern@;
    proof {
        lemma_atom_end_bounds(p, i as int);
    }
    let c = pattern.get_char(i);
    if c == '.' {
        Ok((PatternKind::Any, i + 1, id))
    } else if c == '^' {
        Ok((PatternKind::InputStart, i + 1, id))
    } else if c == '$' {
        Ok((PatternKind::InputEnd, i + 1, id))
    } else if c == '(' {
        let mut alts: Vec<Vec<SubPattern>> = Vec::new();
        let mut from: usize = i + 1;
        let mut next_id: usize = id + 1;
        assert(alts_view(alts@) =~= Seq::<Seq<PatternNode>>::empty());
        loop
            invariant
                n == p.len(),
                p == pattern@,
                i < from <= n,
                p[i as int] == '(',
                id + (n - i) <= usize::MAX,
                next_id <= id + (from - i),
                parse_alts(p, i + 1, (id + 1) as nat, Seq::empty()) == parse_alts(
                    p,
                    from as int,
                    next_id as nat,
                    alts_view(alts@),
                ),
                group_close(p, i + 1) == group_close(p, from as int),
            decreases n - from,
        {
            let e = scan_alternative(pattern, n, from);
            let body = slice_chars(pattern, from, e);
            match parse_from(body, next_id) {
                Err(err) => {
                    return Err(err);
                },
                Ok((nodes, after)) => {
                    let ghost before = alts@;
                    alts.push(nodes);
                    assert(alts_view(alts@) =~= alts_view(before).push(nodes_view(nodes@)));
                    if e < n && pattern.get_char(e) == '|' {
                        from = e + 1;
                        next_id = after;
                    } else {
                        let next = if e < n {
                            e + 1
                        } else {
                            n
                        };
                        return Ok((PatternKind::AlternateGroups(id, alts), next, after));
                    }
                },
            }
        }
    } else if c == '[' {
        if i + 1 >= n {
            Err(CompileError::UnclosedClass)
        } else {
            let negated = pattern.get_char(i + 1) == '^';
            let from = if negated {
                i + 2
            } else {
                i + 1
            };
            let close = scan_class(pattern, n, i + 2);
            let body = slice_chars(pattern, from, close);
            match parse_from(body, id) {
                Err(err) => Err(err),
                Ok((members, after)) => {
                    let next = if close < n {
                        close + 1
                    } else {
                        n
                    };
                    if negated {
                        Ok((PatternKind::NotAlternatives(members), next, after))
                    } else {
                        Ok((PatternKind::Alternatives(members), next, after))
                    }
                },
            }
        }
    } else if c == '\\' {
        if i + 1 >= n {
            Err(CompileError::DanglingEscape)
        } else {
            let e = pattern.get_char(i + 1);
            if e == '\\' {
                Ok((PatternKind::Literal('\\'), i + 2, id))
            } else if e == 'd' {
                Ok((PatternKind::Digit, i + 2, id))
            } else if e == 'w' {
                Ok((PatternKind::AlphaNumeric, i + 2, id))
            } else if is_digit_char(e) {
                Ok((PatternKind::BackRef(digit_of(e)), i + 2, id))
            } else {
                Err(CompileError::UnknownEscape(e))
            }
        }
    } else {
        Ok((PatternKind::Literal(c), i + 1, id))
    }
}

/// Compiles a whole pattern text, handing out group ids from `id` upwards.
fn parse_from(pattern: &str, id: usize) -> (r: Result<(Vec<SubPattern>, usize), CompileError>)
    requires
        id + pattern@.len() <= usize::MAX,
    ensures
        match r {
            Ok((nodes, next_id)) => {
                &&& parse_nodes(pattern@, 0, id as nat, Seq::empty()) == Ok::<(Seq<PatternNode>, nat), CompileError>(
                    (nodes_view(nodes@), next_id as nat),
                )
                &&& next_id <= id + pattern@.len()
            },
            Err(e) => parse_nodes(pattern@, 0, id as nat, Seq::empty()) == Err::<
                (Seq<PatternNode>, nat),
                CompileError,
            >(e),
        },
    decreases pattern@.len(), 1int,
{
    let ghost p = pattern@;
    let n = pattern.unicode_len();
    let mut nodes: Vec<SubPattern> = Vec::new();
    let mut i: usize = 0;
    let mut next_id: usize = id;
    assert(nodes_view(nodes@) =~= Seq::<PatternNode>::empty());
    while i < n
        invariant
            p == pattern@,
            n == p.len(),
            i <= n,
            id + n <= usize::MAX,
            next_id <= id + i,
            parse_nodes(p, 0, id as nat, Seq::empty()) == parse_nodes(
                p,
                i as int,
                next_id as nat,
                nodes_view(nodes@),
            ),
        decreases n - i,
    {
        let c = pattern.get_char(i);
        if c == '+' || c == '*' || c == '?' {
            i = i + 1;
        } else {
            match parse_atom_at(pattern, n, i, next_id) {
                Err(e) => {
                    return Err(e);
                },
                Ok((kind, next, after)) => {
                    let modifier = if next < n {
                        modifier_for(pattern.get_char(next))
                    } else {
                        None
                    };
                    let ghost before = nodes@;
                    let node = SubPattern { kind, modifier };
                    nodes.push(node);
                    assert(nodes_view(nodes@) =~= nodes_view(before).push(node@));
                    i = next;
                    next_id = after;
                },
            }
        }
    }
    Ok((nodes, next_id))
}

/// Compiles `pattern` into its node sequence.
///
/// Tokens are read left to right: `.`, `^`, `$`, a group `( | )`, a class
/// `[ ]` or `[^ ]`, an escape `\\`, `\d`, `\w` or `\1` to `\9`, and any other
/// character as itself. A `+`, `*` or `?` behind a token becomes its
/// modifier. Groups are numbered from 0 in the order in which they open.
/// A `\` before anything else, or a `[` with nothing behind it, is an error.
pub fn parse_pattern(pattern: &str) -> (r: Result<Vec<SubPattern>, CompileError>)
    ensures
        compiled_view(r) == compile(pattern@),
{
    // Counting the characters shows that the group ids, of which there are
    // no more than characters, fit a `usize`.
    let _ = pattern.unicode_len();
    match parse_from(pattern, 0) {
        Ok((nodes, _)) => Ok(nodes),
        Err(e) => Err(e),
    }
}

} // verus!
