//! What a pattern text means: the compiled node sequence as a function of
//! the characters of the pattern.

use crate::chars::{digit_value, is_digit, is_quantifier};
use crate::pattern::{Kind, Modifier, PatternNode};
use vstd::prelude::*;

verus! {

/// Why a pattern has no compiled form.
#[derive(Debug, Clone, Copy, PartialEq, Eq, Structural)]
pub enum CompileError {
    /// `[` is the last character of the pattern.
    UnclosedClass,
    /// `\` is the last character of the pattern.
    DanglingEscape,
    /// `\` stands before a character that names no escape.
    UnknownEscape(char),
}

/// The quantifier that `c` stands for.
pub open spec fn modifier_of(c: char) -> Option<Modifier> {
    if c == '+' {
        Some(Modifier::OneOrMore)
    } else if c == '*' {
        Some(Modifier::ZeroOrMore)
    } else if c == '?' {
        Some(Modifier::ZeroOrOne)
    } else {
        None
    }
}

/// The quantifier written at position `i`, if one is.
pub open spec fn modifier_at(p: Seq<char>, i: int) -> Option<Modifier> {
    if 0 <= i < p.len() {
        modifier_of(p[i])
    } else {
        None
    }
}

/// The position just behind the delimiter at `e`, or the end of the pattern
/// where the delimiter is missing.
pub open spec fn behind(p: Seq<char>, e: int) -> int {
    if e < p.len() {
        e + 1
    } else {
        p.len() as int
    }
}

/// The first `]` at or behind `from`, or the length of the pattern.
pub open spec fn class_close(p: Seq<char>, from: int) -> int
    decreases p.len() - from,
{
    if from < 0 || from >= p.len() {
        p.len() as int
    } else if p[from] == ']' {
        from
    } else {
        class_close(p, from + 1)
    }
}

/// Where the alternative that is being read at `i`, inside `depth` nested
/// parentheses, ends: at the first `|` outside nested parentheses, at the
/// `)` that closes the group, or at the end of the pattern.
pub open spec fn alt_end(p: Seq<char>, i: int, depth: nat) -> int
    decreases p.len() - i,
{
    if i < 0 || i >= p.len() {
        p.len() as int
    } else if p[i] == '(' {
        alt_end(p, i + 1, depth + 1)
    } else if p[i] == ')' {
        if depth == 0 {
            i
        } else {
            alt_end(p, i + 1, (depth - 1) as nat)
        }
    } else if p[i] == '|' && depth == 0 {
        i
    } else {
        alt_end(p, i + 1, depth)
    }
}

pub proof fn lemma_class_close_bounds(p: Seq<char>, from: int)
    requires
        0 <= from <= p.len(),
    ensures
        from <= class_close(p, from) <= p.len(),
        class_close(p, from) < p.len() ==> p[class_close(p, from)] == ']',
    decreases p.len() - from,
{
    if from < p.len() && p[from] != ']' {
        lemma_class_close_bounds(p, from + 1);
    }
}

pub proof fn lemma_alt_end_bounds(p: Seq<char>, i: int, depth: nat)
    requires
        0 <= i <= p.len(),
    ensures
        i <= alt_end(p, i, depth) <= p.len(),
    decreases p.len() - i,
{
    if i < p.len() {
        if p[i] == '(' {
            lemma_alt_end_bounds(p, i + 1, depth + 1);
        } else if p[i] == ')' {
            if depth > 0 {
                lemma_alt_end_bounds(p, i + 1, (depth - 1) as nat);
            }
        } else if p[i] == '|' && depth == 0 {
        } else {
            lemma_alt_end_bounds(p, i + 1, depth);
        }
    }
}

/// The `)` that closes the group whose body starts at `from`, or the length
/// of the pattern where the group is left open.
pub open spec fn group_close(p: Seq<char>, from: int) -> int
    decreases p.len() - from,
{
    if from < 0 || from > p.len() {
        p.len() as int
    } else {
        let e = alt_end(p, from, 0);
        if e < p.len() && p[e] == '|' {
            proof {
                lemma_alt_end_bounds(p, from, 0);
            }
            group_close(p, e + 1)
        } else {
            e
        }
    }
}

pub proof fn lemma_group_close_bounds(p: Seq<char>, from: int)
    requires
        0 <= from <= p.len(),
    ensures
        from <= group_close(p, from) <= p.len(),
    decreases p.len() - from,
{
    let e = alt_end(p, from, 0);
    lemma_alt_end_bounds(p, from, 0);
    if e < p.len() && p[e] == '|' {
        lemma_group_close_bounds(p, e + 1);
    }
}

/// The position behind the token that starts at `i`.
pub open spec fn atom_end(p: Seq<char>, i: int) -> int {
    if p[i] == '(' {
        behind(p, group_close(p, i + 1))
    } else if p[i] == '[' {
        if i + 1 < p.len() {
            behind(p, class_close(p, i + 2))
        } else {
            i + 1
        }
    } else if p[i] == '\\' {
        if i + 1 < p.len() {
            i + 2
        } else {
            i + 1
        }
    } else {
        i + 1
    }
}

pub proof fn lemma_atom_end_bounds(p: Seq<char>, i: int)
    requires
        0 <= i < p.len(),
    ensures
        i < atom_end(p, i) <= p.len(),
{
    if p[i] == '(' {
        lemma_group_close_bounds(p, i + 1);
    } else if p[i] == '[' {
        if i + 1 < p.len() {
            lemma_class_close_bounds(p, i + 2);
        }
    }
}

/// The nodes of `p` from position `i` on, appended to `acc`, and the next
/// unused group id. Group ids are handed out from `id` upwards, in the order
/// in which the groups open.
pub open spec fn parse_nodes(p: Seq<char>, i: int, id: nat, acc: Seq<PatternNode>) -> Result<
    (Seq<PatternNode>, nat),
    CompileError,
>
    decreases p.len(), p.len() - i, 1int,
{
    if i < 0 || i >= p.len() {
        Ok((acc, id))
    } else if is_quantifier(p[i]) {
        parse_nodes(p, i + 1, id, acc)
    } else {
        match parse_atom(p, i, id) {
            Err(e) => Err(e),
            Ok((kind, next_id)) => {
                proof {
                    lemma_atom_end_bounds(p, i);
                }
                let next = atom_end(p, i);
                let node = PatternNode { kind, modifier: modifier_at(p, next) };
                parse_nodes(p, next, next_id, acc.push(node))
            },
        }
    }
}

/// The kind of the token that starts at `i`, and the next unused group id.
pub open spec fn parse_atom(p: Seq<char>, i: int, id: nat) -> Result<(Kind, nat), CompileError>
    decreases p.len(), p.len() - i, 0int,
{
    if i < 0 || i >= p.len() {
        Ok((Kind::Any, id))
    } else if p[i] == '.' {
        Ok((Kind::Any, id))
    } else if p[i] == '^' {
        Ok((Kind::InputStart, id))
    } else if p[i] == '$' {
        Ok((Kind::InputEnd, id))
    } else if p[i] == '(' {
        match parse_alts(p, i + 1, id + 1, Seq::empty()) {
            Err(e) => Err(e),
            Ok((alts, next_id)) => Ok((Kind::AlternateGroups(id, alts), next_id)),
        }
    } else if p[i] == '[' {
        if i + 1 >= p.len() {
            Err(CompileError::UnclosedClass)
        } else {
            let negated = p[i + 1] == '^';
            let from = if negated {
                i + 2
            } else {
                i + 1
            };
            proof {
                lemma_class_close_bounds(p, i + 2);
            }
            match parse_nodes(p.subrange(from, class_close(p, i + 2)), 0, id, Seq::empty()) {
                Err(e) => Err(e),
                Ok((members, next_id)) => if negated {
                    Ok((Kind::NotAlternatives(members), next_id))
                } else {
                    Ok((Kind::Alternatives(members), next_id))
                },
            }
        }
    } else if p[i] == '\\' {
        if i + 1 >= p.len() {
            Err(CompileError::DanglingEscape)
        } else if p[i + 1] == '\\' {
            Ok((Kind::Literal('\\'), id))
        } else if p[i + 1] == 'd' {
            Ok((Kind::Digit, id))
        } else if p[i + 1] == 'w' {
            Ok((Kind::AlphaNumeric, id))
        } else if is_digit(p[i + 1]) {
            Ok((Kind::BackRef(digit_value(p[i + 1])), id))
        } else {
            Err(CompileError::UnknownEscape(p[i + 1]))
        }
    } else {
        Ok((Kind::Literal(p[i]), id))
    }
}

/// The alternatives of a group from the one that starts at `from` on,
/// appended to `acc`, and the next unused group id.
pub open spec fn parse_alts(p: Seq<char>, from: int, id: nat, acc: Seq<Seq<PatternNode>>) -> Result<
    (Seq<Seq<PatternNode>>, nat),
    CompileError,
>
    decreases p.len(), p.len() - from, 0int,
{
    if from < 1 || from > p.len() {
        Ok((acc, id))
    } else {
        let e = alt_end(p, from, 0);
        proof {
            lemma_alt_end_bounds(p, from, 0);
        }
        match parse_nodes(p.subrange(from, e), 0, id, Seq::empty()) {
            Err(err) => Err(err),
            Ok((nodes, next_id)) => if e < p.len() && p[e] == '|' {
                parse_alts(p, e + 1, next_id, acc.push(nodes))
            } else {
                Ok((acc.push(nodes), next_id))
            },
        }
    }
}

/// The compiled form of the pattern `p`: its nodes in order, group ids
/// counted from 0 in the order in which the groups open, or the reason why
/// `p` does not compile.
pub open spec fn compile(p: Seq<char>) -> Result<Seq<PatternNode>, CompileError> {
    match parse_nodes(p, 0, 0, Seq::empty()) {
        Err(e) => Err(e),
        Ok((nodes, _)) => Ok(nodes),
    }
}

} // verus!
