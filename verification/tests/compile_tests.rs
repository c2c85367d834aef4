use mini_regex::{parse_pattern, CompileError, Modifier, PatternKind, SubPattern};

fn node(kind: PatternKind) -> SubPattern {
    SubPattern { kind, modifier: None }
}

fn quantified(kind: PatternKind, modifier: Modifier) -> SubPattern {
    SubPattern { kind, modifier: Some(modifier) }
}

fn lit(c: char) -> SubPattern {
    node(PatternKind::Literal(c))
}

#[test]
fn empty_pattern_compiles_to_no_nodes() {
    assert_eq!(parse_pattern(""), Ok(vec![]));
}

#[test]
fn plain_text_compiles_to_literals() {
    assert_eq!(parse_pattern("ab'c"), Ok(vec![lit('a'), lit('b'), lit('\''), lit('c')]));
}

#[test]
fn closing_delimiters_alone_are_literals() {
    assert_eq!(parse_pattern(")]|"), Ok(vec![lit(')'), lit(']'), lit('|')]));
}

#[test]
fn dot_and_anchors() {
    assert_eq!(
        parse_pattern("^.$"),
        Ok(vec![
            node(PatternKind::InputStart),
            node(PatternKind::Any),
            node(PatternKind::InputEnd),
        ])
    );
}

#[test]
fn escapes() {
    assert_eq!(
        parse_pattern("\\\\\\d\\w\\3"),
        Ok(vec![
            lit('\\'),
            node(PatternKind::Digit),
            node(PatternKind::AlphaNumeric),
            node(PatternKind::BackRef(3)),
        ])
    );
}

#[test]
fn backreference_takes_one_digit() {
    assert_eq!(
        parse_pattern("\\12"),
        Ok(vec![node(PatternKind::BackRef(1)), lit('2')])
    );
    assert_eq!(parse_pattern("\\0"), Ok(vec![node(PatternKind::BackRef(0))]));
    assert_eq!(parse_pattern("\\9"), Ok(vec![node(PatternKind::BackRef(9))]));
}

#[test]
fn quantifiers_attach_to_the_node_before() {
    assert_eq!(
        parse_pattern("a+b*c?d"),
        Ok(vec![
            quantified(PatternKind::Literal('a'), Modifier::OneOrMore),
            quantified(PatternKind::Literal('b'), Modifier::ZeroOrMore),
            quantified(PatternKind::Literal('c'), Modifier::ZeroOrOne),
            lit('d'),
        ])
    );
}

#[test]
fn stray_quantifiers_are_skipped() {
    assert_eq!(parse_pattern("*a"), Ok(vec![lit('a')]));
    assert_eq!(
        parse_pattern("a+*?b"),
        Ok(vec![quantified(PatternKind::Literal('a'), Modifier::OneOrMore), lit('b')])
    );
    assert_eq!(parse_pattern("+"), Ok(vec![]));
}

#[test]
fn quantifier_behind_an_escape() {
    assert_eq!(
        parse_pattern("\\d+"),
        Ok(vec![quantified(PatternKind::Digit, Modifier::OneOrMore)])
    );
}

#[test]
fn class_of_members() {
    assert_eq!(
        parse_pattern("[a\\d]"),
        Ok(vec![node(PatternKind::Alternatives(vec![lit('a'), node(PatternKind::Digit)]))])
    );
}

#[test]
fn negated_class() {
    assert_eq!(
        parse_pattern("[^abc]x"),
        Ok(vec![
            node(PatternKind::NotAlternatives(vec![lit('a'), lit('b'), lit('c')])),
            lit('x'),
        ])
    );
}

#[test]
fn class_has_no_ranges() {
    assert_eq!(
        parse_pattern("[a-z]"),
        Ok(vec![node(PatternKind::Alternatives(vec![lit('a'), lit('-'), lit('z')]))])
    );
}

#[test]
fn class_with_quantifier() {
    assert_eq!(
        parse_pattern("[ab]+"),
        Ok(vec![quantified(
            PatternKind::Alternatives(vec![lit('a'), lit('b')]),
            Modifier::OneOrMore,
        )])
    );
}

#[test]
fn first_character_of_a_class_is_always_a_member() {
    assert_eq!(
        parse_pattern("[]a]"),
        Ok(vec![node(PatternKind::Alternatives(vec![lit(']'), lit('a')]))])
    );
}

#[test]
fn unterminated_class_runs_to_the_end() {
    assert_eq!(
        parse_pattern("[ab"),
        Ok(vec![node(PatternKind::Alternatives(vec![lit('a'), lit('b')]))])
    );
    assert_eq!(parse_pattern("[^"), Ok(vec![node(PatternKind::NotAlternatives(vec![]))]));
}

#[test]
fn group_with_alternatives() {
    assert_eq!(
        parse_pattern("(cat|dog)"),
        Ok(vec![node(PatternKind::AlternateGroups(
            0,
            vec![
                vec![lit('c'), lit('a'), lit('t')],
                vec![lit('d'), lit('o'), lit('g')],
            ],
        ))])
    );
}

#[test]
fn group_with_empty_alternatives() {
    assert_eq!(
        parse_pattern("()"),
        Ok(vec![node(PatternKind::AlternateGroups(0, vec![vec![]]))])
    );
    assert_eq!(
        parse_pattern("(a|)"),
        Ok(vec![node(PatternKind::AlternateGroups(0, vec![vec![lit('a')], vec![]]))])
    );
}

#[test]
fn group_with_quantifier() {
    assert_eq!(
        parse_pattern("(ab)*c"),
        Ok(vec![
            quantified(
                PatternKind::AlternateGroups(0, vec![vec![lit('a'), lit('b')]]),
                Modifier::ZeroOrMore,
            ),
            lit('c'),
        ])
    );
}

#[test]
fn unterminated_group_runs_to_the_end() {
    assert_eq!(
        parse_pattern("(a|b"),
        Ok(vec![node(PatternKind::AlternateGroups(0, vec![vec![lit('a')], vec![lit('b')]]))])
    );
}

#[test]
fn group_ids_follow_the_order_of_opening() {
    let inner_a = node(PatternKind::AlternateGroups(1, vec![vec![lit('a')]]));
    let inner_b = node(PatternKind::AlternateGroups(2, vec![vec![lit('b')]]));
    let outer = node(PatternKind::AlternateGroups(0, vec![vec![inner_a, inner_b]]));
    let last = node(PatternKind::AlternateGroups(3, vec![vec![lit('c')]]));
    assert_eq!(parse_pattern("((a)(b))(c)"), Ok(vec![outer, last]));
}

#[test]
fn nested_alternation_splits_only_at_the_outer_level() {
    let inner = node(PatternKind::AlternateGroups(1, vec![vec![lit('b')], vec![lit('c')]]));
    assert_eq!(
        parse_pattern("(a(b|c)|d)"),
        Ok(vec![node(PatternKind::AlternateGroups(
            0,
            vec![vec![lit('a'), inner], vec![lit('d')]],
        ))])
    );
}

#[test]
fn group_inside_a_class_is_numbered_too() {
    let in_class = node(PatternKind::AlternateGroups(0, vec![vec![lit('a')]]));
    let behind = node(PatternKind::AlternateGroups(1, vec![vec![lit('b')]]));
    assert_eq!(
        parse_pattern("[(a)](b)"),
        Ok(vec![node(PatternKind::Alternatives(vec![in_class])), behind])
    );
}

#[test]
fn every_compilation_numbers_from_zero() {
    let first = parse_pattern("(a)(b)");
    let second = parse_pattern("(a)(b)");
    assert_eq!(first, second);
    assert_eq!(
        second,
        Ok(vec![
            node(PatternKind::AlternateGroups(0, vec![vec![lit('a')]])),
            node(PatternKind::AlternateGroups(1, vec![vec![lit('b')]])),
        ])
    );
}

#[test]
fn unknown_escape_is_an_error() {
    assert_eq!(parse_pattern("a\\xb"), Err(CompileError::UnknownEscape('x')));
    assert_eq!(parse_pattern("\\("), Err(CompileError::UnknownEscape('(')));
}

#[test]
fn dangling_escape_is_an_error() {
    assert_eq!(parse_pattern("ab\\"), Err(CompileError::DanglingEscape));
}

#[test]
fn class_opened_at_the_end_is_an_error() {
    assert_eq!(parse_pattern("ab["), Err(CompileError::UnclosedClass));
}

#[test]
fn error_inside_a_group_or_class_comes_out() {
    assert_eq!(parse_pattern("(a|\\q)"), Err(CompileError::UnknownEscape('q')));
    assert_eq!(parse_pattern("[a\\]"), Err(CompileError::DanglingEscape));
}

#[test]
fn non_ascii_characters_are_literals() {
    assert_eq!(parse_pattern("é+ü"), Ok(vec![
        quantified(PatternKind::Literal('é'), Modifier::OneOrMore),
        lit('ü'),
    ]));
}
