use mini_regex::chars::{char_count, digit_of, is_digit_char, is_word_char, skip_chars, slice_chars};
use mini_regex::{
    find_match_start, match_all_subpatterns, match_compiled, match_pattern, match_pattern_in,
    match_subpattern, match_subpattern_kind, parse_pattern, Captures, CompileError, MatchError,
    Modifier, PatternKind, SubPattern, BACKREF_DEPTH,
};

fn found(start: usize, end: usize) -> Result<Option<(usize, usize)>, MatchError> {
    Ok(Some((start, end)))
}

fn lit(c: char) -> SubPattern {
    SubPattern { kind: PatternKind::Literal(c), modifier: None }
}

#[test]
fn digits_in_the_middle() {
    assert_eq!(match_pattern("abc123xyz", "\\d+", false), found(3, 6));
}

#[test]
fn anchored_at_both_ends() {
    assert_eq!(match_pattern("abc", "^abc$", false), found(0, 3));
    assert_eq!(match_pattern("xabc", "^abc$", false), Ok(None));
    assert_eq!(match_pattern("abcx", "^abc$", false), Ok(None));
}

#[test]
fn negated_class_on_one_character() {
    assert_eq!(match_pattern("d", "[^abc]", false), found(0, 1));
    assert_eq!(match_pattern("a", "[^abc]", false), Ok(None));
}

#[test]
fn backreference_repeats_the_captured_alternative() {
    assert_eq!(match_pattern("cat and cat", "(cat|dog) and \\1", false), found(0, 11));
    assert_eq!(match_pattern("dog and dog", "(cat|dog) and \\1", false), found(0, 11));
    assert_eq!(match_pattern("cat and dog", "(cat|dog) and \\1", false), Ok(None));
}

#[test]
fn optional_node() {
    assert_eq!(match_pattern("b", "a?b", false), found(0, 1));
    assert_eq!(match_pattern("ab", "a?b", false), found(0, 2));
    assert_eq!(match_pattern("c", "a?b", false), Ok(None));
}

#[test]
fn empty_pattern_matches_at_the_start() {
    assert_eq!(match_pattern("anything", "", false), found(0, 0));
    assert_eq!(match_pattern("", "", false), found(0, 0));
    assert_eq!(match_pattern("", "", true), found(0, 0));
    assert_eq!(match_pattern("anything", "", true), found(0, 0));
}

#[test]
fn plain_pattern_finds_its_first_occurrence() {
    assert_eq!(match_pattern("say hello, hello", "hello", false), found(4, 9));
    assert_eq!(match_pattern("hello", "hello", false), found(0, 5));
    assert_eq!(match_pattern("hell", "hello", false), Ok(None));
    assert_eq!(match_pattern("", "a", false), Ok(None));
    assert_eq!(match_pattern("x)y", ")", false), found(1, 2));
}

#[test]
fn plain_pattern_is_tried_only_at_the_first_place_of_its_first_character() {
    assert_eq!(match_pattern("aab", "ab", false), Ok(None));
    assert_eq!(match_pattern("xab", "ab", false), found(1, 3));
}

#[test]
fn compiling_twice_matches_alike() {
    let once = parse_pattern("(a|b)+c\\1").unwrap();
    let again = parse_pattern("(a|b)+c\\1").unwrap();
    assert_eq!(once, again);
    let mut first = Captures::new();
    let mut second = Captures::new();
    let a = match_compiled("xabca", &once, false, &mut first, BACKREF_DEPTH);
    let b = match_compiled("xabca", &again, false, &mut second, BACKREF_DEPTH);
    assert_eq!(a, b);
    assert_eq!(a, match_pattern("xabca", "(a|b)+c\\1", false));
    assert_eq!(first.get(0), second.get(0));
}

#[test]
fn offsets_count_characters() {
    assert_eq!(match_pattern("héllo wörld", "wörld", false), found(6, 11));
    assert_eq!(match_pattern("ééé1", "\\d", false), found(3, 4));
}

#[test]
fn any_needs_a_character() {
    assert_eq!(match_pattern("ab", "a.", false), found(0, 2));
    assert_eq!(match_pattern("a", "a.", false), Ok(None));
}

#[test]
fn word_characters() {
    assert_eq!(match_pattern("-_-", "\\w", false), found(1, 2));
    assert_eq!(match_pattern("+é+", "\\w", false), found(1, 2));
    assert_eq!(match_pattern("a1_", "^\\w+$", false), found(0, 3));
    assert_eq!(match_pattern("-+ ", "\\w", false), Ok(None));
}

#[test]
fn word_character_classification() {
    assert!(is_word_char('a'));
    assert!(is_word_char('Z'));
    assert!(is_word_char('7'));
    assert!(is_word_char('_'));
    assert!(is_word_char('é'));
    assert!(!is_word_char('-'));
    assert!(!is_word_char(' '));
}

#[test]
fn decimal_digits() {
    assert!(is_digit_char('0'));
    assert!(is_digit_char('9'));
    assert!(!is_digit_char('a'));
    assert!(!is_digit_char('/'));
    assert!(!is_digit_char(':'));
    assert!(!is_digit_char('٣'));
    assert_eq!(digit_of('0'), 0);
    assert_eq!(digit_of('7'), 7);
}

#[test]
fn text_helpers_count_characters() {
    assert_eq!(char_count("héllo"), 5);
    assert_eq!(skip_chars("héllo", 2), "llo");
    assert_eq!(slice_chars("héllo", 1, 3), "él");
    assert_eq!(skip_chars("abc", 3), "");
}

#[test]
fn class_matches_any_member() {
    assert_eq!(match_pattern("xyz", "[zy]", false), found(1, 2));
    assert_eq!(match_pattern("xyz", "[ab]", false), Ok(None));
}

#[test]
fn negated_class_needs_a_character() {
    assert_eq!(match_pattern("a", "a[^b]", false), Ok(None));
    assert_eq!(match_pattern("ac", "a[^b]", false), found(0, 2));
    assert_eq!(match_pattern("ab", "a[^b]", false), Ok(None));
}

#[test]
fn end_anchor() {
    assert_eq!(match_pattern("abc", "c$", false), found(2, 3));
    assert_eq!(match_pattern("abcd", "c$", false), Ok(None));
}

#[test]
fn the_search_probes_no_offset_of_an_empty_input() {
    assert_eq!(match_pattern("", "a*", false), Ok(None));
    assert_eq!(match_pattern("", "$", false), Ok(None));
    assert_eq!(match_pattern("", "^a*", false), found(0, 0));
    assert_eq!(match_pattern("", "^$", false), found(0, 0));
}

#[test]
fn start_anchor_alone() {
    assert_eq!(match_pattern("abc", "^", false), found(0, 0));
}

#[test]
fn greedy_repetition() {
    assert_eq!(match_pattern("abbbc", "ab+c", false), found(0, 5));
    assert_eq!(match_pattern("ac", "ab+c", false), Ok(None));
    assert_eq!(match_pattern("ac", "ab*c", false), found(0, 2));
    assert_eq!(match_pattern("caaat", "ca+t", false), found(0, 5));
}

#[test]
fn zero_or_more_matches_nothing_at_the_first_offset() {
    assert_eq!(match_pattern("bbb", "a*", false), found(0, 0));
    assert_eq!(match_pattern("baaa", "a*", false), found(0, 0));
    assert_eq!(match_pattern("baaa", "a+", false), found(1, 4));
}

#[test]
fn a_star_gives_back_from_where_it_began() {
    assert_eq!(match_pattern("abcabc", "a.*c", false), found(0, 3));
}

#[test]
fn a_plus_gives_back_one_character_behind_where_it_began() {
    assert_eq!(match_pattern("xabcd", "x\\w+d", false), found(0, 5));
}

#[test]
fn a_group_gives_back_too() {
    assert_eq!(match_pattern("xabyc", "x(ab)c", false), found(0, 5));
}

#[test]
fn only_the_node_directly_before_gives_back() {
    assert_eq!(match_pattern("xaab", "xa*ab", false), Ok(None));
    assert_eq!(match_pattern("aab", "a*ab", false), Ok(None));
}

#[test]
fn giving_back_beyond_the_end_of_the_input_fails() {
    assert_eq!(match_pattern("a", "a()c", false), Ok(None));
}

#[test]
fn repetition_of_a_node_that_consumes_nothing_ends() {
    assert_eq!(match_pattern("b", "(a?)*b", false), found(0, 1));
    assert_eq!(match_pattern("aab", "(a?)*b", false), found(0, 3));
    assert_eq!(match_pattern("b", "(a?)+b", false), Ok(None));
    assert_eq!(match_pattern("b", "[a?]*b", false), found(0, 1));
}

#[test]
fn one_or_more_must_consume() {
    assert_eq!(match_pattern("", "^$+", false), Ok(None));
    assert_eq!(match_pattern("", "^$*", false), found(0, 0));
}

#[test]
fn group_takes_the_first_alternative_that_matches() {
    assert_eq!(match_pattern("abc", "(a|ab)c", false), Ok(None));
    assert_eq!(match_pattern("abc", "(ab|a)c", false), found(0, 3));
}

#[test]
fn nested_groups_and_backreferences() {
    assert_eq!(
        match_pattern("grep 101 is doing grep 101 times", "((\\w\\w\\w\\w) (\\d\\d\\d)) is doing \\2 \\3 times", false),
        found(0, 32)
    );
    assert_eq!(match_pattern("abab", "(a(b))\\1", false), found(0, 4));
    assert_eq!(match_pattern("abb", "(a(b))\\2", false), found(0, 3));
}

#[test]
fn backreference_to_a_group_without_capture_fails() {
    assert_eq!(match_pattern("aa", "a\\1", false), Ok(None));
    assert_eq!(match_pattern("aa", "(a)\\0", false), Ok(None));
    assert_eq!(match_pattern("aa", "(a)\\2", false), Ok(None));
}

#[test]
fn backreference_reads_the_capture_as_a_pattern() {
    assert_eq!(match_pattern("a.c abc", "(a.c) \\1", false), found(0, 7));
    assert_eq!(match_pattern("a.c abd", "(a.c) \\1", false), Ok(None));
}

#[test]
fn capture_that_does_not_compile_is_an_error() {
    assert_eq!(
        match_pattern("\\q \\q", "(..) \\1", false),
        Err(MatchError::Compile(CompileError::UnknownEscape('q')))
    );
}

#[test]
fn capture_that_refers_to_itself_is_too_deep() {
    assert_eq!(match_pattern("\\1 \\1", "(\\\\1) \\1", false), Err(MatchError::TooDeep));
}

#[test]
fn capture_that_refers_to_another_capture() {
    assert_eq!(match_pattern("a\\1a", "(a)(..)\\2", false), found(0, 4));
}

#[test]
fn backreference_without_allowance_is_too_deep() {
    let mut captures = Captures::new();
    captures.record(0, "ab");
    assert_eq!(
        match_subpattern_kind("abab", &PatternKind::BackRef(1), &mut captures, 0),
        Err(MatchError::TooDeep)
    );
    assert_eq!(
        match_subpattern_kind("abab", &PatternKind::BackRef(1), &mut captures, 1),
        Ok(Some(2))
    );
    assert_eq!(
        match_subpattern_kind("abab", &PatternKind::BackRef(2), &mut captures, 0),
        Ok(None)
    );
}

#[test]
fn pattern_that_does_not_compile_is_an_error() {
    assert_eq!(
        match_pattern("abc", "a\\x", false),
        Err(MatchError::Compile(CompileError::UnknownEscape('x')))
    );
    assert_eq!(
        match_pattern("abc", "abc\\", false),
        Err(MatchError::Compile(CompileError::DanglingEscape))
    );
    assert_eq!(
        match_pattern("abc", "[", false),
        Err(MatchError::Compile(CompileError::UnclosedClass))
    );
}

#[test]
fn start_anchor_in_the_middle_is_an_error_once_reached() {
    assert_eq!(match_pattern("ab", "a^b", false), Err(MatchError::MisplacedStart));
    assert_eq!(match_pattern("xy", "a^b", false), Ok(None));
    assert_eq!(match_pattern("ab", "^ab", true), Err(MatchError::MisplacedStart));
    assert_eq!(match_pattern("ab", "[a^]", false), found(0, 1));
    assert_eq!(match_pattern("b", "[a^]", false), Err(MatchError::MisplacedStart));
}

#[test]
fn forced_start() {
    assert_eq!(match_pattern("abc", "abc", true), found(0, 3));
    assert_eq!(match_pattern("xabc", "abc", true), Ok(None));
    assert_eq!(match_pattern("abc", "b*", true), found(0, 0));
    assert_eq!(match_pattern("", "a*", true), found(0, 0));
}

#[test]
fn forced_start_gives_back_from_the_first_node() {
    assert_eq!(match_pattern("aa", "a*a", true), found(0, 1));
    assert_eq!(match_pattern("aa", "a*a", false), Ok(None));
    assert_eq!(match_pattern("aab", "a*ab", true), Ok(None));
}

#[test]
fn first_capture_of_a_group_stays() {
    let mut captures = Captures::new();
    assert_eq!(
        match_pattern_in("dogs and cats", "(cat|dog)s", false, &mut captures, BACKREF_DEPTH),
        found(0, 4)
    );
    assert_eq!(captures.get(0).map(|s| s.as_str()), Some("dog"));
    assert_eq!(captures.get(1), None);
    assert_eq!(
        match_pattern_in("cats", "(cat|dog)s", false, &mut captures, BACKREF_DEPTH),
        found(0, 4)
    );
    assert_eq!(captures.get(0).map(|s| s.as_str()), Some("dog"));
}

#[test]
fn every_top_level_match_starts_without_captures() {
    assert_eq!(match_pattern("aa", "(a)\\1", false), found(0, 2));
    assert_eq!(match_pattern("aa", "a\\1", false), Ok(None));
}

#[test]
fn record_keeps_the_first_text() {
    let mut captures = Captures::new();
    assert_eq!(captures.get(3), None);
    captures.record(3, "one");
    captures.record(3, "two");
    captures.record(4, "");
    assert_eq!(captures.get(3).map(|s| s.as_str()), Some("one"));
    assert_eq!(captures.get(4).map(|s| s.as_str()), Some(""));
}

#[test]
fn group_that_fails_inside_a_negated_class_still_captures() {
    let mut captures = Captures::new();
    assert_eq!(
        match_pattern_in("ab", "[^(a)]", false, &mut captures, BACKREF_DEPTH),
        found(1, 2)
    );
    assert_eq!(captures.get(0).map(|s| s.as_str()), Some("a"));
}

#[test]
fn kinds_one_by_one() {
    let mut captures = Captures::new();
    assert_eq!(match_subpattern_kind("", &PatternKind::InputEnd, &mut captures, 1), Ok(Some(0)));
    assert_eq!(match_subpattern_kind("a", &PatternKind::InputEnd, &mut captures, 1), Ok(None));
    assert_eq!(match_subpattern_kind("a", &PatternKind::Any, &mut captures, 1), Ok(Some(1)));
    assert_eq!(match_subpattern_kind("", &PatternKind::Any, &mut captures, 1), Ok(None));
    assert_eq!(match_subpattern_kind("ab", &PatternKind::Literal('a'), &mut captures, 1), Ok(Some(1)));
    assert_eq!(match_subpattern_kind("ba", &PatternKind::Literal('a'), &mut captures, 1), Ok(None));
    assert_eq!(match_subpattern_kind("", &PatternKind::Literal('a'), &mut captures, 1), Ok(None));
    assert_eq!(match_subpattern_kind("5", &PatternKind::Digit, &mut captures, 1), Ok(Some(1)));
    assert_eq!(match_subpattern_kind("x", &PatternKind::Digit, &mut captures, 1), Ok(None));
    assert_eq!(match_subpattern_kind("x", &PatternKind::AlphaNumeric, &mut captures, 1), Ok(Some(1)));
    assert_eq!(match_subpattern_kind("_", &PatternKind::AlphaNumeric, &mut captures, 1), Ok(Some(1)));
    assert_eq!(match_subpattern_kind("?", &PatternKind::AlphaNumeric, &mut captures, 1), Ok(None));
    assert_eq!(
        match_subpattern_kind("a", &PatternKind::InputStart, &mut captures, 1),
        Err(MatchError::MisplacedStart)
    );
    assert_eq!(
        match_subpattern_kind("", &PatternKind::NotAlternatives(vec![lit('a')]), &mut captures, 1),
        Ok(None)
    );
    assert_eq!(
        match_subpattern_kind("b", &PatternKind::NotAlternatives(vec![]), &mut captures, 1),
        Ok(Some(1))
    );
    assert_eq!(
        match_subpattern_kind("b", &PatternKind::Alternatives(vec![]), &mut captures, 1),
        Ok(None)
    );
}

#[test]
fn group_kind_captures_the_matched_text() {
    let mut captures = Captures::new();
    let group = PatternKind::AlternateGroups(5, vec![vec![lit('x')], vec![lit('a'), lit('b')]]);
    assert_eq!(match_subpattern_kind("abc", &group, &mut captures, 1), Ok(Some(2)));
    assert_eq!(captures.get(5).map(|s| s.as_str()), Some("ab"));
    assert_eq!(match_subpattern_kind("xbc", &group, &mut captures, 1), Ok(Some(1)));
    assert_eq!(captures.get(5).map(|s| s.as_str()), Some("ab"));
    assert_eq!(match_subpattern_kind("zzz", &group, &mut captures, 1), Ok(None));
}

#[test]
fn node_with_each_modifier() {
    let mut captures = Captures::new();
    let plain = lit('a');
    let optional = SubPattern { kind: PatternKind::Literal('a'), modifier: Some(Modifier::ZeroOrOne) };
    let star = SubPattern { kind: PatternKind::Literal('a'), modifier: Some(Modifier::ZeroOrMore) };
    let plus = SubPattern { kind: PatternKind::Literal('a'), modifier: Some(Modifier::OneOrMore) };
    assert_eq!(match_subpattern("aab", &plain, &mut captures, 1), Ok(Some(1)));
    assert_eq!(match_subpattern("b", &plain, &mut captures, 1), Ok(None));
    assert_eq!(match_subpattern("aab", &optional, &mut captures, 1), Ok(Some(1)));
    assert_eq!(match_subpattern("b", &optional, &mut captures, 1), Ok(Some(0)));
    assert_eq!(match_subpattern("aab", &star, &mut captures, 1), Ok(Some(2)));
    assert_eq!(match_subpattern("b", &star, &mut captures, 1), Ok(Some(0)));
    assert_eq!(match_subpattern("", &star, &mut captures, 1), Ok(Some(0)));
    assert_eq!(match_subpattern("aaa", &star, &mut captures, 1), Ok(Some(3)));
    assert_eq!(match_subpattern("aab", &plus, &mut captures, 1), Ok(Some(2)));
    assert_eq!(match_subpattern("b", &plus, &mut captures, 1), Ok(None));
}

#[test]
fn find_start_reports_the_rest_and_the_offset() {
    let mut captures = Captures::new();
    let plus = SubPattern { kind: PatternKind::Digit, modifier: Some(Modifier::OneOrMore) };
    assert_eq!(find_match_start("ab12cd", &plus, &mut captures, 1), Ok(Some(("cd", 2))));
    assert_eq!(find_match_start("abcd", &plus, &mut captures, 1), Ok(None));
    assert_eq!(find_match_start("", &plus, &mut captures, 1), Ok(None));
    let end = SubPattern { kind: PatternKind::InputEnd, modifier: None };
    assert_eq!(find_match_start("ab", &end, &mut captures, 1), Ok(None));
}

#[test]
fn sequence_without_retry() {
    let mut captures = Captures::new();
    let star = SubPattern { kind: PatternKind::Literal('a'), modifier: Some(Modifier::ZeroOrMore) };
    assert_eq!(match_all_subpatterns("abc", &[lit('a'), lit('b')], &mut captures, 1), Ok(Some(2)));
    assert_eq!(match_all_subpatterns("abc", &[], &mut captures, 1), Ok(Some(0)));
    assert_eq!(match_all_subpatterns("xabc", &[lit('a')], &mut captures, 1), Ok(None));
    assert_eq!(match_all_subpatterns("aab", &[star, lit('a'), lit('b')], &mut captures, 1), Ok(None));
}

#[test]
fn compiled_nodes_match_as_their_pattern() {
    let nodes = parse_pattern("^a\\d").unwrap();
    let mut captures = Captures::new();
    assert_eq!(match_compiled("a1", &nodes, false, &mut captures, 1), found(0, 2));
    assert_eq!(match_compiled("xa1", &nodes, false, &mut captures, 1), Ok(None));
    assert_eq!(match_compiled("a1", &[], true, &mut captures, 1), found(0, 0));
}

#[test]
fn larger_allowance_gives_the_same_answer() {
    for depth in [1usize, 2, 3, BACKREF_DEPTH, 1000] {
        let mut captures = Captures::new();
        assert_eq!(
            match_pattern_in("cat and cat", "(cat|dog) and \\1", false, &mut captures, depth),
            found(0, 11)
        );
        assert_eq!(captures.get(0).map(|s| s.as_str()), Some("cat"));
        let mut nested = Captures::new();
        assert_eq!(
            match_pattern_in("a\\1a", "(a)(..)\\2", false, &mut nested, depth + 1),
            found(0, 4)
        );
    }
    let mut captures = Captures::new();
    assert_eq!(
        match_pattern_in("cat and cat", "(cat|dog) and \\1", false, &mut captures, 0),
        Err(MatchError::TooDeep)
    );
    let mut nested = Captures::new();
    assert_eq!(
        match_pattern_in("a\\1a", "(a)(..)\\2", false, &mut nested, 1),
        Err(MatchError::TooDeep)
    );
}

#[test]
fn allowance_is_not_used_without_backreferences() {
    let mut captures = Captures::new();
    assert_eq!(match_pattern_in("xaby", "(a|b)+", false, &mut captures, 0), found(1, 3));
}

#[test]
fn spans_lie_inside_the_input() {
    for (input, pattern) in [("abc", "c.*"), ("abc", "[^x]+"), ("", "^x*"), ("aaa", "a+a?")] {
        match match_pattern(input, pattern, false) {
            Ok(Some((start, end))) => {
                assert!(start <= end);
                assert!(end <= input.chars().count());
            }
            other => panic!("{pattern} against {input}: {other:?}"),
        }
    }
}

#[test]
fn quantified_class_and_digits() {
    assert_eq!(match_pattern("sally has 124 apples", "\\d\\d\\d apples", false), found(10, 20));
    assert_eq!(match_pattern("abc", "[abc]+", false), found(0, 3));
    assert_eq!(match_pattern("xyz", "[^abc]+", false), found(0, 3));
    assert_eq!(match_pattern("log", "^l.g$", false), found(0, 3));
}
