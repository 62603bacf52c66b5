use codecrafters_grep::matcher::MatchError;
use codecrafters_grep::parse::Parser;
use codecrafters_grep::parse::PatternError;
use codecrafters_grep::parse::QuantifierType;
use codecrafters_grep::pattern::Atom;
use codecrafters_grep::pattern::Pattern;

fn matches(input: &str, pattern: &str) -> bool {
    Parser::match_pattern(input, pattern)
}

#[test]
fn plain_pattern_is_a_substring_search() {
    assert!(matches("a needle in a haystack", "needle"));
    assert!(matches("needle", "needle"));
    assert!(!matches("a needl in a haystack", "needle"));
    assert!(!matches("ne", "needle"));
    assert!(matches("naïve café", "ïve caf"));
}

#[test]
fn empty_pattern_matches_everything() {
    assert!(matches("", ""));
    assert!(matches("anything at all", ""));
}

#[test]
fn empty_input_matches_only_anchors() {
    assert!(matches("", "^"));
    assert!(matches("", "$"));
    assert!(matches("", "^$"));
    assert!(!matches("", "a"));
    assert!(!matches("", "."));
    assert!(!matches("", "[abc]"));
    assert!(!matches("", "\\d"));
}

#[test]
fn anchors_pin_the_ends() {
    assert!(matches("hello world", "^hello"));
    assert!(!matches("say hello", "^hello"));
    assert!(matches("say hello", "hello$"));
    assert!(!matches("hello world", "hello$"));
    assert!(matches("abc", "^abc$"));
    assert!(!matches("abcabc", "^abc$"));
}

#[test]
fn greedy_quantifiers() {
    assert!(matches("caaat", "ca*t"));
    assert!(matches("ct", "ca*t"));
    assert!(matches("cat", "ca+t"));
    assert!(!matches("ca", "ca+t"));
}

#[test]
fn character_classes() {
    assert!(matches("d", "[^abc]"));
    assert!(!matches("a", "[^abc]"));
    assert!(matches("3 apples", "[0123] apples"));
    assert!(!matches("x", "[]"));
    assert!(matches("x", "[^]"));
}

#[test]
fn alternation_in_groups() {
    assert!(matches("cat", "(cat|dog)"));
    assert!(!matches("bird", "(cat|dog)"));
}

#[test]
fn alternation_at_top_level() {
    assert!(matches("a dog", "cat|dog"));
    assert!(matches("a cat", "cat|dog"));
    assert!(!matches("a cow", "cat|dog"));
    assert!(matches("xyz", "^x|^q"));
    assert!(!matches("zyx", "^x|^q"));
}

#[test]
fn backreferences() {
    assert!(matches("cat and cat", "(cat) and \\1"));
    assert!(!matches("cat and dog", "(cat) and \\1"));
    assert!(matches(
        "3 red squares and 3 red circles",
        "(\\d+) (\\w+) squares and \\1 \\2 circles"
    ));
}

#[test]
fn nested_groups_are_numbered_by_opening_parenthesis() {
    assert!(matches("ab 12 = ab 12 / ab 12", "((\\w+) (\\d+)) = \\2 \\3 / \\1"));
    assert!(!matches("ab 12 = 12 ab / ab 12", "((\\w+) (\\d+)) = \\2 \\3 / \\1"));
    let p = Pattern::compile("((a)(b))").unwrap();
    assert_eq!(p.groups, 3);
    match &p.branches[0][0].atom {
        Atom::Group(outer, 1) => match (&outer[0][0].atom, &outer[0][1].atom) {
            (Atom::Group(_, 2), Atom::Group(_, 3)) => {},
            _ => panic!("inner groups numbered out of order"),
        },
        _ => panic!("outer group is not group 1"),
    }
}

#[test]
fn backreference_to_a_group_that_did_not_match() {
    assert!(!matches("b", "(a)?b\\1"));
    assert!(matches("b", "(a)?b"));
}

#[test]
fn same_call_same_result() {
    for (input, pattern) in [("cat and cat", "(\\w+) and \\1"), ("ct", "ca+t"), ("", "^$")] {
        let first = Parser::try_match(input, pattern);
        let second = Parser::try_match(input, pattern);
        assert_eq!(first, second);
    }
}

#[test]
fn malformed_patterns_are_reported() {
    assert_eq!(Parser::try_match("abc", "[abc"), Err(PatternError::UnterminatedClass));
    assert_eq!(Parser::try_match("abc", "(abc"), Err(PatternError::UnterminatedGroup));
    assert_eq!(Parser::try_match("abc", "abc\\"), Err(PatternError::DanglingEscape));
    assert_eq!(Parser::try_match("abc", "a{3"), Err(PatternError::MalformedRepetition));
    assert_eq!(Parser::try_match("abc", "a{x}"), Err(PatternError::MalformedRepetition));
    assert_eq!(Parser::try_match("abc", "a{,3}"), Err(PatternError::MalformedRepetition));
    assert_eq!(Parser::try_match("abc", "a{1,2,3}"), Err(PatternError::MalformedRepetition));
    assert_eq!(Parser::try_match("abc", "a{99999999999}"), Err(PatternError::MalformedRepetition));
    assert_eq!(Parser::try_match("abc", "\\1"), Err(PatternError::UndefinedGroupReference));
    assert_eq!(Parser::try_match("abc", "(a)\\2"), Err(PatternError::UndefinedGroupReference));
    assert_eq!(Parser::try_match("abc", "\\0"), Err(PatternError::UndefinedGroupReference));
    assert_eq!(Parser::try_match("abc", "(a|[b)"), Err(PatternError::UnterminatedClass));
}

#[test]
fn first_fault_in_text_order_is_reported() {
    assert_eq!(Parser::try_match("", "[a(b"), Err(PatternError::UnterminatedClass));
    assert_eq!(Parser::try_match("", "(a\\)"), Err(PatternError::DanglingEscape));
    assert_eq!(Parser::try_match("", "(a(b)[c"), Err(PatternError::UnterminatedGroup));
}

#[test]
fn find_reports_where_the_first_match_starts_and_ends() {
    assert_eq!(Parser::find("xxabcxx", "abc"), Ok(Some((2, 5))));
    assert_eq!(Parser::find("xcaaatx", "ca*t"), Ok(Some((1, 6))));
    assert_eq!(Parser::find("abc", "x"), Ok(None));
    assert_eq!(Parser::find("abc", ""), Ok(Some((0, 0))));
    assert_eq!(Parser::find("aaa", "a+"), Ok(Some((0, 3))));
    assert_eq!(Parser::find("ab", "a?"), Ok(Some((0, 1))));
    assert_eq!(Parser::find("héllo", "l+o"), Ok(Some((2, 5))));
}

#[test]
fn leading_quantifier_repeats_nothing() {
    assert!(matches("x", "?"));
    assert!(matches("x", "*"));
    assert!(matches("", "+"));
}

#[test]
fn exact_repetition() {
    assert!(matches("caaat", "ca{3}t"));
    assert!(!matches("caat", "ca{3}t"));
    assert!(!matches("caaaat", "ca{3}t"));
    assert!(matches("d42g", "d\\d{2}g"));
    assert!(!matches("d1g", "d\\d{2}g"));
    assert!(!matches("d123g", "d\\d{2}g"));
    assert!(matches("czyxzw", "c[xyz]{4}w"));
    assert!(!matches("cxyzw", "c[xyz]{4}w"));
}

#[test]
fn open_repetition() {
    assert!(matches("caat", "ca{2,}t"));
    assert!(matches("caaaaat", "ca{2,}t"));
    assert!(!matches("cat", "ca{2,}t"));
    assert!(matches("x9999y", "x\\d{3,}y"));
    assert!(!matches("x42y", "x\\d{3,}y"));
    assert!(matches("baeiour", "b[aeiou]{2,}r"));
    assert!(!matches("bar", "b[aeiou]{2,}r"));
}

#[test]
fn bounded_repetition() {
    assert!(matches("caat", "ca{2,4}t"));
    assert!(matches("caaat", "ca{2,4}t"));
    assert!(matches("caaaat", "ca{2,4}t"));
    assert!(!matches("caaaaat", "ca{2,4}t"));
    assert!(matches("n123m", "n\\d{1,3}m"));
    assert!(!matches("n1234m", "n\\d{1,3}m"));
    assert!(matches("pzzzq", "p[xyz]{2,3}q"));
    assert!(!matches("pxq", "p[xyz]{2,3}q"));
    assert!(!matches("pxyzyq", "p[xyz]{2,3}q"));
    assert!(matches("abab", "^(ab){2}$"));
    assert!(!matches("ababab", "^(ab){2}$"));
}

#[test]
fn quantified_group_captures_its_last_repetition() {
    assert!(matches("abcc", "^(a|b|c)+\\1$"));
    assert!(!matches("abca", "^(a|b|c)+\\1$"));
}

#[test]
fn repeated_empty_group_ends() {
    assert!(matches("b", "(a*)*b"));
    assert!(matches("aab", "^(a*)+b$"));
    assert!(!matches("aac", "^(a*)+b$"));
}

#[test]
fn word_class_is_ascii() {
    assert!(matches("x_1", "^\\w\\w\\w$"));
    assert!(!matches("é", "\\w"));
    assert!(matches("é", "."));
}

#[test]
fn escaped_metacharacters_are_literals() {
    assert!(matches("a.b", "a\\.b"));
    assert!(!matches("axb", "a\\.b"));
    assert!(matches("1+1", "1\\+1"));
    assert!(matches("(x)", "\\(x\\)"));
    assert!(matches("a\\b", "a\\\\b"));
}

#[test]
fn quantifier_binds_to_last_character_of_a_literal() {
    let mut p = Parser::new("abc+");
    assert_eq!(p.parse_literal(), Some("ab".to_string()));
    assert_eq!(p.parse_literal(), Some("c".to_string()));
    assert_eq!(p.parse_quantifier(), Ok(Some(QuantifierType::Plus)));
    assert!(matches("abccc", "^abc+$"));
    assert!(!matches("ababc", "^abc+$"));
}

#[test]
fn next_and_peek() {
    let mut p = Parser::new("ab");
    assert_eq!(p.peek(), Some('a'));
    assert_eq!(p.next(), Some('a'));
    assert_eq!(p.next(), Some('b'));
    assert_eq!(p.next(), None);
    assert_eq!(p.peek(), None);
}

#[test]
fn split_keeps_empty_alternatives() {
    assert_eq!(Parser::split_alternatives("(a|)"), vec!["a", ""]);
    assert_eq!(Parser::split_alternatives("()"), vec![""]);
    assert_eq!(Parser::split_alternatives("(|b)"), vec!["", "b"]);
}

#[test]
fn parse_parentheses_tells_plain_groups() {
    let mut p = Parser::new("(ab(c|d))x");
    assert_eq!(p.parse_parentheses(), Ok(Some(("(ab(c|d))".to_string(), true))));
    assert_eq!(p.peek(), Some('x'));
}

#[test]
fn parse_quantifier_reports_bad_braces() {
    let mut p = Parser::new("{2,x}");
    assert_eq!(p.parse_quantifier(), Err(PatternError::MalformedRepetition));
    let mut q = Parser::new("{4");
    assert_eq!(q.parse_quantifier(), Err(PatternError::MalformedRepetition));
}

#[test]
fn compile_keeps_literal_runs_whole() {
    let p = Pattern::compile("hello").unwrap();
    assert_eq!(p.groups, 0);
    assert_eq!(p.branches.len(), 1);
    assert_eq!(p.branches[0].len(), 1);
    match &p.branches[0][0].atom {
        Atom::Literal(t) => assert_eq!(t.iter().collect::<String>(), "hello"),
        _ => panic!("not a literal"),
    }
}

#[test]
fn match_at_and_find_in() {
    let p = Pattern::compile("b+").unwrap();
    let input: Vec<char> = "abbbc".chars().collect();
    assert_eq!(p.match_at(&input, 0), None);
    assert_eq!(p.match_at(&input, 1), Some(4));
    assert_eq!(p.match_at(&input, 2), Some(4));
    assert_eq!(p.find_in(&input), Some((1, 4)));
}

#[test]
fn step_allowance_bounds_the_search() {
    assert_eq!(Parser::find_within("aaa", "a+", 1000), Ok(Some((0, 3))));
    assert_eq!(Parser::find_within("abc", "x", 1000), Ok(None));
    assert_eq!(Parser::find_within("aaa", "a+", 1), Err(MatchError::BacktrackLimitExceeded));
    assert_eq!(Parser::find_within("", "", 0), Err(MatchError::BacktrackLimitExceeded));
    assert_eq!(
        Parser::find_within("x", "[a", 10),
        Err(MatchError::Pattern(PatternError::UnterminatedClass))
    );
}

#[test]
fn step_allowance_stops_runaway_backtracking() {
    let input = "a".repeat(30) + "b";
    assert_eq!(
        Parser::find_within(&input, "^(a|a)*c", 100_000),
        Err(MatchError::BacktrackLimitExceeded)
    );
    let p = Pattern::compile("^(a|a)*b").unwrap();
    let chars: Vec<char> = input.chars().collect();
    assert_eq!(p.find_within(&chars, 100_000), Ok(Some((0, 31))));
}
