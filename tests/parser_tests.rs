use codecrafters_grep::parse::Parser;
use codecrafters_grep::parse::PatternError;
use codecrafters_grep::parse::QuantifierType;

// Tests for parse_literal
#[test]
fn test_parse_literal_basic() {
    let mut parser = Parser::new("hello+world");
    let literal = parser.parse_literal();
    assert_eq!(literal, Some("hell".to_string()));
    assert_eq!(parser.chars.into_iter().collect::<String>(), "o+world");
}

#[test]
fn test_parse_literal_with_special_chars() {
    let mut parser = Parser::new("abc.def");
    let literal = parser.parse_literal();
    assert_eq!(literal, Some("abc".to_string())); // stops before '.'
}

#[test]
fn test_parse_literal_full_literal() {
    let mut parser = Parser::new("simpletext");
    let literal = parser.parse_literal();
    assert_eq!(literal, Some("simpletext".to_string())); // consumes entire input
}

// Tests for parse_dot
#[test]
fn test_parse_dot_when_dot_present() {
    let mut parser = Parser::new(".abc");
    let dot = parser.parse_dot();
    assert_eq!(dot, Some(".".to_string()));
    assert_eq!(parser.chars.into_iter().collect::<String>(), "abc"); // dot consumed
}

#[test]
fn test_parse_dot_when_no_dot() {
    let mut parser = Parser::new("abc");
    let dot = parser.parse_dot();
    assert_eq!(dot, None);
    assert_eq!(parser.chars.into_iter().collect::<String>(), "abc"); // nothing consumed
}

// Tests for parse_slash
#[test]
fn test_parse_slash_digit_escape() {
    let mut parser = Parser::new("\\dabc");
    let slash = parser.parse_slash();
    assert_eq!(slash, Ok(Some("\\d".to_string())));
    assert_eq!(parser.chars.into_iter().collect::<String>(), "abc"); // \d consumed
}

#[test]
fn test_parse_slash_no_backslash() {
    let mut parser = Parser::new("abc");
    let slash = parser.parse_slash();
    assert_eq!(slash, Ok(None));
    assert_eq!(parser.chars.into_iter().collect::<String>(), "abc"); // nothing consumed
}

#[test]
fn test_parse_slash_backslash_at_end() {
    let mut parser = Parser::new("\\");
    assert_eq!(parser.parse_slash(), Err(PatternError::DanglingEscape));
}

// Tests for parse_char_class
#[test]
fn test_parse_char_class_basic() {
    let mut parser = Parser::new("[abc]+");
    let cls = parser.parse_char_class();
    assert_eq!(cls, Ok(Some("[abc]".to_string())));
    assert_eq!(parser.chars.into_iter().collect::<String>(), "+");
}

#[test]
fn test_parse_char_class_negated() {
    let mut parser = Parser::new("[^xyz]end");
    let cls = parser.parse_char_class();
    assert_eq!(cls, Ok(Some("[^xyz]".to_string())));
    assert_eq!(parser.chars.into_iter().collect::<String>(), "end");
}

#[test]
fn test_parse_char_class_unclosed() {
    let mut parser = Parser::new("[abc");
    assert_eq!(parser.parse_char_class(), Err(PatternError::UnterminatedClass));
}

// Tests for parse_quantifier
#[test]
fn test_parse_quantifier_plus() {
    let mut parser = Parser::new("+next");
    let q = parser.parse_quantifier();
    assert_eq!(q, Ok(Some(QuantifierType::Plus)));
    assert_eq!(parser.chars.into_iter().collect::<String>(), "next");
}

#[test]
fn test_parse_quantifier_question() {
    let mut parser = Parser::new("?abc");
    let q = parser.parse_quantifier();
    assert_eq!(q, Ok(Some(QuantifierType::Question)));
    assert_eq!(parser.chars.into_iter().collect::<String>(), "abc");
}

#[test]
fn test_parse_quantifier_star() {
    let mut parser = Parser::new("*bat");
    let q = parser.parse_quantifier();
    assert_eq!(q, Ok(Some(QuantifierType::Star)));
    assert_eq!(parser.chars.into_iter().collect::<String>(), "bat");
}

#[test]
fn test_parse_quantifier_none() {
    let mut parser = Parser::new("abc");
    let q = parser.parse_quantifier();
    assert_eq!(q, Ok(None));
    assert_eq!(parser.chars.into_iter().collect::<String>(), "abc"); // unchanged
}

// Tests for parse_quantifier with {} syntax
#[test]
fn test_parse_quantifier_exact_n() {
    let mut parser = Parser::new("{3}abc");
    let q = parser.parse_quantifier();
    assert_eq!(q, Ok(Some(QuantifierType::Repitition((3, 3)))));
    assert_eq!(parser.chars.into_iter().collect::<String>(), "abc");
}

#[test]
fn test_parse_quantifier_at_least_n() {
    let mut parser = Parser::new("{2,}def");
    let q = parser.parse_quantifier();
    assert_eq!(q, Ok(Some(QuantifierType::Repitition((2, i32::MAX)))));
    assert_eq!(parser.chars.into_iter().collect::<String>(), "def");
}

#[test]
fn test_parse_quantifier_range_n_m() {
    let mut parser = Parser::new("{2,5}ghi");
    let q = parser.parse_quantifier();
    assert_eq!(q, Ok(Some(QuantifierType::Repitition((2, 5)))));
    assert_eq!(parser.chars.into_iter().collect::<String>(), "ghi");
}

// Tests for parse_start_anchor
#[test]
fn test_parse_start_anchor_when_present() {
    let mut parser = Parser::new("^hello");
    let anchor = parser.parse_start_anchor();
    assert_eq!(anchor, Some("^".to_string()));
    assert_eq!(parser.chars.into_iter().collect::<String>(), "hello");
}

#[test]
fn test_parse_start_anchor_when_absent() {
    let mut parser = Parser::new("hello");
    let anchor = parser.parse_start_anchor();
    assert_eq!(anchor, None);
    assert_eq!(parser.chars.into_iter().collect::<String>(), "hello"); // unchanged
}

#[test]
fn test_parse_start_anchor_alone() {
    let mut parser = Parser::new("^");
    let anchor = parser.parse_start_anchor();
    assert_eq!(anchor, Some("^".to_string()));
    assert_eq!(parser.chars.into_iter().collect::<String>(), ""); // consumed entire pattern
}

#[test]
fn test_parse_start_anchor_with_other_specials() {
    let mut parser = Parser::new("^$");
    let anchor = parser.parse_start_anchor();
    assert_eq!(anchor, Some("^".to_string()));
    assert_eq!(parser.peek(), Some('$')); // $ not consumed
}

// Tests for parse_end_anchor
#[test]
fn test_parse_end_anchor_when_present() {
    let mut parser = Parser::new("$");
    let anchor = parser.parse_end_anchor();
    assert_eq!(anchor, Some("$".to_string()));
    assert_eq!(parser.chars.into_iter().collect::<String>(), "");
}

#[test]
fn test_parse_end_anchor_when_absent() {
    let mut parser = Parser::new("world");
    let anchor = parser.parse_end_anchor();
    assert_eq!(anchor, None);
    assert_eq!(parser.chars.into_iter().collect::<String>(), "world"); // unchanged
}

#[test]
fn test_parse_end_anchor_after_pattern() {
    let mut parser = Parser::new("hello$");
    // First consume "hello"
    let literal = parser.parse_literal();
    assert_eq!(literal, Some("hello".to_string()));
    // Now parse the end anchor
    let anchor = parser.parse_end_anchor();
    assert_eq!(anchor, Some("$".to_string()));
    assert_eq!(parser.chars.into_iter().collect::<String>(), ""); // consumed
}

// Tests for parse_parentheses
#[test]
fn test_parse_parentheses_basic() {
    let mut parser = Parser::new("(cat|dog)+");
    let group = parser.parse_parentheses();
    assert_eq!(group, Ok(Some(("(cat|dog)".to_string(), false))));
    assert_eq!(parser.peek(), Some('+'));
}

#[test]
fn test_parse_parentheses_nested() {
    let mut parser = Parser::new("(a|(b|c))end");
    let group = parser.parse_parentheses();
    assert_eq!(group, Ok(Some(("(a|(b|c))".to_string(), false))));
    assert_eq!(parser.peek(), Some('e'));
}

#[test]
fn test_parse_parentheses_unclosed() {
    let mut parser = Parser::new("(abc");
    assert_eq!(parser.parse_parentheses(), Err(PatternError::UnterminatedGroup));
}

// Tests for split_alternatives
#[test]
fn test_split_alternatives_basic() {
    let group = "(cat|dog|mouse)";
    let alts = Parser::split_alternatives(group);
    assert_eq!(alts, vec!["cat", "dog", "mouse"]);
}

#[test]
fn test_split_alternatives_nested() {
    let group = "(a|(b|c)|d)";
    let alts = Parser::split_alternatives(group);
    assert_eq!(alts, vec!["a", "(b|c)", "d"]);
}

#[test]
fn test_match_literal() {
    assert!(Parser::match_pattern("hello", "hello"));
    assert!(!Parser::match_pattern("hello", "world"));
}

#[test]
fn test_simple_literal_match() {
    assert!(Parser::match_pattern("hello world", "hello"));
}

#[test]
fn test_simple_literal_no_match() {
    assert!(!Parser::match_pattern("hello world", "goodbye"));
}

#[test]
fn test_exact_word_match() {
    assert!(Parser::match_pattern("cat", "cat"));
}

#[test]
fn test_partial_word_match() {
    assert!(Parser::match_pattern("category", "cat"));
}

#[test]
fn test_case_sensitive() {
    assert!(!Parser::match_pattern("Cat", "cat"));
}

#[test]
fn test_empty_pattern() {
    assert!(Parser::match_pattern("hello", ""));
}

#[test]
fn test_empty_input() {
    assert!(!Parser::match_pattern("", "hello"));
}

#[test]
fn test_match_dot() {
    assert!(Parser::match_pattern("a", "."));
    assert!(!Parser::match_pattern("", "."));
}

#[test]
fn test_single_wildcard() {
    assert!(Parser::match_pattern("cat", "c.t"));
}

#[test]
fn test_multiple_wildcards() {
    assert!(Parser::match_pattern("hello", "h...o"));
}

#[test]
fn test_wildcard_no_match() {
    assert!(!Parser::match_pattern("ct", "c.t"));
}

#[test]
fn test_wildcard_car_no_match() {
    assert!(!Parser::match_pattern("car", "c.t"));
}

#[test]
fn test_wildcard_with_text() {
    assert!(Parser::match_pattern("abc123", "abc..."));
}

#[test]
fn test_match_char_class_basic() {
    assert!(Parser::match_pattern("a", "[abc]"));
    assert!(Parser::match_pattern("b", "[abc]"));
    assert!(!Parser::match_pattern("d", "[abc]"));
}

#[test]
fn test_simple_char_class() {
    assert!(Parser::match_pattern("cat", "[abc]at"));
}

#[test]
fn test_char_class_no_match() {
    assert!(!Parser::match_pattern("bat", "[cd]at"));
}

#[test]
fn test_char_class_multiple_chars() {
    assert!(!Parser::match_pattern("hello", "[aeiou]ello"));
}

#[test]
fn test_char_class_with_numbers() {
    assert!(Parser::match_pattern("3 apples", "[0123] apples"));
}

#[test]
fn test_single_char_in_class() {
    assert!(Parser::match_pattern("a", "[a]"));
}

#[test]
fn test_char_class_nbc() {
    assert!(Parser::match_pattern("nbc", "[mango]"));
}

#[test]
fn test_char_class_empty_brackets() {
    assert!(!Parser::match_pattern("[]", "[orange]"));
}

#[test]
fn test_match_char_class_negated() {
    assert!(Parser::match_pattern("d", "[^abc]"));
    assert!(!Parser::match_pattern("a", "[^abc]"));
}

#[test]
fn test_negated_char_class_match() {
    assert!(Parser::match_pattern("bat", "[^cd]at"));
}

#[test]
fn test_negated_char_class_no_match() {
    assert!(!Parser::match_pattern("cat", "[^abc]at"));
}

#[test]
fn test_negated_with_numbers() {
    assert!(Parser::match_pattern("x123", "[^0123456789]123"));
}

#[test]
fn test_match_char_class_negated_with_alternatives() {
    assert!(!Parser::match_pattern("dsbiglik", "[^abc](s|g)bigli(i|e)"));
}

#[test]
fn test_digit_escape() {
    assert!(Parser::match_pattern("abc123", "\\d"));
}

#[test]
fn test_digit_escape_no_match() {
    assert!(!Parser::match_pattern("abcdef", "\\d"));
}

#[test]
fn test_digit_and_word_escapes() {
    assert!(Parser::match_pattern("sally has 3 dogs", "\\d \\w\\w\\ws"));
}

#[test]
fn test_digit_escape_one_orange() {
    assert!(!Parser::match_pattern("sally has 1 orange", "\\d apple"));
}

#[test]
fn test_digit_escape_124_apples() {
    assert!(Parser::match_pattern("sally has 124 apples", "\\d\\d\\d apples"));
}

#[test]
fn test_digit_and_word_escapes_four_dogs() {
    assert!(Parser::match_pattern("sally has 4 dogs", "\\d \\w\\w\\ws"));
}

#[test]
fn test_digit_and_word_escapes_one_dog_no_match() {
    assert!(!Parser::match_pattern("sally has 1 dog", "\\d \\w\\w\\ws"));
}

#[test]
fn test_log_pattern_no_match_info() {
    // Should NOT match because 'info' doesn't match [FION]*
    assert!(!Parser::match_pattern("LOG info 52 lemon", "^LOG [FION]* \\d+ (lemon|onion)$"));
}

#[test]
fn test_word_escape_mango() {
    assert!(Parser::match_pattern("MANGO", "\\w"));
}

#[test]
fn test_word_escape_598() {
    assert!(Parser::match_pattern("598", "\\w"));
}

#[test]
fn test_digit_escape_abc_0_xyz() {
    assert!(Parser::match_pattern("abc_0_xyz", "\\d"));
}

#[test]
fn test_word_escape_special_chars_with_underscore() {
    assert!(Parser::match_pattern("%=#_=÷+", "\\w"));
}

#[test]
fn test_word_escape_special_chars_no_match() {
    assert!(!Parser::match_pattern("%+=÷×#", "\\w"));
}

#[test]
fn test_escaped_backslashes_in_pattern() {
    // Test case: pattern '\d\\d\\d apples' (digit, then literal \d\d, then ' apples')
    // Input: 'sally has 12 apples'
    // This tests handling of escaped backslashes in patterns
    // Note: In Rust string literals, we need to escape backslashes: "\\d\\\\d\\\\d apples"
    // The pattern should parse correctly and match appropriately
    // The pattern expects: a digit, then literal "\d\d", then " apples"
    // Since "12 apples" doesn't contain literal "\d\d", this should not match
    assert!(!Parser::match_pattern("sally has 12 apples", "\\d\\\\d\\\\d apples"));
    // `\\` is an escaped backslash, so the `d` after it is a plain letter
    assert!(!Parser::match_pattern(r"sally has 1\2\3 apples", "\\d\\\\d\\\\d apples"));
    assert!(Parser::match_pattern(r"sally has 1\d\d apples", "\\d\\\\d\\\\d apples"));

}

#[test]
fn test_start_anchor_match() {
    assert!(Parser::match_pattern("hello world", "^hello"));
}

#[test]
fn test_start_anchor_no_match() {
    assert!(!Parser::match_pattern("say hello", "^hello"));
}

#[test]
fn test_end_anchor_with_empty() {
    assert!(Parser::match_pattern("", "$"));
}

#[test]
fn test_just_dollar_sign() {
    assert!(Parser::match_pattern("", "$"));
}

#[test]
fn test_just_caret() {
    assert!(Parser::match_pattern("anything", "^"));
}

#[test]
fn test_end_anchor_blueberry_orange() {
    assert!(Parser::match_pattern("blueberry_orange", "orange$"));
}

#[test]
fn test_end_anchor_orange_blueberry() {
    assert!(!Parser::match_pattern("orange_blueberry", "orange$"));
}

#[test]
fn test_start_end_anchor_strawberry() {
    assert!(Parser::match_pattern("strawberry", "^strawberry$"));
}

#[test]
fn test_start_end_anchor_strawberry_strawberry() {
    assert!(!Parser::match_pattern("strawberry_strawberry", "^strawberry$"));
}

#[test]
fn test_question_mark_optional() {
    assert!(Parser::match_pattern("cat", "cats?"));
}

#[test]
fn test_dot_plus_with_unicode() {
    // Test case: pattern 'g.+gol' should match 'goøö0Ogol'
    // This tests that dot-plus quantifier works with Unicode characters
    assert!(Parser::match_pattern("goøö0Ogol", "g.+gol"));
}

#[test]
fn test_dot_plus_insufficient_chars() {
    // Test case: pattern 'g.+gol' should NOT match 'gol'
    // After matching 'g', '.+' requires at least one character before 'gol',
    // but 'ol' doesn't contain 'gol', so it should fail
    assert!(!Parser::match_pattern("gol", "g.+gol"));
}

#[test]
fn test_question_mark_present() {
    assert!(Parser::match_pattern("cats", "cats?"));
}

#[test]
fn test_question_mark_only() {
    assert!(Parser::match_pattern("x", "?"));
}

#[test]
fn test_question_mark_cat() {
    assert!(Parser::match_pattern("cat", "ca?t"));
}

#[test]
fn test_question_mark_act() {
    assert!(Parser::match_pattern("act", "ca?t"));
}

#[test]
fn test_question_mark_cat_double() {
    assert!(Parser::match_pattern("cat", "ca?a?t"));
}

#[test]
fn test_question_mark_dog_no_match() {
    assert!(!Parser::match_pattern("dog", "ca?t"));
}

#[test]
fn test_question_mark_cag_no_match() {
    assert!(!Parser::match_pattern("cag", "ca?t"));
}

#[test]
fn test_match_alternatives() {
    assert!(Parser::match_pattern("cat", "(cat|dog)"));
    assert!(Parser::match_pattern("dog", "(cat|dog)"));
    assert!(!Parser::match_pattern("mouse", "(cat|dog)"));
}

#[test]
fn test_match_combined() {
    assert!(Parser::match_pattern("catdog", "(cat|dog)dog"));
    assert!(Parser::match_pattern("dogdog", "(cat|dog)dog"));
}

#[test]
fn test_simple_alternation_cat() {
    assert!(Parser::match_pattern("cat", "(cat|dog)"));
}

#[test]
fn test_simple_alternation_dog() {
    assert!(Parser::match_pattern("dog", "(cat|dog)"));
}

#[test]
fn test_alternation_no_match() {
    assert!(!Parser::match_pattern("bird", "(cat|dog)"));
}

#[test]
fn test_three_way_alternation() {
    assert!(Parser::match_pattern("apple", "(apple|banana|cherry)"));
}

#[test]
fn test_alternation_with_text() {
    assert!(Parser::match_pattern("I have a cat", "(cat|dog)"));
}

#[test]
fn test_empty_alternation() {
    assert!(Parser::match_pattern("test", "(|test)"));
}

#[test]
fn test_start_anchor_with_alternation() {
    assert!(Parser::match_pattern("cat is here", "^(cat|dog)"));
}

#[test]
fn test_start_anchor_with_alternation_failure() {
    assert!(!Parser::match_pattern("bcat is here", "^(cat|dog)"));
}

#[test]
fn test_only_anchors() {
    assert!(Parser::match_pattern("", "^$"));
    assert!(!Parser::match_pattern("hello", "^$"));
}

#[test]
fn test_plus_quantifier_match() {
    assert!(Parser::match_pattern("aaa", "a+"));
}

#[test]
fn test_plus_quantifier_single() {
    assert!(Parser::match_pattern("a", "a+"));
}

#[test]
fn test_plus_quantifier_no_match() {
    assert!(!Parser::match_pattern("bbb", "a+"));
}

#[test]
fn test_plus_quantifier_with_prefix() {
    assert!(!Parser::match_pattern("act", "ca+t"));
}

#[test]
fn test_plus_quantifier_cat() {
    assert!(Parser::match_pattern("cat", "ca+t"));
}

#[test]
fn test_plus_quantifier_caaats() {
    assert!(Parser::match_pattern("caaats", "ca+at"));
}

#[test]
fn test_plus_quantifier_ca_no_match() {
    assert!(!Parser::match_pattern("ca", "ca+t"));
}

#[test]
fn test_plus_quantifier_abc_123_xyz() {
    assert!(Parser::match_pattern("abc_123_xyz", "^abc_\\d+_xyz$"));
}

#[test]
fn test_plus_quantifier_abc_rst_xyz() {
    assert!(!Parser::match_pattern("abc_rst_xyz", "^abc_\\d+_xyz$"));
}

#[test]
fn test_dot_plus() {
    assert!(Parser::match_pattern("hello", ".+"));
}

#[test]
fn test_digit_with_plus() {
    assert!(Parser::match_pattern("abc123def", "\\d+"));
}

#[test]
fn test_char_class_with_plus() {
    assert!(Parser::match_pattern("aaabbb", "[ab]+"));
}

#[test]
fn test_complex_anchor_alternation_pattern() {
    assert!(!Parser::match_pattern("I see 2 dog3", "^I see \\d+ (cat|dog)s?$"));
}

#[test]
fn test_complex_pattern_should_match() {
    assert!(Parser::match_pattern("I see 1 cat", "^I see \\d+ (cat|dog)s?$"));
}

#[test]
fn test_complex_pattern_with_plural() {
    assert!(Parser::match_pattern("I see 42 dogs", "^I see \\d+ (cat|dog)s?$"));
}

#[test]
fn test_alternation_a_cat() {
    assert!(Parser::match_pattern("a cat", "a (cat|dog)"));
}

#[test]
fn test_alternation_a_cog() {
    assert!(!Parser::match_pattern("a cog", "a (cat|dog)"));
}

#[test]
fn test_complex_pattern_i_see_a_cat() {
    assert!(!Parser::match_pattern("I see a cat", "^I see \\d+ (cat|dog)s?$"));
}

#[test]
fn test_phone_number() {
    assert!(Parser::match_pattern("123-456-7890", "\\d+-\\d+-\\d+"));
}

#[test]
fn test_star_quantifier_zero_as() {
    // ca*t matches "ct" (zero "a"s)
    assert!(Parser::match_pattern("ct", "ca*t"));
}

#[test]
fn test_star_quantifier_three_as() {
    // ca*t matches "caaat" (three "a"s)
    assert!(Parser::match_pattern("caaat", "ca*t"));
}

#[test]
fn test_star_quantifier_no_match_dog() {
    // ca*t does not match "dog" (no match for the pattern)
    assert!(!Parser::match_pattern("dog", "ca*t"));
}

#[test]
fn test_star_quantifier_digit_zero_digits() {
    // k\d*t matches "kt" (zero digits)
    assert!(Parser::match_pattern("kt", "k\\d*t"));
}

#[test]
fn test_star_quantifier_digit_one_digit() {
    // k\d*t matches "k1t" (one digit)
    assert!(Parser::match_pattern("k1t", "k\\d*t"));
}

#[test]
fn test_star_quantifier_digit_no_match_letters() {
    // k\d*t matches "kabct"
    assert!(!Parser::match_pattern("kabct", "k\\d*t"));
}

#[test]
fn test_star_quantifier_alternation_groups() {
    // (panda|lion)* matches "lionpandapandalion"
    assert!(Parser::match_pattern("lionpandapandalion", "(panda|lion)*"));
}

#[test]
fn test_star_quantifier_char_class_zero_chars() {
    // k[abc]*t matches "kt" (zero characters)
    assert!(Parser::match_pattern("kt", "k[abc]*t"));
}

#[test]
fn test_star_quantifier_char_class_one_char() {
    // k[abc]*t matches "kat" (one character from the set)
    assert!(Parser::match_pattern("kat", "k[abc]*t"));
}

#[test]
fn test_star_quantifier_char_class_multiple_chars() {
    // k[abc]*t matches "kabct" (multiple characters from the set)
    assert!(Parser::match_pattern("kabct", "k[abc]*t"));
}

#[test]
fn test_star_quantifier_char_class_no_match_invalid_chars() {
    // k[abc]*t does not match "kaxyzt" (contains "x", "y", "z" which aren't in [abc])
    assert!(!Parser::match_pattern("kaxyzt", "k[abc]*t"));
}

#[test]
fn test_backreference_cat_and_cat() {
    // (cat) and \1 matches "cat and cat" (both are "cat")
    assert!(Parser::match_pattern("cat and cat", "(cat) and \\1"));
}

#[test]
fn test_backreference_cat_and_dog() {
    // (cat) and \1 does not match "cat and dog" ("cat" ≠ "dog")
    assert!(!Parser::match_pattern("cat and dog", "(cat) and \\1"));
}

#[test]
fn test_backreference_word_cat_and_cat() {
    // (\w+) and \1 matches "cat and cat"
    assert!(Parser::match_pattern("cat and cat", "(\\w+) and \\1"));
}

#[test]
fn test_backreference_word_dog_and_dog() {
    // (\w+) and \1 matches "dog and dog"
    assert!(Parser::match_pattern("dog and dog", "(\\w+) and \\1"));
}

#[test]
fn test_backreference_word_cat_and_dog() {
    // (\w+) and \1 does not match "cat and dog"
    assert!(!Parser::match_pattern("cat and dog", "(\\w+) and \\1"));
}

#[test]
fn test_backreference_digits_same_number() {
    // (\d+)-\1 matches "123-123" (same number repeated)
    assert!(Parser::match_pattern("123-123", "(\\d+)-\\1"));
}

#[test]
fn test_backreference_digits_different_number() {
    // (\d+)-\1 does not match "123-456" (different numbers)
    assert!(!Parser::match_pattern("123-456", "(\\d+)-\\1"));
}

#[test]
fn test_backreference_char_class_with_negated() {
    // ^([act]+) is \1, not [^xyz]+$ matches "cat is c@t, not d0g"
    assert!(!Parser::match_pattern("cat is c@t, not d0g", "^([act]+) is \\1, not [^xyz]+$"));
}

#[test]
fn test_backreference_multiple_groups() {
    // (\d+) (\w+) squares and \1 \2 circles matches "3 red squares and 3 red circles"
    // Group 1: "3", Group 2: "red"
    // \1 matches "3", \2 matches "red"
    assert!(Parser::match_pattern("3 red squares and 3 red circles", "(\\d+) (\\w+) squares and \\1 \\2 circles"));
}

#[test]
fn test_backreference_word_digit_pattern() {
    // (\w\w\w\w) (\d\d\d) is doing \1 \2 times matches "grep 101 is doing grep 101 times"
    // Group 1: "grep" (4 word chars), Group 2: "101" (3 digits)
    // \1 matches "grep", \2 matches "101"
    assert!(Parser::match_pattern("grep 101 is doing grep 101 times", "(\\w\\w\\w\\w) (\\d\\d\\d) is doing \\1 \\2 times"));
}

#[test]
fn test_backreference_alternation_with_two_groups() {
    // (c.t|d.g) and (f..h|b..d), \1 with \2 matches "cat and fish, cat with fish"
    // Group 1: "cat" (matches c.t), Group 2: "fish" (matches f..h)
    // \1 matches "cat", \2 matches "fish"
    assert!(Parser::match_pattern("cat and fish, cat with fish", "(c.t|d.g) and (f..h|b..d), \\1 with \\2"));
}

#[test]
fn test_backreference_nested_groups() {
    // ("(cat) and \2") is the same as \1 matches ""cat and cat" is the same as "cat and cat""
    // Outer group 1: ("(cat) and \2") captures "cat and cat"
    // Inner group 2: (cat) captures "cat"
    // \2 matches the inner group "cat"
    // \1 matches the outer group "cat and cat"
    assert!(Parser::match_pattern("\"cat and cat\" is the same as \"cat and cat\"", "(\"(cat) and \\2\") is the same as \\1"));
}

#[test]
fn test_backreference_nested_groups_with_three_levels() {
    // ((\\w\\w\\w\\w) (\\d\\d\\d)) is doing \\2 \\3 times, and again \\1 times
    // Group 1: ((\\w\\w\\w\\w) (\\d\\d\\d)) captures "grep 101"
    // Group 2: (\\w\\w\\w\\w) captures "grep"
    // Group 3: (\\d\\d\\d) captures "101"
    // \\2 matches "grep", \\3 matches "101", \\1 matches "grep 101"
    assert!(Parser::match_pattern("grep 101 is doing grep 101 times, and again grep 101 times", "((\\w\\w\\w\\w) (\\d\\d\\d)) is doing \\2 \\3 times, and again \\1 times"));
}
