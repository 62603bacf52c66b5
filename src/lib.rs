//! A line-oriented matcher for a practical subset of extended regular
//! expressions: literals, `.`, character classes, `\d` and `\w`, anchors,
//! quantifiers, alternation, capturing groups and numbered backreferences.
//!
//! `parse` holds the tokenizer over the pattern text, `pattern` turns the
//! text into a tree of atoms, and `matcher` searches input text against it
//! with greedy, first-success backtracking, which always ends, and can be
//! held to a step allowance. `laws` proves properties of the whole: what
//! plain patterns, the empty pattern, the empty input and anchors do, and
//! how groups are numbered.

pub mod parse;
pub mod pattern;
pub mod matcher;
pub mod laws;
