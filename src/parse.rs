//! The tokenizer: it takes one piece of pattern text at a time from the
//! front of the characters not consumed yet.

use vstd::prelude::*;
use vstd::string::*;

verus! {

/// A repetition suffix that follows an atom.
#[derive(Debug, PartialEq, Eq, Clone, Copy)]
pub enum QuantifierType {
    /// `+`: one or more.
    Plus,
    /// `?`: zero or one.
    Question,
    /// `*`: zero or more.
    Star,
    /// `{n}`, `{n,}` or `{n,m}`: between `n` and `m` repetitions, an open
    /// upper end standing as `i32::MAX`.
    Repitition((i32, i32)),
}

/// A structural fault in a pattern, reported before any matching.
#[derive(Debug, PartialEq, Eq, Structural, Clone, Copy)]
pub enum PatternError {
    UnterminatedClass,
    UnterminatedGroup,
    DanglingEscape,
    MalformedRepetition,
    UndefinedGroupReference,
}

/// Relies on `String::push`: the character is appended at the end.
pub assume_specification[ String::push ](s: &mut String, ch: char)
    ensures
        final(s)@ == old(s)@.push(ch),
;

pub open spec fn is_special(c: char) -> bool {
    c == '.' || c == '^' || c == '$' || c == '|' || c == '(' || c == ')' || c == '['
        || c == ']' || c == '\\'
}

pub open spec fn is_quantifier_char(c: char) -> bool {
    c == '+' || c == '?' || c == '*' || c == '{'
}

pub open spec fn is_plain(c: char) -> bool {
    !is_special(c) && !is_quantifier_char(c)
}

pub open spec fn starts_with_char(s: Seq<char>, c: char) -> bool {
    s.len() > 0 && s[0] == c
}

/// The end of the run of plain characters of `s` that starts at `i`.
pub open spec fn plain_end(s: Seq<char>, i: nat) -> nat
    decreases s.len() - i,
{
    if i < s.len() && is_plain(s[i as int]) {
        plain_end(s, i + 1)
    } else {
        i
    }
}

/// How many characters a literal run at the front of `s` takes: the whole
/// plain run, less its last character when a quantifier follows a run of
/// two or more, so that the quantifier binds to that one character.
pub open spec fn literal_len(s: Seq<char>) -> nat {
    let n = plain_end(s, 0);
    if n >= 2 && n < s.len() && is_quantifier_char(s[n as int]) {
        (n - 1) as nat
    } else {
        n
    }
}

/// The first index at or after `i` that holds `c`, or `s.len()`.
pub open spec fn find_char(s: Seq<char>, c: char, i: nat) -> nat
    decreases s.len() - i,
{
    if i >= s.len() {
        s.len()
    } else if s[i as int] == c {
        i
    } else {
        find_char(s, c, i + 1)
    }
}

/// The parenthesis depth after the first `i` characters: an opening one
/// adds one, a closing one takes one away, and the depth never goes below 0.
pub open spec fn paren_depth(s: Seq<char>, i: int) -> nat
    decreases i,
{
    if i <= 0 || i > s.len() {
        0
    } else {
        let d = paren_depth(s, i - 1);
        if s[i - 1] == '(' {
            d + 1
        } else if s[i - 1] == ')' {
            if d > 0 {
                (d - 1) as nat
            } else {
                0
            }
        } else {
            d
        }
    }
}

/// The index of the parenthesis that closes the group opened at index 0:
/// the first `j >= i` holding `)` after which the depth is back to 0, or
/// `s.len()`.
pub open spec fn group_end(s: Seq<char>, i: nat) -> nat
    decreases s.len() - i,
{
    if i >= s.len() {
        s.len()
    } else if s[i as int] == ')' && paren_depth(s, i as int + 1) == 0 {
        i
    } else {
        group_end(s, i + 1)
    }
}

/// Whether a `|` stands at depth 1 strictly between index 0 and `j`.
pub open spec fn has_top_bar(s: Seq<char>, j: int) -> bool {
    exists|k: int| 1 <= k < j && s[k] == '|' && paren_depth(s, k) == 1
}

/// The alternatives of `s` separated by a `|` at depth 0, from `start`,
/// scanning at `i`.
pub open spec fn alternatives_from(s: Seq<char>, start: nat, i: nat) -> Seq<Seq<char>>
    recommends
        start <= i,
    decreases s.len() - i,
{
    if i >= s.len() {
        seq![s.subrange(start as int, s.len() as int)]
    } else if s[i as int] == '|' && paren_depth(s, i as int) == 0 {
        seq![s.subrange(start as int, i as int)] + alternatives_from(s, i + 1, i + 1)
    } else {
        alternatives_from(s, start, i + 1)
    }
}

/// The alternatives of `s` at depth 0, in order; an empty one is kept.
pub open spec fn alternatives(s: Seq<char>) -> Seq<Seq<char>> {
    alternatives_from(s, 0, 0)
}

pub open spec fn is_digit(c: char) -> bool {
    '0' <= c && c <= '9'
}

pub open spec fn digit_value(c: char) -> nat {
    (c as u32 - '0' as u32) as nat
}

pub open spec fn all_digits(s: Seq<char>) -> bool {
    s.len() > 0 && forall|i: int| 0 <= i < s.len() ==> is_digit(#[trigger] s[i])
}

/// The decimal value of a string of digits.
pub open spec fn decimal_value(s: Seq<char>) -> nat
    decreases s.len(),
{
    if s.len() == 0 {
        0
    } else {
        decimal_value(s.drop_last()) * 10 + digit_value(s.last())
    }
}

/// A decimal number that fits in an `i32`.
pub open spec fn number_of(s: Seq<char>) -> Option<int> {
    if all_digits(s) && decimal_value(s) <= i32::MAX {
        Some(decimal_value(s) as int)
    } else {
        None
    }
}

/// The bounds written between braces: `n`, `n,` or `n,m`.
pub open spec fn repetition_of(c: Seq<char>) -> Option<(int, int)> {
    let k = find_char(c, ',', 0);
    if k == c.len() {
        match number_of(c) {
            Some(n) => Some((n, n)),
            None => None,
        }
    } else {
        match number_of(c.subrange(0, k as int)) {
            None => None,
            Some(n) => if k + 1 == c.len() {
                Some((n, i32::MAX as int))
            } else {
                match number_of(c.subrange(k as int + 1, c.len() as int)) {
                    Some(m) => Some((n, m)),
                    None => None,
                }
            },
        }
    }
}

/// What `parse_quantifier` yields on `s`, with the number of characters it
/// takes.
pub open spec fn quantifier_of(s: Seq<char>) -> Result<Option<(QuantifierType, nat)>, PatternError> {
    if s.len() == 0 {
        Ok(None)
    } else if s[0] == '+' {
        Ok(Some((QuantifierType::Plus, 1)))
    } else if s[0] == '?' {
        Ok(Some((QuantifierType::Question, 1)))
    } else if s[0] == '*' {
        Ok(Some((QuantifierType::Star, 1)))
    } else if s[0] == '{' {
        let j = find_char(s, '}', 1);
        if j == s.len() {
            Err(PatternError::MalformedRepetition)
        } else {
            match repetition_of(s.subrange(1, j as int)) {
                Some((n, m)) => Ok(
                    Some((QuantifierType::Repitition((n as i32, m as i32)), (j + 1) as nat)),
                ),
                None => Err(PatternError::MalformedRepetition),
            }
        }
    } else {
        Ok(None)
    }
}

/// The tokenizer: the pattern characters not consumed yet.
pub struct Parser {
    pub chars: Vec<char>,
}

/// The characters of `s` from `from` to `to`, as a string.
fn string_of(s: &Vec<char>, from: usize, to: usize) -> (r: String)
    requires
        from <= to <= s@.len(),
    ensures
        r@ == s@.subrange(from as int, to as int),
{
    let mut r = String::new();
    let mut i = from;
    while i < to
        invariant
            from <= i <= to <= s@.len(),
            r@ == s@.subrange(from as int, i as int),
        decreases to - i,
    {
        r.push(s[i]);
        assert(s@.subrange(from as int, i + 1) =~= s@.subrange(from as int, i as int).push(s@[i as int]));
        i += 1;
    }
    r
}

/// A copy of `s[from..to]`.
pub fn copy_range(s: &Vec<char>, from: usize, to: usize) -> (r: Vec<char>)
    requires
        from <= to <= s@.len(),
    ensures
        r@ == s@.subrange(from as int, to as int),
{
    let mut r: Vec<char> = Vec::new();
    let mut i = from;
    while i < to
        invariant
            from <= i <= to <= s@.len(),
            r@ == s@.subrange(from as int, i as int),
        decreases to - i,
    {
        r.push(s[i]);
        assert(s@.subrange(from as int, i + 1) =~= s@.subrange(from as int, i as int).push(s@[i as int]));
        i += 1;
    }
    r
}

/// The characters of `s`.
pub fn chars_of(s: &str) -> (r: Vec<char>)
    ensures
        r@ == s@,
{
    let n = s.unicode_len();
    let mut r: Vec<char> = Vec::new();
    let mut i: usize = 0;
    while i < n
        invariant
            n == s@.len(),
            i <= n,
            r@ == s@.subrange(0, i as int),
        decreases n - i,
    {
        r.push(s.get_char(i));
        assert(s@.subrange(0, i + 1) =~= s@.subrange(0, i as int).push(s@[i as int]));
        i += 1;
    }
    assert(r@ =~= s@);
    r
}

impl Parser {
    /// A tokenizer over the characters of `pattern`.
    pub fn new(pattern: &str) -> (p: Parser)
        ensures
            p.chars@ == pattern@,
    {
        Parser { chars: chars_of(pattern) }
    }

    /// Drops the first `n` characters.
    fn consume(&mut self, n: usize)
        requires
            n <= old(self).chars@.len(),
        ensures
            final(self).chars@ == old(self).chars@.subrange(n as int, old(self).chars@.len() as int),
    {
        let rest = self.chars.split_off(n);
        self.chars = rest;
    }

    /// Takes the next character, if any.
    pub fn next(&mut self) -> (r: Option<char>)
        ensures
            old(self).chars@.len() == 0 ==> r is None && final(self).chars@ == old(self).chars@,
            old(self).chars@.len() > 0 ==> r == Some(old(self).chars@[0]) && final(self).chars@
                == old(self).chars@.drop_first(),
    {
        if self.chars.len() == 0 {
            None
        } else {
            let c = self.chars.remove(0);
            assert(old(self).chars@.remove(0) =~= old(self).chars@.drop_first());
            Some(c)
        }
    }

    /// The next character, left in place.
    pub fn peek(&mut self) -> (r: Option<char>)
        ensures
            final(self).chars@ == old(self).chars@,
            r == (if old(self).chars@.len() > 0 {
                Some(old(self).chars@[0])
            } else {
                None
            }),
    {
        if self.chars.len() == 0 {
            None
        } else {
            Some(self.chars[0])
        }
    }

    /// Takes one leading `c`, returned as a one-character string.
    fn take_char(&mut self, c: char) -> (r: Option<String>)
        ensures
            starts_with_char(old(self).chars@, c) ==> (r matches Some(t) && t@ == seq![c]
                && final(self).chars@ == old(self).chars@.drop_first()),
            !starts_with_char(old(self).chars@, c) ==> r is None && final(self).chars@
                == old(self).chars@,
    {
        if self.chars.len() > 0 && self.chars[0] == c {
            self.consume(1);
            assert(old(self).chars@.subrange(1, old(self).chars@.len() as int)
                =~= old(self).chars@.drop_first());
            let mut t = String::new();
            t.push(c);
            assert(t@ =~= seq![c]);
            Some(t)
        } else {
            None
        }
    }

    /// Takes a run of plain characters as a literal. Where a quantifier
    /// follows a run of two or more, the last character stays, so that the
    /// quantifier binds to it alone.
    pub fn parse_literal(&mut self) -> (r: Option<String>)
        ensures
            ({
                let s = old(self).chars@;
                let n = literal_len(s);
                &&& n == 0 ==> r is None && final(self).chars@ == s
                &&& n > 0 ==> (r matches Some(t) && t@ == s.subrange(0, n as int)
                    && final(self).chars@ == s.subrange(n as int, s.len() as int))
            }),
    {
        let ghost s = self.chars@;
        let len = self.chars.len();
        let mut i: usize = 0;
        while i < len && !is_special_char(self.chars[i]) && !is_quantifier(self.chars[i])
            invariant
                s == self.chars@,
                len == s.len(),
                i <= len,
                plain_end(s, 0) == plain_end(s, i as nat),
            decreases len - i,
        {
            i += 1;
        }
        let mut n = i;
        if i >= 2 && i < len && is_quantifier(self.chars[i]) {
            n = i - 1;
        }
        if n == 0 {
            None
        } else {
            let t = string_of(&self.chars, 0, n);
            self.consume(n);
            Some(t)
        }
    }

    /// Takes a `.`.
    pub fn parse_dot(&mut self) -> (r: Option<String>)
        ensures
            starts_with_char(old(self).chars@, '.') ==> (r matches Some(t) && t@ == seq!['.']
                && final(self).chars@ == old(self).chars@.drop_first()),
            !starts_with_char(old(self).chars@, '.') ==> r is None && final(self).chars@
                == old(self).chars@,
    {
        self.take_char('.')
    }

    /// Takes a `^`.
    pub fn parse_start_anchor(&mut self) -> (r: Option<String>)
        ensures
            starts_with_char(old(self).chars@, '^') ==> (r matches Some(t) && t@ == seq!['^']
                && final(self).chars@ == old(self).chars@.drop_first()),
            !starts_with_char(old(self).chars@, '^') ==> r is None && final(self).chars@
                == old(self).chars@,
    {
        self.take_char('^')
    }

    /// Takes a `$`.
    pub fn parse_end_anchor(&mut self) -> (r: Option<String>)
        ensures
            starts_with_char(old(self).chars@, '$') ==> (r matches Some(t) && t@ == seq!['$']
                && final(self).chars@ == old(self).chars@.drop_first()),
            !starts_with_char(old(self).chars@, '$') ==> r is None && final(self).chars@
                == old(self).chars@,
    {
        self.take_char('$')
    }

    /// Takes a backslash and the character it escapes; a backslash with
    /// nothing after it is an error.
    pub fn parse_slash(&mut self) -> (r: Result<Option<String>, PatternError>)
        ensures
            ({
                let s = old(self).chars@;
                &&& !starts_with_char(s, '\\') ==> r == Ok::<Option<String>, PatternError>(None)
                    && final(self).chars@ == s
                &&& starts_with_char(s, '\\') && s.len() == 1 ==> r == Err::<
                    Option<String>,
                    PatternError,
                >(PatternError::DanglingEscape) && final(self).chars@ == s
                &&& starts_with_char(s, '\\') && s.len() >= 2 ==> (r matches Ok(Some(t)) && t@
                    == s.subrange(0, 2) && final(self).chars@ == s.subrange(2, s.len() as int))
            }),
    {
        if self.chars.len() == 0 || self.chars[0] != '\\' {
            Ok(None)
        } else if self.chars.len() == 1 {
            Err(PatternError::DanglingEscape)
        } else {
            let t = string_of(&self.chars, 0, 2);
            self.consume(2);
            Ok(Some(t))
        }
    }

    /// Takes a character class, brackets included; one without its `]` is
    /// an error.
    pub fn parse_char_class(&mut self) -> (r: Result<Option<String>, PatternError>)
        ensures
            ({
                let s = old(self).chars@;
                let j = find_char(s, ']', 1);
                &&& !starts_with_char(s, '[') ==> r == Ok::<Option<String>, PatternError>(None)
                    && final(self).chars@ == s
                &&& starts_with_char(s, '[') && j == s.len() ==> r == Err::<
                    Option<String>,
                    PatternError,
                >(PatternError::UnterminatedClass) && final(self).chars@ == s
                &&& starts_with_char(s, '[') && j < s.len() ==> (r matches Ok(Some(t)) && t@
                    == s.subrange(0, j as int + 1) && final(self).chars@ == s.subrange(j as int + 1, s.len() as int))
            }),
    {
        if self.chars.len() == 0 || self.chars[0] != '[' {
            return Ok(None);
        }
        let j = find_in(&self.chars, ']', 1);
        if j == self.chars.len() {
            Err(PatternError::UnterminatedClass)
        } else {
            let t = string_of(&self.chars, 0, j + 1);
            self.consume(j + 1);
            Ok(Some(t))
        }
    }

    /// Takes a group, parentheses included, and tells whether it is a plain
    /// group (`true`) or holds alternatives (`false`); one without its
    /// closing parenthesis is an error.
    pub fn parse_parentheses(&mut self) -> (r: Result<Option<(String, bool)>, PatternError>)
        ensures
            ({
                let s = old(self).chars@;
                let j = group_end(s, 1);
                &&& !starts_with_char(s, '(') ==> r == Ok::<
                    Option<(String, bool)>,
                    PatternError,
                >(None) && final(self).chars@ == s
                &&& starts_with_char(s, '(') && j == s.len() ==> r == Err::<
                    Option<(String, bool)>,
                    PatternError,
                >(PatternError::UnterminatedGroup) && final(self).chars@ == s
                &&& starts_with_char(s, '(') && j < s.len() ==> (r matches Ok(Some((t, g))) && t@
                    == s.subrange(0, j as int + 1) && g == !has_top_bar(s, j as int)
                    && final(self).chars@ == s.subrange(j as int + 1, s.len() as int))
            }),
    {
        if self.chars.len() == 0 || self.chars[0] != '(' {
            return Ok(None);
        }
        let (j, bar) = find_group_end(&self.chars, 0, self.chars.len());
        assert(self.chars@.subrange(0, self.chars@.len() as int) =~= self.chars@);
        if j == self.chars.len() {
            Err(PatternError::UnterminatedGroup)
        } else {
            let t = string_of(&self.chars, 0, j + 1);
            self.consume(j + 1);
            Ok(Some((t, !bar)))
        }
    }

    /// Takes a quantifier: `+`, `?`, `*`, or bounds between braces. Braces
    /// that are not closed, or that hold anything but `n`, `n,` or `n,m`
    /// with numbers that fit in an `i32`, are an error.
    pub fn parse_quantifier(&mut self) -> (r: Result<Option<QuantifierType>, PatternError>)
        ensures
            ({
                let s = old(self).chars@;
                match quantifier_of(s) {
                    Ok(None) => r == Ok::<Option<QuantifierType>, PatternError>(None)
                        && final(self).chars@ == s,
                    Ok(Some((q, n))) => r == Ok::<Option<QuantifierType>, PatternError>(Some(q))
                        && final(self).chars@ == s.subrange(n as int, s.len() as int),
                    Err(e) => r == Err::<Option<QuantifierType>, PatternError>(e)
                        && final(self).chars@ == s,
                }
            }),
    {
        if self.chars.len() == 0 {
            return Ok(None);
        }
        let c = self.chars[0];
        if c == '+' {
            self.consume(1);
            Ok(Some(QuantifierType::Plus))
        } else if c == '?' {
            self.consume(1);
            Ok(Some(QuantifierType::Question))
        } else if c == '*' {
            self.consume(1);
            Ok(Some(QuantifierType::Star))
        } else if c == '{' {
            let j = find_in(&self.chars, '}', 1);
            if j == self.chars.len() {
                return Err(PatternError::MalformedRepetition);
            }
            match repetition_in(&self.chars, 1, j) {
                Some((a, b)) => {
                    self.consume(j + 1);
                    Ok(Some(QuantifierType::Repitition((a, b))))
                },
                None => Err(PatternError::MalformedRepetition),
            }
        } else {
            Ok(None)
        }
    }

    /// The alternatives between the outer parentheses of `group`, split at
    /// each `|` that no inner parenthesis encloses; an empty one is kept.
    pub fn split_alternatives(group: &str) -> (r: Vec<String>)
        requires
            group@.len() >= 2,
        ensures
            r@.map_values(|t: String| t@) == alternatives(
                group@.subrange(1, group@.len() - 1),
            ),
    {
        let chars = chars_of(group);
        let inner = copy_range(&chars, 1, chars.len() - 1);
        let ghost t = inner@;
        let n = inner.len();
        let mut r: Vec<String> = Vec::new();
        let mut start: usize = 0;
        let mut i: usize = 0;
        let mut depth: usize = 0;
        while i < n
            invariant
                t == inner@,
                n == t.len(),
                start <= i <= n,
                depth <= i,
                depth == paren_depth(t, i as int),
                r@.map_values(|t: String| t@) + alternatives_from(t, start as nat, i as nat)
                    == alternatives(t),
            decreases n - i,
        {
            let c = inner[i];
            if c == '|' && depth == 0 {
                let piece = string_of(&inner, start, i);
                let ghost before = r@;
                r.push(piece);
                assert(r@.map_values(|t: String| t@) =~= before.map_values(|t: String| t@).push(
                    piece@,
                ));
                assert(alternatives_from(t, start as nat, i as nat) == seq![
                    t.subrange(start as int, i as int),
                ] + alternatives_from(t, (i + 1) as nat, (i + 1) as nat));
                assert(r@.map_values(|t: String| t@) + alternatives_from(t, (i + 1) as nat, (i + 1) as nat)
                    =~= before.map_values(|t: String| t@) + alternatives_from(t, start as nat, i as nat));
                start = i + 1;
            }
            if c == '(' {
                depth += 1;
            } else if c == ')' && depth > 0 {
                depth -= 1;
            }
            i += 1;
        }
        let piece = string_of(&inner, start, n);
        let ghost before = r@;
        r.push(piece);
        assert(r@.map_values(|t: String| t@) =~= before.map_values(|t: String| t@).push(piece@));
        assert(chars@.subrange(1, chars@.len() - 1) == group@.subrange(1, group@.len() - 1));
        r
    }
}

pub fn is_special_char(c: char) -> (r: bool)
    ensures
        r == is_special(c),
{
    c == '.' || c == '^' || c == '$' || c == '|' || c == '(' || c == ')' || c == '[' || c == ']'
        || c == '\\'
}

pub fn is_quantifier(c: char) -> (r: bool)
    ensures
        r == is_quantifier_char(c),
{
    c == '+' || c == '?' || c == '*' || c == '{'
}

/// The first index at or after `i` that holds `c`, or the length.
fn find_in(s: &Vec<char>, c: char, i: usize) -> (r: usize)
    requires
        i <= s@.len(),
    ensures
        r == find_char(s@, c, i as nat),
        i <= r <= s@.len(),
{
    let mut k = i;
    while k < s.len() && s[k] != c
        invariant
            i <= k <= s@.len(),
            find_char(s@, c, i as nat) == find_char(s@, c, k as nat),
        decreases s@.len() - k,
    {
        k += 1;
    }
    k
}

/// Where the group opened at `from` closes within `s[from..to]`, relative
/// to `from`, and whether a `|` stands at its top level before that.
fn find_group_end(s: &Vec<char>, from: usize, to: usize) -> (r: (usize, bool))
    requires
        from < to <= s@.len(),
        s@[from as int] == '(',
    ensures
        ({
            let sub = s@.subrange(from as int, to as int);
            r.0 == group_end(sub, 1) && (r.0 < sub.len() ==> r.1 == has_top_bar(sub, r.0 as int))
        }),
        r.0 <= to - from,
{
    let ghost sub = s@.subrange(from as int, to as int);
    let n = to - from;
    let mut k: usize = 1;
    let mut depth: usize = 1;
    let mut bar = false;
    assert(paren_depth(sub, 1) == 1) by {
        reveal_with_fuel(paren_depth, 2);
    }
    while k < n
        invariant
            sub == s@.subrange(from as int, to as int),
            from < to <= s@.len(),
            n == sub.len(),
            n == to - from,
            1 <= k <= n,
            1 <= depth <= k,
            depth as int == paren_depth(sub, k as int),
            group_end(sub, 1) == group_end(sub, k as nat),
            bar == exists|i: int| 1 <= i < k && sub[i] == '|' && paren_depth(sub, i) == 1,
        decreases n - k,
    {
        let c = s[from + k];
        assert(c == sub[k as int]);
        assert(paren_depth(sub, k + 1) == if c == '(' {
            (depth + 1) as nat
        } else if c == ')' {
            (depth - 1) as nat
        } else {
            depth as nat
        });
        if c == ')' && depth == 1 {
            assert(group_end(sub, k as nat) == k);
            return (k, bar);
        }
        if c == '|' && depth == 1 {
            bar = true;
        }
        if c == '(' {
            depth += 1;
        } else if c == ')' {
            depth -= 1;
        }
        k += 1;
    }
    (k, bar)
}


/// The first index of `c` in `s[from..to]`, relative to `from`, or the
/// length of that range.
fn find_in_range(s: &Vec<char>, c: char, from: usize, to: usize) -> (r: usize)
    requires
        from <= to <= s@.len(),
    ensures
        r == find_char(s@.subrange(from as int, to as int), c, 0),
        r <= to - from,
{
    let ghost sub = s@.subrange(from as int, to as int);
    let mut k: usize = 0;
    while k < to - from && s[from + k] != c
        invariant
            from <= to <= s@.len(),
            sub == s@.subrange(from as int, to as int),
            k <= to - from,
            find_char(sub, c, 0) == find_char(sub, c, k as nat),
        decreases to - from - k,
    {
        k += 1;
    }
    k
}

proof fn lemma_value_prefix(s: Seq<char>, k: int)
    requires
        0 <= k <= s.len(),
    ensures
        decimal_value(s.subrange(0, k)) <= decimal_value(s),
    decreases s.len(),
{
    if k == s.len() {
        assert(s.subrange(0, k) =~= s);
    } else {
        lemma_value_prefix(s.drop_last(), k);
        assert(s.drop_last().subrange(0, k) =~= s.subrange(0, k));
    }
}

/// The number written in `s[from..to]`, where it is one that fits in an
/// `i32`.
fn number_in(s: &Vec<char>, from: usize, to: usize) -> (r: Option<i32>)
    requires
        from <= to <= s@.len(),
    ensures
        match number_of(s@.subrange(from as int, to as int)) {
            Some(n) => r == Some(n as i32),
            None => r is None,
        },
{
    let ghost sub = s@.subrange(from as int, to as int);
    if from == to {
        return None;
    }
    let mut acc: u64 = 0;
    let mut i = from;
    assert(sub.subrange(0, 0) =~= Seq::<char>::empty());
    while i < to
        invariant
            from < to <= s@.len(),
            sub == s@.subrange(from as int, to as int),
            from <= i <= to,
            acc <= i32::MAX,
            acc == decimal_value(sub.subrange(0, i - from)),
            forall|k: int| 0 <= k < i - from ==> is_digit(#[trigger] sub[k]),
        decreases to - i,
    {
        let c = s[i];
        assert(c == sub[i - from]);
        if !('0' <= c && c <= '9') {
            assert(!all_digits(sub));
            return None;
        }
        let ghost pre = sub.subrange(0, i - from + 1);
        assert(pre.drop_last() =~= sub.subrange(0, i - from));
        assert(pre.last() == c);
        acc = acc * 10 + (c as u32 - '0' as u32) as u64;
        assert(acc == decimal_value(pre));
        if acc > i32::MAX as u64 {
            proof {
                lemma_value_prefix(sub, i - from + 1);
            }
            return None;
        }
        i += 1;
    }
    assert(sub.subrange(0, to - from) =~= sub);
    assert(all_digits(sub));
    Some(acc as i32)
}

/// The bounds written in `s[from..to]`: `n`, `n,` or `n,m`.
fn repetition_in(s: &Vec<char>, from: usize, to: usize) -> (r: Option<(i32, i32)>)
    requires
        from <= to <= s@.len(),
    ensures
        match repetition_of(s@.subrange(from as int, to as int)) {
            Some((a, b)) => r == Some((a as i32, b as i32)),
            None => r is None,
        },
{
    let ghost c = s@.subrange(from as int, to as int);
    let k = find_in_range(s, ',', from, to);
    if k == to - from {
        match number_in(s, from, to) {
            Some(n) => Some((n, n)),
            None => None,
        }
    } else {
        assert(c.subrange(0, k as int) =~= s@.subrange(from as int, (from + k) as int));
        match number_in(s, from, from + k) {
            None => None,
            Some(n) => {
                if k + 1 == to - from {
                    Some((n, i32::MAX))
                } else {
                    assert(c.subrange(k + 1, c.len() as int) =~= s@.subrange(
                        (from + k + 1) as int,
                        to as int,
                    ));
                    match number_in(s, from + k + 1, to) {
                        Some(m) => Some((n, m)),
                        None => None,
                    }
                }
            },
        }
    }
}

} // verus!
