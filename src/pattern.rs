//! The compiled form of a pattern: the grammar that turns pattern text
//! into a tree of atoms, as spec functions, and the compiler proved to
//! build exactly that tree.

use vstd::prelude::*;
use crate::parse::{
    chars_of, copy_range, find_char, group_end, is_digit, digit_value, is_quantifier,
    is_quantifier_char, literal_len, paren_depth, plain_end, quantifier_of, Parser, PatternError,
    QuantifierType,
};

verus! {

/// An atom of a pattern, as the contracts speak of it.
pub enum SAtom {
    Literal(Seq<char>),
    AnyChar,
    CharClass(Seq<char>, bool),
    DigitClass,
    WordClass,
    Backreference(nat),
    Group(Seq<Seq<SNode>>, nat),
    StartAnchor,
    EndAnchor,
    Empty,
}

/// An atom with the quantifier that follows it, as the contracts speak of it.
pub struct SNode {
    pub atom: SAtom,
    pub quantifier: Option<QuantifierType>,
}

/// One matchable unit of a compiled pattern.
pub enum Atom {
    /// An exact character sequence.
    Literal(Vec<char>),
    /// `.`: any one character.
    AnyChar,
    /// `[...]`: one character among the members, or, when negated, one
    /// that is not among them.
    CharClass(Vec<char>, bool),
    /// `\d`: one decimal digit.
    DigitClass,
    /// `\w`: one ASCII letter, digit or underscore.
    WordClass,
    /// `\k`: the text last captured by group `k`.
    Backreference(usize),
    /// `(...)`: its alternatives in order, and its group number.
    Group(Vec<Vec<Node>>, usize),
    /// `^`: the start of the input.
    StartAnchor,
    /// `$`: the end of the input.
    EndAnchor,
    /// Nothing: what a quantifier with no atom before it repeats.
    Empty,
}

/// An atom and the quantifier bound to it, if any.
pub struct Node {
    pub atom: Atom,
    pub quantifier: Option<QuantifierType>,
}

pub open spec fn view_atom(a: Atom) -> SAtom
    decreases a, 0nat,
{
    match a {
        Atom::Literal(t) => SAtom::Literal(t@),
        Atom::AnyChar => SAtom::AnyChar,
        Atom::CharClass(m, neg) => SAtom::CharClass(m@, neg),
        Atom::DigitClass => SAtom::DigitClass,
        Atom::WordClass => SAtom::WordClass,
        Atom::Backreference(k) => SAtom::Backreference(k as nat),
        Atom::Group(bs, k) => SAtom::Group(view_branches(bs@, 0), k as nat),
        Atom::StartAnchor => SAtom::StartAnchor,
        Atom::EndAnchor => SAtom::EndAnchor,
        Atom::Empty => SAtom::Empty,
    }
}

pub open spec fn view_node(n: Node) -> SNode
    decreases n, 0nat,
{
    SNode { atom: view_atom(n.atom), quantifier: n.quantifier }
}

/// The views of `ns[i..]`.
pub open spec fn view_nodes(ns: Seq<Node>, i: int) -> Seq<SNode>
    decreases ns, ns.len() - i,
{
    if 0 <= i < ns.len() {
        seq![view_node(ns[i])] + view_nodes(ns, i + 1)
    } else {
        seq![]
    }
}

/// The views of `bs[i..]`.
pub open spec fn view_branches(bs: Seq<Vec<Node>>, i: int) -> Seq<Seq<SNode>>
    decreases bs, bs.len() - i,
{
    if 0 <= i < bs.len() {
        seq![view_nodes(bs[i]@, 0)] + view_branches(bs, i + 1)
    } else {
        seq![]
    }
}

/// The first token of a pattern text, before its atom is built: a class
/// and a group by the text between their brackets.
pub enum Token {
    Class(Seq<char>),
    Group(Seq<char>),
    Escape(char),
    Dot,
    Start,
    End,
    Literal(Seq<char>),
    Empty,
}

/// The token at the front of `s`, tried in this order: a class, a group, an
/// escape, `.`, `^`, `$`, a literal run, nothing before a quantifier, and
/// else the one character as a literal.
pub open spec fn token_of(s: Seq<char>) -> Result<(Token, nat), PatternError> {
    if s.len() == 0 {
        Ok((Token::Empty, 0))
    } else if s[0] == '[' {
        let j = find_char(s, ']', 1);
        if j == s.len() {
            Err(PatternError::UnterminatedClass)
        } else {
            Ok((Token::Class(s.subrange(1, j as int)), j + 1))
        }
    } else if s[0] == '(' {
        let j = group_end(s, 1);
        if j == s.len() {
            Err(PatternError::UnterminatedGroup)
        } else {
            Ok((Token::Group(s.subrange(1, j as int)), j + 1))
        }
    } else if s[0] == '\\' {
        if s.len() == 1 {
            Err(PatternError::DanglingEscape)
        } else {
            Ok((Token::Escape(s[1]), 2))
        }
    } else if s[0] == '.' {
        Ok((Token::Dot, 1))
    } else if s[0] == '^' {
        Ok((Token::Start, 1))
    } else if s[0] == '$' {
        Ok((Token::End, 1))
    } else if literal_len(s) > 0 {
        Ok((Token::Literal(s.subrange(0, literal_len(s) as int)), literal_len(s)))
    } else if is_quantifier_char(s[0]) {
        Ok((Token::Empty, 0))
    } else {
        Ok((Token::Literal(seq![s[0]]), 1))
    }
}

/// A class written as `members` between the brackets; a leading `^` negates.
pub open spec fn class_atom(m: Seq<char>) -> SAtom {
    if m.len() > 0 && m[0] == '^' {
        SAtom::CharClass(m.drop_first(), true)
    } else {
        SAtom::CharClass(m, false)
    }
}

/// What `\c` stands for where the groups numbered below `next` are open
/// or closed: a digit names a group, and must name one of those.
pub open spec fn escape_atom(c: char, next: nat) -> Result<SAtom, PatternError> {
    if is_digit(c) {
        if 1 <= digit_value(c) < next {
            Ok(SAtom::Backreference(digit_value(c)))
        } else {
            Err(PatternError::UndefinedGroupReference)
        }
    } else if c == 'd' {
        Ok(SAtom::DigitClass)
    } else if c == 'w' {
        Ok(SAtom::WordClass)
    } else {
        Ok(SAtom::Literal(seq![c]))
    }
}

/// The atom of a token other than a group.
pub open spec fn simple_atom(t: Token, next: nat) -> Result<SAtom, PatternError> {
    match t {
        Token::Class(m) => Ok(class_atom(m)),
        Token::Escape(c) => escape_atom(c, next),
        Token::Dot => Ok(SAtom::AnyChar),
        Token::Start => Ok(SAtom::StartAnchor),
        Token::End => Ok(SAtom::EndAnchor),
        Token::Literal(x) => Ok(SAtom::Literal(x)),
        _ => Ok(SAtom::Empty),
    }
}

pub open spec fn quantifier_part(r: Seq<char>) -> (Option<QuantifierType>, nat) {
    match quantifier_of(r) {
        Ok(Some((q, m))) => (Some(q), m),
        _ => (None, 0),
    }
}

pub proof fn lemma_find_char_bounds(s: Seq<char>, c: char, i: nat)
    requires
        i <= s.len(),
    ensures
        i <= find_char(s, c, i) <= s.len(),
        find_char(s, c, i) < s.len() ==> s[find_char(s, c, i) as int] == c,
    decreases s.len() - i,
{
    if i < s.len() && s[i as int] != c {
        lemma_find_char_bounds(s, c, i + 1);
    }
}

pub proof fn lemma_group_end_bounds(s: Seq<char>, i: nat)
    requires
        i <= s.len(),
    ensures
        i <= group_end(s, i) <= s.len(),
    decreases s.len() - i,
{
    if i < s.len() && !(s[i as int] == ')' && paren_depth(s, i as int + 1) == 0) {
        lemma_group_end_bounds(s, i + 1);
    }
}

pub proof fn lemma_plain_end_bounds(s: Seq<char>, i: nat)
    requires
        i <= s.len(),
    ensures
        i <= plain_end(s, i) <= s.len(),
        plain_end(s, i) < s.len() ==> !crate::parse::is_plain(s[plain_end(s, i) as int]),
        forall|k: int| i <= k < plain_end(s, i) ==> crate::parse::is_plain(#[trigger] s[k]),
    decreases s.len() - i,
{
    if i < s.len() && crate::parse::is_plain(s[i as int]) {
        lemma_plain_end_bounds(s, i + 1);
    }
}

/// A token takes at most what is there, takes nothing only in front of a
/// quantifier, and a group takes its text and two parentheses.
pub proof fn lemma_token_len(s: Seq<char>)
    requires
        s.len() > 0,
    ensures
        token_of(s) matches Ok((t, n)) ==> n <= s.len() && (n == 0 ==> is_quantifier_char(s[0]))
            && (t matches Token::Group(inner) ==> inner.len() + 2 == n),
{
    lemma_find_char_bounds(s, ']', 1);
    lemma_group_end_bounds(s, 1);
    lemma_plain_end_bounds(s, 0);
}

pub proof fn lemma_quantifier_len(r: Seq<char>)
    ensures
        quantifier_part(r).1 <= r.len(),
        r.len() > 0 && is_quantifier_char(r[0]) && quantifier_of(r) is Ok ==> quantifier_part(r).1
            >= 1,
{
    if r.len() >= 1 {
        lemma_find_char_bounds(r, '}', 1);
    }
}

/// The nodes of the branch text `s`, with groups numbered from `next`, and
/// the number after the last group; or the first fault, in text order.
pub open spec fn parse_seq(s: Seq<char>, next: nat) -> Result<(Seq<SNode>, nat), PatternError>
    decreases 2 * s.len() + 1, 0nat,
{
    if s.len() == 0 {
        Ok((seq![], next))
    } else {
        match token_of(s) {
            Err(e) => Err(e),
            Ok((t, n)) => {
                proof {
                    lemma_token_len(s);
                }
                let built: Result<(SAtom, nat), PatternError> = match t {
                    Token::Group(inner) => match parse_alternatives(inner, 0, next + 1) {
                        Ok((bs, n2)) => Ok((SAtom::Group(bs, next), n2)),
                        Err(e) => Err(e),
                    },
                    _ => match simple_atom(t, next) {
                        Ok(a) => Ok((a, next)),
                        Err(e) => Err(e),
                    },
                };
                match built {
                    Err(e) => Err(e),
                    Ok((a, n1)) => {
                        let rest = s.subrange(n as int, s.len() as int);
                        proof {
                            lemma_quantifier_len(rest);
                        }
                        match quantifier_of(rest) {
                            Err(e) => Err(e),
                            Ok(_) => {
                                let (q, m) = quantifier_part(rest);
                                match parse_seq(rest.subrange(m as int, rest.len() as int), n1) {
                                    Err(e) => Err(e),
                                    Ok((ns, n3)) => Ok(
                                        (seq![SNode { atom: a, quantifier: q }] + ns, n3),
                                    ),
                                }
                            },
                        }
                    },
                }
            },
        }
    }
}

/// The branches of the text `t`, split at each `|` that no parenthesis
/// encloses, scanning at `i`, with groups numbered from `next`.
pub open spec fn parse_alternatives(t: Seq<char>, i: nat, next: nat) -> Result<
    (Seq<Seq<SNode>>, nat),
    PatternError,
>
    decreases 2 * t.len() + 2, t.len() - i,
{
    if i >= t.len() {
        match parse_seq(t, next) {
            Ok((ns, n2)) => Ok((seq![ns], n2)),
            Err(e) => Err(e),
        }
    } else if t[i as int] == '|' && paren_depth(t, i as int) == 0 {
        match parse_seq(t.subrange(0, i as int), next) {
            Err(e) => Err(e),
            Ok((ns, n2)) => match parse_alternatives(t.subrange(i as int + 1, t.len() as int), 0, n2) {
                Ok((bs, n3)) => Ok((seq![ns] + bs, n3)),
                Err(e) => Err(e),
            },
        }
    } else {
        parse_alternatives(t, i + 1, next)
    }
}

/// A whole pattern: its top-level alternatives, with groups numbered from 1,
/// and one more than the number of groups.
pub open spec fn parse_pattern(p: Seq<char>) -> Result<(Seq<Seq<SNode>>, nat), PatternError> {
    parse_alternatives(p, 0, 1)
}

pub open spec fn prepend_nodes(
    ns: Seq<SNode>,
    r: Result<(Seq<SNode>, nat), PatternError>,
) -> Result<(Seq<SNode>, nat), PatternError> {
    match r {
        Ok((t, n)) => Ok((ns + t, n)),
        Err(e) => Err(e),
    }
}

pub open spec fn prepend_branches(
    bs: Seq<Seq<SNode>>,
    r: Result<(Seq<Seq<SNode>>, nat), PatternError>,
) -> Result<(Seq<Seq<SNode>>, nat), PatternError> {
    match r {
        Ok((t, n)) => Ok((bs + t, n)),
        Err(e) => Err(e),
    }
}

pub proof fn lemma_view_nodes(ns: Seq<Node>, i: int)
    requires
        0 <= i <= ns.len(),
    ensures
        view_nodes(ns, i).len() == ns.len() - i,
        forall|k: int| 0 <= k < ns.len() - i ==> #[trigger] view_nodes(ns, i)[k] == view_node(ns[i + k]),
    decreases ns.len() - i,
{
    if i < ns.len() {
        lemma_view_nodes(ns, i + 1);
        assert forall|k: int| 0 <= k < ns.len() - i implies #[trigger] view_nodes(ns, i)[k] == view_node(ns[i + k]) by {
            if k > 0 {
                assert(view_nodes(ns, i)[k] == view_nodes(ns, i + 1)[k - 1]);
            }
        }
    }
}

pub proof fn lemma_view_branches(bs: Seq<Vec<Node>>, i: int)
    requires
        0 <= i <= bs.len(),
    ensures
        view_branches(bs, i).len() == bs.len() - i,
        forall|k: int| 0 <= k < bs.len() - i ==> #[trigger] view_branches(bs, i)[k] == view_nodes(bs[i + k]@, 0),
    decreases bs.len() - i,
{
    if i < bs.len() {
        lemma_view_branches(bs, i + 1);
        assert forall|k: int| 0 <= k < bs.len() - i implies #[trigger] view_branches(bs, i)[k] == view_nodes(bs[i + k]@, 0) by {
            if k > 0 {
                assert(view_branches(bs, i)[k] == view_branches(bs, i + 1)[k - 1]);
            }
        }
    }
}

proof fn lemma_view_nodes_push(ns: Seq<Node>, x: Node)
    ensures
        view_nodes(ns.push(x), 0) == view_nodes(ns, 0).push(view_node(x)),
{
    lemma_view_nodes(ns.push(x), 0);
    lemma_view_nodes(ns, 0);
    assert(view_nodes(ns.push(x), 0) =~= view_nodes(ns, 0).push(view_node(x)));
}

proof fn lemma_view_branches_push(bs: Seq<Vec<Node>>, x: Vec<Node>)
    ensures
        view_branches(bs.push(x), 0) == view_branches(bs, 0).push(view_nodes(x@, 0)),
{
    lemma_view_branches(bs.push(x), 0);
    lemma_view_branches(bs, 0);
    assert(view_branches(bs.push(x), 0) =~= view_branches(bs, 0).push(view_nodes(x@, 0)));
}

/// A token as the compiler takes it: an atom, or the text inside a group.
enum Lexeme {
    Atom(Atom),
    Group(Vec<char>),
}

/// Takes the token at the front of a non-empty pattern text, and builds its
/// atom unless it is a group.
fn take_token(p: &mut Parser, next: usize) -> (r: Result<Lexeme, PatternError>)
    requires
        old(p).chars@.len() > 0,
    ensures
        ({
            let s = old(p).chars@;
            match token_of(s) {
                Err(e) => r == Err::<Lexeme, PatternError>(e),
                Ok((t, n)) => match t {
                    Token::Group(inner) => r matches Ok(Lexeme::Group(v)) && v@ == inner
                        && final(p).chars@ == s.subrange(n as int, s.len() as int),
                    _ => match simple_atom(t, next as nat) {
                        Ok(a) => r matches Ok(Lexeme::Atom(x)) && view_atom(x) == a
                            && final(p).chars@ == s.subrange(n as int, s.len() as int),
                        Err(e) => r == Err::<Lexeme, PatternError>(e),
                    },
                },
            }
        }),
{
    let ghost s = p.chars@;
    proof {
        lemma_token_len(s);
        lemma_find_char_bounds(s, ']', 1);
        lemma_plain_end_bounds(s, 0);
    }
    match p.parse_char_class() {
        Err(e) => {
            return Err(e);
        },
        Ok(Some(t)) => {
            let v = chars_of(t.as_str());
            let neg = v.len() > 2 && v[1] == '^';
            let members = if neg {
                copy_range(&v, 2, v.len() - 1)
            } else {
                copy_range(&v, 1, v.len() - 1)
            };
            let ghost m = s.subrange(1, find_char(s, ']', 1) as int);
            assert(members@ == class_atom(m)->CharClass_0) by {
                if neg {
                    assert(members@ =~= m.drop_first());
                } else {
                    assert(members@ =~= m);
                }
            }
            return Ok(Lexeme::Atom(Atom::CharClass(members, neg)));
        },
        Ok(None) => {},
    }
    match p.parse_parentheses() {
        Err(e) => {
            return Err(e);
        },
        Ok(Some((t, _))) => {
            let v = chars_of(t.as_str());
            let inner = copy_range(&v, 1, v.len() - 1);
            assert(inner@ =~= s.subrange(1, group_end(s, 1) as int));
            return Ok(Lexeme::Group(inner));
        },
        Ok(None) => {},
    }
    match p.parse_slash() {
        Err(e) => {
            return Err(e);
        },
        Ok(Some(t)) => {
            let v = chars_of(t.as_str());
            let c = v[1];
            assert(c == s[1]);
            if '0' <= c && c <= '9' {
                let k = (c as u32 - '0' as u32) as usize;
                if 1 <= k && k < next {
                    return Ok(Lexeme::Atom(Atom::Backreference(k)));
                } else {
                    return Err(PatternError::UndefinedGroupReference);
                }
            } else if c == 'd' {
                return Ok(Lexeme::Atom(Atom::DigitClass));
            } else if c == 'w' {
                return Ok(Lexeme::Atom(Atom::WordClass));
            } else {
                let mut lit: Vec<char> = Vec::new();
                lit.push(c);
                assert(lit@ =~= seq![c]);
                return Ok(Lexeme::Atom(Atom::Literal(lit)));
            }
        },
        Ok(None) => {},
    }
    if p.parse_dot().is_some() {
        return Ok(Lexeme::Atom(Atom::AnyChar));
    }
    if p.parse_start_anchor().is_some() {
        return Ok(Lexeme::Atom(Atom::StartAnchor));
    }
    if p.parse_end_anchor().is_some() {
        return Ok(Lexeme::Atom(Atom::EndAnchor));
    }
    match p.parse_literal() {
        Some(t) => {
            let v = chars_of(t.as_str());
            return Ok(Lexeme::Atom(Atom::Literal(v)));
        },
        None => {},
    }
    let c = p.chars[0];
    if is_quantifier(c) {
        Ok(Lexeme::Atom(Atom::Empty))
    } else {
        p.next();
        let mut lit: Vec<char> = Vec::new();
        lit.push(c);
        assert(lit@ =~= seq![c]);
        assert(s.drop_first() =~= s.subrange(1, s.len() as int));
        Ok(Lexeme::Atom(Atom::Literal(lit)))
    }
}

/// The nodes of the branch text `s`, groups numbered from `next`.
fn compile_seq(s: &Vec<char>, next: usize) -> (r: Result<(Vec<Node>, usize), PatternError>)
    requires
        next + s@.len() <= usize::MAX,
    ensures
        match r {
            Ok((ns, n2)) => parse_seq(s@, next as nat) == Ok::<(Seq<SNode>, nat), PatternError>(
                (view_nodes(ns@, 0), n2 as nat),
            ) && next <= n2 <= next + s@.len(),
            Err(e) => parse_seq(s@, next as nat) == Err::<(Seq<SNode>, nat), PatternError>(e),
        },
    decreases 2 * s@.len() + 1, 0nat,
{
    let mut p = Parser { chars: copy_range(s, 0, s.len()) };
    assert(p.chars@ =~= s@);
    let mut nodes: Vec<Node> = Vec::new();
    let mut cur = next;
    assert(view_nodes(nodes@, 0) + view_nodes(nodes@, 0) =~= view_nodes(nodes@, 0));
    assert(prepend_nodes(view_nodes(nodes@, 0), parse_seq(s@, next as nat)) == parse_seq(s@, next as nat)) by {
        match parse_seq(s@, next as nat) {
            Ok((t, n)) => {
                assert(seq![] + t =~= t);
            },
            Err(_) => {},
        }
    }
    while p.chars.len() > 0
        invariant
            parse_seq(s@, next as nat) == prepend_nodes(
                view_nodes(nodes@, 0),
                parse_seq(p.chars@, cur as nat),
            ),
            next <= cur,
            cur + p.chars@.len() <= next + s@.len(),
            next + s@.len() <= usize::MAX,
            p.chars@.len() <= s@.len(),
        decreases p.chars@.len(),
    {
        let ghost c0 = p.chars@;
        let ghost v0 = view_nodes(nodes@, 0);
        proof {
            lemma_token_len(c0);
        }
        let lex = take_token(&mut p, cur);
        let (atom, n1) = match lex {
            Err(e) => {
                return Err(e);
            },
            Ok(Lexeme::Atom(a)) => (a, cur),
            Ok(Lexeme::Group(inner)) => {
                match compile_alternatives(&inner, cur + 1) {
                    Err(e) => {
                        return Err(e);
                    },
                    Ok((bs, n2)) => (Atom::Group(bs, cur), n2),
                }
            },
        };
        let ghost rest = p.chars@;
        proof {
            lemma_quantifier_len(rest);
        }
        let q = match p.parse_quantifier() {
            Err(e) => {
                return Err(e);
            },
            Ok(q) => q,
        };
        let x = Node { atom, quantifier: q };
        let ghost before = nodes@;
        nodes.push(x);
        proof {
            lemma_view_nodes_push(before, x);
            let tail = parse_seq(p.chars@, n1 as nat);
            let (tk, tn) = token_of(c0)->Ok_0;
            assert(rest == c0.subrange(tn as int, c0.len() as int));
            assert(quantifier_of(rest) is Ok);
            assert(p.chars@ == rest.subrange(quantifier_part(rest).1 as int, rest.len() as int));
            assert(quantifier_part(rest).0 == q);
            match tk {
                Token::Group(inner) => {
                    assert(parse_alternatives(inner, 0, cur as nat + 1) matches Ok((bsv, n2))
                        && view_atom(atom) == SAtom::Group(bsv, cur as nat) && n2 == n1);
                },
                _ => {
                    assert(simple_atom(tk, cur as nat) == Ok::<SAtom, PatternError>(view_atom(atom)));
                    assert(n1 == cur);
                },
            }
            assert(parse_seq(c0, cur as nat) == prepend_nodes(seq![view_node(x)], tail));
            match tail {
                Ok((t, n)) => {
                    assert(v0 + (seq![view_node(x)] + t) =~= v0.push(view_node(x)) + t);
                },
                Err(_) => {},
            }
        }
        cur = n1;
    }
    assert(view_nodes(nodes@, 0) + seq![] =~= view_nodes(nodes@, 0));
    Ok((nodes, cur))
}

/// The branches of the text `t`, groups numbered from `next`.
fn compile_alternatives(t: &Vec<char>, next: usize) -> (r: Result<(Vec<Vec<Node>>, usize), PatternError>)
    requires
        next + t@.len() <= usize::MAX,
    ensures
        match r {
            Ok((bs, n2)) => parse_alternatives(t@, 0, next as nat) == Ok::<
                (Seq<Seq<SNode>>, nat),
                PatternError,
            >((view_branches(bs@, 0), n2 as nat)) && next <= n2 <= next + t@.len(),
            Err(e) => parse_alternatives(t@, 0, next as nat) == Err::<
                (Seq<Seq<SNode>>, nat),
                PatternError,
            >(e),
        },
    decreases 2 * t@.len() + 2, 0nat,
{
    let n = t.len();
    let mut bs: Vec<Vec<Node>> = Vec::new();
    let mut start: usize = 0;
    let mut i: usize = 0;
    let mut depth: usize = 0;
    let mut cur = next;
    assert(t@.subrange(0, n as int) =~= t@);
    assert(prepend_branches(view_branches(bs@, 0), parse_alternatives(t@, 0, next as nat))
        == parse_alternatives(t@, 0, next as nat)) by {
        match parse_alternatives(t@, 0, next as nat) {
            Ok((x, k)) => {
                assert(view_branches(bs@, 0) + x =~= x);
            },
            Err(_) => {},
        }
    }
    while i < n
        invariant
            n == t@.len(),
            start <= i <= n,
            depth <= i - start,
            depth == paren_depth(t@.subrange(start as int, n as int), i - start),
            parse_alternatives(t@, 0, next as nat) == prepend_branches(
                view_branches(bs@, 0),
                parse_alternatives(t@.subrange(start as int, n as int), (i - start) as nat, cur as nat),
            ),
            next <= cur <= next + start,
            next + t@.len() <= usize::MAX,
        decreases n - i,
    {
        let ghost u = t@.subrange(start as int, n as int);
        let ghost k = (i - start) as nat;
        let c = t[i];
        assert(u[k as int] == c);
        if c == '|' && depth == 0 {
            let piece = copy_range(t, start, i);
            assert(piece@ =~= u.subrange(0, k as int));
            assert(t@.subrange(i + 1, n as int) =~= u.subrange(k as int + 1, u.len() as int));
            match compile_seq(&piece, cur) {
                Err(e) => {
                    return Err(e);
                },
                Ok((ns, n2)) => {
                    let ghost before = bs@;
                    let ghost vb = view_branches(before, 0);
                    bs.push(ns);
                    proof {
                        lemma_view_branches_push(before, ns);
                        let tail = parse_alternatives(t@.subrange(i + 1, n as int), 0, n2 as nat);
                        match tail {
                            Ok((x, m)) => {
                                assert(vb + (seq![view_nodes(ns@, 0)] + x) =~= vb.push(
                                    view_nodes(ns@, 0),
                                ) + x);
                            },
                            Err(_) => {},
                        }
                    }
                    cur = n2;
                    start = i + 1;
                    depth = 0;
                },
            }
        } else {
            assert(paren_depth(u, k as int + 1) == if c == '(' {
                (depth + 1) as nat
            } else if c == ')' && depth > 0 {
                (depth - 1) as nat
            } else {
                depth as nat
            });
            if c == '(' {
                depth += 1;
            } else if c == ')' && depth > 0 {
                depth -= 1;
            }
        }
        i += 1;
    }
    let ghost u = t@.subrange(start as int, n as int);
    let piece = copy_range(t, start, n);
    match compile_seq(&piece, cur) {
        Err(e) => Err(e),
        Ok((ns, n2)) => {
            let ghost before = bs@;
            let ghost vb = view_branches(before, 0);
            bs.push(ns);
            proof {
                lemma_view_branches_push(before, ns);
                assert(vb + seq![view_nodes(ns@, 0)] =~= vb.push(view_nodes(ns@, 0)));
            }
            Ok((bs, n2))
        },
    }
}

/// A compiled pattern: its top-level alternatives, tried in order, and how
/// many groups it numbers.
pub struct Pattern {
    pub branches: Vec<Vec<Node>>,
    pub groups: usize,
}

impl Pattern {
    /// Compiles the pattern text, or reports its first structural fault.
    pub fn compile(pattern: &str) -> (r: Result<Pattern, PatternError>)
        requires
            pattern@.len() < usize::MAX,
        ensures
            match parse_pattern(pattern@) {
                Ok((bs, n)) => r matches Ok(p) && view_branches(p.branches@, 0) == bs && p.groups
                    + 1 == n && p.groups <= pattern@.len(),
                Err(e) => r == Err::<Pattern, PatternError>(e),
            },
    {
        let chars = chars_of(pattern);
        match compile_alternatives(&chars, 1) {
            Ok((branches, n)) => Ok(Pattern { branches, groups: n - 1 }),
            Err(e) => Err(e),
        }
    }
}

} // verus!
