//! Properties of matching as a whole, proved from the grammar and the
//! matching semantics.

use vstd::prelude::*;
use crate::matcher::{
    accepts_char, atom_weight, branches_weight, lemma_nodes_weight_shift, lemma_stack_weight_push,
    match_at, next_count, no_captures, node_weight, pattern_matches, run_atom, run_branches,
    run_group, run_loop, run_node, run_stack, stack_weight, text_at, Captures, Frame,
};
use crate::parse::{
    find_char, group_end, is_plain, is_quantifier_char, literal_len, paren_depth, plain_end,
    quantifier_of,
};
use crate::pattern::{
    lemma_plain_end_bounds, lemma_token_len, parse_alternatives,
    parse_pattern, parse_seq, quantifier_part, simple_atom, token_of, SAtom, SNode, Token,
};

verus! {

/// No character of `p` is a metacharacter.
pub open spec fn is_plain_text(p: Seq<char>) -> bool {
    forall|i: int| 0 <= i < p.len() ==> is_plain(#[trigger] p[i])
}

/// `p` stands somewhere in `s`.
pub open spec fn occurs_in(p: Seq<char>, s: Seq<char>) -> bool {
    exists|i: nat| #[trigger] text_at(s, i, p)
}

/// No `|` of `p` stands outside every parenthesis.
pub open spec fn no_top_level_bar(p: Seq<char>) -> bool {
    forall|j: int| 0 <= j < p.len() ==> !(p[j] == '|' && #[trigger] paren_depth(p, j) == 0)
}

pub open spec fn single_branch(
    r: Result<(Seq<SNode>, nat), crate::parse::PatternError>,
) -> Result<(Seq<Seq<SNode>>, nat), crate::parse::PatternError> {
    match r {
        Ok((ns, n)) => Ok((seq![ns], n)),
        Err(e) => Err(e),
    }
}

/// Without a top-level `|`, a pattern is one branch.
pub proof fn lemma_one_branch(t: Seq<char>, i: nat, next: nat)
    requires
        i <= t.len(),
        forall|j: int| i <= j < t.len() ==> !(t[j] == '|' && #[trigger] paren_depth(t, j) == 0),
    ensures
        parse_alternatives(t, i, next) == single_branch(parse_seq(t, next)),
    decreases t.len() - i,
{
    if i < t.len() {
        lemma_one_branch(t, i + 1, next);
    }
}

/// With the matching finished but for a last sequence, one branch matches
/// exactly when that sequence does.
proof fn lemma_single_branch_match(s: Seq<char>, ns: Seq<SNode>, next: nat, pos: nat)
    ensures
        match_at(s, seq![ns], next, pos) == run_stack(s, seq![Frame::Nodes(ns)], pos, no_captures(next)),
{
    let bs = seq![ns];
    assert(bs[0] == ns);
    if run_stack(s, seq![Frame::Nodes(ns)], pos, no_captures(next)) is None {
        assert(run_branches(s, bs, 1, pos, no_captures(next)) is None);
    }
}

/// The empty pattern matches every input.
pub proof fn law_empty_pattern(s: Seq<char>)
    ensures
        pattern_matches(s, Seq::<char>::empty()),
{
    let p = Seq::<char>::empty();
    let e: Seq<SNode> = seq![];
    assert(parse_seq(p, 1) == Ok::<(Seq<SNode>, nat), crate::parse::PatternError>((e, 1)));
    lemma_one_branch(p, 0, 1);
    assert(parse_pattern(p) == Ok::<(Seq<Seq<SNode>>, nat), crate::parse::PatternError>((seq![e], 1)));
    lemma_single_branch_match(s, e, 1, 0);
    let k = seq![Frame::Nodes(e)];
    assert(k.drop_last() =~= Seq::<Frame>::empty());
    assert(run_stack(s, k, 0, no_captures(1)) == run_stack(s, Seq::<Frame>::empty(), 0, no_captures(1)));
    assert(match_at(s, seq![e], 1, 0) is Some);
}

proof fn lemma_plain_end_all(p: Seq<char>)
    requires
        is_plain_text(p),
    ensures
        plain_end(p, 0) == p.len(),
{
    lemma_plain_end_bounds(p, 0);
}

/// A pattern of plain characters compiles to one literal of them all.
proof fn lemma_plain_parse(p: Seq<char>)
    requires
        is_plain_text(p),
        p.len() > 0,
    ensures
        parse_pattern(p) == Ok::<(Seq<Seq<SNode>>, nat), crate::parse::PatternError>(
            (seq![seq![SNode { atom: SAtom::Literal(p), quantifier: None }]], 1),
        ),
{
    lemma_plain_end_all(p);
    assert(is_plain(p[0]));
    assert(literal_len(p) == p.len());
    assert(token_of(p) == Ok::<(Token, nat), crate::parse::PatternError>((Token::Literal(p.subrange(0, p.len() as int)), p.len())));
    assert(p.subrange(0, p.len() as int) =~= p);
    let rest = p.subrange(p.len() as int, p.len() as int);
    assert(rest =~= Seq::<char>::empty());
    assert(quantifier_of(rest) == Ok::<Option<(crate::parse::QuantifierType, nat)>, crate::parse::PatternError>(None));
    assert(quantifier_part(rest) == (Option::<crate::parse::QuantifierType>::None, 0nat));
    assert(rest.subrange(0, 0) =~= Seq::<char>::empty());
    let e: Seq<SNode> = seq![];
    assert(parse_seq(rest.subrange(0, 0), 1) == Ok::<(Seq<SNode>, nat), crate::parse::PatternError>((e, 1)));
    let node = SNode { atom: SAtom::Literal(p), quantifier: None };
    assert(seq![node] + e =~= seq![node]);
    assert(parse_seq(p, 1) == Ok::<(Seq<SNode>, nat), crate::parse::PatternError>((seq![node], 1)));
    assert forall|j: int| 0 <= j < p.len() implies !(p[j] == '|' && #[trigger] paren_depth(p, j) == 0) by {
        assert(is_plain(p[j]));
    }
    lemma_one_branch(p, 0, 1);
}

/// A literal that finishes the pattern matches at `pos` exactly where its
/// text stands there.
proof fn lemma_literal_match(s: Seq<char>, p: Seq<char>, pos: nat, caps: crate::matcher::Captures)
    requires
        pos <= s.len(),
    ensures
        run_stack(s, seq![Frame::Nodes(seq![SNode { atom: SAtom::Literal(p), quantifier: None }])], pos, caps)
            is Some <==> text_at(s, pos, p),
{
    let node = SNode { atom: SAtom::Literal(p), quantifier: None };
    let ns = seq![node];
    let k = seq![Frame::Nodes(ns)];
    let e: Seq<SNode> = seq![];
    assert(k.drop_last() =~= Seq::<Frame>::empty());
    assert(ns.drop_first() =~= e);
    let k1 = Seq::<Frame>::empty().push(Frame::Nodes(e));
    assert(run_stack(s, k, pos, caps) == run_node(s, node, k1, pos, caps));
    assert(run_node(s, node, k1, pos, caps) == run_atom(s, SAtom::Literal(p), k1, pos, caps));
    if text_at(s, pos, p) {
        let end = pos + p.len();
        assert(k1.drop_last() =~= Seq::<Frame>::empty());
        assert(run_stack(s, k1, end, caps) == run_stack(s, Seq::<Frame>::empty(), end, caps));
    }
}

/// A pattern without metacharacters matches exactly the inputs in which it
/// stands as a contiguous run.
pub proof fn law_plain_pattern_is_substring(s: Seq<char>, p: Seq<char>)
    requires
        is_plain_text(p),
    ensures
        pattern_matches(s, p) <==> occurs_in(p, s),
{
    if p.len() == 0 {
        law_empty_pattern(s);
        assert(p =~= Seq::<char>::empty());
        assert(s.subrange(0, 0) =~= p);
        assert(text_at(s, 0, p));
    } else {
        lemma_plain_parse(p);
        let node = SNode { atom: SAtom::Literal(p), quantifier: None };
        let ns = seq![node];
        if pattern_matches(s, p) {
            let i = choose|i: nat| i <= s.len() && #[trigger] match_at(s, seq![ns], 1, i) is Some;
            lemma_single_branch_match(s, ns, 1, i);
            lemma_literal_match(s, p, i, no_captures(1));
            assert(text_at(s, i, p));
        }
        if occurs_in(p, s) {
            let i = choose|i: nat| #[trigger] text_at(s, i, p);
            lemma_single_branch_match(s, ns, 1, i);
            lemma_literal_match(s, p, i, no_captures(1));
            assert(match_at(s, seq![ns], 1, i) is Some);
        }
    }
}

proof fn lemma_depth_after_caret(p: Seq<char>, j: int)
    requires
        0 <= j <= p.len(),
    ensures
        paren_depth(seq!['^'] + p, j + 1) == paren_depth(p, j),
    decreases j,
{
    let q = seq!['^'] + p;
    if j > 0 {
        lemma_depth_after_caret(p, j - 1);
        assert(q[j] == p[j - 1]);
    } else {
        assert(paren_depth(q, 1) == paren_depth(q, 0));
    }
}

/// With `^` in front, a pattern matches exactly when it matches from the
/// first position of the input; the pattern must not begin with a quantifier,
/// which would bind to the `^`, nor hold a top-level `|`, which would leave
/// the other branches without it.
pub proof fn law_start_anchor(s: Seq<char>, p: Seq<char>)
    requires
        p.len() == 0 || !is_quantifier_char(p[0]),
        no_top_level_bar(p),
    ensures
        pattern_matches(s, seq!['^'] + p) <==> (parse_pattern(p) matches Ok((bs, n)) && match_at(
            s,
            bs,
            n,
            0,
        ) is Some),
{
    let q = seq!['^'] + p;
    assert forall|j: int| 0 <= j < q.len() implies !(q[j] == '|' && #[trigger] paren_depth(q, j) == 0) by {
        if j > 0 {
            lemma_depth_after_caret(p, j - 1);
            assert(q[j] == p[j - 1]);
        }
    }
    lemma_one_branch(q, 0, 1);
    lemma_one_branch(p, 0, 1);
    assert(token_of(q) == Ok::<(Token, nat), crate::parse::PatternError>((Token::Start, 1)));
    let rest = q.subrange(1, q.len() as int);
    assert(rest =~= p);
    assert(quantifier_of(p) == Ok::<Option<(crate::parse::QuantifierType, nat)>, crate::parse::PatternError>(None));
    assert(p.subrange(0, p.len() as int) =~= p);
    let start = SNode { atom: SAtom::StartAnchor, quantifier: None };
    match parse_seq(p, 1) {
        Err(e) => {
            assert(parse_seq(q, 1) == Err::<(Seq<SNode>, nat), crate::parse::PatternError>(e));
        },
        Ok((ns, n)) => {
            assert(parse_seq(q, 1) == Ok::<(Seq<SNode>, nat), crate::parse::PatternError>((seq![start] + ns, n)));
            let qs = seq![start] + ns;
            assert(qs.drop_first() =~= ns);
            let caps = no_captures(n);
            assert forall|i: nat| i <= s.len() implies (#[trigger] match_at(s, seq![qs], n, i) is Some <==> (i == 0 && match_at(s, seq![ns], n, 0) is Some)) by {
                lemma_single_branch_match(s, qs, n, i);
                lemma_single_branch_match(s, ns, n, 0);
                let k = seq![Frame::Nodes(qs)];
                assert(k.drop_last() =~= Seq::<Frame>::empty());
                let k1 = Seq::<Frame>::empty().push(Frame::Nodes(ns));
                assert(k1 =~= seq![Frame::Nodes(ns)]);
                assert(run_stack(s, k, i, caps) == run_node(s, start, k1, i, caps));
                assert(run_node(s, start, k1, i, caps) == run_atom(s, SAtom::StartAnchor, k1, i, caps));
            }
            if match_at(s, seq![ns], n, 0) is Some {
                assert(match_at(s, seq![qs], n, 0) is Some);
            }
        },
    }
}

/// No quantifier, parenthesis or `|` stands in `p`.
pub open spec fn has_no_repetition_or_group(p: Seq<char>) -> bool {
    forall|i: int| 0 <= i < p.len() ==> !is_quantifier_char(#[trigger] p[i]) && p[i] != '(' && p[i] != '|'
}

/// Every character of `p` is `^` or `$`.
pub open spec fn anchors_only(p: Seq<char>) -> bool {
    forall|i: int| 0 <= i < p.len() ==> (#[trigger] p[i] == '^' || p[i] == '$')
}

pub open spec fn is_anchor(a: SAtom) -> bool {
    a is StartAnchor || a is EndAnchor
}

/// An unquantified node that is an anchor or consumes at least one
/// character.
pub open spec fn is_simple_node(n: SNode) -> bool {
    n.quantifier is None && match n.atom {
        SAtom::Literal(t) => t.len() > 0,
        SAtom::CharClass(_, _) => true,
        SAtom::AnyChar => true,
        SAtom::DigitClass => true,
        SAtom::WordClass => true,
        SAtom::StartAnchor => true,
        SAtom::EndAnchor => true,
        _ => false,
    }
}

/// Without quantifiers, groups or `|`, a branch parses to simple nodes, all
/// anchors exactly when the text is.
proof fn lemma_restricted_parse(p: Seq<char>)
    requires
        has_no_repetition_or_group(p),
    ensures
        anchors_only(p) ==> parse_seq(p, 1) is Ok,
        parse_seq(p, 1) matches Ok((ns, n)) ==> (n == 1 && (forall|j: int| 0 <= j < ns.len() ==> is_simple_node(#[trigger] ns[j])) && ((forall|j: int| 0 <= j < ns.len() ==> is_anchor(#[trigger] ns[j].atom)) <==> anchors_only(p))),
    decreases p.len(),
{
    if p.len() > 0 {
        lemma_token_len(p);
        assert(!is_quantifier_char(p[0]) && p[0] != '(' && p[0] != '|');
        match token_of(p) {
            Err(_) => {
                assert(p[0] != '^' && p[0] != '$');
                assert(!anchors_only(p));
            },
            Ok((t, n)) => {
                assert(n >= 1);
                let rest = p.subrange(n as int, p.len() as int);
                assert(has_no_repetition_or_group(rest)) by {
                    assert forall|i: int| 0 <= i < rest.len() implies !is_quantifier_char(#[trigger] rest[i]) && rest[i] != '(' && rest[i] != '|' by {
                        assert(rest[i] == p[n + i]);
                    }
                }
                if rest.len() > 0 {
                    assert(rest[0] == p[n as int]);
                }
                assert(quantifier_of(rest) == Ok::<Option<(crate::parse::QuantifierType, nat)>, crate::parse::PatternError>(None));
                assert(quantifier_part(rest).1 == 0);
                assert(rest.subrange(0, rest.len() as int) =~= rest);
                lemma_restricted_parse(rest);
                let is_anc = p[0] == '^' || p[0] == '$';
                if is_anc {
                    assert(n == 1);
                    assert(anchors_only(p) <==> anchors_only(rest)) by {
                        if anchors_only(rest) {
                            assert forall|i: int| 0 <= i < p.len() implies (#[trigger] p[i] == '^' || p[i] == '$') by {
                                if i > 0 {
                                    assert(p[i] == rest[i - 1]);
                                }
                            }
                        }
                        if anchors_only(p) {
                            assert forall|i: int| 0 <= i < rest.len() implies (#[trigger] rest[i] == '^' || rest[i] == '$') by {
                                assert(rest[i] == p[i + 1]);
                            }
                        }
                    }
                } else {
                    assert(!anchors_only(p));
                    if p[0] == '[' || p[0] == '\\' || p[0] == '.' {
                    } else if literal_len(p) > 0 {
                        lemma_plain_end_bounds(p, 0);
                    }
                }
                match simple_atom(t, 1) {
                    Err(_) => {},
                    Ok(a) => {
                        assert(is_simple_node(SNode { atom: a, quantifier: None }));
                        assert(is_anchor(a) == is_anc);
                        match parse_seq(rest, 1) {
                            Err(_) => {},
                            Ok((ns, m)) => {
                                let node = SNode { atom: a, quantifier: None };
                                let all = seq![node] + ns;
                                assert(parse_seq(p, 1) == Ok::<(Seq<SNode>, nat), crate::parse::PatternError>((all, m)));
                                assert forall|j: int| 0 <= j < all.len() implies is_simple_node(#[trigger] all[j]) by {
                                    if j > 0 {
                                        assert(all[j] == ns[j - 1]);
                                    }
                                }
                                if forall|j: int| 0 <= j < all.len() ==> is_anchor(#[trigger] all[j].atom) {
                                    assert(is_anchor(all[0].atom));
                                    assert forall|j: int| 0 <= j < ns.len() implies is_anchor(#[trigger] ns[j].atom) by {
                                        assert(all[j + 1] == ns[j]);
                                    }
                                }
                                if is_anc && (forall|j: int| 0 <= j < ns.len() ==> is_anchor(#[trigger] ns[j].atom)) {
                                    assert forall|j: int| 0 <= j < all.len() implies is_anchor(#[trigger] all[j].atom) by {
                                        if j > 0 {
                                            assert(all[j] == ns[j - 1]);
                                        }
                                    }
                                }
                            },
                        }
                    },
                }
            },
        }
    }
}

/// On the empty input, a sequence of simple nodes matches exactly when all
/// of them are anchors.
proof fn lemma_run_on_empty(ns: Seq<SNode>, caps: crate::matcher::Captures)
    requires
        forall|j: int| 0 <= j < ns.len() ==> is_simple_node(#[trigger] ns[j]),
    ensures
        run_stack(Seq::<char>::empty(), seq![Frame::Nodes(ns)], 0, caps) is Some <==> (forall|j: int| 0 <= j < ns.len() ==> is_anchor(#[trigger] ns[j].atom)),
    decreases ns.len(),
{
    let s = Seq::<char>::empty();
    let k = seq![Frame::Nodes(ns)];
    assert(k.drop_last() =~= Seq::<Frame>::empty());
    if ns.len() == 0 {
        assert(run_stack(s, k, 0, caps) == run_stack(s, Seq::<Frame>::empty(), 0, caps));
    } else {
        let rest = ns.drop_first();
        let k1 = Seq::<Frame>::empty().push(Frame::Nodes(rest));
        assert(k1 =~= seq![Frame::Nodes(rest)]);
        assert(is_simple_node(ns[0]));
        assert forall|j: int| 0 <= j < rest.len() implies is_simple_node(#[trigger] rest[j]) by {
            assert(rest[j] == ns[j + 1]);
        }
        lemma_run_on_empty(rest, caps);
        assert(run_stack(s, k, 0, caps) == run_node(s, ns[0], k1, 0, caps));
        assert(run_node(s, ns[0], k1, 0, caps) == run_atom(s, ns[0].atom, k1, 0, caps));
        if is_anchor(ns[0].atom) {
            assert(run_atom(s, ns[0].atom, k1, 0, caps) == run_stack(s, k1, 0, caps));
            if forall|j: int| 0 <= j < rest.len() ==> is_anchor(#[trigger] rest[j].atom) {
                assert forall|j: int| 0 <= j < ns.len() implies is_anchor(#[trigger] ns[j].atom) by {
                    if j > 0 {
                        assert(ns[j] == rest[j - 1]);
                    }
                }
            }
            if forall|j: int| 0 <= j < ns.len() ==> is_anchor(#[trigger] ns[j].atom) {
                assert forall|j: int| 0 <= j < rest.len() implies is_anchor(#[trigger] rest[j].atom) by {
                    assert(ns[j + 1] == rest[j]);
                }
            }
        } else {
            assert(run_atom(s, ns[0].atom, k1, 0, caps) is None);
        }
    }
}

/// On the empty input, a pattern without quantifiers, groups or `|` matches
/// exactly when it is empty, `^`, `$` or `^$`. Other strings of anchors alone,
/// such as `$^`, match the empty input too, and are left out.
pub proof fn law_empty_input(p: Seq<char>)
    requires
        has_no_repetition_or_group(p),
        anchors_only(p) ==> (p == Seq::<char>::empty() || p == seq!['^'] || p == seq!['$'] || p
            == seq!['^', '$']),
    ensures
        pattern_matches(Seq::<char>::empty(), p) <==> (p == Seq::<char>::empty() || p == seq!['^']
            || p == seq!['$'] || p == seq!['^', '$']),
{
    let s = Seq::<char>::empty();
    assert(anchors_only(seq!['^', '$']));
    assert(anchors_only(seq!['^']));
    assert(anchors_only(seq!['$']));
    assert(anchors_only(Seq::<char>::empty()));
    assert forall|j: int| 0 <= j < p.len() implies !(p[j] == '|' && #[trigger] paren_depth(p, j) == 0) by {}
    lemma_one_branch(p, 0, 1);
    lemma_restricted_parse(p);
    match parse_seq(p, 1) {
        Err(_) => {},
        Ok((ns, n)) => {
            lemma_single_branch_match(s, ns, 1, 0);
            lemma_run_on_empty(ns, no_captures(1));
            if pattern_matches(s, p) {
                let i = choose|i: nat| i <= s.len() && #[trigger] match_at(s, seq![ns], 1, i) is Some;
                assert(i == 0);
            }
            if anchors_only(p) {
                assert(match_at(s, seq![ns], 1, 0) is Some);
            }
        },
    }
}

pub open spec fn end_node() -> SNode {
    SNode { atom: SAtom::EndAnchor, quantifier: None }
}

proof fn lemma_depth_prefix(p: Seq<char>, c: char, i: int)
    requires
        0 <= i <= p.len(),
    ensures
        paren_depth(p.push(c), i) == paren_depth(p, i),
    decreases i,
{
    if i > 0 {
        lemma_depth_prefix(p, c, i - 1);
        assert(p.push(c)[i - 1] == p[i - 1]);
    }
}

proof fn lemma_find_char_extend(p: Seq<char>, d: char, c: char, i: nat)
    requires
        i <= p.len(),
        find_char(p, c, i) < p.len(),
    ensures
        find_char(p.push(d), c, i) == find_char(p, c, i),
    decreases p.len() - i,
{
    if p[i as int] != c {
        lemma_find_char_extend(p, d, c, i + 1);
    }
}

proof fn lemma_group_end_extend(p: Seq<char>, d: char, i: nat)
    requires
        i <= p.len(),
        group_end(p, i) < p.len(),
    ensures
        group_end(p.push(d), i) == group_end(p, i),
    decreases p.len() - i,
{
    lemma_depth_prefix(p, d, i as int + 1);
    if !(p[i as int] == ')' && paren_depth(p, i as int + 1) == 0) {
        lemma_group_end_extend(p, d, i + 1);
    }
}

proof fn lemma_plain_end_extend(p: Seq<char>, i: nat)
    requires
        i <= p.len(),
    ensures
        plain_end(p.push('$'), i) == plain_end(p, i),
    decreases p.len() - i,
{
    if i < p.len() {
        lemma_plain_end_extend(p, i + 1);
    } else {
        assert(p.push('$')[i as int] == '$');
    }
}

/// Appending `$` leaves the first token of a well-formed text alone.
proof fn lemma_token_extend(p: Seq<char>)
    requires
        p.len() > 0,
        token_of(p) is Ok,
    ensures
        token_of(p.push('$')) == token_of(p),
{
    let q = p.push('$');
    assert(q[0] == p[0]);
    lemma_plain_end_extend(p, 0);
    lemma_plain_end_bounds(p, 0);
    if p[0] == '[' {
        crate::pattern::lemma_find_char_bounds(p, ']', 1);
        lemma_find_char_extend(p, '$', ']', 1);
        assert(q.subrange(1, find_char(p, ']', 1) as int) =~= p.subrange(1, find_char(p, ']', 1) as int));
    } else if p[0] == '(' {
        crate::pattern::lemma_group_end_bounds(p, 1);
        lemma_group_end_extend(p, '$', 1);
        assert(q.subrange(1, group_end(p, 1) as int) =~= p.subrange(1, group_end(p, 1) as int));
    } else if p[0] == '\\' {
        assert(q[1] == p[1]);
    } else if literal_len(p) > 0 {
        let n = plain_end(p, 0);
        if n < p.len() {
            assert(q[n as int] == p[n as int]);
        } else {
            assert(q[n as int] == '$');
        }
        assert(literal_len(q) == literal_len(p));
        assert(q.subrange(0, literal_len(p) as int) =~= p.subrange(0, literal_len(p) as int));
    } else {
        let n = plain_end(p, 0);
        assert(n == 0);
        assert(literal_len(q) == 0);
    }
}

/// Appending `$` leaves a well-formed quantifier alone.
proof fn lemma_quantifier_extend(r: Seq<char>)
    requires
        quantifier_of(r) is Ok,
    ensures
        quantifier_of(r.push('$')) == quantifier_of(r),
{
    let q = r.push('$');
    if r.len() > 0 {
        assert(q[0] == r[0]);
        if r[0] == '{' {
            crate::pattern::lemma_find_char_bounds(r, '}', 1);
            lemma_find_char_extend(r, '$', '}', 1);
            let j = find_char(r, '}', 1);
            assert(q.subrange(1, j as int) =~= r.subrange(1, j as int));
        }
    } else {
        assert(q[0] == '$');
    }
}

/// A well-formed branch text followed by `$` parses to its nodes and an end
/// anchor.
proof fn lemma_parse_extend(p: Seq<char>, next: nat)
    requires
        parse_seq(p, next) is Ok,
    ensures
        parse_seq(p, next) matches Ok((ns, m)) && parse_seq(p.push('$'), next) == Ok::<
            (Seq<SNode>, nat),
            crate::parse::PatternError,
        >((ns.push(end_node()), m)),
    decreases p.len(),
{
    let q = p.push('$');
    if p.len() == 0 {
        assert(q =~= seq!['$']);
        assert(token_of(q) == Ok::<(Token, nat), crate::parse::PatternError>((Token::End, 1)));
        let rest = q.subrange(1, 1);
        assert(rest =~= Seq::<char>::empty());
        assert(quantifier_part(rest).1 == 0);
        assert(rest.subrange(0, 0) =~= Seq::<char>::empty());
        let e: Seq<SNode> = seq![];
        assert(parse_seq(rest.subrange(0, 0), next) == Ok::<(Seq<SNode>, nat), crate::parse::PatternError>((e, next)));
        assert(seq![end_node()] + e =~= e.push(end_node()));
    } else {
        lemma_token_len(p);
        lemma_token_extend(p);
        let (t, k) = token_of(p)->Ok_0;
        let rest = p.subrange(k as int, p.len() as int);
        assert(q.subrange(k as int, q.len() as int) =~= rest.push('$'));
        crate::pattern::lemma_quantifier_len(rest);
        lemma_quantifier_extend(rest);
        let m = quantifier_part(rest).1;
        assert(quantifier_part(rest.push('$')) == quantifier_part(rest));
        let rest2 = rest.subrange(m as int, rest.len() as int);
        assert(rest.push('$').subrange(m as int, rest.len() as int + 1) =~= rest2.push('$'));
        let n1 = match t {
            Token::Group(inner) => parse_alternatives(inner, 0, next + 1)->Ok_0.1,
            _ => next,
        };
        lemma_parse_extend(rest2, n1);
        let ns2 = parse_seq(rest2, n1)->Ok_0.0;
        let a = match t {
            Token::Group(inner) => SAtom::Group(parse_alternatives(inner, 0, next + 1)->Ok_0.0, next),
            _ => simple_atom(t, next)->Ok_0,
        };
        let node = SNode { atom: a, quantifier: quantifier_part(rest).0 };
        assert(seq![node] + ns2.push(end_node()) =~= (seq![node] + ns2).push(end_node()));
    }
}

/// The pending work of a sequence `x` followed by `b`, as one frame, under
/// the frames `top`.
pub open spec fn joined(x: Seq<SNode>, b: Seq<SNode>, top: Seq<Frame>) -> Seq<Frame> {
    seq![Frame::Nodes(x + b)] + top
}

/// The same work with `b` pending below `x`.
pub open spec fn split(x: Seq<SNode>, b: Seq<SNode>, top: Seq<Frame>) -> Seq<Frame> {
    seq![Frame::Nodes(b), Frame::Nodes(x)] + top
}

proof fn lemma_frames_push(x: Seq<SNode>, b: Seq<SNode>, top: Seq<Frame>, f: Frame)
    ensures
        joined(x, b, top).push(f) == joined(x, b, top.push(f)),
        split(x, b, top).push(f) == split(x, b, top.push(f)),
{
    assert(joined(x, b, top).push(f) =~= joined(x, b, top.push(f)));
    assert(split(x, b, top).push(f) =~= split(x, b, top.push(f)));
}

proof fn lemma_frames_pop(x: Seq<SNode>, b: Seq<SNode>, top: Seq<Frame>)
    requires
        top.len() > 0,
    ensures
        joined(x, b, top).last() == top.last(),
        joined(x, b, top).drop_last() == joined(x, b, top.drop_last()),
        split(x, b, top).last() == top.last(),
        split(x, b, top).drop_last() == split(x, b, top.drop_last()),
        split(x, b, top) == split(x, b, top.drop_last()).push(top.last()),
{
    assert(joined(x, b, top).drop_last() =~= joined(x, b, top.drop_last()));
    assert(split(x, b, top).drop_last() =~= split(x, b, top.drop_last()));
    assert(split(x, b, top) =~= split(x, b, top.drop_last()).push(top.last()));
}

/// Matching a sequence `x ++ b` is matching `x` with `b` left pending.
pub proof fn lemma_seq_concat(
    s: Seq<char>,
    x: Seq<SNode>,
    b: Seq<SNode>,
    top: Seq<Frame>,
    pos: nat,
    caps: Captures,
)
    ensures
        run_stack(s, joined(x, b, top), pos, caps) == run_stack(s, split(x, b, top), pos, caps),
    decreases s.len() - pos, stack_weight(split(x, b, top), pos) + 1,
{
    if pos <= s.len() {
        if top.len() > 0 {
            lemma_frames_pop(x, b, top);
            let t2 = top.drop_last();
            let f0 = top.last();
            lemma_stack_weight_push(split(x, b, t2), f0, pos);
            match f0 {
                Frame::Nodes(ns) => {
                    if ns.len() > 0 {
                        let f = Frame::Nodes(ns.drop_first());
                        lemma_frames_push(x, b, t2, f);
                        lemma_stack_weight_push(split(x, b, t2), f, pos);
                        lemma_nodes_weight_shift(ns, 0);
                        lemma_seq_concat_node(s, ns[0], x, b, t2.push(f), pos, caps);
                    } else {
                        lemma_seq_concat(s, x, b, t2, pos, caps);
                    }
                },
                Frame::Close(g, start) => {
                    let caps2 = if g < caps.len() && start <= pos {
                        caps.update(g as int, Some((start as usize, pos as usize)))
                    } else {
                        caps
                    };
                    lemma_seq_concat(s, x, b, t2, pos, caps2);
                },
                Frame::Again(n, c, from) => {
                    if pos == from {
                        lemma_seq_concat(s, x, b, t2, pos, caps);
                    } else {
                        lemma_seq_concat_loop(s, n, c, x, b, t2, pos, caps);
                    }
                },
            }
        } else {
            let e = Seq::<Frame>::empty();
            assert(joined(x, b, top) =~= seq![Frame::Nodes(x + b)]);
            assert(split(x, b, top) =~= e.push(Frame::Nodes(b)).push(Frame::Nodes(x)));
            assert(seq![Frame::Nodes(x + b)].drop_last() =~= e);
            lemma_stack_weight_push(e, Frame::Nodes(b), pos);
            lemma_stack_weight_push(e.push(Frame::Nodes(b)), Frame::Nodes(x), pos);
            assert(e.push(Frame::Nodes(b)).push(Frame::Nodes(x)).drop_last() =~= e.push(Frame::Nodes(b)));
            if x.len() > 0 {
                let x2 = x.drop_first();
                assert((x + b).drop_first() =~= x2 + b);
                assert((x + b)[0] == x[0]);
                assert(e.push(Frame::Nodes(x2 + b)) =~= joined(x2, b, e));
                assert(e.push(Frame::Nodes(b)).push(Frame::Nodes(x2)) =~= split(x2, b, e));
                lemma_stack_weight_push(e, Frame::Nodes(b), pos);
                lemma_stack_weight_push(e.push(Frame::Nodes(b)), Frame::Nodes(x2), pos);
                lemma_nodes_weight_shift(x, 0);
                lemma_seq_concat_node(s, x[0], x2, b, e, pos, caps);
            } else {
                assert(x + b =~= b);
                assert(e.push(Frame::Nodes(b)) =~= seq![Frame::Nodes(b)]);
            }
        }
    }
}

pub proof fn lemma_seq_concat_node(
    s: Seq<char>,
    n: SNode,
    x: Seq<SNode>,
    b: Seq<SNode>,
    top: Seq<Frame>,
    pos: nat,
    caps: Captures,
)
    ensures
        run_node(s, n, joined(x, b, top), pos, caps) == run_node(s, n, split(x, b, top), pos, caps),
    decreases s.len() - pos, node_weight(n) + stack_weight(split(x, b, top), pos),
{
    if pos <= s.len() {
        if n.quantifier is None {
            lemma_seq_concat_atom(s, n.atom, x, b, top, pos, caps);
        } else {
            lemma_seq_concat_loop(s, n, 0, x, b, top, pos, caps);
        }
    }
}

pub proof fn lemma_seq_concat_loop(
    s: Seq<char>,
    n: SNode,
    count: nat,
    x: Seq<SNode>,
    b: Seq<SNode>,
    top: Seq<Frame>,
    pos: nat,
    caps: Captures,
)
    ensures
        run_loop(s, n, count, joined(x, b, top), pos, caps) == run_loop(
            s,
            n,
            count,
            split(x, b, top),
            pos,
            caps,
        ),
    decreases s.len() - pos, atom_weight(n.atom) + 2 + stack_weight(split(x, b, top), pos),
{
    if pos <= s.len() {
        let f = Frame::Again(n, next_count(count), pos);
        lemma_frames_push(x, b, top, f);
        lemma_stack_weight_push(split(x, b, top), f, pos);
        lemma_seq_concat_atom(s, n.atom, x, b, top.push(f), pos, caps);
        lemma_seq_concat(s, x, b, top, pos, caps);
    }
}

pub proof fn lemma_seq_concat_atom(
    s: Seq<char>,
    a: SAtom,
    x: Seq<SNode>,
    b: Seq<SNode>,
    top: Seq<Frame>,
    pos: nat,
    caps: Captures,
)
    ensures
        run_atom(s, a, joined(x, b, top), pos, caps) == run_atom(s, a, split(x, b, top), pos, caps),
    decreases s.len() - pos, atom_weight(a) + stack_weight(split(x, b, top), pos),
{
    if pos <= s.len() {
        match a {
            SAtom::Literal(t) => {
                if text_at(s, pos, t) {
                    lemma_seq_concat(s, x, b, top, pos + t.len(), caps);
                }
            },
            SAtom::Backreference(g) => {
                if g < caps.len() && caps[g as int] is Some {
                    let (from, to) = caps[g as int]->Some_0;
                    if from <= to <= s.len() && text_at(s, pos, s.subrange(from as int, to as int)) {
                        lemma_seq_concat(s, x, b, top, (pos + (to - from)) as nat, caps);
                    }
                }
            },
            SAtom::Group(bs, g) => {
                lemma_seq_concat_group(s, bs, 0, g, x, b, top, pos, caps);
            },
            SAtom::StartAnchor => {
                if pos == 0 {
                    lemma_seq_concat(s, x, b, top, pos, caps);
                }
            },
            SAtom::EndAnchor => {
                if pos == s.len() {
                    lemma_seq_concat(s, x, b, top, pos, caps);
                }
            },
            SAtom::Empty => {
                lemma_seq_concat(s, x, b, top, pos, caps);
            },
            _ => {
                if pos < s.len() && accepts_char(a, s[pos as int]) {
                    lemma_seq_concat(s, x, b, top, pos + 1, caps);
                }
            },
        }
    }
}

pub proof fn lemma_seq_concat_group(
    s: Seq<char>,
    bs: Seq<Seq<SNode>>,
    i: nat,
    g: nat,
    x: Seq<SNode>,
    b: Seq<SNode>,
    top: Seq<Frame>,
    pos: nat,
    caps: Captures,
)
    ensures
        run_group(s, bs, i, g, joined(x, b, top), pos, caps) == run_group(
            s,
            bs,
            i,
            g,
            split(x, b, top),
            pos,
            caps,
        ),
    decreases s.len() - pos, 1 + branches_weight(bs, i as int) + stack_weight(split(x, b, top), pos),
{
    if pos <= s.len() && i < bs.len() {
        let f1 = Frame::Close(g, pos);
        let f2 = Frame::Nodes(bs[i as int]);
        lemma_frames_push(x, b, top, f1);
        lemma_frames_push(x, b, top.push(f1), f2);
        lemma_stack_weight_push(split(x, b, top), f1, pos);
        lemma_stack_weight_push(split(x, b, top.push(f1)), f2, pos);
        lemma_seq_concat(s, x, b, top.push(f1).push(f2), pos, caps);
        lemma_seq_concat_group(s, bs, i + 1, g, x, b, top, pos, caps);
    }
}

/// A way through the nodes `ns` that starts at `i` and finishes exactly at
/// the end of the input.
pub open spec fn finishes_at_end(s: Seq<char>, ns: Seq<SNode>, next: nat, i: nat) -> bool {
    run_stack(s, seq![Frame::Nodes(seq![end_node()]), Frame::Nodes(ns)], i, no_captures(next)) is Some
}

/// With `$` after it, a well-formed pattern without a top-level `|` matches
/// exactly when, from some start, a way through it finishes at the end of
/// the input.
pub proof fn law_end_anchor(s: Seq<char>, p: Seq<char>)
    requires
        no_top_level_bar(p),
        parse_pattern(p) is Ok,
    ensures
        parse_pattern(p)->Ok_0.0.len() == 1,
        pattern_matches(s, p.push('$')) <==> exists|i: nat| i <= s.len() && #[trigger] finishes_at_end(
            s,
            parse_pattern(p)->Ok_0.0[0],
            parse_pattern(p)->Ok_0.1,
            i,
        ),
{
    let q = p.push('$');
    lemma_one_branch(p, 0, 1);
    assert forall|j: int| 0 <= j < q.len() implies !(q[j] == '|' && #[trigger] paren_depth(q, j) == 0) by {
        if j < p.len() {
            lemma_depth_prefix(p, '$', j);
            assert(q[j] == p[j]);
        } else {
            assert(q[j] == '$');
        }
    }
    lemma_one_branch(q, 0, 1);
    lemma_parse_extend(p, 1);
    let (ns, n) = parse_seq(p, 1)->Ok_0;
    let qs = ns.push(end_node());
    assert(parse_pattern(p) == Ok::<(Seq<Seq<SNode>>, nat), crate::parse::PatternError>((seq![ns], n)));
    assert(parse_pattern(q) == Ok::<(Seq<Seq<SNode>>, nat), crate::parse::PatternError>((seq![qs], n)));
    let e = Seq::<Frame>::empty();
    assert(qs =~= ns + seq![end_node()]);
    assert(joined(ns, seq![end_node()], e) =~= seq![Frame::Nodes(qs)]);
    assert(split(ns, seq![end_node()], e) =~= seq![Frame::Nodes(seq![end_node()]), Frame::Nodes(ns)]);
    assert forall|i: nat| i <= s.len() implies (#[trigger] match_at(s, seq![qs], n, i) is Some <==> finishes_at_end(s, ns, n, i)) by {
        lemma_single_branch_match(s, qs, n, i);
        lemma_seq_concat(s, ns, seq![end_node()], e, i, no_captures(n));
    }
    assert(seq![ns][0] == ns);
    if pattern_matches(s, q) {
        let i = choose|i: nat| i <= s.len() && #[trigger] match_at(s, seq![qs], n, i) is Some;
        assert(finishes_at_end(s, ns, n, i));
    }
    if exists|i: nat| i <= s.len() && #[trigger] finishes_at_end(s, ns, n, i) {
        let i = choose|i: nat| i <= s.len() && #[trigger] finishes_at_end(s, ns, n, i);
        assert(match_at(s, seq![qs], n, i) is Some);
        assert(pattern_matches(s, q));
    }
    assert(pattern_matches(s, q) <==> exists|i: nat| i <= s.len() && #[trigger] finishes_at_end(s, ns, n, i));
    assert(parse_pattern(p)->Ok_0.0[0] == ns);
    assert(parse_pattern(p)->Ok_0.1 == n);
    assert(q == p.push('$'));
}

/// The group numbers of the nodes `ns[i..]`, each group before the groups
/// inside it and those before the groups after it: the order in which
/// their opening parentheses stand in the text.
pub open spec fn groups_of_nodes(ns: Seq<SNode>, i: int) -> Seq<nat>
    decreases ns, ns.len() - i,
{
    if 0 <= i < ns.len() {
        groups_of_node(ns[i]) + groups_of_nodes(ns, i + 1)
    } else {
        seq![]
    }
}

pub open spec fn groups_of_node(n: SNode) -> Seq<nat>
    decreases n, 0int,
{
    match n.atom {
        SAtom::Group(bs, g) => seq![g] + groups_of_branches(bs, 0),
        _ => seq![],
    }
}

pub open spec fn groups_of_branches(bs: Seq<Seq<SNode>>, i: int) -> Seq<nat>
    decreases bs, bs.len() - i,
{
    if 0 <= i < bs.len() {
        groups_of_nodes(bs[i], 0) + groups_of_branches(bs, i + 1)
    } else {
        seq![]
    }
}

/// The numbers from `a` up to, not including, `b`.
pub open spec fn number_range(a: nat, b: nat) -> Seq<nat> {
    Seq::new((b - a) as nat, |k: int| (a + k) as nat)
}

proof fn lemma_range_concat(a: nat, b: nat, c: nat)
    requires
        a <= b <= c,
    ensures
        number_range(a, b) + number_range(b, c) == number_range(a, c),
{
    assert(number_range(a, b) + number_range(b, c) =~= number_range(a, c));
}

proof fn lemma_groups_of_nodes_cons(x: SNode, ys: Seq<SNode>, j: int)
    requires
        0 <= j <= ys.len(),
    ensures
        groups_of_nodes(seq![x] + ys, j + 1) == groups_of_nodes(ys, j),
    decreases ys.len() - j,
{
    if j < ys.len() {
        lemma_groups_of_nodes_cons(x, ys, j + 1);
        assert((seq![x] + ys)[j + 1] == ys[j]);
    }
}

proof fn lemma_groups_of_branches_cons(x: Seq<SNode>, ys: Seq<Seq<SNode>>, j: int)
    requires
        0 <= j <= ys.len(),
    ensures
        groups_of_branches(seq![x] + ys, j + 1) == groups_of_branches(ys, j),
    decreases ys.len() - j,
{
    if j < ys.len() {
        lemma_groups_of_branches_cons(x, ys, j + 1);
        assert((seq![x] + ys)[j + 1] == ys[j]);
    }
}

/// A branch text numbers its groups consecutively from `next`, in the order
/// of their opening parentheses.
pub proof fn lemma_seq_numbering(s: Seq<char>, next: nat)
    ensures
        parse_seq(s, next) matches Ok((ns, m)) ==> (next <= m && groups_of_nodes(ns, 0)
            == number_range(next, m)),
    decreases 2 * s.len() + 1, 0nat,
{
    if s.len() == 0 {
        assert(number_range(next, next) =~= Seq::<nat>::empty());
    } else if parse_seq(s, next) is Ok {
        lemma_token_len(s);
        let (t, k) = token_of(s)->Ok_0;
        let rest = s.subrange(k as int, s.len() as int);
        crate::pattern::lemma_quantifier_len(rest);
        let m = quantifier_part(rest).1;
        let rest2 = rest.subrange(m as int, rest.len() as int);
        let (a, n1) = match t {
            Token::Group(inner) => {
                lemma_alternatives_numbering(inner, 0, next + 1);
                let (bs, n2) = parse_alternatives(inner, 0, next + 1)->Ok_0;
                assert(number_range(next, n2) =~= seq![next] + number_range(next + 1, n2));
                (SAtom::Group(bs, next), n2)
            },
            _ => {
                assert(number_range(next, next) =~= Seq::<nat>::empty());
                (simple_atom(t, next)->Ok_0, next)
            },
        };
        let node = SNode { atom: a, quantifier: quantifier_part(rest).0 };
        assert(groups_of_node(node) == number_range(next, n1));
        lemma_seq_numbering(rest2, n1);
        let (ns2, m2) = parse_seq(rest2, n1)->Ok_0;
        let all = seq![node] + ns2;
        assert(parse_seq(s, next) == Ok::<(Seq<SNode>, nat), crate::parse::PatternError>((all, m2)));
        lemma_groups_of_nodes_cons(node, ns2, 0);
        assert(all[0] == node);
        assert(groups_of_nodes(all, 0) == groups_of_node(node) + groups_of_nodes(ns2, 0));
        lemma_range_concat(next, n1, m2);
    }
}

/// The branches of a text number their groups consecutively from `next`,
/// in the order of their opening parentheses.
pub proof fn lemma_alternatives_numbering(t: Seq<char>, i: nat, next: nat)
    ensures
        parse_alternatives(t, i, next) matches Ok((bs, m)) ==> (next <= m && groups_of_branches(
            bs,
            0,
        ) == number_range(next, m)),
    decreases 2 * t.len() + 2, t.len() - i,
{
    if parse_alternatives(t, i, next) is Ok {
        if i >= t.len() {
            lemma_seq_numbering(t, next);
            let (ns, m) = parse_seq(t, next)->Ok_0;
            let bs = seq![ns];
            assert(bs[0] == ns);
            assert(groups_of_branches(bs, 1) =~= Seq::<nat>::empty());
            assert(groups_of_branches(bs, 0) == groups_of_nodes(ns, 0) + groups_of_branches(bs, 1));
            assert(groups_of_nodes(ns, 0) + Seq::<nat>::empty() =~= groups_of_nodes(ns, 0));
        } else if t[i as int] == '|' && paren_depth(t, i as int) == 0 {
            let left = t.subrange(0, i as int);
            let right = t.subrange(i as int + 1, t.len() as int);
            lemma_seq_numbering(left, next);
            let (ns, n2) = parse_seq(left, next)->Ok_0;
            lemma_alternatives_numbering(right, 0, n2);
            let (bs, n3) = parse_alternatives(right, 0, n2)->Ok_0;
            let all = seq![ns] + bs;
            lemma_groups_of_branches_cons(ns, bs, 0);
            assert(all[0] == ns);
            assert(groups_of_branches(all, 0) == groups_of_nodes(ns, 0) + groups_of_branches(bs, 0));
            lemma_range_concat(next, n2, n3);
        } else {
            lemma_alternatives_numbering(t, i + 1, next);
        }
    }
}

/// Groups are numbered from 1 in the order of their opening parentheses:
/// each group before the groups nested in it, and those before the groups
/// that follow.
pub proof fn law_group_numbering(p: Seq<char>)
    ensures
        parse_pattern(p) matches Ok((bs, n)) ==> groups_of_branches(bs, 0) == number_range(1, n),
{
    lemma_alternatives_numbering(p, 0, 1);
}

} // verus!
