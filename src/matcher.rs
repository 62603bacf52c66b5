//! Matching: the semantics of greedy, first-success backtracking as spec
//! functions over pending work, and the matcher proved to compute it.
//! Every step that consumes no input lowers a weight of the pending work,
//! so matching always ends.

use vstd::prelude::*;
use crate::parse::{chars_of, is_digit, Parser, PatternError, QuantifierType};
use crate::pattern::{
    lemma_view_branches, lemma_view_nodes, parse_pattern, view_atom, view_branches, view_node,
    view_nodes, Atom, Node, Pattern, SAtom, SNode,
};

verus! {

/// What each group last captured, as a span of the input; index 0 is unused.
/// A group's span is set when the group closes, so a backreference sees the
/// text of the last completed pass through that group, never a partial one;
/// a group that has not closed yet matches nothing when referenced.
pub type Captures = Seq<Option<(usize, usize)>>;

/// Work still pending after the atom being matched.
pub enum Frame {
    /// The nodes of a sequence still to match.
    Nodes(Seq<SNode>),
    /// The end of group `k`, which opened at a position.
    Close(nat, nat),
    /// The check after one more repetition of a node: the number of
    /// repetitions so far, and where the last one began.
    Again(SNode, nat, nat),
}

/// The fewest repetitions a quantifier asks for.
pub open spec fn min_reps(q: Option<QuantifierType>) -> nat {
    match q {
        None => 1,
        Some(QuantifierType::Plus) => 1,
        Some(QuantifierType::Question) => 0,
        Some(QuantifierType::Star) => 0,
        Some(QuantifierType::Repitition((a, _))) => if a < 0 {
            0
        } else {
            a as nat
        },
    }
}

/// The most repetitions a quantifier allows, `None` when unbounded.
pub open spec fn max_reps(q: Option<QuantifierType>) -> Option<nat> {
    match q {
        None => Some(1),
        Some(QuantifierType::Plus) => None,
        Some(QuantifierType::Question) => Some(1),
        Some(QuantifierType::Star) => None,
        Some(QuantifierType::Repitition((_, b))) => if b == i32::MAX {
            None
        } else if b < 0 {
            Some(0)
        } else {
            Some(b as nat)
        },
    }
}

pub open spec fn is_word_char(c: char) -> bool {
    ('a' <= c && c <= 'z') || ('A' <= c && c <= 'Z') || is_digit(c) || c == '_'
}

/// Whether an atom that stands for one character accepts `c`.
pub open spec fn accepts_char(a: SAtom, c: char) -> bool {
    match a {
        SAtom::AnyChar => true,
        SAtom::CharClass(m, negated) => m.contains(c) != negated,
        SAtom::DigitClass => is_digit(c),
        SAtom::WordClass => is_word_char(c),
        _ => false,
    }
}

/// The repetition count after one more; counts past the largest bound a
/// quantifier can state are all alike, so the count stops growing there.
pub open spec fn next_count(c: nat) -> nat {
    if c > i32::MAX {
        c
    } else {
        c + 1
    }
}

/// Whether `t` stands in `s` at `pos`.
pub open spec fn text_at(s: Seq<char>, pos: nat, t: Seq<char>) -> bool {
    pos + t.len() <= s.len() && s.subrange(pos as int, pos + t.len() as int) == t
}

// The weights below bound the work left at one input position: every step
// that consumes nothing lowers it, which is why matching terminates.
pub open spec fn atom_weight(a: SAtom) -> nat
    decreases a, 0nat,
{
    match a {
        SAtom::Group(bs, _) => 2 + branches_weight(bs, 0),
        _ => 2,
    }
}

pub open spec fn node_weight(n: SNode) -> nat
    decreases n, 0nat,
{
    atom_weight(n.atom) + 3
}

pub open spec fn nodes_weight(ns: Seq<SNode>, i: int) -> nat
    decreases ns, ns.len() - i,
{
    if 0 <= i < ns.len() {
        node_weight(ns[i]) + 1 + nodes_weight(ns, i + 1)
    } else {
        0
    }
}

pub open spec fn branches_weight(bs: Seq<Seq<SNode>>, i: int) -> nat
    decreases bs, bs.len() - i,
{
    if 0 <= i < bs.len() {
        3 + nodes_weight(bs[i], 0) + branches_weight(bs, i + 1)
    } else {
        0
    }
}

/// A repetition check weighs little at the position where its repetition
/// began, since it ends the loop there, and more once the input has moved.
pub open spec fn frame_weight(f: Frame, pos: nat) -> nat {
    match f {
        Frame::Nodes(ns) => 1 + nodes_weight(ns, 0),
        Frame::Close(_, _) => 1,
        Frame::Again(n, _, from) => if from == pos {
            1
        } else {
            atom_weight(n.atom) + 3
        },
    }
}

pub open spec fn stack_weight(k: Seq<Frame>, pos: nat) -> nat
    decreases k.len(),
{
    if k.len() == 0 {
        0
    } else {
        frame_weight(k.last(), pos) + stack_weight(k.drop_last(), pos)
    }
}

pub proof fn lemma_nodes_weight_shift(ns: Seq<SNode>, i: int)
    requires
        0 <= i,
        ns.len() > 0,
    ensures
        nodes_weight(ns, i + 1) == nodes_weight(ns.drop_first(), i),
    decreases ns.len() - i,
{
    if i + 1 < ns.len() {
        lemma_nodes_weight_shift(ns, i + 1);
        assert(ns.drop_first()[i] == ns[i + 1]);
    }
}

pub proof fn lemma_stack_weight_push(k: Seq<Frame>, f: Frame, pos: nat)
    ensures
        stack_weight(k.push(f), pos) == frame_weight(f, pos) + stack_weight(k, pos),
{
    assert(k.push(f).drop_last() =~= k);
}

/// Continues with the pending work `k` at `pos`: the end position and the
/// captures of the first way to finish it, trying choices in order.
pub open spec fn run_stack(s: Seq<char>, k: Seq<Frame>, pos: nat, caps: Captures) -> Option<
    (nat, Captures),
>
    decreases s.len() - pos, stack_weight(k, pos) + 1,
{
    if pos > s.len() {
        None
    } else if k.len() == 0 {
        Some((pos, caps))
    } else {
        let rest = k.drop_last();
        match k.last() {
            Frame::Nodes(ns) => if ns.len() > 0 {
                proof {
                    lemma_stack_weight_push(rest, Frame::Nodes(ns.drop_first()), pos);
                    lemma_nodes_weight_shift(ns, 0);
                }
                run_node(s, ns[0], rest.push(Frame::Nodes(ns.drop_first())), pos, caps)
            } else {
                run_stack(s, rest, pos, caps)
            },
            Frame::Close(g, start) => {
                let caps2 = if g < caps.len() && start <= pos {
                    caps.update(g as int, Some((start as usize, pos as usize)))
                } else {
                    caps
                };
                run_stack(s, rest, pos, caps2)
            },
            Frame::Again(n, count, from) => if pos == from {
                run_stack(s, rest, pos, caps)
            } else {
                run_loop(s, n, count, rest, pos, caps)
            },
        }
    }
}

/// Matches one node, then the pending work.
pub open spec fn run_node(s: Seq<char>, n: SNode, k: Seq<Frame>, pos: nat, caps: Captures) -> Option<
    (nat, Captures),
>
    decreases s.len() - pos, node_weight(n) + stack_weight(k, pos),
{
    if pos > s.len() {
        None
    } else if n.quantifier is None {
        run_atom(s, n.atom, k, pos, caps)
    } else {
        run_loop(s, n, 0, k, pos, caps)
    }
}

/// A quantified node matched `count` times so far: greedily one more
/// repetition first, and else the pending work, once the minimum is met. A
/// repetition that consumes nothing ends the loop.
pub open spec fn run_loop(
    s: Seq<char>,
    n: SNode,
    count: nat,
    k: Seq<Frame>,
    pos: nat,
    caps: Captures,
) -> Option<(nat, Captures)>
    decreases s.len() - pos, atom_weight(n.atom) + 2 + stack_weight(k, pos),
{
    if pos > s.len() {
        None
    } else {
        let more = match max_reps(n.quantifier) {
            None => true,
            Some(m) => count < m,
        };
        proof {
            lemma_stack_weight_push(k, Frame::Again(n, next_count(count), pos), pos);
        }
        let first = if more {
            run_atom(s, n.atom, k.push(Frame::Again(n, next_count(count), pos)), pos, caps)
        } else {
            None
        };
        if first is Some {
            first
        } else if count >= min_reps(n.quantifier) {
            run_stack(s, k, pos, caps)
        } else {
            None
        }
    }
}

/// Matches one atom once, then the pending work.
pub open spec fn run_atom(s: Seq<char>, a: SAtom, k: Seq<Frame>, pos: nat, caps: Captures) -> Option<
    (nat, Captures),
>
    decreases s.len() - pos, atom_weight(a) + stack_weight(k, pos),
{
    if pos > s.len() {
        None
    } else {
        match a {
            SAtom::Literal(t) => if text_at(s, pos, t) {
                run_stack(s, k, pos + t.len(), caps)
            } else {
                None
            },
            SAtom::Backreference(g) => if g < caps.len() && caps[g as int] is Some {
                let (from, to) = caps[g as int]->Some_0;
                if from <= to <= s.len() && text_at(s, pos, s.subrange(from as int, to as int)) {
                    run_stack(s, k, (pos + (to - from)) as nat, caps)
                } else {
                    None
                }
            } else {
                None
            },
            SAtom::Group(bs, g) => run_group(s, bs, 0, g, k, pos, caps),
            SAtom::StartAnchor => if pos == 0 {
                run_stack(s, k, pos, caps)
            } else {
                None
            },
            SAtom::EndAnchor => if pos == s.len() {
                run_stack(s, k, pos, caps)
            } else {
                None
            },
            SAtom::Empty => run_stack(s, k, pos, caps),
            _ => if pos < s.len() && accepts_char(a, s[pos as int]) {
                run_stack(s, k, pos + 1, caps)
            } else {
                None
            },
        }
    }
}

/// The alternatives of group `g` from the `i`-th on, each followed by the
/// group's end and the pending work: the first that lets it all finish.
pub open spec fn run_group(
    s: Seq<char>,
    bs: Seq<Seq<SNode>>,
    i: nat,
    g: nat,
    k: Seq<Frame>,
    pos: nat,
    caps: Captures,
) -> Option<(nat, Captures)>
    decreases s.len() - pos, 1 + branches_weight(bs, i as int) + stack_weight(k, pos),
{
    if pos > s.len() || i >= bs.len() {
        None
    } else {
        proof {
            lemma_stack_weight_push(k, Frame::Close(g, pos), pos);
            lemma_stack_weight_push(k.push(Frame::Close(g, pos)), Frame::Nodes(bs[i as int]), pos);
        }
        let r = run_stack(s, k.push(Frame::Close(g, pos)).push(Frame::Nodes(bs[i as int])), pos, caps);
        if r is Some {
            r
        } else {
            run_group(s, bs, i + 1, g, k, pos, caps)
        }
    }
}

/// The steps the matcher takes for `run_stack`: one per call it makes.
pub open spec fn cost_stack(s: Seq<char>, k: Seq<Frame>, pos: nat, caps: Captures) -> nat
    decreases s.len() - pos, stack_weight(k, pos) + 1,
{
    if pos > s.len() || k.len() == 0 {
        1
    } else {
        let rest = k.drop_last();
        match k.last() {
            Frame::Nodes(ns) => if ns.len() > 0 {
                proof {
                    lemma_stack_weight_push(rest, Frame::Nodes(ns.drop_first()), pos);
                    lemma_nodes_weight_shift(ns, 0);
                }
                1 + cost_node(s, ns[0], rest.push(Frame::Nodes(ns.drop_first())), pos, caps)
            } else {
                1 + cost_stack(s, rest, pos, caps)
            },
            Frame::Close(g, start) => {
                let caps2 = if g < caps.len() && start <= pos {
                    caps.update(g as int, Some((start as usize, pos as usize)))
                } else {
                    caps
                };
                1 + cost_stack(s, rest, pos, caps2)
            },
            Frame::Again(n, count, from) => if pos == from {
                1 + cost_stack(s, rest, pos, caps)
            } else {
                1 + cost_loop(s, n, count, rest, pos, caps)
            },
        }
    }
}

/// The steps the matcher takes for `run_node`.
pub open spec fn cost_node(s: Seq<char>, n: SNode, k: Seq<Frame>, pos: nat, caps: Captures) -> nat
    decreases s.len() - pos, node_weight(n) + stack_weight(k, pos),
{
    if pos > s.len() {
        1
    } else if n.quantifier is None {
        1 + cost_atom(s, n.atom, k, pos, caps)
    } else {
        1 + cost_loop(s, n, 0, k, pos, caps)
    }
}

/// The steps the matcher takes for `run_loop`.
pub open spec fn cost_loop(
    s: Seq<char>,
    n: SNode,
    count: nat,
    k: Seq<Frame>,
    pos: nat,
    caps: Captures,
) -> nat
    decreases s.len() - pos, atom_weight(n.atom) + 2 + stack_weight(k, pos),
{
    if pos > s.len() {
        1
    } else {
        let more = match max_reps(n.quantifier) {
            None => true,
            Some(m) => count < m,
        };
        let k2 = k.push(Frame::Again(n, next_count(count), pos));
        proof {
            lemma_stack_weight_push(k, Frame::Again(n, next_count(count), pos), pos);
        }
        let first = if more {
            run_atom(s, n.atom, k2, pos, caps)
        } else {
            None
        };
        1 + (if more {
            cost_atom(s, n.atom, k2, pos, caps)
        } else {
            0
        }) + (if first is None && count >= min_reps(n.quantifier) {
            cost_stack(s, k, pos, caps)
        } else {
            0
        })
    }
}

/// The steps the matcher takes for `run_atom`.
pub open spec fn cost_atom(s: Seq<char>, a: SAtom, k: Seq<Frame>, pos: nat, caps: Captures) -> nat
    decreases s.len() - pos, atom_weight(a) + stack_weight(k, pos),
{
    if pos > s.len() {
        1
    } else {
        1 + match a {
            SAtom::Literal(t) => if text_at(s, pos, t) {
                cost_stack(s, k, pos + t.len(), caps)
            } else {
                0
            },
            SAtom::Backreference(g) => if g < caps.len() && caps[g as int] is Some {
                let (from, to) = caps[g as int]->Some_0;
                if from <= to <= s.len() && text_at(s, pos, s.subrange(from as int, to as int)) {
                    cost_stack(s, k, (pos + (to - from)) as nat, caps)
                } else {
                    0
                }
            } else {
                0
            },
            SAtom::Group(bs, g) => cost_group(s, bs, 0, g, k, pos, caps),
            SAtom::StartAnchor => if pos == 0 {
                cost_stack(s, k, pos, caps)
            } else {
                0
            },
            SAtom::EndAnchor => if pos == s.len() {
                cost_stack(s, k, pos, caps)
            } else {
                0
            },
            SAtom::Empty => cost_stack(s, k, pos, caps),
            _ => if pos < s.len() && accepts_char(a, s[pos as int]) {
                cost_stack(s, k, pos + 1, caps)
            } else {
                0
            },
        }
    }
}

/// The steps the matcher takes for `run_group`.
pub open spec fn cost_group(
    s: Seq<char>,
    bs: Seq<Seq<SNode>>,
    i: nat,
    g: nat,
    k: Seq<Frame>,
    pos: nat,
    caps: Captures,
) -> nat
    decreases s.len() - pos, 1 + branches_weight(bs, i as int) + stack_weight(k, pos),
{
    if pos > s.len() || i >= bs.len() {
        1
    } else {
        proof {
            lemma_stack_weight_push(k, Frame::Close(g, pos), pos);
            lemma_stack_weight_push(k.push(Frame::Close(g, pos)), Frame::Nodes(bs[i as int]), pos);
        }
        let k2 = k.push(Frame::Close(g, pos)).push(Frame::Nodes(bs[i as int]));
        1 + cost_stack(s, k2, pos, caps) + if run_stack(s, k2, pos, caps) is None {
            cost_group(s, bs, i + 1, g, k, pos, caps)
        } else {
            0
        }
    }
}

/// How a call with a step allowance ended: with no allowance it always
/// finishes; with one, it finishes exactly when its cost fits, and spends
/// that cost.
pub open spec fn spent(before: Option<usize>, after: Option<usize>, finished: bool, cost: nat) -> bool {
    match before {
        None => finished && after is None,
        Some(f) => if cost <= f {
            finished && after == Some((f - cost) as usize)
        } else {
            !finished
        },
    }
}

/// Pending work as the matcher holds it: references into the compiled
/// pattern, positions and counts.
#[derive(Clone, Copy)]
enum Pending<'a> {
    Nodes(&'a Vec<Node>, usize),
    Close(usize, usize),
    Again(&'a Node, usize, usize),
}

spec fn view_pending<'a>(f: Pending<'a>) -> Frame {
    match f {
        Pending::Nodes(v, i) => Frame::Nodes(view_nodes(v@, i as int)),
        Pending::Close(g, p) => Frame::Close(g as nat, p as nat),
        Pending::Again(n, c, p) => Frame::Again(view_node(*n), c as nat, p as nat),
    }
}

spec fn view_stack<'a>(k: Seq<Pending<'a>>) -> Seq<Frame> {
    k.map_values(|f: Pending<'a>| view_pending(f))
}

/// Whether an executable outcome is the one the contracts describe.
pub open spec fn agrees(r: Option<(usize, Vec<Option<(usize, usize)>>)>, o: Option<(nat, Captures)>) -> bool {
    match r {
        None => o is None,
        Some((e, c)) => o == Some((e as nat, c@)),
    }
}

fn pushed<'a>(k: &Vec<Pending<'a>>, f: Pending<'a>) -> (r: Vec<Pending<'a>>)
    ensures
        r@ == k@.push(f),
        view_stack(r@) == view_stack(k@).push(view_pending(f)),
{
    let mut r: Vec<Pending<'a>> = Vec::new();
    let mut i: usize = 0;
    while i < k.len()
        invariant
            i <= k@.len(),
            r@ == k@.subrange(0, i as int),
        decreases k@.len() - i,
    {
        r.push(k[i]);
        assert(k@.subrange(0, i + 1) =~= k@.subrange(0, i as int).push(k@[i as int]));
        i += 1;
    }
    r.push(f);
    assert(r@ =~= k@.push(f));
    assert(view_stack(r@) =~= view_stack(k@).push(view_pending(f)));
    r
}

fn popped<'a>(k: &Vec<Pending<'a>>) -> (r: Vec<Pending<'a>>)
    requires
        k@.len() > 0,
    ensures
        r@ == k@.drop_last(),
        view_stack(r@) == view_stack(k@).drop_last(),
{
    let mut r: Vec<Pending<'a>> = Vec::new();
    let mut i: usize = 0;
    let last = k.len() - 1;
    while i < last
        invariant
            last + 1 == k@.len(),
            k@.len() > 0,
            i < k@.len(),
            r@ == k@.subrange(0, i as int),
        decreases k@.len() - i,
    {
        r.push(k[i]);
        assert(k@.subrange(0, i + 1) =~= k@.subrange(0, i as int).push(k@[i as int]));
        i += 1;
    }
    assert(r@ =~= k@.drop_last());
    assert(view_stack(r@) =~= view_stack(k@).drop_last());
    r
}

/// The captures with group `g` set to `v`.
fn with_capture(caps: &Vec<Option<(usize, usize)>>, g: usize, v: Option<(usize, usize)>) -> (r: Vec<
    Option<(usize, usize)>,
>)
    requires
        g < caps@.len(),
    ensures
        r@ == caps@.update(g as int, v),
{
    let mut r: Vec<Option<(usize, usize)>> = Vec::new();
    let mut i: usize = 0;
    while i < caps.len()
        invariant
            i <= caps@.len(),
            g < caps@.len(),
            r@ == caps@.update(g as int, v).subrange(0, i as int),
        decreases caps@.len() - i,
    {
        if i == g {
            r.push(v);
        } else {
            r.push(caps[i]);
        }
        assert(caps@.update(g as int, v).subrange(0, i + 1) =~= caps@.update(g as int, v).subrange(
            0,
            i as int,
        ).push(caps@.update(g as int, v)[i as int]));
        i += 1;
    }
    assert(r@ =~= caps@.update(g as int, v));
    r
}

fn copy_caps(caps: &Vec<Option<(usize, usize)>>) -> (r: Vec<Option<(usize, usize)>>)
    ensures
        r@ == caps@,
{
    let mut r: Vec<Option<(usize, usize)>> = Vec::new();
    let mut i: usize = 0;
    while i < caps.len()
        invariant
            i <= caps@.len(),
            r@ == caps@.subrange(0, i as int),
        decreases caps@.len() - i,
    {
        r.push(caps[i]);
        assert(caps@.subrange(0, i + 1) =~= caps@.subrange(0, i as int).push(caps@[i as int]));
        i += 1;
    }
    assert(r@ =~= caps@);
    r
}

/// Whether `t[from..to]` stands in `s` at `pos`.
fn same_at(s: &Vec<char>, pos: usize, t: &Vec<char>, from: usize, to: usize) -> (r: bool)
    requires
        pos <= s@.len(),
        from <= to <= t@.len(),
    ensures
        r == text_at(s@, pos as nat, t@.subrange(from as int, to as int)),
{
    let ghost w = t@.subrange(from as int, to as int);
    let n = to - from;
    let slen = s.len();
    if n > slen - pos {
        return false;
    }
    let mut j: usize = 0;
    while j < n
        invariant
            pos + n <= slen,
            slen == s@.len(),
            from + n == to <= t@.len(),
            w == t@.subrange(from as int, to as int),
            j <= n,
            forall|i: int| 0 <= i < j ==> s@[pos + i] == w[i],
        decreases n - j,
    {
        if s[pos + j] != t[from + j] {
            assert(s@.subrange(pos as int, pos + n)[j as int] != w[j as int]);
            return false;
        }
        j += 1;
    }
    assert(s@.subrange(pos as int, pos + n) =~= w);
    true
}

fn is_word_exec(c: char) -> (r: bool)
    ensures
        r == is_word_char(c),
{
    ('a' <= c && c <= 'z') || ('A' <= c && c <= 'Z') || ('0' <= c && c <= '9') || c == '_'
}

/// Whether an atom that stands for one character accepts `c`.
fn accepts(a: &Atom, c: char) -> (r: bool)
    ensures
        r == accepts_char(view_atom(*a), c),
{
    match a {
        Atom::AnyChar => true,
        Atom::DigitClass => '0' <= c && c <= '9',
        Atom::WordClass => is_word_exec(c),
        Atom::CharClass(m, negated) => {
            let mut found = false;
            let mut i: usize = 0;
            while i < m.len()
                invariant
                    i <= m@.len(),
                    found == exists|j: int| 0 <= j < i && m@[j] == c,
                decreases m@.len() - i,
            {
                if m[i] == c {
                    found = true;
                }
                i += 1;
            }
            assert(found == m@.contains(c));
            found != *negated
        },
        _ => false,
    }
}

fn bounds(q: &Option<QuantifierType>) -> (r: (usize, Option<usize>))
    ensures
        r.0 == min_reps(*q),
        match max_reps(*q) {
            None => r.1 is None,
            Some(m) => r.1 == Some(m as usize) && m <= i32::MAX,
        },
{
    match q {
        None => (1, Some(1)),
        Some(QuantifierType::Plus) => (1, None),
        Some(QuantifierType::Question) => (0, Some(1)),
        Some(QuantifierType::Star) => (0, None),
        Some(QuantifierType::Repitition((a, b))) => {
            let lo: usize = if *a < 0 {
                0
            } else {
                *a as usize
            };
            let hi: Option<usize> = if *b == i32::MAX {
                None
            } else if *b < 0 {
                Some(0)
            } else {
                Some(*b as usize)
            };
            (lo, hi)
        },
    }
}

/// Takes one step from the allowance, if there is one; false when it is
/// used up.
fn tick(fuel: &mut Option<usize>) -> (ok: bool)
    ensures
        *old(fuel) is None ==> ok && *final(fuel) is None,
        *old(fuel) matches Some(f) ==> ((ok <==> f > 0) && (ok ==> *final(fuel) == Some(
            (f - 1) as usize,
        ))),
{
    match *fuel {
        None => true,
        Some(f) => {
            if f == 0 {
                false
            } else {
                *fuel = Some(f - 1);
                true
            }
        },
    }
}

fn run_stack_exec<'a>(
    s: &Vec<char>,
    k: &Vec<Pending<'a>>,
    pos: usize,
    caps: &Vec<Option<(usize, usize)>>,
    fuel: &mut Option<usize>,
) -> (r: Result<Option<(usize, Vec<Option<(usize, usize)>>)>, ()>)
    requires
        pos <= s@.len(),
    ensures
        spent(*old(fuel), *final(fuel), r is Ok, cost_stack(s@, view_stack(k@), pos as nat, caps@)),
        r matches Ok(x) ==> agrees(x, run_stack(s@, view_stack(k@), pos as nat, caps@)),
    decreases s@.len() - pos, stack_weight(view_stack(k@), pos as nat) + 1,
{
    if !tick(fuel) {
        return Err(());
    }
    if k.len() == 0 {
        return Ok(Some((pos, copy_caps(caps))));
    }
    let top = k[k.len() - 1];
    let rest = popped(k);
    assert(view_stack(k@).last() == view_pending(top));
    match top {
        Pending::Nodes(v, i) => {
            proof {
                lemma_view_nodes(v@, 0);
                if i < v@.len() {
                    let ns = view_nodes(v@, i as int);
                    assert(ns[0] == view_node(v@[i as int]));
                    assert(ns.drop_first() =~= view_nodes(v@, i + 1));
                    lemma_nodes_weight_shift(ns, 0);
                } else {
                    assert(view_nodes(v@, i as int) =~= Seq::<SNode>::empty());
                }
            }
            if i < v.len() {
                let f = Pending::Nodes(v, i + 1);
                let k2 = pushed(&rest, f);
                proof {
                    lemma_stack_weight_push(view_stack(rest@), view_pending(f), pos as nat);
                }
                run_node_exec(s, &v[i], &k2, pos, caps, fuel)
            } else {
                run_stack_exec(s, &rest, pos, caps, fuel)
            }
        },
        Pending::Close(g, start) => {
            if g < caps.len() && start <= pos {
                let c2 = with_capture(caps, g, Some((start, pos)));
                run_stack_exec(s, &rest, pos, &c2, fuel)
            } else {
                run_stack_exec(s, &rest, pos, caps, fuel)
            }
        },
        Pending::Again(n, count, from) => {
            if pos == from {
                run_stack_exec(s, &rest, pos, caps, fuel)
            } else {
                run_loop_exec(s, n, count, &rest, pos, caps, fuel)
            }
        },
    }
}

fn run_node_exec<'a>(
    s: &Vec<char>,
    n: &'a Node,
    k: &Vec<Pending<'a>>,
    pos: usize,
    caps: &Vec<Option<(usize, usize)>>,
    fuel: &mut Option<usize>,
) -> (r: Result<Option<(usize, Vec<Option<(usize, usize)>>)>, ()>)
    requires
        pos <= s@.len(),
    ensures
        spent(*old(fuel), *final(fuel), r is Ok, cost_node(s@, view_node(*n), view_stack(k@), pos as nat, caps@)),
        r matches Ok(x) ==> agrees(x, run_node(s@, view_node(*n), view_stack(k@), pos as nat, caps@)),
    decreases s@.len() - pos, node_weight(view_node(*n)) + stack_weight(view_stack(k@), pos as nat),
{
    if !tick(fuel) {
        return Err(());
    }
    if n.quantifier.is_none() {
        run_atom_exec(s, &n.atom, k, pos, caps, fuel)
    } else {
        run_loop_exec(s, n, 0, k, pos, caps, fuel)
    }
}

fn run_loop_exec<'a>(
    s: &Vec<char>,
    n: &'a Node,
    count: usize,
    k: &Vec<Pending<'a>>,
    pos: usize,
    caps: &Vec<Option<(usize, usize)>>,
    fuel: &mut Option<usize>,
) -> (r: Result<Option<(usize, Vec<Option<(usize, usize)>>)>, ()>)
    requires
        pos <= s@.len(),
    ensures
        spent(
            *old(fuel),
            *final(fuel),
            r is Ok,
            cost_loop(s@, view_node(*n), count as nat, view_stack(k@), pos as nat, caps@),
        ),
        r matches Ok(x) ==> agrees(
            x,
            run_loop(s@, view_node(*n), count as nat, view_stack(k@), pos as nat, caps@),
        ),
    decreases s@.len() - pos, atom_weight(view_node(*n).atom) + 2 + stack_weight(
        view_stack(k@),
        pos as nat,
    ),
{
    if !tick(fuel) {
        return Err(());
    }
    let (lo, hi) = bounds(&n.quantifier);
    let more = match hi {
        None => true,
        Some(m) => count < m,
    };
    let next: usize = if count <= i32::MAX as usize {
        count + 1
    } else {
        count
    };
    let f = Pending::Again(n, next, pos);
    let k2 = pushed(k, f);
    proof {
        lemma_stack_weight_push(view_stack(k@), view_pending(f), pos as nat);
    }
    if more {
        match run_atom_exec(s, &n.atom, &k2, pos, caps, fuel) {
            Err(e) => {
                return Err(e);
            },
            Ok(first) => {
                if first.is_some() {
                    return Ok(first);
                }
            },
        }
    }
    if count >= lo {
        run_stack_exec(s, k, pos, caps, fuel)
    } else {
        Ok(None)
    }
}

fn run_atom_exec<'a>(
    s: &Vec<char>,
    a: &'a Atom,
    k: &Vec<Pending<'a>>,
    pos: usize,
    caps: &Vec<Option<(usize, usize)>>,
    fuel: &mut Option<usize>,
) -> (r: Result<Option<(usize, Vec<Option<(usize, usize)>>)>, ()>)
    requires
        pos <= s@.len(),
    ensures
        spent(*old(fuel), *final(fuel), r is Ok, cost_atom(s@, view_atom(*a), view_stack(k@), pos as nat, caps@)),
        r matches Ok(x) ==> agrees(x, run_atom(s@, view_atom(*a), view_stack(k@), pos as nat, caps@)),
    decreases s@.len() - pos, atom_weight(view_atom(*a)) + stack_weight(view_stack(k@), pos as nat),
{
    if !tick(fuel) {
        return Err(());
    }
    match a {
        Atom::Literal(t) => {
            let slen = s.len();
            assert(t@.subrange(0, t@.len() as int) =~= t@);
            if same_at(s, pos, t, 0, t.len()) {
                run_stack_exec(s, k, pos + t.len(), caps, fuel)
            } else {
                Ok(None)
            }
        },
        Atom::Backreference(g) => {
            if *g < caps.len() {
                match caps[*g] {
                    Some((from, to)) => {
                        if from <= to && to <= s.len() && same_at(s, pos, s, from, to) {
                            run_stack_exec(s, k, pos + (to - from), caps, fuel)
                        } else {
                            Ok(None)
                        }
                    },
                    None => Ok(None),
                }
            } else {
                Ok(None)
            }
        },
        Atom::Group(bs, g) => {
            proof {
                lemma_view_branches(bs@, 0);
            }
            run_group_exec(s, bs, 0, *g, k, pos, caps, fuel)
        },
        Atom::StartAnchor => {
            if pos == 0 {
                run_stack_exec(s, k, pos, caps, fuel)
            } else {
                Ok(None)
            }
        },
        Atom::EndAnchor => {
            if pos == s.len() {
                run_stack_exec(s, k, pos, caps, fuel)
            } else {
                Ok(None)
            }
        },
        Atom::Empty => run_stack_exec(s, k, pos, caps, fuel),
        _ => {
            if pos < s.len() && accepts(a, s[pos]) {
                run_stack_exec(s, k, pos + 1, caps, fuel)
            } else {
                Ok(None)
            }
        },
    }
}

fn run_group_exec<'a>(
    s: &Vec<char>,
    bs: &'a Vec<Vec<Node>>,
    i: usize,
    g: usize,
    k: &Vec<Pending<'a>>,
    pos: usize,
    caps: &Vec<Option<(usize, usize)>>,
    fuel: &mut Option<usize>,
) -> (r: Result<Option<(usize, Vec<Option<(usize, usize)>>)>, ()>)
    requires
        pos <= s@.len(),
        i <= bs@.len(),
    ensures
        spent(
            *old(fuel),
            *final(fuel),
            r is Ok,
            cost_group(s@, view_branches(bs@, 0), i as nat, g as nat, view_stack(k@), pos as nat, caps@),
        ),
        r matches Ok(x) ==> agrees(
            x,
            run_group(s@, view_branches(bs@, 0), i as nat, g as nat, view_stack(k@), pos as nat, caps@),
        ),
    decreases s@.len() - pos, 1 + branches_weight(view_branches(bs@, 0), i as int) + stack_weight(
        view_stack(k@),
        pos as nat,
    ),
{
    proof {
        lemma_view_branches(bs@, 0);
    }
    if !tick(fuel) {
        return Err(());
    }
    if i >= bs.len() {
        return Ok(None);
    }
    let f1 = Pending::Close(g, pos);
    let k1 = pushed(k, f1);
    let f2 = Pending::Nodes(&bs[i], 0);
    let k2 = pushed(&k1, f2);
    proof {
        lemma_stack_weight_push(view_stack(k@), view_pending(f1), pos as nat);
        lemma_stack_weight_push(view_stack(k1@), view_pending(f2), pos as nat);
        assert(view_pending(f2) == Frame::Nodes(view_branches(bs@, 0)[i as int]));
    }
    match run_stack_exec(s, &k2, pos, caps, fuel) {
        Err(e) => Err(e),
        Ok(r) => {
            if r.is_some() {
                Ok(r)
            } else {
                run_group_exec(s, bs, i + 1, g, k, pos, caps, fuel)
            }
        },
    }
}

/// Captures before any group has matched: one empty slot per group number
/// below `next`.
pub open spec fn no_captures(next: nat) -> Captures {
    Seq::new(next, |i: int| None)
}

/// The first of the branches, from the `i`-th on, that matches at `pos`.
pub open spec fn run_branches(
    s: Seq<char>,
    bs: Seq<Seq<SNode>>,
    i: nat,
    pos: nat,
    caps: Captures,
) -> Option<(nat, Captures)>
    decreases bs.len() - i,
{
    if i >= bs.len() {
        None
    } else {
        let r = run_stack(s, seq![Frame::Nodes(bs[i as int])], pos, caps);
        if r is Some {
            r
        } else {
            run_branches(s, bs, i + 1, pos, caps)
        }
    }
}

/// A match of the compiled branches that starts at `pos`, with groups
/// numbered below `next`: where it ends and what it captured.
pub open spec fn match_at(s: Seq<char>, bs: Seq<Seq<SNode>>, next: nat, pos: nat) -> Option<
    (nat, Captures),
> {
    run_branches(s, bs, 0, pos, no_captures(next))
}

/// The first match that starts at `from` or later: the leftmost start at
/// which the pattern matches, and where that match ends.
pub open spec fn first_match(s: Seq<char>, bs: Seq<Seq<SNode>>, next: nat, from: nat) -> Option<
    (nat, nat),
>
    decreases s.len() + 1 - from,
{
    if from > s.len() {
        None
    } else {
        match match_at(s, bs, next, from) {
            Some((e, _)) => Some((from, e)),
            None => first_match(s, bs, next, from + 1),
        }
    }
}

/// Whether the input holds a match of the pattern text: a well-formed
/// pattern that matches at some start position.
pub open spec fn pattern_matches(s: Seq<char>, p: Seq<char>) -> bool {
    match parse_pattern(p) {
        Ok((bs, next)) => exists|i: nat| i <= s.len() && #[trigger] match_at(s, bs, next, i) is Some,
        Err(_) => false,
    }
}

/// The first match of the pattern text in the input, or its fault.
pub open spec fn search(s: Seq<char>, p: Seq<char>) -> Result<Option<(nat, nat)>, PatternError> {
    match parse_pattern(p) {
        Ok((bs, next)) => Ok(first_match(s, bs, next, 0)),
        Err(e) => Err(e),
    }
}

pub proof fn lemma_first_match(s: Seq<char>, bs: Seq<Seq<SNode>>, next: nat, from: nat)
    ensures
        first_match(s, bs, next, from) is Some <==> exists|i: nat| from <= i <= s.len() && #[trigger] match_at(s, bs, next, i) is Some,
        first_match(s, bs, next, from) matches Some((a, e)) ==> (from <= a <= s.len() && (match_at(
            s,
            bs,
            next,
            a,
        ) matches Some((e2, _)) && e2 == e)),
    decreases s.len() + 1 - from,
{
    if from <= s.len() {
        lemma_first_match(s, bs, next, from + 1);
        if match_at(s, bs, next, from) is None {
            assert(first_match(s, bs, next, from) == first_match(s, bs, next, from + 1));
            if first_match(s, bs, next, from + 1) is Some {
                let i = choose|i: nat| from + 1 <= i <= s.len() && #[trigger] match_at(s, bs, next, i) is Some;
                assert(from <= i <= s.len() && match_at(s, bs, next, i) is Some);
            }
            if exists|i: nat| from <= i <= s.len() && #[trigger] match_at(s, bs, next, i) is Some {
                let i = choose|i: nat| from <= i <= s.len() && #[trigger] match_at(s, bs, next, i) is Some;
                assert(i != from);
                assert(from + 1 <= i <= s.len() && match_at(s, bs, next, i) is Some);
            }
        } else {
            assert(first_match(s, bs, next, from) is Some);
            assert(exists|i: nat| from <= i <= s.len() && #[trigger] match_at(s, bs, next, i) is Some);
        }
    } else {
        assert(first_match(s, bs, next, from) is None);
        assert(!exists|i: nat| from <= i <= s.len() && #[trigger] match_at(s, bs, next, i) is Some);
    }
}

fn no_captures_exec(n: usize) -> (r: Vec<Option<(usize, usize)>>)
    ensures
        r@ == no_captures(n as nat),
{
    let mut r: Vec<Option<(usize, usize)>> = Vec::new();
    let mut i: usize = 0;
    while i < n
        invariant
            i <= n,
            r@ == no_captures(i as nat),
        decreases n - i,
    {
        r.push(None);
        assert(r@ =~= no_captures((i + 1) as nat));
        i += 1;
    }
    r
}

/// The steps of trying the branches from the `i`-th on at `pos`.
pub open spec fn cost_branches(
    s: Seq<char>,
    bs: Seq<Seq<SNode>>,
    i: nat,
    pos: nat,
    caps: Captures,
) -> nat
    decreases bs.len() - i,
{
    if i >= bs.len() {
        0
    } else {
        let k = seq![Frame::Nodes(bs[i as int])];
        cost_stack(s, k, pos, caps) + if run_stack(s, k, pos, caps) is None {
            cost_branches(s, bs, i + 1, pos, caps)
        } else {
            0
        }
    }
}

/// The steps of the search for the first match that starts at `from` or
/// later.
pub open spec fn search_cost(s: Seq<char>, bs: Seq<Seq<SNode>>, next: nat, from: nat) -> nat
    decreases s.len() + 1 - from,
{
    if from > s.len() {
        0
    } else {
        cost_branches(s, bs, 0, from, no_captures(next)) + if match_at(s, bs, next, from) is None {
            search_cost(s, bs, next, from + 1)
        } else {
            0
        }
    }
}

/// Why a search with a step allowance gave no answer.
#[derive(Debug, PartialEq, Eq, Structural, Clone, Copy)]
pub enum MatchError {
    /// The pattern is malformed.
    Pattern(PatternError),
    /// The search needed more steps than it was allowed.
    BacktrackLimitExceeded,
}

impl Pattern {
    fn match_at_steps(&self, input: &Vec<char>, pos: usize, fuel: &mut Option<usize>) -> (r: Result<
        Option<usize>,
        (),
    >)
        requires
            pos <= input@.len(),
            self.groups < usize::MAX,
        ensures
            spent(
                *old(fuel),
                *final(fuel),
                r is Ok,
                cost_branches(
                    input@,
                    view_branches(self.branches@, 0),
                    0,
                    pos as nat,
                    no_captures((self.groups + 1) as nat),
                ),
            ),
            r matches Ok(x) ==> match match_at(
                input@,
                view_branches(self.branches@, 0),
                (self.groups + 1) as nat,
                pos as nat,
            ) {
                Some((e, _)) => x == Some(e as usize),
                None => x is None,
            },
    {
        proof {
            lemma_view_branches(self.branches@, 0);
        }
        let ghost bs = view_branches(self.branches@, 0);
        let ghost fuel0 = *fuel;
        let ghost mut done: nat = 0;
        let caps = no_captures_exec(self.groups + 1);
        let mut i: usize = 0;
        while i < self.branches.len()
            invariant
                i <= self.branches@.len(),
                bs == view_branches(self.branches@, 0),
                bs.len() == self.branches@.len(),
                forall|j: int| 0 <= j < bs.len() ==> #[trigger] bs[j] == view_nodes(self.branches@[j]@, 0),
                pos <= input@.len(),
                caps@ == no_captures((self.groups + 1) as nat),
                run_branches(input@, bs, 0, pos as nat, caps@) == run_branches(input@, bs, i as nat, pos as nat, caps@),
                cost_branches(input@, bs, 0, pos as nat, caps@) == done + cost_branches(input@, bs, i as nat, pos as nat, caps@),
                fuel0 == *old(fuel),
                fuel0 is None ==> *fuel is None,
                fuel0 matches Some(f0) ==> (*fuel matches Some(f) && f + done == f0),
            decreases self.branches@.len() - i,
        {
            let mut k: Vec<Pending> = Vec::new();
            k.push(Pending::Nodes(&self.branches[i], 0));
            assert(view_stack(k@) =~= seq![Frame::Nodes(bs[i as int])]);
            let ghost k_i = seq![Frame::Nodes(bs[i as int])];
            let ghost fb = *fuel;
            let ghost c_i = cost_stack(input@, k_i, pos as nat, caps@);
            let ghost total = cost_branches(input@, bs, 0, pos as nat, caps@);
            match run_stack_exec(input, &k, pos, &caps, fuel) {
                Err(e) => {
                    proof {
                        assert(cost_branches(input@, bs, i as nat, pos as nat, caps@) >= c_i);
                        if let Some(f0) = fuel0 {
                            let fc = fb->Some_0;
                            assert(c_i > fc);
                            assert(total > f0);
                        }
                    }
                    return Err(e);
                },
                Ok(Some((e, _))) => {
                    proof {
                        assert(cost_branches(input@, bs, i as nat, pos as nat, caps@) == c_i);
                        if let Some(f0) = fuel0 {
                            let fc = fb->Some_0;
                            assert(c_i <= fc);
                            assert(total == done + c_i);
                            assert(*fuel == Some((f0 - total) as usize));
                        }
                    }
                    return Ok(Some(e));
                },
                Ok(None) => {},
            }
            proof {
                done = done + cost_stack(input@, seq![Frame::Nodes(bs[i as int])], pos as nat, caps@);
            }
            i += 1;
        }
        Ok(None)
    }

    fn find_steps(&self, input: &Vec<char>, fuel: &mut Option<usize>) -> (r: Result<
        Option<(usize, usize)>,
        (),
    >)
        requires
            self.groups < usize::MAX,
        ensures
            spent(
                *old(fuel),
                *final(fuel),
                r is Ok,
                search_cost(input@, view_branches(self.branches@, 0), (self.groups + 1) as nat, 0),
            ),
            r matches Ok(x) ==> match first_match(
                input@,
                view_branches(self.branches@, 0),
                (self.groups + 1) as nat,
                0,
            ) {
                Some((a, e)) => x == Some((a as usize, e as usize)),
                None => x is None,
            },
    {
        let ghost bs = view_branches(self.branches@, 0);
        let ghost next = (self.groups + 1) as nat;
        let ghost fuel0 = *fuel;
        let ghost mut done: nat = 0;
        let n = input.len();
        let mut start: usize = 0;
        loop
            invariant
                n == input@.len(),
                start <= n,
                bs == view_branches(self.branches@, 0),
                next == self.groups + 1,
                self.groups < usize::MAX,
                first_match(input@, bs, next, 0) == first_match(input@, bs, next, start as nat),
                search_cost(input@, bs, next, 0) == done + search_cost(input@, bs, next, start as nat),
                fuel0 == *old(fuel),
                fuel0 is None ==> *fuel is None,
                fuel0 matches Some(f0) ==> (*fuel matches Some(f) && f + done == f0),
            decreases n - start,
        {
            let ghost fb = *fuel;
            let ghost c_s = cost_branches(input@, bs, 0, start as nat, no_captures(next));
            let ghost total = search_cost(input@, bs, next, 0);
            match self.match_at_steps(input, start, fuel) {
                Err(e) => {
                    proof {
                        assert(search_cost(input@, bs, next, start as nat) >= c_s);
                        if let Some(f0) = fuel0 {
                            let fc = fb->Some_0;
                            assert(c_s > fc);
                            assert(total > f0);
                        }
                    }
                    return Err(e);
                },
                Ok(Some(e)) => {
                    proof {
                        assert(search_cost(input@, bs, next, start as nat) == c_s);
                        if let Some(f0) = fuel0 {
                            let fc = fb->Some_0;
                            assert(c_s <= fc);
                            assert(total == done + c_s);
                            assert(*fuel == Some((f0 - total) as usize));
                        }
                    }
                    return Ok(Some((start, e)));
                },
                Ok(None) => {},
            }
            proof {
                done = done + cost_branches(input@, bs, 0, start as nat, no_captures(next));
            }
            if start == n {
                assert(first_match(input@, bs, next, (n + 1) as nat) is None);
                assert(search_cost(input@, bs, next, (n + 1) as nat) == 0);
                return Ok(None);
            }
            start += 1;
        }
    }

    /// A match that starts at `pos`: the first branch that lets a way
    /// through succeed, and where that way ends.
    pub fn match_at(&self, input: &Vec<char>, pos: usize) -> (r: Option<usize>)
        requires
            pos <= input@.len(),
            self.groups < usize::MAX,
        ensures
            match match_at(input@, view_branches(self.branches@, 0), (self.groups + 1) as nat, pos as nat) {
                Some((e, _)) => r == Some(e as usize),
                None => r is None,
            },
    {
        let mut fuel: Option<usize> = None;
        match self.match_at_steps(input, pos, &mut fuel) {
            Ok(x) => x,
            Err(_) => None,
        }
    }

    /// The first match in `input`: the leftmost start at which the pattern
    /// matches, and where that match ends.
    pub fn find_in(&self, input: &Vec<char>) -> (r: Option<(usize, usize)>)
        requires
            self.groups < usize::MAX,
        ensures
            match first_match(input@, view_branches(self.branches@, 0), (self.groups + 1) as nat, 0) {
                Some((a, e)) => r == Some((a as usize, e as usize)),
                None => r is None,
            },
    {
        let mut fuel: Option<usize> = None;
        match self.find_steps(input, &mut fuel) {
            Ok(x) => x,
            Err(_) => None,
        }
    }

    /// The first match in `input`, as `find_in` gives it, when the search
    /// takes at most `steps` steps; else `BacktrackLimitExceeded`.
    pub fn find_within(&self, input: &Vec<char>, steps: usize) -> (r: Result<
        Option<(usize, usize)>,
        MatchError,
    >)
        requires
            self.groups < usize::MAX,
        ensures
            ({
                let bs = view_branches(self.branches@, 0);
                let next = (self.groups + 1) as nat;
                if search_cost(input@, bs, next, 0) <= steps {
                    match first_match(input@, bs, next, 0) {
                        Some((a, e)) => r == Ok::<Option<(usize, usize)>, MatchError>(
                            Some((a as usize, e as usize)),
                        ),
                        None => r == Ok::<Option<(usize, usize)>, MatchError>(None),
                    }
                } else {
                    r == Err::<Option<(usize, usize)>, MatchError>(
                        MatchError::BacktrackLimitExceeded,
                    )
                }
            }),
    {
        let mut fuel: Option<usize> = Some(steps);
        match self.find_steps(input, &mut fuel) {
            Ok(x) => Ok(x),
            Err(_) => Err(MatchError::BacktrackLimitExceeded),
        }
    }
}

impl Parser {
    /// Whether `input` holds a match of `pattern`, which must be well formed.
    pub fn match_pattern(input: &str, pattern: &str) -> (r: bool)
        requires
            pattern@.len() < usize::MAX,
            parse_pattern(pattern@) is Ok,
        ensures
            r == pattern_matches(input@, pattern@),
    {
        match Parser::try_match(input, pattern) {
            Ok(b) => b,
            Err(_) => false,
        }
    }

    /// Whether `input` holds a match of `pattern`, or the pattern's first
    /// structural fault.
    pub fn try_match(input: &str, pattern: &str) -> (r: Result<bool, PatternError>)
        requires
            pattern@.len() < usize::MAX,
        ensures
            match parse_pattern(pattern@) {
                Ok(_) => r == Ok::<bool, PatternError>(pattern_matches(input@, pattern@)),
                Err(e) => r == Err::<bool, PatternError>(e),
            },
    {
        match Parser::find(input, pattern) {
            Ok(found) => {
                proof {
                    let (bs, next) = parse_pattern(pattern@)->Ok_0;
                    lemma_first_match(input@, bs, next, 0);
                }
                Ok(found.is_some())
            },
            Err(e) => Err(e),
        }
    }

    /// The first match of `pattern` in `input`, as `find` gives it, when the
    /// search takes at most `steps` steps; else `BacktrackLimitExceeded`, or
    /// the pattern's first structural fault.
    pub fn find_within(input: &str, pattern: &str, steps: usize) -> (r: Result<
        Option<(usize, usize)>,
        MatchError,
    >)
        requires
            pattern@.len() < usize::MAX,
        ensures
            match parse_pattern(pattern@) {
                Err(e) => r == Err::<Option<(usize, usize)>, MatchError>(MatchError::Pattern(e)),
                Ok((bs, next)) => if search_cost(input@, bs, next, 0) <= steps {
                    match first_match(input@, bs, next, 0) {
                        Some((a, e)) => r == Ok::<Option<(usize, usize)>, MatchError>(
                            Some((a as usize, e as usize)),
                        ),
                        None => r == Ok::<Option<(usize, usize)>, MatchError>(None),
                    }
                } else {
                    r == Err::<Option<(usize, usize)>, MatchError>(
                        MatchError::BacktrackLimitExceeded,
                    )
                },
            },
    {
        match Pattern::compile(pattern) {
            Err(e) => Err(MatchError::Pattern(e)),
            Ok(p) => {
                let chars = chars_of(input);
                p.find_within(&chars, steps)
            },
        }
    }

    /// The first match of `pattern` in `input`, as character positions where
    /// it starts and ends, or the pattern's first structural fault.
    pub fn find(input: &str, pattern: &str) -> (r: Result<Option<(usize, usize)>, PatternError>)
        requires
            pattern@.len() < usize::MAX,
        ensures
            match search(input@, pattern@) {
                Ok(Some((a, e))) => r == Ok::<Option<(usize, usize)>, PatternError>(Some((a as usize, e as usize))),
                Ok(None) => r == Ok::<Option<(usize, usize)>, PatternError>(None),
                Err(e) => r == Err::<Option<(usize, usize)>, PatternError>(e),
            },
    {
        match Pattern::compile(pattern) {
            Err(e) => Err(e),
            Ok(p) => {
                let chars = chars_of(input);
                Ok(p.find_in(&chars))
            },
        }
    }
}

} // verus!
