use vstd::prelude::*;

use crate::tree::{
    Node, cat_dleaves, count_focused, dleaves, is_focused_con, kids, lemma_cat_dleaves_count_child,
    lemma_cat_dleaves_count_le, lemma_cat_dleaves_len, lemma_cat_dleaves_reverse,
    lemma_count_focused_at, lemma_count_focused_reverse, lemma_dleaves_len, wf_tree, wf_workspace,
    window_tree,
};

verus! {

/// The two states of the reduction over a workspace's window order: either
/// the window to focus has been found, or the search still carries the
/// leftmost window seen so far and whether the rightmost window seen so far
/// is the focused one.
pub enum Outcome {
    Found(Node),
    Searching { leftmost: Node, rightmost_focused: bool },
}

/// The position of the first focused `Con` of the sequence, if any.
pub open spec fn first_focused(s: Seq<Node>) -> Option<int>
    decreases s.len(),
{
    if s.len() == 0 {
        None
    } else if is_focused_con(s[0]) {
        Some(0int)
    } else {
        match first_focused(s.drop_first()) {
            Some(i) => Some(i + 1),
            None => None,
        }
    }
}

/// The window that follows the first focused window of `s`, wrapping to the
/// front when the focused window is the last; no result when no window of
/// `s` is focused.
pub open spec fn next_in(s: Seq<Node>) -> Option<Node> {
    match first_focused(s) {
        Some(i) => Some(s[(i + 1) % s.len() as int]),
        None => None,
    }
}

/// What the reduction yields on a non-empty window sequence: `Found` of the
/// window after the first focused one, unless the focused window is the last
/// or none is focused, in which case the search is still open.
pub open spec fn outcome_of(s: Seq<Node>) -> Outcome {
    match first_focused(s) {
        Some(i) => if i + 1 < s.len() {
            Outcome::Found(s[i + 1])
        } else {
            Outcome::Searching { leftmost: s[0], rightmost_focused: true }
        },
        None => Outcome::Searching { leftmost: s[0], rightmost_focused: false },
    }
}

/// Folding the outcome of an earlier (left) part of the window order with
/// the outcome of the part just after it: a found window propagates; a left
/// part that ended in the focused window makes the right part's leftmost
/// window the answer; otherwise the search stays open.
pub open spec fn merge_outcomes(a: Outcome, b: Outcome) -> Outcome {
    match a {
        Outcome::Found(x) => Outcome::Found(x),
        Outcome::Searching { leftmost, rightmost_focused } => match b {
            Outcome::Found(y) => Outcome::Found(y),
            Outcome::Searching { leftmost: b_leftmost, rightmost_focused: b_focused } => {
                if rightmost_focused {
                    Outcome::Found(b_leftmost)
                } else {
                    Outcome::Searching { leftmost, rightmost_focused: b_focused }
                }
            },
        },
    }
}

/// The first focused position is a focused position, and nothing before it
/// is focused; when there is none, nothing is focused at all.
pub proof fn lemma_first_focused_props(s: Seq<Node>)
    ensures
        match first_focused(s) {
            Some(i) => 0 <= i < s.len() && is_focused_con(s[i]) && (forall|j: int|
                0 <= j < i ==> !is_focused_con(#[trigger] s[j])),
            None => forall|j: int| 0 <= j < s.len() ==> !is_focused_con(#[trigger] s[j]),
        },
    decreases s.len(),
{
    if s.len() > 0 && !is_focused_con(s[0]) {
        lemma_first_focused_props(s.drop_first());
        assert(forall|j: int| 1 <= j < s.len() ==> s[j] == s.drop_first()[j - 1]);
    }
}

/// Searching a concatenation finds the first focused window of the left
/// part, or else the first focused window of the right part, shifted.
pub proof fn lemma_first_focused_concat(s: Seq<Node>, t: Seq<Node>)
    ensures
        first_focused(s + t) == (match first_focused(s) {
            Some(i) => Some(i),
            None => (match first_focused(t) {
                Some(j) => Some(j + s.len()),
                None => None::<int>,
            }),
        }),
    decreases s.len(),
{
    if s.len() == 0 {
        assert(s + t =~= t);
    } else {
        assert((s + t)[0] == s[0]);
        if !is_focused_con(s[0]) {
            assert((s + t).drop_first() =~= s.drop_first() + t);
            lemma_first_focused_concat(s.drop_first(), t);
        }
    }
}

/// No window of the sequence is focused exactly when none is counted.
pub proof fn lemma_first_focused_none(s: Seq<Node>)
    requires
        count_focused(s) == 0,
    ensures
        first_focused(s) == None::<int>,
{
    lemma_first_focused_props(s);
    match first_focused(s) {
        Some(i) => {
            lemma_count_focused_at(s, i);
        },
        None => {},
    }
}

/// What each reduction outcome of a non-empty window sequence means for the
/// selection: a found window is the answer; an open search whose rightmost
/// window is focused wraps to the leftmost window; otherwise there is no
/// answer.
pub proof fn lemma_outcome_answers(s: Seq<Node>)
    requires
        s.len() > 0,
    ensures
        (outcome_of(s) matches Outcome::Found(w) ==> next_in(s) == Some(w)),
        (outcome_of(s) matches Outcome::Searching { leftmost, rightmost_focused: true } ==>
            next_in(s) == Some(leftmost)),
        (outcome_of(s) matches Outcome::Searching { leftmost: _, rightmost_focused: false } ==>
            next_in(s) == None::<Node>),
{
    lemma_first_focused_props(s);
    let m = s.len() as int;
    match first_focused(s) {
        Some(i) => {
            if i + 1 < m {
                vstd::arithmetic::div_mod::lemma_small_mod((i + 1) as nat, s.len());
                assert((i + 1) % m == i + 1);
            } else {
                vstd::arithmetic::div_mod::lemma_mod_self_0(m);
                assert((i + 1) % m == 0);
            }
        },
        None => {},
    }
}

/// Reducing a concatenation of two non-empty parts that together hold at
/// most one focused window is the same as reducing the parts and folding
/// their outcomes.
pub proof fn lemma_outcome_concat(s: Seq<Node>, t: Seq<Node>)
    requires
        s.len() > 0,
        t.len() > 0,
        count_focused(s + t) <= 1,
    ensures
        outcome_of(s + t) == merge_outcomes(outcome_of(s), outcome_of(t)),
{
    lemma_first_focused_concat(s, t);
    lemma_first_focused_props(s);
    lemma_first_focused_props(t);
    crate::tree::lemma_count_focused_concat(s, t);
    let u = s + t;
    assert(forall|i: int| 0 <= i < s.len() ==> u[i] == s[i]);
    assert(forall|j: int| 0 <= j < t.len() ==> u[s.len() + j] == t[j]);
    match first_focused(s) {
        Some(i) => {
            if i + 1 == s.len() {
                lemma_count_focused_at(s, i);
                lemma_first_focused_none(t);
                assert(u[i + 1] == t[0]);
            }
        },
        None => {
            match first_focused(t) {
                Some(j) => {
                    if j + 1 < t.len() {
                        assert(u[s.len() + j + 1] == t[j + 1]);
                    } else {
                        assert(u[0] == s[0]);
                    }
                },
                None => {
                    assert(u[0] == s[0]);
                },
            }
        },
    }
}

/// The runtime counterpart of [`Outcome`], carrying references into the
/// tree being traversed.
pub enum WindowToFocus<'a> {
    Found(&'a Node),
    Searching { is_rightmost_window_focused: bool, leftmost_window: &'a Node },
}

impl<'a> WindowToFocus<'a> {
    /// The outcome this runtime state stands for.
    pub open spec fn outcome(self) -> Outcome {
        match self {
            WindowToFocus::Found(w) => Outcome::Found(*w),
            WindowToFocus::Searching { is_rightmost_window_focused, leftmost_window } => {
                Outcome::Searching {
                    leftmost: *leftmost_window,
                    rightmost_focused: is_rightmost_window_focused,
                }
            },
        }
    }
}

/// Folds the outcome of a later sibling subtree into the outcome of the
/// subtrees to its left, as [`merge_outcomes`] describes.
pub fn merge<'a>(a: WindowToFocus<'a>, b: WindowToFocus<'a>) -> (r: WindowToFocus<'a>)
    ensures
        r.outcome() == merge_outcomes(a.outcome(), b.outcome()),
{
    match a {
        WindowToFocus::Found(x) => WindowToFocus::Found(x),
        WindowToFocus::Searching { is_rightmost_window_focused, leftmost_window } => match b {
            WindowToFocus::Found(y) => WindowToFocus::Found(y),
            WindowToFocus::Searching {
                is_rightmost_window_focused: b_focused,
                leftmost_window: b_leftmost,
            } => {
                if is_rightmost_window_focused {
                    WindowToFocus::Found(b_leftmost)
                } else {
                    WindowToFocus::Searching {
                        is_rightmost_window_focused: b_focused,
                        leftmost_window,
                    }
                }
            },
        },
    }
}

/// A node without children reduces to an open search anchored at itself.
proof fn lemma_outcome_singleton(n: Node)
    ensures
        outcome_of(seq![n]) == (Outcome::Searching {
            leftmost: n,
            rightmost_focused: is_focused_con(n),
        }),
{
    assert(seq![n].drop_first() =~= Seq::<Node>::empty());
    assert(first_focused(Seq::<Node>::empty()) == None::<int>);
}

/// Folds the outcomes of a non-empty children sequence, walking it
/// back-to-front when `reversed_order` is true.
fn reduce<'a>(nodes: &'a Vec<Node>, reversed_order: bool) -> (r: WindowToFocus<'a>)
    requires
        nodes@.len() > 0,
        forall|i: int| 0 <= i < nodes@.len() ==> window_tree(#[trigger] nodes@[i]),
        count_focused(cat_dleaves(nodes@, nodes@.len() as int, false)) <= 1,
    ensures
        r.outcome() == outcome_of(cat_dleaves(nodes@, nodes@.len() as int, reversed_order)),
    decreases *nodes,
{
    let n = nodes.len();
    proof {
        // at most one focused window, in either walking direction
        lemma_cat_dleaves_reverse(nodes@, nodes@.len() as int);
        assert(nodes@.skip(0) =~= nodes@);
        lemma_count_focused_reverse(cat_dleaves(nodes@, nodes@.len() as int, false));
    }
    let first_idx: usize = if reversed_order {
        n - 1
    } else {
        0
    };
    proof {
        lemma_cat_dleaves_count_child(nodes@, nodes@.len() as int, first_idx as int, false);
        assert(cat_dleaves(nodes@, 0, reversed_order) == Seq::<Node>::empty());
        assert(Seq::<Node>::empty() + dleaves(nodes@[first_idx as int], reversed_order)
            =~= dleaves(nodes@[first_idx as int], reversed_order));
    }
    let mut acc = impl_next_window_to_focus(&nodes[first_idx], reversed_order);
    let mut k: usize = 1;
    while k < n
        invariant
            1 <= k <= n,
            n == nodes@.len(),
            forall|i: int| 0 <= i < nodes@.len() ==> window_tree(#[trigger] nodes@[i]),
            count_focused(cat_dleaves(nodes@, nodes@.len() as int, false)) <= 1,
            count_focused(cat_dleaves(nodes@, nodes@.len() as int, reversed_order)) <= 1,
            acc.outcome() == outcome_of(cat_dleaves(nodes@, k as int, reversed_order)),
        decreases n - k,
    {
        let idx: usize = if reversed_order {
            n - 1 - k
        } else {
            k
        };
        proof {
            lemma_cat_dleaves_count_child(nodes@, nodes@.len() as int, idx as int, false);
        }
        let e = impl_next_window_to_focus(&nodes[idx], reversed_order);
        proof {
            lemma_cat_dleaves_len(nodes@, k as int, reversed_order);
            lemma_dleaves_len(nodes@[idx as int], reversed_order);
            lemma_cat_dleaves_count_le(nodes@, (k + 1) as int, reversed_order);
            lemma_outcome_concat(
                cat_dleaves(nodes@, k as int, reversed_order),
                dleaves(nodes@[idx as int], reversed_order),
            );
        }
        acc = merge(acc, e);
        k = k + 1;
    }
    acc
}

/// The reduction over one workspace subtree: returns the window to focus
/// when it lies inside this subtree, or what an enclosing reduction needs
/// to carry the search on — the subtree's leftmost window and whether its
/// rightmost window is the focused one. `reversed_order` selects the
/// "previous" direction by walking every level back-to-front.
pub fn impl_next_window_to_focus<'a>(node: &'a Node, reversed_order: bool) -> (r:
    WindowToFocus<'a>)
    requires
        window_tree(*node) || wf_workspace(*node),
        count_focused(dleaves(*node, false)) <= 1,
    ensures
        r.outcome() == outcome_of(dleaves(*node, reversed_order)),
    decreases *node,
{
    match node {
        Node::Workspace { nodes } => {
            if nodes.len() == 0 {
                proof {
                    lemma_outcome_singleton(*node);
                }
                WindowToFocus::Searching {
                    is_rightmost_window_focused: false,
                    leftmost_window: node,
                }
            } else {
                reduce(nodes, reversed_order)
            }
        },
        Node::Con { focused, nodes, .. } => {
            if nodes.len() == 0 {
                proof {
                    lemma_outcome_singleton(*node);
                }
                WindowToFocus::Searching {
                    is_rightmost_window_focused: *focused,
                    leftmost_window: node,
                }
            } else {
                reduce(nodes, reversed_order)
            }
        },
        _ => unreached(),
    }
}

/// The window that should be focused, for a whole scene graph: `Root` and
/// `Output` nodes yield the answer of their first child that has one, in
/// the children's given order; a workspace yields the window after the
/// focused one in its (possibly mirrored) window order.
pub open spec fn tree_answer(n: Node, rev: bool) -> Option<Node>
    decreases n, 1int,
{
    match n {
        Node::Root { .. } => route_answer(kids(n), 0, rev),
        Node::Output { .. } => route_answer(kids(n), 0, rev),
        Node::Workspace { .. } => next_in(dleaves(n, rev)),
        Node::Con { .. } => None,
    }
}

/// The answer of the first node of `ch[i..]` that has one.
pub open spec fn route_answer(ch: Seq<Node>, i: int, rev: bool) -> Option<Node>
    decreases ch, ch.len() - i,
{
    if i < 0 || i >= ch.len() {
        None
    } else {
        match tree_answer(ch[i], rev) {
            Some(w) => Some(w),
            None => route_answer(ch, i + 1, rev),
        }
    }
}

/// The window that should receive focus, or `None` when no window of the
/// focused window's workspace qualifies. `reversed_order` false selects
/// "next", true selects "previous".
pub fn next_window_to_focus<'a>(node: &'a Node, reversed_order: bool) -> (r: Option<&'a Node>)
    requires
        wf_tree(*node),
    ensures
        match r {
            Some(w) => tree_answer(*node, reversed_order) == Some(*w),
            None => tree_answer(*node, reversed_order) == None::<Node>,
        },
    decreases *node,
{
    match node {
        Node::Root { nodes } => route(nodes, reversed_order),
        Node::Output { nodes } => route(nodes, reversed_order),
        Node::Workspace { .. } => {
            proof {
                if kids(*node).len() == 0 {
                    assert(dleaves(*node, false) =~= seq![*node]);
                    assert(seq![*node].drop_first() =~= Seq::<Node>::empty());
                    assert(count_focused(dleaves(*node, false)) == 0);
                }
                lemma_dleaves_len(*node, reversed_order);
                lemma_outcome_answers(dleaves(*node, reversed_order));
            }
            match impl_next_window_to_focus(node, reversed_order) {
                WindowToFocus::Found(res) => Some(res),
                WindowToFocus::Searching { is_rightmost_window_focused, leftmost_window } => {
                    if is_rightmost_window_focused {
                        Some(leftmost_window)
                    } else {
                        None
                    }
                },
            }
        },
        Node::Con { .. } => unreached(),
    }
}

/// Walks the children of a `Root` or `Output` node in their given order and
/// returns the first answer found below one of them.
fn route<'a>(nodes: &'a Vec<Node>, reversed_order: bool) -> (r: Option<&'a Node>)
    requires
        forall|i: int| 0 <= i < nodes@.len() ==> wf_tree(#[trigger] nodes@[i]),
    ensures
        match r {
            Some(w) => route_answer(nodes@, 0, reversed_order) == Some(*w),
            None => route_answer(nodes@, 0, reversed_order) == None::<Node>,
        },
    decreases *nodes,
{
    let n = nodes.len();
    let mut i: usize = 0;
    while i < n
        invariant
            0 <= i <= n,
            n == nodes@.len(),
            forall|j: int| 0 <= j < nodes@.len() ==> wf_tree(#[trigger] nodes@[j]),
            route_answer(nodes@, 0, reversed_order) == route_answer(
                nodes@,
                i as int,
                reversed_order,
            ),
        decreases n - i,
    {
        let res = next_window_to_focus(&nodes[i], reversed_order);
        if res.is_some() {
            return res;
        }
        i = i + 1;
    }
    None
}

} // verus!
