use vstd::prelude::*;

use crate::selector::{
    first_focused, lemma_first_focused_none, lemma_first_focused_props, next_in, route_answer,
    tree_answer,
};
use crate::tree::{
    Node, count_focused, id_of, is_focused_con, kids, lemma_count_focused_at,
    lemma_count_focused_reverse, lemma_dleaves_reverse, lemma_focused_unique, wf_tree,
    wf_workspace, windows,
};

verus! {

/// A sequence without focused windows counts none.
proof fn lemma_count_focused_zero(s: Seq<Node>)
    requires
        forall|j: int| 0 <= j < s.len() ==> !is_focused_con(#[trigger] s[j]),
    ensures
        count_focused(s) == 0,
    decreases s.len(),
{
    if s.len() > 0 {
        assert(forall|j: int| 0 <= j < s.drop_first().len() ==> s.drop_first()[j] == s[j + 1]);
        lemma_count_focused_zero(s.drop_first());
    }
}

/// With exactly one focused window, at position `i`, "next" selects the
/// window to the right of `i` (wrapping to the front past the end) and
/// "previous" — the search over the mirrored sequence — selects the window
/// to the left of `i` (wrapping to the back past the front).
pub proof fn lemma_next_prev_positions(s: Seq<Node>, i: int)
    requires
        count_focused(s) == 1,
        0 <= i < s.len(),
        is_focused_con(s[i]),
    ensures
        next_in(s) == Some(s[(i + 1) % (s.len() as int)]),
        next_in(s.reverse()) == Some(s[(i - 1 + s.len()) % (s.len() as int)]),
{
    let len = s.len() as int;
    lemma_first_focused_props(s);
    match first_focused(s) {
        Some(m) => {
            lemma_focused_unique(s, m, i);
        },
        None => {
            lemma_count_focused_zero(s);
        },
    }
    if i + 1 < len {
        vstd::arithmetic::div_mod::lemma_small_mod((i + 1) as nat, s.len());
    } else {
        vstd::arithmetic::div_mod::lemma_mod_self_0(len);
    }
    let r = s.reverse();
    lemma_count_focused_reverse(s);
    assert(r[len - 1 - i] == s[i]);
    lemma_first_focused_props(r);
    match first_focused(r) {
        Some(m) => {
            lemma_focused_unique(r, m, len - 1 - i);
        },
        None => {
            lemma_count_focused_zero(r);
        },
    }
    assert(next_in(r) == Some(r[(len - i) % len]));
    if i == 0 {
        vstd::arithmetic::div_mod::lemma_mod_self_0(len);
        assert(r[0] == s[len - 1]);
        vstd::arithmetic::div_mod::lemma_small_mod((len - 1) as nat, s.len());
    } else {
        vstd::arithmetic::div_mod::lemma_small_mod((len - i) as nat, s.len());
        assert(r[len - i] == s[i - 1]);
        vstd::arithmetic::div_mod::lemma_mod_multiples_vanish(1, i - 1, len);
        vstd::arithmetic::div_mod::lemma_small_mod((i - 1) as nat, s.len());
    }
}

/// Selecting "next" and then "previous" returns to the originally focused
/// window. `s` is the workspace's window order with its one focused window
/// at position `i`; `t` is the same window order after focus moved to the
/// window "next" selected. "Previous" on `t` then selects position `i`
/// again: the window with the originally focused identifier.
pub proof fn lemma_round_trip_next_then_prev(s: Seq<Node>, t: Seq<Node>, i: int)
    requires
        s.len() >= 2,
        t.len() == s.len(),
        count_focused(s) == 1,
        count_focused(t) == 1,
        0 <= i < s.len(),
        is_focused_con(s[i]),
        is_focused_con(t[(i + 1) % (s.len() as int)]),
        forall|m: int| 0 <= m < s.len() ==> id_of(#[trigger] t[m]) == id_of(s[m]),
    ensures
        next_in(s) == Some(s[(i + 1) % (s.len() as int)]),
        next_in(t.reverse()) == Some(t[i]),
        id_of(t[i]) == id_of(s[i]),
{
    let len = s.len() as int;
    lemma_next_prev_positions(s, i);
    let j = (i + 1) % len;
    lemma_next_prev_positions(t, j);
    if i + 1 < len {
        vstd::arithmetic::div_mod::lemma_small_mod((i + 1) as nat, s.len());
        assert(j == i + 1);
        vstd::arithmetic::div_mod::lemma_mod_multiples_vanish(1, i, len);
        vstd::arithmetic::div_mod::lemma_small_mod(i as nat, s.len());
    } else {
        vstd::arithmetic::div_mod::lemma_mod_self_0(len);
        assert(j == 0);
        vstd::arithmetic::div_mod::lemma_small_mod((len - 1) as nat, s.len());
    }
}

/// Selecting "previous" and then "next" returns to the originally focused
/// window: the mirror image of the round trip above.
pub proof fn lemma_round_trip_prev_then_next(s: Seq<Node>, t: Seq<Node>, i: int)
    requires
        s.len() >= 2,
        t.len() == s.len(),
        count_focused(s) == 1,
        count_focused(t) == 1,
        0 <= i < s.len(),
        is_focused_con(s[i]),
        is_focused_con(t[(i - 1 + s.len()) % (s.len() as int)]),
        forall|m: int| 0 <= m < s.len() ==> id_of(#[trigger] t[m]) == id_of(s[m]),
    ensures
        next_in(s.reverse()) == Some(s[(i - 1 + s.len()) % (s.len() as int)]),
        next_in(t) == Some(t[i]),
        id_of(t[i]) == id_of(s[i]),
{
    let len = s.len() as int;
    lemma_next_prev_positions(s, i);
    let j = (i - 1 + len) % len;
    lemma_next_prev_positions(t, j);
    if i == 0 {
        vstd::arithmetic::div_mod::lemma_small_mod((len - 1) as nat, s.len());
        assert(j == len - 1);
        vstd::arithmetic::div_mod::lemma_mod_self_0(len);
    } else {
        vstd::arithmetic::div_mod::lemma_mod_multiples_vanish(1, i - 1, len);
        vstd::arithmetic::div_mod::lemma_small_mod((i - 1) as nat, s.len());
        assert(j == i - 1);
        vstd::arithmetic::div_mod::lemma_small_mod(i as nat, s.len());
    }
}

/// A workspace whose single window is focused selects that window in both
/// directions: the wrap closes on itself.
pub proof fn lemma_single_window_self_wrap(ws: Node)
    requires
        wf_workspace(ws),
        windows(ws).len() == 1,
        is_focused_con(windows(ws)[0]),
    ensures
        tree_answer(ws, false) == Some(windows(ws)[0]),
        tree_answer(ws, true) == Some(windows(ws)[0]),
{
    let s = windows(ws);
    lemma_count_focused_at(s, 0);
    assert(count_focused(s) == 1);
    lemma_next_prev_positions(s, 0);
    lemma_workspace_answer(ws);
    vstd::arithmetic::div_mod::lemma_mod_self_0(1);
    vstd::arithmetic::div_mod::lemma_small_mod(0, 1);
}

/// A workspace without a focused window yields no result in either
/// direction: focus does not change.
pub proof fn lemma_no_focused_no_answer(ws: Node)
    requires
        wf_workspace(ws),
        count_focused(windows(ws)) == 0,
    ensures
        tree_answer(ws, false) == None::<Node>,
        tree_answer(ws, true) == None::<Node>,
{
    lemma_workspace_answer(ws);
    lemma_first_focused_none(windows(ws));
    lemma_count_focused_reverse(windows(ws));
    lemma_first_focused_none(windows(ws).reverse());
}

/// At a workspace the two directions are one algorithm: "next" reduces the
/// workspace's window order, "previous" reduces its mirror image.
pub proof fn lemma_workspace_answer(ws: Node)
    requires
        wf_workspace(ws),
    ensures
        tree_answer(ws, false) == next_in(windows(ws)),
        tree_answer(ws, true) == next_in(windows(ws).reverse()),
{
    if kids(ws).len() == 0 {
        assert(seq![ws].drop_first() =~= Seq::<Node>::empty());
        assert(first_focused(seq![ws]) == None::<int>);
        assert(Seq::<Node>::empty().reverse() =~= Seq::<Node>::empty());
        assert(first_focused(Seq::<Node>::empty()) == None::<int>);
    } else {
        lemma_dleaves_reverse(ws);
    }
}

/// How many focused windows stand anywhere below a node of the scene
/// graph.
pub open spec fn focused_below(n: Node) -> nat
    decreases n, 1int,
{
    match n {
        Node::Root { .. } => sum_focused(kids(n), 0),
        Node::Output { .. } => sum_focused(kids(n), 0),
        _ => count_focused(windows(n)),
    }
}

/// The focused windows below the nodes of `ch[i..]`, added up.
pub open spec fn sum_focused(ch: Seq<Node>, i: int) -> nat
    decreases ch, ch.len() - i,
{
    if i < 0 || i >= ch.len() {
        0
    } else {
        focused_below(ch[i]) + sum_focused(ch, i + 1)
    }
}

/// A scene graph yields an answer exactly when some workspace below it has
/// a focused window: workspaces and outputs without one are walked past
/// without affecting the outcome.
pub proof fn lemma_answer_iff_focused(n: Node, rev: bool)
    requires
        wf_tree(n),
    ensures
        (tree_answer(n, rev) != None::<Node>) <==> focused_below(n) > 0,
    decreases n, 1int,
{
    match n {
        Node::Root { .. } => {
            lemma_route_iff_focused(kids(n), 0, rev);
        },
        Node::Output { .. } => {
            lemma_route_iff_focused(kids(n), 0, rev);
        },
        Node::Workspace { .. } => {
            lemma_workspace_answer(n);
            let s = windows(n);
            let d = if rev {
                s.reverse()
            } else {
                s
            };
            lemma_count_focused_reverse(s);
            lemma_first_focused_props(d);
            match first_focused(d) {
                Some(m) => {
                    lemma_count_focused_at(d, m);
                },
                None => {
                    lemma_count_focused_zero(d);
                },
            }
        },
        Node::Con { .. } => {},
    }
}

/// The routing walk yields an answer exactly when a focused window stands
/// below one of the remaining children.
proof fn lemma_route_iff_focused(ch: Seq<Node>, i: int, rev: bool)
    requires
        0 <= i <= ch.len(),
        forall|j: int| 0 <= j < ch.len() ==> wf_tree(#[trigger] ch[j]),
    ensures
        (route_answer(ch, i, rev) != None::<Node>) <==> sum_focused(ch, i) > 0,
    decreases ch, ch.len() - i,
{
    if i < ch.len() {
        lemma_answer_iff_focused(ch[i], rev);
        lemma_route_iff_focused(ch, i + 1, rev);
    }
}

} // verus!
