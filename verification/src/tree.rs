use vstd::prelude::*;

verus! {

/// One node of the window manager's layout tree: the root holds outputs,
/// outputs hold workspaces, and workspaces hold windows and containers.
/// A `Con` is either a window (no children) or a nested layout container.
pub enum Node {
    Root { nodes: Vec<Node> },
    Output { nodes: Vec<Node> },
    Workspace { nodes: Vec<Node> },
    Con { id: u32, focused: bool, nodes: Vec<Node> },
}

/// The children of a node, in their significant left-to-right order.
pub open spec fn kids(n: Node) -> Seq<Node> {
    match n {
        Node::Root { nodes } => nodes@,
        Node::Output { nodes } => nodes@,
        Node::Workspace { nodes } => nodes@,
        Node::Con { nodes, .. } => nodes@,
    }
}

/// Whether a node is a `Con` whose focus flag is set.
pub open spec fn is_focused_con(n: Node) -> bool {
    match n {
        Node::Con { focused, .. } => focused,
        _ => false,
    }
}

/// A subtree that may appear below a workspace: every node is a `Con`.
/// A `Con` without children is a window; one with children is a container.
pub open spec fn window_tree(n: Node) -> bool
    decreases n,
{
    &&& n matches Node::Con { .. }
    &&& forall|i: int| 0 <= i < kids(n).len() ==> window_tree(#[trigger] kids(n)[i])
}

/// A node that stands for a single window: a `Con` without children.
pub open spec fn is_window(n: Node) -> bool {
    n matches Node::Con { .. } && kids(n).len() == 0
}

/// The identifier the window manager assigned to a window or container.
pub open spec fn id_of(n: Node) -> u32 {
    match n {
        Node::Con { id, .. } => id,
        _ => 0,
    }
}

/// Every element of the sequence is a window.
pub open spec fn all_windows(s: Seq<Node>) -> bool {
    forall|i: int| 0 <= i < s.len() ==> is_window(#[trigger] s[i])
}

/// The depth-first window sequence of a subtree. When `rev` is true the
/// children are taken back-to-front at every level, which mirrors the whole
/// sequence. A node without children is itself the single window.
pub open spec fn dleaves(n: Node, rev: bool) -> Seq<Node>
    decreases n, 1int,
{
    if kids(n).len() == 0 {
        seq![n]
    } else {
        cat_dleaves(kids(n), kids(n).len() as int, rev)
    }
}

/// The window sequences of the first `k` children processed in direction
/// `rev` (children `0..k` taken forward, children `len-k..len` taken
/// backward), concatenated in processing order.
pub open spec fn cat_dleaves(ch: Seq<Node>, k: int, rev: bool) -> Seq<Node>
    decreases ch, k,
{
    if k <= 0 || k > ch.len() {
        Seq::empty()
    } else {
        let idx = if rev { ch.len() - k } else { k - 1 };
        cat_dleaves(ch, k - 1, rev) + dleaves(ch[idx], rev)
    }
}

/// How many elements of the sequence are focused `Con` nodes.
pub open spec fn count_focused(s: Seq<Node>) -> nat
    decreases s.len(),
{
    if s.len() == 0 {
        0
    } else {
        (if is_focused_con(s[0]) {
            1nat
        } else {
            0nat
        }) + count_focused(s.drop_first())
    }
}

/// The windows of a workspace, in depth-first left-to-right order.
pub open spec fn windows(ws: Node) -> Seq<Node> {
    if kids(ws).len() == 0 {
        Seq::empty()
    } else {
        dleaves(ws, false)
    }
}

/// A well-formed workspace: below it only `Con` nodes, and — as the window
/// manager guarantees — at most one of its windows is focused.
pub open spec fn wf_workspace(n: Node) -> bool {
    &&& n matches Node::Workspace { .. }
    &&& forall|i: int| 0 <= i < kids(n).len() ==> window_tree(#[trigger] kids(n)[i])
    &&& count_focused(windows(n)) <= 1
}

/// A well-formed scene graph: `Root` and `Output` nodes only route further
/// down, and every workspace below them is well formed. A bare `Con` can
/// never stand at this level.
pub open spec fn wf_tree(n: Node) -> bool
    decreases n,
{
    match n {
        Node::Root { .. } => forall|i: int| 0 <= i < kids(n).len() ==> wf_tree(#[trigger] kids(n)[i]),
        Node::Output { .. } => forall|i: int|
            0 <= i < kids(n).len() ==> wf_tree(#[trigger] kids(n)[i]),
        Node::Workspace { .. } => wf_workspace(n),
        Node::Con { .. } => false,
    }
}

/// Focused windows are counted part by part.
pub proof fn lemma_count_focused_concat(s: Seq<Node>, t: Seq<Node>)
    ensures
        count_focused(s + t) == count_focused(s) + count_focused(t),
    decreases s.len(),
{
    if s.len() == 0 {
        assert(s + t =~= t);
    } else {
        assert((s + t).drop_first() =~= s.drop_first() + t);
        lemma_count_focused_concat(s.drop_first(), t);
    }
}

/// Mirroring a window sequence does not change how many of its windows are
/// focused.
pub proof fn lemma_count_focused_reverse(s: Seq<Node>)
    ensures
        count_focused(s.reverse()) == count_focused(s),
    decreases s.len(),
{
    if s.len() > 0 {
        let last = s[s.len() - 1];
        assert(s.reverse()[0] == last);
        assert(s.reverse().drop_first() =~= s.drop_last().reverse());
        lemma_count_focused_reverse(s.drop_last());
        assert(s =~= s.drop_last() + seq![last]);
        lemma_count_focused_concat(s.drop_last(), seq![last]);
        assert(seq![last].drop_first() =~= Seq::<Node>::empty());
        assert(count_focused(Seq::<Node>::empty()) == 0);
        assert(count_focused(seq![last]) == (if is_focused_con(last) {
            1nat
        } else {
            0nat
        }));
    }
}

/// A sequence with a focused window at some position holds at least one
/// focused window.
pub proof fn lemma_count_focused_at(s: Seq<Node>, i: int)
    requires
        0 <= i < s.len(),
        is_focused_con(s[i]),
    ensures
        count_focused(s) >= 1,
    decreases i,
{
    if i > 0 {
        assert(s.drop_first()[i - 1] == s[i]);
        lemma_count_focused_at(s.drop_first(), i - 1);
    }
}

/// With at most one focused window, two focused positions coincide.
pub proof fn lemma_focused_unique(s: Seq<Node>, i: int, j: int)
    requires
        count_focused(s) <= 1,
        0 <= i < s.len(),
        0 <= j < s.len(),
        is_focused_con(s[i]),
        is_focused_con(s[j]),
    ensures
        i == j,
{
    if i != j {
        let a = if i < j { i } else { j };
        let b = if i < j { j } else { i };
        assert(s =~= s.take(a + 1) + s.skip(a + 1));
        lemma_count_focused_concat(s.take(a + 1), s.skip(a + 1));
        assert(s.take(a + 1)[a] == s[a]);
        lemma_count_focused_at(s.take(a + 1), a);
        assert(s.skip(a + 1)[b - a - 1] == s[b]);
        lemma_count_focused_at(s.skip(a + 1), b - a - 1);
    }
}

/// Every subtree contributes at least one window to the window sequence.
pub proof fn lemma_dleaves_len(n: Node, rev: bool)
    ensures
        dleaves(n, rev).len() >= 1,
    decreases n, 1int,
{
    if kids(n).len() > 0 {
        lemma_cat_dleaves_len(kids(n), kids(n).len() as int, rev);
    }
}

/// `k` children contribute at least `k` windows.
pub proof fn lemma_cat_dleaves_len(ch: Seq<Node>, k: int, rev: bool)
    requires
        0 <= k <= ch.len(),
    ensures
        cat_dleaves(ch, k, rev).len() >= k,
    decreases ch, k,
{
    if k > 0 {
        lemma_cat_dleaves_len(ch, k - 1, rev);
        let idx = if rev {
            ch.len() - k
        } else {
            k - 1
        };
        lemma_dleaves_len(ch[idx], rev);
    }
}

/// A child already processed contributes no more focused windows than the
/// whole processed part holds.
pub proof fn lemma_cat_dleaves_count_child(ch: Seq<Node>, k: int, i: int, rev: bool)
    requires
        0 <= k <= ch.len(),
        if rev {
            ch.len() - k <= i < ch.len()
        } else {
            0 <= i < k
        },
    ensures
        count_focused(dleaves(ch[i], rev)) <= count_focused(cat_dleaves(ch, k, rev)),
    decreases k,
{
    let idx = if rev {
        ch.len() - k
    } else {
        k - 1
    };
    lemma_count_focused_concat(cat_dleaves(ch, k - 1, rev), dleaves(ch[idx], rev));
    if i != idx {
        lemma_cat_dleaves_count_child(ch, k - 1, i, rev);
    }
}

/// The focused windows of a processed prefix are among those of the whole
/// children sequence.
pub proof fn lemma_cat_dleaves_count_le(ch: Seq<Node>, k: int, rev: bool)
    requires
        0 <= k <= ch.len(),
    ensures
        count_focused(cat_dleaves(ch, k, rev)) <= count_focused(
            cat_dleaves(ch, ch.len() as int, rev),
        ),
    decreases ch.len() - k,
{
    if k < ch.len() {
        let idx = if rev {
            ch.len() - (k + 1)
        } else {
            k
        };
        lemma_count_focused_concat(cat_dleaves(ch, k, rev), dleaves(ch[idx], rev));
        lemma_cat_dleaves_count_le(ch, k + 1, rev);
    }
}

/// The forward concatenation can also be unfolded at its head.
pub proof fn lemma_cat_dleaves_head(ch: Seq<Node>, k: int)
    requires
        1 <= k <= ch.len(),
    ensures
        cat_dleaves(ch, k, false) == dleaves(ch[0], false) + cat_dleaves(
            ch.drop_first(),
            k - 1,
            false,
        ),
    decreases k,
{
    if k == 1 {
        assert(cat_dleaves(ch, 0, false) == Seq::<Node>::empty());
        assert(cat_dleaves(ch.drop_first(), 0, false) == Seq::<Node>::empty());
        assert(cat_dleaves(ch, 1, false) =~= dleaves(ch[0], false) + cat_dleaves(
            ch.drop_first(),
            0,
            false,
        ));
    } else {
        lemma_cat_dleaves_head(ch, k - 1);
        assert(ch.drop_first()[k - 2] == ch[k - 1]);
        assert((dleaves(ch[0], false) + cat_dleaves(ch.drop_first(), k - 2, false)) + dleaves(
            ch.drop_first()[k - 2],
            false,
        ) =~= dleaves(ch[0], false) + (cat_dleaves(ch.drop_first(), k - 2, false) + dleaves(
            ch.drop_first()[k - 2],
            false,
        )));
    }
}

/// Mirroring a concatenation mirrors and swaps its parts.
pub proof fn lemma_reverse_concat(a: Seq<Node>, b: Seq<Node>)
    ensures
        (a + b).reverse() == b.reverse() + a.reverse(),
{
    assert((a + b).reverse() =~= b.reverse() + a.reverse());
}

/// Taking the children back-to-front at every level yields exactly the
/// mirrored window sequence: "previous" walks the same windows as "next",
/// in the opposite order.
pub proof fn lemma_dleaves_reverse(n: Node)
    ensures
        dleaves(n, true) == dleaves(n, false).reverse(),
    decreases n, 1int,
{
    if kids(n).len() == 0 {
        assert(seq![n].reverse() =~= seq![n]);
    } else {
        lemma_cat_dleaves_reverse(kids(n), kids(n).len() as int);
        assert(kids(n).skip(0) =~= kids(n));
    }
}

/// The backward concatenation of the last `k` children is the mirror of
/// their forward concatenation.
pub proof fn lemma_cat_dleaves_reverse(ch: Seq<Node>, k: int)
    requires
        0 <= k <= ch.len(),
    ensures
        cat_dleaves(ch, k, true) == cat_dleaves(ch.skip(ch.len() - k), k, false).reverse(),
    decreases ch, k,
{
    let len = ch.len() as int;
    let d = ch.skip(len - k);
    if k == 0 {
        assert(cat_dleaves(ch, 0, true) =~= Seq::<Node>::empty());
        assert(Seq::<Node>::empty().reverse() =~= Seq::<Node>::empty());
    } else {
        lemma_cat_dleaves_reverse(ch, k - 1);
        lemma_dleaves_reverse(ch[len - k]);
        assert(d[0] == ch[len - k]);
        assert(d.drop_first() =~= ch.skip(len - (k - 1)));
        lemma_cat_dleaves_head(d, k);
        lemma_reverse_concat(dleaves(d[0], false), cat_dleaves(d.drop_first(), k - 1, false));
    }
}

/// Decides whether a subtree may stand below a workspace: only `Con`
/// nodes, all the way down.
pub fn is_window_tree(node: &Node) -> (b: bool)
    ensures
        b == window_tree(*node),
    decreases *node,
{
    match node {
        Node::Con { nodes, .. } => {
            let n = nodes.len();
            let mut i: usize = 0;
            while i < n
                invariant
                    0 <= i <= n,
                    n == nodes@.len(),
                    kids(*node) == nodes@,
                    node matches Node::Con { .. },
                    forall|j: int| 0 <= j < i ==> window_tree(#[trigger] nodes@[j]),
                decreases n - i,
            {
                if !is_window_tree(&nodes[i]) {
                    return false;
                }
                i = i + 1;
            }
            true
        },
        _ => false,
    }
}

/// Counts the focused windows of a subtree, capped at two: all the caller
/// ever needs to know is none, one, or too many.
fn focus_count_capped(node: &Node) -> (c: u8)
    ensures
        c <= 2,
        c < 2 ==> c as nat == count_focused(dleaves(*node, false)),
        c == 2 ==> count_focused(dleaves(*node, false)) >= 2,
    decreases *node,
{
    match node {
        Node::Root { nodes } => {
            if nodes.len() == 0 {
                proof {
                    lemma_count_singleton(*node);
                }
                0
            } else {
                focus_count_children(nodes)
            }
        },
        Node::Output { nodes } => {
            if nodes.len() == 0 {
                proof {
                    lemma_count_singleton(*node);
                }
                0
            } else {
                focus_count_children(nodes)
            }
        },
        Node::Workspace { nodes } => {
            if nodes.len() == 0 {
                proof {
                    lemma_count_singleton(*node);
                }
                0
            } else {
                focus_count_children(nodes)
            }
        },
        Node::Con { focused, nodes, .. } => {
            if nodes.len() == 0 {
                proof {
                    lemma_count_singleton(*node);
                }
                if *focused {
                    1
                } else {
                    0
                }
            } else {
                focus_count_children(nodes)
            }
        },
    }
}

/// A node without children is its own window sequence, so it counts as
/// focused exactly when it is a focused `Con`.
proof fn lemma_count_singleton(n: Node)
    ensures
        count_focused(seq![n]) == (if is_focused_con(n) {
            1nat
        } else {
            0nat
        }),
{
    assert(seq![n].drop_first() =~= Seq::<Node>::empty());
    assert(count_focused(Seq::<Node>::empty()) == 0);
}

/// Counts the focused windows below a non-empty children sequence, capped
/// at two.
fn focus_count_children(nodes: &Vec<Node>) -> (c: u8)
    requires
        nodes@.len() > 0,
    ensures
        c <= 2,
        c < 2 ==> c as nat == count_focused(cat_dleaves(nodes@, nodes@.len() as int, false)),
        c == 2 ==> count_focused(cat_dleaves(nodes@, nodes@.len() as int, false)) >= 2,
    decreases *nodes,
{
    let n = nodes.len();
    let mut c: u8 = 0;
    let mut k: usize = 0;
    proof {
        assert(cat_dleaves(nodes@, 0, false) == Seq::<Node>::empty());
        assert(count_focused(Seq::<Node>::empty()) == 0);
    }
    while k < n
        invariant
            0 <= k <= n,
            n == nodes@.len(),
            c <= 2,
            c < 2 ==> c as nat == count_focused(cat_dleaves(nodes@, k as int, false)),
            c == 2 ==> count_focused(cat_dleaves(nodes@, k as int, false)) >= 2,
        decreases n - k,
    {
        let e = focus_count_capped(&nodes[k]);
        proof {
            lemma_count_focused_concat(
                cat_dleaves(nodes@, k as int, false),
                dleaves(nodes@[k as int], false),
            );
        }
        let s = c + e;
        c = if s > 2 {
            2
        } else {
            s
        };
        k = k + 1;
    }
    c
}

/// Decides whether a node is a well-formed workspace: `Con` nodes below
/// it and at most one focused window, as the window manager guarantees.
pub fn is_wf_workspace(node: &Node) -> (b: bool)
    ensures
        b == wf_workspace(*node),
{
    match node {
        Node::Workspace { nodes } => {
            let n = nodes.len();
            let mut i: usize = 0;
            while i < n
                invariant
                    0 <= i <= n,
                    n == nodes@.len(),
                    kids(*node) == nodes@,
                    node matches Node::Workspace { .. },
                    forall|j: int| 0 <= j < i ==> window_tree(#[trigger] nodes@[j]),
                decreases n - i,
            {
                if !is_window_tree(&nodes[i]) {
                    return false;
                }
                i = i + 1;
            }
            if n == 0 {
                proof {
                    assert(count_focused(Seq::<Node>::empty()) == 0);
                }
                true
            } else {
                let c = focus_count_children(nodes);
                c <= 1
            }
        },
        _ => false,
    }
}

/// Decides whether a whole snapshot has the shape the selector relies on;
/// a snapshot that fails this check is malformed and must be rejected
/// before any traversal.
pub fn is_wf_tree(node: &Node) -> (b: bool)
    ensures
        b == wf_tree(*node),
    decreases *node,
{
    match node {
        Node::Root { nodes } => {
            proof {
                assert(kids(*node) == nodes@);
            }
            is_wf_children(nodes)
        },
        Node::Output { nodes } => {
            proof {
                assert(kids(*node) == nodes@);
            }
            is_wf_children(nodes)
        },
        Node::Workspace { .. } => is_wf_workspace(node),
        Node::Con { .. } => false,
    }
}

/// Decides whether every child of a routing node is a well-formed scene
/// graph of its own.
fn is_wf_children(nodes: &Vec<Node>) -> (b: bool)
    ensures
        b == (forall|j: int| 0 <= j < nodes@.len() ==> wf_tree(#[trigger] nodes@[j])),
    decreases *nodes,
{
    let n = nodes.len();
    let mut i: usize = 0;
    while i < n
        invariant
            0 <= i <= n,
            n == nodes@.len(),
            forall|j: int| 0 <= j < i ==> wf_tree(#[trigger] nodes@[j]),
        decreases n - i,
    {
        if !is_wf_tree(&nodes[i]) {
            return false;
        }
        i = i + 1;
    }
    true
}

/// The window sequence of a window subtree holds nothing but windows.
pub proof fn lemma_dleaves_windows(n: Node, rev: bool)
    requires
        window_tree(n),
    ensures
        all_windows(dleaves(n, rev)),
    decreases n, 1int,
{
    if kids(n).len() == 0 {
        assert(seq![n][0] == n);
    } else {
        lemma_cat_dleaves_windows(kids(n), kids(n).len() as int, rev);
    }
}

/// Window subtrees contribute nothing but windows.
pub proof fn lemma_cat_dleaves_windows(ch: Seq<Node>, k: int, rev: bool)
    requires
        0 <= k <= ch.len(),
        forall|i: int| 0 <= i < ch.len() ==> window_tree(#[trigger] ch[i]),
    ensures
        all_windows(cat_dleaves(ch, k, rev)),
    decreases ch, k,
{
    if k > 0 {
        lemma_cat_dleaves_windows(ch, k - 1, rev);
        let idx = if rev {
            ch.len() - k
        } else {
            k - 1
        };
        lemma_dleaves_windows(ch[idx], rev);
        let s = cat_dleaves(ch, k - 1, rev);
        let t = dleaves(ch[idx], rev);
        assert forall|i: int| 0 <= i < (s + t).len() implies is_window(#[trigger] (s + t)[i]) by {
            if i < s.len() {
                assert((s + t)[i] == s[i]);
            } else {
                assert((s + t)[i] == t[i - s.len()]);
            }
        }
    }
}

/// Everything the selector ranges over in a well-formed workspace is a
/// window.
pub proof fn lemma_windows_are_windows(ws: Node)
    requires
        wf_workspace(ws),
    ensures
        all_windows(windows(ws)),
{
    if kids(ws).len() > 0 {
        lemma_cat_dleaves_windows(kids(ws), kids(ws).len() as int, false);
    }
}

} // verus!
