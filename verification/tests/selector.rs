use sway_focus::selector::next_window_to_focus;
use sway_focus::tree::{Node, is_wf_tree, is_wf_workspace, is_window_tree};

fn win(id: u32, focused: bool) -> Node {
    Node::Con { id, focused, nodes: vec![] }
}

fn con(nodes: Vec<Node>) -> Node {
    Node::Con { id: 0, focused: false, nodes }
}

fn workspace(nodes: Vec<Node>) -> Node {
    Node::Workspace { nodes }
}

fn output(nodes: Vec<Node>) -> Node {
    Node::Output { nodes }
}

fn root(nodes: Vec<Node>) -> Node {
    Node::Root { nodes }
}

fn picked_id(r: Option<&Node>) -> Option<u32> {
    r.map(|n| match n {
        Node::Con { id, .. } => *id,
        _ => panic!("selected a node that is not a window"),
    })
}

#[test]
fn next_moves_right() {
    let ws = workspace(vec![win(1, false), win(2, true), win(3, false)]);
    assert!(is_wf_workspace(&ws));
    assert_eq!(picked_id(next_window_to_focus(&ws, false)), Some(3));
}

#[test]
fn prev_moves_left() {
    let ws = workspace(vec![win(1, false), win(2, true), win(3, false)]);
    assert_eq!(picked_id(next_window_to_focus(&ws, true)), Some(1));
}

#[test]
fn next_wraps_to_front() {
    let ws = workspace(vec![win(1, false), win(2, false), win(3, true)]);
    assert_eq!(picked_id(next_window_to_focus(&ws, false)), Some(1));
}

#[test]
fn prev_wraps_to_back() {
    let ws = workspace(vec![win(1, true), win(2, false), win(3, false)]);
    assert_eq!(picked_id(next_window_to_focus(&ws, true)), Some(3));
}

#[test]
fn round_trip_next_then_prev() {
    let before = workspace(vec![win(1, false), win(2, true), win(3, false)]);
    let next = picked_id(next_window_to_focus(&before, false)).unwrap();
    assert_eq!(next, 3);
    let after = workspace(vec![win(1, false), win(2, false), win(3, true)]);
    assert_eq!(picked_id(next_window_to_focus(&after, true)), Some(2));
}

#[test]
fn round_trip_prev_then_next() {
    let before = workspace(vec![win(1, false), win(2, true), win(3, false)]);
    let prev = picked_id(next_window_to_focus(&before, true)).unwrap();
    assert_eq!(prev, 1);
    let after = workspace(vec![win(1, true), win(2, false), win(3, false)]);
    assert_eq!(picked_id(next_window_to_focus(&after, false)), Some(2));
}

#[test]
fn single_focused_window_self_wraps() {
    let ws = workspace(vec![win(7, true)]);
    assert_eq!(picked_id(next_window_to_focus(&ws, false)), Some(7));
    assert_eq!(picked_id(next_window_to_focus(&ws, true)), Some(7));
}

#[test]
fn no_focus_yields_nothing() {
    let ws = workspace(vec![win(1, false), win(2, false)]);
    assert_eq!(picked_id(next_window_to_focus(&ws, false)), None);
    assert_eq!(picked_id(next_window_to_focus(&ws, true)), None);
}

#[test]
fn empty_workspace_yields_nothing() {
    let ws = workspace(vec![]);
    assert_eq!(picked_id(next_window_to_focus(&ws, false)), None);
    assert_eq!(picked_id(next_window_to_focus(&ws, true)), None);
}

#[test]
fn nesting_enters_container() {
    let ws = workspace(vec![
        win(1, false),
        con(vec![win(2, true), win(3, false)]),
        win(4, false),
    ]);
    assert_eq!(picked_id(next_window_to_focus(&ws, false)), Some(3));
}

#[test]
fn nesting_leaves_container() {
    let ws = workspace(vec![
        win(1, false),
        con(vec![win(2, false), win(3, true)]),
        win(4, false),
    ]);
    assert_eq!(picked_id(next_window_to_focus(&ws, false)), Some(4));
}

#[test]
fn nesting_wraps_from_last() {
    let ws = workspace(vec![
        win(1, false),
        con(vec![win(2, false), win(3, false)]),
        win(4, true),
    ]);
    assert_eq!(picked_id(next_window_to_focus(&ws, false)), Some(1));
}

#[test]
fn prev_enters_container_from_behind() {
    let ws = workspace(vec![con(vec![win(1, false), win(2, false)]), win(3, true)]);
    assert_eq!(picked_id(next_window_to_focus(&ws, true)), Some(2));
}

#[test]
fn empty_container_counts_as_window() {
    let ws = workspace(vec![win(1, true), con(vec![])]);
    assert_eq!(picked_id(next_window_to_focus(&ws, false)), Some(0));
}

#[test]
fn only_focused_workspace_contributes() {
    let tree = root(vec![
        output(vec![workspace(vec![win(1, false), win(2, false)])]),
        output(vec![workspace(vec![win(3, true), win(4, false)])]),
    ]);
    assert!(is_wf_tree(&tree));
    assert_eq!(picked_id(next_window_to_focus(&tree, false)), Some(4));
    assert_eq!(picked_id(next_window_to_focus(&tree, true)), Some(4));
}

#[test]
fn no_focus_anywhere_yields_nothing() {
    let tree = root(vec![
        output(vec![workspace(vec![win(1, false)])]),
        output(vec![workspace(vec![])]),
    ]);
    assert_eq!(picked_id(next_window_to_focus(&tree, false)), None);
}

#[test]
fn workspace_at_top_is_accepted() {
    let ws = workspace(vec![win(1, true), win(2, false)]);
    assert!(is_wf_tree(&ws));
    assert_eq!(picked_id(next_window_to_focus(&ws, false)), Some(2));
}

#[test]
fn malformed_con_at_routing_level_rejected() {
    let tree = root(vec![win(1, true)]);
    assert!(!is_wf_tree(&tree));
}

#[test]
fn malformed_output_below_workspace_rejected() {
    let ws = workspace(vec![output(vec![])]);
    assert!(!is_wf_tree(&ws));
    assert!(!is_window_tree(&output(vec![])));
}

#[test]
fn two_focused_windows_rejected() {
    let ws = workspace(vec![win(1, true), win(2, true)]);
    assert!(!is_wf_workspace(&ws));
    let deep = workspace(vec![win(1, true), con(vec![win(2, true)])]);
    assert!(!is_wf_tree(&deep));
}

#[test]
fn one_focused_window_accepted() {
    let ws = workspace(vec![win(1, true), con(vec![win(2, false)])]);
    assert!(is_wf_workspace(&ws));
    assert!(is_wf_tree(&workspace(vec![])));
}
