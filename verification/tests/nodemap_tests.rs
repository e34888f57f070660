use wazemmes_core::node::Node;
use wazemmes_core::nodemap::NodeMap;
use wazemmes_core::window::WindowWrap;

fn win(id: u32) -> Node {
    Node::Window(WindowWrap::new(id))
}

#[test]
fn push_appends_and_focuses_windows() {
    let mut m = NodeMap::new();
    assert_eq!(m.len(), 0);
    let a = m.push(win(1));
    let b = m.push(win(2));
    assert_eq!(a, 1);
    assert_eq!(b, 2);
    assert_eq!(m.spine, vec![1, 2]);
    assert_eq!(m.focus, Some(1));
    match m.get_focused() {
        Some(Node::Window(w)) => assert_eq!(w.id, 2),
        _ => panic!("focus should rest on the second window"),
    }
}

#[test]
fn insert_after_splices_and_focuses() {
    let mut m = NodeMap::new();
    m.push(win(1));
    m.push(win(2));
    let r = m.insert_after(1, win(3));
    assert_eq!(r, Some(3));
    assert_eq!(m.spine, vec![1, 3, 2]);
    assert_eq!(m.focus, Some(1));
}

#[test]
fn insert_before_splices_on_the_other_side() {
    let mut m = NodeMap::new();
    m.push(win(1));
    m.push(win(2));
    let r = m.insert_before(2, win(3));
    assert_eq!(r, Some(3));
    assert_eq!(m.spine, vec![1, 3, 2]);
    assert_eq!(m.focus, Some(1));
}

#[test]
fn insert_after_unknown_target_is_a_clean_miss() {
    let mut m = NodeMap::new();
    m.push(win(1));
    let r = m.insert_after(77, win(3));
    assert!(r.is_none());
    assert_eq!(m.spine, vec![1]);
}

#[test]
fn remove_keeps_order_and_rederives_focus() {
    let mut m = NodeMap::new();
    m.push(win(1));
    m.push(win(2));
    m.push(win(3));
    // focus rests on 3 (index 2); removing it falls back to window 2
    let removed = m.remove(3);
    match removed {
        Some(Node::Window(w)) => assert_eq!(w.id, 3),
        _ => panic!("window 3 should have been removed"),
    }
    assert_eq!(m.spine, vec![1, 2]);
    assert_eq!(m.focus, Some(1));
}

#[test]
fn remove_unfocused_entry_keeps_the_focused_window() {
    let mut m = NodeMap::new();
    m.push(win(1));
    m.push(win(2));
    m.push(win(3));
    // focus on 3 at index 2; removing 1 shifts it to index 1
    m.remove(1);
    assert_eq!(m.spine, vec![2, 3]);
    assert_eq!(m.focus, Some(1));
    match m.get_focused() {
        Some(Node::Window(w)) => assert_eq!(w.id, 3),
        _ => panic!("focus should still rest on window 3"),
    }
}

#[test]
fn remove_last_window_clears_focus() {
    let mut m = NodeMap::new();
    m.push(win(1));
    m.remove(1);
    assert_eq!(m.spine, Vec::<u32>::new());
    assert_eq!(m.focus, None);
}

#[test]
fn order_and_lookup_stay_in_step() {
    // order/lookup consistency over a mixed run of operations
    let mut m = NodeMap::new();
    m.push(win(1));
    m.push(win(2));
    m.insert_after(1, win(3));
    m.remove(2);
    m.insert_before(3, win(4));
    m.remove(1);
    assert_eq!(m.spine.len(), m.items.len());
    for (i, id) in m.spine.iter().enumerate() {
        assert_eq!(m.items[i].id(), *id);
    }
}

#[test]
fn tiled_count_skips_floating_windows() {
    let mut m = NodeMap::new();
    m.push(win(1));
    let mut floating = WindowWrap::new(2);
    floating.toggle_floating();
    m.push(Node::Window(floating));
    assert_eq!(m.window_count(), 2);
    assert_eq!(m.tiled_count(), 1);
}

#[test]
fn set_focus_only_lands_on_windows() {
    let mut m = NodeMap::new();
    m.push(win(1));
    m.push(win(2));
    m.set_focus(1);
    assert_eq!(m.focus, Some(0));
    // an unknown id leaves the focus alone
    m.set_focus(9);
    assert_eq!(m.focus, Some(0));
}

#[test]
fn remove_dead_windows_sweeps_and_refocuses() {
    let mut m = NodeMap::new();
    m.push(win(1));
    let mut dead = WindowWrap::new(2);
    dead.mark_dead();
    m.push(Node::Window(dead));
    // focus rests on the dead window; the sweep hands it to window 1
    m.remove_dead_windows();
    assert_eq!(m.spine, vec![1]);
    assert_eq!(m.focus, Some(0));
}

#[test]
fn iter_windows_in_arrangement_order() {
    let mut m = NodeMap::new();
    m.push(win(5));
    m.push(win(7));
    m.insert_before(5, win(9));
    let ids: Vec<u32> = m.iter_windows().iter().map(|w| w.id).collect();
    assert_eq!(ids, vec![9, 5, 7]);
}

#[test]
fn drain_all_empties_the_map() {
    let mut m = NodeMap::new();
    m.push(win(1));
    m.push(win(2));
    let drained = m.drain_all();
    assert_eq!(drained.len(), 2);
    assert_eq!(m.len(), 0);
    assert_eq!(m.focus, None);
}
