use wazemmes_core::container::{Container, ContainerLayout, ContainerState};
use wazemmes_core::geometry::{Point, Size};
use wazemmes_core::node::Node;
use wazemmes_core::nodemap::NodeMap;
use wazemmes_core::window::WindowWrap;

fn empty_container(id: u32) -> Container {
    Container {
        id,
        loc: Point { x: 0, y: 0 },
        size: Size { w: 1000, h: 800 },
        parent: None,
        layout: ContainerLayout::Horizontal,
        nodes: NodeMap::new(),
    }
}

#[test]
fn split_with_one_window_only_turns_the_layout() {
    let mut c = empty_container(0);
    c.push_window(WindowWrap::new(1));
    let created = c.create_child(ContainerLayout::Vertical, 50);
    assert!(!created);
    assert_eq!(c.layout, ContainerLayout::Vertical);
    assert_eq!(c.nodes.spine, vec![1]);
    // no entry carries the id that a new container would have taken
    assert!(!c.nodes.spine.contains(&50));
}

#[test]
fn split_empty_container_only_turns_the_layout() {
    let mut c = empty_container(0);
    let created = c.create_child(ContainerLayout::Vertical, 50);
    assert!(!created);
    assert_eq!(c.layout, ContainerLayout::Vertical);
    assert_eq!(c.nodes.len(), 0);
}

#[test]
fn split_with_two_windows_carves_out_the_focused_one() {
    let mut c = empty_container(0);
    c.push_window(WindowWrap::new(1));
    c.push_window(WindowWrap::new(2));
    // focus rests on window 2
    let created = c.create_child(ContainerLayout::Vertical, 50);
    assert!(created);
    // the new container sits where the focused window was
    assert_eq!(c.nodes.spine, vec![1, 50]);
    match &c.nodes.items[1] {
        Node::Container(child) => {
            assert_eq!(child.id, 50);
            assert_eq!(child.parent, Some(0));
            assert_eq!(child.layout, ContainerLayout::Vertical);
            assert_eq!(child.nodes.spine, vec![2]);
            assert_eq!(child.nodes.focus, Some(0));
        },
        _ => panic!("the split should have produced a container"),
    }
    // the other window stayed with the original container
    match &c.nodes.items[0] {
        Node::Window(w) => assert_eq!(w.id, 1),
        _ => panic!("window 1 should have stayed"),
    }
}

#[test]
fn split_halves_the_space_along_the_current_axis() {
    let mut c = empty_container(0);
    c.push_window(WindowWrap::new(1));
    c.push_window(WindowWrap::new(2));
    let created = c.create_child(ContainerLayout::Vertical, 50);
    assert!(created);
    match &c.nodes.items[1] {
        Node::Container(child) => {
            // horizontal parent: the new sibling takes the right half
            assert_eq!(child.loc, Point { x: 500, y: 0 });
            assert_eq!(child.size, Size { w: 500, h: 800 });
        },
        _ => panic!("the split should have produced a container"),
    }
}

#[test]
fn closing_the_only_window_leaves_an_empty_container() {
    let mut c = empty_container(0);
    c.push_window(WindowWrap::new(1));
    assert_eq!(c.state(), ContainerState::HasWindows);
    let closed = c.close_window();
    assert_eq!(closed, Some(1));
    assert_eq!(c.state(), ContainerState::Empty);
}

#[test]
fn closing_one_of_several_windows_keeps_the_container() {
    let mut c = empty_container(0);
    c.push_window(WindowWrap::new(1));
    c.push_window(WindowWrap::new(2));
    let closed = c.close_window();
    assert_eq!(closed, Some(2));
    assert_eq!(c.state(), ContainerState::HasWindows);
    assert_eq!(c.nodes.spine, vec![1]);
}

#[test]
fn without_direct_windows_the_container_counts_as_containers_only() {
    let mut c = empty_container(0);
    c.push_window(WindowWrap::new(1));
    c.push_window(WindowWrap::new(2));
    c.create_child(ContainerLayout::Vertical, 50);
    // take the remaining direct window out: only the sub-container stays
    c.take_window(1);
    assert_eq!(c.state(), ContainerState::HasContainersOnly);
}

#[test]
fn close_without_focused_window_is_a_no_op() {
    let mut c = empty_container(0);
    assert_eq!(c.close_window(), None);
}

#[test]
fn merge_child_adopts_the_grandchildren() {
    let mut c = empty_container(0);
    c.push_window(WindowWrap::new(1));
    c.push_window(WindowWrap::new(2));
    c.create_child(ContainerLayout::Vertical, 50);
    // c: [1, 50[2]]; dissolving 50 adopts window 2 at the end
    let merged = c.merge_child(50);
    assert!(merged);
    assert_eq!(c.nodes.spine, vec![1, 2]);
    assert_eq!(c.state(), ContainerState::HasWindows);
}

#[test]
fn merge_child_is_refused_on_an_id_collision() {
    // a hand-built tree in which the child's window carries an id already
    // present at the parent level; ids from one allocator never collide,
    // and the merge refuses to corrupt the lookup table
    let mut child_nodes = NodeMap::new();
    child_nodes.push(Node::Window(WindowWrap::new(1)));
    let child = Container {
        id: 2,
        loc: Point { x: 0, y: 0 },
        size: Size { w: 500, h: 800 },
        parent: Some(0),
        layout: ContainerLayout::Horizontal,
        nodes: NodeMap::new(),
    };
    let mut c = empty_container(0);
    c.push_window(WindowWrap::new(1));
    c.nodes.push(Node::Container(Container { nodes: child_nodes, ..child }));
    assert!(!c.merge_child(2));
    assert_eq!(c.nodes.spine, vec![1, 2]);
}

#[test]
fn orphans_stay_put_when_the_lift_would_collide() {
    // the orphan's child carries the id of a window at the outer level,
    // so the dissolution pass leaves the orphan alone rather than
    // desynchronize the order and the table
    let mut inner_nodes = NodeMap::new();
    inner_nodes.push(Node::Window(WindowWrap::new(4)));
    let inner = Container {
        id: 3,
        loc: Point { x: 0, y: 0 },
        size: Size { w: 500, h: 800 },
        parent: Some(2),
        layout: ContainerLayout::Horizontal,
        nodes: inner_nodes,
    };
    let mut orphan_nodes = NodeMap::new();
    orphan_nodes.push(Node::Container(inner));
    let orphan = Container {
        id: 2,
        loc: Point { x: 0, y: 0 },
        size: Size { w: 500, h: 800 },
        parent: Some(0),
        layout: ContainerLayout::Horizontal,
        // the orphan's only child carries id 3, and so does the outer window
        nodes: orphan_nodes,
    };
    let mut c = empty_container(0);
    c.push_window(WindowWrap::new(3));
    c.nodes.push(Node::Container(orphan));
    let r = c.redraw(0, Size { w: 1000, h: 800 });
    // the pass reports that it could not dissolve every orphan
    assert!(!r.1);
    // the orphan container is still here
    assert!(c.query(2).is_some());
}

#[test]
fn query_reads_nested_containers() {
    let mut c = empty_container(0);
    c.push_window(WindowWrap::new(1));
    c.push_window(WindowWrap::new(2));
    c.create_child(ContainerLayout::Vertical, 50);
    let info = c.query(50).expect("the new container should be found");
    assert_eq!(info.id, 50);
    assert_eq!(info.parent, Some(0));
    assert_eq!(info.child_count, 1);
    assert!(c.query(51).is_none());
}

#[test]
fn find_window_holder_descends() {
    let mut c = empty_container(0);
    c.push_window(WindowWrap::new(1));
    c.push_window(WindowWrap::new(2));
    c.create_child(ContainerLayout::Vertical, 50);
    assert_eq!(c.find_window_holder(1), Some(0));
    assert_eq!(c.find_window_holder(2), Some(50));
    assert_eq!(c.find_window_holder(9), None);
}

#[test]
fn flatten_window_walks_the_subtree_in_order() {
    let mut c = empty_container(0);
    c.push_window(WindowWrap::new(1));
    c.push_window(WindowWrap::new(2));
    c.create_child(ContainerLayout::Vertical, 50);
    let ws = c.flatten_window();
    let ids: Vec<u32> = ws.iter().map(|w| w.id).collect();
    assert_eq!(ids, vec![1, 2]);
}
