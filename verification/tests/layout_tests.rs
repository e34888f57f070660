use wazemmes_core::geometry::{Point, Rect, Size};
use wazemmes_core::window::WindowWrap;
use wazemmes_core::workspace::Workspace;

/// An output whose frame, less a gap of 10, is 1000 by 800 at the origin.
fn output_1000_800() -> Rect {
    Rect { loc: Point { x: -10, y: -10 }, size: Size { w: 1020, h: 820 } }
}

fn geometry_of(ws: &Workspace, id: u32) -> (Point, Size) {
    for w in ws.flatten_window() {
        if w.id == id {
            return (w.loc, w.size);
        }
    }
    panic!("window {} not found", id);
}

#[test]
fn single_window_fills_the_root() {
    let mut ws = Workspace::new(output_1000_800(), 10);
    let a = ws.push_window();
    ws.redraw(10);
    let (loc, size) = geometry_of(&ws, a);
    assert_eq!(loc, Point { x: 0, y: 0 });
    assert_eq!(size, Size { w: 1000, h: 800 });
}

#[test]
fn two_windows_share_the_width_less_the_gap() {
    let mut ws = Workspace::new(output_1000_800(), 10);
    let a = ws.push_window();
    let b = ws.push_window();
    ws.redraw(10);
    // (1000 - 10) / 2 = 495 for each slot, the second offset by 505
    let (la, sa) = geometry_of(&ws, a);
    let (lb, sb) = geometry_of(&ws, b);
    assert_eq!(la, Point { x: 0, y: 0 });
    assert_eq!(sa, Size { w: 495, h: 800 });
    assert_eq!(lb, Point { x: 505, y: 0 });
    assert_eq!(sb, Size { w: 495, h: 800 });
}

#[test]
fn closing_one_window_gives_the_other_the_whole_root() {
    let mut ws = Workspace::new(output_1000_800(), 10);
    let a = ws.push_window();
    let b = ws.push_window();
    ws.redraw(10);
    // close the focused window (b), then a fills the root again
    let closed = ws.close_window();
    assert_eq!(closed, Some(b));
    ws.redraw(10);
    let (la, sa) = geometry_of(&ws, a);
    assert_eq!(la, Point { x: 0, y: 0 });
    assert_eq!(sa, Size { w: 1000, h: 800 });
}

#[test]
fn redraw_twice_assigns_identical_geometry() {
    let mut ws = Workspace::new(output_1000_800(), 10);
    ws.push_window();
    ws.push_window();
    let mut third = ws.push_window();
    let _ = third;
    ws.redraw(10);
    let first: Vec<WindowWrap> = ws.flatten_window();
    ws.redraw(10);
    let second: Vec<WindowWrap> = ws.flatten_window();
    assert_eq!(first, second);
}

#[test]
fn vertical_layout_stacks_downward() {
    let mut ws = Workspace::new(output_1000_800(), 10);
    let a = ws.push_window();
    ws.create_container(wazemmes_core::container::ContainerLayout::Vertical);
    ws.redraw(10);
    // a single window still fills the root whatever the direction
    let (la, sa) = geometry_of(&ws, a);
    assert_eq!(la, Point { x: 0, y: 0 });
    assert_eq!(sa, Size { w: 1000, h: 800 });
}

#[test]
fn floating_window_is_centered_and_takes_no_slot() {
    let mut ws = Workspace::new(output_1000_800(), 10);
    let a = ws.push_window();
    let b = ws.push_window();
    // float b with a preferred size of 200 by 100
    assert!(ws.configure_window(b, Size { w: 200, h: 100 }));
    let floated = ws.toggle_floating();
    assert_eq!(floated, Some(b));
    ws.redraw(10);
    // a alone takes the tiled slot: the whole root
    let (la, sa) = geometry_of(&ws, a);
    assert_eq!(la, Point { x: 0, y: 0 });
    assert_eq!(sa, Size { w: 1000, h: 800 });
    // b is centered on the output of size 1020 by 820
    let (lb, sb) = geometry_of(&ws, b);
    assert_eq!(sb, Size { w: 200, h: 100 });
    assert_eq!(lb, Point { x: 1020 / 2 - 100, y: 820 / 2 - 50 });
}

#[test]
fn dead_windows_are_swept_on_redraw() {
    let mut ws = Workspace::new(output_1000_800(), 10);
    let a = ws.push_window();
    let b = ws.push_window();
    ws.redraw(10);
    assert!(ws.mark_window_dead(a));
    ws.redraw(10);
    let ids: Vec<u32> = ws.flatten_window().iter().map(|w| w.id).collect();
    assert_eq!(ids, vec![b]);
    // the survivor takes the whole root again
    let (_, sb) = geometry_of(&ws, b);
    assert_eq!(sb, Size { w: 1000, h: 800 });
}

#[test]
fn orphan_containers_are_dissolved_on_redraw() {
    let mut ws = Workspace::new(output_1000_800(), 10);
    let a = ws.push_window();
    let b = ws.push_window();
    // split: the root holds [a, c(b)] and c has the focus
    let c = ws.create_container(wazemmes_core::container::ContainerLayout::Vertical);
    assert_ne!(c, 0);
    // grow the subtree: c holds [b, d(e)]
    let e = ws.push_window();
    let d = ws.create_container(wazemmes_core::container::ContainerLayout::Horizontal);
    assert_ne!(d, c);
    let _ = e;
    // move b next to a: c keeps only the sub-container d, an orphan
    assert!(ws.focus_window(b));
    assert!(ws.move_window(wazemmes_core::inputs::Direction::Left, a));
    let info = ws.find_container_by_id(c).expect("c should still exist");
    assert_eq!(info.state, wazemmes_core::container::ContainerState::HasContainersOnly);
    let (_, clean) = ws.redraw(10);
    // with allocator-issued ids every lift is admissible
    assert!(clean);
    // c is gone; d was adopted by the root
    assert!(ws.find_container_by_id(c).is_none());
    let d_info = ws.find_container_by_id(d).expect("d should have been lifted");
    assert_eq!(d_info.parent, Some(0));
    let _ = (a, b);
}

#[test]
fn fullscreen_container_round_trip_restores_geometry() {
    let mut ws = Workspace::new(output_1000_800(), 10);
    ws.push_window();
    ws.push_window();
    ws.redraw(10);
    let before: Vec<WindowWrap> = ws.flatten_window();
    ws.toggle_fullscreen_container(10);
    ws.redraw(10);
    ws.toggle_fullscreen_container(10);
    ws.redraw(10);
    let after: Vec<WindowWrap> = ws.flatten_window();
    assert_eq!(before, after);
}

#[test]
fn fullscreen_window_takes_the_output_frame() {
    let mut ws = Workspace::new(output_1000_800(), 10);
    ws.push_window();
    let b = ws.push_window();
    ws.redraw(10);
    ws.toggle_fullscreen_window();
    ws.redraw(10);
    let (lb, sb) = geometry_of(&ws, b);
    assert_eq!(lb, Point { x: 0, y: 0 });
    assert_eq!(sb, Size { w: 1000, h: 800 });
}

#[test]
fn gap_of_zero_leaves_no_seams() {
    let out = Rect { loc: Point { x: 0, y: 0 }, size: Size { w: 600, h: 400 } };
    let mut ws = Workspace::new(out, 0);
    let a = ws.push_window();
    let b = ws.push_window();
    ws.redraw(0);
    let (la, sa) = geometry_of(&ws, a);
    let (lb, sb) = geometry_of(&ws, b);
    assert_eq!(la, Point { x: 0, y: 0 });
    assert_eq!(sa, Size { w: 300, h: 400 });
    assert_eq!(lb, Point { x: 300, y: 0 });
    assert_eq!(sb, Size { w: 300, h: 400 });
}

#[test]
fn activation_follows_the_container_focus() {
    let mut ws = Workspace::new(output_1000_800(), 10);
    let a = ws.push_window();
    let b = ws.push_window();
    ws.redraw(10);
    let flat = ws.flatten_window();
    for w in &flat {
        if w.id == a {
            assert!(!w.activated);
        }
        if w.id == b {
            assert!(w.activated);
        }
    }
}
