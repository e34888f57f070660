use core::str::FromStr;

use wazemmes_core::backend::{OutputId, PreferedBackend};
use wazemmes_core::container::ContainerLayout;
use wazemmes_core::geometry::{Point, Rect, Size};
use wazemmes_core::inputs::{Action, Direction, KeyAction};
use wazemmes_core::node::IdAllocator;
use wazemmes_core::window::{WindowWrap, FLOATING_Z_INDEX, TILING_Z_INDEX};
use wazemmes_core::workspace::Workspace;

fn output() -> Rect {
    Rect { loc: Point { x: 0, y: 0 }, size: Size { w: 1000, h: 800 } }
}

#[test]
fn new_workspace_frames_the_root_inside_the_gap() {
    let ws = Workspace::new(output(), 10);
    assert_eq!(ws.root.loc, Point { x: 10, y: 10 });
    assert_eq!(ws.root.size, Size { w: 980, h: 780 });
    assert_eq!(ws.focus, 0);
    assert!(ws.fullscreen_layer.is_none());
}

#[test]
fn ids_come_out_in_order() {
    let mut alloc = IdAllocator::new();
    assert_eq!(alloc.get(), 0);
    assert_eq!(alloc.next(), 1);
    assert_eq!(alloc.next(), 2);
    assert_eq!(alloc.get(), 2);
}

#[test]
fn create_container_moves_the_focus_to_the_split() {
    let mut ws = Workspace::new(output(), 10);
    ws.push_window();
    ws.push_window();
    let c = ws.create_container(ContainerLayout::Vertical);
    assert_eq!(ws.focus, c);
    assert_ne!(c, 0);
}

#[test]
fn split_of_a_single_window_keeps_the_container() {
    let mut ws = Workspace::new(output(), 10);
    ws.push_window();
    let c = ws.create_container(ContainerLayout::Vertical);
    // nothing to subdivide: the root itself was answered
    assert_eq!(c, 0);
    assert_eq!(ws.root.layout, ContainerLayout::Vertical);
}

#[test]
fn focus_miss_reports_failure_without_mutation() {
    let mut ws = Workspace::new(output(), 10);
    ws.push_window();
    let before_focus = ws.focus;
    assert!(!ws.set_container_focused(99));
    assert_eq!(ws.focus, before_focus);
    assert!(ws.set_container_focused(0));
}

#[test]
fn get_focus_answers_the_focused_window() {
    let mut ws = Workspace::new(output(), 10);
    let a = ws.push_window();
    let (c, w) = ws.get_focus();
    assert_eq!(c, 0);
    assert_eq!(w.map(|w| w.id), Some(a));
}

#[test]
fn focus_window_focuses_its_container() {
    let mut ws = Workspace::new(output(), 10);
    let a = ws.push_window();
    ws.push_window();
    let c = ws.create_container(ContainerLayout::Vertical);
    assert_eq!(ws.focus, c);
    assert!(ws.focus_window(a));
    assert_eq!(ws.focus, 0);
    let (_, w) = ws.get_focus();
    assert_eq!(w.map(|w| w.id), Some(a));
    assert!(!ws.focus_window(777));
}

#[test]
fn move_window_within_one_container_swaps_sides() {
    let mut ws = Workspace::new(output(), 10);
    let a = ws.push_window();
    let b = ws.push_window();
    // b is focused; move it left of a
    assert!(ws.move_window(Direction::Left, a));
    let ids: Vec<u32> = ws.flatten_window().iter().map(|w| w.id).collect();
    assert_eq!(ids, vec![b, a]);
}

#[test]
fn pop_container_returns_focus_to_the_parent() {
    let mut ws = Workspace::new(output(), 10);
    ws.push_window();
    ws.push_window();
    let c = ws.create_container(ContainerLayout::Vertical);
    // empty the split by closing its only window, then pop it
    let _ = ws.close_window();
    ws.pop_container();
    assert_eq!(ws.focus, 0);
    assert!(ws.find_container_by_id(c).is_none());
}

#[test]
fn toggle_fullscreen_window_sets_and_clears_the_layer() {
    let mut ws = Workspace::new(output(), 10);
    let a = ws.push_window();
    ws.toggle_fullscreen_window();
    assert_eq!(
        ws.fullscreen_layer,
        Some(wazemmes_core::workspace::FullscreenTarget::Window(a)),
    );
    ws.toggle_fullscreen_window();
    assert!(ws.fullscreen_layer.is_none());
}

#[test]
fn closing_the_fullscreen_window_clears_the_layer() {
    let mut ws = Workspace::new(output(), 10);
    ws.push_window();
    ws.toggle_fullscreen_window();
    let _ = ws.close_window();
    assert!(ws.fullscreen_layer.is_none());
}

#[test]
fn output_resize_reframes_the_root() {
    let mut ws = Workspace::new(output(), 10);
    let bigger = Rect { loc: Point { x: 0, y: 0 }, size: Size { w: 2000, h: 1000 } };
    ws.set_output_geometry(bigger, 10);
    assert_eq!(ws.root.loc, Point { x: 10, y: 10 });
    assert_eq!(ws.root.size, Size { w: 1980, h: 980 });
}

#[test]
fn window_handle_state_round_trips() {
    let mut w = WindowWrap::new(7);
    assert_eq!(w.id(), 7);
    assert!(!w.is_floating());
    assert!(!w.configured());
    assert!(w.alive());
    assert_eq!(w.z_index(), TILING_Z_INDEX);
    w.toggle_floating();
    assert!(w.is_floating());
    assert_eq!(w.z_index(), FLOATING_Z_INDEX);
    w.set_initial_geometry(Size { w: 320, h: 200 });
    w.set_configured();
    assert!(w.configured());
    assert_eq!(w.initial_size(), Size { w: 320, h: 200 });
    let c = w.center(Size { w: 1000, h: 800 });
    assert_eq!(c, Point { x: 500 - 160, y: 400 - 100 });
    w.mark_dead();
    assert!(!w.alive());
}

#[test]
fn update_loc_and_size_reports_change() {
    let mut w = WindowWrap::new(1);
    let changed = w.update_loc_and_size(
        Some(Size { w: 10, h: 10 }),
        Point { x: 5, y: 5 },
    );
    assert!(changed);
    let unchanged = w.update_loc_and_size(
        Some(Size { w: 10, h: 10 }),
        Point { x: 5, y: 5 },
    );
    assert!(!unchanged);
}

#[test]
fn actions_map_to_their_key_actions() {
    assert_eq!(
        Action::MoveFocusLeft.to_key_action(),
        KeyAction::MoveFocus(Direction::Left),
    );
    assert_eq!(
        Action::MoveWindowDown.to_key_action(),
        KeyAction::MoveWindow(Direction::Down),
    );
    assert_eq!(Action::MoveToWorkspace(3).to_key_action(), KeyAction::MoveToWorkspace(3));
    assert_eq!(Action::Close.to_key_action(), KeyAction::Close);
    assert_eq!(
        Action::Run { env: vec![], command: "alacritty".to_string() }.to_key_action(),
        KeyAction::Run("alacritty".to_string(), vec![]),
    );
}

#[test]
fn backend_names_parse() {
    assert_eq!(PreferedBackend::from_str("x11"), Ok(PreferedBackend::X11));
    assert_eq!(PreferedBackend::from_str("winit"), Ok(PreferedBackend::Winit));
    assert_eq!(PreferedBackend::from_str("udev"), Ok(PreferedBackend::Udev));
    assert_eq!(PreferedBackend::from_str("auto"), Ok(PreferedBackend::Auto));
    match PreferedBackend::from_str("frame-buffer") {
        Err(e) => assert_eq!(e.0, "frame-buffer".to_string()),
        Ok(_) => panic!("an unknown backend name must be refused"),
    }
}

#[test]
fn output_ids_compare_by_value() {
    assert_eq!(OutputId { id: 4 }, OutputId { id: 4 });
    assert_ne!(OutputId { id: 4 }, OutputId { id: 5 });
}
