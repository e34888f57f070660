//! One workspace per virtual desktop: the root container for one output,
//! the focused container, and the optional fullscreen override.
//!
//! Every operation the input and protocol layers drive goes through here:
//! opening and closing windows, splitting, focus moves, floating and
//! fullscreen toggles, and the per-frame redraw.  The workspace owns the
//! id allocator, so the core carries no ambient global state.

use vstd::prelude::*;

use crate::container::{
    Container, ContainerInfo, ContainerLayout, OpOut, TreeOp,
};
use crate::geometry::{clamp_coord_spec, rect_ok, size_ok, Point, Rect, Size, MAX_GAP};
use crate::layout::{arrange_steps, normalize_rel, arrange_rel};
use crate::node::{IdAllocator, Node};
use crate::nodemap::NodeMap;
use crate::window::WindowWrap;

verus! {

/// The node a workspace temporarily promotes to fill the whole output.
#[derive(Clone, Copy, PartialEq, Eq, Structural, Debug)]
pub enum FullscreenTarget {
    Window(u32),
    Container(u32),
}

/// The output rectangle pulled in by `gap` on every side, floored at
/// zero: the space the root container tiles into.
pub open spec fn shrink_by_gap(r: Rect, gap: u32) -> Rect {
    Rect {
        loc: Point {
            x: clamp_coord_spec(r.loc.x + gap),
            y: clamp_coord_spec(r.loc.y + gap),
        },
        size: Size {
            w: if r.size.w <= 2 * gap {
                0
            } else {
                (r.size.w - 2 * gap) as i32
            },
            h: if r.size.h <= 2 * gap {
                0
            } else {
                (r.size.h - 2 * gap) as i32
            },
        },
    }
}

pub fn shrink_by_gap_exec(r: Rect, gap: u32) -> (s: Rect)
    requires
        rect_ok(r),
        gap <= MAX_GAP,
    ensures
        s == shrink_by_gap(r, gap),
        rect_ok(s),
{
    let x = crate::geometry::clamp_coord_i32(r.loc.x + (gap as i32));
    let y = crate::geometry::clamp_coord_i32(r.loc.y + (gap as i32));
    let w: i32 = if r.size.w <= 2 * (gap as i32) {
        0
    } else {
        r.size.w - 2 * (gap as i32)
    };
    let h: i32 = if r.size.h <= 2 * (gap as i32) {
        0
    } else {
        r.size.h - 2 * (gap as i32)
    };
    Rect { loc: Point { x, y }, size: Size { w, h } }
}

pub struct Workspace {
    /// The geometry of the output this workspace fills.
    pub output: Rect,
    /// The node promoted to fill the output, when fullscreen is on.
    pub fullscreen_layer: Option<FullscreenTarget>,
    /// The root container; never removed, resized to the output.
    pub root: Container,
    /// The id of the container that currently has the focus.
    pub focus: u32,
    /// Issues ids for new windows and containers.
    pub alloc: IdAllocator,
}

impl Workspace {
    /// The tree and output are sound — every id in the tree is one the
    /// allocator has issued — and the focus may be mid-update.
    pub open spec fn tree_ok(self) -> bool {
        &&& self.root.wf()
        &&& self.root.parent is None
        &&& rect_ok(self.output)
        &&& crate::container::ids_at_most(self.root, self.alloc.value)
    }

    /// The workspace is sound: the tree is well formed, the root is a
    /// root, and the focused container exists.
    pub open spec fn wf(self) -> bool {
        &&& self.tree_ok()
        &&& self.root.contains_container(self.focus)
    }

    /// A fresh workspace: an empty root container sized to the output
    /// less the gap, laid out horizontally, holding the focus.
    pub fn new(output: Rect, gap: u32) -> (w: Workspace)
        requires
            rect_ok(output),
            gap <= MAX_GAP,
        ensures
            w.wf(),
            w.output == output,
            w.fullscreen_layer is None,
            w.root.id == 0,
            w.focus == 0,
            w.root.layout == ContainerLayout::Horizontal,
            w.root.loc == shrink_by_gap(output, gap).loc,
            w.root.size == shrink_by_gap(output, gap).size,
            w.root.nodes.items@ == Seq::<crate::node::Node>::empty(),
            w.alloc.value == 0,
    {
        let alloc = IdAllocator::new();
        let frame = shrink_by_gap_exec(output, gap);
        let root = Container {
            id: alloc.get(),
            loc: frame.loc,
            size: frame.size,
            parent: None,
            layout: ContainerLayout::Horizontal,
            nodes: NodeMap::new(),
        };
        proof {
            assert(crate::container::ids_at_most(root, 0));
        }
        Workspace { output, fullscreen_layer: None, root, focus: alloc.get(), alloc }
    }

    /// Point the workspace focus at `id` if that container exists; fall
    /// back to the root otherwise, so the focus never dangles.
    fn set_focus_checked(&mut self, id: u32)
        requires
            old(self).tree_ok(),
        ensures
            *final(self) == (Workspace {
                focus: if old(self).root.contains_container(id) {
                    id
                } else {
                    old(self).root.id
                },
                ..*old(self)
            }),
            final(self).wf(),
    {
        if self.root.contains_container_exec(id) {
            self.focus = id;
        } else {
            self.focus = self.root.id;
        }
    }

    /// The root container.
    pub fn root(&self) -> (r: &Container)
        ensures
            *r == self.root,
    {
        &self.root
    }

    /// The focused container's id and its focused window, if any.
    pub fn get_focus(&self) -> (r: (u32, Option<WindowWrap>))
        requires
            self.wf(),
        ensures
            r.0 == self.focus,
            match self.root.query_spec(self.focus) {
                Some(info) => r.1 == info.focused_window,
                None => r.1 is None,
            },
    {
        match self.root.query(self.focus) {
            Some(info) => (self.focus, info.focused_window),
            None => (self.focus, None),
        }
    }

    /// The facts of the container with the given id.
    pub fn find_container_by_id(&self, id: u32) -> (r: Option<ContainerInfo>)
        requires
            self.wf(),
        ensures
            r == self.root.query_spec(id),
    {
        self.root.query(id)
    }

    /// Split the focused container: it either just turns its layout
    /// direction, or a new container is carved out for its focused
    /// window; either way the result takes the workspace focus and its id
    /// is answered.
    pub fn create_container(&mut self, layout: ContainerLayout) -> (r: u32)
        requires
            old(self).wf(),
            old(self).alloc.value < u32::MAX,
        ensures
            final(self).wf(),
            final(self).alloc.value == old(self).alloc.value + 1,
            final(self).output == old(self).output,
            final(self).fullscreen_layer == old(self).fullscreen_layer,
            final(self).focus == r,
            exists|created: bool|
                crate::container::apply_steps(
                    old(self).root,
                    final(self).root,
                    old(self).focus,
                    (TreeOp::Split { layout, new_id: (old(self).alloc.value + 1) as u32 }),
                    (OpOut::Split { id: r, created }),
                ),
    {
        let ghost b0 = self.alloc.value;
        let new_id = self.alloc.next();
        let ghost preroot = self.root;
        let ghost prefocus = self.focus;
        proof {
            // the allocator's ids cover the whole tree, so the new id is
            // unused anywhere in it
            crate::container::lemma_ids_fresh(preroot, b0 as u32, new_id);
        }
        let out = self.root.apply_at(self.focus, TreeOp::Split { layout, new_id });
        proof {
            match out {
                Some(o) => {
                    crate::container::lemma_apply_out_shape(
                        preroot,
                        self.root,
                        prefocus,
                        TreeOp::Split { layout, new_id },
                        o,
                    );
                },
                None => {
                    assert(false);
                },
            }
        }
        match out {
            Some(OpOut::Split { id, created }) => {
                proof {
                    crate::container::lemma_split_result_contained(
                        preroot,
                        self.root,
                        prefocus,
                        layout,
                        new_id,
                        id,
                        created,
                    );
                    crate::container::lemma_ids_at_most_mono(preroot, b0 as u32, new_id);
                    crate::container::lemma_apply_ids(
                        preroot,
                        self.root,
                        prefocus,
                        (TreeOp::Split { layout, new_id }),
                        (OpOut::Split { id, created }),
                        new_id,
                    );
                }
                self.set_focus_checked(id);
                proof {
                    assert(crate::container::apply_steps(
                        preroot,
                        self.root,
                        prefocus,
                        (TreeOp::Split { layout, new_id }),
                        (OpOut::Split { id, created }),
                    ));
                }
                id
            },
            _ => {
                proof {
                    assert(false);
                }
                self.focus
            },
        }
    }

    /// Accept a new window into the tree: a fresh handle is spliced in
    /// right after the focused container's focus and takes it; its id is
    /// answered.
    pub fn push_window(&mut self) -> (r: u32)
        requires
            old(self).wf(),
            old(self).alloc.value < u32::MAX,
        ensures
            final(self).wf(),
            final(self).alloc.value == old(self).alloc.value + 1,
            r == old(self).alloc.value + 1,
            final(self).output == old(self).output,
            final(self).fullscreen_layer == old(self).fullscreen_layer,
            final(self).focus == (if final(self).root.contains_container(old(self).focus) {
                old(self).focus
            } else {
                old(self).root.id
            }),
            crate::container::apply_steps(
                old(self).root,
                final(self).root,
                old(self).focus,
                (TreeOp::PushWindow { window: WindowWrap::new_spec(((old(self).alloc.value + 1) as u32)) }),
                OpOut::Id(r),
            ),
    {
        let ghost b0 = self.alloc.value;
        let new_id = self.alloc.next();
        let ghost preroot = self.root;
        let ghost prefocus = self.focus;
        proof {
            crate::container::lemma_ids_fresh(preroot, b0 as u32, new_id);
        }
        let w = WindowWrap::new(new_id);
        let out = self.root.apply_at(self.focus, TreeOp::PushWindow { window: w });
        proof {
            match out {
                Some(o) => {
                    crate::container::lemma_apply_out_shape(
                        preroot,
                        self.root,
                        prefocus,
                        TreeOp::PushWindow { window: w },
                        o,
                    );
                    crate::container::lemma_ids_at_most_mono(preroot, b0 as u32, new_id);
                    crate::container::lemma_apply_ids(
                        preroot,
                        self.root,
                        prefocus,
                        TreeOp::PushWindow { window: w },
                        o,
                        new_id,
                    );
                },
                None => {
                    assert(false);
                },
            }
        }
        let f = self.focus;
        self.set_focus_checked(f);
        new_id
    }

    /// Record the geometry a client announced for one of the windows.
    pub fn configure_window(&mut self, wid: u32, initial: Size) -> (r: bool)
        requires
            old(self).wf(),
            size_ok(initial),
        ensures
            final(self).wf(),
            final(self).focus == (if final(self).root.contains_container(old(self).focus) {
                old(self).focus
            } else {
                old(self).root.id
            }),
            final(self).output == old(self).output,
            final(self).fullscreen_layer == old(self).fullscreen_layer,
            r == (old(self).root.window_holder_spec(wid) is Some),
            match old(self).root.window_holder_spec(wid) {
                Some(h) => exists|out: OpOut|
                    crate::container::apply_steps(
                        old(self).root,
                        final(self).root,
                        h,
                        (TreeOp::ConfigureWindow { window: wid, initial }),
                        out,
                    ),
                None => final(self).root == old(self).root,
            },
    {
        let holder = self.root.find_window_holder(wid);
        let r = match holder {
            None => false,
            Some(h) => {
                proof {
                    lemma_holder_exists(self.root, wid);
                }
                let ghost preroot = self.root;
                let out = self.root.apply_at(h, TreeOp::ConfigureWindow { window: wid, initial });
                proof {
                    assert(out is Some);
                    crate::container::lemma_apply_ids(
                        preroot,
                        self.root,
                        h,
                        TreeOp::ConfigureWindow { window: wid, initial },
                        out->0,
                        self.alloc.value,
                    );
                }
                true
            },
        };
        let f = self.focus;
        self.set_focus_checked(f);
        r
    }

    /// Note that a client's surface died without a proper close; the next
    /// redraw discards the handle.
    pub fn mark_window_dead(&mut self, wid: u32) -> (r: bool)
        requires
            old(self).wf(),
        ensures
            final(self).wf(),
            final(self).focus == (if final(self).root.contains_container(old(self).focus) {
                old(self).focus
            } else {
                old(self).root.id
            }),
            final(self).output == old(self).output,
            final(self).fullscreen_layer == old(self).fullscreen_layer,
            r == (old(self).root.window_holder_spec(wid) is Some),
            match old(self).root.window_holder_spec(wid) {
                Some(h) => exists|out: OpOut|
                    crate::container::apply_steps(
                        old(self).root,
                        final(self).root,
                        h,
                        (TreeOp::MarkDead { window: wid }),
                        out,
                    ),
                None => final(self).root == old(self).root,
            },
    {
        let holder = self.root.find_window_holder(wid);
        let r = match holder {
            None => false,
            Some(h) => {
                proof {
                    lemma_holder_exists(self.root, wid);
                }
                let ghost preroot = self.root;
                let out = self.root.apply_at(h, TreeOp::MarkDead { window: wid });
                proof {
                    assert(out is Some);
                    crate::container::lemma_apply_ids(
                        preroot,
                        self.root,
                        h,
                        TreeOp::MarkDead { window: wid },
                        out->0,
                        self.alloc.value,
                    );
                }
                true
            },
        };
        let f = self.focus;
        self.set_focus_checked(f);
        r
    }

    /// Close the focused window: it leaves the tree at once and its id is
    /// answered so the protocol layer can send the close request.  A
    /// container left empty is removed from its parent, and one left with
    /// only sub-containers is dissolved into its parent; the focus moves
    /// to the parent in either case.
    pub fn close_window(&mut self) -> (r: Option<u32>)
        requires
            old(self).wf(),
        ensures
            final(self).wf(),
            final(self).output == old(self).output,
            final(self).alloc == old(self).alloc,
            final(self).fullscreen_layer == (match (r, old(self).fullscreen_layer) {
                (Some(i), Some(FullscreenTarget::Window(fid))) => if i == fid {
                    None
                } else {
                    old(self).fullscreen_layer
                },
                _ => old(self).fullscreen_layer,
            }),
            exists|mid: Container, out: OpOut|
                {
                    &&& crate::container::apply_steps(
                        old(self).root,
                        mid,
                        old(self).focus,
                        TreeOp::CloseWindow,
                        out,
                    )
                    &&& match r {
                        Some(i) => out == OpOut::Id(i),
                        None => out == OpOut::Nothing,
                    }
                    &&& match mid.query_spec(old(self).focus) {
                        Some(info) => match (info.state, info.parent) {
                            (crate::container::ContainerState::Empty, Some(p)) => (exists|
                                out2: OpOut,
                            |
                                crate::container::apply_steps(
                                    mid,
                                    final(self).root,
                                    p,
                                    (TreeOp::RemoveChild { child: old(self).focus }),
                                    out2,
                                )) && final(self).focus == p,
                            (
                                crate::container::ContainerState::HasContainersOnly,
                                Some(p),
                            ) => (exists|out2: OpOut|
                                crate::container::apply_steps(
                                    mid,
                                    final(self).root,
                                    p,
                                    (TreeOp::MergeChild { child: old(self).focus }),
                                    out2,
                                )) && final(self).focus == p,
                            _ => final(self).root == mid && final(self).focus == old(
                                self,
                            ).focus,
                        },
                        None => final(self).root == mid && final(self).focus == old(self).focus,
                    }
                },
    {
        let ghost preroot = self.root;
        let ghost prefocus = self.focus;
        let out = self.root.apply_at(self.focus, TreeOp::CloseWindow);
        proof {
            match out {
                Some(o) => {
                    crate::container::lemma_apply_out_shape(
                        preroot,
                        self.root,
                        prefocus,
                        TreeOp::CloseWindow,
                        o,
                    );
                    crate::container::lemma_apply_target_stays(
                        preroot,
                        self.root,
                        prefocus,
                        TreeOp::CloseWindow,
                        o,
                    );
                    crate::container::lemma_apply_ids(
                        preroot,
                        self.root,
                        prefocus,
                        TreeOp::CloseWindow,
                        o,
                        self.alloc.value,
                    );
                },
                None => {
                    assert(false);
                },
            }
        }
        let ghost rootmid = self.root;
        let ghost omid = out->0;
        let r = match out {
            Some(OpOut::Id(i)) => Some(i),
            Some(OpOut::Nothing) => None,
            _ => {
                proof {
                    assert(false);
                }
                None
            },
        };
        // clear a fullscreen override that pointed at the closed window
        match (r, self.fullscreen_layer) {
            (Some(i), Some(FullscreenTarget::Window(fid))) => {
                if i == fid {
                    self.fullscreen_layer = None;
                }
            },
            _ => {},
        }
        // clean up the focused container if the close emptied it
        let info = self.root.query(self.focus);
        match info {
            Some(info) => {
                match (info.state, info.parent) {
                    (crate::container::ContainerState::Empty, Some(p)) => {
                        proof {
                            crate::container::lemma_query_parent(rootmid, prefocus);
                            assert(rootmid.contains_container(p));
                        }
                        let out2 = self.root.apply_at(
                            p,
                            TreeOp::RemoveChild { child: self.focus },
                        );
                        proof {
                            match out2 {
                                Some(o2) => {
                                    assert(crate::container::apply_steps(
                                        rootmid,
                                        self.root,
                                        p,
                                        (TreeOp::RemoveChild { child: prefocus }),
                                        o2,
                                    ));
                                    crate::container::lemma_apply_target_stays(
                                        rootmid,
                                        self.root,
                                        p,
                                        (TreeOp::RemoveChild { child: prefocus }),
                                        o2,
                                    );
                                    crate::container::lemma_apply_ids(
                                        rootmid,
                                        self.root,
                                        p,
                                        (TreeOp::RemoveChild { child: prefocus }),
                                        o2,
                                        self.alloc.value,
                                    );
                                },
                                None => {
                                    assert(false);
                                },
                            }
                        }
                        self.set_focus_checked(p);
                    },
                    (crate::container::ContainerState::HasContainersOnly, Some(p)) => {
                        proof {
                            crate::container::lemma_query_parent(rootmid, prefocus);
                            assert(rootmid.contains_container(p));
                        }
                        let out2 = self.root.apply_at(
                            p,
                            TreeOp::MergeChild { child: self.focus },
                        );
                        proof {
                            match out2 {
                                Some(o2) => {
                                    assert(crate::container::apply_steps(
                                        rootmid,
                                        self.root,
                                        p,
                                        (TreeOp::MergeChild { child: prefocus }),
                                        o2,
                                    ));
                                    crate::container::lemma_apply_target_stays(
                                        rootmid,
                                        self.root,
                                        p,
                                        (TreeOp::MergeChild { child: prefocus }),
                                        o2,
                                    );
                                    crate::container::lemma_apply_ids(
                                        rootmid,
                                        self.root,
                                        p,
                                        (TreeOp::MergeChild { child: prefocus }),
                                        o2,
                                        self.alloc.value,
                                    );
                                },
                                None => {
                                    assert(false);
                                },
                            }
                        }
                        self.set_focus_checked(p);
                    },
                    _ => {
                        let f = self.focus;
                        self.set_focus_checked(f);
                    },
                }
            },
            None => {
                let f = self.focus;
                self.set_focus_checked(f);
            },
        }
        r
    }

    /// Remove the focused container from its parent when it has become
    /// empty; the parent takes the focus.  The root is never removed.
    pub fn pop_container(&mut self)
        requires
            old(self).wf(),
        ensures
            final(self).wf(),
            final(self).output == old(self).output,
            final(self).fullscreen_layer == old(self).fullscreen_layer,
            match old(self).root.query_spec(old(self).focus) {
                Some(info) => match info.parent {
                    Some(p) => (exists|out: OpOut|
                        crate::container::apply_steps(
                            old(self).root,
                            final(self).root,
                            p,
                            (TreeOp::RemoveChild { child: old(self).focus }),
                            out,
                        )) && final(self).focus == p,
                    None => final(self).root == old(self).root && final(self).focus == old(
                        self,
                    ).focus,
                },
                None => final(self).root == old(self).root && final(self).focus == old(
                    self,
                ).focus,
            },
    {
        let ghost preroot = self.root;
        let ghost prefocus = self.focus;
        let info = self.root.query(self.focus);
        match info {
            Some(info) => {
                match info.parent {
                    Some(p) => {
                        proof {
                            // the parent a query reports is a holder on
                            // the search path, so it is in the tree
                            crate::container::lemma_query_parent(preroot, prefocus);
                            assert(preroot.contains_container(p));
                        }
                        let out = self.root.apply_at(
                            p,
                            TreeOp::RemoveChild { child: self.focus },
                        );
                        proof {
                            match out {
                                Some(o) => {
                                    assert(crate::container::apply_steps(
                                        preroot,
                                        self.root,
                                        p,
                                        (TreeOp::RemoveChild { child: prefocus }),
                                        o,
                                    ));
                                    crate::container::lemma_apply_target_stays(
                                        preroot,
                                        self.root,
                                        p,
                                        (TreeOp::RemoveChild { child: prefocus }),
                                        o,
                                    );
                                    crate::container::lemma_apply_ids(
                                        preroot,
                                        self.root,
                                        p,
                                        (TreeOp::RemoveChild { child: prefocus }),
                                        o,
                                        self.alloc.value,
                                    );
                                },
                                None => {
                                    assert(false);
                                },
                            }
                        }
                        self.set_focus_checked(p);
                    },
                    None => {},
                }
            },
            None => {},
        }
    }

    /// Focus the container with this id; reports whether it exists, and
    /// changes nothing when it does not.
    pub fn set_container_focused(&mut self, id: u32) -> (r: bool)
        requires
            old(self).wf(),
        ensures
            final(self).wf(),
            r == old(self).root.contains_container(id),
            r ==> *final(self) == (Workspace { focus: id, ..*old(self) }),
            !r ==> *final(self) == *old(self),
    {
        if self.root.contains_container_exec(id) {
            self.focus = id;
            true
        } else {
            false
        }
    }

    /// Focus the window with this id: the container holding it takes the
    /// workspace focus and the window takes that container's focus.
    pub fn focus_window(&mut self, wid: u32) -> (r: bool)
        requires
            old(self).wf(),
        ensures
            final(self).wf(),
            final(self).output == old(self).output,
            final(self).fullscreen_layer == old(self).fullscreen_layer,
            r == (old(self).root.window_holder_spec(wid) is Some),
            !r ==> final(self).root == old(self).root && final(self).focus == old(self).focus,
            match old(self).root.window_holder_spec(wid) {
                Some(h) => (exists|out: OpOut|
                    crate::container::apply_steps(
                        old(self).root,
                        final(self).root,
                        h,
                        (TreeOp::SetFocus { window: wid }),
                        out,
                    )) && final(self).focus == h,
                None => true,
            },
    {
        let holder = self.root.find_window_holder(wid);
        match holder {
            None => false,
            Some(h) => {
                proof {
                    lemma_holder_exists(self.root, wid);
                }
                let ghost preroot = self.root;
                let out = self.root.apply_at(h, TreeOp::SetFocus { window: wid });
                proof {
                    assert(out is Some);
                    crate::container::lemma_apply_target_stays(
                        preroot,
                        self.root,
                        h,
                        TreeOp::SetFocus { window: wid },
                        out->0,
                    );
                    crate::container::lemma_apply_ids(
                        preroot,
                        self.root,
                        h,
                        TreeOp::SetFocus { window: wid },
                        out->0,
                        self.alloc.value,
                    );
                }
                self.set_focus_checked(h);
                true
            },
        }
    }

    /// Toggle the floating flag of the focused window.
    pub fn toggle_floating(&mut self) -> (r: Option<u32>)
        requires
            old(self).wf(),
        ensures
            final(self).wf(),
            final(self).output == old(self).output,
            final(self).fullscreen_layer == old(self).fullscreen_layer,
            final(self).focus == (if final(self).root.contains_container(old(self).focus) {
                old(self).focus
            } else {
                old(self).root.id
            }),
            exists|out: OpOut|
                crate::container::apply_steps(
                    old(self).root,
                    final(self).root,
                    old(self).focus,
                    TreeOp::ToggleFloating,
                    out,
                ) && (match r {
                    Some(i) => out == OpOut::Id(i),
                    None => out == OpOut::Nothing,
                }),
    {
        let ghost preroot = self.root;
        let ghost prefocus = self.focus;
        let out = self.root.apply_at(self.focus, TreeOp::ToggleFloating);
        proof {
            match out {
                Some(o) => {
                    crate::container::lemma_apply_out_shape(
                        preroot,
                        self.root,
                        prefocus,
                        TreeOp::ToggleFloating,
                        o,
                    );
                    crate::container::lemma_apply_ids(
                        preroot,
                        self.root,
                        prefocus,
                        TreeOp::ToggleFloating,
                        o,
                        self.alloc.value,
                    );
                },
                None => {
                    assert(false);
                },
            }
        }
        let r = match out {
            Some(OpOut::Id(i)) => Some(i),
            Some(OpOut::Nothing) => None,
            _ => {
                proof {
                    assert(false);
                }
                None
            },
        };
        let f = self.focus;
        self.set_focus_checked(f);
        r
    }

    /// Promote the focused window to fullscreen, or leave fullscreen if
    /// an override is already set.
    pub fn toggle_fullscreen_window(&mut self)
        requires
            old(self).wf(),
        ensures
            final(self).wf(),
            final(self).root == old(self).root,
            final(self).focus == old(self).focus,
            final(self).output == old(self).output,
            final(self).fullscreen_layer == (if old(self).fullscreen_layer is Some {
                None
            } else {
                match old(self).root.query_spec(old(self).focus) {
                    Some(info) => match info.focused_window {
                        Some(w) => Some(FullscreenTarget::Window(w.id)),
                        None => old(self).fullscreen_layer,
                    },
                    None => old(self).fullscreen_layer,
                }
            }),
    {
        if self.fullscreen_layer.is_some() {
            self.fullscreen_layer = None;
        } else {
            let (_, w) = self.get_focus();
            match w {
                Some(w) => {
                    self.fullscreen_layer = Some(FullscreenTarget::Window(w.id()));
                },
                None => {},
            }
        }
    }

    /// Promote the focused container to fullscreen, or leave fullscreen —
    /// restoring the root to the output frame — if an override is set.
    pub fn toggle_fullscreen_container(&mut self, gap: u32)
        requires
            old(self).wf(),
            gap <= MAX_GAP,
        ensures
            final(self).wf(),
            final(self).focus == old(self).focus,
            final(self).output == old(self).output,
            old(self).fullscreen_layer is Some ==> {
                &&& final(self).fullscreen_layer is None
                &&& final(self).root == (Container {
                    loc: shrink_by_gap(old(self).output, gap).loc,
                    size: shrink_by_gap(old(self).output, gap).size,
                    ..old(self).root
                })
            },
            old(self).fullscreen_layer is None ==> {
                &&& final(self).fullscreen_layer == Some(
                    FullscreenTarget::Container(old(self).focus),
                )
                &&& final(self).root == old(self).root
            },
    {
        if self.fullscreen_layer.is_some() {
            self.fullscreen_layer = None;
            self.reset_gaps(gap);
        } else {
            self.fullscreen_layer = Some(FullscreenTarget::Container(self.focus));
        }
    }

    /// Restore the root container to the output frame, less the gap.
    pub fn reset_gaps(&mut self, gap: u32)
        requires
            old(self).wf(),
            gap <= MAX_GAP,
        ensures
            final(self).wf(),
            *final(self) == (Workspace {
                root: Container {
                    loc: shrink_by_gap(old(self).output, gap).loc,
                    size: shrink_by_gap(old(self).output, gap).size,
                    ..old(self).root
                },
                ..*old(self)
            }),
    {
        let frame = shrink_by_gap_exec(self.output, gap);
        let ghost preroot = self.root;
        self.root.set_geometry(frame.loc, frame.size);
        proof {
            crate::container::lemma_ids_same_items(preroot, self.root, self.alloc.value);
        }
    }

    /// The output's geometry changed (monitor resize): record it and
    /// restore the root frame.
    pub fn set_output_geometry(&mut self, output: Rect, gap: u32)
        requires
            old(self).wf(),
            rect_ok(output),
            gap <= MAX_GAP,
        ensures
            final(self).wf(),
            final(self).output == output,
            final(self).root == (Container {
                loc: shrink_by_gap(output, gap).loc,
                size: shrink_by_gap(output, gap).size,
                ..old(self).root
            }),
            final(self).focus == old(self).focus,
            final(self).fullscreen_layer == old(self).fullscreen_layer,
    {
        self.output = output;
        self.reset_gaps(gap);
    }

    /// Recompute every node's geometry.  With a fullscreen override set,
    /// only the promoted node is laid out, filling the output less the
    /// gap; otherwise the whole tree is normalized and arranged within
    /// the root frame.
    pub fn redraw(&mut self, gap: u32) -> (r: (Ghost<Container>, bool))
        requires
            old(self).wf(),
            gap <= MAX_GAP,
        ensures
            final(self).wf(),
            final(self).focus == (if final(self).root.contains_container(old(self).focus) {
                old(self).focus
            } else {
                old(self).root.id
            }),
            final(self).output == old(self).output,
            final(self).fullscreen_layer == old(self).fullscreen_layer,
            old(self).fullscreen_layer is None ==> {
                &&& normalize_rel(old(self).root, r.0@)
                &&& crate::layout::no_dead(final(self).root)
                &&& (r.1 ==> crate::layout::orphan_free(final(self).root))
                &&& r.0@.nodes.items@.len() == 0 ==> final(self).root == r.0@
                &&& r.0@.nodes.items@.len() > 0 ==> arrange_rel(
                    r.0@,
                    final(self).root,
                    r.0@.loc,
                    r.0@.size,
                    gap,
                    old(self).output.size,
                )
            },
            (match old(self).fullscreen_layer {
                Some(FullscreenTarget::Container(id)) => old(self).root.contains_container(id)
                    ==> arrange_steps(
                    old(self).root,
                    final(self).root,
                    id,
                    shrink_by_gap(old(self).output, gap).loc,
                    shrink_by_gap(old(self).output, gap).size,
                    gap,
                    old(self).output.size,
                ),
                _ => true,
            }),
            (match old(self).fullscreen_layer {
                Some(FullscreenTarget::Window(wid)) => match old(self).root.window_holder_spec(
                    wid,
                ) {
                    Some(h) => exists|out: OpOut|
                        crate::container::apply_steps(
                            old(self).root,
                            final(self).root,
                            h,
                            (TreeOp::SetWindowGeometry {
                                window: wid,
                                loc: shrink_by_gap(old(self).output, gap).loc,
                                size: shrink_by_gap(old(self).output, gap).size,
                            }),
                            out,
                        ),
                    None => final(self).root == old(self).root,
                },
                _ => true,
            }),
    {
        let out_size = self.output.size;
        let ghost preroot = self.root;
        let g: Ghost<Container>;
        let mut clean = false;
        match self.fullscreen_layer {
            None => {
                let rr = self.root.redraw(gap, out_size);
                g = rr.0;
                clean = rr.1;
                proof {
                    crate::layout::lemma_normalize_ids(preroot, g@, self.alloc.value);
                    if g@.nodes.items@.len() > 0 {
                        crate::layout::lemma_arrange_shape(
                            g@,
                            self.root,
                            g@.loc,
                            g@.size,
                            gap,
                            out_size,
                        );
                        crate::layout::lemma_shape_ids(g@, self.root, self.alloc.value);
                    }
                }
            },
            Some(FullscreenTarget::Container(id)) => {
                let frame = shrink_by_gap_exec(self.output, gap);
                let r = self.root.arrange_at(id, frame.loc, frame.size, gap, out_size);
                proof {
                    if r {
                        crate::layout::lemma_arrange_steps_ids(
                            preroot,
                            self.root,
                            id,
                            frame.loc,
                            frame.size,
                            gap,
                            out_size,
                            self.alloc.value,
                        );
                    }
                }
                let ghost gr = self.root;
                g = Ghost(gr);
            },
            Some(FullscreenTarget::Window(wid)) => {
                let frame = shrink_by_gap_exec(self.output, gap);
                let holder = self.root.find_window_holder(wid);
                match holder {
                    Some(h) => {
                        proof {
                            lemma_holder_exists(preroot, wid);
                        }
                        let out = self.root.apply_at(
                            h,
                            TreeOp::SetWindowGeometry {
                                window: wid,
                                loc: frame.loc,
                                size: frame.size,
                            },
                        );
                        proof {
                            match out {
                                Some(o) => {
                                    assert(crate::container::apply_steps(
                                        preroot,
                                        self.root,
                                        h,
                                        (TreeOp::SetWindowGeometry {
                                            window: wid,
                                            loc: frame.loc,
                                            size: frame.size,
                                        }),
                                        o,
                                    ));
                                    crate::container::lemma_apply_ids(
                                        preroot,
                                        self.root,
                                        h,
                                        (TreeOp::SetWindowGeometry {
                                            window: wid,
                                            loc: frame.loc,
                                            size: frame.size,
                                        }),
                                        o,
                                        self.alloc.value,
                                    );
                                },
                                None => {
                                    assert(false);
                                },
                            }
                        }
                    },
                    None => {},
                }
                let ghost gr = self.root;
                g = Ghost(gr);
            },
        }
        let f = self.focus;
        self.set_focus_checked(f);
        (g, clean)
    }

    /// Move the focused window next to the window with id `target_wid`,
    /// which the input layer found by scanning the given direction.
    /// Within one container the window lands before the target for left
    /// and up moves and after it for right and down moves; crossing into
    /// another container the sides swap, matching how the scan approaches
    /// the target.  A source container left empty is removed from its
    /// parent, and the target's container takes the focus.
    pub fn move_window(&mut self, direction: crate::inputs::Direction, target_wid: u32) -> (r:
        bool)
        requires
            old(self).wf(),
        ensures
            final(self).wf(),
            final(self).output == old(self).output,
            final(self).fullscreen_layer == old(self).fullscreen_layer,
            final(self).alloc == old(self).alloc,
            r == old(self).movable(target_wid),
            !r ==> final(self).root == old(self).root && final(self).focus == old(self).focus,
            r ==> move_rel(*old(self), *final(self), direction, target_wid),
    {
        let ghost preroot = self.root;
        let ghost prefocus = self.focus;
        let (fc, fw) = self.get_focus();
        let w = match fw {
            Some(w) => w,
            None => {
                return false;
            },
        };
        let wid = w.id();
        if wid == target_wid {
            return false;
        }
        let th = match self.root.find_window_holder(target_wid) {
            Some(h) => h,
            None => {
                return false;
            },
        };
        proof {
            lemma_holder_exists(self.root, target_wid);
        }
        let out = self.root.apply_at(fc, TreeOp::TakeWindow { window: wid });
        let ghost root1 = self.root;
        proof {
            match out {
                Some(o) => {
                    crate::container::lemma_take_out(preroot, root1, prefocus, w, o);
                    crate::container::lemma_apply_target_stays(
                        preroot,
                        root1,
                        prefocus,
                        TreeOp::TakeWindow { window: wid },
                        o,
                    );
                    crate::container::lemma_apply_ids(
                        preroot,
                        root1,
                        prefocus,
                        TreeOp::TakeWindow { window: wid },
                        o,
                        self.alloc.value,
                    );
                    crate::container::lemma_query_window_ids(
                        preroot,
                        prefocus,
                        self.alloc.value,
                    );
                },
                None => {
                    assert(false);
                },
            }
        }
        let mw = match out {
            Some(OpOut::Win(mw)) => mw,
            _ => {
                proof {
                    assert(false);
                }
                return false;
            },
        };
        if self.root.subtree_has_id_exec(mw.id()) {
            // cannot arise: the window was just taken out
            let f = self.focus;
            self.set_focus_checked(f);
            proof {
                assert(move_rel(*old(self), *final(self), direction, target_wid)) by {
                    assert(take_of(*old(self), root1, w));
                    assert(move_done(*old(self), *final(self), root1, w, direction, target_wid));
                }
            }
            return true;
        }
        proof {
            match out {
                Some(o) => {
                    crate::container::lemma_taken_window_wf(
                        preroot,
                        root1,
                        prefocus,
                        TreeOp::TakeWindow { window: wid },
                        o,
                    );
                },
                None => {},
            }
        }
        let same = fc == th;
        let op = if same {
            match direction {
                crate::inputs::Direction::Left | crate::inputs::Direction::Up => TreeOp::InsertBefore {
                    target: target_wid,
                    window: mw,
                },
                crate::inputs::Direction::Right | crate::inputs::Direction::Down => TreeOp::InsertAfter {
                    target: target_wid,
                    window: mw,
                },
            }
        } else {
            match direction {
                crate::inputs::Direction::Left | crate::inputs::Direction::Up => TreeOp::InsertAfter {
                    target: target_wid,
                    window: mw,
                },
                crate::inputs::Direction::Right | crate::inputs::Direction::Down => TreeOp::InsertBefore {
                    target: target_wid,
                    window: mw,
                },
            }
        };
        proof {
            assert(op == move_insert_op(direction, target_wid, w, th, prefocus));
        }
        let ins = self.root.apply_at(th, op);
        let ghost root2 = self.root;
        proof {
            match ins {
                Some(o2) => {
                    crate::container::lemma_apply_out_shape(root1, root2, th, op, o2);
                    crate::container::lemma_apply_ids(
                        root1,
                        root2,
                        th,
                        op,
                        o2,
                        self.alloc.value,
                    );
                },
                None => {},
            }
        }
        let placed = match ins {
            Some(OpOut::Id(_)) => true,
            _ => false,
        };
        if !placed {
            proof {
                if ins is None {
                    assert(root2 == root1);
                } else {
                    crate::container::lemma_apply_out_shape(
                        root1,
                        root2,
                        th,
                        op,
                        ins->0,
                    );
                    assert(ins->0 == OpOut::Nothing);
                }
            }
            // put the window back where it came from
            if !self.root.subtree_has_id_exec(mw.id()) {
                let out3 = self.root.apply_at(fc, TreeOp::PushWindow { window: mw });
                proof {
                    match out3 {
                        Some(o3) => {
                            crate::container::lemma_apply_out_shape(
                                root2,
                                self.root,
                                prefocus,
                                TreeOp::PushWindow { window: mw },
                                o3,
                            );
                            crate::container::lemma_apply_ids(
                                root2,
                                self.root,
                                prefocus,
                                TreeOp::PushWindow { window: mw },
                                o3,
                                self.alloc.value,
                            );
                        },
                        None => {},
                    }
                }
            }
            let f = self.focus;
            self.set_focus_checked(f);
            proof {
                assert(move_rel(*old(self), *final(self), direction, target_wid)) by {
                    assert(take_of(*old(self), root1, w));
                    assert(insert_refused_of(*old(self), root1, root2, w, direction, target_wid));
                    assert(move_done(*old(self), *final(self), root2, w, direction, target_wid));
                }
            }
            return true;
        }
        // the move may have emptied the source container
        if !same {
            let info = self.root.query(fc);
            match info {
                Some(info) => {
                    if info.child_count == 0 {
                        match info.parent {
                            Some(p) => {
                                proof {
                                    crate::container::lemma_query_parent(root2, prefocus);
                                    assert(root2.contains_container(p));
                                }
                                let out3 = self.root.apply_at(
                                    p,
                                    TreeOp::RemoveChild { child: fc },
                                );
                                proof {
                                    match out3 {
                                        Some(o3) => {
                                            assert(crate::container::apply_steps(
                                                root2,
                                                self.root,
                                                p,
                                                (TreeOp::RemoveChild { child: prefocus }),
                                                o3,
                                            ));
                                            crate::container::lemma_apply_ids(
                                                root2,
                                                self.root,
                                                p,
                                                (TreeOp::RemoveChild { child: prefocus }),
                                                o3,
                                                self.alloc.value,
                                            );
                                        },
                                        None => {
                                            assert(false);
                                        },
                                    }
                                }
                            },
                            None => {},
                        }
                    }
                },
                None => {},
            }
        }
        self.set_focus_checked(th);
        proof {
            assert(move_rel(*old(self), *final(self), direction, target_wid)) by {
                assert(take_of(*old(self), root1, w));
                assert(placed_of(*old(self), root1, root2, w, direction, target_wid));
                assert(cleanup_of(*old(self), root2, *final(self), target_wid));
            }
        }
        true
    }

    /// Whether a window-move request can act: a focused window exists, it
    /// is not the target itself, and some container holds the target.
    pub open spec fn movable(self, target: u32) -> bool {
        match self.root.query_spec(self.focus) {
            Some(info) => match info.focused_window {
                Some(w) => w.id != target && self.root.window_holder_spec(target) is Some,
                None => false,
            },
            None => false,
        }
    }

    /// Every window of the workspace, in subtree order, for the render
    /// layer to map.
    pub fn flatten_window(&self) -> (r: Vec<WindowWrap>)
        requires
            self.wf(),
        ensures
            r@ == self.root.all_windows(),
    {
        self.root.flatten_window()
    }
}

/// On which side of the target the moved window lands: before the target
/// for left and up moves within one container, after it when crossing
/// containers — the sides swap with the direction of approach.
pub open spec fn insert_goes_after(direction: crate::inputs::Direction, same_container: bool) -> bool {
    match direction {
        crate::inputs::Direction::Left | crate::inputs::Direction::Up => !same_container,
        crate::inputs::Direction::Right | crate::inputs::Direction::Down => same_container,
    }
}

/// The splice a window move performs beside the target, `th` being the
/// target's holder and `focus` the source container.
pub open spec fn move_insert_op(
    direction: crate::inputs::Direction,
    target: u32,
    w: WindowWrap,
    th: u32,
    focus: u32,
) -> TreeOp {
    if insert_goes_after(direction, th == focus) {
        TreeOp::InsertAfter { target, window: w }
    } else {
        TreeOp::InsertBefore { target, window: w }
    }
}

/// The first step of a window move: the focused window `w` is taken out
/// of the focused container.
pub open spec fn take_of(pre: Workspace, mid: Container, w: WindowWrap) -> bool {
    crate::container::apply_steps(
        pre.root,
        mid,
        pre.focus,
        (TreeOp::TakeWindow { window: w.id }),
        OpOut::Win(w),
    )
}

/// The second step, when it succeeds: `w` is spliced in beside the target
/// inside the target's holder.
pub open spec fn placed_of(
    pre: Workspace,
    mid1: Container,
    mid2: Container,
    w: WindowWrap,
    direction: crate::inputs::Direction,
    target: u32,
) -> bool {
    let th = pre.root.window_holder_spec(target)->0;
    exists|out: OpOut|
        (#[trigger] crate::container::apply_steps(
            mid1,
            mid2,
            th,
            move_insert_op(direction, target, w, th, pre.focus),
            out,
        )) && out == OpOut::Id(w.id)
}

/// The second step, when the splice is refused (only possible in a tree
/// whose ids did not come from one allocator): the target's holder is
/// untouched.
pub open spec fn insert_refused_of(
    pre: Workspace,
    mid1: Container,
    mid2: Container,
    w: WindowWrap,
    direction: crate::inputs::Direction,
    target: u32,
) -> bool {
    let th = pre.root.window_holder_spec(target)->0;
    ||| mid2 == mid1
    ||| exists|out: OpOut|
        (#[trigger] crate::container::apply_steps(
            mid1,
            mid2,
            th,
            move_insert_op(direction, target, w, th, pre.focus),
            out,
        )) && out == OpOut::Nothing
}

/// The last step after a successful splice: a source container the move
/// emptied is removed from its parent, and the target's holder takes the
/// focus.
pub open spec fn cleanup_of(pre: Workspace, mid2: Container, post: Workspace, target: u32) -> bool {
    let th = pre.root.window_holder_spec(target)->0;
    &&& (if th != pre.focus {
        match mid2.query_spec(pre.focus) {
            Some(info) => if info.child_count == 0 && info.parent is Some {
                exists|out: OpOut| #[trigger]
                    crate::container::apply_steps(
                        mid2,
                        post.root,
                        info.parent->0,
                        (TreeOp::RemoveChild { child: pre.focus }),
                        out,
                    )
            } else {
                post.root == mid2
            },
            None => post.root == mid2,
        }
    } else {
        post.root == mid2
    })
    &&& post.focus == (if post.root.contains_container(th) {
        th
    } else {
        pre.root.id
    })
}

/// A move that stopped after the take: the window could not be placed nor
/// put back without an id collision, so the tree stays as the take left
/// it (never reached with ids from one allocator).
pub open spec fn move_done(
    pre: Workspace,
    post: Workspace,
    mid: Container,
    w: WindowWrap,
    direction: crate::inputs::Direction,
    target: u32,
) -> bool {
    &&& ({
        ||| (exists|out: OpOut| #[trigger]
            crate::container::apply_steps(
                mid,
                post.root,
                pre.focus,
                (TreeOp::PushWindow { window: w }),
                out,
            ) && out == OpOut::Id(w.id))
        ||| post.root == mid
    })
    &&& post.focus == (if post.root.contains_container(pre.focus) {
        pre.focus
    } else {
        pre.root.id
    })
}

/// What a window move does, stage by stage: the focused window is taken
/// out; it is spliced in beside the target and the emptied source cleaned
/// up, or — only in a tree with colliding ids — the splice is refused and
/// the window put back.
pub open spec fn move_rel(
    pre: Workspace,
    post: Workspace,
    direction: crate::inputs::Direction,
    target: u32,
) -> bool {
    let w = (pre.root.query_spec(pre.focus)->0).focused_window->0;
    exists|mid1: Container|
        (#[trigger] take_of(pre, mid1, w)) && ({
            ||| (exists|mid2: Container|
                (#[trigger] placed_of(pre, mid1, mid2, w, direction, target)) && cleanup_of(
                    pre,
                    mid2,
                    post,
                    target,
                ))
            ||| (exists|mid2: Container|
                (#[trigger] insert_refused_of(pre, mid1, mid2, w, direction, target))
                    && move_done(pre, post, mid2, w, direction, target))
            ||| move_done(pre, post, mid1, w, direction, target)
        })
}

/// A container answered by the window-holder search exists in the tree.
pub proof fn lemma_holder_exists(c: Container, wid: u32)
    ensures
        match c.window_holder_spec(wid) {
            Some(h) => c.contains_container(h),
            None => true,
        },
    decreases c, 1int, 0int,
{
    if !c.nodes.contains_id(wid) {
        lemma_holder_child_exists(c, c.nodes.items@, 0, wid);
    }
}

proof fn lemma_holder_child_exists(c: Container, s: Seq<Node>, k: int, wid: u32)
    requires
        s == c.nodes.items@,
        0 <= k,
    ensures
        match crate::container::holder_child_from(s, k, wid) {
            Some(h) => c.contains_container(h),
            None => true,
        },
    decreases c, 0int, (if k < s.len() { s.len() - k } else { 0 }),
{
    if 0 <= k < s.len() {
        match s[k] {
            Node::Container(cc) => {
                match cc.window_holder_spec(wid) {
                    Some(h) => {
                        lemma_holder_exists(cc, wid);
                        assert(c.contains_container(h)) by {
                            assert((#[trigger] c.nodes.items@[k]) is Container
                                && (c.nodes.items@[k]->Container_0).contains_container(h));
                        }
                    },
                    None => {
                        lemma_holder_child_exists(c, s, k + 1, wid);
                    },
                }
            },
            Node::Window(_) => {
                lemma_holder_child_exists(c, s, k + 1, wid);
            },
        }
    }
}

} // verus!
