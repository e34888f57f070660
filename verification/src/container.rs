//! A container: a rectangle of space holding an ordered mix of windows and
//! sub-containers, laid out along one axis.
//!
//! Containers own their children outright; the parent back-reference is a
//! plain id, never an owning handle, so the tree has no reference cycles and
//! every upward step is a lookup from the root.

use vstd::prelude::*;

use crate::geometry::{clamp_coord_spec, point_ok, size_ok, Point, Size};
use crate::node::Node;
use crate::nodemap::{count_tiled, count_windows, prev_window_focus, NodeMap};
use crate::window::WindowWrap;

verus! {

/// Which way a container stacks its tiled children.
#[derive(Clone, Copy, PartialEq, Eq, Structural, Debug)]
pub enum ContainerLayout {
    Vertical,
    Horizontal,
}

/// What a container currently holds, which decides whether it can be
/// removed or must be flattened.
#[derive(Clone, Copy, PartialEq, Eq, Structural, Debug)]
pub enum ContainerState {
    Empty,
    HasContainersOnly,
    HasWindows,
}

pub struct Container {
    pub id: u32,
    pub loc: Point,
    pub size: Size,
    pub parent: Option<u32>,
    pub layout: ContainerLayout,
    pub nodes: NodeMap,
}

/// A child node is sound under the given parent id: windows are bounded,
/// sub-containers point back at their holder and are themselves sound.
pub open spec fn node_wf_in(n: Node, parent: u32) -> bool
    decreases n,
{
    match n {
        Node::Window(w) => w.wf(),
        Node::Container(c) => c.parent == Some(parent) && c.wf(),
    }
}

pub open spec fn node_height(n: Node) -> nat
    decreases n,
{
    match n {
        Node::Window(_) => 0,
        Node::Container(c) => c.height(),
    }
}

pub open spec fn seq_max_height(s: Seq<Node>) -> nat
    decreases s,
{
    if s.len() == 0 {
        0
    } else if seq_max_height(s.drop_last()) >= node_height(s.last()) {
        seq_max_height(s.drop_last())
    } else {
        node_height(s.last())
    }
}

pub proof fn lemma_seq_max_height_bound(s: Seq<Node>, i: int)
    requires
        0 <= i < s.len(),
    ensures
        node_height(s[i]) <= seq_max_height(s),
    decreases s.len(),
{
    if i < s.len() - 1 {
        lemma_seq_max_height_bound(s.drop_last(), i);
    }
}

/// Every sub-container sits strictly lower than its holder.
pub proof fn lemma_child_height(c: Container, i: int)
    requires
        0 <= i < c.nodes.items@.len(),
        c.nodes.items@[i] is Container,
    ensures
        (c.nodes.items@[i]->Container_0).height() < c.height(),
{
    lemma_seq_max_height_bound(c.nodes.items@, i);
}

/// Swapping one node for another of the same height leaves the maximum
/// height alone.
pub proof fn lemma_max_height_update_same(s: Seq<Node>, i: int, n: Node)
    requires
        0 <= i < s.len(),
        node_height(n) == node_height(s[i]),
    ensures
        seq_max_height(s.update(i, n)) == seq_max_height(s),
    decreases s.len(),
{
    if i == s.len() - 1 {
        assert(s.update(i, n).drop_last() =~= s.drop_last());
        assert(s.update(i, n).last() == n);
    } else {
        assert(s.update(i, n).drop_last() =~= s.drop_last().update(i, n));
        lemma_max_height_update_same(s.drop_last(), i, n);
        assert(s.update(i, n).last() == s.last());
    }
}

impl Container {
    /// How deep the tree below this container goes; recursive walks come
    /// down this measure.
    pub open spec fn height(self) -> nat
        decreases self,
    {
        1 + seq_max_height(self.nodes.items@)
    }

    /// Whether this subtree holds a container with the given id, itself
    /// included.
    pub open spec fn contains_container(self, id: u32) -> bool
        decreases self,
    {
        ||| self.id == id
        ||| exists|k: int|
            0 <= k < self.nodes.items@.len() && (#[trigger] self.nodes.items@[k]) is Container
                && (self.nodes.items@[k]->Container_0).contains_container(id)
    }

    /// Whether any node of this subtree (the container itself included)
    /// carries the given id.
    pub open spec fn subtree_has_id(self, id: u32) -> bool
        decreases self,
    {
        ||| self.id == id
        ||| exists|k: int|
            0 <= k < self.nodes.items@.len() && (#[trigger] self.nodes.items@[k]).id_spec() == id
        ||| exists|k: int|
            0 <= k < self.nodes.items@.len() && (#[trigger] self.nodes.items@[k]) is Container
                && (self.nodes.items@[k]->Container_0).subtree_has_id(id)
    }

    /// Structural soundness of this container and everything below it.
    pub open spec fn wf(self) -> bool
        decreases self,
    {
        &&& self.nodes.links_ok()
        &&& point_ok(self.loc)
        &&& size_ok(self.size)
        &&& forall|i: int|
            0 <= i < self.nodes.items@.len() ==> node_wf_in(
                #[trigger] self.nodes.items@[i],
                self.id,
            )
    }

    pub open spec fn has_windows_spec(self) -> bool {
        exists|i: int| 0 <= i < self.nodes.items@.len() && !(#[trigger] self.nodes.items@[i] is Container)
    }

    pub open spec fn has_container_spec(self) -> bool {
        exists|i: int| 0 <= i < self.nodes.items@.len() && #[trigger] self.nodes.items@[i] is Container
    }

    pub open spec fn state_spec(self) -> ContainerState {
        if self.has_windows_spec() {
            ContainerState::HasWindows
        } else if self.has_container_spec() {
            ContainerState::HasContainersOnly
        } else {
            ContainerState::Empty
        }
    }

    pub fn has_windows(&self) -> (r: bool)
        ensures
            r == self.has_windows_spec(),
    {
        self.nodes.has_window()
    }

    pub fn has_container(&self) -> (r: bool)
        ensures
            r == self.has_container_spec(),
    {
        self.nodes.has_container()
    }

    pub fn state(&self) -> (r: ContainerState)
        ensures
            r == self.state_spec(),
    {
        if self.has_windows() {
            ContainerState::HasWindows
        } else if self.has_container() {
            ContainerState::HasContainersOnly
        } else {
            ContainerState::Empty
        }
    }

    /// The focused window of this container, if the focus rests on one.
    pub open spec fn focused_window_spec(self) -> Option<WindowWrap> {
        match self.nodes.focus {
            Some(j) => match self.nodes.items@[j as int] {
                Node::Window(w) => Some(w),
                Node::Container(_) => None,
            },
            None => None,
        }
    }

    pub fn get_focused_window(&self) -> (r: Option<WindowWrap>)
        requires
            self.wf(),
        ensures
            r == self.focused_window_spec(),
    {
        match self.nodes.focus {
            Some(j) => match &self.nodes.items[j] {
                Node::Window(w) => Some(*w),
                Node::Container(_) => None,
            },
            None => None,
        }
    }

    pub open spec fn get_focus_spec(self) -> Option<Node> {
        match self.nodes.focus {
            Some(j) => Some(self.nodes.items@[j as int]),
            None => None,
        }
    }

    /// The focused entry of this container's node map.
    pub fn get_focus(&self) -> (r: Option<&Node>)
        requires
            self.wf(),
        ensures
            match self.get_focus_spec() {
                Some(n) => r matches Some(m) && *m == n,
                None => r is None,
            },
    {
        self.nodes.get_focused()
    }
}

/// A split changes nothing but the layout direction when there is nothing
/// to subdivide: at most one window and no sub-containers.
pub open spec fn split_minimal(c: Container) -> bool {
    count_windows(c.nodes.items@) <= 1 && !c.has_container_spec()
}

/// The space a split carves out for the new sibling: one half of the
/// container along its current layout axis.
pub open spec fn split_size_spec(c: Container) -> Size {
    match c.layout {
        ContainerLayout::Vertical => Size { w: c.size.w, h: (c.size.h / 2) as i32 },
        ContainerLayout::Horizontal => Size { w: (c.size.w / 2) as i32, h: c.size.h },
    }
}

/// Where the new sibling goes: the second half along the current axis.
pub open spec fn split_loc_spec(c: Container) -> Point {
    match c.layout {
        ContainerLayout::Vertical => Point {
            x: c.loc.x,
            y: clamp_coord_spec(c.loc.y + c.size.h / 2),
        },
        ContainerLayout::Horizontal => Point {
            x: clamp_coord_spec(c.loc.x + c.size.w / 2),
            y: c.loc.y,
        },
    }
}

/// The container a split creates, before any child is moved into it.
pub open spec fn split_child_frame(ch: Container, pre: Container, layout: ContainerLayout, new_id: u32) -> bool {
    &&& ch.id == new_id
    &&& ch.parent == Some(pre.id)
    &&& ch.layout == layout
    &&& ch.loc == split_loc_spec(pre)
    &&& ch.size == split_size_spec(pre)
}

/// All fields of `post` but the node map equal those of `pre`.
pub open spec fn same_but_nodes(pre: Container, post: Container) -> bool {
    &&& post.id == pre.id
    &&& post.loc == pre.loc
    &&& post.size == pre.size
    &&& post.parent == pre.parent
    &&& post.layout == pre.layout
}

/// What a split does to the container it is asked on.
///
/// Split minimality: on a container holding at most one window and no
/// sub-containers, no new container comes into being — only the layout
/// direction changes.  Split correctness: otherwise exactly one new
/// container appears, holding exactly the previously focused window, in
/// that window's old position, and every other child stays with the
/// original container.
pub open spec fn split_rel(
    pre: Container,
    post: Container,
    layout: ContainerLayout,
    new_id: u32,
    created: bool,
) -> bool {
    if split_minimal(pre) {
        &&& !created
        &&& post == (Container { layout, ..pre })
    } else {
        match pre.nodes.focus {
            Some(j) => {
                let fw = pre.nodes.items@[j as int];
                &&& created
                &&& same_but_nodes(pre, post)
                &&& post.nodes.items@.len() == pre.nodes.items@.len()
                &&& forall|k: int|
                    0 <= k < pre.nodes.items@.len() && k != j ==> #[trigger] post.nodes.items@[k]
                        == pre.nodes.items@[k]
                &&& post.nodes.spine@ == pre.nodes.spine@.update(j as int, new_id)
                &&& post.nodes.focus == prev_window_focus(pre.nodes.items@, j as int)
                &&& post.nodes.items@[j as int] matches Node::Container(ch)
                    && split_child_frame(ch, pre, layout, new_id)
                    && ch.nodes.items@ == seq![fw]
                    && ch.nodes.spine@ == seq![fw.id_spec()]
                    && ch.nodes.focus == Some(0usize)
            },
            None => {
                &&& created
                &&& same_but_nodes(pre, post)
                &&& post.nodes.items@.len() == pre.nodes.items@.len() + 1
                &&& forall|k: int|
                    0 <= k < pre.nodes.items@.len() ==> #[trigger] post.nodes.items@[k]
                        == pre.nodes.items@[k]
                &&& post.nodes.spine@ == pre.nodes.spine@.push(new_id)
                &&& post.nodes.focus == pre.nodes.focus
                &&& post.nodes.items@.last() matches Node::Container(ch)
                    && split_child_frame(ch, pre, layout, new_id)
                    && ch.nodes.items@.len() == 0
                    && ch.nodes.spine@.len() == 0
                    && ch.nodes.focus is None
            },
        }
    }
}

/// Split minimality: a split of a container holding at most one window
/// and no sub-container creates nothing — it only turns the layout
/// direction, and every child stays exactly as it was.
pub proof fn lemma_split_minimality(
    pre: Container,
    post: Container,
    layout: ContainerLayout,
    new_id: u32,
    created: bool,
)
    requires
        split_rel(pre, post, layout, new_id, created),
        count_windows(pre.nodes.items@) <= 1,
        !pre.has_container_spec(),
    ensures
        !created,
        post == (Container { layout, ..pre }),
{
}

/// Split correctness: a split of a container with two or more tiled
/// children creates exactly one new container, which holds exactly the
/// previously focused window at that window's old position, while every
/// other child stays with the original container.
pub proof fn lemma_split_correctness(
    pre: Container,
    post: Container,
    layout: ContainerLayout,
    new_id: u32,
    created: bool,
)
    requires
        pre.wf(),
        split_rel(pre, post, layout, new_id, created),
        count_tiled(pre.nodes.items@) >= 2,
        pre.nodes.focus is Some,
    ensures
        created,
        ({
            let j = pre.nodes.focus->0 as int;
            &&& post.nodes.items@.len() == pre.nodes.items@.len()
            &&& post.nodes.items@[j] matches Node::Container(ch) && ch.id == new_id
                && ch.nodes.items@ == seq![pre.nodes.items@[j]]
            &&& forall|k: int|
                0 <= k < pre.nodes.items@.len() && k != j ==> #[trigger] post.nodes.items@[k]
                    == pre.nodes.items@[k]
        }),
{
    assert(!split_minimal(pre)) by {
        if split_minimal(pre) {
            assert forall|k: int|
                0 <= k < pre.nodes.items@.len() implies !((
            #[trigger] pre.nodes.items@[k]) is Container) by {
                if pre.nodes.items@[k] is Container {
                    assert(pre.has_container_spec());
                }
            }
            crate::nodemap::lemma_tiled_at_most_windows(pre.nodes.items@);
        }
    }
}

/// What inserting a window does: it is spliced in right after the current
/// focus when one exists, else appended, and it takes the focus.
pub open spec fn push_window_rel(pre: Container, post: Container, w: WindowWrap) -> bool {
    &&& same_but_nodes(pre, post)
    &&& match pre.nodes.focus {
        None => {
            &&& post.nodes.spine@ == pre.nodes.spine@.push(w.id)
            &&& post.nodes.items@ == pre.nodes.items@.push(Node::Window(w))
            &&& post.nodes.focus == Some(pre.nodes.spine@.len() as usize)
        },
        Some(j) => {
            &&& post.nodes.spine@ == pre.nodes.spine@.insert(j as int + 1, w.id)
            &&& post.nodes.items@ == pre.nodes.items@.insert(j as int + 1, Node::Window(w))
            &&& post.nodes.focus == Some((j + 1) as usize)
        },
    }
}

/// What closing the focused window does: it leaves the tree at once, and
/// the nearest preceding window inherits the focus.
pub open spec fn close_window_rel(pre: Container, post: Container, r: Option<u32>) -> bool {
    match pre.focused_window_spec() {
        Some(w) => {
            let j = pre.nodes.focus->0 as int;
            &&& r == Some(w.id)
            &&& same_but_nodes(pre, post)
            &&& post.nodes.spine@ == pre.nodes.spine@.remove(j)
            &&& post.nodes.items@ == pre.nodes.items@.remove(j)
            &&& post.nodes.focus == prev_window_focus(pre.nodes.items@, j)
        },
        None => r is None && post == pre,
    }
}

impl Container {
    /// Split this container.  With at most one window and no
    /// sub-containers there is nothing to subdivide: only the layout
    /// direction changes and no container is created.  Otherwise a new
    /// sibling container takes one half of this container's space, the
    /// focused window (when there is one) moves into it at its old
    /// position, and the caller should focus the new container.
    pub fn create_child(&mut self, layout: ContainerLayout, new_id: u32) -> (created: bool)
        requires
            old(self).wf(),
            !old(self).nodes.contains_id(new_id),
        ensures
            final(self).wf(),
            split_rel(*old(self), *final(self), layout, new_id, created),
    {
        let wc = self.nodes.window_count();
        let hc = self.nodes.has_container();
        if wc <= 1 && !hc {
            self.layout = layout;
            proof {
                assert forall|k: int|
                    0 <= k < self.nodes.items@.len() implies node_wf_in(
                    #[trigger] self.nodes.items@[k],
                    self.id,
                ) by {
                    assert(node_wf_in(old(self).nodes.items@[k], old(self).id));
                }
            }
            false
        } else {
            let size = match self.layout {
                ContainerLayout::Vertical => Size { w: self.size.w, h: self.size.h / 2 },
                ContainerLayout::Horizontal => Size { w: self.size.w / 2, h: self.size.h },
            };
            let loc = match self.layout {
                ContainerLayout::Vertical => Point {
                    x: self.loc.x,
                    y: crate::geometry::clamp_coord_i32(self.loc.y + self.size.h / 2),
                },
                ContainerLayout::Horizontal => Point {
                    x: crate::geometry::clamp_coord_i32(self.loc.x + self.size.w / 2),
                    y: self.loc.y,
                },
            };
            let mut child_nodes = NodeMap::new();
            match self.nodes.focus {
                Some(j) => {
                    let focused = self.get_focused_window();
                    match focused {
                        Some(w) => {
                            child_nodes.push(Node::Window(w));
                            let child = Container {
                                id: new_id,
                                loc,
                                size,
                                parent: Some(self.id),
                                layout,
                                nodes: child_nodes,
                            };
                            proof {
                                assert(node_wf_in(
                                    old(self).nodes.items@[j as int],
                                    old(self).id,
                                ));
                                assert(child.wf());
                            }
                            self.nodes.replace_focused(Node::Container(child));
                            proof {
                                assert forall|k: int|
                                    0 <= k < self.nodes.items@.len() implies node_wf_in(
                                    #[trigger] self.nodes.items@[k],
                                    self.id,
                                ) by {
                                    assert(node_wf_in(
                                        old(self).nodes.items@[k],
                                        old(self).id,
                                    ));
                                    if k != j {
                                        assert(self.nodes.items@[k] == old(
                                            self,
                                        ).nodes.items@[k]);
                                    }
                                }
                            }
                            true
                        },
                        None => {
                            proof {
                                assert(false);
                            }
                            false
                        },
                    }
                },
                None => {
                    let child = Container {
                        id: new_id,
                        loc,
                        size,
                        parent: Some(self.id),
                        layout,
                        nodes: child_nodes,
                    };
                    proof {
                        assert(child.wf());
                    }
                    self.nodes.push(Node::Container(child));
                    proof {
                        assert forall|k: int|
                            0 <= k < self.nodes.items@.len() implies node_wf_in(
                            #[trigger] self.nodes.items@[k],
                            self.id,
                        ) by {
                            if k < old(self).nodes.items@.len() {
                                assert(node_wf_in(old(self).nodes.items@[k], old(self).id));
                                assert(self.nodes.items@[k] == old(self).nodes.items@[k]);
                            }
                        }
                    }
                    true
                },
            }
        }
    }

    /// Insert a window: right after the current focus when one exists,
    /// else at the end; the new window takes the focus.
    pub fn push_window(&mut self, w: WindowWrap) -> (id: u32)
        requires
            old(self).wf(),
            w.wf(),
            !old(self).nodes.contains_id(w.id),
        ensures
            final(self).wf(),
            id == w.id,
            push_window_rel(*old(self), *final(self), w),
    {
        let ghost pre = *self;
        match self.nodes.focus {
            None => {
                self.nodes.push(Node::Window(w));
            },
            Some(j) => {
                let target = self.nodes.spine[j];
                proof {
                    assert(pre.nodes.spine@.contains(target));
                    crate::nodemap::lemma_index_of_unique(pre.nodes.spine@, target, j as int);
                }
                let r = self.nodes.insert_after(target, Node::Window(w));
                proof {
                    assert(r is Some);
                }
            },
        }
        proof {
            assert forall|k: int|
                0 <= k < self.nodes.items@.len() implies node_wf_in(
                #[trigger] self.nodes.items@[k],
                self.id,
            ) by {
                let pos: int = match pre.nodes.focus {
                    None => pre.nodes.items@.len() as int,
                    Some(j) => j + 1,
                };
                if k != pos {
                    let ko: int = if k < pos {
                        k
                    } else {
                        k - 1
                    };
                    assert(node_wf_in(pre.nodes.items@[ko], pre.id));
                    assert(self.nodes.items@[k] == pre.nodes.items@[ko]);
                }
            }
        }
        w.id
    }

    /// Remove the focused window from the tree and report its id, so the
    /// protocol layer can ask the client to close.  Removal is immediate
    /// and does not wait for the client: a client that ignores the request
    /// is caught later by the dead-window sweep.
    pub fn close_window(&mut self) -> (r: Option<u32>)
        requires
            old(self).wf(),
        ensures
            final(self).wf(),
            close_window_rel(*old(self), *final(self), r),
    {
        let ghost pre = *self;
        let focused = self.get_focused_window();
        match focused {
            Some(w) => {
                proof {
                    let j = pre.nodes.focus->0 as int;
                    assert(pre.nodes.items@[j].id_spec() == pre.nodes.spine@[j]);
                    assert(pre.nodes.spine@[j] == w.id);
                    assert(pre.nodes.spine@.contains(w.id));
                    crate::nodemap::lemma_index_of_unique(pre.nodes.spine@, w.id, j);
                }
                self.nodes.remove(w.id);
                proof {
                    let j = pre.nodes.focus->0 as int;
                    assert forall|k: int|
                        0 <= k < self.nodes.items@.len() implies node_wf_in(
                        #[trigger] self.nodes.items@[k],
                        self.id,
                    ) by {
                        let ko: int = if k < j {
                            k
                        } else {
                            k + 1
                        };
                        assert(node_wf_in(pre.nodes.items@[ko], pre.id));
                        assert(self.nodes.items@[k] == pre.nodes.items@[ko]);
                    }
                }
                Some(w.id())
            },
            None => None,
        }
    }
}

/// Two nodes look the same: equal windows, or containers equal in every
/// observable part.  (Mutable access into a `Vec` loses value identity, so
/// sameness of containers is stated over their views.)
pub open spec fn same_node(a: Node, b: Node) -> bool
    decreases a,
{
    match a {
        Node::Window(wa) => b matches Node::Window(wb) && wa == wb,
        Node::Container(ca) => b matches Node::Container(cb) && ca.same_tree(cb),
    }
}

impl Container {
    /// Containers equal in every observable part: every scalar field, the
    /// arrangement order, the focus, and every child, recursively.
    pub open spec fn same_tree(self, other: Container) -> bool
        decreases self,
    {
        &&& other.id == self.id
        &&& other.loc == self.loc
        &&& other.size == self.size
        &&& other.parent == self.parent
        &&& other.layout == self.layout
        &&& other.nodes.spine@ == self.nodes.spine@
        &&& other.nodes.focus == self.nodes.focus
        &&& other.nodes.items@.len() == self.nodes.items@.len()
        &&& forall|k: int|
            0 <= k < self.nodes.items@.len() ==> same_node(
                #[trigger] self.nodes.items@[k],
                other.nodes.items@[k],
            )
    }
}

/// What focusing an entry by id does: a present window entry takes the
/// focus; any other id leaves the container untouched.
pub open spec fn set_focus_rel(pre: Container, post: Container, id: u32) -> bool {
    &&& same_but_nodes(pre, post)
    &&& post.nodes.spine@ == pre.nodes.spine@
    &&& post.nodes.items@ == pre.nodes.items@
    &&& post.nodes.focus == {
        let i = pre.nodes.spine@.index_of(id);
        if pre.nodes.contains_id(id) && !(pre.nodes.items@[i] is Container) {
            Some(i as usize)
        } else {
            pre.nodes.focus
        }
    }
}

/// What toggling the floating flag of the focused window does.
pub open spec fn toggle_floating_rel(pre: Container, post: Container, r: Option<u32>) -> bool {
    match pre.focused_window_spec() {
        Some(w) => {
            let j = pre.nodes.focus->0 as int;
            &&& r == Some(w.id)
            &&& same_but_nodes(pre, post)
            &&& post.nodes.spine@ == pre.nodes.spine@
            &&& post.nodes.focus == pre.nodes.focus
            &&& post.nodes.items@ == pre.nodes.items@.update(
                j,
                Node::Window(WindowWrap { floating: !w.floating, ..w }),
            )
        },
        None => r is None && post == pre,
    }
}

/// What splicing a window in next to a sibling does; `after` tells on
/// which side.  Nothing changes when the reference id is not here.
pub open spec fn insert_window_rel(
    pre: Container,
    post: Container,
    target: u32,
    w: WindowWrap,
    after: bool,
    r: bool,
) -> bool {
    if pre.nodes.contains_id(target) {
        let i = pre.nodes.spine@.index_of(target);
        let pos: int = if after {
            i + 1
        } else {
            i
        };
        &&& r
        &&& same_but_nodes(pre, post)
        &&& post.nodes.spine@ == pre.nodes.spine@.insert(pos, w.id)
        &&& post.nodes.items@ == pre.nodes.items@.insert(pos, Node::Window(w))
        &&& post.nodes.focus == Some(pos as usize)
    } else {
        !r && post == pre
    }
}

/// What taking a window out by id does (to move it elsewhere).
pub open spec fn take_window_rel(
    pre: Container,
    post: Container,
    id: u32,
    r: Option<WindowWrap>,
) -> bool {
    let i = pre.nodes.spine@.index_of(id);
    if pre.nodes.contains_id(id) && !(pre.nodes.items@[i] is Container) {
        &&& r == Some(pre.nodes.items@[i]->Window_0)
        &&& same_but_nodes(pre, post)
        &&& post.nodes.spine@ == pre.nodes.spine@.remove(i)
        &&& post.nodes.items@ == pre.nodes.items@.remove(i)
        &&& post.nodes.focus == crate::nodemap::focus_after_remove(
            pre.nodes.items@,
            pre.nodes.focus,
            i,
        )
    } else {
        r is None && post == pre
    }
}

/// What removing a direct child (and, for a container, its whole subtree)
/// does.
pub open spec fn remove_child_rel(pre: Container, post: Container, id: u32, r: bool) -> bool {
    if pre.nodes.contains_id(id) {
        let i = pre.nodes.spine@.index_of(id);
        &&& r
        &&& same_but_nodes(pre, post)
        &&& post.nodes.spine@ == pre.nodes.spine@.remove(i)
        &&& post.nodes.items@ == pre.nodes.items@.remove(i)
        &&& post.nodes.focus == crate::nodemap::focus_after_remove(
            pre.nodes.items@,
            pre.nodes.focus,
            i,
        )
    } else {
        !r && post == pre
    }
}

/// A node as it looks after adoption by the container with id `pid`.
pub open spec fn reparent_node(n: Node, pid: u32) -> Node {
    match n {
        Node::Container(c) => Node::Container(Container { parent: Some(pid), ..c }),
        Node::Window(w) => Node::Window(w),
    }
}

pub open spec fn reparent_nodes(s: Seq<Node>, pid: u32) -> Seq<Node> {
    s.map_values(|n: Node| reparent_node(n, pid))
}

/// A child container can be merged away when none of its children's ids
/// collides with an id already present here.  Ids issued by one allocator
/// never collide, so in a workspace this always holds.
pub open spec fn mergeable(pre: Container, cc: Container) -> bool {
    forall|k: int|
        0 <= k < cc.nodes.spine@.len() ==> !pre.nodes.spine@.contains(#[trigger] cc.nodes.spine@[k])
}

/// What dissolving a direct child container does: the child leaves, and
/// its children are adopted at the end of the arrangement order.
pub open spec fn merge_child_rel(pre: Container, post: Container, id: u32, r: bool) -> bool {
    let i = pre.nodes.spine@.index_of(id);
    if pre.nodes.contains_id(id) && pre.nodes.items@[i] is Container && mergeable(
        pre,
        pre.nodes.items@[i]->Container_0,
    ) {
        let cc = pre.nodes.items@[i]->Container_0;
        &&& r
        &&& same_but_nodes(pre, post)
        &&& post.nodes.spine@ == pre.nodes.spine@.remove(i) + cc.nodes.spine@
        &&& post.nodes.items@ == pre.nodes.items@.remove(i) + reparent_nodes(
            cc.nodes.items@,
            pre.id,
        )
        &&& post.nodes.focus == crate::nodemap::focus_after_remove(
            pre.nodes.items@,
            pre.nodes.focus,
            i,
        )
    } else {
        !r && post == pre
    }
}

/// What assigning a window new geometry by id does.
pub open spec fn set_window_geometry_rel(
    pre: Container,
    post: Container,
    id: u32,
    loc: Point,
    size: Size,
    r: bool,
) -> bool {
    let i = pre.nodes.spine@.index_of(id);
    if pre.nodes.contains_id(id) && !(pre.nodes.items@[i] is Container) {
        let w = pre.nodes.items@[i]->Window_0;
        &&& r
        &&& same_but_nodes(pre, post)
        &&& post.nodes.spine@ == pre.nodes.spine@
        &&& post.nodes.focus == pre.nodes.focus
        &&& post.nodes.items@ == pre.nodes.items@.update(
            i,
            Node::Window(w.with_geometry(Some(size), loc)),
        )
    } else {
        !r && post == pre
    }
}

/// What recording a client's announced geometry does: the window's
/// preferred size is set and it counts as configured from then on.
pub open spec fn configure_window_rel(
    pre: Container,
    post: Container,
    id: u32,
    initial: Size,
    r: bool,
) -> bool {
    let i = pre.nodes.spine@.index_of(id);
    if pre.nodes.contains_id(id) && !(pre.nodes.items@[i] is Container) {
        let w = pre.nodes.items@[i]->Window_0;
        &&& r
        &&& same_but_nodes(pre, post)
        &&& post.nodes.spine@ == pre.nodes.spine@
        &&& post.nodes.focus == pre.nodes.focus
        &&& post.nodes.items@ == pre.nodes.items@.update(
            i,
            Node::Window(WindowWrap { initial_size: initial, configured: true, ..w }),
        )
    } else {
        !r && post == pre
    }
}

/// What the report of a dead surface does: the window handle stays until
/// the next sweep, marked dead.
pub open spec fn mark_dead_rel(pre: Container, post: Container, id: u32, r: bool) -> bool {
    let i = pre.nodes.spine@.index_of(id);
    if pre.nodes.contains_id(id) && !(pre.nodes.items@[i] is Container) {
        let w = pre.nodes.items@[i]->Window_0;
        &&& r
        &&& same_but_nodes(pre, post)
        &&& post.nodes.spine@ == pre.nodes.spine@
        &&& post.nodes.focus == pre.nodes.focus
        &&& post.nodes.items@ == pre.nodes.items@.update(i, Node::Window(WindowWrap { alive: false, ..w }))
    } else {
        !r && post == pre
    }
}

/// The index of the first child whose container subtree holds a container
/// with the given id, scanning from position `k`.
pub open spec fn first_holder_from(s: Seq<Node>, k: int, id: u32) -> Option<int>
    decreases s, (if k < s.len() { s.len() - k } else { 0 }),
{
    if !(0 <= k < s.len()) {
        None
    } else {
        match s[k] {
            Node::Container(c) => if c.contains_container(id) {
                Some(k)
            } else {
                first_holder_from(s, k + 1, id)
            },
            Node::Window(_) => first_holder_from(s, k + 1, id),
        }
    }
}

/// What `first_holder_from` answers is a real position, and nothing before
/// it holds the id.
pub proof fn lemma_first_holder_props(s: Seq<Node>, k: int, id: u32)
    requires
        0 <= k,
    ensures
        match first_holder_from(s, k, id) {
            Some(j) => k <= j < s.len() && s[j] is Container && (s[j]->Container_0)
                .contains_container(id),
            None => forall|m: int|
                k <= m < s.len() && (#[trigger] s[m]) is Container ==> !(s[m]->Container_0)
                    .contains_container(id),
        },
    decreases (if k < s.len() { s.len() - k } else { 0 }),
{
    if 0 <= k < s.len() {
        lemma_first_holder_props(s, k + 1, id);
    }
}

impl Container {
    /// Focus the child with this id, provided it is a window.
    pub fn set_focus(&mut self, id: u32)
        requires
            old(self).wf(),
        ensures
            final(self).wf(),
            set_focus_rel(*old(self), *final(self), id),
    {
        self.nodes.set_focus(id);
        proof {
            assert forall|k: int|
                0 <= k < self.nodes.items@.len() implies node_wf_in(
                #[trigger] self.nodes.items@[k],
                self.id,
            ) by {
                assert(node_wf_in(old(self).nodes.items@[k], old(self).id));
            }
        }
    }

    /// Toggle the floating flag of the focused window; answers its id, or
    /// `None` when no window holds the focus.
    pub fn toggle_floating(&mut self) -> (r: Option<u32>)
        requires
            old(self).wf(),
        ensures
            final(self).wf(),
            toggle_floating_rel(*old(self), *final(self), r),
    {
        let ghost pre = *self;
        match self.nodes.focus {
            None => None,
            Some(j) => {
                match &mut self.nodes.items[j] {
                    Node::Container(_) => {
                        proof {
                            assert(false);
                        }
                        None
                    },
                    Node::Window(w) => {
                        w.toggle_floating();
                        let id = w.id();
                        proof {
                            lemma_wf_child_replaced(pre, *self, j as int);
                        }
                        Some(id)
                    },
                }
            },
        }
    }

    /// Splice a window in right after (or before) the child with id
    /// `target`; the window takes the focus.  Reports `false`, changing
    /// nothing, when `target` is not here.
    pub fn insert_window_after(&mut self, target: u32, w: WindowWrap) -> (r: bool)
        requires
            old(self).wf(),
            w.wf(),
            !old(self).nodes.contains_id(w.id),
        ensures
            final(self).wf(),
            insert_window_rel(*old(self), *final(self), target, w, true, r),
    {
        let ghost pre = *self;
        let r = self.nodes.insert_after(target, Node::Window(w));
        proof {
            if pre.nodes.contains_id(target) {
                let pos = pre.nodes.spine@.index_of(target) + 1;
                assert forall|k: int|
                    0 <= k < self.nodes.items@.len() implies node_wf_in(
                    #[trigger] self.nodes.items@[k],
                    self.id,
                ) by {
                    if k != pos {
                        let ko: int = if k < pos {
                            k
                        } else {
                            k - 1
                        };
                        assert(node_wf_in(pre.nodes.items@[ko], pre.id));
                        assert(self.nodes.items@[k] == pre.nodes.items@[ko]);
                    }
                }
            }
        }
        match r {
            Some(_) => true,
            None => false,
        }
    }

    /// As `insert_window_after`, on the other side of `target`.
    pub fn insert_window_before(&mut self, target: u32, w: WindowWrap) -> (r: bool)
        requires
            old(self).wf(),
            w.wf(),
            !old(self).nodes.contains_id(w.id),
        ensures
            final(self).wf(),
            insert_window_rel(*old(self), *final(self), target, w, false, r),
    {
        let ghost pre = *self;
        let r = self.nodes.insert_before(target, Node::Window(w));
        proof {
            if pre.nodes.contains_id(target) {
                let pos = pre.nodes.spine@.index_of(target);
                assert forall|k: int|
                    0 <= k < self.nodes.items@.len() implies node_wf_in(
                    #[trigger] self.nodes.items@[k],
                    self.id,
                ) by {
                    if k != pos {
                        let ko: int = if k < pos {
                            k
                        } else {
                            k - 1
                        };
                        assert(node_wf_in(pre.nodes.items@[ko], pre.id));
                        assert(self.nodes.items@[k] == pre.nodes.items@[ko]);
                    }
                }
            }
        }
        match r {
            Some(_) => true,
            None => false,
        }
    }

    /// Take the window with this id out, to move it somewhere else.
    pub fn take_window(&mut self, id: u32) -> (r: Option<WindowWrap>)
        requires
            old(self).wf(),
        ensures
            final(self).wf(),
            take_window_rel(*old(self), *final(self), id, r),
    {
        let ghost pre = *self;
        let is_window = match self.nodes.get(id) {
            Some(n) => !n.is_container(),
            None => false,
        };
        if !is_window {
            return None;
        }
        let removed = self.nodes.remove(id);
        proof {
            let i = pre.nodes.spine@.index_of(id);
            assert forall|k: int|
                0 <= k < self.nodes.items@.len() implies node_wf_in(
                #[trigger] self.nodes.items@[k],
                self.id,
            ) by {
                let ko: int = if k < i {
                    k
                } else {
                    k + 1
                };
                assert(node_wf_in(pre.nodes.items@[ko], pre.id));
                assert(self.nodes.items@[k] == pre.nodes.items@[ko]);
            }
        }
        match removed {
            Some(Node::Window(w)) => Some(w),
            _ => {
                proof {
                    assert(false);
                }
                None
            },
        }
    }

    /// Remove the child with this id outright; a container child takes its
    /// whole subtree with it.
    pub fn remove_child(&mut self, id: u32) -> (r: bool)
        requires
            old(self).wf(),
        ensures
            final(self).wf(),
            remove_child_rel(*old(self), *final(self), id, r),
    {
        let ghost pre = *self;
        let removed = self.nodes.remove(id);
        proof {
            if pre.nodes.contains_id(id) {
                let i = pre.nodes.spine@.index_of(id);
                assert forall|k: int|
                    0 <= k < self.nodes.items@.len() implies node_wf_in(
                    #[trigger] self.nodes.items@[k],
                    self.id,
                ) by {
                    let ko: int = if k < i {
                        k
                    } else {
                        k + 1
                    };
                    assert(node_wf_in(pre.nodes.items@[ko], pre.id));
                    assert(self.nodes.items@[k] == pre.nodes.items@[ko]);
                }
            }
        }
        match removed {
            Some(_) => true,
            None => false,
        }
    }

    /// Assign this container new space.
    pub fn set_geometry(&mut self, loc: Point, size: Size)
        requires
            old(self).wf(),
            point_ok(loc),
            size_ok(size),
        ensures
            final(self).wf(),
            *final(self) == (Container { loc, size, ..*old(self) }),
    {
        self.loc = loc;
        self.size = size;
        proof {
            assert forall|k: int|
                0 <= k < self.nodes.items@.len() implies node_wf_in(
                #[trigger] self.nodes.items@[k],
                self.id,
            ) by {
                assert(node_wf_in(old(self).nodes.items@[k], old(self).id));
            }
        }
    }

    /// Assign the window with this id new geometry.
    pub fn set_window_geometry(&mut self, id: u32, loc: Point, size: Size) -> (r: bool)
        requires
            old(self).wf(),
            point_ok(loc),
            size_ok(size),
        ensures
            final(self).wf(),
            set_window_geometry_rel(*old(self), *final(self), id, loc, size, r),
    {
        let ghost pre = *self;
        let idx = match self.nodes.index_of(id) {
            Some(i) => i,
            None => {
                return false;
            },
        };
        proof {
            assert(pre.nodes.spine@[idx as int] == id);
            assert(pre.nodes.spine@.contains(id));
            crate::nodemap::lemma_index_of_unique(pre.nodes.spine@, id, idx as int);
        }
        let is_window = !self.nodes.items[idx].is_container();
        if !is_window {
            return false;
        }
        match &mut self.nodes.items[idx] {
            Node::Container(_) => {
                proof {
                    assert(false);
                }
                false
            },
            Node::Window(w) => {
                w.update_loc_and_size(Some(size), loc);
                proof {
                    lemma_wf_child_replaced(pre, *self, idx as int);
                    assert(self.nodes.items@[idx as int] == Node::Window(
                        (pre.nodes.items@[idx as int]->Window_0).with_geometry(Some(size), loc),
                    ));
                    assert(self.nodes.items@ =~= pre.nodes.items@.update(
                        idx as int,
                        Node::Window(
                            (pre.nodes.items@[idx as int]->Window_0).with_geometry(
                                Some(size),
                                loc,
                            ),
                        ),
                    ));
                }
                true
            },
        }
    }

    /// Record the geometry a client announced for the window with this
    /// id; from then on the window counts as configured.
    pub fn configure_window(&mut self, id: u32, initial: Size) -> (r: bool)
        requires
            old(self).wf(),
            size_ok(initial),
        ensures
            final(self).wf(),
            configure_window_rel(*old(self), *final(self), id, initial, r),
    {
        let ghost pre = *self;
        let idx = match self.nodes.index_of(id) {
            Some(i) => i,
            None => {
                return false;
            },
        };
        proof {
            assert(pre.nodes.spine@[idx as int] == id);
            assert(pre.nodes.spine@.contains(id));
            crate::nodemap::lemma_index_of_unique(pre.nodes.spine@, id, idx as int);
        }
        let is_window = !self.nodes.items[idx].is_container();
        if !is_window {
            return false;
        }
        match &mut self.nodes.items[idx] {
            Node::Container(_) => {
                proof {
                    assert(false);
                }
                false
            },
            Node::Window(w) => {
                w.set_initial_geometry(initial);
                w.set_configured();
                proof {
                    lemma_wf_child_replaced(pre, *self, idx as int);
                    assert(self.nodes.items@ =~= pre.nodes.items@.update(
                        idx as int,
                        Node::Window(
                            WindowWrap {
                                initial_size: initial,
                                configured: true,
                                ..pre.nodes.items@[idx as int]->Window_0
                            },
                        ),
                    ));
                }
                true
            },
        }
    }

    /// Note that the surface behind the window with this id has died; the
    /// next redraw sweep discards the handle.
    pub fn mark_window_dead(&mut self, id: u32) -> (r: bool)
        requires
            old(self).wf(),
        ensures
            final(self).wf(),
            mark_dead_rel(*old(self), *final(self), id, r),
    {
        let ghost pre = *self;
        let idx = match self.nodes.index_of(id) {
            Some(i) => i,
            None => {
                return false;
            },
        };
        proof {
            assert(pre.nodes.spine@[idx as int] == id);
            assert(pre.nodes.spine@.contains(id));
            crate::nodemap::lemma_index_of_unique(pre.nodes.spine@, id, idx as int);
        }
        let is_window = !self.nodes.items[idx].is_container();
        if !is_window {
            return false;
        }
        match &mut self.nodes.items[idx] {
            Node::Container(_) => {
                proof {
                    assert(false);
                }
                false
            },
            Node::Window(w) => {
                w.mark_dead();
                proof {
                    lemma_wf_child_replaced(pre, *self, idx as int);
                    assert(self.nodes.items@ =~= pre.nodes.items@.update(
                        idx as int,
                        Node::Window(
                            WindowWrap { alive: false, ..pre.nodes.items@[idx as int]->Window_0 },
                        ),
                    ));
                }
                true
            },
        }
    }

    /// Dissolve the direct child container with this id, adopting its
    /// children at the end of the arrangement order.  Refused (reporting
    /// `false`) when the id is absent, not a container, or an adopted id
    /// would collide — which cannot arise with ids from one allocator.
    pub fn merge_child(&mut self, id: u32) -> (r: bool)
        requires
            old(self).wf(),
        ensures
            final(self).wf(),
            merge_child_rel(*old(self), *final(self), id, r),
    {
        let ghost pre = *self;
        let idx = match self.nodes.index_of(id) {
            Some(i) => i,
            None => {
                return false;
            },
        };
        proof {
            assert(pre.nodes.spine@.contains(id));
            crate::nodemap::lemma_index_of_unique(pre.nodes.spine@, id, idx as int);
        }
        // refuse the merge if any adopted id is already present here
        let mut k: usize = 0;
        let child_len = match &self.nodes.items[idx] {
            Node::Container(c) => c.nodes.spine.len(),
            Node::Window(_) => {
                return false;
            },
        };
        while k < child_len
            invariant
                *self == pre,
                pre.wf(),
                idx < pre.nodes.items@.len(),
                pre.nodes.spine@.index_of(id) == idx as int,
                pre.nodes.spine@[idx as int] == id,
                pre.nodes.items@[idx as int] is Container,
                child_len == (pre.nodes.items@[idx as int]->Container_0).nodes.spine@.len(),
                k <= child_len,
                forall|m: int|
                    0 <= m < k ==> !pre.nodes.spine@.contains(
                        #[trigger] (pre.nodes.items@[idx as int]->Container_0).nodes.spine@[m],
                    ),
            decreases child_len - k,
        {
            let cid = match &self.nodes.items[idx] {
                Node::Container(c) => c.nodes.spine[k],
                Node::Window(_) => {
                    proof {
                        assert(false);
                    }
                    0
                },
            };
            if self.nodes.contains(cid) {
                return false;
            }
            k = k + 1;
        }
        // take the child out, adopt its children
        let removed = self.nodes.remove(id);
        let mut cc = match removed {
            Some(Node::Container(c)) => c,
            _ => {
                proof {
                    assert(false);
                }
                return false;
            },
        };
        let ghost cc0 = cc;
        let mut adopted = cc.nodes.drain_all();
        let my_id = self.id;
        let mut m: usize = 0;
        while m < adopted.len()
            invariant
                m <= adopted@.len(),
                adopted@.len() == cc0.nodes.items@.len(),
                forall|q: int|
                    0 <= q < m ==> #[trigger] adopted@[q] == reparent_node(
                        cc0.nodes.items@[q],
                        my_id,
                    ),
                forall|q: int| m <= q < adopted@.len() ==> #[trigger] adopted@[q] == cc0.nodes.items@[q],
            decreases adopted@.len() - m,
        {
            match &mut adopted[m] {
                Node::Container(c) => {
                    c.parent = Some(my_id);
                },
                Node::Window(_) => {},
            }
            m = m + 1;
        }
        proof {
            let i0 = pre.nodes.spine@.index_of(id);
            assert(node_wf_in(pre.nodes.items@[i0], pre.id));
            assert(cc0.wf());
            assert(adopted@ =~= reparent_nodes(cc0.nodes.items@, my_id));
            assert(crate::nodemap::node_ids(adopted@) =~= cc0.nodes.spine@) by {
                assert forall|q: int|
                    0 <= q < adopted@.len() implies crate::nodemap::node_ids(adopted@)[q]
                    == cc0.nodes.spine@[q] by {
                    assert(cc0.nodes.items@[q].id_spec() == cc0.nodes.spine@[q]);
                }
            }
            let i = pre.nodes.spine@.index_of(id);
            assert forall|q: int|
                0 <= q < adopted@.len() implies !self.nodes.contains_id(
                (#[trigger] adopted@[q]).id_spec(),
            ) by {
                assert(!pre.nodes.spine@.contains(cc0.nodes.spine@[q]));
                if self.nodes.spine@.contains(adopted@[q].id_spec()) {
                    let p = choose|p: int|
                        0 <= p < self.nodes.spine@.len() && self.nodes.spine@[p] == adopted@[
                            q
                        ].id_spec();
                    let po: int = if p < i {
                        p
                    } else {
                        p + 1
                    };
                    assert(pre.nodes.spine@[po] == adopted@[q].id_spec());
                    assert(pre.nodes.spine@.contains(pre.nodes.spine@[po]));
                }
            }
        }
        let ghost mid = *self;
        self.nodes.extend(adopted);
        proof {
            let i = pre.nodes.spine@.index_of(id);
            assert(node_wf_in(pre.nodes.items@[i], pre.id));
            assert forall|q: int|
                0 <= q < self.nodes.items@.len() implies node_wf_in(
                #[trigger] self.nodes.items@[q],
                self.id,
            ) by {
                let keep = mid.nodes.items@.len();
                if q < keep {
                    let ko: int = if q < i {
                        q
                    } else {
                        q + 1
                    };
                    assert(node_wf_in(pre.nodes.items@[ko], pre.id));
                    assert(self.nodes.items@[q] == pre.nodes.items@[ko]);
                } else {
                    let a = q - keep;
                    assert(self.nodes.items@[q] == reparent_nodes(cc0.nodes.items@, my_id)[a]);
                    assert(node_wf_in(cc0.nodes.items@[a], cc0.id));
                }
            }
        }
        true
    }
}

/// Replacing one child by another with the same id and kind, sound under
/// the same holder, keeps the container sound.
pub proof fn lemma_wf_child_replaced(pre: Container, post: Container, i: int)
    requires
        pre.wf(),
        0 <= i < pre.nodes.items@.len(),
        post.id == pre.id,
        post.loc == pre.loc,
        post.size == pre.size,
        post.nodes.spine@ == pre.nodes.spine@,
        post.nodes.focus == pre.nodes.focus,
        post.nodes.items@.len() == pre.nodes.items@.len(),
        forall|k: int|
            0 <= k < pre.nodes.items@.len() && k != i ==> #[trigger] post.nodes.items@[k]
                == pre.nodes.items@[k],
        node_wf_in(post.nodes.items@[i], post.id),
        post.nodes.items@[i].id_spec() == pre.nodes.items@[i].id_spec(),
        (post.nodes.items@[i] is Container) == (pre.nodes.items@[i] is Container),
    ensures
        post.wf(),
{
    assert forall|k: int|
        0 <= k < post.nodes.items@.len() implies node_wf_in(
        #[trigger] post.nodes.items@[k],
        post.id,
    ) by {
        assert(node_wf_in(pre.nodes.items@[k], pre.id));
        if k != i {
            assert(post.nodes.items@[k] == pre.nodes.items@[k]);
        }
    }
    assert forall|k: int|
        0 <= k < post.nodes.spine@.len() implies (#[trigger] post.nodes.items@[k]).id_spec()
        == post.nodes.spine@[k] by {
        assert(pre.nodes.items@[k].id_spec() == pre.nodes.spine@[k]);
        if k != i {
            assert(post.nodes.items@[k] == pre.nodes.items@[k]);
        }
    }
    assert(match post.nodes.focus {
        Some(j) => j < post.nodes.spine@.len() && !(post.nodes.items@[j as int] is Container),
        None => true,
    }) by {
        match post.nodes.focus {
            Some(j) => {
                if j != i {
                    assert(post.nodes.items@[j as int] == pre.nodes.items@[j as int]);
                }
            },
            None => {},
        }
    }
}

/// One operation the workspace can aim at a container anywhere in the
/// tree, named by its id.
#[derive(Clone, Copy)]
pub enum TreeOp {
    Split { layout: ContainerLayout, new_id: u32 },
    PushWindow { window: WindowWrap },
    CloseWindow,
    SetFocus { window: u32 },
    ToggleFloating,
    InsertAfter { target: u32, window: WindowWrap },
    InsertBefore { target: u32, window: WindowWrap },
    TakeWindow { window: u32 },
    RemoveChild { child: u32 },
    MergeChild { child: u32 },
    SetGeometry { loc: Point, size: Size },
    SetWindowGeometry { window: u32, loc: Point, size: Size },
    ConfigureWindow { window: u32, initial: Size },
    MarkDead { window: u32 },
}

/// What an operation answered, once its target container was found.
#[derive(Clone, Copy, PartialEq, Eq, Structural, Debug)]
pub enum OpOut {
    Nothing,
    Id(u32),
    Win(WindowWrap),
    Split { id: u32, created: bool },
}

/// What each operation does to the container it is aimed at.
pub open spec fn local_apply_rel(pre: Container, post: Container, op: TreeOp, out: OpOut) -> bool {
    match op {
        TreeOp::Split { layout, new_id } => out matches OpOut::Split { id, created }
            && split_rel(pre, post, layout, new_id, created)
            && id == if created { new_id } else { pre.id },
        TreeOp::PushWindow { window } => out == OpOut::Id(window.id) && push_window_rel(
            pre,
            post,
            window,
        ),
        TreeOp::CloseWindow => {
            ||| (out matches OpOut::Id(i) && close_window_rel(pre, post, Some(i)))
            ||| (out == OpOut::Nothing && close_window_rel(pre, post, None::<u32>))
        },
        TreeOp::SetFocus { window } => out == OpOut::Nothing && set_focus_rel(pre, post, window),
        TreeOp::ToggleFloating => {
            ||| (out matches OpOut::Id(i) && toggle_floating_rel(pre, post, Some(i)))
            ||| (out == OpOut::Nothing && toggle_floating_rel(pre, post, None::<u32>))
        },
        TreeOp::InsertAfter { target, window } => {
            ||| (out == OpOut::Id(window.id) && insert_window_rel(pre, post, target, window, true, true))
            ||| (out == OpOut::Nothing && insert_window_rel(pre, post, target, window, true, false))
        },
        TreeOp::InsertBefore { target, window } => {
            ||| (out == OpOut::Id(window.id) && insert_window_rel(pre, post, target, window, false, true))
            ||| (out == OpOut::Nothing && insert_window_rel(pre, post, target, window, false, false))
        },
        TreeOp::TakeWindow { window } => {
            ||| (out matches OpOut::Win(w) && take_window_rel(pre, post, window, Some(w)))
            ||| (out == OpOut::Nothing && take_window_rel(pre, post, window, None::<WindowWrap>))
        },
        TreeOp::RemoveChild { child } => {
            ||| (out == OpOut::Id(child) && remove_child_rel(pre, post, child, true))
            ||| (out == OpOut::Nothing && remove_child_rel(pre, post, child, false))
        },
        TreeOp::MergeChild { child } => {
            ||| (out == OpOut::Id(child) && merge_child_rel(pre, post, child, true))
            ||| (out == OpOut::Nothing && merge_child_rel(pre, post, child, false))
        },
        TreeOp::SetGeometry { loc, size } => out == OpOut::Nothing && post == (Container {
            loc,
            size,
            ..pre
        }),
        TreeOp::SetWindowGeometry { window, loc, size } => {
            ||| (out == OpOut::Id(window) && set_window_geometry_rel(pre, post, window, loc, size, true))
            ||| (out == OpOut::Nothing && set_window_geometry_rel(pre, post, window, loc, size, false))
        },
        TreeOp::ConfigureWindow { window, initial } => {
            ||| (out == OpOut::Id(window) && configure_window_rel(pre, post, window, initial, true))
            ||| (out == OpOut::Nothing && configure_window_rel(pre, post, window, initial, false))
        },
        TreeOp::MarkDead { window } => {
            ||| (out == OpOut::Id(window) && mark_dead_rel(pre, post, window, true))
            ||| (out == OpOut::Nothing && mark_dead_rel(pre, post, window, false))
        },
    }
}

/// What must hold of the whole tree for an operation to be admissible:
/// inserted ids are fresh for the tree, geometry stays in bounds.
pub open spec fn op_fresh(op: TreeOp, root: Container) -> bool {
    match op {
        TreeOp::Split { new_id, .. } => !root.subtree_has_id(new_id),
        TreeOp::PushWindow { window } => window.wf() && !root.subtree_has_id(window.id),
        TreeOp::InsertAfter { window, .. } => window.wf() && !root.subtree_has_id(window.id),
        TreeOp::InsertBefore { window, .. } => window.wf() && !root.subtree_has_id(window.id),
        TreeOp::SetGeometry { loc, size } => point_ok(loc) && size_ok(size),
        TreeOp::SetWindowGeometry { loc, size, .. } => point_ok(loc) && size_ok(size),
        TreeOp::ConfigureWindow { initial, .. } => size_ok(initial),
        _ => true,
    }
}

/// How a found target's transformation shows at the root: along the path
/// to the first holder of the target id, every container is untouched but
/// for the one child it reaches the target through.
pub open spec fn apply_steps(
    pre: Container,
    post: Container,
    target: u32,
    op: TreeOp,
    out: OpOut,
) -> bool
    decreases pre via apply_steps_dec
{
    if pre.id == target {
        local_apply_rel(pre, post, op, out)
    } else {
        match first_holder_from(pre.nodes.items@, 0, target) {
            Some(k) => {
                &&& same_but_nodes(pre, post)
                &&& post.nodes.spine@ == pre.nodes.spine@
                &&& post.nodes.focus == pre.nodes.focus
                &&& post.nodes.items@.len() == pre.nodes.items@.len()
                &&& forall|m: int|
                    0 <= m < pre.nodes.items@.len() && m != k ==> #[trigger] post.nodes.items@[m]
                        == pre.nodes.items@[m]
                &&& post.nodes.items@[k] is Container
                &&& apply_steps(
                    pre.nodes.items@[k]->Container_0,
                    post.nodes.items@[k]->Container_0,
                    target,
                    op,
                    out,
                )
            },
            None => false,
        }
    }
}

#[via_fn]
proof fn apply_steps_dec(pre: Container, post: Container, target: u32, op: TreeOp, out: OpOut) {
    lemma_first_holder_props(pre.nodes.items@, 0, target);
}

/// An id present in the child table occurs in the subtree.
pub proof fn lemma_contains_in_subtree(c: Container, x: u32)
    requires
        c.nodes.links_ok(),
        c.nodes.contains_id(x),
    ensures
        c.subtree_has_id(x),
{
    let k = choose|k: int| 0 <= k < c.nodes.spine@.len() && c.nodes.spine@[k] == x;
    assert(c.nodes.items@[k].id_spec() == c.nodes.spine@[k]);
}

/// A fresh id for the whole subtree is fresh for each child subtree.
pub proof fn lemma_subtree_id_child(c: Container, i: int, id: u32)
    requires
        0 <= i < c.nodes.items@.len(),
        c.nodes.items@[i] is Container,
        !c.subtree_has_id(id),
    ensures
        !(c.nodes.items@[i]->Container_0).subtree_has_id(id),
{
    if (c.nodes.items@[i]->Container_0).subtree_has_id(id) {
        assert(c.subtree_has_id(id));
    }
}

/// Admissibility for the whole tree is admissibility for each subtree.
pub proof fn lemma_op_fresh_child(c: Container, i: int, op: TreeOp)
    requires
        op_fresh(op, c),
        0 <= i < c.nodes.items@.len(),
        c.nodes.items@[i] is Container,
    ensures
        op_fresh(op, c.nodes.items@[i]->Container_0),
{
    match op {
        TreeOp::Split { new_id, .. } => {
            lemma_subtree_id_child(c, i, new_id);
        },
        TreeOp::PushWindow { window } => {
            lemma_subtree_id_child(c, i, window.id);
        },
        TreeOp::InsertAfter { window, .. } => {
            lemma_subtree_id_child(c, i, window.id);
        },
        TreeOp::InsertBefore { window, .. } => {
            lemma_subtree_id_child(c, i, window.id);
        },
        _ => {},
    }
}

/// Which results each operation can answer.
pub open spec fn op_out_shape(op: TreeOp, out: OpOut) -> bool {
    match op {
        TreeOp::Split { .. } => out is Split,
        TreeOp::PushWindow { window } => out == OpOut::Id(window.id),
        TreeOp::CloseWindow => out is Id || out is Nothing,
        TreeOp::SetFocus { .. } => out is Nothing,
        TreeOp::ToggleFloating => out is Id || out is Nothing,
        TreeOp::InsertAfter { window, .. } => out == OpOut::Id(window.id) || out == OpOut::Nothing,
        TreeOp::InsertBefore { window, .. } => out == OpOut::Id(window.id) || out == OpOut::Nothing,
        TreeOp::TakeWindow { .. } => out is Win || out is Nothing,
        TreeOp::RemoveChild { child } => out == OpOut::Id(child) || out == OpOut::Nothing,
        TreeOp::MergeChild { child } => out == OpOut::Id(child) || out == OpOut::Nothing,
        TreeOp::SetGeometry { .. } => out is Nothing,
        TreeOp::SetWindowGeometry { .. } => out is Id || out is Nothing,
        TreeOp::ConfigureWindow { .. } => out is Id || out is Nothing,
        TreeOp::MarkDead { .. } => out is Id || out is Nothing,
    }
}

/// The answer of a carried-out operation has the shape its kind allows.
pub proof fn lemma_apply_out_shape(
    pre: Container,
    post: Container,
    target: u32,
    op: TreeOp,
    out: OpOut,
)
    requires
        apply_steps(pre, post, target, op, out),
    ensures
        op_out_shape(op, out),
    decreases pre,
{
    if pre.id == target {
    } else {
        match first_holder_from(pre.nodes.items@, 0, target) {
            Some(k) => {
                lemma_first_holder_props(pre.nodes.items@, 0, target);
                lemma_apply_out_shape(
                    pre.nodes.items@[k]->Container_0,
                    post.nodes.items@[k]->Container_0,
                    target,
                    op,
                    out,
                );
            },
            None => {},
        }
    }
}

/// Every id anywhere in the subtree — containers and windows alike — is
/// at most `b`.  A workspace keeps this for its allocator's last issued
/// id, so a freshly issued id can collide with nothing.
pub open spec fn ids_at_most(c: Container, b: u32) -> bool
    decreases c,
{
    &&& c.id <= b
    &&& forall|k: int|
        #![trigger c.nodes.items@[k]]
        0 <= k < c.nodes.items@.len() ==> match c.nodes.items@[k] {
            Node::Window(w) => w.id <= b,
            Node::Container(cc) => ids_at_most(cc, b),
        }
}

pub proof fn lemma_ids_at_most_mono(c: Container, b1: u32, b2: u32)
    requires
        ids_at_most(c, b1),
        b1 <= b2,
    ensures
        ids_at_most(c, b2),
    decreases c,
{
    assert forall|k: int|
        #![trigger c.nodes.items@[k]]
        0 <= k < c.nodes.items@.len() implies match c.nodes.items@[k] {
        Node::Window(w) => w.id <= b2,
        Node::Container(cc) => ids_at_most(cc, b2),
    } by {
        match c.nodes.items@[k] {
            Node::Window(_) => {},
            Node::Container(cc) => {
                lemma_ids_at_most_mono(cc, b1, b2);
            },
        }
    }
}

/// An id above the bound occurs nowhere in the subtree.
pub proof fn lemma_ids_fresh(c: Container, b: u32, x: u32)
    requires
        ids_at_most(c, b),
        x > b,
    ensures
        !c.subtree_has_id(x),
    decreases c,
{
    if c.subtree_has_id(x) {
        if exists|k: int|
            0 <= k < c.nodes.items@.len() && (#[trigger] c.nodes.items@[k]).id_spec() == x {
            let k = choose|k: int|
                0 <= k < c.nodes.items@.len() && (#[trigger] c.nodes.items@[k]).id_spec() == x;
            assert(match c.nodes.items@[k] {
                Node::Window(w) => w.id <= b,
                Node::Container(cc) => ids_at_most(cc, b),
            });
            match c.nodes.items@[k] {
                Node::Window(w) => {
                    assert(w.id == x);
                },
                Node::Container(cc) => {
                    assert(cc.id == x);
                    assert(cc.id <= b);
                },
            }
        } else if exists|k: int|
            0 <= k < c.nodes.items@.len() && (#[trigger] c.nodes.items@[k]) is Container && (
            c.nodes.items@[k]->Container_0).subtree_has_id(x) {
            let k = choose|k: int|
                0 <= k < c.nodes.items@.len() && (#[trigger] c.nodes.items@[k]) is Container
                    && (c.nodes.items@[k]->Container_0).subtree_has_id(x);
            lemma_ids_fresh(c.nodes.items@[k]->Container_0, b, x);
        }
    }
}

/// Containers equal in id and children carry the same ids.
pub proof fn lemma_ids_same_items(c1: Container, c2: Container, b: u32)
    requires
        ids_at_most(c1, b),
        c2.id == c1.id,
        c2.nodes.items@ == c1.nodes.items@,
    ensures
        ids_at_most(c2, b),
{
    assert forall|k: int|
        #![trigger c2.nodes.items@[k]]
        0 <= k < c2.nodes.items@.len() implies match c2.nodes.items@[k] {
        Node::Window(w) => w.id <= b,
        Node::Container(cc) => ids_at_most(cc, b),
    } by {
        assert(c2.nodes.items@[k] == c1.nodes.items@[k]);
    }
}

/// The ids an operation itself brings in are within the bound.
pub open spec fn op_ids_at_most(op: TreeOp, b: u32) -> bool {
    match op {
        TreeOp::Split { new_id, .. } => new_id <= b,
        TreeOp::PushWindow { window } => window.id <= b,
        TreeOp::InsertAfter { window, .. } => window.id <= b,
        TreeOp::InsertBefore { window, .. } => window.id <= b,
        _ => true,
    }
}

/// An operation at the target container keeps every id within the bound:
/// it only rearranges nodes already here or brings in ids the bound
/// covers.
pub proof fn lemma_local_ids(pre: Container, post: Container, op: TreeOp, out: OpOut, b: u32)
    requires
        pre.wf(),
        local_apply_rel(pre, post, op, out),
        ids_at_most(pre, b),
        op_ids_at_most(op, b),
    ensures
        ids_at_most(post, b),
{
    let s = pre.nodes.items@;
    let t = post.nodes.items@;
    let bounded = |n: Node| match n {
        Node::Window(w) => w.id <= b,
        Node::Container(cc) => ids_at_most(cc, b),
    };
    assert(post.id == pre.id || post == pre) by {
        lemma_local_rel_scalars(pre, post, op, out);
    }
    match op {
        TreeOp::Split { layout, new_id } => {
            if split_minimal(pre) {
                lemma_ids_same_items(pre, post, b);
            } else {
                match pre.nodes.focus {
                    Some(j) => {
                        assert forall|k: int|
                            #![trigger t[k]]
                            0 <= k < t.len() implies bounded(t[k]) by {
                            if k != j {
                                assert(t[k] == s[k]);
                                assert(bounded(s[k]));
                            } else {
                                let ch = t[j as int]->Container_0;
                                assert(bounded(s[j as int]));
                                assert forall|m: int|
                                    #![trigger ch.nodes.items@[m]]
                                    0 <= m < ch.nodes.items@.len() implies match ch.nodes.items@[m] {
                                    Node::Window(w) => w.id <= b,
                                    Node::Container(cc) => ids_at_most(cc, b),
                                } by {
                                    assert(ch.nodes.items@[m] == s[j as int]);
                                }
                            }
                        }
                    },
                    None => {
                        assert forall|k: int|
                            #![trigger t[k]]
                            0 <= k < t.len() implies bounded(t[k]) by {
                            if k < s.len() {
                                assert(t[k] == s[k]);
                                assert(bounded(s[k]));
                            } else {
                                let ch = t[k]->Container_0;
                                assert(ch.nodes.items@.len() == 0);
                            }
                        }
                    },
                }
            }
        },
        TreeOp::PushWindow { window } => {
            let pos: int = match pre.nodes.focus {
                None => s.len() as int,
                Some(j) => j + 1,
            };
            assert forall|k: int| #![trigger t[k]] 0 <= k < t.len() implies bounded(t[k]) by {
                if k != pos {
                    let ko: int = if k < pos {
                        k
                    } else {
                        k - 1
                    };
                    assert(t[k] == s[ko]);
                    assert(bounded(s[ko]));
                }
            }
        },
        TreeOp::CloseWindow => {
            match pre.focused_window_spec() {
                Some(_) => {
                    let j = pre.nodes.focus->0 as int;
                    assert forall|k: int| #![trigger t[k]] 0 <= k < t.len() implies bounded(
                        t[k],
                    ) by {
                        let ko: int = if k < j {
                            k
                        } else {
                            k + 1
                        };
                        assert(t[k] == s[ko]);
                        assert(bounded(s[ko]));
                    }
                },
                None => {},
            }
        },
        TreeOp::SetFocus { .. } => {
            lemma_ids_same_items(pre, post, b);
        },
        TreeOp::ToggleFloating => {
            match pre.focused_window_spec() {
                Some(w) => {
                    let j = pre.nodes.focus->0 as int;
                    assert forall|k: int| #![trigger t[k]] 0 <= k < t.len() implies bounded(
                        t[k],
                    ) by {
                        if k != j {
                            assert(t[k] == s[k]);
                        }
                        assert(bounded(s[k]));
                    }
                },
                None => {},
            }
        },
        TreeOp::InsertAfter { target, window } => {
            if pre.nodes.contains_id(target) {
                let pos = pre.nodes.spine@.index_of(target) + 1;
                assert forall|k: int| #![trigger t[k]] 0 <= k < t.len() implies bounded(t[k]) by {
                    if k != pos {
                        let ko: int = if k < pos {
                            k
                        } else {
                            k - 1
                        };
                        assert(t[k] == s[ko]);
                        assert(bounded(s[ko]));
                    }
                }
            }
        },
        TreeOp::InsertBefore { target, window } => {
            if pre.nodes.contains_id(target) {
                let pos = pre.nodes.spine@.index_of(target);
                assert forall|k: int| #![trigger t[k]] 0 <= k < t.len() implies bounded(t[k]) by {
                    if k != pos {
                        let ko: int = if k < pos {
                            k
                        } else {
                            k - 1
                        };
                        assert(t[k] == s[ko]);
                        assert(bounded(s[ko]));
                    }
                }
            }
        },
        TreeOp::TakeWindow { window } => {
            let i = pre.nodes.spine@.index_of(window);
            if pre.nodes.contains_id(window) && !(s[i] is Container) {
                assert forall|k: int| #![trigger t[k]] 0 <= k < t.len() implies bounded(t[k]) by {
                    let ko: int = if k < i {
                        k
                    } else {
                        k + 1
                    };
                    assert(t[k] == s[ko]);
                    assert(bounded(s[ko]));
                }
            }
        },
        TreeOp::RemoveChild { child } => {
            if pre.nodes.contains_id(child) {
                let i = pre.nodes.spine@.index_of(child);
                assert forall|k: int| #![trigger t[k]] 0 <= k < t.len() implies bounded(t[k]) by {
                    let ko: int = if k < i {
                        k
                    } else {
                        k + 1
                    };
                    assert(t[k] == s[ko]);
                    assert(bounded(s[ko]));
                }
            }
        },
        TreeOp::MergeChild { child } => {
            let i = pre.nodes.spine@.index_of(child);
            if pre.nodes.contains_id(child) && s[i] is Container && mergeable(
                pre,
                s[i]->Container_0,
            ) {
                let cc = s[i]->Container_0;
                let keep = s.len() - 1;
                assert(bounded(s[i]));
                assert forall|k: int| #![trigger t[k]] 0 <= k < t.len() implies bounded(t[k]) by {
                    if k < keep {
                        let ko: int = if k < i {
                            k
                        } else {
                            k + 1
                        };
                        assert(t[k] == s[ko]);
                        assert(bounded(s[ko]));
                    } else {
                        let a = k - keep;
                        assert(t[k] == reparent_nodes(cc.nodes.items@, pre.id)[a]);
                        assert(match cc.nodes.items@[a] {
                            Node::Window(w) => w.id <= b,
                            Node::Container(x) => ids_at_most(x, b),
                        });
                        match cc.nodes.items@[a] {
                            Node::Window(_) => {},
                            Node::Container(x) => {
                                lemma_ids_same_items(
                                    x,
                                    Container { parent: Some(pre.id), ..x },
                                    b,
                                );
                            },
                        }
                    }
                }
            }
        },
        TreeOp::SetGeometry { .. } => {
            lemma_ids_same_items(pre, post, b);
        },
        TreeOp::SetWindowGeometry { window, loc, size } => {
            let i = pre.nodes.spine@.index_of(window);
            if pre.nodes.contains_id(window) && !(s[i] is Container) {
                assert forall|k: int| #![trigger t[k]] 0 <= k < t.len() implies bounded(t[k]) by {
                    if k != i {
                        assert(t[k] == s[k]);
                    }
                    assert(bounded(s[k]));
                }
            }
        },
        TreeOp::ConfigureWindow { window, initial } => {
            let i = pre.nodes.spine@.index_of(window);
            if pre.nodes.contains_id(window) && !(s[i] is Container) {
                assert forall|k: int| #![trigger t[k]] 0 <= k < t.len() implies bounded(t[k]) by {
                    if k != i {
                        assert(t[k] == s[k]);
                    }
                    assert(bounded(s[k]));
                }
            }
        },
        TreeOp::MarkDead { window } => {
            let i = pre.nodes.spine@.index_of(window);
            if pre.nodes.contains_id(window) && !(s[i] is Container) {
                assert forall|k: int| #![trigger t[k]] 0 <= k < t.len() implies bounded(t[k]) by {
                    if k != i {
                        assert(t[k] == s[k]);
                    }
                    assert(bounded(s[k]));
                }
            }
        },
    }
}

/// Carrying an operation through the tree keeps every id within the
/// bound.
pub proof fn lemma_apply_ids(
    pre: Container,
    post: Container,
    target: u32,
    op: TreeOp,
    out: OpOut,
    b: u32,
)
    requires
        pre.wf(),
        apply_steps(pre, post, target, op, out),
        ids_at_most(pre, b),
        op_ids_at_most(op, b),
    ensures
        ids_at_most(post, b),
    decreases pre,
{
    if pre.id == target {
        lemma_local_ids(pre, post, op, out, b);
    } else {
        match first_holder_from(pre.nodes.items@, 0, target) {
            Some(k) => {
                lemma_first_holder_props(pre.nodes.items@, 0, target);
                assert(node_wf_in(pre.nodes.items@[k], pre.id));
                assert(match pre.nodes.items@[k] {
                    Node::Window(w) => w.id <= b,
                    Node::Container(cc) => ids_at_most(cc, b),
                });
                lemma_apply_ids(
                    pre.nodes.items@[k]->Container_0,
                    post.nodes.items@[k]->Container_0,
                    target,
                    op,
                    out,
                    b,
                );
                assert forall|m: int|
                    #![trigger post.nodes.items@[m]]
                    0 <= m < post.nodes.items@.len() implies match post.nodes.items@[m] {
                    Node::Window(w) => w.id <= b,
                    Node::Container(cc) => ids_at_most(cc, b),
                } by {
                    if m != k {
                        assert(post.nodes.items@[m] == pre.nodes.items@[m]);
                        assert(match pre.nodes.items@[m] {
                            Node::Window(w) => w.id <= b,
                            Node::Container(cc) => ids_at_most(cc, b),
                        });
                    }
                }
            },
            None => {},
        }
    }
}

/// The focused window a query reports carries an id within the bound.
pub proof fn lemma_query_window_ids(c: Container, target: u32, b: u32)
    requires
        c.wf(),
        ids_at_most(c, b),
    ensures
        match c.query_spec(target) {
            Some(info) => match info.focused_window {
                Some(w) => w.id <= b,
                None => true,
            },
            None => true,
        },
    decreases c,
{
    if c.id == target {
        match c.nodes.focus {
            Some(j) => {
                assert(match c.nodes.items@[j as int] {
                    Node::Window(w) => w.id <= b,
                    Node::Container(cc) => ids_at_most(cc, b),
                });
            },
            None => {},
        }
    } else {
        match first_holder_from(c.nodes.items@, 0, target) {
            Some(k) => {
                lemma_first_holder_props(c.nodes.items@, 0, target);
                assert(node_wf_in(c.nodes.items@[k], c.id));
                assert(match c.nodes.items@[k] {
                    Node::Window(w) => w.id <= b,
                    Node::Container(cc) => ids_at_most(cc, b),
                });
                lemma_query_window_ids(c.nodes.items@[k]->Container_0, target, b);
            },
            None => {},
        }
    }
}

/// Every operation acts on the target container's contents, never on the
/// target itself: the container stays in the tree.
pub proof fn lemma_apply_target_stays(
    pre: Container,
    post: Container,
    target: u32,
    op: TreeOp,
    out: OpOut,
)
    requires
        apply_steps(pre, post, target, op, out),
    ensures
        post.contains_container(target),
    decreases pre,
{
    if pre.id == target {
        lemma_local_rel_scalars(pre, post, op, out);
    } else {
        match first_holder_from(pre.nodes.items@, 0, target) {
            Some(k) => {
                lemma_first_holder_props(pre.nodes.items@, 0, target);
                lemma_apply_target_stays(
                    pre.nodes.items@[k]->Container_0,
                    post.nodes.items@[k]->Container_0,
                    target,
                    op,
                    out,
                );
                assert(post.contains_container(target)) by {
                    assert((#[trigger] post.nodes.items@[k]) is Container && (
                    post.nodes.items@[k]->Container_0).contains_container(target));
                }
            },
            None => {},
        }
    }
}

/// The container a split answers — the fresh one, or the split container
/// itself when the split degenerated to a direction change — exists in
/// the tree afterwards.
pub proof fn lemma_split_result_contained(
    pre: Container,
    post: Container,
    target: u32,
    layout: ContainerLayout,
    new_id: u32,
    id: u32,
    created: bool,
)
    requires
        pre.wf(),
        apply_steps(
            pre,
            post,
            target,
            (TreeOp::Split { layout, new_id }),
            (OpOut::Split { id, created }),
        ),
    ensures
        post.contains_container(id),
    decreases pre,
{
    if pre.id == target {
        if split_minimal(pre) {
        } else {
            match pre.nodes.focus {
                Some(j) => {
                    assert(post.contains_container(id)) by {
                        assert((#[trigger] post.nodes.items@[j as int]) is Container && (
                        post.nodes.items@[j as int]->Container_0).contains_container(id));
                    }
                },
                None => {
                    let last = post.nodes.items@.len() - 1;
                    assert(post.contains_container(id)) by {
                        assert((#[trigger] post.nodes.items@[last]) is Container && (
                        post.nodes.items@[last]->Container_0).contains_container(id));
                    }
                },
            }
        }
    } else {
        match first_holder_from(pre.nodes.items@, 0, target) {
            Some(k) => {
                lemma_first_holder_props(pre.nodes.items@, 0, target);
                assert(node_wf_in(pre.nodes.items@[k], pre.id));
                lemma_split_result_contained(
                    pre.nodes.items@[k]->Container_0,
                    post.nodes.items@[k]->Container_0,
                    target,
                    layout,
                    new_id,
                    id,
                    created,
                );
                assert(post.contains_container(id)) by {
                    assert((#[trigger] post.nodes.items@[k]) is Container && (
                    post.nodes.items@[k]->Container_0).contains_container(id));
                }
            },
            None => {},
        }
    }
}

/// The parent a query reports for a container below the root exists in
/// the tree: it is the holder the search descended through.
pub proof fn lemma_query_parent(c: Container, target: u32)
    requires
        c.wf(),
    ensures
        match c.query_spec(target) {
            Some(info) => match info.parent {
                Some(p) => c.contains_container(p) || (target == c.id && c.parent == Some(p)),
                None => true,
            },
            None => true,
        },
    decreases c,
{
    if c.id == target {
    } else {
        match first_holder_from(c.nodes.items@, 0, target) {
            Some(k) => {
                lemma_first_holder_props(c.nodes.items@, 0, target);
                assert(node_wf_in(c.nodes.items@[k], c.id));
                let cc = c.nodes.items@[k]->Container_0;
                lemma_query_parent(cc, target);
                match c.query_spec(target) {
                    Some(info) => {
                        match info.parent {
                            Some(p) => {
                                if target == cc.id && cc.parent == Some(p) {
                                    // the holder itself is the parent
                                    assert(p == c.id);
                                    assert(c.contains_container(p));
                                } else {
                                    assert(cc.contains_container(p));
                                    assert(c.contains_container(p)) by {
                                        assert((#[trigger] c.nodes.items@[k]) is Container
                                            && (c.nodes.items@[k]->Container_0)
                                            .contains_container(p));
                                    }
                                }
                            },
                            None => {},
                        }
                    },
                    None => {},
                }
            },
            None => {},
        }
    }
}

/// Taking the focused window out answers exactly that window: the
/// container an operation reaches and the container a query describes
/// are found by the same depth-first search.
pub proof fn lemma_take_out(
    pre: Container,
    post: Container,
    target: u32,
    w: WindowWrap,
    out: OpOut,
)
    requires
        pre.wf(),
        apply_steps(pre, post, target, (TreeOp::TakeWindow { window: w.id }), out),
        pre.query_spec(target) matches Some(info) && info.focused_window == Some(w),
    ensures
        out == OpOut::Win(w),
    decreases pre,
{
    if pre.id == target {
        let j = pre.nodes.focus->0 as int;
        assert(pre.nodes.items@[j].id_spec() == pre.nodes.spine@[j]);
        assert(pre.nodes.spine@.contains(w.id)) by {
            assert(pre.nodes.spine@[j] == w.id);
        }
        crate::nodemap::lemma_index_of_unique(pre.nodes.spine@, w.id, j);
    } else {
        match first_holder_from(pre.nodes.items@, 0, target) {
            Some(k) => {
                lemma_first_holder_props(pre.nodes.items@, 0, target);
                assert(node_wf_in(pre.nodes.items@[k], pre.id));
                lemma_take_out(
                    pre.nodes.items@[k]->Container_0,
                    post.nodes.items@[k]->Container_0,
                    target,
                    w,
                    out,
                );
            },
            None => {},
        }
    }
}

/// A window taken out of a sound tree is itself sound.
pub proof fn lemma_taken_window_wf(
    pre: Container,
    post: Container,
    target: u32,
    op: TreeOp,
    out: OpOut,
)
    requires
        apply_steps(pre, post, target, op, out),
        pre.wf(),
        out is Win,
    ensures
        (out->Win_0).wf(),
    decreases pre,
{
    if pre.id == target {
        match op {
            TreeOp::TakeWindow { window } => {
                let i = pre.nodes.spine@.index_of(window);
                if pre.nodes.contains_id(window) && !(pre.nodes.items@[i] is Container) {
                    assert(node_wf_in(pre.nodes.items@[i], pre.id));
                }
            },
            _ => {},
        }
    } else {
        match first_holder_from(pre.nodes.items@, 0, target) {
            Some(k) => {
                lemma_first_holder_props(pre.nodes.items@, 0, target);
                assert(node_wf_in(pre.nodes.items@[k], pre.id));
                lemma_taken_window_wf(
                    pre.nodes.items@[k]->Container_0,
                    post.nodes.items@[k]->Container_0,
                    target,
                    op,
                    out,
                );
            },
            None => {},
        }
    }
}

/// Every operation leaves the target container's own id and parent alone.
pub proof fn lemma_local_rel_scalars(pre: Container, post: Container, op: TreeOp, out: OpOut)
    requires
        local_apply_rel(pre, post, op, out),
    ensures
        post.id == pre.id,
        post.parent == pre.parent,
{
}

impl Container {
    /// Perform an operation on this container itself.
    pub fn apply_local(&mut self, op: TreeOp) -> (out: OpOut)
        requires
            old(self).wf(),
            op_fresh(op, *old(self)),
        ensures
            final(self).wf(),
            local_apply_rel(*old(self), *final(self), op, out),
    {
        match op {
            TreeOp::Split { layout, new_id } => {
                proof {
                    if self.nodes.contains_id(new_id) {
                        lemma_contains_in_subtree(*self, new_id);
                    }
                }
                let my_id = self.id;
                let created = self.create_child(layout, new_id);
                OpOut::Split {
                    id: if created {
                        new_id
                    } else {
                        my_id
                    },
                    created,
                }
            },
            TreeOp::PushWindow { window } => {
                proof {
                    if self.nodes.contains_id(window.id) {
                        lemma_contains_in_subtree(*self, window.id);
                    }
                }
                let id = self.push_window(window);
                OpOut::Id(id)
            },
            TreeOp::CloseWindow => {
                match self.close_window() {
                    Some(i) => OpOut::Id(i),
                    None => OpOut::Nothing,
                }
            },
            TreeOp::SetFocus { window } => {
                self.set_focus(window);
                OpOut::Nothing
            },
            TreeOp::ToggleFloating => {
                match self.toggle_floating() {
                    Some(i) => OpOut::Id(i),
                    None => OpOut::Nothing,
                }
            },
            TreeOp::InsertAfter { target, window } => {
                proof {
                    if self.nodes.contains_id(window.id) {
                        lemma_contains_in_subtree(*self, window.id);
                    }
                }
                if self.insert_window_after(target, window) {
                    OpOut::Id(window.id)
                } else {
                    OpOut::Nothing
                }
            },
            TreeOp::InsertBefore { target, window } => {
                proof {
                    if self.nodes.contains_id(window.id) {
                        lemma_contains_in_subtree(*self, window.id);
                    }
                }
                if self.insert_window_before(target, window) {
                    OpOut::Id(window.id)
                } else {
                    OpOut::Nothing
                }
            },
            TreeOp::TakeWindow { window } => {
                match self.take_window(window) {
                    Some(w) => OpOut::Win(w),
                    None => OpOut::Nothing,
                }
            },
            TreeOp::RemoveChild { child } => {
                if self.remove_child(child) {
                    OpOut::Id(child)
                } else {
                    OpOut::Nothing
                }
            },
            TreeOp::MergeChild { child } => {
                if self.merge_child(child) {
                    OpOut::Id(child)
                } else {
                    OpOut::Nothing
                }
            },
            TreeOp::SetGeometry { loc, size } => {
                self.set_geometry(loc, size);
                OpOut::Nothing
            },
            TreeOp::SetWindowGeometry { window, loc, size } => {
                if self.set_window_geometry(window, loc, size) {
                    OpOut::Id(window)
                } else {
                    OpOut::Nothing
                }
            },
            TreeOp::ConfigureWindow { window, initial } => {
                if self.configure_window(window, initial) {
                    OpOut::Id(window)
                } else {
                    OpOut::Nothing
                }
            },
            TreeOp::MarkDead { window } => {
                if self.mark_window_dead(window) {
                    OpOut::Id(window)
                } else {
                    OpOut::Nothing
                }
            },
        }
    }

    /// Whether this subtree holds a container with the given id.
    pub fn contains_container_exec(&self, id: u32) -> (r: bool)
        ensures
            r == self.contains_container(id),
        decreases self.height(),
    {
        if self.id == id {
            return true;
        }
        let mut i: usize = 0;
        while i < self.nodes.items.len()
            invariant
                i <= self.nodes.items@.len(),
                forall|k: int|
                    0 <= k < i ==> !((#[trigger] self.nodes.items@[k]) is Container
                        && (self.nodes.items@[k]->Container_0).contains_container(id)),
            decreases self.nodes.items@.len() - i,
        {
            match &self.nodes.items[i] {
                Node::Container(c) => {
                    proof {
                        lemma_child_height(*self, i as int);
                    }
                    if c.contains_container_exec(id) {
                        return true;
                    }
                },
                Node::Window(_) => {},
            }
            i = i + 1;
        }
        false
    }

    /// Whether any node of this subtree carries the given id.
    pub fn subtree_has_id_exec(&self, id: u32) -> (r: bool)
        requires
            self.wf(),
        ensures
            r == self.subtree_has_id(id),
        decreases self.height(),
    {
        if self.id == id {
            return true;
        }
        if self.nodes.contains(id) {
            proof {
                let k = choose|k: int|
                    0 <= k < self.nodes.spine@.len() && self.nodes.spine@[k] == id;
                assert(self.nodes.items@[k].id_spec() == id);
            }
            return true;
        }
        let mut i: usize = 0;
        while i < self.nodes.items.len()
            invariant
                self.wf(),
                self.id != id,
                !self.nodes.contains_id(id),
                i <= self.nodes.items@.len(),
                forall|k: int|
                    0 <= k < i ==> !((#[trigger] self.nodes.items@[k]) is Container
                        && (self.nodes.items@[k]->Container_0).subtree_has_id(id)),
            decreases self.nodes.items@.len() - i,
        {
            match &self.nodes.items[i] {
                Node::Container(c) => {
                    proof {
                        lemma_child_height(*self, i as int);
                        assert(node_wf_in(self.nodes.items@[i as int], self.id));
                    }
                    if c.subtree_has_id_exec(id) {
                        return true;
                    }
                },
                Node::Window(_) => {},
            }
            i = i + 1;
        }
        proof {
            assert(!self.subtree_has_id(id)) by {
                if self.subtree_has_id(id) {
                    if exists|k: int|
                        0 <= k < self.nodes.items@.len() && (#[trigger] self.nodes.items@[k]).id_spec()
                            == id {
                        let k = choose|k: int|
                            0 <= k < self.nodes.items@.len() && (
                            #[trigger] self.nodes.items@[k]).id_spec() == id;
                        assert(self.nodes.spine@[k] == id);
                        assert(self.nodes.spine@.contains(id));
                    }
                }
            }
        }
        false
    }

    /// Carry an operation to the container with id `target`, found by
    /// depth-first search from here, and perform it there.  Answers `None`
    /// and changes nothing when no such container exists — a lookup miss
    /// never mutates state.
    pub fn apply_at(&mut self, target: u32, op: TreeOp) -> (r: Option<OpOut>)
        requires
            old(self).wf(),
            op_fresh(op, *old(self)),
        ensures
            final(self).wf(),
            r is Some <==> old(self).contains_container(target),
            r is None ==> *final(self) == *old(self),
            r matches Some(out) ==> apply_steps(*old(self), *final(self), target, op, out),
            final(self).id == old(self).id,
            final(self).parent == old(self).parent,
        decreases old(self).height(),
    {
        if self.id == target {
            let ghost pre = *self;
            let out = self.apply_local(op);
            proof {
                lemma_local_rel_scalars(pre, *self, op, out);
            }
            return Some(out);
        }
        let ghost pre = *self;
        let mut i: usize = 0;
        while i < self.nodes.items.len()
            invariant
                pre.wf(),
                op_fresh(op, pre),
                pre.id != target,
                pre == *self,
                pre == *old(self),
                i <= pre.nodes.items@.len(),
                first_holder_from(pre.nodes.items@, 0, target) == first_holder_from(
                    pre.nodes.items@,
                    i as int,
                    target,
                ),
            decreases pre.nodes.items@.len() - i,
        {
            let has = match &self.nodes.items[i] {
                Node::Container(c) => c.contains_container_exec(target),
                Node::Window(_) => false,
            };
            if has {
                proof {
                    assert(node_wf_in(pre.nodes.items@[i as int], pre.id));
                    lemma_first_holder_props(pre.nodes.items@, 0, target);
                    assert(first_holder_from(pre.nodes.items@, i as int, target) == Some(
                        i as int,
                    ));
                }
                let found: Option<OpOut>;
                match &mut self.nodes.items[i] {
                    Node::Window(_) => {
                        proof {
                            assert(false);
                        }
                        found = None;
                    },
                    Node::Container(c) => {
                        proof {
                            lemma_child_height(pre, i as int);
                            lemma_op_fresh_child(pre, i as int, op);
                        }
                        found = c.apply_at(target, op);
                    },
                }
                match found {
                    Some(out) => {
                        proof {
                            let cc = pre.nodes.items@[i as int]->Container_0;
                            assert(pre.contains_container(target)) by {
                                assert((#[trigger] pre.nodes.items@[i as int]) is Container
                                    && cc.contains_container(target));
                            }
                            assert(node_wf_in(self.nodes.items@[i as int], self.id)) by {
                                assert(self.nodes.items@[i as int] is Container);
                                assert((self.nodes.items@[i as int]->Container_0).wf());
                                assert((self.nodes.items@[i as int]->Container_0).parent
                                    == cc.parent);
                            }
                            lemma_wf_child_replaced(pre, *self, i as int);
                            assert(self.nodes.spine@ == pre.nodes.spine@);
                            assert(self.nodes.focus == pre.nodes.focus);
                            assert(first_holder_from(pre.nodes.items@, 0, target) == Some(
                                i as int,
                            ));
                            assert(apply_steps(
                                pre.nodes.items@[i as int]->Container_0,
                                self.nodes.items@[i as int]->Container_0,
                                target,
                                op,
                                out,
                            ));
                            assert(apply_steps(pre, *self, target, op, out));
                        }
                        return Some(out);
                    },
                    None => {
                        proof {
                            assert(false);
                        }
                        return None;
                    },
                }
            }
            proof {
                assert(first_holder_from(pre.nodes.items@, i as int, target)
                    == first_holder_from(pre.nodes.items@, i as int + 1, target));
            }
            i = i + 1;
        }
        proof {
            assert(!pre.contains_container(target)) by {
                if pre.contains_container(target) {
                    let k = choose|k: int|
                        0 <= k < pre.nodes.items@.len() && (#[trigger] pre.nodes.items@[k])
                            is Container && (pre.nodes.items@[k]->Container_0).contains_container(
                            target,
                        );
                    lemma_first_holder_props(pre.nodes.items@, 0, target);
                    assert(first_holder_from(pre.nodes.items@, 0, target) is Some);
                }
            }
        }
        None
    }
}

/// A snapshot of one container's plain facts, handed out by [`Container::query`].
#[derive(Clone, Copy, PartialEq, Eq, Structural, Debug)]
pub struct ContainerInfo {
    pub id: u32,
    pub loc: Point,
    pub size: Size,
    pub parent: Option<u32>,
    pub layout: ContainerLayout,
    pub state: ContainerState,
    pub focused_window: Option<WindowWrap>,
    pub child_count: usize,
}

pub open spec fn info_of(c: Container) -> ContainerInfo {
    ContainerInfo {
        id: c.id,
        loc: c.loc,
        size: c.size,
        parent: c.parent,
        layout: c.layout,
        state: c.state_spec(),
        focused_window: c.focused_window_spec(),
        child_count: c.nodes.items@.len() as usize,
    }
}

/// The container id that directly holds the child with id `wid`, searching
/// the children of `s` from position `k` on.
pub open spec fn holder_child_from(s: Seq<Node>, k: int, wid: u32) -> Option<u32>
    decreases s, (if k < s.len() { s.len() - k } else { 0 }),
{
    if !(0 <= k < s.len()) {
        None
    } else {
        match s[k] {
            Node::Container(cc) => match cc.window_holder_spec(wid) {
                Some(h) => Some(h),
                None => holder_child_from(s, k + 1, wid),
            },
            Node::Window(_) => holder_child_from(s, k + 1, wid),
        }
    }
}

/// All windows of the subtree under the children of `s`, from position
/// `k` on, each container's windows in subtree order.
pub open spec fn deep_windows_from(s: Seq<Node>, k: int) -> Seq<WindowWrap>
    decreases s, (if k < s.len() { s.len() - k } else { 0 }),
{
    if !(0 <= k < s.len()) {
        Seq::empty()
    } else {
        match s[k] {
            Node::Container(cc) => cc.all_windows() + deep_windows_from(s, k + 1),
            Node::Window(_) => deep_windows_from(s, k + 1),
        }
    }
}

impl Container {
    /// The id of the container whose node map directly holds the id
    /// `wid`, found depth-first; `None` when no container holds it.
    pub open spec fn window_holder_spec(self, wid: u32) -> Option<u32>
        decreases self, 0int,
    {
        if self.nodes.contains_id(wid) {
            Some(self.id)
        } else {
            holder_child_from(self.nodes.items@, 0, wid)
        }
    }

    /// Every window handle of this subtree: the direct windows first, in
    /// arrangement order, then each sub-container's windows in turn.
    pub open spec fn all_windows(self) -> Seq<WindowWrap>
        decreases self, 0int,
    {
        crate::nodemap::windows_of(self.nodes.items@) + deep_windows_from(self.nodes.items@, 0)
    }

    /// The facts of the container with id `target`, found depth-first.
    pub open spec fn query_spec(self, target: u32) -> Option<ContainerInfo>
        decreases self via Container::query_spec_dec
    {
        if self.id == target {
            Some(info_of(self))
        } else {
            match first_holder_from(self.nodes.items@, 0, target) {
                Some(k) => (self.nodes.items@[k]->Container_0).query_spec(target),
                None => None,
            }
        }
    }

    #[via_fn]
    proof fn query_spec_dec(self, target: u32) {
        lemma_first_holder_props(self.nodes.items@, 0, target);
    }

    /// Read the facts of the container with id `target`.
    pub fn query(&self, target: u32) -> (r: Option<ContainerInfo>)
        requires
            self.wf(),
        ensures
            r == self.query_spec(target),
            r is Some <==> self.contains_container(target),
        decreases self.height(),
    {
        if self.id == target {
            return Some(
                ContainerInfo {
                    id: self.id,
                    loc: self.loc,
                    size: self.size,
                    parent: self.parent,
                    layout: self.layout,
                    state: self.state(),
                    focused_window: self.get_focused_window(),
                    child_count: self.nodes.len(),
                },
            );
        }
        let mut i: usize = 0;
        while i < self.nodes.items.len()
            invariant
                self.wf(),
                self.id != target,
                i <= self.nodes.items@.len(),
                first_holder_from(self.nodes.items@, 0, target) == first_holder_from(
                    self.nodes.items@,
                    i as int,
                    target,
                ),
            decreases self.nodes.items@.len() - i,
        {
            match &self.nodes.items[i] {
                Node::Container(c) => {
                    proof {
                        lemma_child_height(*self, i as int);
                        assert(node_wf_in(self.nodes.items@[i as int], self.id));
                    }
                    let sub = c.query(target);
                    match sub {
                        Some(info) => {
                            proof {
                                lemma_first_holder_props(self.nodes.items@, 0, target);
                                assert(first_holder_from(self.nodes.items@, i as int, target)
                                    == Some(i as int));
                                assert(self.contains_container(target)) by {
                                    assert((#[trigger] self.nodes.items@[i as int]) is Container
                                        && (self.nodes.items@[i as int]->Container_0)
                                        .contains_container(target));
                                }
                            }
                            return Some(info);
                        },
                        None => {
                            proof {
                                assert(first_holder_from(self.nodes.items@, i as int, target)
                                    == first_holder_from(
                                    self.nodes.items@,
                                    i as int + 1,
                                    target,
                                ));
                            }
                        },
                    }
                },
                Node::Window(_) => {
                    proof {
                        assert(first_holder_from(self.nodes.items@, i as int, target)
                            == first_holder_from(self.nodes.items@, i as int + 1, target));
                    }
                },
            }
            i = i + 1;
        }
        proof {
            assert(!self.contains_container(target)) by {
                if self.contains_container(target) {
                    let k = choose|k: int|
                        0 <= k < self.nodes.items@.len() && (#[trigger] self.nodes.items@[k])
                            is Container && (self.nodes.items@[k]->Container_0).contains_container(
                            target,
                        );
                    lemma_first_holder_props(self.nodes.items@, 0, target);
                }
            }
        }
        None
    }

    /// Find which container directly holds the child with id `wid`.
    pub fn find_window_holder(&self, wid: u32) -> (r: Option<u32>)
        requires
            self.wf(),
        ensures
            r == self.window_holder_spec(wid),
        decreases self.height(),
    {
        if self.nodes.contains(wid) {
            return Some(self.id);
        }
        let mut i: usize = 0;
        while i < self.nodes.items.len()
            invariant
                self.wf(),
                !self.nodes.contains_id(wid),
                i <= self.nodes.items@.len(),
                holder_child_from(self.nodes.items@, 0, wid) == holder_child_from(
                    self.nodes.items@,
                    i as int,
                    wid,
                ),
            decreases self.nodes.items@.len() - i,
        {
            match &self.nodes.items[i] {
                Node::Container(c) => {
                    proof {
                        lemma_child_height(*self, i as int);
                        assert(node_wf_in(self.nodes.items@[i as int], self.id));
                    }
                    let sub = c.find_window_holder(wid);
                    match sub {
                        Some(h) => {
                            return Some(h);
                        },
                        None => {},
                    }
                },
                Node::Window(_) => {},
            }
            i = i + 1;
        }
        None
    }

    /// Collect every window of this subtree, for the render layer to map.
    pub fn flatten_window(&self) -> (r: Vec<WindowWrap>)
        requires
            self.wf(),
        ensures
            r@ == self.all_windows(),
        decreases self.height(),
    {
        let mut out = self.nodes.iter_windows();
        let mut i: usize = 0;
        while i < self.nodes.items.len()
            invariant
                self.wf(),
                i <= self.nodes.items@.len(),
                out@ + deep_windows_from(self.nodes.items@, i as int) == self.all_windows(),
            decreases self.nodes.items@.len() - i,
        {
            match &self.nodes.items[i] {
                Node::Container(c) => {
                    proof {
                        lemma_child_height(*self, i as int);
                        assert(node_wf_in(self.nodes.items@[i as int], self.id));
                    }
                    let mut sub = c.flatten_window();
                    proof {
                        assert((out@ + sub@) + deep_windows_from(
                            self.nodes.items@,
                            i as int + 1,
                        ) =~= out@ + (sub@ + deep_windows_from(self.nodes.items@, i as int + 1)));
                    }
                    out.append(&mut sub);
                },
                Node::Window(_) => {},
            }
            i = i + 1;
        }
        proof {
            assert(out@ + deep_windows_from(self.nodes.items@, i as int) =~= out@);
        }
        out
    }
}

} // verus!
