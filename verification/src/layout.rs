//! The layout pass: from a container's rectangle to a rectangle for every
//! node below it.
//!
//! A redraw first normalizes the tree — dead windows are swept out and
//! pass-through containers holding no windows are dissolved into their
//! parent — and then assigns geometry: each container divides its length
//! along its layout axis into uniform slots, one per sub-container or
//! non-floating window, separated by the configured gap; floating windows
//! take no slot and are centered on the output instead.

use vstd::prelude::*;

use crate::container::{
    lemma_child_height, lemma_max_height_update_same, lemma_wf_child_replaced, node_height,
    node_wf_in, Container, ContainerLayout,
};
use crate::geometry::{clamp_coord_spec, point_ok, size_ok, Point, Size, MAX_EXTENT, MAX_GAP};
use crate::node::Node;
use crate::nodemap::{count_tiled, is_tiled, lemma_take_step};
use crate::window::WindowWrap;

verus! {

/// The length of one tiling slot along the layout axis: the container's
/// length, less one gap per boundary, divided evenly; a lone slot takes
/// the whole length.  A container too small for its gaps yields slots of
/// length zero rather than negative ones.
pub open spec fn slot_len(total: i32, gap: u32, n: nat) -> i32 {
    if n <= 1 {
        total
    } else {
        let tg = (gap as int) * (n - 1);
        if total <= tg {
            0
        } else {
            (((total - tg) / (n as int))) as i32
        }
    }
}

/// The size of each tiling slot of a container of size `size` with layout
/// `layout` and `n` tiled children.
pub open spec fn child_size_of(size: Size, layout: ContainerLayout, gap: u32, n: nat) -> Size {
    if n <= 1 {
        size
    } else {
        match layout {
            ContainerLayout::Horizontal => Size { w: slot_len(size.w, gap, n), h: size.h },
            ContainerLayout::Vertical => Size { w: size.w, h: slot_len(size.h, gap, n) },
        }
    }
}

/// Where tiling slot `k` of a container at `loc` sits: slot 0 at the
/// container's own corner, each further slot offset by the slot length
/// plus one gap along the layout axis.
pub open spec fn slot_loc_of(
    loc: Point,
    child: Size,
    layout: ContainerLayout,
    gap: u32,
    k: nat,
) -> Point {
    if k == 0 {
        loc
    } else {
        match layout {
            ContainerLayout::Horizontal => Point {
                x: clamp_coord_spec(loc.x + (child.w + gap) * k),
                y: loc.y,
            },
            ContainerLayout::Vertical => Point {
                x: loc.x,
                y: clamp_coord_spec(loc.y + (child.h + gap) * k),
            },
        }
    }
}

/// Slot offsets stay far inside the 128-bit range.
pub proof fn lemma_offset_bounded(step: i128, k: i128)
    requires
        0 <= step <= 0x2_00_0000,
        0 <= k <= 0x1_0000_0000_0000_0000i128,
    ensures
        0 <= step * k <= 0x2_0000_0000_0000_0000_0000_0000i128,
{
    assert(0 <= step * k <= 0x2_0000_0000_0000_0000_0000_0000i128) by (nonlinear_arith)
        requires
            0 <= step <= 0x2_00_0000,
            0 <= k <= 0x1_0000_0000_0000_0000i128,
    ;
}

pub fn slot_len_exec(total: i32, gap: u32, n: usize) -> (r: i32)
    requires
        0 <= total <= MAX_EXTENT,
        gap <= MAX_GAP,
    ensures
        r == slot_len(total, gap, n as nat),
        0 <= r <= total,
{
    if n <= 1 {
        return total;
    }
    proof {
        assert((gap as i128) * ((n - 1) as i128) <= 0x2_0000_0000_0000_0000_0000i128)
            by (nonlinear_arith)
            requires
                0 <= gap as i128 <= 0x1_0000,
                0 <= (n - 1) as i128 <= 0x1_0000_0000_0000_0000i128,
        ;
    }
    let tg: i128 = (gap as i128) * ((n - 1) as i128);
    if (total as i128) <= tg {
        0
    } else {
        let num: i128 = (total as i128) - tg;
        let q: i128 = num / (n as i128);
        proof {
            assert(0 < num <= total);
            assert(0 <= num / (n as i128) <= num) by (nonlinear_arith)
                requires
                    0 < num,
                    2 <= n as i128,
            ;
        }
        q as i32
    }
}

pub fn slot_loc_exec(loc: Point, child: Size, layout: ContainerLayout, gap: u32, k: usize) -> (r:
    Point)
    requires
        point_ok(loc),
        size_ok(child),
        gap <= MAX_GAP,
    ensures
        r == slot_loc_of(loc, child, layout, gap, k as nat),
        point_ok(r),
{
    if k == 0 {
        return loc;
    }
    match layout {
        ContainerLayout::Horizontal => {
            proof {
                lemma_offset_bounded(((child.w as i128) + (gap as i128)) as i128, k as i128);
            }
            let off: i128 = ((child.w as i128) + (gap as i128)) * (k as i128);
            let x = crate::geometry::clamp_coord((loc.x as i128) + off);
            Point { x, y: loc.y }
        },
        ContainerLayout::Vertical => {
            proof {
                lemma_offset_bounded(((child.h as i128) + (gap as i128)) as i128, k as i128);
            }
            let off: i128 = ((child.h as i128) + (gap as i128)) * (k as i128);
            let y = crate::geometry::clamp_coord((loc.y as i128) + off);
            Point { x: loc.x, y }
        },
    }
}

/// The window at child position `k`, as the layout pass leaves it.  A
/// floating window is centered on the output at its preferred size (once
/// configured); a tiled window fills tiling slot number `slot`.  Either
/// way its activation flag says whether it is its container's focused
/// entry.
pub open spec fn arranged_window(
    w: WindowWrap,
    activate: bool,
    loc: Point,
    child: Size,
    layout: ContainerLayout,
    gap: u32,
    output: Size,
    slot: nat,
) -> WindowWrap {
    if w.floating {
        WindowWrap { activated: activate, ..w.floated(output) }
    } else {
        WindowWrap {
            activated: activate,
            ..w.with_geometry(Some(child), slot_loc_of(loc, child, layout, gap, slot))
        }
    }
}

/// Child `k` of `pre` as the geometry pass leaves it, where `cur` is the
/// child list afterwards.
pub open spec fn arranged_at(
    pre: Container,
    cur: Seq<Node>,
    k: int,
    loc: Point,
    size: Size,
    gap: u32,
    output: Size,
) -> bool
    decreases pre, 0int,
{
    if !(0 <= k < pre.nodes.items@.len()) {
        true
    } else {
        let cs = child_size_of(size, pre.layout, gap, count_tiled(pre.nodes.items@));
        match pre.nodes.items@[k] {
            Node::Window(w) => cur[k] == Node::Window(
                arranged_window(
                    w,
                    pre.nodes.focus == Some(k as usize),
                    loc,
                    cs,
                    pre.layout,
                    gap,
                    output,
                    count_tiled(pre.nodes.items@.take(k)),
                ),
            ),
            Node::Container(cc) => cur[k] is Container && arrange_rel(
                cc,
                cur[k]->Container_0,
                slot_loc_of(loc, cs, pre.layout, gap, count_tiled(pre.nodes.items@.take(k))),
                cs,
                gap,
                output,
            ),
        }
    }
}

/// What the geometry pass does, given the space `loc`/`size` its caller
/// assigned: the container takes that space, its structure is untouched,
/// every tiled child in arrangement order takes the next uniform slot —
/// sub-containers recursively — and every floating window is centered on
/// the output.
pub open spec fn arrange_rel(
    pre: Container,
    post: Container,
    loc: Point,
    size: Size,
    gap: u32,
    output: Size,
) -> bool
    decreases pre, 1int,
{
    &&& post.id == pre.id
    &&& post.parent == pre.parent
    &&& post.layout == pre.layout
    &&& post.loc == loc
    &&& post.size == size
    &&& post.nodes.spine@ == pre.nodes.spine@
    &&& post.nodes.focus == pre.nodes.focus
    &&& post.nodes.items@.len() == pre.nodes.items@.len()
    &&& forall|k: int|
        #![trigger pre.nodes.items@[k]]
        0 <= k < pre.nodes.items@.len() ==> arranged_at(
            pre,
            post.nodes.items@,
            k,
            loc,
            size,
            gap,
            output,
        )
}

/// A pass-through child: a container holding no windows of its own (only
/// sub-containers, or nothing).  Orphans are dissolved into their parent
/// by the normalization pass.
pub open spec fn is_orphan(n: Node) -> bool {
    n matches Node::Container(c) && !c.has_windows_spec()
}

/// No window anywhere below is dead.
pub open spec fn no_dead(c: Container) -> bool
    decreases c,
{
    forall|k: int|
        #![trigger c.nodes.items@[k]]
        0 <= k < c.nodes.items@.len() ==> match c.nodes.items@[k] {
            Node::Window(w) => w.alive,
            Node::Container(cc) => no_dead(cc),
        }
}

/// No container anywhere below is a pass-through orphan.
pub open spec fn orphan_free(c: Container) -> bool
    decreases c,
{
    forall|k: int|
        #![trigger c.nodes.items@[k]]
        0 <= k < c.nodes.items@.len() ==> match c.nodes.items@[k] {
            Node::Window(_) => true,
            Node::Container(cc) => cc.has_windows_spec() && orphan_free(cc),
        }
}

/// The children that stay in place when orphans are dissolved.
pub open spec fn kept_after_lift(s: Seq<Node>) -> Seq<Node>
    decreases s.len(),
{
    if s.len() == 0 {
        Seq::empty()
    } else {
        kept_after_lift(s.drop_last()) + if is_orphan(s.last()) {
            Seq::empty()
        } else {
            seq![s.last()]
        }
    }
}

/// The grandchildren the orphans hand up, reparented to `pid`, in order.
pub open spec fn lifted_from(s: Seq<Node>, pid: u32) -> Seq<Node>
    decreases s.len(),
{
    if s.len() == 0 {
        Seq::empty()
    } else {
        lifted_from(s.drop_last(), pid) + if is_orphan(s.last()) {
            crate::container::reparent_nodes((s.last()->Container_0).nodes.items@, pid)
        } else {
            Seq::empty()
        }
    }
}

/// The ids the orphans hand up.
pub open spec fn adopted_ids(s: Seq<Node>) -> Seq<u32>
    decreases s.len(),
{
    if s.len() == 0 {
        Seq::empty()
    } else {
        adopted_ids(s.drop_last()) + if is_orphan(s.last()) {
            (s.last()->Container_0).nodes.spine@
        } else {
            Seq::empty()
        }
    }
}

/// Orphans can be dissolved only when the ids they hand up are mutually
/// distinct and fresh at this level; ids from one allocator always are.
pub open spec fn liftable(s: Seq<Node>) -> bool {
    &&& adopted_ids(s).no_duplicates()
    &&& forall|g: int|
        0 <= g < adopted_ids(s).len() ==> !crate::nodemap::node_ids(s).contains(
            #[trigger] adopted_ids(s)[g],
        )
}

/// Where the focus lands after the lift: the focused window keeps it at
/// its renumbered position.
pub open spec fn lift_focus(s: Seq<Node>, f: Option<usize>) -> Option<usize> {
    match f {
        None => None,
        Some(j) => Some(kept_after_lift(s.take(j as int)).len() as usize),
    }
}

/// Extending the prefix by one node extends the lift bookkeeping by that
/// node's contribution.
pub proof fn lemma_lift_take_step(s: Seq<Node>, i: int, pid: u32)
    requires
        0 <= i < s.len(),
    ensures
        kept_after_lift(s.take(i + 1)) == kept_after_lift(s.take(i)) + if is_orphan(s[i]) {
            Seq::<Node>::empty()
        } else {
            seq![s[i]]
        },
        lifted_from(s.take(i + 1), pid) == lifted_from(s.take(i), pid) + if is_orphan(s[i]) {
            crate::container::reparent_nodes((s[i]->Container_0).nodes.items@, pid)
        } else {
            Seq::<Node>::empty()
        },
        adopted_ids(s.take(i + 1)) == adopted_ids(s.take(i)) + if is_orphan(s[i]) {
            (s[i]->Container_0).nodes.spine@
        } else {
            Seq::<u32>::empty()
        },
{
    assert(s.take(i + 1).drop_last() =~= s.take(i));
    assert(s.take(i + 1).last() == s[i]);
}

/// What the sweep-and-lift step of normalization does at one level: dead
/// windows leave (the focus falling back as [`focus_after_sweep`] says),
/// then every orphan dissolves, its children adopted at the end of the
/// order — provided the adopted ids are clean; otherwise the orphans
/// stay put for this pass.
pub open spec fn sweep_lift_rel(m: Container, post: Container) -> bool {
    let sw = crate::nodemap::live_nodes_of(m.nodes.items@);
    let f1 = crate::nodemap::focus_after_sweep(m.nodes.items@, m.nodes.focus);
    &&& post.id == m.id
    &&& post.loc == m.loc
    &&& post.size == m.size
    &&& post.parent == m.parent
    &&& post.layout == m.layout
    &&& if liftable(sw) {
        &&& post.nodes.items@ == kept_after_lift(sw) + lifted_from(sw, m.id)
        &&& post.nodes.spine@ == crate::nodemap::node_ids(post.nodes.items@)
        &&& post.nodes.focus == lift_focus(sw, f1)
    } else {
        &&& post.nodes.items@ == sw
        &&& post.nodes.spine@ == crate::nodemap::node_ids(sw)
        &&& post.nodes.focus == f1
    }
}

/// The first phase of normalization: every sub-container normalized in
/// place, windows untouched.
pub open spec fn children_normalized(pre: Container, mid: Container) -> bool
    decreases pre, 0int,
{
    &&& mid.id == pre.id
    &&& mid.loc == pre.loc
    &&& mid.size == pre.size
    &&& mid.parent == pre.parent
    &&& mid.layout == pre.layout
    &&& mid.nodes.spine@ == pre.nodes.spine@
    &&& mid.nodes.focus == pre.nodes.focus
    &&& mid.nodes.items@.len() == pre.nodes.items@.len()
    &&& forall|k: int|
        #![trigger pre.nodes.items@[k]]
        0 <= k < pre.nodes.items@.len() ==> match pre.nodes.items@[k] {
            Node::Window(w) => mid.nodes.items@[k] == Node::Window(w),
            Node::Container(cc) => mid.nodes.items@[k] is Container && normalize_rel(
                cc,
                mid.nodes.items@[k]->Container_0,
            ),
        }
}

/// What normalization does: children first, then this level's sweep and
/// lift.
pub open spec fn normalize_rel(pre: Container, post: Container) -> bool
    decreases pre, 1int,
{
    exists|mid: Container| #[trigger]
        children_normalized_marker(mid) && children_normalized(pre, mid) && sweep_lift_rel(
            mid,
            post,
        )
}

/// A bare marker giving the existential in [`normalize_rel`] a stable
/// trigger.
pub open spec fn children_normalized_marker(mid: Container) -> bool {
    true
}

/// As windows are filtered for the lift bookkeeping, ids only disappear.
pub proof fn lemma_kept_ids(s: Seq<Node>)
    ensures
        forall|x: u32|
            crate::nodemap::node_ids(kept_after_lift(s)).contains(x)
                ==> crate::nodemap::node_ids(s).contains(x),
        crate::nodemap::node_ids(s).no_duplicates() ==> crate::nodemap::node_ids(
            kept_after_lift(s),
        ).no_duplicates(),
    decreases s.len(),
{
    let ids = |t: Seq<Node>| crate::nodemap::node_ids(t);
    if s.len() > 0 {
        lemma_kept_ids(s.drop_last());
        assert(crate::nodemap::node_ids(s.drop_last()) =~= crate::nodemap::node_ids(
            s,
        ).drop_last());
        assert forall|x: u32|
            crate::nodemap::node_ids(s.drop_last()).contains(x) implies crate::nodemap::node_ids(
            s,
        ).contains(x) by {
            let k = choose|k: int|
                0 <= k < crate::nodemap::node_ids(s.drop_last()).len()
                    && crate::nodemap::node_ids(s.drop_last())[k] == x;
            assert(crate::nodemap::node_ids(s)[k] == x);
        }
        if !is_orphan(s.last()) {
            assert(crate::nodemap::node_ids(kept_after_lift(s)) =~= crate::nodemap::node_ids(
                kept_after_lift(s.drop_last()),
            ).push(s.last().id_spec()));
            assert forall|x: u32|
                crate::nodemap::node_ids(kept_after_lift(s)).contains(
                    x,
                ) implies crate::nodemap::node_ids(s).contains(x) by {
                let ws = crate::nodemap::node_ids(kept_after_lift(s));
                let k = choose|k: int| 0 <= k < ws.len() && ws[k] == x;
                if k < ws.len() - 1 {
                    assert(crate::nodemap::node_ids(kept_after_lift(s.drop_last()))[k] == x);
                    assert(crate::nodemap::node_ids(kept_after_lift(s.drop_last())).contains(x));
                } else {
                    assert(crate::nodemap::node_ids(s)[s.len() - 1] == x);
                }
            }
            if crate::nodemap::node_ids(s).no_duplicates() {
                assert(crate::nodemap::node_ids(s).drop_last().no_duplicates());
                assert(!crate::nodemap::node_ids(s).drop_last().contains(s.last().id_spec()))
                    by {
                    if crate::nodemap::node_ids(s).drop_last().contains(s.last().id_spec()) {
                        let k = choose|k: int|
                            0 <= k < crate::nodemap::node_ids(s).drop_last().len()
                                && crate::nodemap::node_ids(s).drop_last()[k] == s.last().id_spec();
                        assert(crate::nodemap::node_ids(s)[k] == crate::nodemap::node_ids(
                            s,
                        )[s.len() - 1]);
                    }
                }
            }
        } else {
            assert(crate::nodemap::node_ids(kept_after_lift(s)) =~= crate::nodemap::node_ids(
                kept_after_lift(s.drop_last()),
            ));
            assert forall|x: u32|
                crate::nodemap::node_ids(kept_after_lift(s)).contains(
                    x,
                ) implies crate::nodemap::node_ids(s).contains(x) by {
                assert(crate::nodemap::node_ids(kept_after_lift(s.drop_last())).contains(x));
            }
        }
    }
}

/// Two duplicate-free id sequences with nothing in common concatenate to
/// a duplicate-free sequence.
pub proof fn lemma_concat_no_dup(a: Seq<u32>, b: Seq<u32>)
    requires
        a.no_duplicates(),
        b.no_duplicates(),
        forall|x: u32| b.contains(x) ==> !a.contains(x),
    ensures
        (a + b).no_duplicates(),
{
    let c = a + b;
    assert forall|i: int, j: int| 0 <= i < j < c.len() implies c[i] != c[j] by {
        if i < a.len() && j >= a.len() {
            assert(c[i] == a[i]);
            assert(c[j] == b[j - a.len()]);
            assert(b.contains(b[j - a.len()]));
            assert(a.contains(a[i]));
        } else if i >= a.len() {
            assert(c[i] == b[i - a.len()] && c[j] == b[j - a.len()]);
        } else {
            assert(c[i] == a[i] && c[j] == a[j]);
        }
    }
}

/// Everything the lift keeps in place is one of the nodes it was given.
pub proof fn lemma_kept_elements(s: Seq<Node>)
    ensures
        forall|k: int|
            0 <= k < kept_after_lift(s).len() ==> exists|j: int|
                0 <= j < s.len() && s[j] == #[trigger] kept_after_lift(s)[k],
    decreases s.len(),
{
    if s.len() > 0 {
        lemma_kept_elements(s.drop_last());
        assert forall|k: int|
            0 <= k < kept_after_lift(s).len() implies exists|j: int|
            0 <= j < s.len() && s[j] == #[trigger] kept_after_lift(s)[k] by {
            let kp = kept_after_lift(s);
            let kd = kept_after_lift(s.drop_last());
            if k < kd.len() {
                assert(kd[k] == kp[k]);
                let j = choose|j: int| 0 <= j < s.drop_last().len() && s.drop_last()[j] == kd[k];
                assert(s[j] == kp[k]);
            } else {
                assert(s[s.len() - 1] == kp[k]);
            }
        }
    }
}

/// Everything the lift hands up is a reparented child of one of the
/// orphans it was given.
pub proof fn lemma_lifted_elements(s: Seq<Node>, pid: u32)
    ensures
        forall|k: int|
            0 <= k < lifted_from(s, pid).len() ==> exists|j: int, m: int|
                0 <= j < s.len() && s[j] is Container && 0 <= m < (
                s[j]->Container_0).nodes.items@.len() && #[trigger] lifted_from(s, pid)[k]
                    == crate::container::reparent_node((s[j]->Container_0).nodes.items@[m], pid),
    decreases s.len(),
{
    if s.len() > 0 {
        lemma_lifted_elements(s.drop_last(), pid);
        assert forall|k: int|
            0 <= k < lifted_from(s, pid).len() implies exists|j: int, m: int|
            0 <= j < s.len() && s[j] is Container && 0 <= m < (
            s[j]->Container_0).nodes.items@.len() && #[trigger] lifted_from(s, pid)[k]
                == crate::container::reparent_node((s[j]->Container_0).nodes.items@[m], pid) by {
            let lp = lifted_from(s, pid);
            let ld = lifted_from(s.drop_last(), pid);
            if k < ld.len() {
                assert(ld[k] == lp[k]);
                let (j, m) = choose|j: int, m: int|
                    0 <= j < s.drop_last().len() && s.drop_last()[j] is Container && 0 <= m < (
                    s.drop_last()[j]->Container_0).nodes.items@.len() && ld[k]
                        == crate::container::reparent_node(
                        (s.drop_last()[j]->Container_0).nodes.items@[m],
                        pid,
                    );
                assert(s[j] == s.drop_last()[j]);
                assert(lp[k] == crate::container::reparent_node(
                    (s[j]->Container_0).nodes.items@[m],
                    pid,
                ));
            } else {
                let cc = s.last()->Container_0;
                let m = k - ld.len();
                assert(lp[k] == crate::container::reparent_nodes(cc.nodes.items@, pid)[m]);
                assert(s[s.len() - 1] is Container);
                assert(lp[k] == crate::container::reparent_node(
                    (s[s.len() - 1]->Container_0).nodes.items@[m],
                    pid,
                ));
            }
        }
    }
}

/// Every survivor of a sweep is alive.
pub proof fn lemma_live_elements_live(s: Seq<Node>)
    ensures
        forall|k: int|
            0 <= k < crate::nodemap::live_nodes_of(s).len() ==> crate::nodemap::is_live(
                #[trigger] crate::nodemap::live_nodes_of(s)[k],
            ),
    decreases s.len(),
{
    if s.len() > 0 {
        lemma_live_elements_live(s.drop_last());
        assert forall|k: int|
            0 <= k < crate::nodemap::live_nodes_of(s).len() implies crate::nodemap::is_live(
            #[trigger] crate::nodemap::live_nodes_of(s)[k],
        ) by {
            let lv = crate::nodemap::live_nodes_of(s);
            let ld = crate::nodemap::live_nodes_of(s.drop_last());
            if k < ld.len() {
                assert(lv[k] == ld[k]);
            } else {
                assert(lv[k] == s.last());
            }
        }
    }
}

/// Normalization leaves no dead window anywhere: each level sweeps its
/// own windows after its children have swept theirs, and the lift only
/// moves already-swept nodes.
pub proof fn lemma_normalize_no_dead(pre: Container, post: Container)
    requires
        pre.wf(),
        normalize_rel(pre, post),
    ensures
        no_dead(post),
    decreases pre,
{
    let mid = choose|mid: Container| #[trigger]
        children_normalized_marker(mid) && children_normalized(pre, mid) && sweep_lift_rel(
            mid,
            post,
        );
    // every container among mid's children is a normalized child of pre
    assert forall|k: int|
        0 <= k < mid.nodes.items@.len() && (#[trigger] mid.nodes.items@[k]) is Container
            implies no_dead(mid.nodes.items@[k]->Container_0) by {
        assert(crate::container::node_wf_in(pre.nodes.items@[k], pre.id));
        match pre.nodes.items@[k] {
            Node::Window(_) => {},
            Node::Container(cc) => {
                lemma_normalize_no_dead(cc, mid.nodes.items@[k]->Container_0);
            },
        }
    }
    let sw = crate::nodemap::live_nodes_of(mid.nodes.items@);
    lemma_live_elements_live(mid.nodes.items@);
    lemma_live_nodes_elements(mid.nodes.items@);
    assert forall|k: int| 0 <= k < sw.len() implies match #[trigger] sw[k] {
        Node::Window(w) => w.alive,
        Node::Container(cc) => no_dead(cc),
    } by {
        match sw[k] {
            Node::Window(_) => {
                assert(crate::nodemap::is_live(sw[k]));
            },
            Node::Container(cc) => {
                let j = choose|j: int|
                    0 <= j < mid.nodes.items@.len() && mid.nodes.items@[j] == sw[k];
                assert(mid.nodes.items@[j] is Container);
            },
        }
    }
    if liftable(sw) {
        let kept = kept_after_lift(sw);
        let lifted = lifted_from(sw, mid.id);
        assert forall|k: int|
            #![trigger post.nodes.items@[k]]
            0 <= k < post.nodes.items@.len() implies match post.nodes.items@[k] {
            Node::Window(w) => w.alive,
            Node::Container(cc) => no_dead(cc),
        } by {
            if k < kept.len() {
                lemma_kept_elements(sw);
                assert(post.nodes.items@[k] == kept[k]);
                let j = choose|j: int| 0 <= j < sw.len() && sw[j] == kept[k];
                assert(match sw[j] {
                    Node::Window(w) => w.alive,
                    Node::Container(cc) => no_dead(cc),
                });
            } else {
                lemma_lifted_elements(sw, mid.id);
                let a = k - kept.len();
                assert(post.nodes.items@[k] == lifted[a]);
                let (j, m) = choose|j: int, m: int|
                    0 <= j < sw.len() && sw[j] is Container && 0 <= m < (
                    sw[j]->Container_0).nodes.items@.len() && lifted[a]
                        == crate::container::reparent_node(
                        (sw[j]->Container_0).nodes.items@[m],
                        mid.id,
                    );
                let cc = sw[j]->Container_0;
                assert(no_dead(cc));
                assert(match cc.nodes.items@[m] {
                    Node::Window(w) => w.alive,
                    Node::Container(x) => no_dead(x),
                });
                match cc.nodes.items@[m] {
                    Node::Window(_) => {},
                    Node::Container(x) => {
                        let y = Container { parent: Some(mid.id), ..x };
                        assert forall|q: int|
                            #![trigger y.nodes.items@[q]]
                            0 <= q < y.nodes.items@.len() implies match y.nodes.items@[q] {
                            Node::Window(w) => w.alive,
                            Node::Container(z) => no_dead(z),
                        } by {
                            assert(match x.nodes.items@[q] {
                                Node::Window(w) => w.alive,
                                Node::Container(z) => no_dead(z),
                            });
                        }
                    },
                }
            }
        }
    } else {
        assert forall|k: int|
            #![trigger post.nodes.items@[k]]
            0 <= k < post.nodes.items@.len() implies match post.nodes.items@[k] {
            Node::Window(w) => w.alive,
            Node::Container(cc) => no_dead(cc),
        } by {
            assert(post.nodes.items@[k] == sw[k]);
            assert(match sw[k] {
                Node::Window(w) => w.alive,
                Node::Container(cc) => no_dead(cc),
            });
        }
    }
}

/// Trees of one shape carry the same ids.
pub proof fn lemma_shape_ids(a: Container, b: Container, bound: u32)
    requires
        a.same_shape(b),
        crate::container::ids_at_most(a, bound),
    ensures
        crate::container::ids_at_most(b, bound),
    decreases a,
{
    assert forall|k: int|
        #![trigger b.nodes.items@[k]]
        0 <= k < b.nodes.items@.len() implies match b.nodes.items@[k] {
        Node::Window(w) => w.id <= bound,
        Node::Container(cc) => crate::container::ids_at_most(cc, bound),
    } by {
        assert(shape_node(a.nodes.items@[k], b.nodes.items@[k]));
        assert(match a.nodes.items@[k] {
            Node::Window(w) => w.id <= bound,
            Node::Container(cc) => crate::container::ids_at_most(cc, bound),
        });
        match a.nodes.items@[k] {
            Node::Window(_) => {},
            Node::Container(ca) => {
                lemma_shape_ids(ca, b.nodes.items@[k]->Container_0, bound);
            },
        }
    }
}

/// Normalization keeps every id within the bound: it only removes nodes
/// and lifts nodes already present.
pub proof fn lemma_normalize_ids(pre: Container, post: Container, bound: u32)
    requires
        pre.wf(),
        normalize_rel(pre, post),
        crate::container::ids_at_most(pre, bound),
    ensures
        crate::container::ids_at_most(post, bound),
    decreases pre,
{
    let mid = choose|mid: Container| #[trigger]
        children_normalized_marker(mid) && children_normalized(pre, mid) && sweep_lift_rel(
            mid,
            post,
        );
    assert(crate::container::ids_at_most(mid, bound)) by {
        assert forall|k: int|
            #![trigger mid.nodes.items@[k]]
            0 <= k < mid.nodes.items@.len() implies match mid.nodes.items@[k] {
            Node::Window(w) => w.id <= bound,
            Node::Container(cc) => crate::container::ids_at_most(cc, bound),
        } by {
            assert(match pre.nodes.items@[k] {
                Node::Window(w) => w.id <= bound,
                Node::Container(cc) => crate::container::ids_at_most(cc, bound),
            });
            match pre.nodes.items@[k] {
                Node::Window(_) => {},
                Node::Container(cc) => {
                    assert(crate::container::node_wf_in(pre.nodes.items@[k], pre.id));
                    lemma_normalize_ids(cc, mid.nodes.items@[k]->Container_0, bound);
                },
            }
        }
    }
    let sw = crate::nodemap::live_nodes_of(mid.nodes.items@);
    assert forall|k: int| 0 <= k < sw.len() implies match #[trigger] sw[k] {
        Node::Window(w) => w.id <= bound,
        Node::Container(cc) => crate::container::ids_at_most(cc, bound),
    } by {
        lemma_live_nodes_elements(mid.nodes.items@);
        let j = choose|j: int| 0 <= j < mid.nodes.items@.len() && mid.nodes.items@[j] == sw[k];
        assert(match mid.nodes.items@[j] {
            Node::Window(w) => w.id <= bound,
            Node::Container(cc) => crate::container::ids_at_most(cc, bound),
        });
    }
    if liftable(sw) {
        let kept = kept_after_lift(sw);
        let lifted = lifted_from(sw, mid.id);
        assert forall|k: int|
            #![trigger post.nodes.items@[k]]
            0 <= k < post.nodes.items@.len() implies match post.nodes.items@[k] {
            Node::Window(w) => w.id <= bound,
            Node::Container(cc) => crate::container::ids_at_most(cc, bound),
        } by {
            if k < kept.len() {
                lemma_kept_elements(sw);
                assert(post.nodes.items@[k] == kept[k]);
                let j = choose|j: int| 0 <= j < sw.len() && sw[j] == kept[k];
                assert(match sw[j] {
                    Node::Window(w) => w.id <= bound,
                    Node::Container(cc) => crate::container::ids_at_most(cc, bound),
                });
            } else {
                lemma_lifted_elements(sw, mid.id);
                let a = k - kept.len();
                assert(post.nodes.items@[k] == lifted[a]);
                let (j, m) = choose|j: int, m: int|
                    0 <= j < sw.len() && sw[j] is Container && 0 <= m < (
                    sw[j]->Container_0).nodes.items@.len() && lifted[a]
                        == crate::container::reparent_node(
                        (sw[j]->Container_0).nodes.items@[m],
                        mid.id,
                    );
                let cc = sw[j]->Container_0;
                assert(crate::container::ids_at_most(cc, bound));
                assert(match cc.nodes.items@[m] {
                    Node::Window(w) => w.id <= bound,
                    Node::Container(x) => crate::container::ids_at_most(x, bound),
                });
                match cc.nodes.items@[m] {
                    Node::Window(_) => {},
                    Node::Container(x) => {
                        crate::container::lemma_ids_same_items(
                            x,
                            Container { parent: Some(mid.id), ..x },
                            bound,
                        );
                    },
                }
            }
        }
    } else {
        assert forall|k: int|
            #![trigger post.nodes.items@[k]]
            0 <= k < post.nodes.items@.len() implies match post.nodes.items@[k] {
            Node::Window(w) => w.id <= bound,
            Node::Container(cc) => crate::container::ids_at_most(cc, bound),
        } by {
            assert(post.nodes.items@[k] == sw[k]);
            assert(match sw[k] {
                Node::Window(w) => w.id <= bound,
                Node::Container(cc) => crate::container::ids_at_most(cc, bound),
            });
        }
    }
}

/// Laying out a subtree in place keeps every id within the bound.
pub proof fn lemma_arrange_steps_ids(
    pre: Container,
    post: Container,
    target: u32,
    loc: Point,
    size: Size,
    gap: u32,
    output: Size,
    bound: u32,
)
    requires
        pre.wf(),
        arrange_steps(pre, post, target, loc, size, gap, output),
        crate::container::ids_at_most(pre, bound),
    ensures
        crate::container::ids_at_most(post, bound),
    decreases pre,
{
    if pre.id == target {
        lemma_arrange_shape(pre, post, loc, size, gap, output);
        lemma_shape_ids(pre, post, bound);
    } else {
        match crate::container::first_holder_from(pre.nodes.items@, 0, target) {
            Some(k) => {
                crate::container::lemma_first_holder_props(pre.nodes.items@, 0, target);
                assert(crate::container::node_wf_in(pre.nodes.items@[k], pre.id));
                assert(match pre.nodes.items@[k] {
                    Node::Window(w) => w.id <= bound,
                    Node::Container(cc) => crate::container::ids_at_most(cc, bound),
                });
                lemma_arrange_steps_ids(
                    pre.nodes.items@[k]->Container_0,
                    post.nodes.items@[k]->Container_0,
                    target,
                    loc,
                    size,
                    gap,
                    output,
                    bound,
                );
                assert forall|m: int|
                    #![trigger post.nodes.items@[m]]
                    0 <= m < post.nodes.items@.len() implies match post.nodes.items@[m] {
                    Node::Window(w) => w.id <= bound,
                    Node::Container(cc) => crate::container::ids_at_most(cc, bound),
                } by {
                    if m != k {
                        assert(post.nodes.items@[m] == pre.nodes.items@[m]);
                        assert(match pre.nodes.items@[m] {
                            Node::Window(w) => w.id <= bound,
                            Node::Container(cc) => crate::container::ids_at_most(cc, bound),
                        });
                    }
                }
            },
            None => {},
        }
    }
}

/// Every survivor of a sweep is one of the original nodes.
pub proof fn lemma_live_nodes_elements(s: Seq<Node>)
    ensures
        forall|k: int|
            0 <= k < crate::nodemap::live_nodes_of(s).len() ==> exists|j: int|
                0 <= j < s.len() && s[j] == #[trigger] crate::nodemap::live_nodes_of(s)[k],
    decreases s.len(),
{
    if s.len() > 0 {
        lemma_live_nodes_elements(s.drop_last());
        assert forall|k: int|
            0 <= k < crate::nodemap::live_nodes_of(s).len() implies exists|j: int|
            0 <= j < s.len() && s[j] == #[trigger] crate::nodemap::live_nodes_of(s)[k] by {
            let lv = crate::nodemap::live_nodes_of(s);
            let lvd = crate::nodemap::live_nodes_of(s.drop_last());
            if k < lvd.len() {
                assert(lvd[k] == lv[k]);
                let j = choose|j: int| 0 <= j < s.drop_last().len() && s.drop_last()[j] == lvd[k];
                assert(s[j] == lv[k]);
            } else {
                assert(s[s.len() - 1] == lv[k]);
            }
        }
    }
}

/// The lift hands up exactly the orphans' child ids, whatever parent they
/// are rebound to.
pub proof fn lemma_lifted_ids(s: Seq<Node>, pid: u32)
    requires
        forall|k: int|
            #![trigger s[k]]
            0 <= k < s.len() ==> (s[k] is Container ==> (s[k]->Container_0).nodes.links_ok()),
    ensures
        crate::nodemap::node_ids(lifted_from(s, pid)) == adopted_ids(s),
        lifted_from(s, pid).len() == adopted_ids(s).len(),
    decreases s.len(),
{
    if s.len() > 0 {
        assert forall|k: int|
            #![trigger s.drop_last()[k]]
            0 <= k < s.drop_last().len() implies (s.drop_last()[k] is Container ==> (
        s.drop_last()[k]->Container_0).nodes.links_ok()) by {
            assert(s.drop_last()[k] == s[k]);
        }
        lemma_lifted_ids(s.drop_last(), pid);
        if is_orphan(s.last()) {
            let cc = s.last()->Container_0;
            assert(s[s.len() - 1] is Container);
            assert(cc.nodes.links_ok());
            assert(crate::nodemap::node_ids(
                crate::container::reparent_nodes(cc.nodes.items@, pid),
            ) =~= cc.nodes.spine@) by {
                assert forall|q: int|
                    0 <= q < cc.nodes.items@.len() implies crate::nodemap::node_ids(
                    crate::container::reparent_nodes(cc.nodes.items@, pid),
                )[q] == cc.nodes.spine@[q] by {
                    assert(cc.nodes.items@[q].id_spec() == cc.nodes.spine@[q]);
                }
            }
            assert(crate::nodemap::node_ids(lifted_from(s, pid)) =~= crate::nodemap::node_ids(
                lifted_from(s.drop_last(), pid),
            ) + crate::nodemap::node_ids(
                crate::container::reparent_nodes(cc.nodes.items@, pid),
            ));
        } else {
            assert(crate::nodemap::node_ids(lifted_from(s, pid)) =~= crate::nodemap::node_ids(
                lifted_from(s.drop_last(), pid),
            ));
            assert(adopted_ids(s) =~= adopted_ids(s.drop_last()));
        }
    }
}

/// Whether this id sequence holds any id twice.
fn has_dup(v: &Vec<u32>) -> (r: bool)
    ensures
        r == !v@.no_duplicates(),
{
    let mut a: usize = 0;
    while a < v.len()
        invariant
            a <= v@.len(),
            forall|i: int, j: int| 0 <= i < j < v@.len() && i < a ==> v@[i] != v@[j],
        decreases v@.len() - a,
    {
        let mut b: usize = a + 1;
        while b < v.len()
            invariant
                a < v@.len(),
                a + 1 <= b <= v@.len(),
                forall|j: int| a < j < b ==> v@[a as int] != v@[j],
            decreases v@.len() - b,
        {
            if v[a] == v[b] {
                return true;
            }
            b = b + 1;
        }
        a = a + 1;
    }
    false
}

impl Container {
    /// Normalize this subtree for a redraw: every sub-container is
    /// normalized first, then this container's own dead windows are swept
    /// out (the container's sweep and its children's are independent),
    /// then pass-through orphans among the children are dissolved.
    pub fn normalize(&mut self) -> (r: (Ghost<Container>, bool))
        requires
            old(self).wf(),
        ensures
            final(self).wf(),
            children_normalized(*old(self), r.0@),
            sweep_lift_rel(r.0@, *final(self)),
            normalize_rel(*old(self), *final(self)),
            no_dead(*final(self)),
            r.1 ==> orphan_free(*final(self)),
            final(self).id == old(self).id,
            final(self).parent == old(self).parent,
            final(self).loc == old(self).loc,
            final(self).size == old(self).size,
            final(self).layout == old(self).layout,
        decreases old(self).height(),
    {
        let ghost pre = *old(self);
        let mut clean = true;
        let mut i: usize = 0;
        while i < self.nodes.items.len()
            invariant
                pre.wf(),
                pre == *old(self),
                self.wf(),
                self.id == pre.id,
                self.loc == pre.loc,
                self.size == pre.size,
                self.parent == pre.parent,
                self.layout == pre.layout,
                self.nodes.spine@ == pre.nodes.spine@,
                self.nodes.focus == pre.nodes.focus,
                self.nodes.items@.len() == pre.nodes.items@.len(),
                i <= pre.nodes.items@.len(),
                forall|m: int|
                    i <= m < pre.nodes.items@.len() ==> #[trigger] self.nodes.items@[m]
                        == pre.nodes.items@[m],
                forall|k: int|
                    #![trigger pre.nodes.items@[k]]
                    0 <= k < i ==> match pre.nodes.items@[k] {
                        Node::Window(w) => self.nodes.items@[k] == Node::Window(w),
                        Node::Container(cc) => self.nodes.items@[k] is Container
                            && normalize_rel(cc, self.nodes.items@[k]->Container_0),
                    },
                clean ==> forall|k: int|
                    #![trigger self.nodes.items@[k]]
                    0 <= k < i ==> (self.nodes.items@[k] is Container ==> orphan_free(
                        self.nodes.items@[k]->Container_0,
                    )),
            decreases pre.nodes.items@.len() - i,
        {
            let ghost snap = *self;
            proof {
                assert(node_wf_in(snap.nodes.items@[i as int], snap.id));
                assert(snap.nodes.items@[i as int] == pre.nodes.items@[i as int]);
            }
            match &mut self.nodes.items[i] {
                Node::Window(_) => {},
                Node::Container(c) => {
                    proof {
                        lemma_child_height(pre, i as int);
                    }
                    let sub = c.normalize();
                    if !sub.1 {
                        clean = false;
                    }
                },
            }
            proof {
                assert(node_wf_in(self.nodes.items@[i as int], self.id)) by {
                    match pre.nodes.items@[i as int] {
                        Node::Window(_) => {
                            assert(self.nodes.items@[i as int] == pre.nodes.items@[i as int]);
                        },
                        Node::Container(cc) => {
                            assert((self.nodes.items@[i as int]->Container_0).wf());
                            assert((self.nodes.items@[i as int]->Container_0).parent
                                == cc.parent);
                        },
                    }
                }
                lemma_wf_child_replaced(snap, *self, i as int);
                assert forall|k: int|
                    #![trigger pre.nodes.items@[k]]
                    0 <= k < i as int + 1 implies match pre.nodes.items@[k] {
                    Node::Window(w) => self.nodes.items@[k] == Node::Window(w),
                    Node::Container(cc) => self.nodes.items@[k] is Container && normalize_rel(
                        cc,
                        self.nodes.items@[k]->Container_0,
                    ),
                } by {
                    if k < i as int {
                        assert(self.nodes.items@[k] == snap.nodes.items@[k]);
                    }
                }
                if clean {
                    assert forall|k: int|
                        #![trigger self.nodes.items@[k]]
                        0 <= k < i as int + 1 implies (self.nodes.items@[k] is Container
                        ==> orphan_free(self.nodes.items@[k]->Container_0)) by {
                        if k < i as int {
                            assert(self.nodes.items@[k] == snap.nodes.items@[k]);
                        }
                    }
                }
            }
            i = i + 1;
        }
        let ghost mid = *self;
        self.nodes.remove_dead_windows();
        proof {
            lemma_live_nodes_elements(mid.nodes.items@);
            assert forall|k: int|
                0 <= k < self.nodes.items@.len() implies node_wf_in(
                #[trigger] self.nodes.items@[k],
                self.id,
            ) by {
                let j = choose|j: int|
                    0 <= j < mid.nodes.items@.len() && mid.nodes.items@[j]
                        == crate::nodemap::live_nodes_of(mid.nodes.items@)[k];
                assert(node_wf_in(mid.nodes.items@[j], mid.id));
            }
            assert(self.wf());
            if clean {
                assert forall|k: int|
                    #![trigger self.nodes.items@[k]]
                    0 <= k < self.nodes.items@.len() implies (self.nodes.items@[k] is Container
                    ==> orphan_free(self.nodes.items@[k]->Container_0)) by {
                    let j = choose|j: int|
                        0 <= j < mid.nodes.items@.len() && mid.nodes.items@[j]
                            == crate::nodemap::live_nodes_of(mid.nodes.items@)[k];
                    assert(mid.nodes.items@[j] is Container ==> orphan_free(
                        mid.nodes.items@[j]->Container_0,
                    ));
                }
            }
        }
        let ghost swept = *self;
        // which ids the orphans would hand up
        let mut adopted: Vec<u32> = Vec::new();
        let mut i: usize = 0;
        while i < self.nodes.items.len()
            invariant
                swept.wf(),
                swept == *self,
                i <= swept.nodes.items@.len(),
                adopted@ == adopted_ids(swept.nodes.items@.take(i as int)),
            decreases swept.nodes.items@.len() - i,
        {
            proof {
                lemma_lift_take_step(swept.nodes.items@, i as int, swept.id);
            }
            match &self.nodes.items[i] {
                Node::Container(c) => {
                    if !c.has_windows() {
                        let mut j: usize = 0;
                        while j < c.nodes.spine.len()
                            invariant
                                j <= c.nodes.spine@.len(),
                                adopted@ == adopted_ids(swept.nodes.items@.take(i as int))
                                    + c.nodes.spine@.take(j as int),
                            decreases c.nodes.spine@.len() - j,
                        {
                            let id = c.nodes.spine[j];
                            adopted.push(id);
                            proof {
                                assert(adopted@ =~= adopted_ids(
                                    swept.nodes.items@.take(i as int),
                                ) + c.nodes.spine@.take(j as int + 1));
                            }
                            j = j + 1;
                        }
                        proof {
                            assert(c.nodes.spine@.take(c.nodes.spine@.len() as int)
                                =~= c.nodes.spine@);
                        }
                    } else {
                        proof {
                            assert(adopted@ =~= adopted_ids(
                                swept.nodes.items@.take(i as int + 1),
                            ));
                        }
                    }
                },
                Node::Window(_) => {
                    proof {
                        assert(adopted@ =~= adopted_ids(swept.nodes.items@.take(i as int + 1)));
                    }
                },
            }
            i = i + 1;
        }
        proof {
            assert(swept.nodes.items@.take(swept.nodes.items@.len() as int)
                =~= swept.nodes.items@);
        }
        // the lift is admissible only when the adopted ids are clean
        let mut ok = !has_dup(&adopted);
        let mut a: usize = 0;
        while a < adopted.len()
            invariant
                swept.wf(),
                swept == *self,
                adopted@ == adopted_ids(swept.nodes.items@),
                a <= adopted@.len(),
                ok == (adopted@.no_duplicates() && forall|g: int|
                    0 <= g < a ==> !crate::nodemap::node_ids(swept.nodes.items@).contains(
                        #[trigger] adopted@[g],
                    )),
            decreases adopted@.len() - a,
        {
            proof {
                assert(crate::nodemap::node_ids(swept.nodes.items@) =~= swept.nodes.spine@);
            }
            if self.nodes.contains(adopted[a]) {
                ok = false;
            }
            a = a + 1;
        }
        proof {
            assert(crate::nodemap::node_ids(swept.nodes.items@) =~= swept.nodes.spine@);
            assert(ok == liftable(swept.nodes.items@));
        }
        if !ok {
            proof {
                assert(sweep_lift_rel(mid, *self));
                assert(children_normalized_marker(mid) && children_normalized(pre, mid)
                    && sweep_lift_rel(mid, *self));
                assert(normalize_rel(pre, *self));
                lemma_normalize_no_dead(pre, *self);
            }
            return (Ghost(mid), false);
        }
        // dissolve the orphans: keep the rest in order, adopt the
        // grandchildren at the end
        let my_id = self.id;
        let ghost sw = swept.nodes.items@;
        let mut work: Vec<Node> = Vec::new();
        core::mem::swap(&mut self.nodes.items, &mut work);
        let total = work.len();
        let mut kept_items: Vec<Node> = Vec::new();
        let mut kept_spine: Vec<u32> = Vec::new();
        let mut lifted_items: Vec<Node> = Vec::new();
        let mut lifted_spine: Vec<u32> = Vec::new();
        let mut newfocus: Option<usize> = None;
        let mut i: usize = 0;
        while work.len() > 0
            invariant
                swept.wf(),
                sw == swept.nodes.items@,
                liftable(sw),
                my_id == swept.id,
                self.nodes.focus == swept.nodes.focus,
                i <= sw.len(),
                sw.len() == total,
                work@ =~= sw.skip(i as int),
                kept_items@ == kept_after_lift(sw.take(i as int)),
                kept_spine@ == crate::nodemap::node_ids(kept_after_lift(sw.take(i as int))),
                lifted_items@ == lifted_from(sw.take(i as int), my_id),
                lifted_spine@ == adopted_ids(sw.take(i as int)),
                forall|q: int|
                    0 <= q < kept_items@.len() ==> node_wf_in(
                        #[trigger] kept_items@[q],
                        my_id,
                    ),
                forall|q: int|
                    0 <= q < lifted_items@.len() ==> node_wf_in(
                        #[trigger] lifted_items@[q],
                        my_id,
                    ),
                clean ==> forall|q: int|
                    #![trigger sw[q]]
                    0 <= q < sw.len() ==> (sw[q] is Container ==> orphan_free(
                        sw[q]->Container_0,
                    )),
                clean ==> forall|q: int|
                    #![trigger kept_items@[q]]
                    0 <= q < kept_items@.len() ==> (kept_items@[q] is Container ==> ((
                    kept_items@[q]->Container_0).has_windows_spec() && orphan_free(
                        kept_items@[q]->Container_0,
                    ))),
                clean ==> forall|q: int|
                    #![trigger lifted_items@[q]]
                    0 <= q < lifted_items@.len() ==> (lifted_items@[q] is Container ==> ((
                    lifted_items@[q]->Container_0).has_windows_spec() && orphan_free(
                        lifted_items@[q]->Container_0,
                    ))),
                newfocus == match swept.nodes.focus {
                    Some(j) => if j < i {
                        lift_focus(sw, swept.nodes.focus)
                    } else {
                        None::<usize>
                    },
                    None => None::<usize>,
                },
                match newfocus {
                    Some(f) => f < kept_items@.len() && !(kept_items@[f as int] is Container),
                    None => true,
                },
            decreases work@.len(),
        {
            let node = work.remove(0);
            proof {
                assert(node == sw[i as int]);
                assert(sw.skip(i as int).remove(0) =~= sw.skip(i as int + 1));
                lemma_lift_take_step(sw, i as int, my_id);
                assert(node_wf_in(sw[i as int], swept.id));
            }
            let was_focused = match self.nodes.focus {
                Some(j) => j == i,
                None => false,
            };
            let keep = match &node {
                Node::Container(c) => c.has_windows(),
                Node::Window(_) => true,
            };
            if keep {
                let id = node.id();
                kept_spine.push(id);
                kept_items.push(node);
                if was_focused {
                    newfocus = Some(kept_items.len() - 1);
                }
                proof {
                    assert(kept_spine@ =~= crate::nodemap::node_ids(
                        kept_after_lift(sw.take(i as int + 1)),
                    ));
                    assert(lifted_items@ =~= lifted_from(sw.take(i as int + 1), my_id));
                    assert(lifted_spine@ =~= adopted_ids(sw.take(i as int + 1)));
                    if clean {
                        assert forall|q: int|
                            #![trigger kept_items@[q]]
                            0 <= q < kept_items@.len() implies (kept_items@[q] is Container
                            ==> ((kept_items@[q]->Container_0).has_windows_spec()
                            && orphan_free(kept_items@[q]->Container_0))) by {
                            if q == kept_items@.len() - 1 {
                                assert(kept_items@[q] == sw[i as int]);
                                assert(sw[i as int] is Container ==> orphan_free(
                                    sw[i as int]->Container_0,
                                ));
                            }
                        }
                    }
                }
            } else {
                let mut cc = match node {
                    Node::Container(c) => c,
                    Node::Window(_) => {
                        proof {
                            assert(false);
                        }
                        return (Ghost(mid), false);
                    },
                };
                let ghost cc0 = cc;
                let mut ad = cc.nodes.drain_all();
                let mut m: usize = 0;
                while m < ad.len()
                    invariant
                        m <= ad@.len(),
                        ad@.len() == cc0.nodes.items@.len(),
                        forall|q: int|
                            0 <= q < m ==> #[trigger] ad@[q] == crate::container::reparent_node(
                                cc0.nodes.items@[q],
                                my_id,
                            ),
                        forall|q: int|
                            m <= q < ad@.len() ==> #[trigger] ad@[q] == cc0.nodes.items@[q],
                    decreases ad@.len() - m,
                {
                    match &mut ad[m] {
                        Node::Container(c) => {
                            c.parent = Some(my_id);
                        },
                        Node::Window(_) => {},
                    }
                    m = m + 1;
                }
                proof {
                    assert(ad@ =~= crate::container::reparent_nodes(cc0.nodes.items@, my_id));
                    assert(cc0.wf());
                }
                let mut q: usize = 0;
                let adn = ad.len();
                while q < adn
                    invariant
                        cc0.wf(),
                        adn == ad@.len(),
                        ad@ == crate::container::reparent_nodes(cc0.nodes.items@, my_id),
                        q <= ad@.len(),
                        lifted_spine@ == adopted_ids(sw.take(i as int))
                            + cc0.nodes.spine@.take(q as int),
                    decreases adn - q,
                {
                    let ghost qs = cc0.nodes.spine@;
                    proof {
                        assert(cc0.nodes.items@[q as int].id_spec() == qs[q as int]);
                        assert(ad@[q as int].id_spec() == qs[q as int]);
                    }
                    let id = ad[q].id();
                    lifted_spine.push(id);
                    proof {
                        assert(lifted_spine@ =~= adopted_ids(sw.take(i as int))
                            + cc0.nodes.spine@.take(q as int + 1));
                    }
                    q = q + 1;
                }
                proof {
                    assert(cc0.nodes.spine@.take(cc0.nodes.spine@.len() as int)
                        =~= cc0.nodes.spine@);
                    assert(lifted_spine@ =~= adopted_ids(sw.take(i as int + 1)));
                }
                let ghost lifted_before = lifted_items@;
                lifted_items.append(&mut ad);
                proof {
                    assert(lifted_items@ =~= lifted_from(sw.take(i as int + 1), my_id));
                    assert(kept_items@ =~= kept_after_lift(sw.take(i as int + 1)));
                    assert(kept_spine@ =~= crate::nodemap::node_ids(
                        kept_after_lift(sw.take(i as int + 1)),
                    ));
                    assert forall|p: int|
                        0 <= p < lifted_items@.len() implies node_wf_in(
                        #[trigger] lifted_items@[p],
                        my_id,
                    ) by {
                        if p < lifted_before.len() {
                            assert(lifted_items@[p] == lifted_before[p]);
                            assert(node_wf_in(lifted_before[p], my_id));
                        } else {
                            let po = p - lifted_before.len();
                            assert(lifted_items@[p] == crate::container::reparent_nodes(
                                cc0.nodes.items@,
                                my_id,
                            )[po]);
                            assert(node_wf_in(cc0.nodes.items@[po], cc0.id));
                            match cc0.nodes.items@[po] {
                                Node::Window(_) => {},
                                Node::Container(x) => {
                                    let y = Container { parent: Some(my_id), ..x };
                                    assert(x.wf());
                                    assert forall|r: int|
                                        0 <= r < y.nodes.items@.len() implies node_wf_in(
                                        #[trigger] y.nodes.items@[r],
                                        y.id,
                                    ) by {
                                        assert(node_wf_in(x.nodes.items@[r], x.id));
                                    }
                                    assert(y.wf());
                                },
                            }
                        }
                    }
                    if clean {
                        assert(sw[i as int] is Container ==> orphan_free(
                            sw[i as int]->Container_0,
                        ));
                        assert(orphan_free(cc0));
                        assert forall|p: int|
                            #![trigger lifted_items@[p]]
                            0 <= p < lifted_items@.len() implies (lifted_items@[p] is Container
                            ==> ((lifted_items@[p]->Container_0).has_windows_spec()
                            && orphan_free(lifted_items@[p]->Container_0))) by {
                            if p < lifted_before.len() {
                                assert(lifted_items@[p] == lifted_before[p]);
                            } else {
                                let po = p - lifted_before.len();
                                assert(lifted_items@[p] == crate::container::reparent_nodes(
                                    cc0.nodes.items@,
                                    my_id,
                                )[po]);
                                assert(match cc0.nodes.items@[po] {
                                    Node::Window(_) => true,
                                    Node::Container(x) => x.has_windows_spec() && orphan_free(
                                        x,
                                    ),
                                });
                                match cc0.nodes.items@[po] {
                                    Node::Window(_) => {},
                                    Node::Container(x) => {
                                        let y = Container { parent: Some(my_id), ..x };
                                        assert(x.has_windows_spec() ==> y.has_windows_spec())
                                            by {
                                            if x.has_windows_spec() {
                                                let q = choose|q: int|
                                                    0 <= q < x.nodes.items@.len() && !((
                                                    #[trigger] x.nodes.items@[q]) is Container);
                                                assert(!((
                                                #[trigger] y.nodes.items@[q]) is Container));
                                            }
                                        }
                                        assert forall|q: int|
                                            #![trigger y.nodes.items@[q]]
                                            0 <= q < y.nodes.items@.len() implies match y.nodes.items@[q] {
                                            Node::Window(_) => true,
                                            Node::Container(z) => z.has_windows_spec()
                                                && orphan_free(z),
                                        } by {
                                            assert(match x.nodes.items@[q] {
                                                Node::Window(_) => true,
                                                Node::Container(z) => z.has_windows_spec()
                                                    && orphan_free(z),
                                            });
                                        }
                                        assert(orphan_free(y));
                                    },
                                }
                            }
                        }
                    }
                }
            }
            i = i + 1;
        }
        proof {
            assert(sw.take(sw.len() as int) =~= sw);
        }
        let mut new_items = kept_items;
        let mut new_spine = kept_spine;
        let ghost kept_n = new_items@.len();
        new_items.append(&mut lifted_items);
        new_spine.append(&mut lifted_spine);
        self.nodes.items = new_items;
        self.nodes.spine = new_spine;
        self.nodes.focus = newfocus;
        proof {
            lemma_kept_ids(sw);
            assert(crate::nodemap::node_ids(sw) =~= swept.nodes.spine@);
            assert forall|k: int|
                #![trigger sw[k]]
                0 <= k < sw.len() implies (sw[k] is Container ==> (
            sw[k]->Container_0).nodes.links_ok()) by {
                assert(node_wf_in(sw[k], swept.id));
            }
            lemma_lifted_ids(sw, my_id);
            lemma_concat_no_dup(
                crate::nodemap::node_ids(kept_after_lift(sw)),
                adopted_ids(sw),
            );
            assert(self.nodes.spine@ =~= crate::nodemap::node_ids(kept_after_lift(sw))
                + adopted_ids(sw));
            assert(self.nodes.items@ =~= kept_after_lift(sw) + lifted_from(sw, my_id));
            assert(crate::nodemap::node_ids(self.nodes.items@) =~= self.nodes.spine@) by {
                assert forall|p: int|
                    0 <= p < self.nodes.items@.len() implies crate::nodemap::node_ids(
                    self.nodes.items@,
                )[p] == self.nodes.spine@[p] by {
                    if p < kept_after_lift(sw).len() {
                        assert(crate::nodemap::node_ids(kept_after_lift(sw))[p]
                            == kept_after_lift(sw)[p].id_spec());
                    } else {
                        let po = p - kept_after_lift(sw).len();
                        assert(crate::nodemap::node_ids(lifted_from(sw, my_id))[po]
                            == lifted_from(sw, my_id)[po].id_spec());
                        assert(self.nodes.spine@[p] == adopted_ids(sw)[po]);
                    }
                }
            }
            assert(self.nodes.spine@.no_duplicates());
            assert forall|k: int|
                0 <= k < self.nodes.spine@.len() implies (#[trigger] self.nodes.items@[k]).id_spec()
                == self.nodes.spine@[k] by {
                if k < kept_n {
                    assert(crate::nodemap::node_ids(kept_after_lift(sw))[k]
                        == kept_after_lift(sw)[k].id_spec());
                } else {
                    assert(crate::nodemap::node_ids(lifted_from(sw, my_id))[k - kept_n]
                        == lifted_from(sw, my_id)[k - kept_n].id_spec());
                }
            }
            assert(self.nodes.links_ok());
            assert forall|k: int|
                0 <= k < self.nodes.items@.len() implies node_wf_in(
                #[trigger] self.nodes.items@[k],
                self.id,
            ) by {
            }
            assert(self.wf());
            assert(sweep_lift_rel(mid, *self));
            assert(children_normalized_marker(mid) && children_normalized(pre, mid)
                && sweep_lift_rel(mid, *self));
            assert(normalize_rel(pre, *self));
            lemma_normalize_no_dead(pre, *self);
            if clean {
                assert forall|k: int|
                    #![trigger self.nodes.items@[k]]
                    0 <= k < self.nodes.items@.len() implies match self.nodes.items@[k] {
                    Node::Window(_) => true,
                    Node::Container(cc) => cc.has_windows_spec() && orphan_free(cc),
                } by {
                    if k < kept_n {
                        assert(self.nodes.items@[k] == kept_after_lift(sw)[k]);
                    } else {
                        assert(self.nodes.items@[k] == lifted_from(sw, my_id)[k - kept_n]);
                    }
                }
                assert(orphan_free(*self));
            }
        }
        (Ghost(mid), clean)
    }
}

impl Container {
    /// Recompute the geometry of every node below this container, filling
    /// the space `loc`/`size`, with the configured `gap` between slots
    /// and floating windows centered on an output of size `output`.
    #[verifier::rlimit(100)]
    pub fn arrange(&mut self, loc: Point, size: Size, gap: u32, output: Size)
        requires
            old(self).wf(),
            point_ok(loc),
            size_ok(size),
            size_ok(output),
            gap <= MAX_GAP,
        ensures
            final(self).wf(),
            arrange_rel(*old(self), *final(self), loc, size, gap, output),
            final(self).height() == old(self).height(),
        decreases old(self).height(),
    {
        let ghost pre = *old(self);
        self.loc = loc;
        self.size = size;
        proof {
            assert forall|k: int|
                0 <= k < self.nodes.items@.len() implies node_wf_in(
                #[trigger] self.nodes.items@[k],
                self.id,
            ) by {
                assert(node_wf_in(pre.nodes.items@[k], pre.id));
            }
        }
        let n = self.nodes.tiled_count();
        let layout = self.layout;
        let cs: Size = if n <= 1 {
            size
        } else {
            match layout {
                ContainerLayout::Horizontal => Size {
                    w: slot_len_exec(size.w, gap, n),
                    h: size.h,
                },
                ContainerLayout::Vertical => Size {
                    w: size.w,
                    h: slot_len_exec(size.h, gap, n),
                },
            }
        };
        let ghost csg = child_size_of(size, pre.layout, gap, count_tiled(pre.nodes.items@));
        proof {
            assert(cs == csg);
            assert(size_ok(cs));
        }
        let mut slot: usize = 0;
        let mut i: usize = 0;
        while i < self.nodes.items.len()
            invariant
                pre.wf(),
                pre == *old(self),
                self.wf(),
                point_ok(loc),
                size_ok(size),
                size_ok(output),
                size_ok(cs),
                gap <= MAX_GAP,
                cs == child_size_of(size, pre.layout, gap, count_tiled(pre.nodes.items@)),
                layout == pre.layout,
                self.id == pre.id,
                self.parent == pre.parent,
                self.layout == pre.layout,
                self.loc == loc,
                self.size == size,
                self.height() == pre.height(),
                self.nodes.spine@ == pre.nodes.spine@,
                self.nodes.focus == pre.nodes.focus,
                self.nodes.items@.len() == pre.nodes.items@.len(),
                i <= pre.nodes.items@.len(),
                slot == count_tiled(pre.nodes.items@.take(i as int)),
                slot <= i,
                forall|m: int|
                    i <= m < pre.nodes.items@.len() ==> #[trigger] self.nodes.items@[m]
                        == pre.nodes.items@[m],
                forall|k: int|
                    #![trigger pre.nodes.items@[k]]
                    0 <= k < i ==> arranged_at(
                        pre,
                        self.nodes.items@,
                        k,
                        loc,
                        size,
                        gap,
                        output,
                    ),
            decreases pre.nodes.items@.len() - i,
        {
            let ghost snap = *self;
            proof {
                assert(node_wf_in(snap.nodes.items@[i as int], snap.id));
                assert(snap.nodes.items@[i as int] == pre.nodes.items@[i as int]);
                lemma_take_step(pre.nodes.items@, i as int);
            }
            let is_tiled_node = self.nodes.items[i].tiled();
            let activate = match self.nodes.focus {
                Some(j) => j == i,
                None => false,
            };
            let lk = slot_loc_exec(loc, cs, layout, gap, slot);
            match &mut self.nodes.items[i] {
                Node::Window(w) => {
                    if w.is_floating() {
                        w.update_floating(output);
                    } else {
                        w.update_loc_and_size(Some(cs), lk);
                    }
                    w.set_activated(activate);
                },
                Node::Container(c) => {
                    proof {
                        lemma_child_height(snap, i as int);
                    }
                    c.arrange(lk, cs, gap, output);
                },
            }
            proof {
                lemma_wf_child_replaced(snap, *self, i as int);
                assert(node_height(self.nodes.items@[i as int]) == node_height(
                    snap.nodes.items@[i as int],
                ));
                assert(self.nodes.items@ =~= snap.nodes.items@.update(
                    i as int,
                    self.nodes.items@[i as int],
                ));
                lemma_max_height_update_same(
                    snap.nodes.items@,
                    i as int,
                    self.nodes.items@[i as int],
                );
                assert(arranged_at(pre, self.nodes.items@, i as int, loc, size, gap, output));
                assert forall|k: int|
                    #![trigger pre.nodes.items@[k]]
                    0 <= k < i as int + 1 implies arranged_at(
                    pre,
                    self.nodes.items@,
                    k,
                    loc,
                    size,
                    gap,
                    output,
                ) by {
                    if k < i as int {
                        assert(arranged_at(pre, snap.nodes.items@, k, loc, size, gap, output));
                        assert(self.nodes.items@[k] == snap.nodes.items@[k]);
                    }
                }
            }
            if is_tiled_node {
                slot = slot + 1;
            }
            i = i + 1;
        }
        proof {
            assert(pre.nodes.items@.take(pre.nodes.items@.len() as int) =~= pre.nodes.items@);
            assert(i as int == pre.nodes.items@.len());
            assert forall|k: int|
                #![trigger pre.nodes.items@[k]]
                0 <= k < pre.nodes.items@.len() implies arranged_at(
                pre,
                self.nodes.items@,
                k,
                loc,
                size,
                gap,
                output,
            ) by {
            }
            assert(arrange_rel(pre, *self, loc, size, gap, output));
        }
    }
}

impl Container {
    /// A full redraw: normalize the tree, then — unless nothing is left
    /// to draw — recompute every node's geometry within this container's
    /// current space.  The ghost result names the normalized tree the
    /// geometry pass ran on.
    pub fn redraw(&mut self, gap: u32, output: Size) -> (r: (Ghost<Container>, bool))
        requires
            old(self).wf(),
            gap <= MAX_GAP,
            size_ok(output),
        ensures
            final(self).wf(),
            normalize_rel(*old(self), r.0@),
            no_dead(*final(self)),
            r.1 ==> orphan_free(*final(self)),
            r.0@.nodes.items@.len() == 0 ==> *final(self) == r.0@,
            r.0@.nodes.items@.len() > 0 ==> arrange_rel(
                r.0@,
                *final(self),
                r.0@.loc,
                r.0@.size,
                gap,
                output,
            ),
    {
        let ghost pre = *old(self);
        let nr = self.normalize();
        let clean = nr.1;
        let ghost n = *self;
        proof {
            lemma_normalize_no_dead(pre, n);
        }
        if self.nodes.len() == 0 {
            return (Ghost(n), clean);
        }
        let l = self.loc;
        let s = self.size;
        self.arrange(l, s, gap, output);
        proof {
            lemma_arrange_shape(n, *self, n.loc, n.size, gap, output);
            lemma_same_shape_preds(n, *self);
        }
        (Ghost(n), clean)
    }
}

/// How arranging one subtree, found by id, shows at the root: the path to
/// the first holder is untouched but for the one child the target is
/// reached through, and the target subtree is arranged in the given
/// space.  Used by the fullscreen override, which lays out a single node.
pub open spec fn arrange_steps(
    pre: Container,
    post: Container,
    target: u32,
    loc: Point,
    size: Size,
    gap: u32,
    output: Size,
) -> bool
    decreases pre via arrange_steps_dec
{
    if pre.id == target {
        arrange_rel(pre, post, loc, size, gap, output)
    } else {
        match crate::container::first_holder_from(pre.nodes.items@, 0, target) {
            Some(k) => {
                &&& crate::container::same_but_nodes(pre, post)
                &&& post.nodes.spine@ == pre.nodes.spine@
                &&& post.nodes.focus == pre.nodes.focus
                &&& post.nodes.items@.len() == pre.nodes.items@.len()
                &&& forall|m: int|
                    0 <= m < pre.nodes.items@.len() && m != k ==> #[trigger] post.nodes.items@[m]
                        == pre.nodes.items@[m]
                &&& post.nodes.items@[k] is Container
                &&& arrange_steps(
                    pre.nodes.items@[k]->Container_0,
                    post.nodes.items@[k]->Container_0,
                    target,
                    loc,
                    size,
                    gap,
                    output,
                )
            },
            None => false,
        }
    }
}

#[via_fn]
proof fn arrange_steps_dec(
    pre: Container,
    post: Container,
    target: u32,
    loc: Point,
    size: Size,
    gap: u32,
    output: Size,
) {
    crate::container::lemma_first_holder_props(pre.nodes.items@, 0, target);
}

impl Container {
    /// Lay out the subtree of the container with id `target` in the given
    /// space, leaving everything else untouched.  Answers `false`,
    /// changing nothing, when no such container exists.
    pub fn arrange_at(&mut self, target: u32, loc: Point, size: Size, gap: u32, output: Size) -> (r:
        bool)
        requires
            old(self).wf(),
            point_ok(loc),
            size_ok(size),
            size_ok(output),
            gap <= MAX_GAP,
        ensures
            final(self).wf(),
            r == old(self).contains_container(target),
            !r ==> *final(self) == *old(self),
            r ==> arrange_steps(*old(self), *final(self), target, loc, size, gap, output),
        decreases old(self).height(),
    {
        if self.id == target {
            self.arrange(loc, size, gap, output);
            return true;
        }
        let ghost pre = *self;
        let mut i: usize = 0;
        while i < self.nodes.items.len()
            invariant
                pre.wf(),
                point_ok(loc),
                size_ok(size),
                size_ok(output),
                gap <= MAX_GAP,
                pre.id != target,
                pre == *self,
                pre == *old(self),
                i <= pre.nodes.items@.len(),
                crate::container::first_holder_from(pre.nodes.items@, 0, target)
                    == crate::container::first_holder_from(pre.nodes.items@, i as int, target),
            decreases pre.nodes.items@.len() - i,
        {
            let has = match &self.nodes.items[i] {
                Node::Container(c) => c.contains_container_exec(target),
                Node::Window(_) => false,
            };
            if has {
                proof {
                    assert(node_wf_in(pre.nodes.items@[i as int], pre.id));
                    crate::container::lemma_first_holder_props(pre.nodes.items@, 0, target);
                    assert(crate::container::first_holder_from(
                        pre.nodes.items@,
                        i as int,
                        target,
                    ) == Some(i as int));
                }
                let sub: bool;
                match &mut self.nodes.items[i] {
                    Node::Window(_) => {
                        proof {
                            assert(false);
                        }
                        sub = false;
                    },
                    Node::Container(c) => {
                        proof {
                            lemma_child_height(pre, i as int);
                        }
                        sub = c.arrange_at(target, loc, size, gap, output);
                    },
                }
                proof {
                    assert(sub);
                    let cc = pre.nodes.items@[i as int]->Container_0;
                    assert(node_wf_in(self.nodes.items@[i as int], self.id)) by {
                        assert(self.nodes.items@[i as int] is Container);
                        assert((self.nodes.items@[i as int]->Container_0).wf());
                        assert(arrange_steps(
                            cc,
                            self.nodes.items@[i as int]->Container_0,
                            target,
                            loc,
                            size,
                            gap,
                            output,
                        ));
                        assert((self.nodes.items@[i as int]->Container_0).parent == cc.parent)
                            by {
                            if cc.id == target {
                                lemma_arrange_shape(
                                    cc,
                                    self.nodes.items@[i as int]->Container_0,
                                    loc,
                                    size,
                                    gap,
                                    output,
                                );
                            }
                        }
                    }
                    lemma_wf_child_replaced(pre, *self, i as int);
                    assert(pre.contains_container(target)) by {
                        assert((#[trigger] pre.nodes.items@[i as int]) is Container
                            && cc.contains_container(target));
                    }
                    assert(arrange_steps(pre, *self, target, loc, size, gap, output));
                }
                return true;
            }
            proof {
                assert(crate::container::first_holder_from(pre.nodes.items@, i as int, target)
                    == crate::container::first_holder_from(
                    pre.nodes.items@,
                    i as int + 1,
                    target,
                ));
            }
            i = i + 1;
        }
        proof {
            assert(!pre.contains_container(target)) by {
                if pre.contains_container(target) {
                    let k = choose|k: int|
                        0 <= k < pre.nodes.items@.len() && (#[trigger] pre.nodes.items@[k])
                            is Container && (pre.nodes.items@[k]->Container_0).contains_container(
                            target,
                        );
                    crate::container::lemma_first_holder_props(pre.nodes.items@, 0, target);
                }
            }
        }
        false
    }
}

/// Two nodes of the same shape: everything equal except the assigned
/// geometry and activation.  The layout pass reads only the shape.
pub open spec fn shape_node(a: Node, b: Node) -> bool
    decreases a,
{
    match a {
        Node::Window(wa) => b matches Node::Window(wb) && wa.id == wb.id && wa.floating
            == wb.floating && wa.configured == wb.configured && wa.alive == wb.alive
            && wa.initial_size == wb.initial_size && ((wa.floating && !wa.configured) ==> wa.size
            == wb.size),
        Node::Container(ca) => b matches Node::Container(cb) && ca.same_shape(cb),
    }
}

impl Container {
    /// Containers of the same shape: equal in everything but geometry.
    pub open spec fn same_shape(self, other: Container) -> bool
        decreases self,
    {
        &&& other.id == self.id
        &&& other.parent == self.parent
        &&& other.layout == self.layout
        &&& other.nodes.spine@ == self.nodes.spine@
        &&& other.nodes.focus == self.nodes.focus
        &&& other.nodes.items@.len() == self.nodes.items@.len()
        &&& forall|k: int|
            0 <= k < self.nodes.items@.len() ==> shape_node(
                #[trigger] self.nodes.items@[k],
                other.nodes.items@[k],
            )
    }
}

/// Observational equality is shape equality and more.
pub proof fn lemma_same_tree_shape(a: Container, b: Container)
    requires
        a.same_tree(b),
    ensures
        a.same_shape(b),
    decreases a,
{
    assert forall|k: int|
        0 <= k < a.nodes.items@.len() implies shape_node(
        #[trigger] a.nodes.items@[k],
        b.nodes.items@[k],
    ) by {
        assert(crate::container::same_node(a.nodes.items@[k], b.nodes.items@[k]));
        match a.nodes.items@[k] {
            Node::Window(_) => {},
            Node::Container(ca) => {
                lemma_same_tree_shape(ca, b.nodes.items@[k]->Container_0);
            },
        }
    }
}

pub proof fn lemma_same_shape_sym(a: Container, b: Container)
    requires
        a.same_shape(b),
    ensures
        b.same_shape(a),
    decreases a,
{
    assert forall|k: int|
        0 <= k < b.nodes.items@.len() implies shape_node(
        #[trigger] b.nodes.items@[k],
        a.nodes.items@[k],
    ) by {
        assert(shape_node(a.nodes.items@[k], b.nodes.items@[k]));
        match a.nodes.items@[k] {
            Node::Window(_) => {},
            Node::Container(ca) => {
                lemma_same_shape_sym(ca, b.nodes.items@[k]->Container_0);
            },
        }
    }
}

pub proof fn lemma_same_shape_trans(a: Container, b: Container, c: Container)
    requires
        a.same_shape(b),
        b.same_shape(c),
    ensures
        a.same_shape(c),
    decreases a,
{
    assert forall|k: int|
        0 <= k < a.nodes.items@.len() implies shape_node(
        #[trigger] a.nodes.items@[k],
        c.nodes.items@[k],
    ) by {
        assert(shape_node(a.nodes.items@[k], b.nodes.items@[k]));
        assert(shape_node(b.nodes.items@[k], c.nodes.items@[k]));
        match a.nodes.items@[k] {
            Node::Window(_) => {},
            Node::Container(ca) => {
                lemma_same_shape_trans(
                    ca,
                    b.nodes.items@[k]->Container_0,
                    c.nodes.items@[k]->Container_0,
                );
            },
        }
    }
}

/// Trees of one shape agree on liveness and orphanhood throughout.
pub proof fn lemma_same_shape_preds(a: Container, b: Container)
    requires
        a.same_shape(b),
    ensures
        no_dead(a) ==> no_dead(b),
        orphan_free(a) ==> orphan_free(b),
        a.has_windows_spec() == b.has_windows_spec(),
    decreases a,
{
    assert forall|k: int|
        0 <= k < a.nodes.items@.len() implies (!(a.nodes.items@[k] is Container) == !(
    #[trigger] b.nodes.items@[k] is Container)) by {
        assert(shape_node(a.nodes.items@[k], b.nodes.items@[k]));
    }
    assert(a.has_windows_spec() == b.has_windows_spec()) by {
        if a.has_windows_spec() {
            let k = choose|k: int|
                0 <= k < a.nodes.items@.len() && !((#[trigger] a.nodes.items@[k]) is Container);
            assert(!(b.nodes.items@[k] is Container));
        }
        if b.has_windows_spec() {
            let k = choose|k: int|
                0 <= k < b.nodes.items@.len() && !((#[trigger] b.nodes.items@[k]) is Container);
            assert(shape_node(a.nodes.items@[k], b.nodes.items@[k]));
            assert(!(a.nodes.items@[k] is Container));
        }
    }
    if no_dead(a) {
        assert forall|k: int|
            #![trigger b.nodes.items@[k]]
            0 <= k < b.nodes.items@.len() implies match b.nodes.items@[k] {
            Node::Window(w) => w.alive,
            Node::Container(cc) => no_dead(cc),
        } by {
            assert(shape_node(a.nodes.items@[k], b.nodes.items@[k]));
            match a.nodes.items@[k] {
                Node::Window(_) => {},
                Node::Container(ca) => {
                    lemma_same_shape_preds(ca, b.nodes.items@[k]->Container_0);
                },
            }
        }
    }
    if orphan_free(a) {
        assert forall|k: int|
            #![trigger b.nodes.items@[k]]
            0 <= k < b.nodes.items@.len() implies match b.nodes.items@[k] {
            Node::Window(_) => true,
            Node::Container(cc) => cc.has_windows_spec() && orphan_free(cc),
        } by {
            assert(shape_node(a.nodes.items@[k], b.nodes.items@[k]));
            match a.nodes.items@[k] {
                Node::Window(_) => {},
                Node::Container(ca) => {
                    lemma_same_shape_preds(ca, b.nodes.items@[k]->Container_0);
                },
            }
        }
    }
}

/// The geometry pass never changes a tree's shape.
pub proof fn lemma_arrange_shape(
    pre: Container,
    post: Container,
    loc: Point,
    size: Size,
    gap: u32,
    output: Size,
)
    requires
        arrange_rel(pre, post, loc, size, gap, output),
    ensures
        pre.same_shape(post),
    decreases pre,
{
    assert forall|k: int|
        0 <= k < pre.nodes.items@.len() implies shape_node(
        #[trigger] pre.nodes.items@[k],
        post.nodes.items@[k],
    ) by {
        assert(arranged_at(pre, post.nodes.items@, k, loc, size, gap, output));
        match pre.nodes.items@[k] {
            Node::Window(_) => {},
            Node::Container(ca) => {
                let cs = child_size_of(size, pre.layout, gap, count_tiled(pre.nodes.items@));
                lemma_arrange_shape(
                    ca,
                    post.nodes.items@[k]->Container_0,
                    slot_loc_of(loc, cs, pre.layout, gap, count_tiled(pre.nodes.items@.take(k))),
                    cs,
                    gap,
                    output,
                );
            },
        }
    }
}

/// Shapes agree position by position on who takes a tiling slot.
pub proof fn lemma_count_tiled_shape(a: Seq<Node>, b: Seq<Node>)
    requires
        a.len() == b.len(),
        forall|k: int| 0 <= k < a.len() ==> shape_node(#[trigger] a[k], b[k]),
    ensures
        count_tiled(a) == count_tiled(b),
    decreases a.len(),
{
    if a.len() > 0 {
        assert forall|k: int|
            0 <= k < a.drop_last().len() implies shape_node(
            #[trigger] a.drop_last()[k],
            b.drop_last()[k],
        ) by {
            assert(shape_node(a[k], b[k]));
        }
        lemma_count_tiled_shape(a.drop_last(), b.drop_last());
        assert(shape_node(a[a.len() - 1], b[a.len() - 1]));
        assert(is_tiled(a.last()) == is_tiled(b.last()));
    }
}

/// The geometry pass is a function of the shape and the assigned space:
/// trees of one shape, arranged in the same space, come out identical in
/// every observable part.  This carries both the idempotence of redraw
/// and the fullscreen round trip.
#[verifier::rlimit(100)]
pub proof fn lemma_arrange_congruent(
    a: Container,
    b: Container,
    x: Container,
    y: Container,
    loc: Point,
    size: Size,
    gap: u32,
    output: Size,
)
    requires
        a.same_shape(b),
        arrange_rel(a, x, loc, size, gap, output),
        arrange_rel(b, y, loc, size, gap, output),
    ensures
        x.same_tree(y),
    decreases a,
{
    lemma_count_tiled_shape(a.nodes.items@, b.nodes.items@);
    let n = count_tiled(a.nodes.items@);
    let cs = child_size_of(size, a.layout, gap, n);
    assert forall|k: int|
        0 <= k < x.nodes.items@.len() implies crate::container::same_node(
        #[trigger] x.nodes.items@[k],
        y.nodes.items@[k],
    ) by {
        assert(arranged_at(a, x.nodes.items@, k, loc, size, gap, output));
        assert(arranged_at(b, y.nodes.items@, k, loc, size, gap, output));
        assert(shape_node(a.nodes.items@[k], b.nodes.items@[k]));
        assert forall|m: int|
            0 <= m < a.nodes.items@.take(k).len() implies shape_node(
            #[trigger] a.nodes.items@.take(k)[m],
            b.nodes.items@.take(k)[m],
        ) by {
            assert(shape_node(a.nodes.items@[m], b.nodes.items@[m]));
        }
        lemma_count_tiled_shape(a.nodes.items@.take(k), b.nodes.items@.take(k));
        match a.nodes.items@[k] {
            Node::Window(wa) => {
                let wb = b.nodes.items@[k]->Window_0;
                assert(arranged_window(
                    wa,
                    a.nodes.focus == Some(k as usize),
                    loc,
                    cs,
                    a.layout,
                    gap,
                    output,
                    count_tiled(a.nodes.items@.take(k)),
                ) == arranged_window(
                    wb,
                    b.nodes.focus == Some(k as usize),
                    loc,
                    cs,
                    b.layout,
                    gap,
                    output,
                    count_tiled(b.nodes.items@.take(k)),
                ));
            },
            Node::Container(ca) => {
                lemma_arrange_congruent(
                    ca,
                    b.nodes.items@[k]->Container_0,
                    x.nodes.items@[k]->Container_0,
                    y.nodes.items@[k]->Container_0,
                    slot_loc_of(loc, cs, a.layout, gap, count_tiled(a.nodes.items@.take(k))),
                    cs,
                    gap,
                    output,
                );
            },
        }
    }
}

/// Every node of an all-live sequence survives the sweep unchanged.
pub proof fn lemma_live_identity(s: Seq<Node>)
    requires
        forall|k: int| 0 <= k < s.len() ==> crate::nodemap::is_live(#[trigger] s[k]),
    ensures
        crate::nodemap::live_nodes_of(s) == s,
    decreases s.len(),
{
    if s.len() > 0 {
        assert forall|k: int|
            0 <= k < s.drop_last().len() implies crate::nodemap::is_live(
            #[trigger] s.drop_last()[k],
        ) by {
            assert(s.drop_last()[k] == s[k]);
        }
        lemma_live_identity(s.drop_last());
        assert(crate::nodemap::is_live(s[s.len() - 1]));
        assert(crate::nodemap::live_nodes_of(s) =~= s);
    }
}

/// With no orphan present, the lift keeps everything in place.
pub proof fn lemma_kept_identity(s: Seq<Node>, pid: u32)
    requires
        forall|k: int| 0 <= k < s.len() ==> !is_orphan(#[trigger] s[k]),
    ensures
        kept_after_lift(s) == s,
        lifted_from(s, pid) == Seq::<Node>::empty(),
        adopted_ids(s) == Seq::<u32>::empty(),
    decreases s.len(),
{
    if s.len() > 0 {
        assert forall|k: int|
            0 <= k < s.drop_last().len() implies !is_orphan(#[trigger] s.drop_last()[k]) by {
            assert(s.drop_last()[k] == s[k]);
        }
        lemma_kept_identity(s.drop_last(), pid);
        assert(!is_orphan(s[s.len() - 1]));
        assert(kept_after_lift(s) =~= s);
        assert(lifted_from(s, pid) =~= Seq::<Node>::empty());
        assert(adopted_ids(s) =~= Seq::<u32>::empty());
    }
}

/// Normalizing a tree that holds no dead window and no orphan changes
/// nothing: every node keeps its place, focus and geometry.
pub proof fn lemma_normalize_noop(pre: Container, post: Container)
    requires
        pre.wf(),
        no_dead(pre),
        orphan_free(pre),
        normalize_rel(pre, post),
    ensures
        pre.same_tree(post),
    decreases pre,
{
    let mid = choose|mid: Container| #[trigger]
        children_normalized_marker(mid) && children_normalized(pre, mid) && sweep_lift_rel(
            mid,
            post,
        );
    // the children pass leaves everything observably in place
    assert forall|k: int|
        0 <= k < pre.nodes.items@.len() implies crate::container::same_node(
        #[trigger] pre.nodes.items@[k],
        mid.nodes.items@[k],
    ) by {
        match pre.nodes.items@[k] {
            Node::Window(_) => {},
            Node::Container(cc) => {
                assert(node_wf_in(pre.nodes.items@[k], pre.id));
                lemma_normalize_noop(cc, mid.nodes.items@[k]->Container_0);
            },
        }
    }
    assert(pre.same_tree(mid));
    // no window is dead and no child is an orphan, so sweep and lift are
    // identities
    assert forall|k: int|
        0 <= k < mid.nodes.items@.len() implies crate::nodemap::is_live(
        #[trigger] mid.nodes.items@[k],
    ) by {
        assert(crate::container::same_node(pre.nodes.items@[k], mid.nodes.items@[k]));
    }
    lemma_live_identity(mid.nodes.items@);
    assert forall|k: int|
        0 <= k < mid.nodes.items@.len() implies !is_orphan(#[trigger] mid.nodes.items@[k]) by {
        assert(crate::container::same_node(pre.nodes.items@[k], mid.nodes.items@[k]));
        match pre.nodes.items@[k] {
            Node::Window(_) => {},
            Node::Container(cc) => {
                assert(cc.has_windows_spec());
                lemma_same_tree_shape(cc, mid.nodes.items@[k]->Container_0);
                lemma_same_shape_preds(cc, mid.nodes.items@[k]->Container_0);
            },
        }
    }
    lemma_kept_identity(mid.nodes.items@, mid.id);
    assert(liftable(mid.nodes.items@));
    assert(post.nodes.items@ =~= mid.nodes.items@);
    assert(post.nodes.spine@ =~= mid.nodes.spine@) by {
        assert forall|p: int|
            0 <= p < mid.nodes.items@.len() implies crate::nodemap::node_ids(mid.nodes.items@)[p]
            == mid.nodes.spine@[p] by {
            assert(crate::container::same_node(pre.nodes.items@[p], mid.nodes.items@[p]));
            assert(pre.nodes.items@[p].id_spec() == pre.nodes.spine@[p]);
        }
    }
    assert(post.nodes.focus == mid.nodes.focus) by {
        match mid.nodes.focus {
            Some(j) => {
                assert(crate::nodemap::live_nodes_of(mid.nodes.items@.take(j as int))
                    =~= mid.nodes.items@.take(j as int)) by {
                    assert forall|k: int|
                        0 <= k < mid.nodes.items@.take(j as int).len()
                            implies crate::nodemap::is_live(
                        #[trigger] mid.nodes.items@.take(j as int)[k],
                    ) by {
                        assert(mid.nodes.items@.take(j as int)[k] == mid.nodes.items@[k]);
                    }
                    lemma_live_identity(mid.nodes.items@.take(j as int));
                }
                assert forall|k: int|
                    0 <= k < mid.nodes.items@.take(j as int).len() implies !is_orphan(
                    #[trigger] mid.nodes.items@.take(j as int)[k],
                ) by {
                    assert(mid.nodes.items@.take(j as int)[k] == mid.nodes.items@[k]);
                }
                lemma_kept_identity(mid.nodes.items@.take(j as int), mid.id);
            },
            None => {},
        }
    }
    // stitch the two phases together
    assert forall|k: int|
        0 <= k < pre.nodes.items@.len() implies crate::container::same_node(
        #[trigger] pre.nodes.items@[k],
        post.nodes.items@[k],
    ) by {
        assert(crate::container::same_node(pre.nodes.items@[k], mid.nodes.items@[k]));
        assert(post.nodes.items@[k] == mid.nodes.items@[k]);
    }
}

/// Redraw idempotence: with no dead window and no orphan to pick up,
/// running the redraw pipeline twice over assigns every node the same
/// place and size both times.  Both hypotheses come from the redraw
/// contract itself: it ensures the tree it leaves holds no dead window,
/// and no orphan either whenever it reports the lift clean — which ids
/// from one allocator always allow.
pub proof fn lemma_redraw_idempotent(
    c0: Container,
    n1: Container,
    d: Container,
    n2: Container,
    e: Container,
    gap: u32,
    output: Size,
)
    requires
        c0.wf(),
        d.wf(),
        no_dead(c0),
        orphan_free(c0),
        normalize_rel(c0, n1),
        arrange_rel(n1, d, n1.loc, n1.size, gap, output),
        normalize_rel(d, n2),
        arrange_rel(n2, e, n2.loc, n2.size, gap, output),
    ensures
        d.same_tree(e),
{
    lemma_normalize_noop(c0, n1);
    lemma_same_tree_shape(c0, n1);
    lemma_same_shape_preds(c0, n1);
    lemma_arrange_shape(n1, d, n1.loc, n1.size, gap, output);
    lemma_same_shape_preds(n1, d);
    lemma_normalize_noop(d, n2);
    lemma_same_tree_shape(d, n2);
    // both passes arranged the same shape in the same space
    lemma_same_shape_sym(d, n2);
    lemma_same_shape_sym(n1, d);
    lemma_same_shape_trans(n2, d, n1);
    assert(n2.loc == d.loc && n2.size == d.size);
    assert(d.loc == n1.loc && d.size == n1.size);
    lemma_same_shape_sym(n2, n1);
    lemma_arrange_congruent(n1, n2, d, e, n1.loc, n1.size, gap, output);
}

/// Fullscreen round trip: the fullscreen toggles touch only geometry —
/// the tree's shape is untouched — and leaving fullscreen restores the
/// root frame.  A tree of the same shape, redrawn in the same root frame,
/// gets the exact same place and size at every node, so the tiling
/// geometry after the round trip is the one the override interrupted.
/// Stated for normalized trees (no dead window, no orphan), which every
/// successful redraw leaves behind.
pub proof fn lemma_fullscreen_round_trip(
    r0: Container,
    r1: Container,
    n0: Container,
    d0: Container,
    n1: Container,
    d1: Container,
    gap: u32,
    output: Size,
)
    requires
        r0.wf(),
        r1.wf(),
        no_dead(r0),
        orphan_free(r0),
        r0.same_shape(r1),
        r1.loc == r0.loc,
        r1.size == r0.size,
        normalize_rel(r0, n0),
        arrange_rel(n0, d0, n0.loc, n0.size, gap, output),
        normalize_rel(r1, n1),
        arrange_rel(n1, d1, n1.loc, n1.size, gap, output),
    ensures
        d0.same_tree(d1),
{
    lemma_same_shape_preds(r0, r1);
    lemma_normalize_noop(r0, n0);
    lemma_normalize_noop(r1, n1);
    lemma_same_tree_shape(r0, n0);
    lemma_same_tree_shape(r1, n1);
    lemma_same_shape_sym(r0, n0);
    lemma_same_shape_trans(n0, r0, r1);
    lemma_same_shape_trans(n0, r1, n1);
    assert(n0.loc == r0.loc && n0.size == r0.size);
    assert(n1.loc == r1.loc && n1.size == r1.size);
    lemma_arrange_congruent(n0, n1, d0, d1, n0.loc, n0.size, gap, output);
}

/// Floating exclusion: a floating window takes no tiling slot — the count
/// of tiled entries is as if it were absent — and the layout pass always
/// centers it on the output at its preferred size, never giving it
/// slot-based geometry.
pub proof fn lemma_floating_excluded(
    pre: Container,
    post: Container,
    loc: Point,
    size: Size,
    gap: u32,
    output: Size,
    k: int,
)
    requires
        arrange_rel(pre, post, loc, size, gap, output),
        0 <= k < pre.nodes.items@.len(),
        pre.nodes.items@[k] matches Node::Window(w) && w.floating,
    ensures
        count_tiled(pre.nodes.items@) == count_tiled(pre.nodes.items@.remove(k)),
        post.nodes.items@[k] matches Node::Window(v) && v.size
            == (if (pre.nodes.items@[k]->Window_0).configured {
            (pre.nodes.items@[k]->Window_0).initial_size
        } else {
            (pre.nodes.items@[k]->Window_0).size
        }) && v.loc == (if (pre.nodes.items@[k]->Window_0).configured {
            crate::geometry::center_spec(output, (pre.nodes.items@[k]->Window_0).initial_size)
        } else {
            Point { x: 0, y: 0 }
        }),
{
    lemma_count_tiled_remove(pre.nodes.items@, k);
    assert(arranged_at(pre, post.nodes.items@, k, loc, size, gap, output));
}

/// Taking one non-tiled entry out leaves the count of tiled entries as it
/// was.
pub proof fn lemma_count_tiled_remove(s: Seq<Node>, k: int)
    requires
        0 <= k < s.len(),
        !is_tiled(s[k]),
    ensures
        count_tiled(s) == count_tiled(s.remove(k)),
    decreases s.len(),
{
    if k == s.len() - 1 {
        assert(s.remove(k) =~= s.drop_last());
    } else {
        assert(s.remove(k).drop_last() =~= s.drop_last().remove(k));
        lemma_count_tiled_remove(s.drop_last(), k);
        assert(s.remove(k).last() == s.last());
    }
}

} // verus!
