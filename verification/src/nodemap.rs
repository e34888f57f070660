//! The ordered, focus-tracking collection of one container's children.
//!
//! Two structures are kept in step: the arrangement order (`spine`, a
//! sequence of ids) and the lookup table (`items`, the entries in the same
//! order).  The focused index, when present, always points at a window
//! entry.  Every operation preserves [`NodeMap::links_ok`], so the order
//! and the table can never disagree.

use vstd::prelude::*;

use crate::node::Node;
use crate::window::WindowWrap;

verus! {

/// A node that takes part in tiling: any sub-container, and any window
/// that is not floating.
pub open spec fn is_tiled(n: Node) -> bool {
    match n {
        Node::Container(_) => true,
        Node::Window(w) => !w.floating,
    }
}

/// A node whose underlying surface is still alive; containers always are.
pub open spec fn is_live(n: Node) -> bool {
    match n {
        Node::Container(_) => true,
        Node::Window(w) => w.alive,
    }
}

pub open spec fn count_tiled(s: Seq<Node>) -> nat
    decreases s.len(),
{
    if s.len() == 0 {
        0
    } else {
        count_tiled(s.drop_last()) + if is_tiled(s.last()) {
            1nat
        } else {
            0nat
        }
    }
}

pub open spec fn count_windows(s: Seq<Node>) -> nat
    decreases s.len(),
{
    if s.len() == 0 {
        0
    } else {
        count_windows(s.drop_last()) + if s.last() is Container {
            0nat
        } else {
            1nat
        }
    }
}

pub open spec fn count_containers(s: Seq<Node>) -> nat
    decreases s.len(),
{
    if s.len() == 0 {
        0
    } else {
        count_containers(s.drop_last()) + if s.last() is Container {
            1nat
        } else {
            0nat
        }
    }
}

/// The window handles among `s`, in arrangement order.
pub open spec fn windows_of(s: Seq<Node>) -> Seq<WindowWrap>
    decreases s.len(),
{
    if s.len() == 0 {
        Seq::empty()
    } else {
        windows_of(s.drop_last()) + match s.last() {
            Node::Window(w) => seq![w],
            Node::Container(_) => Seq::empty(),
        }
    }
}

/// The container nodes among `s`, in arrangement order.
pub open spec fn containers_of(s: Seq<Node>) -> Seq<Node>
    decreases s.len(),
{
    if s.len() == 0 {
        Seq::empty()
    } else {
        containers_of(s.drop_last()) + if s.last() is Container {
            seq![s.last()]
        } else {
            Seq::empty()
        }
    }
}

/// The window nodes among `s`, in arrangement order.
pub open spec fn window_nodes_of(s: Seq<Node>) -> Seq<Node>
    decreases s.len(),
{
    if s.len() == 0 {
        Seq::empty()
    } else {
        window_nodes_of(s.drop_last()) + if s.last() is Container {
            Seq::empty()
        } else {
            seq![s.last()]
        }
    }
}

/// The nodes of `s` that survive a dead-window sweep, in order.
pub open spec fn live_nodes_of(s: Seq<Node>) -> Seq<Node>
    decreases s.len(),
{
    if s.len() == 0 {
        Seq::empty()
    } else {
        live_nodes_of(s.drop_last()) + if is_live(s.last()) {
            seq![s.last()]
        } else {
            Seq::empty()
        }
    }
}

pub open spec fn count_live(s: Seq<Node>) -> nat {
    live_nodes_of(s).len()
}

/// The id of each node, in the same order.
pub open spec fn node_ids(s: Seq<Node>) -> Seq<u32> {
    s.map_values(|n: Node| n.id_spec())
}

/// The nearest position strictly before `i` holding a live window entry.
pub open spec fn prev_live_window(s: Seq<Node>, i: int) -> Option<int>
    decreases i,
{
    if i <= 0 {
        None
    } else if !(s[i - 1] is Container) && is_live(s[i - 1]) {
        Some(i - 1)
    } else {
        prev_live_window(s, i - 1)
    }
}

/// Where the focus lands after a dead-window sweep: the focused entry keeps
/// it while alive; a dead focused window hands it to the nearest preceding
/// live window; positions are renumbered into the swept order.
pub open spec fn focus_after_sweep(s: Seq<Node>, f: Option<usize>) -> Option<usize> {
    match f {
        None => None,
        Some(j) => if is_live(s[j as int]) {
            Some(count_live(s.take(j as int)) as usize)
        } else {
            match prev_live_window(s, j as int) {
                Some(k) => Some(count_live(s.take(k)) as usize),
                None => None,
            }
        },
    }
}

/// The index of the nearest window entry strictly before position `i`, in
/// arrangement order; the focus falls back to it when the focused entry at
/// `i` goes away.
pub open spec fn prev_window_focus(items: Seq<Node>, i: int) -> Option<usize>
    decreases i,
{
    if i <= 0 {
        None
    } else if !(items[i - 1] is Container) {
        Some((i - 1) as usize)
    } else {
        prev_window_focus(items, i - 1)
    }
}

/// Extending a prefix by one element extends each derived sequence and
/// count by that element's contribution.
pub proof fn lemma_take_step(s: Seq<Node>, i: int)
    requires
        0 <= i < s.len(),
    ensures
        count_tiled(s.take(i + 1)) == count_tiled(s.take(i)) + if is_tiled(s[i]) {
            1nat
        } else {
            0nat
        },
        count_windows(s.take(i + 1)) == count_windows(s.take(i)) + if s[i] is Container {
            0nat
        } else {
            1nat
        },
        count_containers(s.take(i + 1)) == count_containers(s.take(i)) + if s[i] is Container {
            1nat
        } else {
            0nat
        },
        windows_of(s.take(i + 1)) == windows_of(s.take(i)) + (match s[i] {
            Node::Window(w) => seq![w],
            Node::Container(_) => Seq::empty(),
        }),
        containers_of(s.take(i + 1)) == containers_of(s.take(i)) + if s[i] is Container {
            seq![s[i]]
        } else {
            Seq::empty()
        },
        window_nodes_of(s.take(i + 1)) == window_nodes_of(s.take(i)) + if s[i] is Container {
            Seq::empty()
        } else {
            seq![s[i]]
        },
        live_nodes_of(s.take(i + 1)) == live_nodes_of(s.take(i)) + if is_live(s[i]) {
            seq![s[i]]
        } else {
            Seq::empty()
        },
{
    assert(s.take(i + 1).drop_last() =~= s.take(i));
    assert(s.take(i + 1).last() == s[i]);
}

/// Every id of the filtered sequences occurs in the original, and
/// filtering keeps freedom from duplicates.
pub proof fn lemma_window_nodes_ids(s: Seq<Node>)
    ensures
        forall|x: u32| node_ids(window_nodes_of(s)).contains(x) ==> node_ids(s).contains(x),
        node_ids(s).no_duplicates() ==> node_ids(window_nodes_of(s)).no_duplicates(),
    decreases s.len(),
{
    if s.len() > 0 {
        lemma_window_nodes_ids(s.drop_last());
        assert(node_ids(s.drop_last()) =~= node_ids(s).drop_last());
        assert forall|x: u32| node_ids(s.drop_last()).contains(x) implies node_ids(s).contains(
            x,
        ) by {
            let k = choose|k: int|
                0 <= k < node_ids(s.drop_last()).len() && node_ids(s.drop_last())[k] == x;
            assert(node_ids(s)[k] == x);
        }
        if !(s.last() is Container) {
            assert(node_ids(window_nodes_of(s)) =~= node_ids(
                window_nodes_of(s.drop_last()),
            ).push(s.last().id_spec()));
            assert forall|x: u32| node_ids(window_nodes_of(s)).contains(x) implies node_ids(
                s,
            ).contains(x) by {
                let ws = node_ids(window_nodes_of(s));
                let k = choose|k: int| 0 <= k < ws.len() && ws[k] == x;
                if k < ws.len() - 1 {
                    assert(node_ids(window_nodes_of(s.drop_last()))[k] == x);
                    assert(node_ids(window_nodes_of(s.drop_last())).contains(x));
                } else {
                    assert(node_ids(s)[s.len() - 1] == x);
                }
            }
            if node_ids(s).no_duplicates() {
                assert(node_ids(s).drop_last().no_duplicates());
                assert(!node_ids(s).drop_last().contains(s.last().id_spec())) by {
                    if node_ids(s).drop_last().contains(s.last().id_spec()) {
                        let k = choose|k: int|
                            0 <= k < node_ids(s).drop_last().len() && node_ids(
                                s,
                            ).drop_last()[k] == s.last().id_spec();
                        assert(node_ids(s)[k] == node_ids(s)[s.len() - 1]);
                    }
                }
            }
        } else {
            assert(node_ids(window_nodes_of(s)) =~= node_ids(window_nodes_of(s.drop_last())));
            assert forall|x: u32| node_ids(window_nodes_of(s)).contains(x) implies node_ids(
                s,
            ).contains(x) by {
                assert(node_ids(window_nodes_of(s.drop_last())).contains(x));
            }
        }
    }
}

/// As [`lemma_window_nodes_ids`], for the live-node filter.
pub proof fn lemma_live_nodes_ids(s: Seq<Node>)
    ensures
        forall|x: u32| node_ids(live_nodes_of(s)).contains(x) ==> node_ids(s).contains(x),
        node_ids(s).no_duplicates() ==> node_ids(live_nodes_of(s)).no_duplicates(),
    decreases s.len(),
{
    if s.len() > 0 {
        lemma_live_nodes_ids(s.drop_last());
        assert(node_ids(s.drop_last()) =~= node_ids(s).drop_last());
        assert forall|x: u32| node_ids(s.drop_last()).contains(x) implies node_ids(s).contains(
            x,
        ) by {
            let k = choose|k: int|
                0 <= k < node_ids(s.drop_last()).len() && node_ids(s.drop_last())[k] == x;
            assert(node_ids(s)[k] == x);
        }
        if is_live(s.last()) {
            assert(node_ids(live_nodes_of(s)) =~= node_ids(live_nodes_of(s.drop_last())).push(
                s.last().id_spec(),
            ));
            assert forall|x: u32| node_ids(live_nodes_of(s)).contains(x) implies node_ids(
                s,
            ).contains(x) by {
                let ws = node_ids(live_nodes_of(s));
                let k = choose|k: int| 0 <= k < ws.len() && ws[k] == x;
                if k < ws.len() - 1 {
                    assert(node_ids(live_nodes_of(s.drop_last()))[k] == x);
                    assert(node_ids(live_nodes_of(s.drop_last())).contains(x));
                } else {
                    assert(node_ids(s)[s.len() - 1] == x);
                }
            }
            if node_ids(s).no_duplicates() {
                assert(node_ids(s).drop_last().no_duplicates());
                assert(!node_ids(s).drop_last().contains(s.last().id_spec())) by {
                    if node_ids(s).drop_last().contains(s.last().id_spec()) {
                        let k = choose|k: int|
                            0 <= k < node_ids(s).drop_last().len() && node_ids(
                                s,
                            ).drop_last()[k] == s.last().id_spec();
                        assert(node_ids(s)[k] == node_ids(s)[s.len() - 1]);
                    }
                }
            }
        } else {
            assert(node_ids(live_nodes_of(s)) =~= node_ids(live_nodes_of(s.drop_last())));
            assert forall|x: u32| node_ids(live_nodes_of(s)).contains(x) implies node_ids(
                s,
            ).contains(x) by {
                assert(node_ids(live_nodes_of(s.drop_last())).contains(x));
            }
        }
    }
}

/// Order/lookup consistency: under [`NodeMap::links_ok`], which holds of a
/// fresh map and is preserved by every operation, the arrangement order and
/// the lookup table never desynchronize — they hold the same number of
/// ids, and every id of one occurs in the other.
pub proof fn lemma_order_lookup_consistent(m: NodeMap)
    requires
        m.links_ok(),
    ensures
        m.spine@.len() == m.items@.len(),
        forall|i: int|
            0 <= i < m.spine@.len() ==> node_ids(m.items@).contains(#[trigger] m.spine@[i]),
        forall|i: int|
            0 <= i < m.items@.len() ==> m.spine@.contains((#[trigger] m.items@[i]).id_spec()),
{
    assert forall|i: int|
        0 <= i < m.spine@.len() implies node_ids(m.items@).contains(#[trigger] m.spine@[i]) by {
        assert(node_ids(m.items@)[i] == m.spine@[i]);
    }
    assert forall|i: int|
        0 <= i < m.items@.len() implies m.spine@.contains(
        (#[trigger] m.items@[i]).id_spec(),
    ) by {
        assert(m.spine@[i] == m.items@[i].id_spec());
    }
}

/// Among windows alone, the tiled entries are at most the windows.
pub proof fn lemma_tiled_at_most_windows(s: Seq<Node>)
    requires
        forall|k: int| 0 <= k < s.len() ==> !((#[trigger] s[k]) is Container),
    ensures
        count_tiled(s) <= count_windows(s),
    decreases s.len(),
{
    if s.len() > 0 {
        assert forall|k: int|
            0 <= k < s.drop_last().len() implies !((#[trigger] s.drop_last()[k]) is Container) by {
            assert(s.drop_last()[k] == s[k]);
        }
        lemma_tiled_at_most_windows(s.drop_last());
        assert(!(s[s.len() - 1] is Container));
    }
}

/// Filtering never lengthens a sequence.
pub proof fn lemma_filter_lens(s: Seq<Node>)
    ensures
        windows_of(s).len() <= s.len(),
        containers_of(s).len() <= s.len(),
        window_nodes_of(s).len() <= s.len(),
        live_nodes_of(s).len() <= s.len(),
    decreases s.len(),
{
    if s.len() > 0 {
        lemma_filter_lens(s.drop_last());
    }
}

/// In a duplicate-free sequence, `index_of` answers the one position that
/// holds the needle.
pub proof fn lemma_index_of_unique(s: Seq<u32>, x: u32, i: int)
    requires
        s.no_duplicates(),
        0 <= i < s.len(),
        s[i] == x,
    ensures
        s.index_of(x) == i,
{
    assert(exists|j: int| 0 <= j < s.len() && s[j] == x);
    let j = s.index_of(x);
    assert(0 <= j < s.len() && s[j] == x) by {
        assert(exists|j: int| 0 <= j < s.len() && s[j] == x);
    }
}

/// `prev_window_focus` reads only the entries before `i`, so sequences
/// that agree there agree on it.
pub proof fn lemma_prev_window_prefix(a: Seq<Node>, b: Seq<Node>, i: int)
    requires
        0 <= i,
        i <= a.len(),
        i <= b.len(),
        forall|k: int| 0 <= k < i ==> a[k] == b[k],
    ensures
        prev_window_focus(a, i) == prev_window_focus(b, i),
    decreases i,
{
    if i > 0 {
        lemma_prev_window_prefix(a, b, i - 1);
    }
}

/// How the focused index moves when an entry is spliced in at `pos`.
pub open spec fn focus_after_insert(f: Option<usize>, pos: int) -> Option<usize> {
    match f {
        None => None,
        Some(j) => if j >= pos {
            Some((j + 1) as usize)
        } else {
            Some(j)
        },
    }
}

/// How the focused index moves when the entry at `i` is removed: the
/// focused entry keeps the focus while it lives; when it is the one
/// removed, the nearest preceding window entry takes over.
pub open spec fn focus_after_remove(items: Seq<Node>, f: Option<usize>, i: int) -> Option<usize> {
    match f {
        None => None,
        Some(j) => if i == j {
            prev_window_focus(items, i)
        } else if i < j {
            Some((j - 1) as usize)
        } else {
            Some(j)
        },
    }
}

pub struct NodeMap {
    /// Child ids in arrangement order; this order is also the layout order.
    pub spine: Vec<u32>,
    /// The entry for each id of the spine, in the same order.
    pub items: Vec<Node>,
    /// Index into the spine of the focused entry, always a window.
    pub focus: Option<usize>,
}

impl NodeMap {
    /// The arrangement order and the lookup table agree, ids are unique,
    /// and the focus points at a window entry.
    pub open spec fn links_ok(self) -> bool {
        &&& self.items@.len() == self.spine@.len()
        &&& forall|i: int|
            0 <= i < self.spine@.len() ==> (#[trigger] self.items@[i].id_spec()) == self.spine@[i]
        &&& self.spine@.no_duplicates()
        &&& match self.focus {
            Some(j) => j < self.spine@.len() && !(self.items@[j as int] is Container),
            None => true,
        }
    }

    pub open spec fn contains_id(self, id: u32) -> bool {
        self.spine@.contains(id)
    }

    pub fn new() -> (r: NodeMap)
        ensures
            r.spine@ == Seq::<u32>::empty(),
            r.items@ == Seq::<Node>::empty(),
            r.focus is None,
            r.links_ok(),
    {
        NodeMap { spine: Vec::new(), items: Vec::new(), focus: None }
    }

    pub fn len(&self) -> (r: usize)
        ensures
            r == self.spine@.len(),
    {
        self.spine.len()
    }

    pub fn contains(&self, id: u32) -> (r: bool)
        ensures
            r == self.contains_id(id),
    {
        let mut i: usize = 0;
        while i < self.spine.len()
            invariant
                i <= self.spine@.len(),
                forall|k: int| 0 <= k < i ==> self.spine@[k] != id,
            decreases self.spine@.len() - i,
        {
            if self.spine[i] == id {
                return true;
            }
            i = i + 1;
        }
        false
    }

    /// The position of `id` in the arrangement order.
    pub fn index_of(&self, id: u32) -> (r: Option<usize>)
        ensures
            match r {
                Some(i) => i < self.spine@.len() && self.spine@[i as int] == id,
                None => !self.contains_id(id),
            },
    {
        let mut i: usize = 0;
        while i < self.spine.len()
            invariant
                i <= self.spine@.len(),
                forall|k: int| 0 <= k < i ==> self.spine@[k] != id,
            decreases self.spine@.len() - i,
        {
            if self.spine[i] == id {
                return Some(i);
            }
            i = i + 1;
        }
        None
    }

    pub fn has_window(&self) -> (r: bool)
        ensures
            r == exists|i: int| 0 <= i < self.items@.len() && !(#[trigger] self.items@[i] is Container),
    {
        let mut i: usize = 0;
        while i < self.items.len()
            invariant
                i <= self.items@.len(),
                forall|k: int| 0 <= k < i ==> (#[trigger] self.items@[k]) is Container,
            decreases self.items@.len() - i,
        {
            if !self.items[i].is_container() {
                return true;
            }
            i = i + 1;
        }
        false
    }

    /// Append an entry to the arrangement order.  A window takes the focus;
    /// a container leaves it where it was.
    pub fn push(&mut self, node: Node) -> (id: u32)
        requires
            old(self).links_ok(),
            !old(self).contains_id(node.id_spec()),
        ensures
            final(self).links_ok(),
            id == node.id_spec(),
            final(self).spine@ == old(self).spine@.push(id),
            final(self).items@ == old(self).items@.push(node),
            final(self).focus == if !(node is Container) {
                Some(old(self).spine@.len() as usize)
            } else {
                old(self).focus
            },
    {
        let id = node.id();
        let is_container = node.is_container();
        self.spine.push(id);
        self.items.push(node);
        if !is_container {
            self.focus = Some(self.spine.len() - 1);
        }
        proof {
            assert forall|i: int, j: int|
                0 <= i < j < self.spine@.len() implies self.spine@[i] != self.spine@[j] by {
                if j < self.spine@.len() - 1 {
                    assert(old(self).spine@[i] != old(self).spine@[j]);
                } else {
                    assert(old(self).spine@[i] == self.spine@[i]);
                    assert(!old(self).spine@.contains(id));
                }
            }
        }
        id
    }

    /// Splice an entry in immediately after `target`; a window entry takes
    /// the focus.  Answers `None`, changing nothing, when `target` is not
    /// here.
    pub fn insert_after(&mut self, target: u32, node: Node) -> (r: Option<u32>)
        requires
            old(self).links_ok(),
            !old(self).contains_id(node.id_spec()),
        ensures
            final(self).links_ok(),
            !old(self).contains_id(target) ==> r is None && *final(self) == *old(self),
            old(self).contains_id(target) ==> {
                let i = old(self).spine@.index_of(target);
                &&& r == Some(node.id_spec())
                &&& final(self).spine@ == old(self).spine@.insert(i + 1, node.id_spec())
                &&& final(self).items@ == old(self).items@.insert(i + 1, node)
                &&& final(self).focus == if !(node is Container) {
                    Some((i + 1) as usize)
                } else {
                    focus_after_insert(old(self).focus, i + 1)
                }
            },
    {
        match self.index_of(target) {
            None => None,
            Some(i) => {
                proof {
                    lemma_index_of_unique(self.spine@, target, i as int);
                }
                let n = self.spine.len();
                assert(i < n);
                self.insert_at(i + 1, node);
                Some(self.items[i + 1].id())
            },
        }
    }

    /// Splice an entry in immediately before `target`; a window entry takes
    /// the focus.  Answers `None`, changing nothing, when `target` is not
    /// here.
    pub fn insert_before(&mut self, target: u32, node: Node) -> (r: Option<u32>)
        requires
            old(self).links_ok(),
            !old(self).contains_id(node.id_spec()),
        ensures
            final(self).links_ok(),
            !old(self).contains_id(target) ==> r is None && *final(self) == *old(self),
            old(self).contains_id(target) ==> {
                let i = old(self).spine@.index_of(target);
                &&& r == Some(node.id_spec())
                &&& final(self).spine@ == old(self).spine@.insert(i, node.id_spec())
                &&& final(self).items@ == old(self).items@.insert(i, node)
                &&& final(self).focus == if !(node is Container) {
                    Some(i as usize)
                } else {
                    focus_after_insert(old(self).focus, i)
                }
            },
    {
        match self.index_of(target) {
            None => None,
            Some(i) => {
                proof {
                    lemma_index_of_unique(self.spine@, target, i as int);
                }
                self.insert_at(i, node);
                Some(self.items[i].id())
            },
        }
    }

    /// Splice an entry in at position `pos`.
    fn insert_at(&mut self, pos: usize, node: Node)
        requires
            old(self).links_ok(),
            !old(self).contains_id(node.id_spec()),
            pos <= old(self).spine@.len(),
        ensures
            final(self).links_ok(),
            final(self).spine@ == old(self).spine@.insert(pos as int, node.id_spec()),
            final(self).items@ == old(self).items@.insert(pos as int, node),
            final(self).focus == if !(node is Container) {
                Some(pos)
            } else {
                focus_after_insert(old(self).focus, pos as int)
            },
    {
        let id = node.id();
        let is_container = node.is_container();
        let n = self.spine.len();
        if !is_container {
            self.focus = Some(pos);
        } else {
            match self.focus {
                Some(j) => {
                    assert(j < n);
                    if j >= pos {
                        self.focus = Some(j + 1);
                    }
                },
                None => {},
            }
        }
        self.spine.insert(pos, id);
        self.items.insert(pos, node);
        proof {
            let s = self.spine@;
            let olds = old(self).spine@;
            assert forall|i: int, j: int| 0 <= i < j < s.len() implies s[i] != s[j] by {
                let oi: int = if i < pos { i } else { i - 1 };
                let oj: int = if j < pos { j } else { j - 1 };
                if i == pos {
                    assert(!olds.contains(id));
                    assert(s[j] == olds[oj]);
                } else if j == pos {
                    assert(!olds.contains(id));
                    assert(s[i] == olds[oi]);
                } else {
                    assert(s[i] == olds[oi] && s[j] == olds[oj]);
                }
            }
        }
    }

    /// Delete `id` from the order and the table at once; reports the entry
    /// that left, or `None`, changing nothing, when `id` is not here.
    pub fn remove(&mut self, id: u32) -> (r: Option<Node>)
        requires
            old(self).links_ok(),
        ensures
            final(self).links_ok(),
            !old(self).contains_id(id) ==> r is None && *final(self) == *old(self),
            old(self).contains_id(id) ==> {
                let i = old(self).spine@.index_of(id);
                &&& r == Some(old(self).items@[i])
                &&& final(self).spine@ == old(self).spine@.remove(i)
                &&& final(self).items@ == old(self).items@.remove(i)
                &&& final(self).focus == focus_after_remove(old(self).items@, old(self).focus, i)
            },
    {
        match self.index_of(id) {
            None => None,
            Some(i) => {
                proof {
                    lemma_index_of_unique(self.spine@, id, i as int);
                }
                self.spine.remove(i);
                let node = self.items.remove(i);
                match self.focus {
                    Some(j) => {
                        if i == j {
                            self.focus = Self::prev_window(&self.items, i);
                            proof {
                                lemma_prev_window_prefix(old(self).items@, self.items@, i as int);
                            }
                        } else if i < j {
                            self.focus = Some(j - 1);
                        }
                    },
                    None => {},
                }
                proof {
                    let s = self.spine@;
                    let olds = old(self).spine@;
                    assert forall|a: int, b: int| 0 <= a < b < s.len() implies s[a] != s[b] by {
                        let oa: int = if a < i { a } else { a + 1 };
                        let ob: int = if b < i { b } else { b + 1 };
                        assert(s[a] == olds[oa] && s[b] == olds[ob]);
                    }
                }
                Some(node)
            },
        }
    }

    /// Replace the focused entry wholesale by a new entry with a fresh id;
    /// the focus falls back to the nearest preceding window.  Used by the
    /// split, which puts the new container where the focused window was.
    pub fn replace_focused(&mut self, node: Node)
        requires
            old(self).links_ok(),
            old(self).focus is Some,
            !old(self).contains_id(node.id_spec()),
            node is Container,
        ensures
            final(self).links_ok(),
            ({
                let j = old(self).focus->0 as int;
                &&& final(self).spine@ == old(self).spine@.update(j, node.id_spec())
                &&& final(self).items@ == old(self).items@.update(j, node)
                &&& final(self).focus == prev_window_focus(old(self).items@, j)
            }),
    {
        let j = match self.focus {
            Some(j) => j,
            None => 0,
        };
        let id = node.id();
        self.spine.set(j, id);
        self.items.set(j, node);
        self.focus = Self::prev_window(&self.items, j);
        proof {
            lemma_prev_window_prefix(old(self).items@, self.items@, j as int);
            let s = self.spine@;
            let olds = old(self).spine@;
            assert forall|a: int, b: int| 0 <= a < b < s.len() implies s[a] != s[b] by {
                if a != j && b != j {
                    assert(s[a] == olds[a] && s[b] == olds[b]);
                } else if a == j {
                    assert(s[b] == olds[b]);
                    assert(olds.contains(olds[b]));
                } else {
                    assert(s[a] == olds[a]);
                    assert(olds.contains(olds[a]));
                }
            }
            match self.focus {
                Some(f) => {
                    assert(self.items@[f as int] == old(self).items@[f as int]);
                },
                None => {},
            }
        }
    }

    /// The nearest window entry strictly before position `i` of `items`.
    fn prev_window(items: &Vec<Node>, i: usize) -> (r: Option<usize>)
        requires
            i <= items@.len(),
        ensures
            r == prev_window_focus(items@, i as int),
            match r {
                Some(k) => k < i && !(items@[k as int] is Container),
                None => true,
            },
    {
        let mut k: usize = i;
        while k > 0
            invariant
                k <= i <= items@.len(),
                prev_window_focus(items@, i as int) == prev_window_focus(items@, k as int),
            decreases k,
        {
            if !items[k - 1].is_container() {
                return Some(k - 1);
            }
            k = k - 1;
        }
        None
    }

    /// Focus the entry with this id, provided it is a window entry; any
    /// other id leaves the focus alone.
    pub fn set_focus(&mut self, id: u32)
        requires
            old(self).links_ok(),
        ensures
            final(self).links_ok(),
            final(self).spine@ == old(self).spine@,
            final(self).items@ == old(self).items@,
            final(self).focus == {
                let i = old(self).spine@.index_of(id);
                if old(self).contains_id(id) && !(old(self).items@[i] is Container) {
                    Some(i as usize)
                } else {
                    old(self).focus
                }
            },
    {
        match self.index_of(id) {
            None => {},
            Some(i) => {
                proof {
                    lemma_index_of_unique(self.spine@, id, i as int);
                }
                if !self.items[i].is_container() {
                    self.focus = Some(i);
                }
            },
        }
    }

    /// The focused entry, always a window entry when present.
    pub fn get_focused(&self) -> (r: Option<&Node>)
        requires
            self.links_ok(),
        ensures
            match self.focus {
                Some(j) => r matches Some(n) && *n == self.items@[j as int],
                None => r is None,
            },
    {
        match self.focus {
            Some(j) => Some(&self.items[j]),
            None => None,
        }
    }

    /// Look an entry up by id.
    pub fn get(&self, id: u32) -> (r: Option<&Node>)
        requires
            self.links_ok(),
        ensures
            !self.contains_id(id) ==> r is None,
            self.contains_id(id) ==> (r matches Some(n) && *n == self.items@[self.spine@.index_of(
                id,
            )]),
    {
        match self.index_of(id) {
            None => None,
            Some(i) => {
                proof {
                    lemma_index_of_unique(self.spine@, id, i as int);
                }
                Some(&self.items[i])
            },
        }
    }

    pub fn window_count(&self) -> (r: usize)
        ensures
            r == count_windows(self.items@),
    {
        let mut r: usize = 0;
        let mut i: usize = 0;
        while i < self.items.len()
            invariant
                i <= self.items@.len(),
                r <= i,
                r == count_windows(self.items@.take(i as int)),
            decreases self.items@.len() - i,
        {
            proof {
                lemma_take_step(self.items@, i as int);
            }
            if !self.items[i].is_container() {
                r = r + 1;
            }
            i = i + 1;
        }
        proof {
            assert(self.items@.take(i as int) =~= self.items@);
        }
        r
    }

    pub fn container_count(&self) -> (r: usize)
        ensures
            r == count_containers(self.items@),
    {
        let mut r: usize = 0;
        let mut i: usize = 0;
        while i < self.items.len()
            invariant
                i <= self.items@.len(),
                r <= i,
                r == count_containers(self.items@.take(i as int)),
            decreases self.items@.len() - i,
        {
            proof {
                lemma_take_step(self.items@, i as int);
            }
            if self.items[i].is_container() {
                r = r + 1;
            }
            i = i + 1;
        }
        proof {
            assert(self.items@.take(i as int) =~= self.items@);
        }
        r
    }

    /// How many entries take a tiling slot: sub-containers, and windows
    /// that are not floating.
    pub fn tiled_count(&self) -> (r: usize)
        ensures
            r == count_tiled(self.items@),
    {
        let mut r: usize = 0;
        let mut i: usize = 0;
        while i < self.items.len()
            invariant
                i <= self.items@.len(),
                r <= i,
                r == count_tiled(self.items@.take(i as int)),
            decreases self.items@.len() - i,
        {
            proof {
                lemma_take_step(self.items@, i as int);
            }
            if self.items[i].tiled() {
                r = r + 1;
            }
            i = i + 1;
        }
        proof {
            assert(self.items@.take(i as int) =~= self.items@);
        }
        r
    }

    /// The child ids in arrangement order.
    pub fn iter_spine(&self) -> (r: Vec<u32>)
        ensures
            r@ == self.spine@,
    {
        let mut r: Vec<u32> = Vec::new();
        let mut i: usize = 0;
        while i < self.spine.len()
            invariant
                i <= self.spine@.len(),
                r@ == self.spine@.take(i as int),
            decreases self.spine@.len() - i,
        {
            r.push(self.spine[i]);
            proof {
                assert(r@ =~= self.spine@.take(i as int + 1));
            }
            i = i + 1;
        }
        proof {
            assert(self.spine@.take(i as int) =~= self.spine@);
        }
        r
    }

    /// The ids of the container entries, in arrangement order.
    pub fn iter_containers(&self) -> (r: Vec<u32>)
        ensures
            r@ == node_ids(containers_of(self.items@)),
    {
        let mut r: Vec<u32> = Vec::new();
        let mut i: usize = 0;
        while i < self.items.len()
            invariant
                i <= self.items@.len(),
                r@ == node_ids(containers_of(self.items@.take(i as int))),
            decreases self.items@.len() - i,
        {
            proof {
                lemma_take_step(self.items@, i as int);
            }
            match &self.items[i] {
                Node::Container(c) => {
                    r.push(c.id);
                    proof {
                        assert(r@ =~= node_ids(containers_of(self.items@.take(i as int + 1))));
                    }
                },
                Node::Window(_) => {
                    proof {
                        assert(r@ =~= node_ids(containers_of(self.items@.take(i as int + 1))));
                    }
                },
            }
            i = i + 1;
        }
        proof {
            assert(self.items@.take(self.items@.len() as int) =~= self.items@);
        }
        r
    }

    /// The window handles held here, in arrangement order.
    pub fn iter_windows(&self) -> (r: Vec<WindowWrap>)
        ensures
            r@ == windows_of(self.items@),
    {
        let mut r: Vec<WindowWrap> = Vec::new();
        let mut i: usize = 0;
        while i < self.items.len()
            invariant
                i <= self.items@.len(),
                r@ == windows_of(self.items@.take(i as int)),
            decreases self.items@.len() - i,
        {
            proof {
                lemma_take_step(self.items@, i as int);
            }
            match &self.items[i] {
                Node::Window(w) => {
                    r.push(*w);
                },
                Node::Container(_) => {},
            }
            i = i + 1;
        }
        proof {
            assert(self.items@.take(i as int) =~= self.items@);
        }
        r
    }

    /// Remove and return every container entry, keeping the windows in
    /// order; the focused window keeps the focus at its new position.
    /// Used when a container's children are lifted into its parent.
    pub fn drain_containers(&mut self) -> (r: Vec<Node>)
        requires
            old(self).links_ok(),
        ensures
            final(self).links_ok(),
            r@ == containers_of(old(self).items@),
            final(self).items@ == window_nodes_of(old(self).items@),
            final(self).spine@ == node_ids(window_nodes_of(old(self).items@)),
            final(self).focus == match old(self).focus {
                None => None,
                Some(j) => Some(window_nodes_of(old(self).items@.take(j as int)).len() as usize),
            },
    {
        let ghost olditems = self.items@;
        let ghost oldfocus = self.focus;
        let mut work: Vec<Node> = Vec::new();
        core::mem::swap(&mut self.items, &mut work);
        let total = work.len();
        let mut kept_items: Vec<Node> = Vec::new();
        let mut kept_spine: Vec<u32> = Vec::new();
        let mut out: Vec<Node> = Vec::new();
        let mut newfocus: Option<usize> = None;
        let mut i: usize = 0;
        while work.len() > 0
            invariant
                i <= olditems.len(),
                olditems.len() == total,
                work@ =~= olditems.skip(i as int),
                out@ == containers_of(olditems.take(i as int)),
                kept_items@ == window_nodes_of(olditems.take(i as int)),
                kept_spine@ == node_ids(window_nodes_of(olditems.take(i as int))),
                newfocus == match oldfocus {
                    Some(j) => if j < i {
                        Some(window_nodes_of(olditems.take(j as int)).len() as usize)
                    } else {
                        None::<usize>
                    },
                    None => None::<usize>,
                },
                match newfocus {
                    Some(f) => f < kept_items@.len() && !(kept_items@[f as int] is Container),
                    None => true,
                },
                oldfocus == old(self).focus,
                olditems == old(self).items@,
                old(self).links_ok(),
                self.focus == oldfocus,
            decreases work@.len(),
        {
            proof {
                lemma_filter_lens(olditems.take(i as int));
            }
            let node = work.remove(0);
            proof {
                assert(node == olditems[i as int]);
                assert(olditems.skip(i as int).remove(0) =~= olditems.skip(i as int + 1));
                lemma_take_step(olditems, i as int);
                assert(node_ids(window_nodes_of(olditems.take(i as int + 1))) =~= if node
                    is Container {
                    node_ids(window_nodes_of(olditems.take(i as int)))
                } else {
                    node_ids(window_nodes_of(olditems.take(i as int))).push(node.id_spec())
                });
            }
            let is_cont = node.is_container();
            if is_cont {
                out.push(node);
            } else {
                let id = node.id();
                kept_spine.push(id);
                kept_items.push(node);
                let was_focused = match self.focus {
                    Some(j) => j == i,
                    None => false,
                };
                if was_focused {
                    newfocus = Some(kept_items.len() - 1);
                }
            }
            i = i + 1;
        }
        proof {
            assert(olditems.take(i as int) =~= olditems);
            lemma_window_nodes_ids(olditems);
            assert(node_ids(olditems) =~= old(self).spine@);
        }
        self.items = kept_items;
        self.spine = kept_spine;
        self.focus = newfocus;
        out
    }

    /// Remove and return every entry, in arrangement order, leaving the
    /// collection empty.  Used when a container's children move wholesale
    /// into another container.
    pub fn drain_all(&mut self) -> (r: Vec<Node>)
        ensures
            r@ == old(self).items@,
            final(self).spine@ == Seq::<u32>::empty(),
            final(self).items@ == Seq::<Node>::empty(),
            final(self).focus is None,
            final(self).links_ok(),
    {
        let mut out: Vec<Node> = Vec::new();
        core::mem::swap(&mut self.items, &mut out);
        self.spine.clear();
        self.focus = None;
        out
    }

    /// Append entries wholesale, leaving the focus alone.  The new ids must
    /// be fresh and mutually distinct.
    pub fn extend(&mut self, other: Vec<Node>)
        requires
            old(self).links_ok(),
            node_ids(other@).no_duplicates(),
            forall|k: int|
                0 <= k < other@.len() ==> !old(self).contains_id(
                    (#[trigger] other@[k]).id_spec(),
                ),
        ensures
            final(self).links_ok(),
            final(self).spine@ == old(self).spine@ + node_ids(other@),
            final(self).items@ == old(self).items@ + other@,
            final(self).focus == old(self).focus,
    {
        let ghost all = other@;
        let ghost oldspine = self.spine@;
        let ghost olditems = self.items@;
        let mut work = other;
        let total = work.len();
        let mut i: usize = 0;
        while work.len() > 0
            invariant
                self.focus == old(self).focus,
                i <= all.len(),
                all.len() == total,
                work@ =~= all.skip(i as int),
                self.spine@ =~= oldspine + node_ids(all.take(i as int)),
                self.items@ =~= olditems + all.take(i as int),
                old(self).links_ok(),
                oldspine == old(self).spine@,
                olditems == old(self).items@,
                node_ids(all).no_duplicates(),
                forall|k: int|
                    0 <= k < all.len() ==> !old(self).contains_id((#[trigger] all[k]).id_spec()),
                self.spine@.no_duplicates(),
            decreases work@.len(),
        {
            let node = work.remove(0);
            proof {
                assert(node == all[i as int]);
                assert(all.skip(i as int).remove(0) =~= all.skip(i as int + 1));
                assert(node_ids(all.take(i as int + 1)) =~= node_ids(all.take(i as int)).push(
                    node.id_spec(),
                ));
                assert(all.take(i as int + 1) =~= all.take(i as int).push(node));
            }
            let id = node.id();
            proof {
                let s = self.spine@.push(id);
                assert forall|a: int, b: int| 0 <= a < b < s.len() implies s[a] != s[b] by {
                    if b == s.len() - 1 {
                        if a < oldspine.len() {
                            assert(!old(self).contains_id(id));
                            assert(oldspine[a] == s[a]);
                            assert(oldspine.contains(oldspine[a]));
                        } else {
                            let ka = a - oldspine.len();
                            assert(node_ids(all)[ka] == s[a]);
                            assert(node_ids(all)[i as int] == id);
                        }
                    }
                }
            }
            self.spine.push(id);
            self.items.push(node);
            i = i + 1;
        }
        proof {
            assert(all.take(i as int) =~= all);
        }
    }

    /// Discard every window entry whose surface has died.  The focus stays
    /// with the focused window while it lives; a dead focused window hands
    /// it to the nearest preceding live window.
    pub fn remove_dead_windows(&mut self)
        requires
            old(self).links_ok(),
        ensures
            final(self).links_ok(),
            final(self).items@ == live_nodes_of(old(self).items@),
            final(self).spine@ == node_ids(live_nodes_of(old(self).items@)),
            final(self).focus == focus_after_sweep(old(self).items@, old(self).focus),
    {
        let ghost olditems = self.items@;
        let ghost oldfocus = self.focus;
        let mut work: Vec<Node> = Vec::new();
        core::mem::swap(&mut self.items, &mut work);
        let total = work.len();
        let mut kept_items: Vec<Node> = Vec::new();
        let mut kept_spine: Vec<u32> = Vec::new();
        let mut newfocus: Option<usize> = None;
        let mut last_live: Option<usize> = None;
        let mut i: usize = 0;
        while work.len() > 0
            invariant
                i <= olditems.len(),
                olditems.len() == total,
                work@ =~= olditems.skip(i as int),
                kept_items@ == live_nodes_of(olditems.take(i as int)),
                kept_spine@ == node_ids(live_nodes_of(olditems.take(i as int))),
                old(self).links_ok(),
                olditems == old(self).items@,
                oldfocus == old(self).focus,
                self.focus == oldfocus,
                last_live == match prev_live_window(olditems, i as int) {
                    Some(k) => Some(count_live(olditems.take(k)) as usize),
                    None => None::<usize>,
                },
                match last_live {
                    Some(f) => f < kept_items@.len() && !(kept_items@[f as int] is Container)
                        && is_live(kept_items@[f as int]),
                    None => true,
                },
                newfocus == match oldfocus {
                    Some(j) => if j < i {
                        focus_after_sweep(olditems, oldfocus)
                    } else {
                        None::<usize>
                    },
                    None => None::<usize>,
                },
                match newfocus {
                    Some(f) => f < kept_items@.len() && !(kept_items@[f as int] is Container),
                    None => true,
                },
            decreases work@.len(),
        {
            let node = work.remove(0);
            proof {
                lemma_filter_lens(olditems.take(i as int));
                assert(node == olditems[i as int]);
                assert(olditems.skip(i as int).remove(0) =~= olditems.skip(i as int + 1));
                lemma_take_step(olditems, i as int);
                assert(node_ids(live_nodes_of(olditems.take(i as int + 1))) =~= if is_live(node) {
                    node_ids(live_nodes_of(olditems.take(i as int))).push(node.id_spec())
                } else {
                    node_ids(live_nodes_of(olditems.take(i as int)))
                });
            }
            let keep = node.live();
            let was_focused = match self.focus {
                Some(j) => j == i,
                None => false,
            };
            if keep {
                let is_window = !node.is_container();
                let id = node.id();
                kept_spine.push(id);
                kept_items.push(node);
                if is_window {
                    last_live = Some(kept_items.len() - 1);
                }
                if was_focused {
                    newfocus = Some(kept_items.len() - 1);
                }
            } else {
                if was_focused {
                    newfocus = last_live;
                }
            }
            i = i + 1;
        }
        proof {
            assert(olditems.take(i as int) =~= olditems);
            lemma_live_nodes_ids(olditems);
            assert(node_ids(olditems) =~= old(self).spine@);
        }
        self.items = kept_items;
        self.spine = kept_spine;
        self.focus = newfocus;
    }

    pub fn has_container(&self) -> (r: bool)
        ensures
            r == exists|i: int| 0 <= i < self.items@.len() && (#[trigger] self.items@[i]) is Container,
    {
        let mut i: usize = 0;
        while i < self.items.len()
            invariant
                i <= self.items@.len(),
                forall|k: int| 0 <= k < i ==> !((#[trigger] self.items@[k]) is Container),
            decreases self.items@.len() - i,
        {
            if self.items[i].is_container() {
                return true;
            }
            i = i + 1;
        }
        false
    }
}

} // verus!
