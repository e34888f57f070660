//! Tree nodes and the identifier allocator.
//!
//! A node is either a window handle or a whole sub-container; every node
//! carries an id issued by [`IdAllocator`], and lookups throughout the tree
//! go by that id.

use vstd::prelude::*;

use crate::container::Container;
use crate::window::WindowWrap;

verus! {

/// One entry of a container: a window, or a nested container.
pub enum Node {
    Container(Container),
    Window(WindowWrap),
}

impl Node {
    pub open spec fn is_container_spec(self) -> bool {
        self is Container
    }

    pub fn is_container(&self) -> (r: bool)
        ensures
            r == self.is_container_spec(),
    {
        match self {
            Node::Container(_) => true,
            Node::Window(_) => false,
        }
    }

    pub open spec fn id_spec(self) -> u32 {
        match self {
            Node::Container(c) => c.id,
            Node::Window(w) => w.id,
        }
    }

    pub fn id(&self) -> (r: u32)
        ensures
            r == self.id_spec(),
    {
        match self {
            Node::Container(c) => c.id,
            Node::Window(w) => w.id,
        }
    }

    /// Whether this node takes a tiling slot.
    pub fn tiled(&self) -> (r: bool)
        ensures
            r == crate::nodemap::is_tiled(*self),
    {
        match self {
            Node::Container(_) => true,
            Node::Window(w) => !w.floating,
        }
    }

    /// Whether this node survives a dead-window sweep.
    pub fn live(&self) -> (r: bool)
        ensures
            r == crate::nodemap::is_live(*self),
    {
        match self {
            Node::Container(_) => true,
            Node::Window(w) => w.alive,
        }
    }
}

/// Issues ids unique for the lifetime of one compositor instance.  The
/// allocator is owned by the workspace it serves, so the core carries no
/// ambient global state.
pub struct IdAllocator {
    pub value: u32,
}

impl IdAllocator {
    pub fn new() -> (r: IdAllocator)
        ensures
            r.value == 0,
    {
        IdAllocator { value: 0 }
    }

    /// The most recently issued id (0 before any call to `next`).
    pub fn get(&self) -> (r: u32)
        ensures
            r == self.value,
    {
        self.value
    }

    /// Issue a fresh id, greater than every id issued before.
    pub fn next(&mut self) -> (r: u32)
        requires
            old(self).value < u32::MAX,
        ensures
            r == old(self).value + 1,
            final(self).value == old(self).value + 1,
    {
        self.value = self.value + 1;
        self.value
    }
}

} // verus!
