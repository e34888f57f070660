//! The compositor-local state of one top-level window.
//!
//! The protocol layer owns the actual surface; the tree keeps a handle of
//! plain values: the id, the floating flag, whether the client acknowledged
//! its first configure, the size the client asked for, and the geometry the
//! last layout pass assigned.  Surface death is reported asynchronously by
//! the protocol layer through [`WindowWrap::mark_dead`]; dead handles are
//! culled by the next redraw sweep.

use vstd::prelude::*;

use crate::geometry::{center_spec, center_on, point_ok, size_ok, Point, Rect, Size};

verus! {

/// Z tier used when a window participates in tiling.
pub const TILING_Z_INDEX: u8 = 100;

/// Z tier used when a window floats above the tiled layer.
pub const FLOATING_Z_INDEX: u8 = 255;

#[derive(Clone, Copy, PartialEq, Eq, Structural, Debug)]
pub struct WindowWrap {
    pub id: u32,
    pub floating: bool,
    pub configured: bool,
    pub alive: bool,
    pub activated: bool,
    pub initial_size: Size,
    pub size: Size,
    pub loc: Point,
}

impl WindowWrap {
    pub open spec fn wf(self) -> bool {
        &&& size_ok(self.initial_size)
        &&& size_ok(self.size)
        &&& point_ok(self.loc)
    }

    /// The state of a fresh handle with the given id.
    pub open spec fn new_spec(id: u32) -> WindowWrap {
        WindowWrap {
            id,
            floating: false,
            configured: false,
            alive: true,
            activated: false,
            initial_size: Size { w: 0, h: 0 },
            size: Size { w: 0, h: 0 },
            loc: Point { x: 0, y: 0 },
        }
    }

    /// A fresh handle for a surface that was just accepted into the tree.
    pub fn new(id: u32) -> (w: WindowWrap)
        ensures
            w == Self::new_spec(id),
            w.wf(),
    {
        WindowWrap {
            id,
            floating: false,
            configured: false,
            alive: true,
            activated: false,
            initial_size: Size { w: 0, h: 0 },
            size: Size { w: 0, h: 0 },
            loc: Point { x: 0, y: 0 },
        }
    }

    pub fn id(&self) -> (r: u32)
        ensures
            r == self.id,
    {
        self.id
    }

    pub fn is_floating(&self) -> (r: bool)
        ensures
            r == self.floating,
    {
        self.floating
    }

    pub fn toggle_floating(&mut self)
        ensures
            *final(self) == (WindowWrap { floating: !old(self).floating, ..*old(self) }),
    {
        self.floating = !self.floating;
    }

    pub fn configured(&self) -> (r: bool)
        ensures
            r == self.configured,
    {
        self.configured
    }

    /// The client acknowledged its first configure event.
    pub fn set_configured(&mut self)
        ensures
            *final(self) == (WindowWrap { configured: true, ..*old(self) }),
    {
        self.configured = true;
    }

    pub fn initial_size(&self) -> (r: Size)
        ensures
            r == self.initial_size,
    {
        self.initial_size
    }

    /// Record the size the client announced for its surface.
    pub fn set_initial_geometry(&mut self, size: Size)
        requires
            size_ok(size),
        ensures
            *final(self) == (WindowWrap { initial_size: size, ..*old(self) }),
    {
        self.initial_size = size;
    }

    pub fn size(&self) -> (r: Size)
        ensures
            r == self.size,
    {
        self.size
    }

    pub fn loc(&self) -> (r: Point)
        ensures
            r == self.loc,
    {
        self.loc
    }

    pub fn alive(&self) -> (r: bool)
        ensures
            r == self.alive,
    {
        self.alive
    }

    /// The protocol layer learned that the surface died (client crash,
    /// unannounced close); the handle stays in the tree until the next
    /// redraw sweep discards it.
    pub fn mark_dead(&mut self)
        ensures
            *final(self) == (WindowWrap { alive: false, ..*old(self) }),
    {
        self.alive = false;
    }

    pub fn z_index(&self) -> (r: u8)
        ensures
            r == self.z_index_spec(),
    {
        if self.floating {
            FLOATING_Z_INDEX
        } else {
            TILING_Z_INDEX
        }
    }

    pub open spec fn z_index_spec(self) -> u8 {
        if self.floating {
            FLOATING_Z_INDEX
        } else {
            TILING_Z_INDEX
        }
    }

    /// Where this window sits when centered on an output of size
    /// `output_size`, going by its preferred size.
    pub fn center(&self, output_size: Size) -> (r: Point)
        requires
            size_ok(output_size),
            self.wf(),
        ensures
            r == center_spec(output_size, self.initial_size),
            point_ok(r),
    {
        center_on(output_size, self.initial_size)
    }

    /// The geometry this window takes after `update_loc_and_size(size, loc)`.
    pub open spec fn with_geometry(self, size: Option<Size>, loc: Point) -> WindowWrap {
        WindowWrap {
            loc,
            size: match size {
                Some(s) => s,
                None => self.size,
            },
            ..self
        }
    }

    /// Assign new geometry; reports whether anything changed, so a caller
    /// can skip reconfiguring an untouched client.
    pub fn update_loc_and_size(&mut self, size: Option<Size>, loc: Point) -> (changed: bool)
        requires
            match size {
                Some(s) => size_ok(s),
                None => true,
            },
            point_ok(loc),
        ensures
            *final(self) == old(self).with_geometry(size, loc),
            changed == (*final(self) != *old(self)),
            old(self).wf() ==> final(self).wf(),
    {
        let loc_changed = if self.loc != loc {
            self.loc = loc;
            true
        } else {
            false
        };
        let size_changed = match size {
            Some(s) => {
                if self.size != s {
                    self.size = s;
                    true
                } else {
                    false
                }
            },
            None => false,
        };
        loc_changed || size_changed
    }

    /// The geometry a floating window takes on an output: its preferred
    /// size, centered, once the client is configured; untouched at the
    /// origin before that.
    pub open spec fn floated(self, output_size: Size) -> WindowWrap {
        if self.configured {
            self.with_geometry(Some(self.initial_size), center_spec(output_size, self.initial_size))
        } else {
            self.with_geometry(None, Point { x: 0, y: 0 })
        }
    }

    pub fn update_floating(&mut self, output_size: Size) -> (changed: bool)
        requires
            size_ok(output_size),
            old(self).wf(),
        ensures
            *final(self) == old(self).floated(output_size),
            changed == (*final(self) != *old(self)),
            final(self).wf(),
    {
        if self.configured() {
            let target = self.initial_size;
            let loc = self.center(output_size);
            self.update_loc_and_size(Some(target), loc)
        } else {
            self.update_loc_and_size(None, Point { x: 0, y: 0 })
        }
    }

    /// Stretch over the given output rectangle (fullscreen override).
    pub fn set_fullscreen(&mut self, geometry: Rect)
        requires
            crate::geometry::rect_ok(geometry),
        ensures
            *final(self) == old(self).with_geometry(Some(geometry.size), geometry.loc),
            old(self).wf() ==> final(self).wf(),
    {
        self.update_loc_and_size(Some(geometry.size), geometry.loc);
    }

    pub fn set_activated(&mut self, activated: bool)
        ensures
            *final(self) == (WindowWrap { activated, ..*old(self) }),
    {
        self.activated = activated;
    }
}

/// Attributes the protocol layer reads off an xdg toplevel surface.
#[derive(Clone, PartialEq, Eq, Debug)]
pub struct XdgTopLevelAttributes {
    pub app_id: Option<String>,
    pub title: Option<String>,
}

} // verus!
