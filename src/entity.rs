//! The library's view of the protocol objects it places: windows, shell layers
//! and outputs, each as plain values that the protocol layer keeps current.
use vstd::prelude::*;
use crate::geometry::{in_limit, Point, Rectangle, Size};
use crate::side_table::SideTable;

verus! {

/// Key shared by windows and layers in one damage map.
#[derive(Clone, Copy, Debug, PartialEq, Eq, Structural, Hash)]
pub enum ToplevelId {
    Xdg(u64),
    Layer(u64),
}

/// What a space records of a window it has mapped.
#[derive(Clone, Copy, Debug, PartialEq, Eq, Structural)]
pub struct WindowState {
    pub location: Point,
    pub drawn: bool,
}

/// A leaf of a window's surface tree, as the tree walk yields it: its offset
/// from the window's location (subsurface offsets already summed) and the
/// size of its committed buffer, `None` when it has none or lies under an
/// unmapped parent.
#[derive(Clone, Copy, Debug, PartialEq, Eq, Structural)]
pub struct SurfaceLeaf {
    pub id: u64,
    pub offset: Point,
    pub size: Option<Size>,
}

/// A toplevel window. Its rectangles are relative to its location, which each
/// space keeps in the window's side table.
pub struct Window {
    pub id: u64,
    /// The root surface of the window's surface tree.
    pub surface: u64,
    pub geometry: Rectangle,
    pub bbox: Rectangle,
    pub bbox_with_popups: Rectangle,
    pub alive: bool,
    pub activated: bool,
    /// Buffer damage accumulated since the last render, relative to the location.
    pub damage: Vec<Rectangle>,
    pub surfaces: Vec<SurfaceLeaf>,
    /// One record per space that has placed this window.
    pub user_data: SideTable<WindowState>,
}

#[derive(Clone, Copy, Debug, PartialEq, Eq, Structural)]
pub enum LayerKind {
    Background,
    Bottom,
    Top,
    Overlay,
}

/// A shell layer of an output, placed by the output's layer map.
pub struct Layer {
    pub id: u64,
    /// The layer's surface.
    pub surface: u64,
    pub layer: LayerKind,
    pub geometry: Rectangle,
    /// Buffer damage accumulated since the last render, relative to the geometry.
    pub damage: Vec<Rectangle>,
}

/// A display: its current mode in physical pixels, if any, and its layers.
pub struct Output {
    pub id: u64,
    pub mode: Option<Size>,
    pub layers: Vec<Layer>,
}

impl Window {
    pub open spec fn wf(&self) -> bool {
        self.user_data.wf()
    }

    /// The window's records, one per space.
    pub open spec fn states(&self) -> Map<usize, WindowState> {
        self.user_data@
    }

    pub fn new(
        id: u64,
        surface: u64,
        geometry: Rectangle,
        bbox: Rectangle,
        bbox_with_popups: Rectangle,
    ) -> (r: Window)
        ensures
            r.wf(),
            r.id == id,
            r.surface == surface,
            r.geometry == geometry,
            r.bbox == bbox,
            r.bbox_with_popups == bbox_with_popups,
            r.alive,
            !r.activated,
            r.damage@.len() == 0,
            r.surfaces@.len() == 0,
            r.states() == Map::<usize, WindowState>::empty(),
    {
        Window {
            id,
            surface,
            geometry,
            bbox,
            bbox_with_popups,
            alive: true,
            activated: false,
            damage: Vec::new(),
            surfaces: Vec::new(),
            user_data: SideTable::new(),
        }
    }
}

/// The record of `space` in the window's side table, a default one if missing.
pub open spec fn spec_window_state(space: usize, w: &Window) -> WindowState {
    if w.states().dom().contains(space) {
        w.states()[space]
    } else {
        WindowState { location: Point { x: 0, y: 0 }, drawn: false }
    }
}

pub fn window_state(space: usize, w: &Window) -> (r: WindowState)
    requires
        w.wf(),
    ensures
        r == spec_window_state(space, w),
{
    match w.user_data.get(space) {
        Some(s) => s,
        None => WindowState { location: Point { x: 0, y: 0 }, drawn: false },
    }
}

/// Stores the record of `space` in the window's side table.
pub fn set_window_state(space: usize, w: &mut Window, s: WindowState)
    requires
        old(w).wf(),
    ensures
        final(w).wf(),
        final(w).states() == old(w).states().insert(space, s),
        final(w).id == old(w).id,
        final(w).surface == old(w).surface,
        final(w).geometry == old(w).geometry,
        final(w).bbox == old(w).bbox,
        final(w).bbox_with_popups == old(w).bbox_with_popups,
        final(w).alive == old(w).alive,
        final(w).activated == old(w).activated,
        final(w).damage == old(w).damage,
        final(w).surfaces == old(w).surfaces,
{
    w.user_data.set(space, s);
}

/// Drops the record of `space` from the window's side table.
pub fn remove_window_state(space: usize, w: &mut Window)
    requires
        old(w).wf(),
    ensures
        final(w).wf(),
        final(w).states() == old(w).states().remove(space),
        final(w).id == old(w).id,
        final(w).surface == old(w).surface,
        final(w).geometry == old(w).geometry,
        final(w).bbox == old(w).bbox,
        final(w).bbox_with_popups == old(w).bbox_with_popups,
        final(w).alive == old(w).alive,
        final(w).activated == old(w).activated,
        final(w).damage == old(w).damage,
        final(w).surfaces == old(w).surfaces,
{
    w.user_data.remove(space);
}

pub open spec fn spec_window_loc(w: &Window, space: usize) -> Point {
    spec_window_state(space, w).location
}

/// The window's geometry at its location in `space`.
pub open spec fn spec_window_geo(w: &Window, space: usize) -> Rectangle {
    Rectangle { loc: spec_window_loc(w, space), size: w.geometry.size }
}

/// The window's bounding box, popups left out, at its location in `space`.
pub open spec fn spec_window_rect(w: &Window, space: usize) -> Rectangle {
    w.bbox.spec_translated(spec_window_loc(w, space))
}

/// The window's bounding box with its popups, at its location in `space`.
pub open spec fn spec_window_rect_with_popups(w: &Window, space: usize) -> Rectangle {
    w.bbox_with_popups.spec_translated(spec_window_loc(w, space))
}

/// The window's rectangles fit the coordinate range once placed at `loc`.
pub open spec fn placement_ok(w: &Window, loc: Point) -> bool {
    &&& in_limit(loc.x as int) && in_limit(loc.y as int)
    &&& w.bbox.can_translate(loc) && w.bbox.spec_translated(loc).bounded()
    &&& w.bbox_with_popups.can_translate(loc) && w.bbox_with_popups.spec_translated(loc).bounded()
    &&& forall|i: int|
        0 <= i < w.damage@.len() ==> (#[trigger] w.damage@[i]).can_translate(loc)
            && w.damage@[i].spec_translated(loc).bounded()
}

pub fn window_loc(w: &Window, space: usize) -> (r: Point)
    requires
        w.wf(),
        w.states().dom().contains(space),
    ensures
        r == spec_window_loc(w, space),
{
    window_state(space, w).location
}

pub fn window_geo(w: &Window, space: usize) -> (r: Rectangle)
    requires
        w.wf(),
        w.states().dom().contains(space),
    ensures
        r == spec_window_geo(w, space),
{
    Rectangle { loc: window_loc(w, space), size: w.geometry.size }
}

pub fn window_rect(w: &Window, space: usize) -> (r: Rectangle)
    requires
        w.wf(),
        w.states().dom().contains(space),
        placement_ok(w, spec_window_loc(w, space)),
    ensures
        r == spec_window_rect(w, space),
{
    w.bbox.translated(window_loc(w, space))
}

pub fn window_rect_with_popups(w: &Window, space: usize) -> (r: Rectangle)
    requires
        w.wf(),
        w.states().dom().contains(space),
        placement_ok(w, spec_window_loc(w, space)),
    ensures
        r == spec_window_rect_with_popups(w, space),
{
    w.bbox_with_popups.translated(window_loc(w, space))
}

} // verus!
