//! The space: windows in z-order and outputs with their placement, the
//! queries over them, and the per-output bookkeeping of what was drawn.
use vstd::prelude::*;
use crate::entity::{
    spec_window_rect_with_popups,
    placement_ok, remove_window_state, set_window_state, spec_window_loc, spec_window_rect,
    spec_window_state, window_rect, window_state, Layer, Output, ToplevelId, Window, WindowState,
};
use crate::damage::{all_bounded, is_reduction, reduce_damage};
use crate::frame::{
    compose_damage, composed_damage, compute_new_damage, history_usable, new_damage, paint_targets,
    paints_match, plan_paints, snapshot, take_snapshot, views, windows_placed, Paint,
};
use crate::ids::{next_space_id, SpaceIds};
use crate::painted::{new_painted, painted_entries, painted_from, unique_keys};
use indexmap::IndexMap;
use crate::geometry::{max_int, min_int, Point, Rectangle, Size};
use crate::membership::{after_leaves, as_set, drop_surfaces, leaf_events, unique, update_leaves, SurfaceEvent};

verus! {

/// A query named a window that this space has not mapped.
#[derive(Clone, Copy, Debug, PartialEq, Eq, Structural)]
pub enum SpaceError {
    UnknownWindow,
}

/// Why a render of an output did not complete.
#[derive(Clone, Copy, Debug, PartialEq, Eq, Structural)]
pub enum RenderError {
    /// The renderer failed while drawing the frame.
    Rendering,
    /// The output has no current mode.
    OutputNoMode,
    /// The output is not mapped in this space.
    UnknownOutput,
    /// A rectangle of the output or of its layers lies outside the
    /// coordinate range that the damage engine works in.
    OutOfRange,
}

/// What a space records of an output it has mapped.
pub struct OutputState {
    pub location: Point,
    /// Integer factor from logical to physical pixels.
    pub render_scale: i32,
    /// Leaf surfaces that were told they entered this output.
    pub surfaces: Vec<u64>,
    /// Rectangle of each toplevel as last painted.
    pub last_state: IndexMap<ToplevelId, Rectangle>,
    /// New damage of earlier frames, newest first.
    pub old_damage: Vec<Vec<Rectangle>>,
    /// Layers painted since frames were last sent.
    pub layers_drawn: Vec<u64>,
}

pub struct MappedOutput {
    pub output: Output,
    pub state: OutputState,
}

pub struct Space {
    id: usize,
    /// In z-order, back to front.
    windows: Vec<Window>,
    outputs: Vec<MappedOutput>,
}

pub open spec fn window_ids(ws: Seq<Window>) -> Seq<u64> {
    ws.map_values(|w: Window| w.id)
}

pub open spec fn output_ids(os: Seq<MappedOutput>) -> Seq<u64> {
    os.map_values(|o: MappedOutput| o.output.id)
}

pub open spec fn unique_ids(ids: Seq<u64>) -> bool {
    forall|i: int, j: int| 0 <= i < j < ids.len() ==> ids[i] != ids[j]
}

/// `a` and `b` are one window, but maybe for its activation.
pub open spec fn same_window(a: Window, b: Window) -> bool {
    a.id == b.id && a.surface == b.surface && a.geometry == b.geometry && a.bbox == b.bbox && a.bbox_with_popups
        == b.bbox_with_popups && a.alive == b.alive && a.damage == b.damage && a.surfaces
        == b.surfaces && a.states() == b.states() && a.wf() == b.wf()
}

/// Size in logical pixels of `physical` at the integer `scale`, rounded to nearest.
pub open spec fn logical_len(physical: int, scale: int) -> int {
    (2 * physical + scale) / (2 * scale)
}

/// The rectangle of an output with `mode`, mapped at `loc` with `scale`.
pub open spec fn geometry_spec(mode: Option<Size>, loc: Point, scale: i32) -> Option<Rectangle> {
    match mode {
        Some(m) => Some(
            Rectangle {
                loc,
                size: Size {
                    w: logical_len(m.w as int, scale as int) as i32,
                    h: logical_len(m.h as int, scale as int) as i32,
                },
            },
        ),
        None => None,
    }
}

pub open spec fn spec_output_geometry(o: MappedOutput) -> Option<Rectangle> {
    geometry_spec(o.output.mode, o.state.location, o.state.render_scale)
}

pub open spec fn layer_ids(ls: Seq<Layer>) -> Seq<u64> {
    ls.map_values(|l: Layer| l.id)
}

/// The output can be mapped at `loc` with `scale`: its mode is a size, and
/// its rectangle, its layers and their damage lie in the coordinate range.
pub open spec fn output_fits(o: Output, scale: i32, loc: Point) -> bool {
    &&& scale >= 1
    &&& o.mode.is_some() ==> o.mode.unwrap().w >= 0 && o.mode.unwrap().h >= 0
    &&& geometry_spec(o.mode, loc, scale).is_some() ==> geometry_spec(o.mode, loc, scale).unwrap().bounded()
    &&& unique_ids(layer_ids(o.layers@))
    &&& forall|i: int| 0 <= i < o.layers@.len() ==> (#[trigger] o.layers@[i]).geometry.bounded()
    &&& forall|i: int, j: int|
        0 <= i < o.layers@.len() && 0 <= j < o.layers@[i].damage@.len() ==> (
        #[trigger] o.layers@[i].damage@[j]).can_translate(o.layers@[i].geometry.loc)
            && o.layers@[i].damage@[j].spec_translated(o.layers@[i].geometry.loc).bounded()
}

pub open spec fn output_wf(o: MappedOutput) -> bool {
    &&& output_fits(o.output, o.state.render_scale, o.state.location)
    &&& unique_ids(o.state.surfaces@)
    &&& unique_keys(painted_entries(o.state.last_state))
    &&& forall|i: int|
        0 <= i < painted_entries(o.state.last_state).len() ==> (#[trigger] painted_entries(o.state.last_state)[i]).1.bounded()
    &&& forall|i: int, j: int|
        0 <= i < o.state.old_damage@.len() && 0 <= j < o.state.old_damage@[i]@.len() ==> (
        #[trigger] o.state.old_damage@[i]@[j]).bounded()
}

/// No leaf surface id occurs twice, within a window or across windows.
pub open spec fn leaves_distinct(ws: Seq<Window>) -> bool {
    forall|i: int, j: int, a: int, b: int|
        0 <= i < ws.len() && 0 <= j < ws.len() && 0 <= a < ws[i].surfaces@.len() && 0 <= b
            < ws[j].surfaces@.len() && (i != j || a != b) ==> #[trigger] ws[i].surfaces@[a].id
            != #[trigger] ws[j].surfaces@[b].id
}

/// The leaf ids of `w` are distinct, and none is a leaf of a window of `ws`
/// other than one with `w`'s id.
pub open spec fn leaves_fresh(ws: Seq<Window>, w: Window) -> bool {
    &&& forall|a: int, b: int|
        0 <= a < b < w.surfaces@.len() ==> #[trigger] w.surfaces@[a].id != #[trigger] w.surfaces@[b].id
    &&& forall|i: int, a: int, b: int|
        0 <= i < ws.len() && ws[i].id != w.id && 0 <= a < ws[i].surfaces@.len() && 0 <= b
            < w.surfaces@.len() ==> #[trigger] ws[i].surfaces@[a].id != #[trigger] w.surfaces@[b].id
}

proof fn lemma_leaves_same_surfaces(old: Seq<Window>, new: Seq<Window>)
    requires
        leaves_distinct(old),
        new.len() == old.len(),
        forall|i: int| 0 <= i < old.len() ==> (#[trigger] new[i]).surfaces == old[i].surfaces,
    ensures
        leaves_distinct(new),
{
    assert forall|i: int, j: int, a: int, b: int|
        0 <= i < new.len() && 0 <= j < new.len() && 0 <= a < new[i].surfaces@.len() && 0 <= b
            < new[j].surfaces@.len() && (i != j || a != b) implies #[trigger] new[i].surfaces@[a].id
            != #[trigger] new[j].surfaces@[b].id by {
        assert(new[i].surfaces == old[i].surfaces && new[j].surfaces == old[j].surfaces);
        assert(old[i].surfaces@[a].id != old[j].surfaces@[b].id);
    }
}

proof fn lemma_leaves_remove(old: Seq<Window>, k: int)
    requires
        leaves_distinct(old),
        0 <= k < old.len(),
    ensures
        leaves_distinct(old.remove(k)),
        leaves_fresh(old.remove(k), old[k]),
{
    let new = old.remove(k);
    assert forall|i: int, j: int, a: int, b: int|
        0 <= i < new.len() && 0 <= j < new.len() && 0 <= a < new[i].surfaces@.len() && 0 <= b
            < new[j].surfaces@.len() && (i != j || a != b) implies #[trigger] new[i].surfaces@[a].id
            != #[trigger] new[j].surfaces@[b].id by {
        let i2 = if i < k { i } else { i + 1 };
        let j2 = if j < k { j } else { j + 1 };
        assert(new[i] == old[i2] && new[j] == old[j2]);
        assert(old[i2].surfaces@[a].id != old[j2].surfaces@[b].id);
    }
    let w = old[k];
    assert forall|a: int, b: int| 0 <= a < b < w.surfaces@.len() implies #[trigger] w.surfaces@[a].id != #[trigger] w.surfaces@[b].id by {
        assert(old[k].surfaces@[a].id != old[k].surfaces@[b].id);
    }
    assert forall|i: int, a: int, b: int|
        0 <= i < new.len() && new[i].id != w.id && 0 <= a < new[i].surfaces@.len() && 0 <= b
            < w.surfaces@.len() implies #[trigger] new[i].surfaces@[a].id != #[trigger] w.surfaces@[b].id by {
        let i2 = if i < k { i } else { i + 1 };
        assert(new[i] == old[i2]);
        assert(old[i2].surfaces@[a].id != old[k].surfaces@[b].id);
    }
}

proof fn lemma_leaves_push(old: Seq<Window>, w: Window)
    requires
        leaves_distinct(old),
        leaves_fresh(old, w),
        forall|i: int| 0 <= i < old.len() ==> (#[trigger] old[i]).id != w.id,
    ensures
        leaves_distinct(old.push(w)),
{
    let new = old.push(w);
    let n = old.len() as int;
    assert forall|i: int, j: int, a: int, b: int|
        0 <= i < new.len() && 0 <= j < new.len() && 0 <= a < new[i].surfaces@.len() && 0 <= b
            < new[j].surfaces@.len() && (i != j || a != b) implies #[trigger] new[i].surfaces@[a].id
            != #[trigger] new[j].surfaces@[b].id by {
        if i < n && j < n {
            assert(old[i].surfaces@[a].id != old[j].surfaces@[b].id);
        } else if i < n {
            assert(old[i].surfaces@[a].id != w.surfaces@[b].id);
        } else if j < n {
            assert(old[j].surfaces@[b].id != w.surfaces@[a].id);
        } else if a < b {
            assert(w.surfaces@[a].id != w.surfaces@[b].id);
        } else {
            assert(w.surfaces@[b].id != w.surfaces@[a].id);
        }
    }
}

proof fn lemma_leaves_update(old: Seq<Window>, k: int, w: Window)
    requires
        leaves_distinct(old),
        leaves_fresh(old, w),
        0 <= k < old.len(),
        forall|i: int| 0 <= i < old.len() && i != k ==> (#[trigger] old[i]).id != w.id,
    ensures
        leaves_distinct(old.update(k, w)),
{
    let new = old.update(k, w);
    assert forall|i: int, j: int, a: int, b: int|
        0 <= i < new.len() && 0 <= j < new.len() && 0 <= a < new[i].surfaces@.len() && 0 <= b
            < new[j].surfaces@.len() && (i != j || a != b) implies #[trigger] new[i].surfaces@[a].id
            != #[trigger] new[j].surfaces@[b].id by {
        if i != k && j != k {
            assert(old[i].surfaces@[a].id != old[j].surfaces@[b].id);
        } else if i != k {
            assert(old[i].surfaces@[a].id != w.surfaces@[b].id);
        } else if j != k {
            assert(old[j].surfaces@[b].id != w.surfaces@[a].id);
        } else if a < b {
            assert(w.surfaces@[a].id != w.surfaces@[b].id);
        } else {
            assert(w.surfaces@[b].id != w.surfaces@[a].id);
        }
    }
}

proof fn lemma_fresh_remove(old: Seq<Window>, k: int, w: Window)
    requires
        leaves_fresh(old, w),
        0 <= k < old.len(),
    ensures
        leaves_fresh(old.remove(k), w),
{
    let new = old.remove(k);
    assert forall|i: int, a: int, b: int|
        0 <= i < new.len() && new[i].id != w.id && 0 <= a < new[i].surfaces@.len() && 0 <= b
            < w.surfaces@.len() implies #[trigger] new[i].surfaces@[a].id != #[trigger] w.surfaces@[b].id by {
        let i2 = if i < k { i } else { i + 1 };
        assert(new[i] == old[i2]);
        assert(old[i2].surfaces@[a].id != w.surfaces@[b].id);
    }
}

/// `ids` with `id` moved to the end, or added there if missing.
pub open spec fn raised(ids: Seq<u64>, id: u64) -> Seq<u64> {
    if ids.contains(id) {
        ids.remove(ids.index_of(id)).push(id)
    } else {
        ids.push(id)
    }
}

/// The windows `ws` without the one whose id is `id`.
pub open spec fn without_window(ws: Seq<Window>, id: u64) -> Seq<Window> {
    if window_ids(ws).contains(id) {
        ws.remove(window_ids(ws).index_of(id))
    } else {
        ws
    }
}

/// `ids` without `id`.
pub open spec fn removed(ids: Seq<u64>, id: u64) -> Seq<u64> {
    if ids.contains(id) {
        ids.remove(ids.index_of(id))
    } else {
        ids
    }
}

proof fn lemma_index_of_unique(ids: Seq<u64>, k: int)
    requires
        unique_ids(ids),
        0 <= k < ids.len(),
    ensures
        ids.contains(ids[k]),
        ids.index_of(ids[k]) == k,
{
    assert(ids[k] == ids[k]);
    let c = ids.index_of(ids[k]);
    if c != k {
        if c < k {
        } else {
        }
    }
}

impl Space {
    pub closed spec fn spec_id(&self) -> usize {
        self.id
    }

    /// Mapped windows, back to front.
    pub closed spec fn spec_windows(&self) -> Seq<Window> {
        self.windows@
    }

    pub closed spec fn spec_outputs(&self) -> Seq<MappedOutput> {
        self.outputs@
    }

    pub open spec fn wf(&self) -> bool {
        &&& unique_ids(window_ids(self.spec_windows()))
        &&& leaves_distinct(self.spec_windows())
        &&& forall|i: int|
            0 <= i < self.spec_windows().len() ==> {
                let w = #[trigger] self.spec_windows()[i];
                w.wf() && w.states().dom().contains(self.spec_id()) && placement_ok(
                    &w,
                    spec_window_loc(&w, self.spec_id()),
                )
            }
        &&& unique_ids(output_ids(self.spec_outputs()))
        &&& forall|i: int| 0 <= i < self.spec_outputs().len() ==> output_wf(#[trigger] self.spec_outputs()[i])
    }

    /// A new empty space, with an id that no live space holds.
    pub fn new(ids: &mut SpaceIds) -> (r: Space)
        requires
            old(ids).wf(),
            old(ids).live_count() < usize::MAX,
        ensures
            r.wf(),
            !old(ids).live_ids().contains(r.spec_id()),
            final(ids).wf(),
            final(ids).live_ids() == old(ids).live_ids().insert(r.spec_id()),
            final(ids).live_count() == old(ids).live_count() + 1,
            r.spec_windows().len() == 0,
            r.spec_outputs().len() == 0,
    {
        Space { id: next_space_id(ids), windows: Vec::new(), outputs: Vec::new() }
    }

    /// Ends the space and gives its id back.
    pub fn destroy(self, ids: &mut SpaceIds)
        requires
            old(ids).wf(),
        ensures
            final(ids).wf(),
            final(ids).live_ids() == old(ids).live_ids().remove(self.spec_id()),
    {
        ids.release(self.id);
    }

    pub fn id(&self) -> (r: usize)
        ensures
            r == self.spec_id(),
    {
        self.id
    }

    fn find_window(&self, id: u64) -> (r: Option<usize>)
        requires
            self.wf(),
        ensures
            r.is_none() ==> !window_ids(self.spec_windows()).contains(id),
            r.is_some() ==> r.unwrap() < self.spec_windows().len() && self.spec_windows()[r.unwrap() as int].id == id,
    {
        let mut i: usize = 0;
        while i < self.windows.len()
            invariant
                i <= self.windows@.len(),
                forall|k: int| 0 <= k < i ==> (#[trigger] self.windows@[k]).id != id,
            decreases self.windows.len() - i,
        {
            if self.windows[i].id == id {
                return Some(i);
            }
            i = i + 1;
        }
        assert(!window_ids(self.spec_windows()).contains(id)) by {
            if window_ids(self.spec_windows()).contains(id) {
                let k = choose|k: int| 0 <= k < self.windows@.len() && window_ids(self.spec_windows())[k] == id;
                assert(self.windows@[k].id == id);
            }
        }
        None
    }
}

impl Space {
    /// Takes the window at `k` out of the stack.
    fn take_window(&mut self, k: usize) -> (r: Window)
        requires
            old(self).wf(),
            k < old(self).spec_windows().len(),
        ensures
            final(self).wf(),
            final(self).spec_id() == old(self).spec_id(),
            final(self).spec_outputs() == old(self).spec_outputs(),
            final(self).spec_windows() == old(self).spec_windows().remove(k as int),
            r == old(self).spec_windows()[k as int],
            window_ids(final(self).spec_windows()) == removed(window_ids(old(self).spec_windows()), r.id),
            !window_ids(final(self).spec_windows()).contains(r.id),
    {
        let r = self.windows.remove(k);
        proof {
            lemma_index_of_unique(window_ids(old(self).spec_windows()), k as int);
            assert(window_ids(self.windows@) =~= window_ids(old(self).spec_windows()).remove(k as int));
            assert forall|a: int, b: int| 0 <= a < b < self.windows@.len() implies
                window_ids(self.windows@)[a] != window_ids(self.windows@)[b] by {
                let (c, d) = if b < k { (a, b) } else if a < k { (a, b + 1) } else { (a + 1, b + 1) };
                assert(window_ids(old(self).spec_windows())[c] != window_ids(old(self).spec_windows())[d]);
            }
            assert forall|i: int| 0 <= i < self.windows@.len() implies {
                let w = #[trigger] self.windows@[i];
                w.wf() && w.states().dom().contains(self.id) && placement_ok(&w, spec_window_loc(&w, self.id))
            } by {
                if i < k {
                    assert(self.windows@[i] == old(self).spec_windows()[i]);
                } else {
                    assert(self.windows@[i] == old(self).spec_windows()[i + 1]);
                }
            }
            assert(!window_ids(self.windows@).contains(r.id)) by {
                if window_ids(self.windows@).contains(r.id) {
                    let j = choose|j: int| 0 <= j < self.windows@.len() && window_ids(self.windows@)[j] == r.id;
                    if j < k {
                        assert(window_ids(old(self).spec_windows())[j] == r.id);
                    } else {
                        assert(window_ids(old(self).spec_windows())[j + 1] == r.id);
                    }
                }
            }
        }
        r
    }

    /// Adds `window` on top of the stack and makes it the only activated window.
    fn insert_window(&mut self, window: Window)
        requires
            old(self).wf(),
            window.wf(),
            window.states().dom().contains(old(self).spec_id()),
            placement_ok(&window, spec_window_loc(&window, old(self).spec_id())),
            !window_ids(old(self).spec_windows()).contains(window.id),
            leaves_fresh(old(self).spec_windows(), window),
        ensures
            final(self).wf(),
            final(self).spec_id() == old(self).spec_id(),
            final(self).spec_outputs() == old(self).spec_outputs(),
            final(self).spec_windows().len() == old(self).spec_windows().len() + 1,
            window_ids(final(self).spec_windows()) == window_ids(old(self).spec_windows()).push(window.id),
            same_window(final(self).spec_windows().last(), window),
            final(self).spec_windows().last().activated,
            forall|i: int|
                0 <= i < old(self).spec_windows().len() ==> same_window(
                    #[trigger] final(self).spec_windows()[i],
                    old(self).spec_windows()[i],
                ) && !final(self).spec_windows()[i].activated,
    {
        let ghost before = self.windows@;
        proof {
            assert forall|i: int| 0 <= i < before.len() implies (#[trigger] before[i]).id != window.id by {
                assert(window_ids(before)[i] == before[i].id);
            }
            lemma_leaves_push(before, window);
        }
        self.windows.push(window);
        let n = self.windows.len();
        let mut i: usize = 0;
        while i < n
            invariant
                n == self.windows@.len(),
                n == before.len() + 1,
                i <= n,
                self.id == old(self).id,
                self.outputs == old(self).outputs,
                forall|k: int| 0 <= k < before.len() ==> same_window(#[trigger] self.windows@[k], before[k]),
                same_window(self.windows@[n - 1], window),
                forall|k: int| 0 <= k < i ==> (#[trigger] self.windows@[k]).activated == (k == n - 1),
            decreases n - i,
        {
            let mut w = self.windows.remove(i);
            w.activated = i == n - 1;
            self.windows.insert(i, w);
            i = i + 1;
        }
        assert(window_ids(self.windows@) =~= window_ids(before).push(window.id));
        proof {
            let pushed = before.push(window);
            assert forall|i: int| 0 <= i < pushed.len() implies (#[trigger] self.windows@[i]).surfaces == pushed[i].surfaces by {
                if i < before.len() {
                    assert(same_window(self.windows@[i], before[i]));
                }
            }
            lemma_leaves_same_surfaces(pushed, self.windows@);
        }
    }

    /// Maps `window` at `location` and moves it to the top of the stack; on a
    /// window that is mapped already it only updates the location and raises it.
    pub fn map_window(&mut self, window: Window, location: Point)
        requires
            old(self).wf(),
            window.wf(),
            placement_ok(&window, location),
            leaves_fresh(old(self).spec_windows(), window),
        ensures
            final(self).wf(),
            final(self).spec_id() == old(self).spec_id(),
            final(self).spec_outputs() == old(self).spec_outputs(),
            window_ids(final(self).spec_windows()) == raised(window_ids(old(self).spec_windows()), window.id),
            ({
                let top = final(self).spec_windows().last();
                &&& top.activated
                &&& top.id == window.id && top.surface == window.surface && top.geometry == window.geometry && top.bbox == window.bbox
                &&& top.bbox_with_popups == window.bbox_with_popups && top.alive == window.alive
                &&& top.damage == window.damage && top.surfaces == window.surfaces
                &&& top.states() == window.states().insert(
                    old(self).spec_id(),
                    WindowState {
                        location,
                        drawn: match old(self).mapped(window.id) {
                            Some(m) => spec_window_state(old(self).spec_id(), &m).drawn,
                            None => spec_window_state(old(self).spec_id(), &window).drawn,
                        },
                    },
                )
            }),
            final(self).spec_windows().len() == without_window(old(self).spec_windows(), window.id).len() + 1,
            forall|i: int|
                0 <= i < final(self).spec_windows().len() - 1 ==> !(#[trigger] final(self).spec_windows()[i]).activated
                    && same_window(final(self).spec_windows()[i], without_window(old(self).spec_windows(), window.id)[i]),
    {
        let mut drawn = window_state(self.id, &window).drawn;
        if let Some(k) = self.find_window(window.id) {
            proof {
                lemma_index_of_unique(window_ids(self.windows@), k as int);
                lemma_fresh_remove(self.windows@, k as int, window);
            }
            let taken = self.take_window(k);
            drawn = window_state(self.id, &taken).drawn;
        }
        let mut window = window;
        set_window_state(self.id, &mut window, WindowState { location, drawn });
        self.insert_window(window);
    }

    /// Moves a mapped window to the top of the stack and activates it; does
    /// nothing to a window that is not mapped.
    pub fn raise_window(&mut self, window: &Window)
        requires
            old(self).wf(),
        ensures
            final(self).wf(),
            final(self).spec_id() == old(self).spec_id(),
            final(self).spec_outputs() == old(self).spec_outputs(),
            window_ids(old(self).spec_windows()).contains(window.id) ==> window_ids(final(self).spec_windows())
                == raised(window_ids(old(self).spec_windows()), window.id),
            !window_ids(old(self).spec_windows()).contains(window.id) ==> final(self).spec_windows()
                == old(self).spec_windows(),
            window_ids(old(self).spec_windows()).contains(window.id) ==> final(self).spec_windows().last().activated
                && same_window(final(self).spec_windows().last(), old(self).spec_windows()[
                    window_ids(old(self).spec_windows()).index_of(window.id)]),
            window_ids(old(self).spec_windows()).contains(window.id) ==> final(self).spec_windows().len()
                == old(self).spec_windows().len() && forall|i: int| 0 <= i < final(self).spec_windows().len() - 1
                ==> !(#[trigger] final(self).spec_windows()[i]).activated && same_window(
                final(self).spec_windows()[i], without_window(old(self).spec_windows(), window.id)[i]),
    {
        if let Some(k) = self.find_window(window.id) {
            proof {
                lemma_index_of_unique(window_ids(self.windows@), k as int);
                lemma_leaves_remove(self.windows@, k as int);
            }
            let w = self.take_window(k);
            self.insert_window(w);
        }
    }

    /// Removes a window from this space, with this space's record of it; does
    /// nothing to a window that is not mapped.
    pub fn unmap_window(&mut self, window: &Window)
        requires
            old(self).wf(),
        ensures
            final(self).wf(),
            final(self).spec_id() == old(self).spec_id(),
            final(self).spec_outputs() == old(self).spec_outputs(),
            window_ids(final(self).spec_windows()) == removed(window_ids(old(self).spec_windows()), window.id),
            final(self).spec_windows() == without_window(old(self).spec_windows(), window.id),
    {
        if let Some(k) = self.find_window(window.id) {
            proof {
                lemma_index_of_unique(window_ids(self.windows@), k as int);
            }
            let mut w = self.take_window(k);
            remove_window_state(self.id, &mut w);
        }
    }

    /// Mapped windows, back to front.
    pub fn windows(&self) -> (r: &Vec<Window>)
        ensures
            r@ == self.spec_windows(),
    {
        &self.windows
    }

    fn window_index_under(&self, p: Point) -> (r: Option<usize>)
        requires
            self.wf(),
        ensures
            r.is_none() ==> forall|i: int| 0 <= i < self.spec_windows().len() ==> !spec_window_rect(
                #[trigger] &self.spec_windows()[i], self.spec_id()).spec_contains_point(p.x as int, p.y as int),
            r.is_some() ==> r.unwrap() < self.spec_windows().len() && spec_window_rect(
                &self.spec_windows()[r.unwrap() as int], self.spec_id()).spec_contains_point(p.x as int, p.y as int)
                && forall|j: int| r.unwrap() < j < self.spec_windows().len() ==> !spec_window_rect(
                #[trigger] &self.spec_windows()[j], self.spec_id()).spec_contains_point(p.x as int, p.y as int),
    {
        let mut i: usize = self.windows.len();
        while i > 0
            invariant
                self.wf(),
                i <= self.windows@.len(),
                forall|j: int| i <= j < self.windows@.len() ==> !spec_window_rect(
                    #[trigger] &self.windows@[j], self.id).spec_contains_point(p.x as int, p.y as int),
            decreases i,
        {
            i = i - 1;
            let r = window_rect(&self.windows[i], self.id);
            if r.contains_point(p) {
                return Some(i);
            }
        }
        None
    }

    /// The topmost window whose bounding box holds `p`.
    pub fn window_under(&self, p: Point) -> (r: Option<&Window>)
        requires
            self.wf(),
        ensures
            r.is_none() ==> forall|i: int| 0 <= i < self.spec_windows().len() ==> !spec_window_rect(
                #[trigger] &self.spec_windows()[i], self.spec_id()).spec_contains_point(p.x as int, p.y as int),
            r.is_some() ==> exists|i: int| 0 <= i < self.spec_windows().len() && self.spec_windows()[i]
                == *r.unwrap() && spec_window_rect(&self.spec_windows()[i], self.spec_id()).spec_contains_point(
                p.x as int, p.y as int) && forall|j: int| i < j < self.spec_windows().len() ==> !spec_window_rect(
                #[trigger] &self.spec_windows()[j], self.spec_id()).spec_contains_point(p.x as int, p.y as int),
    {
        match self.window_index_under(p) {
            Some(i) => Some(&self.windows[i]),
            None => None,
        }
    }

    /// This space's copy of the window with `w`'s id, if mapped.
    pub open spec fn mapped(&self, id: u64) -> Option<Window> {
        if window_ids(self.spec_windows()).contains(id) {
            Some(self.spec_windows()[window_ids(self.spec_windows()).index_of(id)])
        } else {
            None
        }
    }

    /// The window's geometry at its location, popups left out; `None` if unmapped.
    pub fn window_geometry(&self, w: &Window) -> (r: Option<Rectangle>)
        requires
            self.wf(),
        ensures
            r == (match self.mapped(w.id) {
                Some(m) => Some(crate::entity::spec_window_geo(&m, self.spec_id())),
                None => None::<Rectangle>,
            }),
    {
        match self.find_window(w.id) {
            Some(k) => {
                proof {
                    lemma_index_of_unique(window_ids(self.windows@), k as int);
                }
                Some(crate::entity::window_geo(&self.windows[k], self.id))
            },
            None => None,
        }
    }

    /// The window's bounding box, popups included, at its location; `None`
    /// if unmapped.
    pub fn window_bbox(&self, w: &Window) -> (r: Option<Rectangle>)
        requires
            self.wf(),
        ensures
            r == (match self.mapped(w.id) {
                Some(m) => Some(spec_window_rect_with_popups(&m, self.spec_id())),
                None => None::<Rectangle>,
            }),
    {
        match self.find_window(w.id) {
            Some(k) => {
                proof {
                    lemma_index_of_unique(window_ids(self.windows@), k as int);
                }
                Some(crate::entity::window_rect_with_popups(&self.windows[k], self.id))
            },
            None => None,
        }
    }
}

fn logical_size(physical: i32, scale: i32) -> (r: i32)
    requires
        physical >= 0,
        scale >= 1,
    ensures
        r == logical_len(physical as int, scale as int),
        0 <= r <= physical,
{
    let num: i64 = 2 * (physical as i64) + (scale as i64);
    let den: i64 = 2 * (scale as i64);
    proof {
        assert(num / den <= physical as int) by (nonlinear_arith)
            requires
                num == 2 * physical + scale,
                den == 2 * scale,
                physical >= 0,
                scale >= 1,
        {
            assert(num <= den * (physical + 1) - 1) by (nonlinear_arith)
                requires num == 2 * physical + scale, den == 2 * scale, physical >= 0, scale >= 1;
        }
        assert(num / den >= 0) by (nonlinear_arith)
            requires num >= 0, den >= 1;
    }
    (num / den) as i32
}

/// The output's rectangle in the space: its mode scaled down to logical
/// pixels, placed at its location; `None` without a mode.
fn geometry_of(o: &MappedOutput) -> (r: Option<Rectangle>)
    requires
        output_wf(*o),
    ensures
        r == spec_output_geometry(*o),
{
    match o.output.mode {
        Some(m) => Some(
            Rectangle {
                loc: o.state.location,
                size: Size {
                    w: logical_size(m.w, o.state.render_scale),
                    h: logical_size(m.h, o.state.render_scale),
                },
            },
        ),
        None => None,
    }
}

impl Space {
    fn find_output(&self, id: u64) -> (r: Option<usize>)
        requires
            self.wf(),
        ensures
            r.is_none() ==> !output_ids(self.spec_outputs()).contains(id),
            r.is_some() ==> r.unwrap() < self.spec_outputs().len() && self.spec_outputs()[r.unwrap() as int].output.id
                == id && output_ids(self.spec_outputs()).contains(id) && output_ids(self.spec_outputs()).index_of(id)
                == r.unwrap() as int,
    {
        let mut i: usize = 0;
        while i < self.outputs.len()
            invariant
                self.wf(),
                i <= self.outputs@.len(),
                forall|k: int| 0 <= k < i ==> (#[trigger] self.outputs@[k]).output.id != id,
            decreases self.outputs.len() - i,
        {
            if self.outputs[i].output.id == id {
                proof {
                    assert(output_ids(self.outputs@)[i as int] == id);
                    let c = output_ids(self.outputs@).index_of(id);
                    assert(output_ids(self.outputs@).contains(id));
                    if c != i {
                        if c < i {
                            assert(self.outputs@[c].output.id == id);
                        } else {
                            assert(output_ids(self.outputs@)[i as int] != output_ids(self.outputs@)[c]);
                        }
                    }
                }
                return Some(i);
            }
            i = i + 1;
        }
        assert(!output_ids(self.outputs@).contains(id)) by {
            if output_ids(self.outputs@).contains(id) {
                let k = choose|k: int| 0 <= k < self.outputs@.len() && output_ids(self.outputs@)[k] == id;
                assert(self.outputs@[k].output.id == id);
            }
        }
        None
    }

    /// This space's record of the output with the id `id`, if mapped.
    pub open spec fn mapped_output(&self, id: u64) -> Option<MappedOutput> {
        if output_ids(self.spec_outputs()).contains(id) {
            Some(self.spec_outputs()[output_ids(self.spec_outputs()).index_of(id)])
        } else {
            None
        }
    }

    /// Maps `output` at `location` with the given scale, resetting what the
    /// space recorded of it; a new output goes to the end of the list.
    pub fn map_output(&mut self, output: Output, scale: i32, location: Point)
        requires
            old(self).wf(),
            output_fits(output, scale, location),
        ensures
            final(self).wf(),
            final(self).spec_id() == old(self).spec_id(),
            final(self).spec_windows() == old(self).spec_windows(),
            output_ids(old(self).spec_outputs()).contains(output.id) ==> output_ids(final(self).spec_outputs())
                == output_ids(old(self).spec_outputs()),
            !output_ids(old(self).spec_outputs()).contains(output.id) ==> output_ids(final(self).spec_outputs())
                == output_ids(old(self).spec_outputs()).push(output.id),
            ({
                let m = final(self).mapped_output(output.id);
                &&& m.is_some()
                &&& m.unwrap().output == output
                &&& m.unwrap().state.location == location
                &&& m.unwrap().state.render_scale == scale
                &&& m.unwrap().state.surfaces@.len() == 0
                &&& painted_entries(m.unwrap().state.last_state).len() == 0
                &&& m.unwrap().state.old_damage@.len() == 0
                &&& m.unwrap().state.layers_drawn@.len() == 0
            }),
            forall|id: u64| id != output.id ==> #[trigger] final(self).mapped_output(id) == old(self).mapped_output(id),
    {
        let ghost id = output.id;
        let state = OutputState {
            location,
            render_scale: scale,
            surfaces: Vec::new(),
            last_state: new_painted(),
            old_damage: Vec::new(),
            layers_drawn: Vec::new(),
        };
        let ghost before = self.outputs@;
        match self.find_output(output.id) {
            Some(k) => {
                self.outputs.set(k, MappedOutput { output, state });
                proof {
                    assert(output_ids(self.outputs@) =~= output_ids(before));
                    assert forall|i: int| 0 <= i < self.outputs@.len() implies output_wf(#[trigger] self.outputs@[i]) by {
                        if i != k {
                            assert(self.outputs@[i] == before[i]);
                        }
                    }
                    assert forall|o: u64| o != id implies #[trigger] self.mapped_output(o) == old(self).mapped_output(o) by {
                        if output_ids(before).contains(o) {
                            let j = output_ids(before).index_of(o);
                            assert(output_ids(before)[j] == o);
                            assert(j != k);
                        }
                    }
                }
            },
            None => {
                self.outputs.push(MappedOutput { output, state });
                proof {
                    let n = before.len() as int;
                    assert(output_ids(self.outputs@) =~= output_ids(before).push(id));
                    assert(self.outputs@[n].output.id == id);
                    assert forall|i: int| 0 <= i < self.outputs@.len() implies output_wf(#[trigger] self.outputs@[i]) by {
                        if i != n {
                            assert(self.outputs@[i] == before[i]);
                        }
                    }
                    lemma_index_of_unique(output_ids(self.outputs@), n);
                    assert forall|o: u64| o != id implies #[trigger] self.mapped_output(o) == old(self).mapped_output(o) by {
                        if output_ids(before).contains(o) {
                            let j = output_ids(before).index_of(o);
                            assert(output_ids(before)[j] == o);
                            assert(output_ids(self.outputs@)[j] == o);
                            lemma_index_of_unique(output_ids(self.outputs@), j);
                            lemma_index_of_unique(output_ids(before), j);
                        }
                        if output_ids(self.outputs@).contains(o) {
                            let j = output_ids(self.outputs@).index_of(o);
                            assert(output_ids(self.outputs@)[j] == o);
                            assert(j != n);
                            assert(output_ids(before)[j] == o);
                        }
                    }
                }
            },
        }
    }

    /// Mapped outputs with what the space records of them.
    pub fn outputs(&self) -> (r: &Vec<MappedOutput>)
        ensures
            r@ == self.spec_outputs(),
    {
        &self.outputs
    }

    /// Removes an output and this space's record of it; does nothing to an
    /// output that is not mapped.
    pub fn unmap_output(&mut self, output: &Output)
        requires
            old(self).wf(),
        ensures
            final(self).wf(),
            final(self).spec_id() == old(self).spec_id(),
            final(self).spec_windows() == old(self).spec_windows(),
            output_ids(final(self).spec_outputs()) == removed(output_ids(old(self).spec_outputs()), output.id),
            final(self).mapped_output(output.id).is_none(),
            forall|id: u64| id != output.id ==> #[trigger] final(self).mapped_output(id) == old(self).mapped_output(id),
    {
        let ghost before = self.outputs@;
        if let Some(k) = self.find_output(output.id) {
            self.outputs.remove(k);
            proof {
                assert(output_ids(self.outputs@) =~= output_ids(before).remove(k as int));
                assert forall|a: int, b: int| 0 <= a < b < self.outputs@.len() implies
                    output_ids(self.outputs@)[a] != output_ids(self.outputs@)[b] by {
                    let (c, d) = if b < k { (a, b) } else if a < k { (a, b + 1) } else { (a + 1, b + 1) };
                    assert(output_ids(before)[c] != output_ids(before)[d]);
                }
                assert forall|i: int| 0 <= i < self.outputs@.len() implies output_wf(#[trigger] self.outputs@[i]) by {
                    if i < k {
                        assert(self.outputs@[i] == before[i]);
                    } else {
                        assert(self.outputs@[i] == before[i + 1]);
                    }
                }
                assert forall|o: u64| o != output.id implies #[trigger] self.mapped_output(o) == old(self).mapped_output(o) by {
                    if output_ids(before).contains(o) {
                        let j = output_ids(before).index_of(o);
                        assert(output_ids(before)[j] == o);
                        assert(j != k);
                        let j2 = if j < k { j } else { j - 1 };
                        assert(output_ids(self.outputs@)[j2] == o);
                        lemma_index_of_unique(output_ids(self.outputs@), j2);
                        lemma_index_of_unique(output_ids(before), j);
                    }
                    if output_ids(self.outputs@).contains(o) {
                        let j = choose|j: int| 0 <= j < self.outputs@.len() && output_ids(self.outputs@)[j] == o;
                        let j2 = if j < k { j } else { j + 1 };
                        assert(output_ids(before)[j2] == o);
                    }
                }
                if output_ids(self.outputs@).contains(output.id) {
                    let j = choose|j: int| 0 <= j < self.outputs@.len() && output_ids(self.outputs@)[j] == output.id;
                    if j < k {
                        assert(output_ids(before)[j] == output.id);
                    } else {
                        assert(output_ids(before)[j + 1] == output.id);
                    }
                }
            }
        }
    }

    /// The output's rectangle in this space; `None` if it is not mapped or has no mode.
    pub fn output_geometry(&self, o: &Output) -> (r: Option<Rectangle>)
        requires
            self.wf(),
        ensures
            r == (match self.mapped_output(o.id) {
                Some(m) => spec_output_geometry(m),
                None => None::<Rectangle>,
            }),
    {
        match self.find_output(o.id) {
            Some(k) => geometry_of(&self.outputs[k]),
            None => None,
        }
    }

    /// The scale the output was mapped with; `None` if it is not mapped.
    pub fn output_scale(&self, o: &Output) -> (r: Option<i32>)
        requires
            self.wf(),
        ensures
            r == (match self.mapped_output(o.id) {
                Some(m) => Some(m.state.render_scale),
                None => None::<i32>,
            }),
    {
        match self.find_output(o.id) {
            Some(k) => Some(self.outputs[k].state.render_scale),
            None => None,
        }
    }

    /// The last mapped output whose rectangle holds `p`.
    pub fn output_under(&self, p: Point) -> (r: Option<&Output>)
        requires
            self.wf(),
        ensures
            r.is_none() ==> forall|i: int| 0 <= i < self.spec_outputs().len() ==> !output_holds(
                #[trigger] self.spec_outputs()[i], p),
            r.is_some() ==> exists|i: int| 0 <= i < self.spec_outputs().len() && self.spec_outputs()[i].output
                == *r.unwrap() && output_holds(self.spec_outputs()[i], p) && forall|j: int|
                i < j < self.spec_outputs().len() ==> !output_holds(#[trigger] self.spec_outputs()[j], p),
    {
        let mut i: usize = self.outputs.len();
        while i > 0
            invariant
                self.wf(),
                i <= self.outputs@.len(),
                forall|j: int| i <= j < self.outputs@.len() ==> !output_holds(#[trigger] self.outputs@[j], p),
            decreases i,
        {
            i = i - 1;
            if let Some(g) = geometry_of(&self.outputs[i]) {
                if g.contains_point(p) {
                    return Some(&self.outputs[i].output);
                }
            }
        }
        None
    }
}

pub open spec fn output_holds(o: MappedOutput, p: Point) -> bool {
    match spec_output_geometry(o) {
        Some(g) => g.spec_contains_point(p.x as int, p.y as int),
        None => false,
    }
}

/// The outcome of the damage engine for one frame of one output: the
/// reduced damage to clear and the toplevels to repaint, in paint order.
/// `finish_render` takes it back once the renderer is done.
pub struct RenderPlan {
    output: u64,
    render_scale: i32,
    damage: Vec<Rectangle>,
    paints: Vec<Paint>,
    new_damage: Vec<Rectangle>,
    snapshot: Vec<(ToplevelId, Rectangle)>,
}

impl RenderPlan {
    pub closed spec fn spec_output(&self) -> u64 {
        self.output
    }

    pub closed spec fn spec_damage(&self) -> Seq<Rectangle> {
        self.damage@
    }

    pub closed spec fn spec_paints(&self) -> Seq<Paint> {
        self.paints@
    }

    pub closed spec fn spec_new_damage(&self) -> Seq<Rectangle> {
        self.new_damage@
    }

    pub closed spec fn spec_snapshot(&self) -> Seq<(ToplevelId, Rectangle)> {
        self.snapshot@
    }

    pub closed spec fn spec_render_scale(&self) -> i32 {
        self.render_scale
    }

    pub closed spec fn wf(&self) -> bool {
        &&& all_bounded(self.new_damage@)
        &&& unique_keys(self.snapshot@)
        &&& forall|i: int| 0 <= i < self.snapshot@.len() ==> (#[trigger] self.snapshot@[i]).1.bounded()
    }

    /// Reduced damage in logical coordinates; the renderer clears each
    /// rectangle scaled by `render_scale`.
    pub fn damage(&self) -> (r: &Vec<Rectangle>)
        ensures
            r@ == self.spec_damage(),
    {
        &self.damage
    }

    pub fn paints(&self) -> (r: &Vec<Paint>)
        ensures
            r@ == self.spec_paints(),
    {
        &self.paints
    }

    pub fn render_scale(&self) -> (r: i32)
        ensures
            r == self.spec_render_scale(),
    {
        self.render_scale
    }

    pub fn output(&self) -> (r: u64)
        ensures
            r == self.spec_output(),
    {
        self.output
    }
}

/// A toplevel id is painted by the plan.
pub open spec fn paints_id(ps: Seq<Paint>, id: ToplevelId) -> bool {
    exists|i: int| 0 <= i < ps.len() && (#[trigger] ps[i]).id == id
}

impl Space {
    /// Computes the damage of the next frame of `output` on a buffer `age`
    /// frames old (0: its content is unknown) and what to repaint for it.
    /// `Ok(None)` means nothing needs drawing and the buffer stays as it is.
    /// When the history serves, it is cut to `age` frames.
    pub fn render_output(&mut self, output: &Output, age: usize) -> (r: Result<Option<RenderPlan>, RenderError>)
        requires
            old(self).wf(),
        ensures
            final(self).wf(),
            final(self).spec_id() == old(self).spec_id(),
            final(self).spec_windows() == old(self).spec_windows(),
            output_ids(final(self).spec_outputs()) == output_ids(old(self).spec_outputs()),
            forall|id: u64| id != output.id ==> #[trigger] final(self).mapped_output(id) == old(self).mapped_output(id),
            old(self).mapped_output(output.id).is_none() ==> r == Err::<Option<RenderPlan>, RenderError>(RenderError::UnknownOutput)
                && final(self).spec_outputs() == old(self).spec_outputs(),
            old(self).mapped_output(output.id).is_some() ==> ({
                let m = old(self).mapped_output(output.id).unwrap();
                let f = final(self).mapped_output(output.id).unwrap();
                let ws = old(self).spec_windows();
                let ls = m.output.layers@;
                let hist = views(m.state.old_damage@);
                &&& f.output == m.output
                &&& f.state.location == m.state.location && f.state.render_scale == m.state.render_scale
                &&& f.state.surfaces == m.state.surfaces && f.state.last_state == m.state.last_state
                &&& f.state.layers_drawn == m.state.layers_drawn
                &&& m.output.mode.is_none() ==> r == Err::<Option<RenderPlan>, RenderError>(RenderError::OutputNoMode)
                    && f.state.old_damage == m.state.old_damage
                &&& m.output.mode.is_some() ==> ({
                    let out = spec_output_geometry(m).unwrap();
                    let nd = new_damage(ws, ls, old(self).spec_id(), painted_entries(m.state.last_state));
                    let comp = composed_damage(nd, hist, age, out);
                    &&& r.is_ok()
                    &&& (history_usable(age, hist.len() as int) ==> f.state.old_damage@ == m.state.old_damage@.take(age as int))
                    &&& (!history_usable(age, hist.len() as int) ==> f.state.old_damage@ == m.state.old_damage@)
                    &&& match r.unwrap() {
                        None => is_reduction(Seq::empty(), comp, out),
                        Some(p) => {
                            &&& p.wf()
                            &&& p.spec_damage().len() > 0
                            &&& is_reduction(p.spec_damage(), comp, out)
                            &&& p.spec_output() == output.id
                            &&& p.spec_render_scale() == m.state.render_scale
                            &&& p.spec_new_damage() == nd
                            &&& p.spec_snapshot() == snapshot(ws, ls, old(self).spec_id())
                            &&& paints_match(p.spec_paints(), paint_targets(ws, ls, old(self).spec_id(), p.spec_damage()), p.spec_damage(), out.loc)
                        },
                    }
                })
            }),
    {
        let k = match self.find_output(output.id) {
            Some(k) => k,
            None => {
                return Err(RenderError::UnknownOutput);
            },
        };
        let out = match geometry_of(&self.outputs[k]) {
            Some(g) => g,
            None => {
                return Err(RenderError::OutputNoMode);
            },
        };
        proof {
            let ws = self.windows@;
            assert(windows_placed(ws, self.id)) by {
                assert forall|i: int| 0 <= i < ws.len() implies (#[trigger] ws[i]).wf() && ws[i].states().dom().contains(self.id) && placement_ok(&ws[i], spec_window_loc(&ws[i], self.id)) by {
                    let w = ws[i];
                }
            }
        }
        let ghost before = self.outputs@;
        let mut mo = self.outputs.remove(k);
        let nd = compute_new_damage(&self.windows, &mo.output.layers, self.id, &mo.state.last_state);
        let comp = compose_damage(&nd, &mut mo.state.old_damage, age, out);
        let damage = reduce_damage(&comp, &out);
        let r = if damage.len() == 0 {
            None
        } else {
            let paints = plan_paints(&self.windows, &mo.output.layers, self.id, &damage, out.loc);
            let snap = take_snapshot(&self.windows, &mo.output.layers, self.id);
            proof {
                lemma_snapshot_keys(self.windows@, mo.output.layers@, self.id);
            }
            Some(RenderPlan {
                output: mo.output.id,
                render_scale: mo.state.render_scale,
                damage,
                paints,
                new_damage: nd,
                snapshot: snap,
            })
        };
        self.outputs.insert(k, mo);
        proof {
            assert(output_ids(self.outputs@) =~= output_ids(before));
            assert forall|i: int| 0 <= i < self.outputs@.len() implies output_wf(#[trigger] self.outputs@[i]) by {
                if i != k {
                    assert(self.outputs@[i] == before[i]);
                } else {
                    let o = self.outputs@[i];
                    assert forall|a: int, b: int| 0 <= a < o.state.old_damage@.len() && 0 <= b < o.state.old_damage@[a]@.len()
                        implies (#[trigger] o.state.old_damage@[a]@[b]).bounded() by {
                        assert(o.state.old_damage@[a] == before[i].state.old_damage@[a]);
                    }
                }
            }
            assert forall|o: u64| o != output.id implies #[trigger] self.mapped_output(o) == old(self).mapped_output(o) by {
                if output_ids(before).contains(o) {
                    let j = output_ids(before).index_of(o);
                    assert(output_ids(before)[j] == o);
                    assert(j != k);
                }
            }
            if r.is_none() {
                assert(damage@ =~= Seq::<Rectangle>::empty());
            }
            assert(output_ids(self.outputs@).index_of(output.id) == k);
            assert(self.mapped_output(output.id) == Some(self.outputs@[k as int]));
            assert(old(self).mapped_output(output.id) == Some(before[k as int]));
            let m = before[k as int];
            assert(views(m.state.old_damage@).len() == m.state.old_damage@.len());
        }
        Ok(r)
    }
}

/// `b` is `a` with its drawn flag in `space` set to `drawn`.
pub open spec fn redrawn(a: Window, b: Window, space: usize, drawn: bool) -> bool {
    &&& a.id == b.id && a.surface == b.surface && a.geometry == b.geometry && a.bbox == b.bbox
    &&& a.bbox_with_popups == b.bbox_with_popups && a.alive == b.alive
    &&& a.activated == b.activated && a.damage == b.damage && a.surfaces == b.surfaces
    &&& b.states() == a.states().insert(
        space,
        WindowState { location: spec_window_loc(&a, space), drawn },
    )
}

/// What a successful render leaves in the space `s1`, from `s0` and its plan:
/// each painted window and layer is marked drawn, and the output records the
/// painted rectangles and the frame's new damage at the head of its history.
pub open spec fn render_finished(s0: Space, p: RenderPlan, s1: Space) -> bool {
    let m = s0.mapped_output(p.spec_output()).unwrap();
    let f = s1.mapped_output(p.spec_output()).unwrap();
    &&& s1.spec_windows().len() == s0.spec_windows().len()
    &&& forall|i: int|
        0 <= i < s0.spec_windows().len() ==> redrawn(
            #[trigger] s0.spec_windows()[i],
            s1.spec_windows()[i],
            s0.spec_id(),
            spec_window_state(s0.spec_id(), &s0.spec_windows()[i]).drawn || paints_id(
                p.spec_paints(),
                ToplevelId::Xdg(s0.spec_windows()[i].id),
            ),
        )
    &&& f.output == m.output
    &&& f.state.location == m.state.location && f.state.render_scale == m.state.render_scale
    &&& f.state.surfaces == m.state.surfaces
    &&& painted_entries(f.state.last_state) == p.spec_snapshot()
    &&& views(f.state.old_damage@) == views(m.state.old_damage@).insert(0, p.spec_new_damage())
    &&& forall|id: u64|
        #[trigger] f.state.layers_drawn@.contains(id) == (m.state.layers_drawn@.contains(id)
            || paints_id(p.spec_paints(), ToplevelId::Layer(id)))
}

impl Space {
    /// Sets the drawn flag in this space of the window at `i`.
    fn set_drawn(&mut self, i: usize, drawn: bool)
        requires
            old(self).wf(),
            i < old(self).spec_windows().len(),
        ensures
            final(self).wf(),
            final(self).spec_id() == old(self).spec_id(),
            final(self).spec_outputs() == old(self).spec_outputs(),
            final(self).spec_windows().len() == old(self).spec_windows().len(),
            forall|j: int| 0 <= j < old(self).spec_windows().len() && j != i ==> #[trigger] final(self).spec_windows()[j]
                == old(self).spec_windows()[j],
            redrawn(old(self).spec_windows()[i as int], final(self).spec_windows()[i as int], old(self).spec_id(), drawn),
    {
        let ghost before = self.windows@;
        let mut w = self.windows.remove(i);
        let st = window_state(self.id, &w);
        set_window_state(self.id, &mut w, WindowState { location: st.location, drawn });
        self.windows.insert(i, w);
        proof {
            assert(window_ids(self.windows@) =~= window_ids(before));
            assert forall|j: int| 0 <= j < self.windows@.len() implies {
                let w = #[trigger] self.windows@[j];
                w.wf() && w.states().dom().contains(self.id) && placement_ok(&w, spec_window_loc(&w, self.id))
            } by {
                if j != i {
                    assert(self.windows@[j] == before[j]);
                }
            }
        }
    }

    /// Marks the window at `i` drawn if the plan painted it.
    fn mark_drawn(&mut self, i: usize, paints: &Vec<Paint>)
        requires
            old(self).wf(),
            i < old(self).spec_windows().len(),
        ensures
            final(self).wf(),
            final(self).spec_id() == old(self).spec_id(),
            final(self).spec_outputs() == old(self).spec_outputs(),
            final(self).spec_windows().len() == old(self).spec_windows().len(),
            forall|j: int| 0 <= j < old(self).spec_windows().len() && j != i ==> #[trigger] final(self).spec_windows()[j]
                == old(self).spec_windows()[j],
            redrawn(
                old(self).spec_windows()[i as int],
                final(self).spec_windows()[i as int],
                old(self).spec_id(),
                spec_window_state(old(self).spec_id(), &old(self).spec_windows()[i as int]).drawn || paints_id(
                    paints@,
                    ToplevelId::Xdg(old(self).spec_windows()[i as int].id),
                ),
            ),
    {
        let st = window_state(self.id, &self.windows[i]);
        let painted = painted_by(paints, ToplevelId::Xdg(self.windows[i].id));
        self.set_drawn(i, st.drawn || painted);
    }

    /// Takes back a plan of `render_output` once the renderer is done with it.
    /// When rendering failed the buffer is not trusted: the output forgets what
    /// it painted and its damage history, so that the next frame is painted
    /// whole. Otherwise it records what was painted and returns `Ok(true)`.
    pub fn finish_render(&mut self, plan: RenderPlan, rendered: bool) -> (r: Result<bool, RenderError>)
        requires
            old(self).wf(),
            plan.wf(),
        ensures
            final(self).wf(),
            final(self).spec_id() == old(self).spec_id(),
            output_ids(final(self).spec_outputs()) == output_ids(old(self).spec_outputs()),
            forall|id: u64| id != plan.spec_output() ==> #[trigger] final(self).mapped_output(id) == old(self).mapped_output(id),
            old(self).mapped_output(plan.spec_output()).is_none() ==> r == Err::<bool, RenderError>(RenderError::UnknownOutput)
                && final(self).spec_windows() == old(self).spec_windows()
                && final(self).spec_outputs() == old(self).spec_outputs(),
            old(self).mapped_output(plan.spec_output()).is_some() && !rendered ==> ({
                let m = old(self).mapped_output(plan.spec_output()).unwrap();
                let f = final(self).mapped_output(plan.spec_output()).unwrap();
                &&& r == Err::<bool, RenderError>(RenderError::Rendering)
                &&& final(self).spec_windows() == old(self).spec_windows()
                &&& f.output == m.output
                &&& f.state.location == m.state.location && f.state.render_scale == m.state.render_scale
                &&& f.state.surfaces == m.state.surfaces && f.state.layers_drawn == m.state.layers_drawn
                &&& painted_entries(f.state.last_state).len() == 0 && f.state.old_damage@.len() == 0
            }),
            old(self).mapped_output(plan.spec_output()).is_some() && rendered ==> r == Ok::<bool, RenderError>(true)
                && render_finished(*old(self), plan, *final(self)),
    {
        let k = match self.find_output(plan.output) {
            Some(k) => k,
            None => {
                return Err(RenderError::UnknownOutput);
            },
        };
        let ghost before = self.outputs@;
        let ghost s0 = *self;
        if !rendered {
            let mut mo = self.outputs.remove(k);
            mo.state.last_state = new_painted();
            mo.state.old_damage = Vec::new();
            self.outputs.insert(k, mo);
            proof {
                self.lemma_output_replaced(before, k as int, plan.output);
            }
            return Err(RenderError::Rendering);
        }
        let RenderPlan { output, render_scale: _, damage: _, paints, new_damage, snapshot } = plan;
        let mut i: usize = 0;
        while i < self.windows.len()
            invariant
                self.wf(),
                self.id == s0.id,
                self.outputs@ == before,
                i <= self.windows@.len(),
                self.windows@.len() == s0.windows@.len(),
                forall|j: int| 0 <= j < i ==> redrawn(
                    #[trigger] s0.windows@[j],
                    self.windows@[j],
                    s0.id,
                    spec_window_state(s0.id, &s0.windows@[j]).drawn || paints_id(paints@, ToplevelId::Xdg(s0.windows@[j].id)),
                ),
                forall|j: int| i <= j < self.windows@.len() ==> #[trigger] self.windows@[j] == s0.windows@[j],
            decreases self.windows@.len() - i,
        {
            let ghost prev = self.windows@;
            self.mark_drawn(i, &paints);
            assert forall|j: int| 0 <= j < i + 1 implies redrawn(
                #[trigger] s0.windows@[j],
                self.windows@[j],
                s0.id,
                spec_window_state(s0.id, &s0.windows@[j]).drawn || paints_id(paints@, ToplevelId::Xdg(s0.windows@[j].id)),
            ) by {
                if j < i {
                    assert(self.windows@[j] == prev[j]);
                }
            }
            i = i + 1;
        }
        let mut mo = self.outputs.remove(k);
        let mut j: usize = 0;
        let ghost drawn0 = mo.state.layers_drawn@;
        let ghost mo0 = mo;
        while j < paints.len()
            invariant
                j <= paints@.len(),
                mo.output == mo0.output,
                mo.state.location == mo0.state.location,
                mo.state.render_scale == mo0.state.render_scale,
                mo.state.surfaces == mo0.state.surfaces,
                mo.state.last_state == mo0.state.last_state,
                mo.state.old_damage == mo0.state.old_damage,
                forall|id: u64| #[trigger] mo.state.layers_drawn@.contains(id) == (drawn0.contains(id)
                    || exists|t: int| 0 <= t < j && (#[trigger] paints@[t]).id == ToplevelId::Layer(id)),
            decreases paints.len() - j,
        {
            let ghost ld = mo.state.layers_drawn@;
            if let ToplevelId::Layer(l) = paints[j].id {
                if !contains_id(&mo.state.layers_drawn, l) {
                    mo.state.layers_drawn.push(l);
                }
            }
            proof {
                assert forall|id: u64| #[trigger] mo.state.layers_drawn@.contains(id) == (drawn0.contains(id)
                    || exists|t: int| 0 <= t < j + 1 && (#[trigger] paints@[t]).id == ToplevelId::Layer(id)) by {
                    let here = paints@[j as int].id == ToplevelId::Layer(id);
                    assert(mo.state.layers_drawn@.contains(id) == (ld.contains(id) || here)) by {
                        if here && !ld.contains(id) {
                            assert(mo.state.layers_drawn@.last() == id);
                        }
                        if mo.state.layers_drawn@.contains(id) && !ld.contains(id) {
                            let q = choose|q: int| 0 <= q < mo.state.layers_drawn@.len() && mo.state.layers_drawn@[q] == id;
                            if q < ld.len() {
                                assert(ld[q] == id);
                            }
                        }
                        if ld.contains(id) {
                            let q = choose|q: int| 0 <= q < ld.len() && ld[q] == id;
                            assert(mo.state.layers_drawn@[q] == id);
                        }
                    }
                    if exists|t: int| 0 <= t < j + 1 && (#[trigger] paints@[t]).id == ToplevelId::Layer(id) {
                        let t = choose|t: int| 0 <= t < j + 1 && (#[trigger] paints@[t]).id == ToplevelId::Layer(id);
                        if t < j {
                            assert(exists|t: int| 0 <= t < j && (#[trigger] paints@[t]).id == ToplevelId::Layer(id));
                        }
                    }
                }
            }
            j = j + 1;
        }
        mo.state.last_state = painted_from(snapshot);
        mo.state.old_damage.insert(0, new_damage);
        self.outputs.insert(k, mo);
        proof {
            self.lemma_output_replaced(before, k as int, output);
            assert(views(self.outputs@[k as int].state.old_damage@) =~= views(before[k as int].state.old_damage@).insert(0, plan.spec_new_damage()));
        }
        Ok(true)
    }

    proof fn lemma_output_replaced(&self, before: Seq<MappedOutput>, k: int, id: u64)
        requires
            0 <= k < before.len(),
            before[k].output.id == id,
            self.outputs@ == before.remove(k).insert(k, self.outputs@[k]),
            self.outputs@[k].output == before[k].output,
            unique_ids(output_ids(before)),
            forall|i: int| 0 <= i < before.len() ==> output_wf(#[trigger] before[i]),
            output_wf(self.outputs@[k]),
        ensures
            output_ids(self.outputs@) == output_ids(before),
            forall|i: int| 0 <= i < self.outputs@.len() ==> output_wf(#[trigger] self.outputs@[i]),
            forall|i: int| 0 <= i < self.outputs@.len() && i != k ==> self.outputs@[i] == before[i],
    {
        assert(output_ids(self.outputs@) =~= output_ids(before));
        assert forall|i: int| 0 <= i < self.outputs@.len() implies output_wf(#[trigger] self.outputs@[i]) by {
            if i != k {
                assert(self.outputs@[i] == before[i]);
            }
        }
    }
}

fn contains_id(ids: &Vec<u64>, id: u64) -> (r: bool)
    ensures
        r == ids@.contains(id),
{
    let mut i: usize = 0;
    while i < ids.len()
        invariant
            i <= ids@.len(),
            forall|k: int| 0 <= k < i ==> ids@[k] != id,
        decreases ids.len() - i,
    {
        if ids[i] == id {
            return true;
        }
        i = i + 1;
    }
    false
}

fn painted_by(paints: &Vec<Paint>, id: ToplevelId) -> (r: bool)
    ensures
        r == paints_id(paints@, id),
{
    let mut i: usize = 0;
    while i < paints.len()
        invariant
            i <= paints@.len(),
            forall|k: int| 0 <= k < i ==> (#[trigger] paints@[k]).id != id,
        decreases paints.len() - i,
    {
        if paints[i].id == id {
            return true;
        }
        i = i + 1;
    }
    false
}

/// Windows to notify of a frame, back to front: all of them, or those drawn.
pub open spec fn window_frames(ws: Seq<Window>, space: usize, all: bool) -> Seq<ToplevelId>
    decreases ws.len(),
{
    if ws.len() == 0 {
        Seq::empty()
    } else {
        let r = window_frames(ws.drop_last(), space, all);
        if all || spec_window_state(space, &ws.last()).drawn {
            r.push(ToplevelId::Xdg(ws.last().id))
        } else {
            r
        }
    }
}

/// Layers of one output to notify of a frame: all of them, or those drawn.
pub open spec fn layers_to_notify(ls: Seq<Layer>, drawn: Seq<u64>, all: bool) -> Seq<ToplevelId>
    decreases ls.len(),
{
    if ls.len() == 0 {
        Seq::empty()
    } else {
        let r = layers_to_notify(ls.drop_last(), drawn, all);
        if all || drawn.contains(ls.last().id) {
            r.push(ToplevelId::Layer(ls.last().id))
        } else {
            r
        }
    }
}

pub open spec fn layer_frames(os: Seq<MappedOutput>, all: bool) -> Seq<ToplevelId>
    decreases os.len(),
{
    if os.len() == 0 {
        Seq::empty()
    } else {
        layer_frames(os.drop_last(), all) + layers_to_notify(
            os.last().output.layers@,
            os.last().state.layers_drawn@,
            all,
        )
    }
}

/// `b` is the output `a` with no layer marked drawn.
pub open spec fn frames_cleared(a: MappedOutput, b: MappedOutput) -> bool {
    &&& b.output == a.output && b.state.location == a.state.location
    &&& b.state.render_scale == a.state.render_scale && b.state.surfaces == a.state.surfaces
    &&& b.state.last_state == a.state.last_state && b.state.old_damage == a.state.old_damage
    &&& b.state.layers_drawn@.len() == 0
}

/// What `send_frames` does: `r` lists the windows, back to front, then the
/// layers of each output, that get a frame notification, and `s1` is `s0`
/// with every drawn flag cleared unless `all` was asked for.
pub open spec fn frames_sent(s0: Space, all: bool, r: Seq<ToplevelId>, s1: Space) -> bool {
    &&& r == window_frames(s0.spec_windows(), s0.spec_id(), all) + layer_frames(s0.spec_outputs(), all)
    &&& s1.spec_id() == s0.spec_id()
    &&& all ==> s1.spec_windows() == s0.spec_windows() && s1.spec_outputs() == s0.spec_outputs()
    &&& !all ==> {
        &&& s1.spec_windows().len() == s0.spec_windows().len()
        &&& forall|i: int| 0 <= i < s0.spec_windows().len() ==> redrawn(
            #[trigger] s0.spec_windows()[i], s1.spec_windows()[i], s0.spec_id(), false)
        &&& s1.spec_outputs().len() == s0.spec_outputs().len()
        &&& forall|i: int| 0 <= i < s0.spec_outputs().len() ==> frames_cleared(
            #[trigger] s0.spec_outputs()[i], s1.spec_outputs()[i])
    }
}

fn notify_layers(r: &mut Vec<ToplevelId>, ls: &Vec<Layer>, drawn: &Vec<u64>, all: bool)
    ensures
        final(r)@ == old(r)@ + layers_to_notify(ls@, drawn@, all),
{
    let mut i: usize = 0;
    let ghost start = r@;
    while i < ls.len()
        invariant
            i <= ls@.len(),
            r@ == start + layers_to_notify(ls@.take(i as int), drawn@, all),
        decreases ls.len() - i,
    {
        assert(ls@.take(i + 1).drop_last() =~= ls@.take(i as int));
        if all || contains_id(drawn, ls[i].id) {
            r.push(ToplevelId::Layer(ls[i].id));
        }
        assert(r@ =~= start + layers_to_notify(ls@.take(i + 1), drawn@, all));
        i = i + 1;
    }
    assert(ls@.take(i as int) =~= ls@);
}

impl Space {
    /// Lists the windows, then the layers of each output, to tell that a
    /// frame is done: with `all` every one of them, else those drawn since
    /// the last call, whose drawn flags it clears.
    pub fn send_frames(&mut self, all: bool) -> (r: Vec<ToplevelId>)
        requires
            old(self).wf(),
        ensures
            final(self).wf(),
            frames_sent(*old(self), all, r@, *final(self)),
    {
        let ghost s0 = *self;
        let mut r: Vec<ToplevelId> = Vec::new();
        let mut i: usize = 0;
        while i < self.windows.len()
            invariant
                self.wf(),
                self.id == s0.id,
                self.outputs@ == s0.outputs@,
                i <= self.windows@.len(),
                self.windows@.len() == s0.windows@.len(),
                r@ == window_frames(s0.windows@.take(i as int), s0.id, all),
                all ==> self.windows@ == s0.windows@,
                !all ==> forall|j: int| 0 <= j < i ==> redrawn(#[trigger] s0.windows@[j], self.windows@[j], s0.id, false),
                forall|j: int| i <= j < self.windows@.len() ==> #[trigger] self.windows@[j] == s0.windows@[j],
            decreases self.windows@.len() - i,
        {
            assert(s0.windows@.take(i + 1).drop_last() =~= s0.windows@.take(i as int));
            let st = window_state(self.id, &self.windows[i]);
            if all || st.drawn {
                r.push(ToplevelId::Xdg(self.windows[i].id));
            }
            if !all {
                let ghost prev = self.windows@;
                self.set_drawn(i, false);
                assert forall|j: int| 0 <= j < i + 1 implies redrawn(#[trigger] s0.windows@[j], self.windows@[j], s0.id, false) by {
                    if j < i {
                        assert(self.windows@[j] == prev[j]);
                    }
                }
            }
            i = i + 1;
        }
        assert(s0.windows@.take(i as int) =~= s0.windows@);
        let ghost wins = r@;
        let mut k: usize = 0;
        while k < self.outputs.len()
            invariant
                self.wf(),
                self.id == s0.id,
                k <= self.outputs@.len(),
                self.outputs@.len() == s0.outputs@.len(),
                output_ids(self.outputs@) == output_ids(s0.outputs@),
                all ==> self.windows@ == s0.windows@,
                !all ==> forall|j: int| 0 <= j < s0.windows@.len() ==> redrawn(#[trigger] s0.windows@[j], self.windows@[j], s0.id, false),
                self.windows@.len() == s0.windows@.len(),
                r@ == wins + layer_frames(s0.outputs@.take(k as int), all),
                all ==> self.outputs@ == s0.outputs@,
                !all ==> forall|j: int| 0 <= j < k ==> frames_cleared(#[trigger] s0.outputs@[j], self.outputs@[j]),
                forall|j: int| k <= j < self.outputs@.len() ==> #[trigger] self.outputs@[j] == s0.outputs@[j],
            decreases self.outputs@.len() - k,
        {
            assert(s0.outputs@.take(k + 1).drop_last() =~= s0.outputs@.take(k as int));
            notify_layers(&mut r, &self.outputs[k].output.layers, &self.outputs[k].state.layers_drawn, all);
            if !all {
                let ghost before = self.outputs@;
                let mut mo = self.outputs.remove(k);
                mo.state.layers_drawn = Vec::new();
                self.outputs.insert(k, mo);
                proof {
                    assert(output_ids(self.outputs@) =~= output_ids(before));
                    assert forall|j: int| 0 <= j < self.outputs@.len() implies output_wf(#[trigger] self.outputs@[j]) by {
                        if j != k {
                            assert(self.outputs@[j] == before[j]);
                        }
                    }
                    assert forall|j: int| 0 <= j < k + 1 implies frames_cleared(#[trigger] s0.outputs@[j], self.outputs@[j]) by {
                        if j < k {
                            assert(self.outputs@[j] == before[j]);
                        }
                    }
                    assert forall|j: int| k + 1 <= j < self.outputs@.len() implies #[trigger] self.outputs@[j] == s0.outputs@[j] by {
                        assert(self.outputs@[j] == before[j]);
                    }
                }
            }
            k = k + 1;
        }
        assert(s0.outputs@.take(k as int) =~= s0.outputs@);
        r
    }
}

pub open spec fn alive_windows(ws: Seq<Window>) -> Seq<Window>
    decreases ws.len(),
{
    if ws.len() == 0 {
        Seq::empty()
    } else if ws.last().alive {
        alive_windows(ws.drop_last()).push(ws.last())
    } else {
        alive_windows(ws.drop_last())
    }
}

/// An output's rectangle as the membership tracker sees it: empty without a mode.
pub open spec fn refresh_geometry(o: MappedOutput) -> Rectangle {
    match spec_output_geometry(o) {
        Some(g) => g,
        None => Rectangle { loc: Point { x: 0, y: 0 }, size: Size { w: 0, h: 0 } },
    }
}

/// The set of entered surfaces of an output after walking the windows `ws`.
pub open spec fn after_windows(set: Set<u64>, ws: Seq<Window>, space: usize, geo: Rectangle) -> Set<u64>
    decreases ws.len(),
{
    if ws.len() == 0 {
        set
    } else {
        let w = ws.last();
        after_leaves(
            after_windows(set, ws.drop_last(), space, geo),
            w.surfaces@,
            geo,
            spec_window_rect(&w, space),
            spec_window_loc(&w, space),
        )
    }
}

pub open spec fn window_events(set: Set<u64>, ws: Seq<Window>, space: usize, geo: Rectangle, out: u64) -> Seq<
    SurfaceEvent,
>
    decreases ws.len(),
{
    if ws.len() == 0 {
        Seq::empty()
    } else {
        let w = ws.last();
        window_events(set, ws.drop_last(), space, geo, out) + leaf_events(
            after_windows(set, ws.drop_last(), space, geo),
            w.surfaces@,
            geo,
            spec_window_rect(&w, space),
            spec_window_loc(&w, space),
            out,
        )
    }
}

/// The entered surfaces of an output that are still alive.
pub open spec fn live_entered(o: MappedOutput, dead: Seq<u64>) -> Set<u64> {
    as_set(o.state.surfaces@).difference(as_set(dead))
}

/// Notifications of a refresh, output by output.
pub open spec fn output_events(os: Seq<MappedOutput>, ws: Seq<Window>, space: usize, dead: Seq<u64>) -> Seq<SurfaceEvent>
    decreases os.len(),
{
    if os.len() == 0 {
        Seq::empty()
    } else {
        let o = os.last();
        output_events(os.drop_last(), ws, space, dead) + window_events(
            live_entered(o, dead),
            ws,
            space,
            refresh_geometry(o),
            o.output.id,
        )
    }
}

/// `b` is the output `a` with the entered surfaces `set`.
pub open spec fn membership_updated(a: MappedOutput, b: MappedOutput, set: Set<u64>) -> bool {
    &&& b.output == a.output && b.state.location == a.state.location
    &&& b.state.render_scale == a.state.render_scale && b.state.last_state == a.state.last_state
    &&& b.state.old_damage == a.state.old_damage && b.state.layers_drawn == a.state.layers_drawn
    &&& as_set(b.state.surfaces@) == set
}

impl Space {
    fn prune_dead_windows(&mut self)
        requires
            old(self).wf(),
        ensures
            final(self).wf(),
            final(self).spec_id() == old(self).spec_id(),
            final(self).spec_outputs() == old(self).spec_outputs(),
            final(self).spec_windows() == alive_windows(old(self).spec_windows()),
    {
        let ghost s0 = self.windows@;
        let mut i: usize = 0;
        let ghost mut j: int = 0;
        while i < self.windows.len()
            invariant
                self.wf(),
                self.id == old(self).id,
                self.outputs@ == old(self).outputs@,
                0 <= j <= s0.len(),
                self.windows@ == alive_windows(s0.take(j)) + s0.skip(j),
                i == alive_windows(s0.take(j)).len(),
            decreases self.windows@.len() - i,
        {
            assert(s0.take(j + 1).drop_last() =~= s0.take(j));
            assert(self.windows@[i as int] == s0[j]);
            if self.windows[i].alive {
                proof {
                    assert(alive_windows(s0.take(j + 1)) == alive_windows(s0.take(j)).push(s0[j]));
                    assert(self.windows@ =~= alive_windows(s0.take(j + 1)) + s0.skip(j + 1));
                }
                i = i + 1;
            } else {
                self.take_window(i);
                proof {
                    assert(alive_windows(s0.take(j + 1)) == alive_windows(s0.take(j)));
                    assert(self.windows@ =~= alive_windows(s0.take(j + 1)) + s0.skip(j + 1));
                }
            }
            proof {
                j = j + 1;
            }
        }
        proof {
            if j < s0.len() {
                assert(self.windows@.len() > i);
            }
            assert(s0.take(j) =~= s0);
            assert(self.windows@ =~= alive_windows(s0));
        }
    }

    /// Drops windows that are no longer alive and, silently, the surfaces
    /// `dead` (destroyed ones) from the outputs' entered sets; then brings
    /// each output's set of entered surfaces up to date, and returns the
    /// enter and leave notifications that this takes, output by output.
    pub fn refresh(&mut self, dead: &Vec<u64>) -> (r: Vec<SurfaceEvent>)
        requires
            old(self).wf(),
        ensures
            final(self).wf(),
            final(self).spec_id() == old(self).spec_id(),
            final(self).spec_windows() == alive_windows(old(self).spec_windows()),
            final(self).spec_outputs().len() == old(self).spec_outputs().len(),
            forall|k: int| 0 <= k < old(self).spec_outputs().len() ==> membership_updated(
                #[trigger] old(self).spec_outputs()[k],
                final(self).spec_outputs()[k],
                after_windows(
                    live_entered(old(self).spec_outputs()[k], dead@),
                    final(self).spec_windows(),
                    old(self).spec_id(),
                    refresh_geometry(old(self).spec_outputs()[k]),
                ),
            ),
            r@ == output_events(old(self).spec_outputs(), final(self).spec_windows(), old(self).spec_id(), dead@),
    {
        self.prune_dead_windows();
        let ghost os = self.outputs@;
        let mut events: Vec<SurfaceEvent> = Vec::new();
        let mut k: usize = 0;
        while k < self.outputs.len()
            invariant
                self.wf(),
                self.id == old(self).id,
                self.windows@ == alive_windows(old(self).windows@),
                os == old(self).outputs@,
                k <= self.outputs@.len(),
                self.outputs@.len() == os.len(),
                output_ids(self.outputs@) == output_ids(os),
                forall|q: int| 0 <= q < k ==> membership_updated(#[trigger] os[q], self.outputs@[q],
                    after_windows(live_entered(os[q], dead@), self.windows@, self.id, refresh_geometry(os[q]))),
                forall|q: int| k <= q < os.len() ==> #[trigger] self.outputs@[q] == os[q],
                events@ == output_events(os.take(k as int), self.windows@, self.id, dead@),
            decreases os.len() - k,
        {
            let ghost before = self.outputs@;
            assert(windows_placed(self.windows@, self.id)) by {
                assert forall|q: int| 0 <= q < self.windows@.len() implies (#[trigger] self.windows@[q]).wf()
                    && self.windows@[q].states().dom().contains(self.id) && placement_ok(&self.windows@[q], spec_window_loc(&self.windows@[q], self.id)) by {
                    let w = self.windows@[q];
                }
            }
            let mut mo = self.outputs.remove(k);
            let geo = match geometry_of(&mo) {
                Some(g) => g,
                None => Rectangle { loc: Point { x: 0, y: 0 }, size: Size { w: 0, h: 0 } },
            };
            drop_surfaces(&mut mo.state.surfaces, dead);
            let ghost set0 = as_set(mo.state.surfaces@);
            let ghost ev0 = events@;
            let ghost mo0 = mo;
            let mut i: usize = 0;
            while i < self.windows.len()
                invariant
                    windows_placed(self.windows@, self.id),
                    i <= self.windows@.len(),
                    geo == refresh_geometry(mo0),
                    mo.output == mo0.output && mo.state.location == mo0.state.location,
                    mo.state.render_scale == mo0.state.render_scale && mo.state.last_state == mo0.state.last_state,
                    mo.state.old_damage == mo0.state.old_damage && mo.state.layers_drawn == mo0.state.layers_drawn,
                    unique(mo.state.surfaces@),
                    as_set(mo.state.surfaces@) == after_windows(set0, self.windows@.take(i as int), self.id, geo),
                    events@ == ev0 + window_events(set0, self.windows@.take(i as int), self.id, geo, mo0.output.id),
                decreases self.windows@.len() - i,
            {
                let w = &self.windows[i];
                assert(self.windows@.take(i + 1).drop_last() =~= self.windows@.take(i as int));
                assert(self.windows@.take(i + 1).last() == self.windows@[i as int]);
                let bbox = window_rect(w, self.id);
                let loc = crate::entity::window_loc(w, self.id);
                update_leaves(&mut mo.state.surfaces, &mut events, &w.surfaces, geo, bbox, loc, mo.output.id);
                assert(events@ =~= ev0 + window_events(set0, self.windows@.take(i + 1), self.id, geo, mo0.output.id));
                i = i + 1;
            }
            assert(self.windows@.take(i as int) =~= self.windows@);
            self.outputs.insert(k, mo);
            proof {
                assert(output_ids(self.outputs@) =~= output_ids(before));
                assert forall|q: int| 0 <= q < self.outputs@.len() implies output_wf(#[trigger] self.outputs@[q]) by {
                    if q != k {
                        assert(self.outputs@[q] == before[q]);
                    }
                }
                assert forall|q: int| 0 <= q < k + 1 implies membership_updated(#[trigger] os[q], self.outputs@[q],
                    after_windows(live_entered(os[q], dead@), self.windows@, self.id, refresh_geometry(os[q]))) by {
                    if q < k {
                        assert(self.outputs@[q] == before[q]);
                    }
                }
                assert forall|q: int| k + 1 <= q < os.len() implies #[trigger] self.outputs@[q] == os[q] by {
                    assert(self.outputs@[q] == before[q]);
                }
                assert(os.take(k + 1).drop_last() =~= os.take(k as int));
                assert(events@ =~= output_events(os.take(k + 1), self.windows@, self.id, dead@));
            }
            k = k + 1;
        }
        assert(os.take(k as int) =~= os);
        events
    }
}

/// Area shared by two rectangles: width times height of their overlap.
pub open spec fn overlap_area(a: Rectangle, b: Rectangle) -> int {
    max_int(0, min_int(a.right(), b.right()) - max_int(a.left(), b.left())) * max_int(
        0,
        min_int(a.bottom(), b.bottom()) - max_int(a.top(), b.top()),
    )
}

fn area_of_overlap(a: &Rectangle, b: &Rectangle) -> (r: i64)
    requires
        a.bounded(),
        b.bounded(),
    ensures
        r == overlap_area(*a, *b),
{
    let l = if a.loc.x >= b.loc.x { a.loc.x as i64 } else { b.loc.x as i64 };
    let t = if a.loc.y >= b.loc.y { a.loc.y as i64 } else { b.loc.y as i64 };
    let ar = a.loc.x as i64 + a.size.w as i64;
    let br = b.loc.x as i64 + b.size.w as i64;
    let ab = a.loc.y as i64 + a.size.h as i64;
    let bb = b.loc.y as i64 + b.size.h as i64;
    let rr = if ar <= br { ar } else { br };
    let bt = if ab <= bb { ab } else { bb };
    let w: i64 = if rr - l > 0 { rr - l } else { 0 };
    let h: i64 = if bt - t > 0 { bt - t } else { 0 };
    assert(0 <= w * h <= 4611686018427387904) by (nonlinear_arith)
        requires 0 <= w <= 2147483648, 0 <= h <= 2147483648;
    w * h
}

impl Space {
    /// The rectangle of a mapped output with a mode that overlaps the
    /// bounding box of the mapped window `wid`.
    pub open spec fn shared_area(&self, wid: u64, oid: u64) -> Option<int> {
        match (self.mapped(wid), self.mapped_output(oid)) {
            (Some(w), Some(o)) => match spec_output_geometry(o) {
                Some(g) => if g.spec_overlaps(spec_window_rect(&w, self.spec_id())) {
                    Some(overlap_area(g, spec_window_rect(&w, self.spec_id())))
                } else {
                    None
                },
                None => None,
            },
            _ => None,
        }
    }

    /// The outputs that the window overlaps, by growing area of overlap
    /// (the last one holds most of it); empty if the window is not mapped.
    #[verifier::rlimit(50)]
    pub fn outputs_for_window(&self, w: &Window) -> (r: Vec<u64>)
        requires
            self.wf(),
        ensures
            forall|i: int| 0 <= i < r@.len() ==> self.shared_area(w.id, #[trigger] r@[i]).is_some(),
            forall|oid: u64| self.shared_area(w.id, oid).is_some() ==> r@.contains(oid),
            unique(r@),
            forall|i: int, j: int| 0 <= i < j < r@.len() ==> self.shared_area(w.id, #[trigger] r@[i]).unwrap()
                <= self.shared_area(w.id, #[trigger] r@[j]).unwrap(),
    {
        let mut r: Vec<u64> = Vec::new();
        let mut areas: Vec<i64> = Vec::new();
        let k = match self.find_window(w.id) {
            Some(k) => k,
            None => {
                proof {
                    assert forall|oid: u64| self.shared_area(w.id, oid).is_none() by {}
                }
                return r;
            },
        };
        proof {
            lemma_index_of_unique(window_ids(self.windows@), k as int);
        }
        let wr = window_rect(&self.windows[k], self.id);
        let mut i: usize = 0;
        while i < self.outputs.len()
            invariant
                self.wf(),
                k < self.windows@.len(),
                self.mapped(w.id) == Some(self.windows@[k as int]),
                wr == spec_window_rect(&self.windows@[k as int], self.id),
                wr.bounded(),
                i <= self.outputs@.len(),
                r@.len() == areas@.len(),
                forall|q: int| 0 <= q < r@.len() ==> self.shared_area(w.id, #[trigger] r@[q]) == Some(areas@[q] as int),
                forall|q: int| 0 <= q < r@.len() ==> exists|p: int| 0 <= p < i && self.outputs@[p].output.id == #[trigger] r@[q],
                forall|p: int| 0 <= p < i && self.shared_area(w.id, #[trigger] self.outputs@[p].output.id).is_some()
                    ==> r@.contains(self.outputs@[p].output.id),
                unique(r@),
                forall|a: int, b: int| 0 <= a < b < r@.len() ==> areas@[a] <= areas@[b],
            decreases self.outputs@.len() - i,
        {
            let oid = self.outputs[i].output.id;
            proof {
                assert(output_ids(self.outputs@)[i as int] == oid);
                lemma_index_of_unique(output_ids(self.outputs@), i as int);
                assert(self.mapped_output(oid) == Some(self.outputs@[i as int]));
            }
            if let Some(g) = geometry_of(&self.outputs[i]) {
                if g.overlaps(&wr) {
                    let area = area_of_overlap(&g, &wr);
                    let mut pos: usize = r.len();
                    while pos > 0 && areas[pos - 1] > area
                        invariant
                            pos <= areas@.len(),
                            forall|q: int| pos <= q < areas@.len() ==> areas@[q] > area,
                        decreases pos,
                    {
                        pos = pos - 1;
                    }
                    let ghost r0 = r@;
                    let ghost a0 = areas@;
                    proof {
                        assert(!r0.contains(oid)) by {
                            if r0.contains(oid) {
                                let q = choose|q: int| 0 <= q < r0.len() && r0[q] == oid;
                                let p = choose|p: int| 0 <= p < i && self.outputs@[p].output.id == #[trigger] r0[q];
                                assert(output_ids(self.outputs@)[p] == output_ids(self.outputs@)[i as int]);
                            }
                        }
                    }
                    r.insert(pos, oid);
                    areas.insert(pos, area);
                    proof {
                        assert forall|q: int| 0 <= q < r@.len() implies self.shared_area(w.id, #[trigger] r@[q]) == Some(areas@[q] as int) by {
                            if q < pos {
                                assert(r@[q] == r0[q] && areas@[q] == a0[q]);
                            } else if q > pos {
                                assert(r@[q] == r0[q - 1] && areas@[q] == a0[q - 1]);
                            }
                        }
                        assert forall|q: int| 0 <= q < r@.len() implies exists|p: int| 0 <= p < i + 1 && self.outputs@[p].output.id == #[trigger] r@[q] by {
                            if q < pos {
                                assert(r@[q] == r0[q]);
                                let p = choose|p: int| 0 <= p < i && self.outputs@[p].output.id == #[trigger] r0[q];
                            } else if q > pos {
                                assert(r@[q] == r0[q - 1]);
                                let p = choose|p: int| 0 <= p < i && self.outputs@[p].output.id == #[trigger] r0[q - 1];
                            } else {
                                assert(self.outputs@[i as int].output.id == r@[q]);
                            }
                        }
                        assert forall|p: int| 0 <= p < i + 1 && self.shared_area(w.id, #[trigger] self.outputs@[p].output.id).is_some()
                            implies r@.contains(self.outputs@[p].output.id) by {
                            if p < i {
                                let x = self.outputs@[p].output.id;
                                let q = choose|q: int| 0 <= q < r0.len() && r0[q] == x;
                                if q < pos {
                                    assert(r@[q] == x);
                                } else {
                                    assert(r@[q + 1] == x);
                                }
                            } else {
                                assert(r@[pos as int] == oid);
                            }
                        }
                        assert forall|a: int, b: int| 0 <= a < b < r@.len() implies r@[a] != r@[b] by {
                            if a == pos {
                                assert(r0.contains(r@[b]) || b == pos);
                                if b > pos { assert(r@[b] == r0[b - 1]); }
                            } else if b == pos {
                                assert(r@[a] == r0[a]);
                            } else {
                                let c = if a < pos { a } else { a - 1 };
                                let d = if b < pos { b } else { b - 1 };
                                assert(r@[a] == r0[c] && r@[b] == r0[d]);
                            }
                        }
                        assert forall|a: int, b: int| 0 <= a < b < r@.len() implies areas@[a] <= areas@[b] by {
                            if a < pos && b < pos {
                            } else if a < pos && b == pos {
                                assert(areas@[a] == a0[a]);
                            } else if a < pos {
                                assert(areas@[a] == a0[a] && areas@[b] == a0[b - 1]);
                            } else if a == pos {
                                assert(areas@[b] == a0[b - 1]);
                            } else {
                                assert(areas@[a] == a0[a - 1] && areas@[b] == a0[b - 1]);
                            }
                        }
                    }
                }
            }
            i = i + 1;
        }
        proof {
            assert forall|oid: u64| self.shared_area(w.id, oid).is_some() implies r@.contains(oid) by {
                let p = output_ids(self.outputs@).index_of(oid);
                assert(output_ids(self.outputs@)[p] == oid);
                assert(self.outputs@[p].output.id == oid);
            }
        }
        r
    }
}

impl Space {
    /// Takes the current state of a mapped window from the protocol layer
    /// after a commit, keeping this space's record of it; a window that is
    /// not mapped is left alone.
    pub fn commit(&mut self, window: Window)
        requires
            old(self).wf(),
            window.wf(),
            old(self).mapped(window.id).is_some() ==> placement_ok(
                &window,
                spec_window_loc(&old(self).mapped(window.id).unwrap(), old(self).spec_id()),
            ),
            leaves_fresh(old(self).spec_windows(), window),
        ensures
            final(self).wf(),
            final(self).spec_id() == old(self).spec_id(),
            final(self).spec_outputs() == old(self).spec_outputs(),
            window_ids(final(self).spec_windows()) == window_ids(old(self).spec_windows()),
            old(self).mapped(window.id).is_none() ==> final(self).spec_windows() == old(self).spec_windows(),
            old(self).mapped(window.id).is_some() ==> ({
                let m = final(self).mapped(window.id).unwrap();
                &&& m.surface == window.surface && m.geometry == window.geometry && m.bbox == window.bbox
                &&& m.bbox_with_popups == window.bbox_with_popups && m.alive == window.alive
                &&& m.activated == window.activated && m.damage == window.damage
                &&& m.surfaces == window.surfaces
                &&& m.states() == window.states().insert(
                    old(self).spec_id(),
                    spec_window_state(old(self).spec_id(), &old(self).mapped(window.id).unwrap()),
                )
            }),
            forall|id: u64| id != window.id ==> #[trigger] final(self).mapped(id) == old(self).mapped(id),
    {
        let ghost before = self.windows@;
        match self.find_window(window.id) {
            Some(k) => {
                proof {
                    lemma_index_of_unique(window_ids(before), k as int);
                }
                let st = window_state(self.id, &self.windows[k]);
                let mut w = window;
                set_window_state(self.id, &mut w, st);
                proof {
                    assert forall|i: int| 0 <= i < before.len() && i != k implies (#[trigger] before[i]).id != w.id by {
                        assert(window_ids(before)[i] != window_ids(before)[k as int]);
                    }
                    assert forall|i: int, a: int, b: int|
                        0 <= i < before.len() && before[i].id != w.id && 0 <= a < before[i].surfaces@.len() && 0 <= b
                            < w.surfaces@.len() implies #[trigger] before[i].surfaces@[a].id != #[trigger] w.surfaces@[b].id by {
                        assert(before[i].surfaces@[a].id != window.surfaces@[b].id);
                    }
                    lemma_leaves_update(before, k as int, w);
                }
                self.windows.set(k, w);
                proof {
                    assert(window_ids(self.windows@) =~= window_ids(before));
                    assert forall|j: int| 0 <= j < self.windows@.len() implies {
                        let w = #[trigger] self.windows@[j];
                        w.wf() && w.states().dom().contains(self.id) && placement_ok(&w, spec_window_loc(&w, self.id))
                    } by {
                        if j != k {
                            assert(self.windows@[j] == before[j]);
                        }
                    }
                    assert forall|id: u64| id != window.id implies #[trigger] self.mapped(id) == old(self).mapped(id) by {
                        if window_ids(before).contains(id) {
                            let j = window_ids(before).index_of(id);
                            assert(window_ids(before)[j] == id);
                            assert(j != k);
                        }
                    }
                }
            },
            None => {},
        }
    }

    /// Takes the current mode and layers of a mapped output from the protocol
    /// layer, keeping this space's record of it; an output that is not mapped
    /// is left alone.
    pub fn update_output(&mut self, output: Output)
        requires
            old(self).wf(),
            old(self).mapped_output(output.id).is_some() ==> output_fits(
                output,
                old(self).mapped_output(output.id).unwrap().state.render_scale,
                old(self).mapped_output(output.id).unwrap().state.location,
            ),
        ensures
            final(self).wf(),
            final(self).spec_id() == old(self).spec_id(),
            final(self).spec_windows() == old(self).spec_windows(),
            output_ids(final(self).spec_outputs()) == output_ids(old(self).spec_outputs()),
            old(self).mapped_output(output.id).is_none() ==> final(self).spec_outputs() == old(self).spec_outputs(),
            old(self).mapped_output(output.id).is_some() ==> final(self).mapped_output(output.id).unwrap().output == output
                && final(self).mapped_output(output.id).unwrap().state == old(self).mapped_output(output.id).unwrap().state,
            forall|id: u64| id != output.id ==> #[trigger] final(self).mapped_output(id) == old(self).mapped_output(id),
    {
        let ghost before = self.outputs@;
        let ghost id = output.id;
        match self.find_output(output.id) {
            Some(k) => {
                let mut mo = self.outputs.remove(k);
                mo.output = output;
                self.outputs.insert(k, mo);
                proof {
                    assert(output_ids(self.outputs@) =~= output_ids(before));
                    assert forall|i: int| 0 <= i < self.outputs@.len() implies output_wf(#[trigger] self.outputs@[i]) by {
                        if i != k {
                            assert(self.outputs@[i] == before[i]);
                        }
                    }
                    assert forall|o: u64| o != id implies #[trigger] self.mapped_output(o) == old(self).mapped_output(o) by {
                        if output_ids(before).contains(o) {
                            let j = output_ids(before).index_of(o);
                            assert(output_ids(before)[j] == o);
                            assert(j != k);
                        }
                    }
                }
            },
            None => {},
        }
    }
}

/// A snapshot names each window and each layer once.
proof fn lemma_snapshot_keys(ws: Seq<Window>, ls: Seq<Layer>, space: usize)
    requires
        unique_ids(window_ids(ws)),
        unique_ids(layer_ids(ls)),
    ensures
        unique_keys(snapshot(ws, ls, space)),
{
    let s = snapshot(ws, ls, space);
    let n = ws.len() as int;
    assert forall|i: int, j: int| 0 <= i < j < s.len() implies s[i].0 != s[j].0 by {
        if j < n {
            assert(window_ids(ws)[i] != window_ids(ws)[j]);
        } else if i >= n {
            assert(layer_ids(ls)[i - n] != layer_ids(ls)[j - n]);
        }
    }
}

impl Space {
    /// The first mapped window, back to front, whose root surface is `surface`.
    pub fn window_for_surface(&self, surface: u64) -> (r: Option<&Window>)
        ensures
            r.is_none() ==> forall|i: int| 0 <= i < self.spec_windows().len() ==> (#[trigger] self.spec_windows()[i]).surface != surface,
            r.is_some() ==> exists|i: int| 0 <= i < self.spec_windows().len() && self.spec_windows()[i] == *r.unwrap()
                && r.unwrap().surface == surface && forall|j: int| 0 <= j < i ==> (#[trigger] self.spec_windows()[j]).surface != surface,
    {
        let mut i: usize = 0;
        while i < self.windows.len()
            invariant
                i <= self.windows@.len(),
                forall|j: int| 0 <= j < i ==> (#[trigger] self.windows@[j]).surface != surface,
            decreases self.windows.len() - i,
        {
            if self.windows[i].surface == surface {
                assert(self.spec_windows()[i as int] == self.windows@[i as int] && forall|j: int| 0 <= j < i ==> (#[trigger] self.spec_windows()[j]).surface != surface);
                return Some(&self.windows[i]);
            }
            i = i + 1;
        }
        None
    }

    /// The first layer, over the mapped outputs in turn, whose surface is `surface`.
    pub fn layer_for_surface(&self, surface: u64) -> (r: Option<&Layer>)
        ensures
            r.is_none() ==> forall|k: int, i: int| 0 <= k < self.spec_outputs().len() && 0 <= i < self.spec_outputs()[k].output.layers@.len()
                ==> (#[trigger] self.spec_outputs()[k].output.layers@[i]).surface != surface,
            r.is_some() ==> r.unwrap().surface == surface && exists|k: int, i: int| 0 <= k < self.spec_outputs().len()
                && 0 <= i < self.spec_outputs()[k].output.layers@.len() && #[trigger] self.spec_outputs()[k].output.layers@[i] == *r.unwrap()
                && (forall|q: int, j: int| 0 <= q < k && 0 <= j < self.spec_outputs()[q].output.layers@.len()
                    ==> (#[trigger] self.spec_outputs()[q].output.layers@[j]).surface != surface)
                && (forall|j: int| 0 <= j < i ==> (#[trigger] self.spec_outputs()[k].output.layers@[j]).surface != surface),
    {
        let mut k: usize = 0;
        while k < self.outputs.len()
            invariant
                k <= self.outputs@.len(),
                forall|q: int, i: int| 0 <= q < k && 0 <= i < self.outputs@[q].output.layers@.len()
                    ==> (#[trigger] self.outputs@[q].output.layers@[i]).surface != surface,
            decreases self.outputs.len() - k,
        {
            let ls = &self.outputs[k].output.layers;
            let mut i: usize = 0;
            while i < ls.len()
                invariant
                    k < self.outputs@.len(),
                    ls@ == self.outputs@[k as int].output.layers@,
                    forall|q: int, j: int| 0 <= q < k && 0 <= j < self.outputs@[q].output.layers@.len()
                        ==> (#[trigger] self.outputs@[q].output.layers@[j]).surface != surface,
                    i <= ls@.len(),
                    forall|j: int| 0 <= j < i ==> (#[trigger] ls@[j]).surface != surface,
                decreases ls.len() - i,
            {
                if ls[i].surface == surface {
                    assert(self.spec_outputs()[k as int].output.layers@[i as int] == ls@[i as int]
                        && (forall|q: int, j: int| 0 <= q < k && 0 <= j < self.spec_outputs()[q].output.layers@.len()
                        ==> (#[trigger] self.spec_outputs()[q].output.layers@[j]).surface != surface)
                        && (forall|j: int| 0 <= j < i ==> (#[trigger] self.spec_outputs()[k as int].output.layers@[j]).surface != surface));
                    return Some(&ls[i]);
                }
                i = i + 1;
            }
            k = k + 1;
        }
        None
    }
}

} // verus!
