//! Laws of the space, stated over the same spec functions as the contracts
//! of the operations they relate.
use vstd::prelude::*;
use crate::damage::{is_reduction, pairwise_disjoint, source_of, attained, covers};
use crate::entity::{spec_window_loc, spec_window_rect_with_popups, Window};
use crate::frame::{layer_targets, paint_targets, paints_match, touches, window_targets, composed_damage, entity_damage, history_usable, lookup, translated_all, windows_damage};
use crate::geometry::Rectangle;
use crate::entity::ToplevelId;
use crate::space::{leaves_distinct, layers_to_notify, frames_sent, layer_frames, paints_id, render_finished, window_frames, RenderPlan, Space, after_windows, raised, removed, unique_ids, window_events};
use crate::membership::{after_leaves, leaf_events, SurfaceEvent};
use crate::entity::{spec_window_rect, spec_window_state, Layer, LayerKind, SurfaceLeaf};
use crate::geometry::Point;

verus! {

proof fn lemma_unique_index(ids: Seq<u64>, k: int)
    requires
        unique_ids(ids),
        0 <= k < ids.len(),
    ensures
        ids.contains(ids[k]),
        ids.index_of(ids[k]) == k,
{
    assert(ids[k] == ids[k]);
}

proof fn lemma_removed_unique(ids: Seq<u64>, id: u64)
    requires
        unique_ids(ids),
    ensures
        unique_ids(removed(ids, id)),
        !removed(ids, id).contains(id),
        forall|x: u64| x != id ==> (#[trigger] removed(ids, id).contains(x) == ids.contains(x)),
{
    if ids.contains(id) {
        let k = ids.index_of(id);
        let r = ids.remove(k);
        assert forall|a: int, b: int| 0 <= a < b < r.len() implies r[a] != r[b] by {
            let (c, d) = if b < k { (a, b) } else if a < k { (a, b + 1) } else { (a + 1, b + 1) };
            assert(ids[c] != ids[d]);
        }
        if r.contains(id) {
            let j = choose|j: int| 0 <= j < r.len() && r[j] == id;
            if j < k {
                assert(ids[j] == id);
            } else {
                assert(ids[j + 1] == id);
            }
        }
        assert forall|x: u64| x != id implies (#[trigger] r.contains(x) == ids.contains(x)) by {
            if ids.contains(x) {
                let j = choose|j: int| 0 <= j < ids.len() && ids[j] == x;
                if j < k {
                    assert(r[j] == x);
                } else {
                    assert(j != k);
                    assert(r[j - 1] == x);
                }
            }
            if r.contains(x) {
                let j = choose|j: int| 0 <= j < r.len() && r[j] == x;
                if j < k {
                    assert(ids[j] == x);
                } else {
                    assert(ids[j + 1] == x);
                }
            }
        }
    }
}

/// Raising puts a window last in the stack, and mapping or raising a window
/// a second time leaves the stack as the first time did: the only effects of
/// a repeated map are the raise and the new location.
pub proof fn lemma_raise_is_idempotent(ids: Seq<u64>, id: u64)
    requires
        unique_ids(ids),
    ensures
        raised(ids, id) == removed(ids, id).push(id),
        raised(ids, id).last() == id,
        unique_ids(raised(ids, id)),
        raised(raised(ids, id), id) == raised(ids, id),
{
    lemma_removed_unique(ids, id);
    let r = removed(ids, id);
    let once = r.push(id);
    assert(raised(ids, id) == once);
    assert forall|a: int, b: int| 0 <= a < b < once.len() implies once[a] != once[b] by {
        if b == r.len() {
            assert(r.contains(r[a]));
        } else {
            assert(r[a] != r[b]);
        }
    }
    lemma_unique_index(once, r.len() as int);
    assert(once.remove(r.len() as int) =~= r);
}

/// After an unmap the window is no longer in the stack, and mapping it again
/// puts it on top of the others.
pub proof fn lemma_unmap_then_map(ids: Seq<u64>, id: u64)
    requires
        unique_ids(ids),
    ensures
        !removed(ids, id).contains(id),
        raised(removed(ids, id), id) == removed(ids, id).push(id),
        forall|x: u64| x != id ==> (#[trigger] removed(ids, id).contains(x) == ids.contains(x)),
{
    lemma_removed_unique(ids, id);
}

/// Without a usable history (buffer age 0, or a freshly mapped output) the
/// reduced damage is exactly the whole output.
pub proof fn lemma_unknown_buffer_repaints_output(
    new: Seq<Rectangle>,
    hist: Seq<Seq<Rectangle>>,
    age: usize,
    out: Rectangle,
    w: Seq<Rectangle>,
)
    requires
        !history_usable(age, hist.len() as int),
        out.has_area(),
        out.bounded(),
        is_reduction(w, composed_damage(new, hist, age, out), out),
    ensures
        w == seq![out],
{
    let src = composed_damage(new, hist, age, out);
    assert(src == seq![out]);
    assert(src[0] == out);
    assert(covers(w, src[0]));
    let t = choose|t: int| 0 <= t < w.len() && (#[trigger] w[t]).spec_contains_rect(src[0]);
    assert forall|q: int| 0 <= q < w.len() implies #[trigger] w[q] == out by {
        assert(attained(w[q], src, out));
        reveal(attained);
        let k = choose|k: int| #[trigger] source_of(w[q], src, out, k) && src[k].left() == w[q].left();
        let k2 = choose|k: int| #[trigger] source_of(w[q], src, out, k) && src[k].top() == w[q].top();
        let k3 = choose|k: int| #[trigger] source_of(w[q], src, out, k) && src[k].right() == w[q].right();
        let k4 = choose|k: int| #[trigger] source_of(w[q], src, out, k) && src[k].bottom() == w[q].bottom();
        assert(k == 0 && k2 == 0 && k3 == 0 && k4 == 0);
    }
    assert(w.len() == 1) by {
        if w.len() > 1 {
            let other = if t == 0 { 1int } else { 0int };
            assert(w[t] == out && w[other] == out);
            assert(pairwise_disjoint(w));
            assert(!w[t].spec_overlaps(w[other]));
        }
    }
    assert(w =~= seq![out]);
}

/// A window whose rectangle is the one last painted and that has no new
/// buffer damage adds no rectangle to the frame's new damage.
pub proof fn lemma_still_window_adds_no_damage(
    ws: Seq<Window>,
    w: Window,
    space: usize,
    last: Seq<(ToplevelId, Rectangle)>,
)
    requires
        lookup(last, ToplevelId::Xdg(w.id)) == Some(spec_window_rect_with_popups(&w, space)),
        w.damage@.len() == 0,
    ensures
        windows_damage(ws.push(w), space, last) == windows_damage(ws, space, last),
{
    assert(ws.push(w).drop_last() =~= ws);
    assert(translated_all(w.damage@, spec_window_loc(&w, space)) =~= Seq::<Rectangle>::empty());
    assert(entity_damage(
        spec_window_rect_with_popups(&w, space),
        lookup(last, ToplevelId::Xdg(w.id)),
        translated_all(w.damage@, spec_window_loc(&w, space)),
    ) =~= Seq::<Rectangle>::empty());
    assert(windows_damage(ws, space, last) + Seq::<Rectangle>::empty() =~= windows_damage(ws, space, last));
}

pub open spec fn leaf_ids(leaves: Seq<SurfaceLeaf>) -> Seq<u64> {
    leaves.map_values(|l: SurfaceLeaf| l.id)
}

/// Walking the leaves of a window whose bounding box misses the output
/// removes every one of them from the output's entered set, sends only
/// leave notifications, and sends one for each leaf that had entered.
pub proof fn lemma_leaves_off_output(
    set: Set<u64>,
    leaves: Seq<SurfaceLeaf>,
    geo: Rectangle,
    bbox: Rectangle,
    loc: crate::geometry::Point,
    out: u64,
)
    requires
        !geo.spec_overlaps(bbox),
    ensures
        forall|x: u64| #[trigger] after_leaves(set, leaves, geo, bbox, loc).contains(x) == (set.contains(x)
            && !leaf_ids(leaves).contains(x)),
        forall|i: int| 0 <= i < leaf_events(set, leaves, geo, bbox, loc, out).len() ==> (#[trigger] leaf_events(
            set, leaves, geo, bbox, loc, out)[i]) is Leave,
        forall|x: u64| set.contains(x) && leaf_ids(leaves).contains(x) ==> #[trigger] leaf_events(
            set, leaves, geo, bbox, loc, out).contains(SurfaceEvent::Leave { output: out, surface: x }),
    decreases leaves.len(),
{
    if leaves.len() > 0 {
        let pre = leaves.drop_last();
        lemma_leaves_off_output(set, pre, geo, bbox, loc, out);
        let l = leaves.last();
        assert(leaf_ids(leaves) =~= leaf_ids(pre).push(l.id));
        let e0 = leaf_events(set, pre, geo, bbox, loc, out);
        let e1 = leaf_events(set, leaves, geo, bbox, loc, out);
        let p = after_leaves(set, pre, geo, bbox, loc);
        assert forall|x: u64| #[trigger] after_leaves(set, leaves, geo, bbox, loc).contains(x) == (set.contains(x)
            && !leaf_ids(leaves).contains(x)) by {
            assert(leaf_ids(leaves).contains(x) == (leaf_ids(pre).contains(x) || x == l.id)) by {
                if leaf_ids(leaves).contains(x) {
                    let j = choose|j: int| 0 <= j < leaf_ids(leaves).len() && leaf_ids(leaves)[j] == x;
                    if j < pre.len() {
                        assert(leaf_ids(pre)[j] == x);
                    }
                }
                if leaf_ids(pre).contains(x) {
                    let j = choose|j: int| 0 <= j < leaf_ids(pre).len() && leaf_ids(pre)[j] == x;
                    assert(leaf_ids(leaves)[j] == x);
                }
                if x == l.id {
                    assert(leaf_ids(leaves)[pre.len() as int] == x);
                }
            }
        }
        assert forall|i: int| 0 <= i < e1.len() implies (#[trigger] e1[i]) is Leave by {
            if i < e0.len() {
                assert(e1[i] == e0[i]);
            }
        }
        assert forall|x: u64| set.contains(x) && leaf_ids(leaves).contains(x) implies #[trigger] e1.contains(
            SurfaceEvent::Leave { output: out, surface: x }) by {
            let ev = SurfaceEvent::Leave { output: out, surface: x };
            assert(e1 == e0 || e1 == e0.push(SurfaceEvent::Leave { output: out, surface: l.id }));
            if leaf_ids(pre).contains(x) {
                assert(e0.contains(ev));
                let j = choose|j: int| 0 <= j < e0.len() && e0[j] == ev;
                assert(e1[j] == ev);
            } else {
                let j = choose|j: int| 0 <= j < leaf_ids(leaves).len() && leaf_ids(leaves)[j] == x;
                if j < pre.len() {
                    assert(leaf_ids(pre)[j] == x);
                }
                assert(x == l.id);
                assert(p.contains(x));
                assert(e1.last() == ev);
            }
        }
    }
}

/// A window moved where its bounding box misses an output: a refresh takes
/// all its leaf surfaces out of the output's entered set, with a leave
/// notification for each that had entered; an output that showed only this
/// window is left with no entered surface.
pub proof fn lemma_window_moved_off_output(set: Set<u64>, w: Window, space: usize, geo: Rectangle, out: u64)
    requires
        !geo.spec_overlaps(spec_window_rect(&w, space)),
    ensures
        forall|x: u64| #[trigger] after_windows(set, seq![w], space, geo).contains(x) == (set.contains(x)
            && !leaf_ids(w.surfaces@).contains(x)),
        forall|i: int| 0 <= i < window_events(set, seq![w], space, geo, out).len() ==> (#[trigger] window_events(
            set, seq![w], space, geo, out)[i]) is Leave,
        forall|x: u64| set.contains(x) && leaf_ids(w.surfaces@).contains(x) ==> #[trigger] window_events(
            set, seq![w], space, geo, out).contains(SurfaceEvent::Leave { output: out, surface: x }),
        (forall|x: u64| set.contains(x) ==> leaf_ids(w.surfaces@).contains(x)) ==> after_windows(
            set, seq![w], space, geo) == Set::<u64>::empty(),
{
    let ws = seq![w];
    assert(ws.drop_last() =~= Seq::<Window>::empty());
    assert(ws.last() == w);
    assert(after_windows(set, Seq::<Window>::empty(), space, geo) == set);
    assert(window_events(set, Seq::<Window>::empty(), space, geo, out) == Seq::<SurfaceEvent>::empty());
    assert(after_windows(set, ws, space, geo) == after_leaves(set, w.surfaces@, geo, spec_window_rect(&w, space), spec_window_loc(&w, space)));
    lemma_leaves_off_output(set, w.surfaces@, geo, spec_window_rect(&w, space), spec_window_loc(&w, space), out);
    assert(window_events(set, ws, space, geo, out) =~= leaf_events(set, w.surfaces@, geo, spec_window_rect(&w, space), spec_window_loc(&w, space), out));
    if forall|x: u64| set.contains(x) ==> leaf_ids(w.surfaces@).contains(x) {
        assert(after_windows(set, ws, space, geo) =~= Set::<u64>::empty());
    }
}

proof fn lemma_window_frames_contains(ws: Seq<Window>, space: usize, x: u64)
    ensures
        window_frames(ws, space, false).contains(ToplevelId::Xdg(x)) == (exists|i: int|
            0 <= i < ws.len() && (#[trigger] ws[i]).id == x && spec_window_state(space, &ws[i]).drawn),
    decreases ws.len(),
{
    if ws.len() > 0 {
        let pre = ws.drop_last();
        lemma_window_frames_contains(pre, space, x);
        let f0 = window_frames(pre, space, false);
        let f1 = window_frames(ws, space, false);
        let id = ToplevelId::Xdg(x);
        if f1.contains(id) {
            if f0.contains(id) {
                let i = choose|i: int| 0 <= i < pre.len() && (#[trigger] pre[i]).id == x && spec_window_state(space, &pre[i]).drawn;
                assert(ws[i] == pre[i]);
            } else {
                let j = choose|j: int| 0 <= j < f1.len() && f1[j] == id;
                if j < f0.len() {
                    assert(f1[j] == f0[j]);
                }
                assert(ws[ws.len() - 1].id == x);
            }
        }
        if exists|i: int| 0 <= i < ws.len() && (#[trigger] ws[i]).id == x && spec_window_state(space, &ws[i]).drawn {
            let i = choose|i: int| 0 <= i < ws.len() && (#[trigger] ws[i]).id == x && spec_window_state(space, &ws[i]).drawn;
            if i < pre.len() {
                assert(pre[i] == ws[i]);
                let j = choose|j: int| 0 <= j < f0.len() && f0[j] == id;
                assert(f1[j] == id);
            } else {
                assert(f1.last() == id);
            }
        }
    }
}

/// After a successful render from a space where no window was marked drawn,
/// a window is marked drawn exactly when the render painted it; the frame
/// notifications sent next go to those windows and to no other, and leave
/// no window marked drawn.
pub proof fn lemma_frames_follow_render(s0: Space, p: RenderPlan, s1: Space, r: Seq<ToplevelId>, s2: Space)
    requires
        render_finished(s0, p, s1),
        s1.spec_id() == s0.spec_id(),
        forall|i: int| 0 <= i < s0.spec_windows().len() ==> !(#[trigger] spec_window_state(
            s0.spec_id(), &s0.spec_windows()[i])).drawn,
        frames_sent(s1, false, r, s2),
    ensures
        forall|i: int| 0 <= i < s1.spec_windows().len() ==> (#[trigger] spec_window_state(
            s1.spec_id(), &s1.spec_windows()[i])).drawn == paints_id(p.spec_paints(), ToplevelId::Xdg(s1.spec_windows()[i].id)),
        r == window_frames(s1.spec_windows(), s1.spec_id(), false) + layer_frames(s1.spec_outputs(), false),
        forall|x: u64| #[trigger] window_frames(s1.spec_windows(), s1.spec_id(), false).contains(ToplevelId::Xdg(x))
            == exists|i: int| 0 <= i < s1.spec_windows().len() && (#[trigger] s1.spec_windows()[i]).id == x
            && paints_id(p.spec_paints(), ToplevelId::Xdg(x)),
        forall|i: int| 0 <= i < s2.spec_windows().len() ==> !(#[trigger] spec_window_state(
            s2.spec_id(), &s2.spec_windows()[i])).drawn,
{
    let id = s0.spec_id();
    assert forall|i: int| 0 <= i < s1.spec_windows().len() implies (#[trigger] spec_window_state(
        s1.spec_id(), &s1.spec_windows()[i])).drawn == paints_id(p.spec_paints(), ToplevelId::Xdg(s1.spec_windows()[i].id)) by {
        let a = s0.spec_windows()[i];
        assert(!spec_window_state(id, &a).drawn);
    }
    assert forall|x: u64| #[trigger] window_frames(s1.spec_windows(), s1.spec_id(), false).contains(ToplevelId::Xdg(x))
        == exists|i: int| 0 <= i < s1.spec_windows().len() && (#[trigger] s1.spec_windows()[i]).id == x
        && paints_id(p.spec_paints(), ToplevelId::Xdg(x)) by {
        lemma_window_frames_contains(s1.spec_windows(), id, x);
        if exists|i: int| 0 <= i < s1.spec_windows().len() && (#[trigger] s1.spec_windows()[i]).id == x
            && spec_window_state(id, &s1.spec_windows()[i]).drawn {
            let i = choose|i: int| 0 <= i < s1.spec_windows().len() && (#[trigger] s1.spec_windows()[i]).id == x
                && spec_window_state(id, &s1.spec_windows()[i]).drawn;
            assert(spec_window_state(s1.spec_id(), &s1.spec_windows()[i]).drawn);
        }
        if exists|i: int| 0 <= i < s1.spec_windows().len() && (#[trigger] s1.spec_windows()[i]).id == x
            && paints_id(p.spec_paints(), ToplevelId::Xdg(x)) {
            let i = choose|i: int| 0 <= i < s1.spec_windows().len() && (#[trigger] s1.spec_windows()[i]).id == x
                && paints_id(p.spec_paints(), ToplevelId::Xdg(x));
            assert(spec_window_state(s1.spec_id(), &s1.spec_windows()[i]).drawn);
        }
    }
    assert forall|i: int| 0 <= i < s2.spec_windows().len() implies !(#[trigger] spec_window_state(
        s2.spec_id(), &s2.spec_windows()[i])).drawn by {
        let a = s1.spec_windows()[i];
    }
}

pub open spec fn has_target(ts: Seq<(ToplevelId, Rectangle, Point)>, id: ToplevelId) -> bool {
    exists|j: int| 0 <= j < ts.len() && (#[trigger] ts[j]).0 == id
}

proof fn lemma_has_target_concat(a: Seq<(ToplevelId, Rectangle, Point)>, b: Seq<(ToplevelId, Rectangle, Point)>, id: ToplevelId)
    ensures
        has_target(a + b, id) == (has_target(a, id) || has_target(b, id)),
{
    if has_target(a + b, id) {
        let j = choose|j: int| 0 <= j < (a + b).len() && (#[trigger] (a + b)[j]).0 == id;
        if j < a.len() {
            assert((a + b)[j] == a[j]);
        } else {
            assert((a + b)[j] == b[j - a.len()]);
        }
    }
    if has_target(a, id) {
        let j = choose|j: int| 0 <= j < a.len() && (#[trigger] a[j]).0 == id;
        assert((a + b)[j] == a[j]);
    }
    if has_target(b, id) {
        let j = choose|j: int| 0 <= j < b.len() && (#[trigger] b[j]).0 == id;
        assert((a + b)[j + a.len()] == b[j]);
    }
}

proof fn lemma_layer_targets(ls: Seq<Layer>, kind: LayerKind, d: Seq<Rectangle>, id: ToplevelId)
    ensures
        has_target(layer_targets(ls, kind, d), id) == match id {
            ToplevelId::Layer(x) => exists|i: int| 0 <= i < ls.len() && (#[trigger] ls[i]).id == x
                && ls[i].layer == kind && touches(ls[i].geometry, d),
            ToplevelId::Xdg(_) => false,
        },
    decreases ls.len(),
{
    if ls.len() > 0 {
        let pre = ls.drop_last();
        lemma_layer_targets(pre, kind, d, id);
        let l = ls.last();
        let t0 = layer_targets(pre, kind, d);
        let t1 = layer_targets(ls, kind, d);
        let item = (ToplevelId::Layer(l.id), l.geometry, l.geometry.loc);
        if l.layer == kind && touches(l.geometry, d) {
            lemma_has_target_concat(t0, seq![item], id);
            assert(t1 == t0 + seq![item]);
        } else {
            assert(t1 == t0);
        }
        if let ToplevelId::Layer(x) = id {
            if exists|i: int| 0 <= i < ls.len() && (#[trigger] ls[i]).id == x && ls[i].layer == kind && touches(ls[i].geometry, d) {
                let i = choose|i: int| 0 <= i < ls.len() && (#[trigger] ls[i]).id == x && ls[i].layer == kind && touches(ls[i].geometry, d);
                if i < pre.len() {
                    assert(pre[i] == ls[i]);
                } else {
                    assert(seq![item][0].0 == id);
                }
            }
            if exists|i: int| 0 <= i < pre.len() && (#[trigger] pre[i]).id == x && pre[i].layer == kind && touches(pre[i].geometry, d) {
                let i = choose|i: int| 0 <= i < pre.len() && (#[trigger] pre[i]).id == x && pre[i].layer == kind && touches(pre[i].geometry, d);
                assert(ls[i] == pre[i]);
            }
        }
    }
}

proof fn lemma_window_targets(ws: Seq<Window>, space: usize, d: Seq<Rectangle>, id: ToplevelId)
    ensures
        has_target(window_targets(ws, space, d), id) == match id {
            ToplevelId::Xdg(x) => exists|i: int| 0 <= i < ws.len() && (#[trigger] ws[i]).id == x
                && touches(spec_window_rect_with_popups(&ws[i], space), d),
            ToplevelId::Layer(_) => false,
        },
    decreases ws.len(),
{
    if ws.len() > 0 {
        let pre = ws.drop_last();
        lemma_window_targets(pre, space, d, id);
        let w = ws.last();
        let t0 = window_targets(pre, space, d);
        let t1 = window_targets(ws, space, d);
        let item = (ToplevelId::Xdg(w.id), spec_window_rect_with_popups(&w, space), spec_window_loc(&w, space));
        if touches(spec_window_rect_with_popups(&w, space), d) {
            lemma_has_target_concat(t0, seq![item], id);
            assert(t1 == t0 + seq![item]);
        } else {
            assert(t1 == t0);
        }
        if let ToplevelId::Xdg(x) = id {
            if exists|i: int| 0 <= i < ws.len() && (#[trigger] ws[i]).id == x && touches(spec_window_rect_with_popups(&ws[i], space), d) {
                let i = choose|i: int| 0 <= i < ws.len() && (#[trigger] ws[i]).id == x && touches(spec_window_rect_with_popups(&ws[i], space), d);
                if i < pre.len() {
                    assert(pre[i] == ws[i]);
                } else {
                    assert(seq![item][0].0 == id);
                }
            }
            if exists|i: int| 0 <= i < pre.len() && (#[trigger] pre[i]).id == x && touches(spec_window_rect_with_popups(&pre[i], space), d) {
                let i = choose|i: int| 0 <= i < pre.len() && (#[trigger] pre[i]).id == x && touches(spec_window_rect_with_popups(&pre[i], space), d);
                assert(ws[i] == pre[i]);
            }
        }
    }
}

/// A render plan paints a window exactly when its bounding box, popups
/// included, shares an area with the reduced damage, and a layer exactly
/// when its rectangle does.
pub proof fn lemma_painted_iff_damaged(
    ps: Seq<crate::frame::Paint>,
    ws: Seq<Window>,
    ls: Seq<Layer>,
    space: usize,
    d: Seq<Rectangle>,
    out_loc: Point,
    id: ToplevelId,
)
    requires
        paints_match(ps, paint_targets(ws, ls, space, d), d, out_loc),
    ensures
        paints_id(ps, id) == match id {
            ToplevelId::Xdg(x) => exists|i: int| 0 <= i < ws.len() && (#[trigger] ws[i]).id == x
                && touches(spec_window_rect_with_popups(&ws[i], space), d),
            ToplevelId::Layer(x) => exists|i: int| 0 <= i < ls.len() && (#[trigger] ls[i]).id == x
                && touches(ls[i].geometry, d),
        },
{
    let ts = paint_targets(ws, ls, space, d);
    assert(paints_id(ps, id) == has_target(ts, id)) by {
        if paints_id(ps, id) {
            let j = choose|j: int| 0 <= j < ps.len() && (#[trigger] ps[j]).id == id;
            assert(ts[j].0 == ps[j].id);
        }
        if has_target(ts, id) {
            let j = choose|j: int| 0 <= j < ts.len() && (#[trigger] ts[j]).0 == id;
            assert(ps[j].id == ts[j].0);
        }
    }
    let a = layer_targets(ls, LayerKind::Background, d);
    let b = layer_targets(ls, LayerKind::Bottom, d);
    let c = window_targets(ws, space, d);
    let e = layer_targets(ls, LayerKind::Top, d);
    let f = layer_targets(ls, LayerKind::Overlay, d);
    lemma_has_target_concat(a, b, id);
    lemma_has_target_concat(a + b, c, id);
    lemma_has_target_concat(a + b + c, e, id);
    lemma_has_target_concat(a + b + c + e, f, id);
    lemma_layer_targets(ls, LayerKind::Background, d, id);
    lemma_layer_targets(ls, LayerKind::Bottom, d, id);
    lemma_layer_targets(ls, LayerKind::Top, d, id);
    lemma_layer_targets(ls, LayerKind::Overlay, d, id);
    lemma_window_targets(ws, space, d, id);
    if let ToplevelId::Layer(x) = id {
        if exists|i: int| 0 <= i < ls.len() && (#[trigger] ls[i]).id == x && touches(ls[i].geometry, d) {
            let i = choose|i: int| 0 <= i < ls.len() && (#[trigger] ls[i]).id == x && touches(ls[i].geometry, d);
            match ls[i].layer {
                LayerKind::Background => {},
                LayerKind::Bottom => {},
                LayerKind::Top => {},
                LayerKind::Overlay => {},
            }
        }
    }
}

/// A window whose rectangle is the one last painted and that has no new
/// buffer damage adds no rectangle to the frame's new damage, wherever it
/// stands in the stack.
pub proof fn lemma_still_window_adds_no_damage_anywhere(
    below: Seq<Window>,
    w: Window,
    above: Seq<Window>,
    space: usize,
    last: Seq<(ToplevelId, Rectangle)>,
)
    requires
        lookup(last, ToplevelId::Xdg(w.id)) == Some(spec_window_rect_with_popups(&w, space)),
        w.damage@.len() == 0,
    ensures
        windows_damage(below + seq![w] + above, space, last) == windows_damage(below + above, space, last),
    decreases above.len(),
{
    if above.len() == 0 {
        lemma_still_window_adds_no_damage(below, w, space, last);
        assert(below + seq![w] + above =~= below.push(w));
        assert(below + above =~= below);
    } else {
        let pre = above.drop_last();
        lemma_still_window_adds_no_damage_anywhere(below, w, pre, space, last);
        let a = below + seq![w] + above;
        let b = below + above;
        assert(a.drop_last() =~= below + seq![w] + pre);
        assert(b.drop_last() =~= below + pre);
        assert(a.last() == above.last() && b.last() == above.last());
    }
}

proof fn lemma_layers_to_notify_contains(ls: Seq<Layer>, drawn: Seq<u64>, x: u64)
    ensures
        layers_to_notify(ls, drawn, false).contains(ToplevelId::Layer(x)) == (exists|i: int|
            0 <= i < ls.len() && (#[trigger] ls[i]).id == x && drawn.contains(x)),
    decreases ls.len(),
{
    if ls.len() > 0 {
        let pre = ls.drop_last();
        lemma_layers_to_notify_contains(pre, drawn, x);
        let f0 = layers_to_notify(pre, drawn, false);
        let f1 = layers_to_notify(ls, drawn, false);
        let id = ToplevelId::Layer(x);
        if f1.contains(id) {
            if f0.contains(id) {
                let i = choose|i: int| 0 <= i < pre.len() && (#[trigger] pre[i]).id == x && drawn.contains(x);
                assert(ls[i] == pre[i]);
            } else {
                let j = choose|j: int| 0 <= j < f1.len() && f1[j] == id;
                if j < f0.len() {
                    assert(f1[j] == f0[j]);
                }
                assert(ls[ls.len() - 1].id == x);
            }
        }
        if exists|i: int| 0 <= i < ls.len() && (#[trigger] ls[i]).id == x && drawn.contains(x) {
            let i = choose|i: int| 0 <= i < ls.len() && (#[trigger] ls[i]).id == x && drawn.contains(x);
            if i < pre.len() {
                assert(pre[i] == ls[i]);
                let j = choose|j: int| 0 <= j < f0.len() && f0[j] == id;
                assert(f1[j] == id);
            } else {
                assert(f1.last() == id);
            }
        }
    }
}

/// After a successful render of an output none of whose layers was marked
/// drawn, the frame notifications for that output's layers go to the layers
/// the render painted and to no other.
pub proof fn lemma_layer_frames_follow_render(s0: Space, p: RenderPlan, s1: Space, x: u64)
    requires
        render_finished(s0, p, s1),
        s0.mapped_output(p.spec_output()).unwrap().state.layers_drawn@.len() == 0,
    ensures
        ({
            let f = s1.mapped_output(p.spec_output()).unwrap();
            layers_to_notify(f.output.layers@, f.state.layers_drawn@, false).contains(ToplevelId::Layer(x))
                == exists|i: int| 0 <= i < f.output.layers@.len() && (#[trigger] f.output.layers@[i]).id == x
                && paints_id(p.spec_paints(), ToplevelId::Layer(x))
        }),
{
    let f = s1.mapped_output(p.spec_output()).unwrap();
    let m = s0.mapped_output(p.spec_output()).unwrap();
    lemma_layers_to_notify_contains(f.output.layers@, f.state.layers_drawn@, x);
    assert(f.state.layers_drawn@.contains(x) == (m.state.layers_drawn@.contains(x) || paints_id(p.spec_paints(), ToplevelId::Layer(x))));
    assert(!m.state.layers_drawn@.contains(x));
}

proof fn lemma_after_leaves_other(set: Set<u64>, leaves: Seq<SurfaceLeaf>, geo: Rectangle, bbox: Rectangle, loc: Point, x: u64)
    requires
        forall|a: int| 0 <= a < leaves.len() ==> (#[trigger] leaves[a]).id != x,
    ensures
        after_leaves(set, leaves, geo, bbox, loc).contains(x) == set.contains(x),
    decreases leaves.len(),
{
    if leaves.len() > 0 {
        lemma_after_leaves_other(set, leaves.drop_last(), geo, bbox, loc, x);
        assert(leaves.last().id != x);
    }
}

/// A refresh leaves no surface of a window whose bounding box misses the
/// output in that output's entered set, whatever the other windows of the
/// space, since their leaves are other surfaces.
pub proof fn lemma_moved_off_window_leaves_output(set: Set<u64>, ws: Seq<Window>, k: int, space: usize, geo: Rectangle, x: u64)
    requires
        leaves_distinct(ws),
        0 <= k < ws.len(),
        !geo.spec_overlaps(spec_window_rect(&ws[k], space)),
        leaf_ids(ws[k].surfaces@).contains(x),
    ensures
        !after_windows(set, ws, space, geo).contains(x),
    decreases ws.len(),
{
    let n = ws.len() - 1;
    let pre = ws.drop_last();
    let w = ws.last();
    if k == n {
        lemma_leaves_off_output(after_windows(set, pre, space, geo), w.surfaces@, geo, spec_window_rect(&w, space), spec_window_loc(&w, space), 0);
    } else {
        assert(leaves_distinct(pre)) by {
            assert forall|i: int, j: int, a: int, b: int|
                0 <= i < pre.len() && 0 <= j < pre.len() && 0 <= a < pre[i].surfaces@.len() && 0 <= b
                    < pre[j].surfaces@.len() && (i != j || a != b) implies #[trigger] pre[i].surfaces@[a].id
                    != #[trigger] pre[j].surfaces@[b].id by {
                assert(pre[i] == ws[i] && pre[j] == ws[j]);
                assert(ws[i].surfaces@[a].id != ws[j].surfaces@[b].id);
            }
        }
        assert(pre[k] == ws[k]);
        lemma_moved_off_window_leaves_output(set, pre, k, space, geo, x);
        let c = choose|c: int| 0 <= c < leaf_ids(ws[k].surfaces@).len() && leaf_ids(ws[k].surfaces@)[c] == x;
        assert forall|a: int| 0 <= a < w.surfaces@.len() implies (#[trigger] w.surfaces@[a]).id != x by {
            assert(ws[n].surfaces@[a].id != ws[k].surfaces@[c].id);
        }
        lemma_after_leaves_other(after_windows(set, pre, space, geo), w.surfaces@, geo, spec_window_rect(&w, space), spec_window_loc(&w, space), x);
    }
}

} // verus!
