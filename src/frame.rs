//! The damage of one frame on one output: what disappeared, moved or
//! changed since the last render, and the history kept for buffer age.
use vstd::prelude::*;
use crate::damage::all_bounded;
use crate::entity::{
    placement_ok, spec_window_loc, spec_window_rect_with_popups, window_loc,
    window_rect_with_popups, Layer, LayerKind, ToplevelId, Window,
};
use crate::painted::{painted_entries, painted_entry, painted_get, painted_len};
use indexmap::IndexMap;
use crate::geometry::{in_limit, max_int, min_int, Point, Rectangle, Size};

verus! {

pub open spec fn has_window(ws: Seq<Window>, id: u64) -> bool {
    exists|i: int| 0 <= i < ws.len() && (#[trigger] ws[i]).id == id
}

pub open spec fn has_layer(ls: Seq<Layer>, id: u64) -> bool {
    exists|i: int| 0 <= i < ls.len() && (#[trigger] ls[i]).id == id
}

/// The toplevel is among the current windows or layers.
pub open spec fn is_current(id: ToplevelId, ws: Seq<Window>, ls: Seq<Layer>) -> bool {
    match id {
        ToplevelId::Xdg(i) => has_window(ws, i),
        ToplevelId::Layer(i) => has_layer(ls, i),
    }
}

/// Last painted rectangles of toplevels that are gone, in the order recorded.
pub open spec fn gone_damage(
    last: Seq<(ToplevelId, Rectangle)>,
    ws: Seq<Window>,
    ls: Seq<Layer>,
) -> Seq<Rectangle>
    decreases last.len(),
{
    if last.len() == 0 {
        Seq::empty()
    } else {
        let r = gone_damage(last.drop_last(), ws, ls);
        if is_current(last.last().0, ws, ls) {
            r
        } else {
            r.push(last.last().1)
        }
    }
}

/// The first rectangle recorded for `id`.
pub open spec fn lookup(last: Seq<(ToplevelId, Rectangle)>, id: ToplevelId) -> Option<Rectangle>
    decreases last.len(),
{
    if last.len() == 0 {
        None
    } else if last[0].0 == id {
        Some(last[0].1)
    } else {
        lookup(last.skip(1), id)
    }
}

/// Damage of one toplevel: on a move or resize both its old and new
/// rectangle, when first seen its rectangle, and else its own buffer damage.
pub open spec fn entity_damage(cur: Rectangle, old: Option<Rectangle>, own: Seq<Rectangle>) -> Seq<
    Rectangle,
> {
    match old {
        Some(o) => if o == cur {
            own
        } else {
            seq![o, cur]
        },
        None => seq![cur],
    }
}

pub open spec fn translated_all(ds: Seq<Rectangle>, p: Point) -> Seq<Rectangle> {
    ds.map_values(|r: Rectangle| r.spec_translated(p))
}

pub open spec fn windows_damage(
    ws: Seq<Window>,
    space: usize,
    last: Seq<(ToplevelId, Rectangle)>,
) -> Seq<Rectangle>
    decreases ws.len(),
{
    if ws.len() == 0 {
        Seq::empty()
    } else {
        let w = ws.last();
        windows_damage(ws.drop_last(), space, last) + entity_damage(
            spec_window_rect_with_popups(&w, space),
            lookup(last, ToplevelId::Xdg(w.id)),
            translated_all(w.damage@, spec_window_loc(&w, space)),
        )
    }
}

pub open spec fn layers_damage(ls: Seq<Layer>, last: Seq<(ToplevelId, Rectangle)>) -> Seq<
    Rectangle,
>
    decreases ls.len(),
{
    if ls.len() == 0 {
        Seq::empty()
    } else {
        let l = ls.last();
        layers_damage(ls.drop_last(), last) + entity_damage(
            l.geometry,
            lookup(last, ToplevelId::Layer(l.id)),
            translated_all(l.damage@, l.geometry.loc),
        )
    }
}

/// The new damage of a frame: toplevels gone, then windows, then layers.
pub open spec fn new_damage(
    ws: Seq<Window>,
    ls: Seq<Layer>,
    space: usize,
    last: Seq<(ToplevelId, Rectangle)>,
) -> Seq<Rectangle> {
    gone_damage(last, ws, ls) + windows_damage(ws, space, last) + layers_damage(ls, last)
}

pub open spec fn flatten(hist: Seq<Seq<Rectangle>>) -> Seq<Rectangle>
    decreases hist.len(),
{
    if hist.len() == 0 {
        Seq::empty()
    } else {
        flatten(hist.drop_last()) + hist.last()
    }
}

pub open spec fn views(hist: Seq<Vec<Rectangle>>) -> Seq<Seq<Rectangle>> {
    hist.map_values(|v: Vec<Rectangle>| v@)
}

/// The buffer is `age` frames old and the history reaches back that far.
pub open spec fn history_usable(age: usize, hist_len: int) -> bool {
    age > 0 && hist_len >= age
}

/// Damage to repaint on a buffer `age` frames old: the new damage and that of
/// the `age` frames before it, or the whole output when that is not known.
pub open spec fn composed_damage(
    new: Seq<Rectangle>,
    hist: Seq<Seq<Rectangle>>,
    age: usize,
    out: Rectangle,
) -> Seq<Rectangle> {
    if history_usable(age, hist.len() as int) {
        new + flatten(hist.take(age as int))
    } else {
        seq![out]
    }
}

pub open spec fn windows_placed(ws: Seq<Window>, space: usize) -> bool {
    forall|i: int|
        0 <= i < ws.len() ==> (#[trigger] ws[i]).wf() && ws[i].states().dom().contains(space) && placement_ok(
            &ws[i],
            spec_window_loc(&ws[i], space),
        )
}

pub open spec fn layers_placed(ls: Seq<Layer>) -> bool {
    &&& forall|i: int| 0 <= i < ls.len() ==> (#[trigger] ls[i]).geometry.bounded()
    &&& forall|i: int, j: int|
        0 <= i < ls.len() && 0 <= j < ls[i].damage@.len() ==> (#[trigger] ls[i].damage@[j]).can_translate(
            ls[i].geometry.loc,
        ) && ls[i].damage@[j].spec_translated(ls[i].geometry.loc).bounded()
}

proof fn lemma_lookup_in(last: Seq<(ToplevelId, Rectangle)>, id: ToplevelId)
    ensures
        lookup(last, id).is_some() ==> exists|k: int| 0 <= k < last.len() && (#[trigger] last[k]).1 == lookup(last, id).unwrap(),
    decreases last.len(),
{
    if last.len() > 0 && last[0].0 != id {
        lemma_lookup_in(last.skip(1), id);
        if lookup(last, id).is_some() {
            let k = choose|k: int| 0 <= k < last.skip(1).len() && (#[trigger] last.skip(1)[k]).1 == lookup(last, id).unwrap();
            assert(last[k + 1] == last.skip(1)[k]);
        }
    }
}

fn window_present(ws: &Vec<Window>, id: u64) -> (r: bool)
    ensures
        r == has_window(ws@, id),
{
    let mut i: usize = 0;
    while i < ws.len()
        invariant
            i <= ws@.len(),
            forall|k: int| 0 <= k < i ==> (#[trigger] ws@[k]).id != id,
        decreases ws.len() - i,
    {
        if ws[i].id == id {
            return true;
        }
        i = i + 1;
    }
    false
}

fn layer_present(ls: &Vec<Layer>, id: u64) -> (r: bool)
    ensures
        r == has_layer(ls@, id),
{
    let mut i: usize = 0;
    while i < ls.len()
        invariant
            i <= ls@.len(),
            forall|k: int| 0 <= k < i ==> (#[trigger] ls@[k]).id != id,
        decreases ls.len() - i,
    {
        if ls[i].id == id {
            return true;
        }
        i = i + 1;
    }
    false
}

/// Appends the rectangles of `own`, shifted by `at`.
fn push_translated(out: &mut Vec<Rectangle>, own: &Vec<Rectangle>, at: Point)
    requires
        forall|j: int| 0 <= j < own@.len() ==> (#[trigger] own@[j]).can_translate(at)
            && own@[j].spec_translated(at).bounded(),
        all_bounded(old(out)@),
    ensures
        final(out)@ == old(out)@ + translated_all(own@, at),
        all_bounded(final(out)@),
{
    let ghost start = out@;
    let mut j: usize = 0;
    while j < own.len()
        invariant
            j <= own@.len(),
            forall|k: int| 0 <= k < own@.len() ==> (#[trigger] own@[k]).can_translate(at)
                && own@[k].spec_translated(at).bounded(),
            all_bounded(out@),
            out@ == start + translated_all(own@.take(j as int), at),
        decreases own.len() - j,
    {
        out.push(own[j].translated(at));
        assert(own@.take(j + 1) =~= own@.take(j as int).push(own@[j as int]));
        assert(translated_all(own@.take(j + 1), at) =~= translated_all(own@.take(j as int), at).push(
            own@[j as int].spec_translated(at)));
        j = j + 1;
    }
    assert(own@.take(j as int) =~= own@);
}

/// Appends the damage of one toplevel whose current rectangle is `cur`.
fn push_entity_damage(
    out: &mut Vec<Rectangle>,
    cur: Rectangle,
    old_rect: Option<Rectangle>,
    own: &Vec<Rectangle>,
    at: Point,
)
    requires
        forall|j: int| 0 <= j < own@.len() ==> (#[trigger] own@[j]).can_translate(at)
            && own@[j].spec_translated(at).bounded(),
        cur.bounded(),
        old_rect.is_some() ==> old_rect.unwrap().bounded(),
        all_bounded(old(out)@),
    ensures
        final(out)@ == old(out)@ + entity_damage(cur, old_rect, translated_all(own@, at)),
        all_bounded(final(out)@),
{
    match old_rect {
        Some(o) => {
            if o == cur {
                push_translated(out, own, at);
            } else {
                out.push(o);
                out.push(cur);
                assert(out@ =~= old(out)@ + seq![o, cur]);
            }
        },
        None => {
            out.push(cur);
            assert(out@ =~= old(out)@ + seq![cur]);
        },
    }
}

/// Computes the new damage of a frame on an output whose layers are `ls`, for
/// the windows `ws` of the space `space`, against the rectangles `last`
/// recorded at the previous render.
pub fn compute_new_damage(
    ws: &Vec<Window>,
    ls: &Vec<Layer>,
    space: usize,
    last_map: &IndexMap<ToplevelId, Rectangle>,
) -> (r: Vec<Rectangle>)
    requires
        windows_placed(ws@, space),
        layers_placed(ls@),
        forall|i: int| 0 <= i < painted_entries(*last_map).len() ==> (#[trigger] painted_entries(*last_map)[i]).1.bounded(),
    ensures
        r@ == new_damage(ws@, ls@, space, painted_entries(*last_map)),
        all_bounded(r@),
{
    let ghost last = painted_entries(*last_map);
    let mut out: Vec<Rectangle> = Vec::new();
    let n = painted_len(last_map);
    let mut i: usize = 0;
    while i < n
        invariant
            n == last.len(),
            last == painted_entries(*last_map),
            i <= last.len(),
            out@ == gone_damage(last.take(i as int), ws@, ls@),
            forall|k: int| 0 <= k < last.len() ==> (#[trigger] last[k]).1.bounded(),
            all_bounded(out@),
        decreases n - i,
    {
        let (id, rect) = match painted_entry(last_map, i) {
            Some(e) => e,
            None => {
                proof {
                    assert(false);
                }
                (ToplevelId::Xdg(0), Rectangle { loc: Point { x: 0, y: 0 }, size: Size { w: 0, h: 0 } })
            },
        };
        let current = match id {
            ToplevelId::Xdg(w) => window_present(ws, w),
            ToplevelId::Layer(l) => layer_present(ls, l),
        };
        assert(last.take(i + 1).drop_last() =~= last.take(i as int));
        if !current {
            out.push(rect);
        }
        i = i + 1;
    }
    assert(last.take(i as int) =~= last);
    let ghost gone = out@;
    let mut i: usize = 0;
    while i < ws.len()
        invariant
            i <= ws@.len(),
            windows_placed(ws@, space),
            last == painted_entries(*last_map),
            forall|k: int| 0 <= k < last.len() ==> (#[trigger] last[k]).1.bounded(),
            all_bounded(out@),
            out@ == gone + windows_damage(ws@.take(i as int), space, last),
        decreases ws.len() - i,
    {
        let w = &ws[i];
        let cur = window_rect_with_popups(w, space);
        let old_rect = painted_get(last_map, ToplevelId::Xdg(w.id));
        proof {
            lemma_lookup_in(last, ToplevelId::Xdg(w.id));
        }
        let at = window_loc(w, space);
        push_entity_damage(&mut out, cur, old_rect, &w.damage, at);
        assert(ws@.take(i + 1).drop_last() =~= ws@.take(i as int));
        assert(out@ =~= gone + windows_damage(ws@.take(i + 1), space, last));
        i = i + 1;
    }
    assert(ws@.take(i as int) =~= ws@);
    let ghost wins = out@;
    let mut i: usize = 0;
    while i < ls.len()
        invariant
            i <= ls@.len(),
            layers_placed(ls@),
            last == painted_entries(*last_map),
            forall|k: int| 0 <= k < last.len() ==> (#[trigger] last[k]).1.bounded(),
            all_bounded(out@),
            out@ == wins + layers_damage(ls@.take(i as int), last),
        decreases ls.len() - i,
    {
        let l = &ls[i];
        let old_rect = painted_get(last_map, ToplevelId::Layer(l.id));
        proof {
            lemma_lookup_in(last, ToplevelId::Layer(l.id));
        }
        push_entity_damage(&mut out, l.geometry, old_rect, &l.damage, l.geometry.loc);
        assert(ls@.take(i + 1).drop_last() =~= ls@.take(i as int));
        assert(out@ =~= wins + layers_damage(ls@.take(i + 1), last));
        i = i + 1;
    }
    assert(ls@.take(i as int) =~= ls@);
    assert(out@ =~= new_damage(ws@, ls@, space, last));
    out
}

/// Gathers the damage to repaint on a buffer `age` frames old from this
/// frame's new damage and the history; the history is cut to `age` frames
/// when it is used.
pub fn compose_damage(
    new: &Vec<Rectangle>,
    hist: &mut Vec<Vec<Rectangle>>,
    age: usize,
    out: Rectangle,
) -> (r: Vec<Rectangle>)
    requires
        all_bounded(new@),
        forall|i: int| 0 <= i < old(hist)@.len() ==> all_bounded(#[trigger] old(hist)@[i]@),
        out.bounded(),
    ensures
        r@ == composed_damage(new@, views(old(hist)@), age, out),
        all_bounded(r@),
        history_usable(age, old(hist)@.len() as int) ==> final(hist)@ == old(hist)@.take(age as int),
        !history_usable(age, old(hist)@.len() as int) ==> final(hist)@ == old(hist)@,
{
    if age > 0 && hist.len() >= age {
        hist.truncate(age);
        let mut r: Vec<Rectangle> = Vec::new();
        let mut i: usize = 0;
        while i < new.len()
            invariant
                i <= new@.len(),
                all_bounded(new@),
                r@ == new@.take(i as int),
                all_bounded(r@),
            decreases new.len() - i,
        {
            r.push(new[i]);
            assert(new@.take(i + 1) =~= new@.take(i as int).push(new@[i as int]));
            i = i + 1;
        }
        assert(new@.take(i as int) =~= new@);
        let mut h: usize = 0;
        while h < hist.len()
            invariant
                h <= hist@.len(),
                hist@ == old(hist)@.take(age as int),
                forall|i: int| 0 <= i < hist@.len() ==> all_bounded(#[trigger] hist@[i]@),
                r@ == new@ + flatten(views(hist@).take(h as int)),
                all_bounded(r@),
            decreases hist.len() - h,
        {
            let ghost before = r@;
            let mut j: usize = 0;
            while j < hist[h].len()
                invariant
                    h < hist@.len(),
                    j <= hist@[h as int]@.len(),
                    all_bounded(hist@[h as int]@),
                    r@ == before + hist@[h as int]@.take(j as int),
                    all_bounded(r@),
                decreases hist@[h as int]@.len() - j,
            {
                r.push(hist[h][j]);
                assert(hist@[h as int]@.take(j + 1) =~= hist@[h as int]@.take(j as int).push(hist@[h as int]@[j as int]));
                j = j + 1;
            }
            assert(hist@[h as int]@.take(j as int) =~= hist@[h as int]@);
            assert(views(hist@).take(h + 1).drop_last() =~= views(hist@).take(h as int));
            assert(r@ =~= new@ + flatten(views(hist@).take(h + 1)));
            h = h + 1;
        }
        assert(views(hist@).take(h as int) =~= views(old(hist)@).take(age as int));
        r
    } else {
        let r = vec![out];
        assert(r@ =~= seq![out]);
        r
    }
}

/// `r` shares an area with some rectangle of `d`.
pub open spec fn touches(r: Rectangle, d: Seq<Rectangle>) -> bool {
    exists|i: int| 0 <= i < d.len() && r.spec_overlaps(#[trigger] d[i])
}

pub open spec fn spec_intersection(a: Rectangle, b: Rectangle) -> Rectangle {
    let l = max_int(a.left(), b.left());
    let t = max_int(a.top(), b.top());
    Rectangle {
        loc: Point { x: l as i32, y: t as i32 },
        size: Size {
            w: (min_int(a.right(), b.right()) - l) as i32,
            h: (min_int(a.bottom(), b.bottom()) - t) as i32,
        },
    }
}

pub open spec fn neg(p: Point) -> Point {
    Point { x: -p.x as i32, y: -p.y as i32 }
}

/// The parts of `d` inside `r`, relative to `origin`.
pub open spec fn local_damage(r: Rectangle, d: Seq<Rectangle>, origin: Point) -> Seq<Rectangle>
    decreases d.len(),
{
    if d.len() == 0 {
        Seq::empty()
    } else {
        local_damage(r, d.drop_last(), origin) + if d.last().spec_overlaps(r) {
            seq![spec_intersection(d.last(), r).spec_translated(neg(origin))]
        } else {
            Seq::empty()
        }
    }
}

/// What must be painted of one toplevel: its id, its rectangle in the space,
/// and the point its own coordinates start from.
pub open spec fn layer_targets(ls: Seq<Layer>, kind: LayerKind, d: Seq<Rectangle>) -> Seq<
    (ToplevelId, Rectangle, Point),
>
    decreases ls.len(),
{
    if ls.len() == 0 {
        Seq::empty()
    } else {
        let l = ls.last();
        let r = layer_targets(ls.drop_last(), kind, d);
        if l.layer == kind && touches(l.geometry, d) {
            r.push((ToplevelId::Layer(l.id), l.geometry, l.geometry.loc))
        } else {
            r
        }
    }
}

pub open spec fn window_targets(ws: Seq<Window>, space: usize, d: Seq<Rectangle>) -> Seq<
    (ToplevelId, Rectangle, Point),
>
    decreases ws.len(),
{
    if ws.len() == 0 {
        Seq::empty()
    } else {
        let w = ws.last();
        let r = window_targets(ws.drop_last(), space, d);
        if touches(spec_window_rect_with_popups(&w, space), d) {
            r.push(
                (
                    ToplevelId::Xdg(w.id),
                    spec_window_rect_with_popups(&w, space),
                    spec_window_loc(&w, space),
                ),
            )
        } else {
            r
        }
    }
}

/// Paint order: background and bottom layers, windows back to front, then
/// top and overlay layers; only what touches the damage.
pub open spec fn paint_targets(
    ws: Seq<Window>,
    ls: Seq<Layer>,
    space: usize,
    d: Seq<Rectangle>,
) -> Seq<(ToplevelId, Rectangle, Point)> {
    layer_targets(ls, LayerKind::Background, d) + layer_targets(ls, LayerKind::Bottom, d)
        + window_targets(ws, space, d) + layer_targets(ls, LayerKind::Top, d) + layer_targets(
        ls,
        LayerKind::Overlay,
        d,
    )
}

/// One toplevel to paint: `location` is where it goes, relative to the
/// output for a window and as its layer map placed it for a layer; `damage`
/// is the part of the frame's damage inside it, relative to `origin`.
pub struct Paint {
    pub id: ToplevelId,
    pub rect: Rectangle,
    pub origin: Point,
    pub location: Point,
    pub damage: Vec<Rectangle>,
}

pub open spec fn paint_matches(p: Paint, t: (ToplevelId, Rectangle, Point), d: Seq<Rectangle>, out_loc: Point) -> bool {
    &&& p.id == t.0 && p.rect == t.1 && p.origin == t.2
    &&& p.damage@ == local_damage(t.1, d, t.2)
    &&& p.location == match t.0 {
        ToplevelId::Xdg(_) => Point { x: (t.2.x - out_loc.x) as i32, y: (t.2.y - out_loc.y) as i32 },
        ToplevelId::Layer(_) => t.2,
    }
}

pub open spec fn paints_match(ps: Seq<Paint>, ts: Seq<(ToplevelId, Rectangle, Point)>, d: Seq<Rectangle>, out_loc: Point) -> bool {
    ps.len() == ts.len() && forall|i: int| 0 <= i < ps.len() ==> paint_matches(#[trigger] ps[i], ts[i], d, out_loc)
}

fn touches_any(r: &Rectangle, d: &Vec<Rectangle>) -> (b: bool)
    ensures
        b == touches(*r, d@),
{
    let mut i: usize = 0;
    while i < d.len()
        invariant
            i <= d@.len(),
            forall|k: int| 0 <= k < i ==> !r.spec_overlaps(#[trigger] d@[k]),
        decreases d.len() - i,
    {
        if r.overlaps(&d[i]) {
            return true;
        }
        i = i + 1;
    }
    false
}

/// The parts of the damage `d` inside `r`, relative to `origin`.
pub fn local_damage_of(r: &Rectangle, d: &Vec<Rectangle>, origin: Point) -> (out: Vec<Rectangle>)
    requires
        r.bounded(),
        all_bounded(d@),
        in_limit(origin.x as int) && in_limit(origin.y as int),
    ensures
        out@ == local_damage(*r, d@, origin),
{
    let mut out: Vec<Rectangle> = Vec::new();
    let back = Point { x: -origin.x, y: -origin.y };
    let mut i: usize = 0;
    while i < d.len()
        invariant
            i <= d@.len(),
            r.bounded(),
            all_bounded(d@),
            in_limit(origin.x as int) && in_limit(origin.y as int),
            back == neg(origin),
            out@ == local_damage(*r, d@.take(i as int), origin),
        decreases d.len() - i,
    {
        let di = d[i];
        assert(d@.take(i + 1).drop_last() =~= d@.take(i as int));
        assert(d@.take(i + 1).last() == di);
        match di.intersection(r) {
            Some(x) => {
                assert(x == spec_intersection(di, *r));
                out.push(x.translated(back));
                assert(out@ =~= local_damage(*r, d@.take(i + 1), origin));
            },
            None => {
                assert(out@ =~= local_damage(*r, d@.take(i + 1), origin));
            },
        }
        i = i + 1;
    }
    assert(d@.take(i as int) =~= d@);
    out
}

/// Appends a paint for each layer of kind `kind` that touches the damage.
fn push_layer_paints(
    out: &mut Vec<Paint>,
    ls: &Vec<Layer>,
    kind: LayerKind,
    d: &Vec<Rectangle>,
    Ghost(ts): Ghost<Seq<(ToplevelId, Rectangle, Point)>>,
    out_loc: Point,
)
    requires
        layers_placed(ls@),
        all_bounded(d@),
        paints_match(old(out)@, ts, d@, out_loc),
    ensures
        paints_match(final(out)@, ts + layer_targets(ls@, kind, d@), d@, out_loc),
{
    let mut i: usize = 0;
    while i < ls.len()
        invariant
            i <= ls@.len(),
            layers_placed(ls@),
            all_bounded(d@),
            paints_match(out@, ts + layer_targets(ls@.take(i as int), kind, d@), d@, out_loc),
        decreases ls.len() - i,
    {
        let l = &ls[i];
        assert(ls@.take(i + 1).drop_last() =~= ls@.take(i as int));
        assert(ls@.take(i + 1).last() == ls@[i as int]);
        if l.layer == kind && touches_any(&l.geometry, d) {
            let damage = local_damage_of(&l.geometry, d, l.geometry.loc);
            let ghost before = out@;
            out.push(Paint { id: ToplevelId::Layer(l.id), rect: l.geometry, origin: l.geometry.loc, location: l.geometry.loc, damage });
            proof {
                let nts = ts + layer_targets(ls@.take(i + 1), kind, d@);
                assert(nts =~= (ts + layer_targets(ls@.take(i as int), kind, d@)).push((ToplevelId::Layer(l.id), l.geometry, l.geometry.loc)));
                assert forall|k: int| 0 <= k < out@.len() implies paint_matches(#[trigger] out@[k], nts[k], d@, out_loc) by {
                    if k < before.len() {
                        assert(out@[k] == before[k]);
                    }
                }
            }
        } else {
            assert((ts + layer_targets(ls@.take(i + 1), kind, d@)) =~= ts + layer_targets(ls@.take(i as int), kind, d@));
        }
        i = i + 1;
    }
    assert(ls@.take(i as int) =~= ls@);
}

/// Appends a paint for each window that touches the damage, back to front.
fn push_window_paints(
    out: &mut Vec<Paint>,
    ws: &Vec<Window>,
    space: usize,
    d: &Vec<Rectangle>,
    Ghost(ts): Ghost<Seq<(ToplevelId, Rectangle, Point)>>,
    out_loc: Point,
)
    requires
        windows_placed(ws@, space),
        all_bounded(d@),
        in_limit(out_loc.x as int) && in_limit(out_loc.y as int),
        paints_match(old(out)@, ts, d@, out_loc),
    ensures
        paints_match(final(out)@, ts + window_targets(ws@, space, d@), d@, out_loc),
{
    let mut i: usize = 0;
    while i < ws.len()
        invariant
            i <= ws@.len(),
            windows_placed(ws@, space),
            all_bounded(d@),
            in_limit(out_loc.x as int) && in_limit(out_loc.y as int),
            paints_match(out@, ts + window_targets(ws@.take(i as int), space, d@), d@, out_loc),
        decreases ws.len() - i,
    {
        let w = &ws[i];
        assert(ws@.take(i + 1).drop_last() =~= ws@.take(i as int));
        assert(ws@.take(i + 1).last() == ws@[i as int]);
        let rect = window_rect_with_popups(w, space);
        if touches_any(&rect, d) {
            let loc = window_loc(w, space);
            let damage = local_damage_of(&rect, d, loc);
            let location = Point { x: loc.x - out_loc.x, y: loc.y - out_loc.y };
            let ghost before = out@;
            out.push(Paint { id: ToplevelId::Xdg(w.id), rect, origin: loc, location, damage });
            proof {
                let nts = ts + window_targets(ws@.take(i + 1), space, d@);
                assert(nts =~= (ts + window_targets(ws@.take(i as int), space, d@)).push(
                    (ToplevelId::Xdg(w.id), rect, loc)));
                assert forall|k: int| 0 <= k < out@.len() implies paint_matches(#[trigger] out@[k], nts[k], d@, out_loc) by {
                    if k < before.len() {
                        assert(out@[k] == before[k]);
                    }
                }
            }
        } else {
            assert((ts + window_targets(ws@.take(i + 1), space, d@)) =~= ts + window_targets(ws@.take(i as int), space, d@));
        }
        i = i + 1;
    }
    assert(ws@.take(i as int) =~= ws@);
}

/// The toplevels to paint for the damage `d`, in paint order, each with the
/// damage inside it.
pub fn plan_paints(
    ws: &Vec<Window>,
    ls: &Vec<Layer>,
    space: usize,
    d: &Vec<Rectangle>,
    out_loc: Point,
) -> (r: Vec<Paint>)
    requires
        windows_placed(ws@, space),
        layers_placed(ls@),
        all_bounded(d@),
        in_limit(out_loc.x as int) && in_limit(out_loc.y as int),
    ensures
        paints_match(r@, paint_targets(ws@, ls@, space, d@), d@, out_loc),
{
    let mut r: Vec<Paint> = Vec::new();
    let ghost t0 = Seq::<(ToplevelId, Rectangle, Point)>::empty();
    push_layer_paints(&mut r, ls, LayerKind::Background, d, Ghost(t0), out_loc);
    let ghost t1 = t0 + layer_targets(ls@, LayerKind::Background, d@);
    push_layer_paints(&mut r, ls, LayerKind::Bottom, d, Ghost(t1), out_loc);
    let ghost t2 = t1 + layer_targets(ls@, LayerKind::Bottom, d@);
    push_window_paints(&mut r, ws, space, d, Ghost(t2), out_loc);
    let ghost t3 = t2 + window_targets(ws@, space, d@);
    push_layer_paints(&mut r, ls, LayerKind::Top, d, Ghost(t3), out_loc);
    let ghost t4 = t3 + layer_targets(ls@, LayerKind::Top, d@);
    push_layer_paints(&mut r, ls, LayerKind::Overlay, d, Ghost(t4), out_loc);
    assert(t4 + layer_targets(ls@, LayerKind::Overlay, d@) =~= paint_targets(ws@, ls@, space, d@));
    r
}

/// What a successful render records of each toplevel: windows, then layers.
pub open spec fn snapshot(ws: Seq<Window>, ls: Seq<Layer>, space: usize) -> Seq<(ToplevelId, Rectangle)> {
    ws.map_values(|w: Window| (ToplevelId::Xdg(w.id), spec_window_rect_with_popups(&w, space)))
        + ls.map_values(|l: Layer| (ToplevelId::Layer(l.id), l.geometry))
}

pub fn take_snapshot(ws: &Vec<Window>, ls: &Vec<Layer>, space: usize) -> (r: Vec<(ToplevelId, Rectangle)>)
    requires
        windows_placed(ws@, space),
        layers_placed(ls@),
    ensures
        r@ == snapshot(ws@, ls@, space),
        forall|i: int| 0 <= i < r@.len() ==> (#[trigger] r@[i]).1.bounded(),
{
    let mut r: Vec<(ToplevelId, Rectangle)> = Vec::new();
    let mut i: usize = 0;
    while i < ws.len()
        invariant
            i <= ws@.len(),
            windows_placed(ws@, space),
            r@ == ws@.take(i as int).map_values(|w: Window| (ToplevelId::Xdg(w.id), spec_window_rect_with_popups(&w, space))),
            forall|k: int| 0 <= k < r@.len() ==> (#[trigger] r@[k]).1.bounded(),
        decreases ws.len() - i,
    {
        r.push((ToplevelId::Xdg(ws[i].id), window_rect_with_popups(&ws[i], space)));
        assert(ws@.take(i + 1) =~= ws@.take(i as int).push(ws@[i as int]));
        assert(r@ =~= ws@.take(i + 1).map_values(|w: Window| (ToplevelId::Xdg(w.id), spec_window_rect_with_popups(&w, space))));
        i = i + 1;
    }
    assert(ws@.take(i as int) =~= ws@);
    let ghost wins = r@;
    let mut i: usize = 0;
    while i < ls.len()
        invariant
            i <= ls@.len(),
            layers_placed(ls@),
            r@ == wins + ls@.take(i as int).map_values(|l: Layer| (ToplevelId::Layer(l.id), l.geometry)),
            forall|k: int| 0 <= k < r@.len() ==> (#[trigger] r@[k]).1.bounded(),
        decreases ls.len() - i,
    {
        r.push((ToplevelId::Layer(ls[i].id), ls[i].geometry));
        assert(ls@.take(i + 1) =~= ls@.take(i as int).push(ls@[i as int]));
        assert(r@ =~= wins + ls@.take(i + 1).map_values(|l: Layer| (ToplevelId::Layer(l.id), l.geometry)));
        i = i + 1;
    }
    assert(ls@.take(i as int) =~= ls@);
    r
}

} // verus!
