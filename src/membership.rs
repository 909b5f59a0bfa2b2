//! Which leaf surfaces of a window are shown on an output, and the enter and
//! leave notifications that keep an output's record of them current.
use vstd::prelude::*;
use crate::entity::SurfaceLeaf;
use crate::geometry::{Point, Rectangle};

verus! {

/// A notification for the protocol layer to send.
#[derive(Clone, Copy, Debug, PartialEq, Eq, Structural)]
pub enum SurfaceEvent {
    Enter { output: u64, surface: u64 },
    Leave { output: u64, surface: u64 },
}

pub open spec fn as_set(s: Seq<u64>) -> Set<u64> {
    Set::new(|x: u64| s.contains(x))
}

pub open spec fn unique(s: Seq<u64>) -> bool {
    forall|i: int, j: int| 0 <= i < j < s.len() ==> s[i] != s[j]
}

/// The leaf's buffer, placed at `loc` plus its offset, shares an area with `geo`.
pub open spec fn leaf_overlaps(geo: Rectangle, loc: Point, leaf: SurfaceLeaf) -> bool {
    match leaf.size {
        Some(sz) => {
            let l = loc.x + leaf.offset.x;
            let t = loc.y + leaf.offset.y;
            geo.left() < l + sz.w && l < geo.right() && geo.top() < t + sz.h && t < geo.bottom()
        },
        None => false,
    }
}

/// The leaf of a window with bounding box `bbox` at `loc` shows on the output
/// whose rectangle is `geo`.
pub open spec fn leaf_shown(geo: Rectangle, bbox: Rectangle, loc: Point, leaf: SurfaceLeaf) -> bool {
    geo.spec_overlaps(bbox) && leaf_overlaps(geo, loc, leaf)
}

/// The output's set of entered surfaces after walking `leaves`.
pub open spec fn after_leaves(
    set: Set<u64>,
    leaves: Seq<SurfaceLeaf>,
    geo: Rectangle,
    bbox: Rectangle,
    loc: Point,
) -> Set<u64>
    decreases leaves.len(),
{
    if leaves.len() == 0 {
        set
    } else {
        let p = after_leaves(set, leaves.drop_last(), geo, bbox, loc);
        let l = leaves.last();
        if leaf_shown(geo, bbox, loc, l) {
            p.insert(l.id)
        } else {
            p.remove(l.id)
        }
    }
}

/// Notifications sent while walking `leaves`: an enter for a shown leaf that
/// had not entered, a leave for a hidden one that had.
pub open spec fn leaf_events(
    set: Set<u64>,
    leaves: Seq<SurfaceLeaf>,
    geo: Rectangle,
    bbox: Rectangle,
    loc: Point,
    out: u64,
) -> Seq<SurfaceEvent>
    decreases leaves.len(),
{
    if leaves.len() == 0 {
        Seq::empty()
    } else {
        let p = after_leaves(set, leaves.drop_last(), geo, bbox, loc);
        let e = leaf_events(set, leaves.drop_last(), geo, bbox, loc, out);
        let l = leaves.last();
        if leaf_shown(geo, bbox, loc, l) {
            if p.contains(l.id) {
                e
            } else {
                e.push(SurfaceEvent::Enter { output: out, surface: l.id })
            }
        } else {
            if p.contains(l.id) {
                e.push(SurfaceEvent::Leave { output: out, surface: l.id })
            } else {
                e
            }
        }
    }
}

fn position_of(s: &Vec<u64>, id: u64) -> (r: Option<usize>)
    ensures
        r.is_none() ==> !s@.contains(id),
        r.is_some() ==> r.unwrap() < s@.len() && s@[r.unwrap() as int] == id,
{
    let mut i: usize = 0;
    while i < s.len()
        invariant
            i <= s@.len(),
            forall|k: int| 0 <= k < i ==> s@[k] != id,
        decreases s.len() - i,
    {
        if s[i] == id {
            return Some(i);
        }
        i = i + 1;
    }
    None
}

/// Brings the output's record of entered surfaces up to date for the leaves
/// of one window, and appends the notifications that this takes.
pub fn update_leaves(
    surfaces: &mut Vec<u64>,
    events: &mut Vec<SurfaceEvent>,
    leaves: &Vec<SurfaceLeaf>,
    geo: Rectangle,
    bbox: Rectangle,
    loc: Point,
    out: u64,
)
    requires
        unique(old(surfaces)@),
    ensures
        unique(final(surfaces)@),
        as_set(final(surfaces)@) == after_leaves(as_set(old(surfaces)@), leaves@, geo, bbox, loc),
        final(events)@ == old(events)@ + leaf_events(as_set(old(surfaces)@), leaves@, geo, bbox, loc, out),
{
    let ghost set0 = as_set(surfaces@);
    let ghost ev0 = events@;
    let inside = geo.overlaps(&bbox);
    let mut i: usize = 0;
    while i < leaves.len()
        invariant
            i <= leaves@.len(),
            inside == geo.spec_overlaps(bbox),
            unique(surfaces@),
            as_set(surfaces@) == after_leaves(set0, leaves@.take(i as int), geo, bbox, loc),
            events@ == ev0 + leaf_events(set0, leaves@.take(i as int), geo, bbox, loc, out),
        decreases leaves.len() - i,
    {
        let leaf = leaves[i];
        assert(leaves@.take(i + 1).drop_last() =~= leaves@.take(i as int));
        assert(leaves@.take(i + 1).last() == leaf);
        let shown = inside && match leaf.size {
            Some(sz) => {
                let l = loc.x as i64 + leaf.offset.x as i64;
                let t = loc.y as i64 + leaf.offset.y as i64;
                (geo.loc.x as i64) < l + sz.w as i64 && l < (geo.loc.x as i64) + (geo.size.w as i64)
                    && (geo.loc.y as i64) < t + sz.h as i64 && t < (geo.loc.y as i64) + (geo.size.h as i64)
            },
            None => false,
        };
        let ghost before = surfaces@;
        let pos = position_of(surfaces, leaf.id);
        assert(pos.is_some() == as_set(before).contains(leaf.id));
        if shown {
            if pos.is_none() {
                surfaces.push(leaf.id);
                events.push(SurfaceEvent::Enter { output: out, surface: leaf.id });
                proof {
                    assert forall|a: int, b: int| 0 <= a < b < surfaces@.len() implies surfaces@[a] != surfaces@[b] by {
                        if b == before.len() {
                            assert(before.contains(before[a]));
                        }
                    }
                    assert forall|x: u64| as_set(surfaces@).contains(x) == as_set(before).insert(leaf.id).contains(x) by {
                        if before.contains(x) {
                            let q = choose|q: int| 0 <= q < before.len() && before[q] == x;
                            assert(surfaces@[q] == x);
                        }
                        if surfaces@.contains(x) && x != leaf.id {
                            let q = choose|q: int| 0 <= q < surfaces@.len() && surfaces@[q] == x;
                            assert(before[q] == x);
                        }
                        if x == leaf.id {
                            assert(surfaces@[before.len() as int] == x);
                        }
                    }
                    assert(as_set(surfaces@) =~= as_set(before).insert(leaf.id));
                }
            } else {
                assert(as_set(before) =~= as_set(before).insert(leaf.id));
            }
        } else {
            match pos {
                Some(p) => {
                    surfaces.remove(p);
                    events.push(SurfaceEvent::Leave { output: out, surface: leaf.id });
                    proof {
                        assert forall|a: int, b: int| 0 <= a < b < surfaces@.len() implies surfaces@[a] != surfaces@[b] by {
                            let (c, d) = if b < p { (a, b) } else if a < p { (a, b + 1) } else { (a + 1, b + 1) };
                            assert(before[c] != before[d]);
                        }
                        assert forall|x: u64| as_set(surfaces@).contains(x) == as_set(before).remove(leaf.id).contains(x) by {
                            if before.contains(x) && x != leaf.id {
                                let q = choose|q: int| 0 <= q < before.len() && before[q] == x;
                                if q < p {
                                    assert(surfaces@[q] == x);
                                } else {
                                    assert(q != p);
                                    assert(surfaces@[q - 1] == x);
                                }
                            }
                            if surfaces@.contains(x) {
                                let q = choose|q: int| 0 <= q < surfaces@.len() && surfaces@[q] == x;
                                if q < p {
                                    assert(before[q] == x);
                                    assert(before[q] != before[p as int]);
                                } else {
                                    assert(before[q + 1] == x);
                                    assert(before[p as int] != before[q + 1]);
                                }
                            }
                        }
                        assert(as_set(surfaces@) =~= as_set(before).remove(leaf.id));
                    }
                },
                None => {
                    assert(as_set(before) =~= as_set(before).remove(leaf.id));
                },
            }
        }
        i = i + 1;
    }
    assert(leaves@.take(i as int) =~= leaves@);
}

/// Drops the surfaces `dead` from an output's entered set, without notifications.
pub fn drop_surfaces(surfaces: &mut Vec<u64>, dead: &Vec<u64>)
    requires
        unique(old(surfaces)@),
    ensures
        unique(final(surfaces)@),
        as_set(final(surfaces)@) == as_set(old(surfaces)@).difference(as_set(dead@)),
{
    let mut kept: Vec<u64> = Vec::new();
    let mut i: usize = 0;
    while i < surfaces.len()
        invariant
            i <= surfaces@.len(),
            surfaces@ == old(surfaces)@,
            unique(kept@),
            forall|y: u64| #[trigger] kept@.contains(y) == (surfaces@.take(i as int).contains(y) && !dead@.contains(y)),
        decreases surfaces.len() - i,
    {
        let x = surfaces[i];
        let ghost before = kept@;
        let ghost t0 = surfaces@.take(i as int);
        let ghost t1 = surfaces@.take(i + 1);
        assert(t1 =~= t0.push(x));
        let in_dead = position_of(dead, x).is_some();
        let in_kept = position_of(&kept, x).is_some();
        if !in_dead && !in_kept {
            kept.push(x);
            proof {
                assert forall|a: int, b: int| 0 <= a < b < kept@.len() implies kept@[a] != kept@[b] by {
                    if b == before.len() {
                        assert(before.contains(before[a]));
                    }
                }
            }
        }
        proof {
            assert forall|y: u64| #[trigger] kept@.contains(y) == (t1.contains(y) && !dead@.contains(y)) by {
                if t1.contains(y) && y != x {
                    let q = choose|q: int| 0 <= q < t1.len() && #[trigger] t1[q] == y;
                    assert(t0[q] == y);
                }
                if t0.contains(y) {
                    let q = choose|q: int| 0 <= q < t0.len() && #[trigger] t0[q] == y;
                    assert(t1[q] == y);
                }
                assert(t1[i as int] == x);
                if before.contains(y) {
                    let q = choose|q: int| 0 <= q < before.len() && before[q] == y;
                    assert(kept@[q] == y);
                }
                if !in_dead && !in_kept {
                    assert(kept@[before.len() as int] == x);
                    if kept@.contains(y) && y != x {
                        let q = choose|q: int| 0 <= q < kept@.len() && kept@[q] == y;
                        assert(before[q] == y);
                    }
                }
            }
        }
        i = i + 1;
    }
    assert(surfaces@.take(i as int) =~= surfaces@);
    assert(as_set(kept@) =~= as_set(surfaces@).difference(as_set(dead@)));
    *surfaces = kept;
}

} // verus!
