//! Reduction of a frame's damage to a small set of disjoint rectangles.
use vstd::prelude::*;
use crate::geometry::Rectangle;

verus! {

/// A damage rectangle that is worth repainting on the output `out`.
pub open spec fn visible(r: Rectangle, out: Rectangle) -> bool {
    r.has_area() && r.spec_overlaps(out)
}

pub open spec fn all_bounded(s: Seq<Rectangle>) -> bool {
    forall|i: int| 0 <= i < s.len() ==> (#[trigger] s[i]).bounded()
}

/// Some rectangle of `w` encloses `r`.
pub open spec fn covers(w: Seq<Rectangle>, r: Rectangle) -> bool {
    exists|t: int| 0 <= t < w.len() && (#[trigger] w[t]).spec_contains_rect(r)
}

/// `src[k]` is a visible input enclosed by `x`.
pub open spec fn source_of(x: Rectangle, src: Seq<Rectangle>, out: Rectangle, k: int) -> bool {
    0 <= k < src.len() && visible(src[k], out) && x.spec_contains_rect(src[k])
}

/// Each edge of `x` is the edge of a visible input that `x` encloses: `x` is no
/// larger than the inputs it stands for.
#[verifier::opaque]
pub open spec fn attained(x: Rectangle, src: Seq<Rectangle>, out: Rectangle) -> bool {
    &&& exists|k: int| #[trigger] source_of(x, src, out, k) && src[k].left() == x.left()
    &&& exists|k: int| #[trigger] source_of(x, src, out, k) && src[k].top() == x.top()
    &&& exists|k: int| #[trigger] source_of(x, src, out, k) && src[k].right() == x.right()
    &&& exists|k: int| #[trigger] source_of(x, src, out, k) && src[k].bottom() == x.bottom()
}

pub open spec fn pairwise_disjoint(w: Seq<Rectangle>) -> bool {
    forall|a: int, b: int|
        0 <= a < w.len() && 0 <= b < w.len() && a != b ==> !(#[trigger] w[a]).spec_overlaps(
            #[trigger] w[b],
        )
}

/// What a reduction of `src` on the output `out` must be: disjoint rectangles
/// of positive area that together enclose every visible input, each no larger
/// than the inputs it encloses.
pub open spec fn is_reduction(w: Seq<Rectangle>, src: Seq<Rectangle>, out: Rectangle) -> bool {
    &&& pairwise_disjoint(w)
    &&& forall|t: int|
        0 <= t < w.len() ==> (#[trigger] w[t]).has_area() && w[t].bounded() && attained(
            w[t],
            src,
            out,
        )
    &&& forall|k: int| 0 <= k < src.len() && visible(src[k], out) ==> covers(w, #[trigger] src[k])
}

/// The working set during reduction, before it is disjoint.
pub open spec fn partial_reduction(w: Seq<Rectangle>, src: Seq<Rectangle>, out: Rectangle) -> bool {
    &&& forall|t: int|
        0 <= t < w.len() ==> (#[trigger] w[t]).has_area() && w[t].bounded() && attained(
            w[t],
            src,
            out,
        )
    &&& forall|k: int| 0 <= k < src.len() && visible(src[k], out) ==> covers(w, #[trigger] src[k])
}

/// The visible rectangles of `damage`, in order.
fn retain_visible(damage: &Vec<Rectangle>, out: &Rectangle) -> (r: Vec<Rectangle>)
    requires
        all_bounded(damage@),
    ensures
        partial_reduction(r@, damage@, *out),
{
    let mut r: Vec<Rectangle> = Vec::new();
    let mut i: usize = 0;
    while i < damage.len()
        invariant
            i <= damage.len(),
            all_bounded(damage@),
            forall|t: int|
                0 <= t < r.len() ==> (#[trigger] r@[t]).has_area() && r@[t].bounded() && attained(
                    r@[t],
                    damage@,
                    *out,
                ),
            forall|k: int| 0 <= k < i && visible(damage@[k], *out) ==> covers(r@, #[trigger] damage@[k]),
        decreases damage.len() - i,
    {
        let d = damage[i];
        if d.size.w > 0 && d.size.h > 0 && d.overlaps(out) {
            assert(source_of(d, damage@, *out, i as int));
            assert(attained(d, damage@, *out)) by {
                reveal(attained);
            }
            let ghost before = r@;
            r.push(d);
            assert forall|k: int| 0 <= k < i + 1 && visible(damage@[k], *out) implies covers(
                r@,
                #[trigger] damage@[k],
            ) by {
                if k == i {
                    assert(r@[r.len() - 1] == d);
                } else {
                    let t = choose|t: int| 0 <= t < before.len() && (#[trigger] before[t]).spec_contains_rect(damage@[k]);
                    assert(r@[t] == before[t]);
                }
            }
        }
        i = i + 1;
    }
    r
}

/// Finds two rectangles of `w` that overlap, if any do.
fn find_overlap(w: &Vec<Rectangle>) -> (r: Option<(usize, usize)>)
    ensures
        r.is_none() ==> pairwise_disjoint(w@),
        r.is_some() ==> ({
            let (i, j) = r.unwrap();
            i < j < w.len() && w@[i as int].spec_overlaps(w@[j as int])
        }),
{
    let mut i: usize = 0;
    while i < w.len()
        invariant
            i <= w.len(),
            forall|a: int, b: int|
                0 <= a < i && 0 <= b < w.len() && a != b ==> !(#[trigger] w@[a]).spec_overlaps(
                    #[trigger] w@[b],
                ),
        decreases w.len() - i,
    {
        let mut j: usize = i + 1;
        while j < w.len()
            invariant
                i < w.len(),
                i + 1 <= j <= w.len(),
                forall|a: int, b: int|
                    0 <= a < i && 0 <= b < w.len() && a != b ==> !(#[trigger] w@[a]).spec_overlaps(
                        #[trigger] w@[b],
                    ),
                forall|b: int| i < b < j ==> !w@[i as int].spec_overlaps(#[trigger] w@[b]),
            decreases w.len() - j,
        {
            if w[i].overlaps(&w[j]) {
                return Some((i, j));
            }
            j = j + 1;
        }
        assert forall|a: int, b: int|
            0 <= a < i + 1 && 0 <= b < w.len() && a != b implies !(#[trigger] w@[a]).spec_overlaps(
                #[trigger] w@[b],
            ) by {
            if a == i && b < i {
                assert(!w@[b].spec_overlaps(w@[a]));
            }
        }
        i = i + 1;
    }
    None
}

/// Reduces the damage of a frame on the output whose geometry is `out`: inputs
/// without area or outside the output are dropped, and rectangles that overlap
/// (duplicates and enclosed ones among them) are merged into their enclosing
/// box until no two overlap.
pub fn reduce_damage(damage: &Vec<Rectangle>, out: &Rectangle) -> (r: Vec<Rectangle>)
    requires
        all_bounded(damage@),
    ensures
        is_reduction(r@, damage@, *out),
{
    let mut w = retain_visible(damage, out);
    loop
        invariant
            partial_reduction(w@, damage@, *out),
        decreases w.len(),
    {
        match find_overlap(&w) {
            None => {
                return w;
            },
            Some((i, j)) => {
                let ghost old_w = w@;
                let m = w[i].merge(&w[j]);
                proof {
                    lemma_merge_step(old_w, i as int, j as int, m, damage@, *out);
                }
                w.set(i, m);
                w.remove(j);
                assert(w@ =~= old_w.update(i as int, m).remove(j as int));
            },
        }
    }
}

/// Replacing two overlapping rectangles of the working set by their enclosing
/// box keeps it a partial reduction.
proof fn lemma_merge_step(
    w: Seq<Rectangle>,
    i: int,
    j: int,
    m: Rectangle,
    src: Seq<Rectangle>,
    out: Rectangle,
)
    requires
        partial_reduction(w, src, out),
        0 <= i < j < w.len(),
        m.has_edges(w[i].merge_edges(w[j])),
        m.bounded(),
    ensures
        partial_reduction(w.update(i, m).remove(j), src, out),
{
    lemma_merge_keeps_sources(w[i], w[j], m, src, out);
    let mid = w.update(i, m);
    let n = mid.remove(j);
    assert forall|t: int| 0 <= t < n.len() implies (#[trigger] n[t]).has_area() && n[t].bounded()
        && attained(n[t], src, out) by {
        if t < j {
            assert(n[t] == mid[t]);
        } else {
            assert(n[t] == mid[t + 1]);
        }
    }
    assert forall|k: int| 0 <= k < src.len() && visible(src[k], out) implies covers(
        n,
        #[trigger] src[k],
    ) by {
        let t = choose|t: int| 0 <= t < w.len() && (#[trigger] w[t]).spec_contains_rect(src[k]);
        if t == i || t == j {
            assert(n[i] == m);
        } else if t < j {
            assert(n[t] == w[t]);
        } else {
            assert(n[t - 1] == w[t]);
        }
    }
}

/// The enclosing box of two rectangles of the working set is again no larger
/// than the inputs it encloses.
proof fn lemma_merge_keeps_sources(
    a: Rectangle,
    b: Rectangle,
    m: Rectangle,
    src: Seq<Rectangle>,
    out: Rectangle,
)
    requires
        a.has_area() && a.bounded() && attained(a, src, out),
        b.has_area() && b.bounded() && attained(b, src, out),
        m.has_edges(a.merge_edges(b)),
        m.bounded(),
    ensures
        m.has_area() && attained(m, src, out),
        m.spec_contains_rect(a),
        m.spec_contains_rect(b),
{
    reveal(attained);
    let ka = choose|k: int| #[trigger] source_of(a, src, out, k) && src[k].left() == a.left();
    let kb = choose|k: int| #[trigger] source_of(b, src, out, k) && src[k].left() == b.left();
    assert(source_of(m, src, out, ka) && source_of(m, src, out, kb));
    let ka = choose|k: int| #[trigger] source_of(a, src, out, k) && src[k].top() == a.top();
    let kb = choose|k: int| #[trigger] source_of(b, src, out, k) && src[k].top() == b.top();
    assert(source_of(m, src, out, ka) && source_of(m, src, out, kb));
    let ka = choose|k: int| #[trigger] source_of(a, src, out, k) && src[k].right() == a.right();
    let kb = choose|k: int| #[trigger] source_of(b, src, out, k) && src[k].right() == b.right();
    assert(source_of(m, src, out, ka) && source_of(m, src, out, kb));
    let ka = choose|k: int| #[trigger] source_of(a, src, out, k) && src[k].bottom() == a.bottom();
    let kb = choose|k: int| #[trigger] source_of(b, src, out, k) && src[k].bottom() == b.bottom();
    assert(source_of(m, src, out, ka) && source_of(m, src, out, kb));
}

} // verus!
