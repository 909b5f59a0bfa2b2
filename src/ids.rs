//! Allocation of space ids: a counter that wraps around, checked against the
//! ids of the spaces alive so that no two of them share one.
use vstd::prelude::*;
use vstd::set_lib::{lemma_int_range, lemma_len_subset, lemma_map_size, set_int_range};

verus! {

/// The id allocator. Callers that create spaces from several threads keep it
/// behind a lock.
pub struct SpaceIds {
    next: usize,
    live: Vec<usize>,
}

/// The candidate tried `k` steps after `start`, wrapping around.
pub open spec fn candidate(start: usize, k: int) -> int {
    if start + k <= usize::MAX {
        start + k
    } else {
        start + k - usize::MAX - 1
    }
}

proof fn lemma_tried_fit(start: usize, c: int, live: Seq<usize>)
    requires
        0 <= c <= usize::MAX,
        forall|k: int| 0 <= k < c ==> live.contains(#[trigger] candidate(start, k) as usize),
    ensures
        c <= live.len(),
{
    let f = |k: int| candidate(start, k) as usize;
    let x = set_int_range(0, c);
    lemma_int_range(0, c);
    assert(vstd::relations::injective_on(f, x)) by {
        assert forall|a: int, b: int| x.contains(a) && x.contains(b) && #[trigger] f(a) == #[trigger] f(b) implies a == b by {
        }
    }
    let y = x.map(f);
    lemma_map_size(x, y, f);
    live.lemma_cardinality_of_set();
    assert(y.subset_of(live.to_set())) by {
        assert forall|v: usize| y.contains(v) implies live.to_set().contains(v) by {
            let k = choose|k: int| x.contains(k) && f(k) == v;
            assert(live.contains(candidate(start, k) as usize));
        }
    }
    lemma_len_subset(y, live.to_set());
}

impl SpaceIds {
    pub closed spec fn wf(&self) -> bool {
        forall|i: int, j: int| 0 <= i < j < self.live@.len() ==> self.live@[i] != self.live@[j]
    }

    /// Ids of the spaces alive.
    pub closed spec fn live_ids(&self) -> Set<usize> {
        self.live@.to_set()
    }

    /// The next value the counter will try.
    pub closed spec fn counter(&self) -> usize {
        self.next
    }

    pub closed spec fn live_count(&self) -> nat {
        self.live@.len()
    }

    pub fn new() -> (r: SpaceIds)
        ensures
            r.wf(),
            r.live_ids() == Set::<usize>::empty(),
            r.live_count() == 0,
    {
        let r = SpaceIds { next: 0, live: Vec::new() };
        assert(r.live@.to_set() =~= Set::<usize>::empty());
        r
    }

    /// Gives the id back once its space is gone.
    pub fn release(&mut self, id: usize)
        requires
            old(self).wf(),
        ensures
            final(self).wf(),
            final(self).live_ids() == old(self).live_ids().remove(id),
            final(self).live_count() <= old(self).live_count(),
    {
        let ghost before = self.live@;
        let mut i: usize = 0;
        while i < self.live.len()
            invariant
                self.wf(),
                i <= self.live@.len(),
                self.live@ == before,
                before == old(self).live@,
                forall|k: int| 0 <= k < i ==> self.live@[k] != id,
            decreases self.live.len() - i,
        {
            if self.live[i] == id {
                self.live.remove(i);
                proof {
                    assert forall|a: int, b: int| 0 <= a < b < self.live@.len() implies self.live@[a] != self.live@[b] by {
                        let (c, d) = if b < i { (a, b) } else if a < i { (a, b + 1) } else { (a + 1, b + 1) };
                        assert(before[c] != before[d]);
                    }
                    assert forall|x: usize| self.live@.to_set().contains(x) == before.to_set().remove(id).contains(x) by {
                        if before.contains(x) && x != id {
                            let q = choose|q: int| 0 <= q < before.len() && before[q] == x;
                            if q < i {
                                assert(self.live@[q] == x);
                            } else {
                                assert(q != i);
                                assert(self.live@[q - 1] == x);
                            }
                        }
                        if self.live@.contains(x) {
                            let q = choose|q: int| 0 <= q < self.live@.len() && self.live@[q] == x;
                            if q < i {
                                assert(before[q] == x);
                                assert(before[q] != before[i as int]);
                            } else {
                                assert(before[q + 1] == x);
                                assert(before[i as int] != before[q + 1]);
                            }
                        }
                    }
                    assert(self.live@.to_set() =~= before.to_set().remove(id));
                }
                return;
            }
            i = i + 1;
        }
        assert(!before.contains(id));
        assert(self.live@.to_set() =~= before.to_set().remove(id));
    }
}

fn live_contains(live: &Vec<usize>, id: usize) -> (r: bool)
    ensures
        r == live@.contains(id),
{
    let mut i: usize = 0;
    while i < live.len()
        invariant
            i <= live@.len(),
            forall|k: int| 0 <= k < i ==> live@[k] != id,
        decreases live.len() - i,
    {
        if live[i] == id {
            return true;
        }
        i = i + 1;
    }
    false
}

/// Hands out an id that no live space holds, trying the counter's values in
/// turn, and records it as live. Every id may be live at once only when
/// `usize::MAX` spaces exist, which the caller rules out.
pub fn next_space_id(ids: &mut SpaceIds) -> (id: usize)
    requires
        old(ids).wf(),
        old(ids).live_count() < usize::MAX,
    ensures
        final(ids).wf(),
        !old(ids).live_ids().contains(id),
        final(ids).live_ids() == old(ids).live_ids().insert(id),
        final(ids).live_count() == old(ids).live_count() + 1,
        exists|c: int| 0 <= c && id as int == candidate(old(ids).counter(), c) && forall|k: int| 0 <= k < c
            ==> old(ids).live_ids().contains(#[trigger] candidate(old(ids).counter(), k) as usize),
        final(ids).counter() == if id == usize::MAX { 0 } else { id + 1 },
{
    let ghost start = ids.next;
    let mut id = ids.next;
    ids.next = if ids.next == usize::MAX { 0 } else { ids.next + 1 };
    let ghost mut c: int = 0;
    while live_contains(&ids.live, id)
        invariant
            ids.wf(),
            ids.live@ == old(ids).live@,
            ids.live@.len() < usize::MAX,
            0 <= c <= ids.live@.len(),
            id as int == candidate(start, c),
            ids.next as int == candidate(start, c + 1),
            forall|k: int| 0 <= k < c ==> ids.live@.contains(#[trigger] candidate(start, k) as usize),
        decreases ids.live@.len() - c,
    {
        proof {
            assert(ids.live@.contains(candidate(start, c) as usize));
            lemma_tried_fit(start, c + 1, ids.live@);
            c = c + 1;
        }
        id = ids.next;
        ids.next = if ids.next == usize::MAX { 0 } else { ids.next + 1 };
    }
    let ghost before = ids.live@;
    proof {
        assert forall|k: int| 0 <= k < c implies old(ids).live_ids().contains(#[trigger] candidate(start, k) as usize) by {
            assert(old(ids).live@.contains(candidate(start, k) as usize));
        }
        assert(start == old(ids).counter());
        assert(0 <= c && id as int == candidate(old(ids).counter(), c) && forall|k: int| 0 <= k < c
            ==> old(ids).live_ids().contains(#[trigger] candidate(old(ids).counter(), k) as usize));
    }
    ids.live.push(id);
    proof {
        assert forall|a: int, b: int| 0 <= a < b < ids.live@.len() implies ids.live@[a] != ids.live@[b] by {
            if b == before.len() {
                assert(before.contains(before[a]));
            }
        }
        assert(ids.live@.to_set() =~= before.to_set().insert(id)) by {
            assert forall|x: usize| ids.live@.to_set().contains(x) == before.to_set().insert(id).contains(x) by {
                if before.contains(x) {
                    let q = choose|q: int| 0 <= q < before.len() && before[q] == x;
                    assert(ids.live@[q] == x);
                }
                if ids.live@.contains(x) && x != id {
                    let q = choose|q: int| 0 <= q < ids.live@.len() && ids.live@[q] == x;
                    assert(before[q] == x);
                }
                if x == id {
                    assert(ids.live@[before.len() as int] == x);
                }
            }
        }
    }
    id
}

} // verus!
