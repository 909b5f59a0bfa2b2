//! A small table attached to an entity that holds one record per space id,
//! so that each space keeps its own state for the same entity.
use vstd::prelude::*;

verus! {

pub struct SideTable<S> {
    entries: Vec<(usize, S)>,
}

impl<S: Copy> SideTable<S> {
    pub closed spec fn wf(&self) -> bool {
        forall|i: int, j: int|
            0 <= i < j < self.entries@.len() ==> (#[trigger] self.entries@[i]).0
                != (#[trigger] self.entries@[j]).0
    }

    pub closed spec fn has(&self, space: usize) -> bool {
        exists|i: int| 0 <= i < self.entries@.len() && (#[trigger] self.entries@[i]).0 == space
    }

    pub closed spec fn view(&self) -> Map<usize, S> {
        Map::new(
            |k: usize| self.has(k),
            |k: usize|
                self.entries@[choose|i: int|
                    0 <= i < self.entries@.len() && (#[trigger] self.entries@[i]).0 == k].1,
        )
    }

    pub fn new() -> (r: Self)
        ensures
            r.wf(),
            r@ == Map::<usize, S>::empty(),
    {
        let r = SideTable { entries: Vec::new() };
        assert(r@ =~= Map::<usize, S>::empty());
        r
    }

    fn position(&self, space: usize) -> (r: Option<usize>)
        requires
            self.wf(),
        ensures
            r.is_none() ==> !self.has(space),
            r.is_some() ==> r.unwrap() < self.entries@.len() && self.entries@[r.unwrap() as int].0
                == space && self@[space] == self.entries@[r.unwrap() as int].1 && self@.dom().contains(
                space,
            ),
    {
        let mut i: usize = 0;
        while i < self.entries.len()
            invariant
                self.wf(),
                i <= self.entries@.len(),
                forall|k: int| 0 <= k < i ==> (#[trigger] self.entries@[k]).0 != space,
            decreases self.entries.len() - i,
        {
            if self.entries[i].0 == space {
                let ghost c = choose|c: int|
                    0 <= c < self.entries@.len() && (#[trigger] self.entries@[c]).0 == space;
                assert(self.has(space));
                assert(c == i as int) by {
                    if c < i {
                    } else if c > i {
                        assert(self.entries@[i as int].0 != self.entries@[c].0);
                    }
                }
                return Some(i);
            }
            i = i + 1;
        }
        None
    }

    /// The record of `space`, if there is one.
    pub fn get(&self, space: usize) -> (r: Option<S>)
        requires
            self.wf(),
        ensures
            r == (if self@.dom().contains(space) { Some(self@[space]) } else { None::<S> }),
    {
        match self.position(space) {
            Some(i) => Some(self.entries[i].1),
            None => None,
        }
    }

    /// Sets the record of `space`, creating it if missing.
    pub fn set(&mut self, space: usize, v: S)
        requires
            old(self).wf(),
        ensures
            final(self).wf(),
            final(self)@ == old(self)@.insert(space, v),
    {
        let ghost before = *self;
        match self.position(space) {
            Some(i) => {
                self.entries.set(i, (space, v));
                assert forall|k: usize| #![auto] self.has(k) == before.has(k) by {
                    if before.has(k) {
                        let c = choose|c: int| 0 <= c < before.entries@.len() && (#[trigger] before.entries@[c]).0 == k;
                        assert(self.entries@[c].0 == k);
                    }
                    if self.has(k) {
                        let c = choose|c: int| 0 <= c < self.entries@.len() && (#[trigger] self.entries@[c]).0 == k;
                        assert(before.entries@[c].0 == k);
                    }
                }
                assert forall|k: usize| #![auto] self.has(k) implies self@[k] == before@.insert(space, v)[k] by {
                    let c = choose|c: int| 0 <= c < self.entries@.len() && (#[trigger] self.entries@[c]).0 == k;
                    let d = choose|c: int| 0 <= c < before.entries@.len() && (#[trigger] before.entries@[c]).0 == k;
                    if c != d {
                        assert(self.entries@[d].0 == k);
                        if c < d {
                            assert(self.entries@[c].0 != self.entries@[d].0);
                        } else {
                            assert(self.entries@[d].0 != self.entries@[c].0);
                        }
                    }
                    if k == space {
                        if c != i {
                            if c < i {
                                assert(self.entries@[c].0 != self.entries@[i as int].0);
                            } else {
                                assert(self.entries@[i as int].0 != self.entries@[c].0);
                            }
                        }
                    }
                }
                assert(self@ =~= before@.insert(space, v));
            },
            None => {
                self.entries.push((space, v));
                let ghost n: int = self.entries@.len() - 1;
                assert(self.entries@[n].0 == space);
                assert forall|k: usize| #![auto] self.has(k) == (before.has(k) || k == space) by {
                    if before.has(k) {
                        let c = choose|c: int| 0 <= c < before.entries@.len() && (#[trigger] before.entries@[c]).0 == k;
                        assert(self.entries@[c].0 == k);
                    }
                    if self.has(k) && k != space {
                        let c = choose|c: int| 0 <= c < self.entries@.len() && (#[trigger] self.entries@[c]).0 == k;
                        assert(before.entries@[c].0 == k);
                    }
                }
                assert forall|k: usize| #![auto] self.has(k) implies self@[k] == before@.insert(space, v)[k] by {
                    let c = choose|c: int| 0 <= c < self.entries@.len() && (#[trigger] self.entries@[c]).0 == k;
                    if k == space {
                        assert(c == n);
                    } else {
                        let d = choose|c: int| 0 <= c < before.entries@.len() && (#[trigger] before.entries@[c]).0 == k;
                        assert(self.entries@[d].0 == k);
                        if c != d {
                            if c < d {
                                assert(self.entries@[c].0 != self.entries@[d].0);
                            } else {
                                assert(self.entries@[d].0 != self.entries@[c].0);
                            }
                        }
                    }
                }
                assert(self@ =~= before@.insert(space, v));
            },
        }
    }

    /// Drops the record of `space`, if there is one.
    pub fn remove(&mut self, space: usize)
        requires
            old(self).wf(),
        ensures
            final(self).wf(),
            final(self)@ == old(self)@.remove(space),
    {
        let ghost before = *self;
        match self.position(space) {
            Some(i) => {
                self.entries.remove(i);
                assert forall|k: usize| #![auto] self.has(k) == (before.has(k) && k != space) by {
                    if before.has(k) && k != space {
                        let c = choose|c: int| 0 <= c < before.entries@.len() && (#[trigger] before.entries@[c]).0 == k;
                        if c < i {
                            assert(self.entries@[c].0 == k);
                        } else {
                            assert(self.entries@[c - 1].0 == k);
                        }
                    }
                    if self.has(k) {
                        let c = choose|c: int| 0 <= c < self.entries@.len() && (#[trigger] self.entries@[c]).0 == k;
                        if c < i {
                            assert(before.entries@[c].0 == k);
                            assert(before.entries@[c].0 != before.entries@[i as int].0);
                        } else {
                            assert(before.entries@[c + 1].0 == k);
                            assert(before.entries@[i as int].0 != before.entries@[c + 1].0);
                        }
                    }
                }
                assert forall|k: usize| #![auto] self.has(k) implies self@[k] == before@[k] by {
                    let c = choose|c: int| 0 <= c < self.entries@.len() && (#[trigger] self.entries@[c]).0 == k;
                    let d = choose|c: int| 0 <= c < before.entries@.len() && (#[trigger] before.entries@[c]).0 == k;
                    let e = if c < i { c } else { c + 1 };
                    assert(before.entries@[e] == self.entries@[c]);
                    if e != d {
                        if e < d {
                            assert(before.entries@[e].0 != before.entries@[d].0);
                        } else {
                            assert(before.entries@[d].0 != before.entries@[e].0);
                        }
                    }
                }
                assert(self@ =~= before@.remove(space));
            },
            None => {
                assert(self@ =~= before@.remove(space));
            },
        }
    }
}

} // verus!
