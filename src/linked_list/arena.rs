//! Slot storage for nodes that refer to each other by handle.
//!
//! A handle is the index of a slot. Each live slot carries a strong count:
//! the number of owning handles that were handed out for it and not yet
//! released. When the last one is released the node is taken out and the
//! slot is recycled.
use vstd::prelude::*;

verus! {

/// Slot store with reference counts, the sharing mechanism of the nodes.
pub struct Arena<N> {
    slots: Vec<Option<N>>,
    refs: Vec<usize>,
    free: Vec<usize>,
}

impl<N> View for Arena<N> {
    type V = Map<usize, N>;

    /// The live nodes, by handle.
    closed spec fn view(&self) -> Map<usize, N> {
        Map::new(
            |h: usize| (h as int) < self.slots@.len() && self.slots@[h as int] is Some,
            |h: usize| self.slots@[h as int]->Some_0,
        )
    }
}

impl<N> Arena<N> {
    /// Number of owning handles to `h` that are outstanding (zero once freed).
    pub closed spec fn count(&self, h: usize) -> nat {
        if (h as int) < self.refs@.len() {
            self.refs@[h as int] as nat
        } else {
            0
        }
    }

    pub closed spec fn wf(&self) -> bool {
        &&& self.refs@.len() == self.slots@.len()
        &&& forall|h: int|
            0 <= h < self.slots@.len() ==> (#[trigger] self.slots@[h] is Some <==> self.refs@[h]
                > 0)
        &&& forall|k: int|
            0 <= k < self.free@.len() ==> (#[trigger] self.free@[k] as int) < self.slots@.len()
                && self.slots@[self.free@[k] as int] is None
        &&& self.free@.no_duplicates()
    }

    /// A node is live exactly while some owning handle to it is outstanding.
    pub proof fn lemma_live_iff_counted(&self, h: usize)
        requires
            self.wf(),
        ensures
            self@.contains_key(h) <==> self.count(h) > 0,
    {
    }

    pub fn new() -> (a: Self)
        ensures
            a.wf(),
            a@ == Map::<usize, N>::empty(),
    {
        let a = Arena { slots: Vec::new(), refs: Vec::new(), free: Vec::new() };
        assert(a@ =~= Map::<usize, N>::empty());
        a
    }

    pub fn contains(&self, h: usize) -> (r: bool)
        requires
            self.wf(),
        ensures
            r == self@.contains_key(h),
    {
        h < self.slots.len() && self.slots[h].is_some()
    }

    /// The number of owning handles to `h`; zero for a handle that is not live.
    pub fn strong_count(&self, h: usize) -> (r: usize)
        requires
            self.wf(),
        ensures
            r == self.count(h),
    {
        if h < self.refs.len() {
            self.refs[h]
        } else {
            0
        }
    }

    /// Stores `node` in a free slot and returns the one owning handle to it.
    pub fn allocate(&mut self, node: N) -> (h: usize)
        requires
            old(self).wf(),
        ensures
            final(self).wf(),
            !old(self)@.contains_key(h),
            final(self)@ == old(self)@.insert(h, node),
            final(self).count(h) == 1,
            forall|g: usize| g != h ==> final(self).count(g) == old(self).count(g),
    {
        match self.free.pop() {
            Some(h) => {
                proof {
                    assert(old(self).free@[old(self).free@.len() - 1] == h);
                }
                self.slots[h] = Some(node);
                self.refs[h] = 1;
                proof {
                    assert forall|k: int| 0 <= k < self.free@.len() implies (
                    #[trigger] self.free@[k] as int) < self.slots@.len() && self.slots@[self.free@[k] as int] is None by {
                        assert(old(self).free@[k] == self.free@[k]);
                        assert(self.free@[k] != h);
                    }
                    assert(self@ =~= old(self)@.insert(h, node));
                }
                h
            },
            None => {
                let h = self.slots.len();
                self.slots.push(Some(node));
                self.refs.push(1);
                proof {
                    assert(self@ =~= old(self)@.insert(h, node));
                }
                h
            },
        }
    }

    pub fn get(&self, h: usize) -> (n: &N)
        requires
            self.wf(),
            self@.contains_key(h),
        ensures
            *n == self@[h],
    {
        self.slots[h].as_ref().unwrap()
    }

    /// Mutable access to a live node; counts and the other nodes stay as they were.
    pub fn get_mut(&mut self, h: usize) -> (n: &mut N)
        requires
            old(self).wf(),
            old(self)@.contains_key(h),
        ensures
            *n == old(self)@[h],
            final(self).wf(),
            final(self)@ == old(self)@.insert(h, *final(n)),
            forall|g: usize| final(self).count(g) == old(self).count(g),
    {
        self.slots[h].as_mut().unwrap()
    }

    /// Hands out one more owning handle to the live node `h`.
    pub fn share(&mut self, h: usize) -> (r: usize)
        requires
            old(self).wf(),
            old(self)@.contains_key(h),
            old(self).count(h) < usize::MAX,
        ensures
            final(self).wf(),
            r == h,
            final(self)@ == old(self)@,
            final(self).count(h) == old(self).count(h) + 1,
            forall|g: usize| g != h ==> final(self).count(g) == old(self).count(g),
    {
        let c = self.refs[h];
        self.refs[h] = c + 1;
        proof {
            assert(self@ =~= old(self)@);
        }
        h
    }

    /// Gives back one owning handle to `h`. When it was the last one the node
    /// is taken out, its slot is recycled, and the node is returned.
    pub fn release(&mut self, h: usize) -> (r: Option<N>)
        requires
            old(self).wf(),
            old(self)@.contains_key(h),
        ensures
            final(self).wf(),
            final(self).count(h) == old(self).count(h) - 1,
            forall|g: usize| g != h ==> final(self).count(g) == old(self).count(g),
            old(self).count(h) == 1 ==> r == Some(old(self)@[h]) && final(self)@ == old(self)@.remove(
                h,
            ),
            old(self).count(h) > 1 ==> r is None && final(self)@ == old(self)@,
    {
        let c = self.refs[h];
        if c == 1 {
            self.refs[h] = 0;
            let node = self.slots[h].take();
            proof {
                assert forall|k: int| 0 <= k < old(self).free@.len() implies old(self).free@[k]
                    != h by {
                    assert(old(self).slots@[old(self).free@[k] as int] is None);
                }
            }
            self.free.push(h);
            proof {
                assert(self@ =~= old(self)@.remove(h));
            }
            node
        } else {
            self.refs[h] = c - 1;
            proof {
                assert(self@ =~= old(self)@);
            }
            None
        }
    }
}

} // verus!
