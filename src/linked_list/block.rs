//! A block: one value and a set of named pointers to other blocks.
//!
//! Blocks live in an [`Arena`], which owns them and counts the owning handles
//! to each; a pointer is the handle of the block it leads to. A pointer name
//! that was never set and one that was set to `None` read the same.
use vstd::prelude::*;

use super::arena::Arena;

verus! {

/// Name of a pointer of a block.
#[derive(Debug, Hash, Eq, PartialEq)]
pub enum PointerName {
    Left,
    Right,
    Previous,
    Next,
    First,
    Last,
    Custom(String),
}

impl PointerName {
    /// Two names denote the same pointer: equal variants, and for custom names
    /// the same text.
    pub open spec fn matches(self, other: PointerName) -> bool {
        match (self, other) {
            (PointerName::Custom(a), PointerName::Custom(b)) => a@ == b@,
            _ => self == other,
        }
    }

    pub fn same_as(&self, other: &PointerName) -> (r: bool)
        ensures
            r == self.matches(*other),
    {
        match (self, other) {
            (PointerName::Custom(a), PointerName::Custom(b)) => a.eq(b),
            (PointerName::Left, PointerName::Left) => true,
            (PointerName::Right, PointerName::Right) => true,
            (PointerName::Previous, PointerName::Previous) => true,
            (PointerName::Next, PointerName::Next) => true,
            (PointerName::First, PointerName::First) => true,
            (PointerName::Last, PointerName::Last) => true,
            _ => false,
        }
    }
}

/// A block of a linked structure.
pub struct Block<T> {
    data: Option<T>,
    self_ref: Option<usize>,
    pointers: Vec<(PointerName, Option<usize>)>,
}

impl<T> Block<T> {
    /// The stored value; `None` once the block was cleared.
    pub closed spec fn value(&self) -> Option<T> {
        self.data
    }

    /// The handle of the block's own slot; `None` once the block was cleared.
    pub closed spec fn self_handle(&self) -> Option<usize> {
        self.self_ref
    }

    /// The block that the pointer `name` leads to, if any.
    pub closed spec fn pointer(&self, name: PointerName) -> Option<usize> {
        if exists|i: int|
            0 <= i < self.pointers@.len() && (#[trigger] self.pointers@[i]).0.matches(name) {
            self.pointers@[choose|i: int|
                0 <= i < self.pointers@.len() && (#[trigger] self.pointers@[i]).0.matches(
                    name,
                )].1
        } else {
            None
        }
    }

    /// No two entries of the pointer table name the same pointer.
    pub closed spec fn wf(&self) -> bool {
        forall|i: int, j: int|
            0 <= i < j < self.pointers@.len() ==> !(#[trigger] self.pointers@[i]).0.matches(
                (#[trigger] self.pointers@[j]).0,
            )
    }

    /// True when the block holds no pointer at all.
    pub open spec fn no_pointers(&self) -> bool {
        forall|name: PointerName| #[trigger] self.pointer(name) is None
    }

    proof fn lemma_pointer_at(&self, i: int, name: PointerName)
        requires
            self.wf(),
            0 <= i < self.pointers@.len(),
            self.pointers@[i].0.matches(name),
        ensures
            self.pointer(name) == self.pointers@[i].1,
    {
        let j = choose|j: int|
            0 <= j < self.pointers@.len() && (#[trigger] self.pointers@[j]).0.matches(name);
        if i < j {
            assert(!self.pointers@[i].0.matches(self.pointers@[j].0));
        } else if j < i {
            assert(!self.pointers@[j].0.matches(self.pointers@[i].0));
        }
    }

    /// Allocates a block holding `data`, with no pointers, in `arena`, and
    /// returns the one owning handle to it. The block records that handle as
    /// its self-reference.
    pub fn new(arena: &mut Arena<Block<T>>, data: T) -> (h: usize)
        requires
            old(arena).wf(),
        ensures
            final(arena).wf(),
            !old(arena)@.contains_key(h),
            final(arena)@ == old(arena)@.insert(h, final(arena)@[h]),
            final(arena)@[h].wf(),
            final(arena)@[h].value() == Some(data),
            final(arena)@[h].self_handle() == Some(h),
            final(arena)@[h].no_pointers(),
            final(arena).count(h) == 1,
            forall|g: usize| g != h ==> final(arena).count(g) == old(arena).count(g),
    {
        let h = arena.allocate(Block { data: None, self_ref: None, pointers: Vec::new() });
        let v = arena.get_mut(h);
        v.self_ref = Some(h);
        v.data = Some(data);
        proof {
            assert forall|name: PointerName| #[trigger] final(arena)@[h].pointer(name) is None by {}
        }
        h
    }

    /// The handle of this block. The arena's `share` turns it into one more
    /// owning handle.
    pub fn get_reference(&self) -> (r: usize)
        requires
            self.self_handle() is Some,
        ensures
            r == self.self_handle()->Some_0,
    {
        self.self_ref.unwrap()
    }

    pub fn read_data(&self) -> (r: &Option<T>)
        ensures
            *r == self.value(),
    {
        &self.data
    }

    /// Replaces the value and returns the previous one.
    pub fn set_data(&mut self, data: T) -> (r: Option<T>)
        ensures
            r == old(self).value(),
            final(self).value() == Some(data),
            final(self).self_handle() == old(self).self_handle(),
            final(self).wf() == old(self).wf(),
            forall|name: PointerName| #[trigger] final(self).pointer(name) == old(self).pointer(name),
    {
        let previous = self.data.take();
        self.data = Some(data);
        previous
    }

    /// Drops every pointer and the self-reference, and takes the value out.
    pub fn clear(&mut self) -> (r: Option<T>)
        ensures
            r == old(self).value(),
            final(self).value() is None,
            final(self).self_handle() is None,
            final(self).wf(),
            final(self).no_pointers(),
    {
        self.pointers = Vec::new();
        self.self_ref = None;
        let r = self.data.take();
        proof {
            assert forall|name: PointerName| #[trigger] self.pointer(name) is None by {}
        }
        r
    }

    /// Sets the pointer `name` to `new_block` (`None` removes it) and returns
    /// what it led to before.
    pub fn set_pointer(&mut self, pointer_name: PointerName, new_block: Option<usize>) -> (r:
        Option<usize>)
        requires
            old(self).wf(),
        ensures
            final(self).wf(),
            r == old(self).pointer(pointer_name),
            final(self).pointer(pointer_name) == new_block,
            forall|name: PointerName|
                !name.matches(pointer_name) ==> #[trigger] final(self).pointer(name) == old(
                    self,
                ).pointer(name),
            final(self).value() == old(self).value(),
            final(self).self_handle() == old(self).self_handle(),
    {
        let mut i: usize = 0;
        while i < self.pointers.len()
            invariant
                self.wf(),
                *self == *old(self),
                0 <= i <= self.pointers@.len(),
                forall|k: int| 0 <= k < i ==> !(#[trigger] self.pointers@[k]).0.matches(pointer_name),
            decreases self.pointers@.len() - i,
        {
            if self.pointers[i].0.same_as(&pointer_name) {
                let previous = self.pointers[i].1;
                proof {
                    self.lemma_pointer_at(i as int, pointer_name);
                }
                self.pointers[i].1 = new_block;
                proof {
                    assert(self.wf()) by {
                        assert forall|a: int, b: int|
                            0 <= a < b < self.pointers@.len() implies !(
                            #[trigger] self.pointers@[a]).0.matches(
                            (#[trigger] self.pointers@[b]).0,
                        ) by {
                            assert(self.pointers@[a].0 == old(self).pointers@[a].0);
                            assert(self.pointers@[b].0 == old(self).pointers@[b].0);
                        }
                    }
                    self.lemma_pointer_at(i as int, pointer_name);
                    assert forall|name: PointerName| !name.matches(pointer_name) implies #[trigger] self.pointer(name) == old(self).pointer(name) by {
                        if exists|k: int| 0 <= k < self.pointers@.len() && (#[trigger] self.pointers@[k]).0.matches(name) {
                            let k = choose|k: int| 0 <= k < self.pointers@.len() && (#[trigger] self.pointers@[k]).0.matches(name);
                            assert(k != i);
                            self.lemma_pointer_at(k, name);
                            old(self).lemma_pointer_at(k, name);
                        } else {
                            assert forall|k: int| 0 <= k < old(self).pointers@.len() implies !(#[trigger] old(self).pointers@[k]).0.matches(name) by {
                                assert(self.pointers@[k].0 == old(self).pointers@[k].0);
                            }
                        }
                    }
                }
                return previous;
            }
            i = i + 1;
        }
        proof {
            assert(old(self).pointer(pointer_name) is None);
        }
        self.pointers.push((pointer_name, new_block));
        proof {
            let n = old(self).pointers@.len() as int;
            assert(self.pointers@[n].0.matches(pointer_name));
            self.lemma_pointer_at(n, pointer_name);
            assert forall|name: PointerName| !name.matches(pointer_name) implies #[trigger] self.pointer(name) == old(self).pointer(name) by {
                if exists|k: int| 0 <= k < self.pointers@.len() && (#[trigger] self.pointers@[k]).0.matches(name) {
                    let k = choose|k: int| 0 <= k < self.pointers@.len() && (#[trigger] self.pointers@[k]).0.matches(name);
                    assert(k != n);
                    self.lemma_pointer_at(k, name);
                    old(self).lemma_pointer_at(k, name);
                } else {
                    assert forall|k: int| 0 <= k < old(self).pointers@.len() implies !(#[trigger] old(self).pointers@[k]).0.matches(name) by {
                        assert(self.pointers@[k] == old(self).pointers@[k]);
                    }
                }
            }
        }
        None
    }

    /// The handle that the pointer `name` leads to, if any.
    pub fn get_pointer(&self, pointer_name: PointerName) -> (r: Option<usize>)
        requires
            self.wf(),
        ensures
            r == self.pointer(pointer_name),
    {
        let mut i: usize = 0;
        while i < self.pointers.len()
            invariant
                self.wf(),
                0 <= i <= self.pointers@.len(),
                forall|k: int| 0 <= k < i ==> !(#[trigger] self.pointers@[k]).0.matches(pointer_name),
            decreases self.pointers@.len() - i,
        {
            if self.pointers[i].0.same_as(&pointer_name) {
                proof {
                    self.lemma_pointer_at(i as int, pointer_name);
                }
                return self.pointers[i].1;
            }
            i = i + 1;
        }
        None
    }
}

} // verus!
