//! A vertex: one value and a set of named links to other vertexes.
//!
//! Vertexes live in an [`Arena`], which owns them and counts the owning
//! handles to each; a link is the handle of the vertex it leads to. A link
//! name that was never set and one that was set to `None` read the same.
use vstd::prelude::*;

use super::arena::Arena;

verus! {

/// Name of a link of a vertex.
#[derive(Debug, Hash, Eq, PartialEq)]
pub enum PointerName {
    Left,
    Right,
    Previous,
    Next,
    First,
    Last,
    To,
    From,
    Custom(String),
}

impl PointerName {
    /// Two names denote the same link: equal variants, and for custom names
    /// the same text.
    pub open spec fn matches(self, other: PointerName) -> bool {
        match (self, other) {
            (PointerName::Custom(a), PointerName::Custom(b)) => a@ == b@,
            _ => self == other,
        }
    }

    pub fn same_as(&self, other: &PointerName) -> (r: bool)
        ensures
            r == self.matches(*other),
    {
        match (self, other) {
            (PointerName::Custom(a), PointerName::Custom(b)) => a.eq(b),
            (PointerName::Left, PointerName::Left) => true,
            (PointerName::Right, PointerName::Right) => true,
            (PointerName::Previous, PointerName::Previous) => true,
            (PointerName::Next, PointerName::Next) => true,
            (PointerName::First, PointerName::First) => true,
            (PointerName::Last, PointerName::Last) => true,
            (PointerName::To, PointerName::To) => true,
            (PointerName::From, PointerName::From) => true,
            _ => false,
        }
    }
}

/// A vertex of a linked structure.
pub struct Vertex<T> {
    data: Option<T>,
    self_ref: Option<usize>,
    connections: Vec<(PointerName, Option<usize>)>,
}

impl<T> Vertex<T> {
    /// The stored value; `None` once the vertex was cleared.
    pub closed spec fn value(&self) -> Option<T> {
        self.data
    }

    /// The handle of the vertex's own slot; `None` once the vertex was cleared.
    pub closed spec fn self_handle(&self) -> Option<usize> {
        self.self_ref
    }

    /// The vertex that the link `name` leads to, if any.
    pub closed spec fn link(&self, name: PointerName) -> Option<usize> {
        if exists|i: int|
            0 <= i < self.connections@.len() && (#[trigger] self.connections@[i]).0.matches(name) {
            self.connections@[choose|i: int|
                0 <= i < self.connections@.len() && (#[trigger] self.connections@[i]).0.matches(
                    name,
                )].1
        } else {
            None
        }
    }

    /// No two entries of the link table name the same link.
    pub closed spec fn wf(&self) -> bool {
        forall|i: int, j: int|
            0 <= i < j < self.connections@.len() ==> !(#[trigger] self.connections@[i]).0.matches(
                (#[trigger] self.connections@[j]).0,
            )
    }

    /// True when the vertex holds no link at all.
    pub open spec fn unlinked(&self) -> bool {
        forall|name: PointerName| #[trigger] self.link(name) is None
    }

    proof fn lemma_link_at(&self, i: int, name: PointerName)
        requires
            self.wf(),
            0 <= i < self.connections@.len(),
            self.connections@[i].0.matches(name),
        ensures
            self.link(name) == self.connections@[i].1,
    {
        let j = choose|j: int|
            0 <= j < self.connections@.len() && (#[trigger] self.connections@[j]).0.matches(name);
        if i < j {
            assert(!self.connections@[i].0.matches(self.connections@[j].0));
        } else if j < i {
            assert(!self.connections@[j].0.matches(self.connections@[i].0));
        }
    }

    /// Allocates a vertex holding `data`, with no links, in `arena`, and
    /// returns the one owning handle to it. The vertex records that handle as
    /// its self-reference.
    pub fn new(arena: &mut Arena<Vertex<T>>, data: T) -> (h: usize)
        requires
            old(arena).wf(),
        ensures
            final(arena).wf(),
            !old(arena)@.contains_key(h),
            final(arena)@ == old(arena)@.insert(h, final(arena)@[h]),
            final(arena)@[h].wf(),
            final(arena)@[h].value() == Some(data),
            final(arena)@[h].self_handle() == Some(h),
            final(arena)@[h].unlinked(),
            final(arena).count(h) == 1,
            forall|g: usize| g != h ==> final(arena).count(g) == old(arena).count(g),
    {
        let h = arena.allocate(Vertex { data: None, self_ref: None, connections: Vec::new() });
        let v = arena.get_mut(h);
        v.self_ref = Some(h);
        v.data = Some(data);
        proof {
            assert forall|name: PointerName| #[trigger] final(arena)@[h].link(name) is None by {}
        }
        h
    }

    /// The handle of this vertex. The arena's `share` turns it into one more
    /// owning handle.
    pub fn get_reference(&self) -> (r: usize)
        requires
            self.self_handle() is Some,
        ensures
            r == self.self_handle()->Some_0,
    {
        self.self_ref.unwrap()
    }

    pub fn read_data(&self) -> (r: &Option<T>)
        ensures
            *r == self.value(),
    {
        &self.data
    }

    /// Replaces the value and returns the previous one.
    pub fn set_data(&mut self, data: T) -> (r: Option<T>)
        ensures
            r == old(self).value(),
            final(self).value() == Some(data),
            final(self).self_handle() == old(self).self_handle(),
            final(self).wf() == old(self).wf(),
            forall|name: PointerName| #[trigger] final(self).link(name) == old(self).link(name),
    {
        let previous = self.data.take();
        self.data = Some(data);
        previous
    }

    /// Drops every link and the self-reference, and takes the value out.
    pub fn clear(&mut self) -> (r: Option<T>)
        ensures
            r == old(self).value(),
            final(self).value() is None,
            final(self).self_handle() is None,
            final(self).wf(),
            final(self).unlinked(),
    {
        self.connections = Vec::new();
        self.self_ref = None;
        let r = self.data.take();
        proof {
            assert forall|name: PointerName| #[trigger] self.link(name) is None by {}
        }
        r
    }

    /// Sets the link `name` to `connection` (`None` removes it) and returns
    /// what it led to before.
    pub fn set_connection(&mut self, pointer_name: PointerName, connection: Option<usize>) -> (r:
        Option<usize>)
        requires
            old(self).wf(),
        ensures
            final(self).wf(),
            r == old(self).link(pointer_name),
            final(self).link(pointer_name) == connection,
            forall|name: PointerName|
                !name.matches(pointer_name) ==> #[trigger] final(self).link(name) == old(
                    self,
                ).link(name),
            final(self).value() == old(self).value(),
            final(self).self_handle() == old(self).self_handle(),
    {
        let mut i: usize = 0;
        while i < self.connections.len()
            invariant
                self.wf(),
                *self == *old(self),
                0 <= i <= self.connections@.len(),
                forall|k: int| 0 <= k < i ==> !(#[trigger] self.connections@[k]).0.matches(pointer_name),
            decreases self.connections@.len() - i,
        {
            if self.connections[i].0.same_as(&pointer_name) {
                let previous = self.connections[i].1;
                proof {
                    self.lemma_link_at(i as int, pointer_name);
                }
                self.connections[i].1 = connection;
                proof {
                    assert(self.wf()) by {
                        assert forall|a: int, b: int|
                            0 <= a < b < self.connections@.len() implies !(
                            #[trigger] self.connections@[a]).0.matches(
                            (#[trigger] self.connections@[b]).0,
                        ) by {
                            assert(self.connections@[a].0 == old(self).connections@[a].0);
                            assert(self.connections@[b].0 == old(self).connections@[b].0);
                        }
                    }
                    self.lemma_link_at(i as int, pointer_name);
                    assert forall|name: PointerName| !name.matches(pointer_name) implies #[trigger] self.link(name) == old(self).link(name) by {
                        if exists|k: int| 0 <= k < self.connections@.len() && (#[trigger] self.connections@[k]).0.matches(name) {
                            let k = choose|k: int| 0 <= k < self.connections@.len() && (#[trigger] self.connections@[k]).0.matches(name);
                            assert(k != i);
                            self.lemma_link_at(k, name);
                            old(self).lemma_link_at(k, name);
                        } else {
                            assert forall|k: int| 0 <= k < old(self).connections@.len() implies !(#[trigger] old(self).connections@[k]).0.matches(name) by {
                                assert(self.connections@[k].0 == old(self).connections@[k].0);
                            }
                        }
                    }
                }
                return previous;
            }
            i = i + 1;
        }
        proof {
            assert(old(self).link(pointer_name) is None);
        }
        self.connections.push((pointer_name, connection));
        proof {
            let n = old(self).connections@.len() as int;
            assert(self.connections@[n].0.matches(pointer_name));
            self.lemma_link_at(n, pointer_name);
            assert forall|name: PointerName| !name.matches(pointer_name) implies #[trigger] self.link(name) == old(self).link(name) by {
                if exists|k: int| 0 <= k < self.connections@.len() && (#[trigger] self.connections@[k]).0.matches(name) {
                    let k = choose|k: int| 0 <= k < self.connections@.len() && (#[trigger] self.connections@[k]).0.matches(name);
                    assert(k != n);
                    self.lemma_link_at(k, name);
                    old(self).lemma_link_at(k, name);
                } else {
                    assert forall|k: int| 0 <= k < old(self).connections@.len() implies !(#[trigger] old(self).connections@[k]).0.matches(name) by {
                        assert(self.connections@[k] == old(self).connections@[k]);
                    }
                }
            }
        }
        None
    }

    /// The handle that the link `name` leads to, if any.
    pub fn get_pointer(&self, pointer_name: PointerName) -> (r: Option<usize>)
        requires
            self.wf(),
        ensures
            r == self.link(pointer_name),
    {
        let mut i: usize = 0;
        while i < self.connections.len()
            invariant
                self.wf(),
                0 <= i <= self.connections@.len(),
                forall|k: int| 0 <= k < i ==> !(#[trigger] self.connections@[k]).0.matches(pointer_name),
            decreases self.connections@.len() - i,
        {
            if self.connections[i].0.same_as(&pointer_name) {
                proof {
                    self.lemma_link_at(i as int, pointer_name);
                }
                return self.connections[i].1;
            }
            i = i + 1;
        }
        None
    }
}

} // verus!
