//! A first-in first-out queue over the circular queue: values go in on the
//! cursor's left and come out at the cursor, which then moves right.
use vstd::prelude::*;

use super::circular_queue::{at_capacity, CircularQueue, Direction};

verus! {

/// A bounded first-in first-out queue; a bound of zero means unbounded.
pub struct FIFO<T> {
    fifo: CircularQueue<T>,
}

impl<T> View for FIFO<T> {
    type V = Seq<T>;

    /// The values, oldest first.
    closed spec fn view(&self) -> Seq<T> {
        self.fifo@
    }
}

/// The contents after pushing each of `values`, in order, onto `s`.
pub open spec fn push_all<T>(s: Seq<T>, values: Seq<T>) -> Seq<T>
    decreases values.len(),
{
    if values.len() == 0 {
        s
    } else {
        push_all(s, values.drop_last()).push(values.last())
    }
}

/// The values that `k` pops take out of a queue holding `s`, in the order they
/// come out.
pub open spec fn pop_all<T>(s: Seq<T>, k: nat) -> Seq<T>
    decreases k,
{
    if k == 0 || s.len() == 0 {
        Seq::empty()
    } else {
        seq![s[0]].add(pop_all(s.drop_first(), (k - 1) as nat))
    }
}

proof fn lemma_push_all_onto_empty<T>(values: Seq<T>)
    ensures
        push_all(Seq::empty(), values) == values,
    decreases values.len(),
{
    if values.len() > 0 {
        lemma_push_all_onto_empty(values.drop_last());
        assert(values.drop_last().push(values.last()) =~= values);
    }
}

proof fn lemma_pop_everything<T>(s: Seq<T>)
    ensures
        pop_all(s, s.len()) == s,
    decreases s.len(),
{
    if s.len() > 0 {
        lemma_pop_everything(s.drop_first());
        assert(seq![s[0]].add(s.drop_first()) =~= s);
    }
}

/// Values pushed one after another into an empty queue, with no pop between
/// them, come out of as many pops in the order they went in.
pub proof fn lemma_fifo_order<T>(values: Seq<T>)
    ensures
        pop_all(push_all(Seq::empty(), values), values.len()) == values,
{
    lemma_push_all_onto_empty(values);
    lemma_pop_everything(values);
}

impl<T> FIFO<T> {
    pub closed spec fn wf(&self) -> bool {
        self.fifo.wf()
    }

    /// The capacity bound; zero means unbounded.
    pub closed spec fn bound(&self) -> nat {
        self.fifo.bound()
    }

    pub fn new(max_size: usize) -> (q: Self)
        ensures
            q.wf(),
            q@ == Seq::<T>::empty(),
            q.bound() == max_size,
    {
        FIFO { fifo: CircularQueue::new(max_size) }
    }

    pub fn len(&self) -> (r: usize)
        requires
            self.wf(),
        ensures
            r == self@.len(),
    {
        self.fifo.len()
    }

    pub fn is_empty(&self) -> (r: bool)
        requires
            self.wf(),
        ensures
            r == (self@.len() == 0),
    {
        self.fifo.is_empty()
    }

    pub fn is_full(&self) -> (r: bool)
        requires
            self.wf(),
        ensures
            r == at_capacity(self@.len(), self.bound()),
    {
        self.fifo.is_full()
    }

    pub fn max_size(&self) -> (r: usize)
        ensures
            r == self.bound(),
    {
        self.fifo.max_size()
    }

    /// Replaces the bound, unless it is below the number of values held.
    pub fn set_max_size(&mut self, max_size: usize) -> (r: Result<(), &'static str>)
        requires
            old(self).wf(),
        ensures
            final(self).wf(),
            final(self)@ == old(self)@,
            old(self)@.len() > max_size ==> r == Err::<(), &'static str>(
                "New max size is less than current size",
            ) && final(self).bound() == old(self).bound(),
            old(self)@.len() <= max_size ==> r == Ok::<(), &'static str>(()) && final(self).bound()
                == max_size,
    {
        self.fifo.set_max_size(max_size)
    }

    /// Appends `value` as the newest value; a full queue is left unchanged and
    /// the call fails.
    pub fn push(&mut self, value: T) -> (r: Result<(), &'static str>)
        requires
            old(self).wf(),
            old(self)@.len() < usize::MAX,
        ensures
            final(self).wf(),
            final(self).bound() == old(self).bound(),
            at_capacity(old(self)@.len(), old(self).bound()) ==> r == Err::<(), &'static str>(
                "Queue is full",
            ) && final(self)@ == old(self)@,
            !at_capacity(old(self)@.len(), old(self).bound()) ==> r == Ok::<(), &'static str>(())
                && final(self)@ == old(self)@.push(value),
    {
        let r = self.fifo.insert(value, Direction::Left);
        proof {
            if old(self)@.len() == 0 {
                assert(seq![value] =~= old(self)@.push(value));
            }
        }
        r
    }

    /// Takes out the oldest value; `None` when the queue is empty.
    pub fn pop(&mut self) -> (r: Option<T>)
        requires
            old(self).wf(),
        ensures
            final(self).wf(),
            final(self).bound() == old(self).bound(),
            old(self)@.len() == 0 ==> r is None && final(self)@ == old(self)@,
            old(self)@.len() > 0 ==> r == Some(old(self)@[0]) && final(self)@ == old(
                self,
            )@.drop_first(),
    {
        let r = self.fifo.remove(Direction::Right);
        proof {
            if old(self)@.len() == 1 {
                assert(old(self)@.drop_first() =~= Seq::<T>::empty());
            }
        }
        r
    }
}

} // verus!
