//! A double-ended bounded queue kept as a ring of vertexes.
//!
//! The ring is anchored by a single cursor vertex. Values are inserted next
//! to the cursor on either side and removed at the cursor, after which the
//! cursor moves to one of its neighbours. With one vertex the ring has no
//! links at all; with two, each vertex links to the other on both sides; from
//! three on, the `Right` links form one cycle and the `Left` links its
//! reverse.
use vstd::prelude::*;

use super::arena::Arena;
use super::vertex::{PointerName, Vertex};

verus! {

/// A side of the cursor.
#[derive(Clone, Copy, Debug, PartialEq, Eq, Structural)]
pub enum Direction {
    Left,
    Right,
}

impl From<Direction> for PointerName {
    fn from(side: Direction) -> (r: PointerName) {
        match side {
            Direction::Left => PointerName::Left,
            Direction::Right => PointerName::Right,
        }
    }
}

impl vstd::std_specs::convert::FromSpecImpl<Direction> for PointerName {
    open spec fn obeys_from_spec() -> bool {
        true
    }

    open spec fn from_spec(side: Direction) -> PointerName {
        link_name(side)
    }
}

/// The link that leads to the given side.
pub open spec fn link_name(side: Direction) -> PointerName {
    match side {
        Direction::Left => PointerName::Left,
        Direction::Right => PointerName::Right,
    }
}

/// Index after `i` in a ring of `n` positions.
pub open spec fn next_index(i: int, n: int) -> int {
    if i + 1 == n {
        0
    } else {
        i + 1
    }
}

/// Index before `i` in a ring of `n` positions.
pub open spec fn prev_index(i: int, n: int) -> int {
    if i == 0 {
        n - 1
    } else {
        i - 1
    }
}

/// True when a queue bounded by `bound` (zero: unbounded) and holding `len`
/// values takes no more.
pub open spec fn at_capacity(len: nat, bound: nat) -> bool {
    bound != 0 && len == bound
}

/// The contents, read rightwards from the cursor, after `value` is inserted
/// next to the cursor on `side`.
pub open spec fn inserted<T>(s: Seq<T>, value: T, side: Direction) -> Seq<T> {
    if s.len() == 0 {
        seq![value]
    } else {
        match side {
            Direction::Left => s.push(value),
            Direction::Right => s.insert(1, value),
        }
    }
}

/// `s` with its last element moved to the front.
pub open spec fn rotated<A>(s: Seq<A>) -> Seq<A> {
    seq![s.last()].add(s.drop_last())
}

/// The contents after the cursor's value is removed and the cursor moves to
/// `side`.
pub open spec fn removed<T>(s: Seq<T>, side: Direction) -> Seq<T> {
    if s.len() <= 1 {
        Seq::empty()
    } else {
        match side {
            Direction::Right => s.subrange(1, s.len() as int),
            Direction::Left => rotated(s.subrange(1, s.len() as int)),
        }
    }
}

/// The contents after each `(value, side)` of `items` is inserted, in order,
/// into an empty queue that accepts them all.
pub open spec fn filled<T>(items: Seq<(T, Direction)>) -> Seq<T>
    decreases items.len(),
{
    if items.len() == 0 {
        Seq::empty()
    } else {
        inserted(filled(items.drop_last()), items.last().0, items.last().1)
    }
}

proof fn lemma_filled_len<T>(items: Seq<(T, Direction)>)
    ensures
        filled(items).len() == items.len(),
    decreases items.len(),
{
    if items.len() > 0 {
        lemma_filled_len(items.drop_last());
    }
}

/// In a queue bounded by `n > 0` and started empty, whatever the values and
/// sides: while fewer than `n` insertions were made the next one is accepted,
/// and after `n` of them the next one is refused.
pub proof fn lemma_capacity<T>(n: nat, items: Seq<(T, Direction)>)
    requires
        n > 0,
        items.len() <= n,
    ensures
        filled(items).len() == items.len(),
        items.len() < n ==> !at_capacity(filled(items).len(), n),
        items.len() == n ==> at_capacity(filled(items).len(), n),
{
    lemma_filled_len(items);
}

/// In an unbounded queue started empty, no insertion is refused, however many
/// were made before.
pub proof fn lemma_unbounded<T>(items: Seq<(T, Direction)>)
    ensures
        filled(items).len() == items.len(),
        !at_capacity(filled(items).len(), 0),
{
    lemma_filled_len(items);
}

/// A live vertex of the ring stored under handle `h`.
spec fn ring_vertex<T>(v: Vertex<T>, h: usize) -> bool {
    &&& v.wf()
    &&& v.value() is Some
    &&& v.self_handle() == Some(h)
}

/// The vertexes `m` are exactly those of `r`, in ring order from the cursor,
/// each linked as the ring's shape asks.
spec fn ring_shape<T>(m: Map<usize, Vertex<T>>, r: Seq<usize>) -> bool {
    &&& r.no_duplicates()
    &&& forall|h: usize| m.contains_key(h) <==> r.contains(h)
    &&& forall|i: int|
        0 <= i < r.len() ==> m.contains_key(#[trigger] r[i]) && ring_vertex(m[r[i]], r[i])
    &&& r.len() == 1 ==> m[r[0]].link(PointerName::Left) is None && m[r[0]].link(
        PointerName::Right,
    ) is None
    &&& r.len() >= 2 ==> forall|i: int|
        0 <= i < r.len() ==> m[#[trigger] r[i]].link(PointerName::Right) == Some(
            r[next_index(i, r.len() as int)],
        ) && m[r[i]].link(PointerName::Left) == Some(r[prev_index(i, r.len() as int)])
}

/// Points the link `name` of vertex `from` at `to`, leaving every other
/// vertex and every other link as it was.
fn relink<T>(nodes: &mut Arena<Vertex<T>>, from: usize, name: PointerName, to: Option<usize>)
    requires
        old(nodes).wf(),
        old(nodes)@.contains_key(from),
        old(nodes)@[from].wf(),
    ensures
        final(nodes).wf(),
        final(nodes)@ == old(nodes)@.insert(from, final(nodes)@[from]),
        final(nodes)@[from].wf(),
        final(nodes)@[from].link(name) == to,
        forall|other: PointerName|
            !other.matches(name) ==> #[trigger] final(nodes)@[from].link(other) == old(
                nodes,
            )@[from].link(other),
        final(nodes)@[from].value() == old(nodes)@[from].value(),
        final(nodes)@[from].self_handle() == old(nodes)@[from].self_handle(),
        forall|g: usize| final(nodes).count(g) == old(nodes).count(g),
{
    nodes.get_mut(from).set_connection(name, to);
}

/// Every handle of the ring is live.
proof fn lemma_members<T>(m: Map<usize, Vertex<T>>, r: Seq<usize>, i: int)
    requires
        ring_shape(m, r),
        0 <= i < r.len(),
    ensures
        m.contains_key(r[i]),
        ring_vertex(m[r[i]], r[i]),
{
}

/// A fresh vertex alone forms a ring.
proof fn lemma_single_shape<T>(m0: Map<usize, Vertex<T>>, m: Map<usize, Vertex<T>>, h: usize)
    requires
        ring_shape(m0, Seq::empty()),
        m == m0.insert(h, m[h]),
        ring_vertex(m[h], h),
        m[h].unlinked(),
    ensures
        ring_shape(m, Seq::empty().push(h)),
{
    let r = Seq::<usize>::empty().push(h);
    assert(m[h].link(PointerName::Left) is None);
    assert(m[h].link(PointerName::Right) is None);
    assert forall|g: usize| m.contains_key(g) <==> r.contains(g) by {
        if g == h {
            assert(r[0] == h);
        } else if r.contains(g) {
            let k = choose|k: int| 0 <= k < r.len() && r[k] == g;
            assert(k == 0);
        } else {
            assert(!Seq::<usize>::empty().contains(g));
        }
    }
}

/// Splicing `h` between the cursor and its left neighbour puts it at the end
/// of the ring order.
proof fn lemma_left_shape<T>(
    m0: Map<usize, Vertex<T>>,
    r0: Seq<usize>,
    m: Map<usize, Vertex<T>>,
    h: usize,
)
    requires
        ring_shape(m0, r0),
        r0.len() >= 1,
        !m0.contains_key(h),
        forall|g: usize| m.contains_key(g) <==> (m0.contains_key(g) || g == h),
        forall|g: usize| g != h && g != r0[0] && g != r0.last() && m0.contains_key(g) ==> m[g] == m0[g],
        ring_vertex(m[h], h),
        ring_vertex(m[r0[0]], r0[0]),
        ring_vertex(m[r0.last()], r0.last()),
        m[h].link(PointerName::Right) == Some(r0[0]),
        m[h].link(PointerName::Left) == Some(r0.last()),
        m[r0.last()].link(PointerName::Right) == Some(h),
        m[r0[0]].link(PointerName::Left) == Some(h),
        r0.len() >= 2 ==> m[r0[0]].link(PointerName::Right) == m0[r0[0]].link(PointerName::Right),
        r0.len() >= 2 ==> m[r0.last()].link(PointerName::Left) == m0[r0.last()].link(
            PointerName::Left,
        ),
    ensures
        ring_shape(m, r0.push(h)),
{
    let r = r0.push(h);
    let n = r0.len() as int;
    let nn = r.len() as int;
    assert(r0.contains(r0[0]));
    assert forall|i: int| 0 <= i < nn implies m.contains_key(#[trigger] r[i]) && ring_vertex(
        m[r[i]],
        r[i],
    ) && m[r[i]].link(PointerName::Right) == Some(r[next_index(i, nn)]) && m[r[i]].link(
        PointerName::Left,
    ) == Some(r[prev_index(i, nn)]) by {
        if i < n {
            lemma_members(m0, r0, i);
            if 0 < i < n - 1 {
                assert(r0[i] != r0[0]);
                assert(r0[i] != r0[n - 1]);
            }
        }
    }
    assert forall|g: usize| m.contains_key(g) <==> r.contains(g) by {
        if g == h {
            assert(r[nn - 1] == h);
        } else if r0.contains(g) {
            let k = choose|k: int| 0 <= k < r0.len() && r0[k] == g;
            assert(r[k] == g);
        } else if r.contains(g) {
            let k = choose|k: int| 0 <= k < r.len() && r[k] == g;
            assert(r0[k] == g);
        }
    }
    assert forall|i: int, j: int| 0 <= i < j < nn implies r[i] != r[j] by {
        if j < nn - 1 {
            assert(r0[i] != r0[j]);
        } else {
            lemma_members(m0, r0, i);
        }
    }
}

/// Splicing `h` between the cursor and its right neighbour puts it right
/// after the cursor in the ring order.
proof fn lemma_right_shape<T>(
    m0: Map<usize, Vertex<T>>,
    r0: Seq<usize>,
    m: Map<usize, Vertex<T>>,
    h: usize,
)
    requires
        ring_shape(m0, r0),
        r0.len() >= 2,
        !m0.contains_key(h),
        forall|g: usize| m.contains_key(g) <==> (m0.contains_key(g) || g == h),
        forall|g: usize| g != h && g != r0[0] && g != r0[1] && m0.contains_key(g) ==> m[g] == m0[g],
        ring_vertex(m[h], h),
        ring_vertex(m[r0[0]], r0[0]),
        ring_vertex(m[r0[1]], r0[1]),
        m[h].link(PointerName::Left) == Some(r0[0]),
        m[h].link(PointerName::Right) == Some(r0[1]),
        m[r0[1]].link(PointerName::Left) == Some(h),
        m[r0[0]].link(PointerName::Right) == Some(h),
        m[r0[0]].link(PointerName::Left) == m0[r0[0]].link(PointerName::Left),
        m[r0[1]].link(PointerName::Right) == m0[r0[1]].link(PointerName::Right),
    ensures
        ring_shape(m, r0.insert(1, h)),
{
    let r = r0.insert(1, h);
    let n = r0.len() as int;
    let nn = r.len() as int;
    assert forall|i: int| 0 <= i < nn implies m.contains_key(#[trigger] r[i]) && ring_vertex(
        m[r[i]],
        r[i],
    ) && m[r[i]].link(PointerName::Right) == Some(r[next_index(i, nn)]) && m[r[i]].link(
        PointerName::Left,
    ) == Some(r[prev_index(i, nn)]) by {
        lemma_members(m0, r0, 0);
        if i >= 2 {
            assert(r[i] == r0[i - 1]);
            lemma_members(m0, r0, i - 1);
            if i >= 3 {
                assert(r0[i - 1] != r0[0]);
                assert(r0[i - 1] != r0[1]);
            }
        }
    }
    assert forall|g: usize| m.contains_key(g) <==> r.contains(g) by {
        if g == h {
            assert(r[1] == h);
        } else if r0.contains(g) {
            let k = choose|k: int| 0 <= k < r0.len() && r0[k] == g;
            if k == 0 {
                assert(r[0] == g);
            } else {
                assert(r[k + 1] == g);
            }
        } else if r.contains(g) {
            let k = choose|k: int| 0 <= k < r.len() && r[k] == g;
            if k == 0 {
                assert(r0[0] == g);
            } else {
                assert(r0[k - 1] == g);
            }
        }
    }
    assert forall|i: int, j: int| 0 <= i < j < nn implies r[i] != r[j] by {
        if i != 1 && j != 1 {
            let a = if i == 0 {
                0
            } else {
                i - 1
            };
            assert(r0[a] != r0[j - 1]);
        } else if i == 1 {
            lemma_members(m0, r0, j - 1);
        } else {
            lemma_members(m0, r0, i);
        }
    }
}

/// Dropping the cursor from a ring of two leaves the other vertex alone,
/// with its links cleared.
proof fn lemma_pair_shape<T>(m0: Map<usize, Vertex<T>>, r0: Seq<usize>, m: Map<usize, Vertex<T>>)
    requires
        ring_shape(m0, r0),
        r0.len() == 2,
        m.dom() == m0.dom(),
        forall|g: usize| g != r0[1] && m0.contains_key(g) ==> m[g] == m0[g],
        ring_vertex(m[r0[1]], r0[1]),
        m[r0[1]].link(PointerName::Left) is None,
        m[r0[1]].link(PointerName::Right) is None,
    ensures
        ring_shape(m.remove(r0[0]), Seq::empty().push(r0[1])),
{
    let r = Seq::<usize>::empty().push(r0[1]);
    let mm = m.remove(r0[0]);
    lemma_members(m0, r0, 0);
    lemma_members(m0, r0, 1);
    assert(r[0] == r0[1]);
    assert forall|g: usize| mm.contains_key(g) <==> r.contains(g) by {
        if mm.contains_key(g) {
            assert(m0.contains_key(g));
            assert(r0.contains(g));
            let k = choose|k: int| 0 <= k < r0.len() && r0[k] == g;
            assert(k == 1);
        }
        if r.contains(g) {
            let k = choose|k: int| 0 <= k < r.len() && r[k] == g;
            assert(k == 0);
        }
    }
}

/// Dropping the cursor from a ring of three or more, once its neighbours are
/// linked to each other, leaves the ring that starts at its right neighbour.
proof fn lemma_closed_shape<T>(m0: Map<usize, Vertex<T>>, r0: Seq<usize>, m: Map<usize, Vertex<T>>)
    requires
        ring_shape(m0, r0),
        r0.len() >= 3,
        m.dom() == m0.dom(),
        forall|g: usize| g != r0[1] && g != r0.last() && m0.contains_key(g) ==> m[g] == m0[g],
        ring_vertex(m[r0[1]], r0[1]),
        ring_vertex(m[r0.last()], r0.last()),
        m[r0.last()].link(PointerName::Right) == Some(r0[1]),
        m[r0[1]].link(PointerName::Left) == Some(r0.last()),
        m[r0.last()].link(PointerName::Left) == m0[r0.last()].link(PointerName::Left),
        m[r0[1]].link(PointerName::Right) == m0[r0[1]].link(PointerName::Right),
    ensures
        ring_shape(m.remove(r0[0]), r0.subrange(1, r0.len() as int)),
{
    let n = r0.len() as int;
    let r = r0.subrange(1, n);
    let mm = m.remove(r0[0]);
    assert forall|i: int| 0 <= i < r.len() implies mm.contains_key(#[trigger] r[i]) && ring_vertex(
        mm[r[i]],
        r[i],
    ) && mm[r[i]].link(PointerName::Right) == Some(r[next_index(i, n - 1)]) && mm[r[i]].link(
        PointerName::Left,
    ) == Some(r[prev_index(i, n - 1)]) by {
        lemma_members(m0, r0, i + 1);
        assert(r0[i + 1] != r0[0]);
        if 0 < i < n - 2 {
            assert(r0[i + 1] != r0[1]);
            assert(r0[i + 1] != r0[n - 1]);
        }
    }
    assert forall|g: usize| mm.contains_key(g) <==> r.contains(g) by {
        if mm.contains_key(g) {
            assert(m0.contains_key(g));
            assert(r0.contains(g));
            let k = choose|k: int| 0 <= k < r0.len() && r0[k] == g;
            assert(k != 0);
            assert(r[k - 1] == g);
        }
        if r.contains(g) {
            let k = choose|k: int| 0 <= k < r.len() && r[k] == g;
            lemma_members(m0, r0, k + 1);
            assert(r0[k + 1] != r0[0]);
        }
    }
    assert forall|i: int, j: int| 0 <= i < j < r.len() implies r[i] != r[j] by {
        assert(r0[i + 1] != r0[j + 1]);
    }
}

/// Dropping the only vertex leaves no ring.
proof fn lemma_last_shape<T>(m0: Map<usize, Vertex<T>>, r0: Seq<usize>)
    requires
        ring_shape(m0, r0),
        r0.len() == 1,
    ensures
        ring_shape(m0.remove(r0[0]), Seq::empty()),
{
    let mm = m0.remove(r0[0]);
    assert forall|g: usize| mm.contains_key(g) <==> Seq::<usize>::empty().contains(g) by {
        if mm.contains_key(g) {
            assert(m0.contains_key(g));
            assert(r0.contains(g));
            let k = choose|k: int| 0 <= k < r0.len() && r0[k] == g;
            assert(k == 0);
        }
    }
}

/// Starting the ring order one vertex earlier keeps the ring's shape.
proof fn lemma_rotated_shape<T>(m: Map<usize, Vertex<T>>, s: Seq<usize>)
    requires
        ring_shape(m, s),
        s.len() >= 1,
    ensures
        ring_shape(m, rotated(s)),
{
    let n = s.len() as int;
    let r = rotated(s);
    assert forall|i: int| 0 <= i < n implies #[trigger] r[i] == s[prev_index(i, n)] by {}
    assert forall|i: int| 0 <= i < n implies m.contains_key(#[trigger] r[i]) && ring_vertex(
        m[r[i]],
        r[i],
    ) && (n >= 2 ==> m[r[i]].link(PointerName::Right) == Some(r[next_index(i, n)]) && m[r[i]].link(
        PointerName::Left,
    ) == Some(r[prev_index(i, n)])) by {
        lemma_members(m, s, prev_index(i, n));
        assert(r[next_index(i, n)] == s[prev_index(next_index(i, n), n)]);
        assert(r[prev_index(i, n)] == s[prev_index(prev_index(i, n), n)]);
    }
    assert forall|g: usize| m.contains_key(g) <==> r.contains(g) by {
        if s.contains(g) {
            let k = choose|k: int| 0 <= k < s.len() && s[k] == g;
            assert(r[next_index(k, n)] == g);
        }
        if r.contains(g) {
            let k = choose|k: int| 0 <= k < r.len() && r[k] == g;
            assert(s[prev_index(k, n)] == g);
        }
    }
    assert forall|i: int, j: int| 0 <= i < j < n implies r[i] != r[j] by {
        assert(s[prev_index(i, n)] != s[prev_index(j, n)]);
    }
}

/// A double-ended queue over a ring of vertexes.
pub struct CircularQueue<T> {
    /// Owns the vertexes of the ring, one handle each.
    nodes: Arena<Vertex<T>>,
    /// The anchor of the ring; `None` exactly when the queue is empty.
    cursor: Option<usize>,
    size: usize,
    /// Zero means unbounded.
    max_size: usize,
    /// The ring's handles, from the cursor rightwards.
    ring: Ghost<Seq<usize>>,
}

impl<T> View for CircularQueue<T> {
    type V = Seq<T>;

    /// The values, starting at the cursor and following `Right` links.
    closed spec fn view(&self) -> Seq<T> {
        Seq::new(self.ring@.len(), |i: int| self.nodes@[self.ring@[i]].value()->Some_0)
    }
}

impl<T> CircularQueue<T> {
    /// The capacity bound; zero means unbounded.
    pub closed spec fn bound(&self) -> nat {
        self.max_size as nat
    }

    /// The handle of the cursor vertex, absent exactly when the queue is empty.
    pub closed spec fn cursor_handle(&self) -> Option<usize> {
        self.cursor
    }

    /// The handles of the vertexes that the queue holds.
    pub closed spec fn live(&self) -> Set<usize> {
        self.nodes@.dom()
    }

    /// The number of owning handles to vertex `h` that are outstanding.
    pub closed spec fn handle_count(&self, h: usize) -> nat {
        self.nodes.count(h)
    }

    pub closed spec fn wf(&self) -> bool {
        &&& self.nodes.wf()
        &&& ring_shape(self.nodes@, self.ring@)
        &&& self.ring@.len() == self.size as int
        &&& self.ring@.len() == 0 ==> self.cursor is None
        &&& self.ring@.len() > 0 ==> self.cursor == Some(self.ring@[0])
        &&& forall|i: int| 0 <= i < self.ring@.len() ==> self.nodes.count(#[trigger] self.ring@[i]) == 1
        &&& self.max_size == 0 || self.size <= self.max_size
    }

    /// An empty queue holding at most `max_size` values (`0`: no bound).
    pub fn new(max_size: usize) -> (q: Self)
        ensures
            q.wf(),
            q@ == Seq::<T>::empty(),
            q.bound() == max_size,
    {
        let q = CircularQueue {
            nodes: Arena::new(),
            cursor: None,
            size: 0,
            max_size,
            ring: Ghost(Seq::empty()),
        };
        assert(q@ =~= Seq::<T>::empty());
        q
    }

    pub fn max_size(&self) -> (r: usize)
        ensures
            r == self.bound(),
    {
        self.max_size
    }

    /// Replaces the bound, unless it is below the number of values held.
    pub fn set_max_size(&mut self, max_size: usize) -> (r: Result<(), &'static str>)
        requires
            old(self).wf(),
        ensures
            final(self).wf(),
            final(self)@ == old(self)@,
            old(self)@.len() > max_size ==> r == Err::<(), &'static str>(
                "New max size is less than current size",
            ) && final(self).bound() == old(self).bound(),
            old(self)@.len() <= max_size ==> r == Ok::<(), &'static str>(()) && final(self).bound()
                == max_size,
    {
        if self.len() > max_size {
            Err("New max size is less than current size")
        } else {
            self.max_size = max_size;
            Ok(())
        }
    }

    pub fn is_full(&self) -> (r: bool)
        requires
            self.wf(),
        ensures
            r == at_capacity(self@.len(), self.bound()),
    {
        if self.max_size == 0 {
            return false;
        }
        self.size == self.max_size
    }

    pub fn is_empty(&self) -> (r: bool)
        requires
            self.wf(),
        ensures
            r == (self@.len() == 0),
    {
        self.size == 0
    }

    pub fn len(&self) -> (r: usize)
        requires
            self.wf(),
        ensures
            r == self@.len(),
    {
        self.size
    }

    /// The handle of the cursor vertex; `None` when the queue is empty.
    pub fn cursor(&self) -> (r: Option<usize>)
        ensures
            r == self.cursor_handle(),
    {
        self.cursor
    }

    /// The vertex reached from the cursor by following `side` links `k` times.
    pub closed spec fn walk(&self, side: Direction, k: nat) -> Option<usize>
        decreases k,
    {
        if k == 0 {
            self.cursor
        } else {
            match self.walk(side, (k - 1) as nat) {
                Some(h) => if self.nodes@.contains_key(h) {
                    self.nodes@[h].link(link_name(side))
                } else {
                    None
                },
                None => None,
            }
        }
    }

    proof fn lemma_walk_right(&self, k: nat)
        requires
            self.wf(),
            self@.len() >= 2,
            k <= self@.len(),
        ensures
            self.walk(Direction::Right, k) == Some(
                self.ring@[if k == self@.len() {
                    0
                } else {
                    k as int
                }],
            ),
        decreases k,
    {
        if k > 0 {
            self.lemma_walk_right((k - 1) as nat);
            lemma_members(self.nodes@, self.ring@, k - 1);
        }
    }

    proof fn lemma_walk_left(&self, k: nat)
        requires
            self.wf(),
            self@.len() >= 2,
            k <= self@.len(),
        ensures
            self.walk(Direction::Left, k) == Some(
                self.ring@[if k == 0 {
                    0
                } else {
                    self@.len() - k
                }],
            ),
        decreases k,
    {
        if k > 0 {
            self.lemma_walk_left((k - 1) as nat);
            let j = if k == 1 {
                0
            } else {
                self@.len() - k + 1
            };
            lemma_members(self.nodes@, self.ring@, j);
        }
    }

    /// From three values on, following `Right` links as many times as there
    /// are values leads from the cursor back to it through every vertex once,
    /// and following `Left` links does the same through the same vertexes in
    /// reverse order.
    pub proof fn lemma_ring_integrity(&self)
        requires
            self.wf(),
            self@.len() >= 3,
        ensures
            self.walk(Direction::Right, self@.len()) == self.cursor_handle(),
            self.walk(Direction::Left, self@.len()) == self.cursor_handle(),
            forall|j: nat, k: nat|
                j < k < self@.len() ==> #[trigger] self.walk(Direction::Right, j)
                    != #[trigger] self.walk(Direction::Right, k),
            forall|k: nat|
                k <= self@.len() ==> #[trigger] self.walk(Direction::Right, k) == self.walk(
                    Direction::Left,
                    (self@.len() - k) as nat,
                ),
    {
        let n = self@.len();
        self.lemma_walk_right(n);
        self.lemma_walk_left(n);
        assert forall|j: nat, k: nat| j < k < n implies #[trigger] self.walk(Direction::Right, j)
            != #[trigger] self.walk(Direction::Right, k) by {
            self.lemma_walk_right(j);
            self.lemma_walk_right(k);
        }
        assert forall|k: nat| k <= n implies #[trigger] self.walk(Direction::Right, k) == self.walk(
            Direction::Left,
            (n - k) as nat,
        ) by {
            self.lemma_walk_right(k);
            self.lemma_walk_left((n - k) as nat);
        }
    }

    /// Once every value has been removed the queue holds no vertex and no
    /// cursor.
    pub proof fn lemma_no_leak(&self)
        requires
            self.wf(),
            self@.len() == 0,
        ensures
            self.live() == Set::<usize>::empty(),
            self.cursor_handle() is None,
            forall|h: usize| #[trigger] self.handle_count(h) == 0,
    {
        assert forall|h: usize| !self.nodes@.contains_key(h) by {
            if self.nodes@.contains_key(h) {
                assert(self.ring@.contains(h));
            }
        }
        assert(self.live() =~= Set::<usize>::empty());
        assert forall|h: usize| #[trigger] self.handle_count(h) == 0 by {
            self.nodes.lemma_live_iff_counted(h);
        }
    }

    /// Every vertex that the queue holds is held by the ring alone.
    pub proof fn lemma_held_once(&self, h: usize)
        requires
            self.wf(),
            self.live().contains(h),
        ensures
            self.handle_count(h) == 1,
    {
        assert(self.ring@.contains(h));
    }

    /// Inserts `value` next to the cursor on `side`; the cursor stays where it
    /// is. A full queue is left unchanged and the call fails.
    pub fn insert(&mut self, value: T, side: Direction) -> (r: Result<(), &'static str>)
        requires
            old(self).wf(),
            old(self)@.len() < usize::MAX,
        ensures
            final(self).wf(),
            final(self).bound() == old(self).bound(),
            at_capacity(old(self)@.len(), old(self).bound()) ==> r == Err::<(), &'static str>(
                "Queue is full",
            ) && final(self)@ == old(self)@,
            !at_capacity(old(self)@.len(), old(self).bound()) ==> r == Ok::<(), &'static str>(())
                && final(self)@ == inserted(old(self)@, value, side),
            old(self)@.len() > 0 ==> final(self).cursor_handle() == old(self).cursor_handle(),
    {
        if self.is_full() {
            return Err("Queue is full");
        }
        let ghost r0 = self.ring@;
        let ghost m0 = self.nodes@;
        let n = self.size;
        let h = Vertex::new(&mut self.nodes, value);
        if n == 0 {
            self.cursor = Some(h);
            self.ring = Ghost(Seq::empty().push(h));
            proof {
                assert(r0 =~= Seq::<usize>::empty());
                lemma_single_shape(m0, self.nodes@, h);
            }
        } else if n == 1 || side == Direction::Left {
            let c = self.cursor.unwrap();
            let l = self.nodes.get(c).get_pointer(PointerName::Left).unwrap_or(c);
            relink(&mut self.nodes, h, PointerName::Right, Some(c));
            relink(&mut self.nodes, h, PointerName::Left, Some(l));
            relink(&mut self.nodes, l, PointerName::Right, Some(h));
            relink(&mut self.nodes, c, PointerName::Left, Some(h));
            self.ring = Ghost(r0.push(h));
            proof {
                lemma_left_shape(m0, r0, self.nodes@, h);
            }
        } else {
            let c = self.cursor.unwrap();
            let rt = self.nodes.get(c).get_pointer(PointerName::Right).unwrap();
            relink(&mut self.nodes, h, PointerName::Left, Some(c));
            relink(&mut self.nodes, h, PointerName::Right, Some(rt));
            relink(&mut self.nodes, rt, PointerName::Left, Some(h));
            relink(&mut self.nodes, c, PointerName::Right, Some(h));
            self.ring = Ghost(r0.insert(1, h));
            proof {
                lemma_right_shape(m0, r0, self.nodes@, h);
            }
        }
        self.size = n + 1;
        proof {
            assert forall|i: int| 0 <= i < r0.len() implies self.nodes@[#[trigger] r0[i]].value()
                == m0[r0[i]].value() by {
                assert(m0.contains_key(r0[i]));
            }
            assert(self@ =~= inserted(old(self)@, value, side));
        }
        Ok(())
    }

    /// Takes the cursor's value out and moves the cursor to its neighbour on
    /// `side_to_move`. An empty queue gives `None` and stays as it is.
    pub fn remove(&mut self, side_to_move: Direction) -> (r: Option<T>)
        requires
            old(self).wf(),
        ensures
            final(self).wf(),
            final(self).bound() == old(self).bound(),
            old(self)@.len() == 0 ==> r is None && final(self)@ == old(self)@,
            old(self)@.len() > 0 ==> r == Some(old(self)@[0]) && final(self)@ == removed(
                old(self)@,
                side_to_move,
            ),
            old(self)@.len() > 0 ==> final(self).live() == old(self).live().remove(
                old(self).cursor_handle()->Some_0,
            ),
            old(self)@.len() >= 2 ==> final(self).cursor_handle() == old(self).walk(
                side_to_move,
                1,
            ),
    {
        if self.size == 0 {
            return None;
        }
        let ghost r0 = self.ring@;
        let ghost m0 = self.nodes@;
        let n = self.size;
        let c = self.cursor.take().unwrap();
        proof {
            lemma_members(m0, r0, 0);
            lemma_members(m0, r0, n - 1);
            if n >= 2 {
                lemma_members(m0, r0, 1);
                assert(old(self).walk(side_to_move, 0) == Some(c));
                assert(old(self).walk(side_to_move, 1) == m0[c].link(link_name(side_to_move)));
            }
        }
        if n == 2 {
            let other = self.nodes.get(c).get_pointer(PointerName::from(side_to_move)).unwrap();
            relink(&mut self.nodes, other, PointerName::Left, None);
            relink(&mut self.nodes, other, PointerName::Right, None);
            self.cursor = Some(other);
            self.ring = Ghost(Seq::empty().push(other));
            proof {
                assert(self.nodes@.dom() =~= m0.dom());
                lemma_pair_shape(m0, r0, self.nodes@);
            }
        } else if n > 2 {
            let l = self.nodes.get(c).get_pointer(PointerName::Left).unwrap();
            let rt = self.nodes.get(c).get_pointer(PointerName::Right).unwrap();
            relink(&mut self.nodes, l, PointerName::Right, Some(rt));
            relink(&mut self.nodes, rt, PointerName::Left, Some(l));
            proof {
                assert(self.nodes@.dom() =~= m0.dom());
                lemma_closed_shape(m0, r0, self.nodes@);
            }
            match side_to_move {
                Direction::Left => {
                    self.cursor = Some(l);
                    self.ring = Ghost(rotated(r0.subrange(1, n as int)));
                    proof {
                        lemma_rotated_shape(self.nodes@.remove(c), r0.subrange(1, n as int));
                    }
                },
                Direction::Right => {
                    self.cursor = Some(rt);
                    self.ring = Ghost(r0.subrange(1, n as int));
                },
            }
        } else {
            self.ring = Ghost(Seq::empty());
            proof {
                lemma_last_shape(m0, r0);
            }
        }
        proof {
            assert forall|g: usize| #[trigger] m0.contains_key(g) implies self.nodes@.contains_key(g)
                && self.nodes@[g].value() == m0[g].value() && self.nodes.count(g) == 1 by {
                assert(r0.contains(g));
                let k = choose|k: int| 0 <= k < r0.len() && r0[k] == g;
                lemma_members(m0, r0, k);
            }
            assert(self.nodes@.dom() =~= m0.dom());
        }
        self.size = n - 1;
        let node = self.nodes.release(c);
        let mut node = node.unwrap();
        let r = node.clear();
        proof {
            assert(self.nodes@.dom() =~= m0.dom().remove(c));
            let s = old(self)@;
            assert forall|i: int| 0 <= i < r0.len() implies m0[#[trigger] r0[i]].value() == Some(
                s[i],
            ) by {
                lemma_members(m0, r0, i);
            }
            assert(self@ =~= removed(s, side_to_move));
        }
        r
    }
}

} // verus!
