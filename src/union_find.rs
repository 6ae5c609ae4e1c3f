//! Disjoint sets over the points `[0, n)` that track the size of every
//! component and the number of point pairs joined so far.
//!
//! Every slot holds either a parent link or, at a root, the component's size,
//! told apart by the top bit. Parents always have larger indices than their
//! children, so a root is the largest point of its component.
use smallvec::SmallVec;
use vstd::prelude::*;

use crate::partition::{
    count, lemma_count_pos, lemma_count_merge, lemma_count_two_le, lemma_same_pairs_le,
    lemma_same_pairs_merge, lemma_singletons, merge_labels, pairs, same_pairs, singletons,
};

verus! {

/// A short queue of point indices, held in a `SmallVec` that keeps up to
/// four of them inline.
#[verifier::external_body]
pub struct PointQueue {
    items: SmallVec<[u32; 4]>,
}

/// The items of a queue, in order.
pub uninterp spec fn queue_items(q: PointQueue) -> Seq<u32>;

/// Relies on `SmallVec::new`: a vector with no items.
#[verifier::external_body]
fn queue_new() -> (q: PointQueue)
    ensures
        queue_items(q) == Seq::<u32>::empty(),
{
    PointQueue { items: SmallVec::new() }
}

/// Relies on `SmallVec::push`: appends `x` after the present items.
#[verifier::external_body]
fn queue_push(q: &mut PointQueue, x: u32)
    requires
        queue_items(*old(q)).len() < usize::MAX,
    ensures
        queue_items(*final(q)) == queue_items(*old(q)).push(x),
{
    q.items.push(x)
}

/// Relies on `SmallVec::len`: the number of items.
#[verifier::external_body]
fn queue_len(q: &PointQueue) -> (r: usize)
    ensures
        r == queue_items(*q).len(),
{
    q.items.len()
}

/// Relies on indexing a `SmallVec`: the item at position `i`.
#[verifier::external_body]
fn queue_get(q: &PointQueue, i: usize) -> (r: u32)
    requires
        i < queue_items(*q).len(),
    ensures
        r == queue_items(*q)[i as int],
{
    q.items[i]
}

/// The tag bit: set in a slot that holds a component size.
pub const SENTINEL: u32 = 0x8000_0000;

const SENTINEL_MASK: u32 = 0x7fff_ffff;

/// A vertex of the graph, an index in `[0, n)`.
#[derive(PartialEq, Eq, Structural, PartialOrd, Ord, Hash, Clone, Copy, Debug)]
pub struct Point(pub u32);

impl Point {
    pub fn as_u32(&self) -> (r: u32)
        ensures
            r == self.0,
    {
        self.0
    }
}

/// What one slot of the structure says about its point.
#[derive(PartialEq, Eq, Structural, Clone, Copy, Debug)]
pub enum LinkSize {
    /// The point is not a root; this is the next point towards its root.
    Parent(Point),
    /// The point is a root; this is the number of points in its component.
    Size(u32),
}

/// A slot packed in one word: a size under the tag bit, or a parent index.
#[derive(Clone, Copy, Debug)]
pub struct LinkSizeCompact {
    data: u32,
}

impl View for LinkSizeCompact {
    type V = LinkSize;

    closed spec fn view(&self) -> LinkSize {
        if self.data >= SENTINEL {
            LinkSize::Size((self.data - SENTINEL) as u32)
        } else {
            LinkSize::Parent(Point(self.data))
        }
    }
}

proof fn lemma_tag(d: u32)
    ensures
        (d & 0x8000_0000u32 != 0) == (d >= 0x8000_0000u32),
        d >= 0x8000_0000u32 ==> d & 0x7fff_ffffu32 == d - 0x8000_0000u32,
        d < 0x8000_0000u32 ==> 0x8000_0000u32 | d == 0x8000_0000u32 + d,
{
    assert((d & 0x8000_0000u32 != 0) == (d >= 0x8000_0000u32)) by (bit_vector);
    assert(d >= 0x8000_0000u32 ==> d & 0x7fff_ffffu32 == d - 0x8000_0000u32) by (bit_vector);
    assert(d < 0x8000_0000u32 ==> 0x8000_0000u32 | d == 0x8000_0000u32 + d) by (bit_vector);
}

impl LinkSizeCompact {
    fn root(size: u32) -> (r: Self)
        requires
            size < SENTINEL,
        ensures
            r@ == LinkSize::Size(size),
    {
        proof {
            lemma_tag(size);
        }
        Self { data: SENTINEL | size }
    }

    fn link(parent: Point) -> (r: Self)
        requires
            parent.0 < SENTINEL,
        ensures
            r@ == LinkSize::Parent(parent),
    {
        Self { data: parent.0 }
    }

    fn set(&mut self, u: &Self)
        ensures
            final(self)@ == u@,
    {
        self.data = u.data;
    }

    fn is_root(&self) -> (r: bool)
        ensures
            r == self@ is Size,
    {
        proof {
            lemma_tag(self.data);
        }
        self.data & SENTINEL != 0
    }

    fn expand(&self) -> (r: LinkSize)
        ensures
            r == self@,
    {
        proof {
            lemma_tag(self.data);
        }
        if self.is_root() {
            LinkSize::Size(self.data & SENTINEL_MASK)
        } else {
            LinkSize::Parent(Point(self.data))
        }
    }

    fn try_size(&self) -> (r: Option<u32>)
        ensures
            r == match self@ {
                LinkSize::Size(s) => Some(s),
                LinkSize::Parent(_) => None::<u32>,
            },
    {
        match self.expand() {
            LinkSize::Size(size) => Some(size),
            _ => None,
        }
    }

    fn add_size(&mut self, size: u32)
        requires
            old(self)@ is Size,
            old(self)@->Size_0 + size < SENTINEL,
        ensures
            final(self)@ == LinkSize::Size((old(self)@->Size_0 + size) as u32),
    {
        self.data = self.data + size;
    }
}

/// The labelling `l` after joining the components of `u` and `v`: both take
/// the larger of their two labels.
pub open spec fn united(l: Seq<int>, u: int, v: int) -> Seq<int> {
    merge_labels(l, l[u], l[v], if l[u] > l[v] { l[u] } else { l[v] })
}

/// Disjoint sets over `[0, n)` with component sizes and a count of the point
/// pairs that already share a component.
pub struct SizedUnionFind {
    data: Vec<LinkSizeCompact>,
    size: u32,
    total_edges: u64,
    total_internal: u64,
    labels: Ghost<Seq<int>>,
}

impl View for SizedUnionFind {
    /// For each point, the root of its component.
    type V = Seq<int>;

    closed spec fn view(&self) -> Seq<int> {
        self.labels@
    }
}

impl SizedUnionFind {
    spec fn is_root_at(&self, i: int) -> bool {
        self.data@[i]@ is Size
    }

    /// The parent of `i`; a root is its own parent.
    pub closed spec fn parent_at(&self, i: int) -> int {
        match self.data@[i]@ {
            LinkSize::Parent(p) => p.0 as int,
            LinkSize::Size(_) => i,
        }
    }

    /// `self` differs from `before` only by path splitting on the way up
    /// from `u`: links below `u` are untouched, and every other link either
    /// stays or now skips to its former grandparent.
    pub open spec fn split_from(&self, before: &Self, u: int) -> bool {
        forall|i: int|
            0 <= i < before@.len() ==> #[trigger] self.parent_at(i) == before.parent_at(i) || (u <= i
                && self.parent_at(i) == before.parent_at(before.parent_at(i)))
    }

    spec fn size_at(&self, i: int) -> nat {
        match self.data@[i]@ {
            LinkSize::Size(s) => s as nat,
            LinkSize::Parent(_) => 0,
        }
    }

    spec fn slot_ok(&self, i: int) -> bool {
        let n = self.data@.len() as int;
        let l = self.labels@;
        &&& (self.is_root_at(i) || i < self.parent_at(i) < n)
        &&& l[i] == l[self.parent_at(i)]
        &&& i <= l[i] < n
        &&& self.is_root_at(l[i])
        &&& (self.is_root_at(i) ==> l[i] == i)
    }

    spec fn links_wf(&self) -> bool {
        &&& self.data@.len() == self.size as nat
        &&& self.size < SENTINEL
        &&& self.labels@.len() == self.size as nat
        &&& forall|i: int| 0 <= i < self.size ==> #[trigger] self.slot_ok(i)
    }

    spec fn sizes_ok(&self) -> bool {
        forall|i: int|
            0 <= i < self.size && #[trigger] self.is_root_at(i) ==> self.size_at(i) == count(
                self.labels@,
                i,
            )
    }

    /// Same labels, counters, roots and sizes: only non-root links may differ.
    spec fn same_shape(&self, other: &Self) -> bool {
        &&& self.size == other.size
        &&& self.total_edges == other.total_edges
        &&& self.total_internal == other.total_internal
        &&& self.labels@ == other.labels@
        &&& self.data@.len() == other.data@.len()
        &&& forall|i: int|
            0 <= i < self.data@.len() ==> (#[trigger] self.is_root_at(i) == other.is_root_at(i))
                && (self.is_root_at(i) ==> self.size_at(i) == other.size_at(i))
    }

    /// The structure is well formed: links lead to the roots given by the view,
    /// roots hold their component sizes, and the counters are exact.
    pub closed spec fn wf(&self) -> bool {
        &&& self.links_wf()
        &&& self.sizes_ok()
        &&& self.size >= 1
        &&& self.total_edges == pairs(self.size as nat)
        &&& self.total_internal == same_pairs(self.labels@)
    }

    proof fn lemma_shape_keeps_wf(&self, other: &Self)
        requires
            other.wf(),
            self.links_wf(),
            self.same_shape(other),
        ensures
            self.wf(),
    {
        assert forall|i: int| 0 <= i < self.size && #[trigger] self.is_root_at(i) implies self.size_at(
            i,
        ) == count(self.labels@, i) by {
            assert(other.is_root_at(i));
        }
    }

    proof fn lemma_same_links(&self, other: &Self)
        requires
            self.links_wf(),
            self.sizes_ok(),
            self.data == other.data,
            self.size == other.size,
            self.labels == other.labels,
        ensures
            other.links_wf(),
            other.sizes_ok(),
    {
        assert forall|i: int| 0 <= i < other.size implies #[trigger] other.slot_ok(i) by {
            assert(self.slot_ok(i));
        }
        assert forall|i: int| 0 <= i < other.size && #[trigger] other.is_root_at(i) implies other.size_at(
            i,
        ) == count(other.labels@, i) by {
            assert(self.is_root_at(i));
        }
    }

    /// Every label is a point of the structure that labels itself, and its
    /// component holds at least that point.
    pub proof fn lemma_labels(&self)
        requires
            self.wf(),
        ensures
            1 <= self@.len() < SENTINEL,
            forall|i: int|
                0 <= i < self@.len() ==> 0 <= #[trigger] self@[i] < self@.len() && self@[self@[i]]
                    == self@[i] && count(self@, self@[i]) >= 1,
    {
        assert forall|i: int| 0 <= i < self@.len() implies 0 <= #[trigger] self@[i] < self@.len()
            && self@[self@[i]] == self@[i] && count(self@, self@[i]) >= 1 by {
            assert(self.slot_ok(i));
            assert(self.slot_ok(self.labels@[i]));
            lemma_count_pos(self@, i);
        }
    }

    /// `size` singleton components.
    pub fn new(size: u32) -> (r: Self)
        requires
            1 <= size < SENTINEL,
        ensures
            r.wf(),
            r@ == singletons(size as nat),
    {
        let mut data: Vec<LinkSizeCompact> = Vec::new();
        let mut i: u32 = 0;
        while i < size
            invariant
                i <= size,
                data@.len() == i,
                forall|j: int| 0 <= j < i ==> (#[trigger] data@[j])@ == LinkSize::Size(1),
            decreases size - i,
        {
            data.push(LinkSizeCompact::root(1));
            i = i + 1;
        }
        let n = size as u64;
        assert(n * (n - 1) <= 0x4000_0000_0000_0000u64) by (nonlinear_arith)
            requires
                1 <= n < 0x8000_0000u64,
        ;
        let r = Self {
            data,
            size,
            total_edges: n * (n - 1) / 2,
            total_internal: 0,
            labels: Ghost(singletons(size as nat)),
        };
        proof {
            lemma_singletons(size as nat);
            assert forall|i: int| 0 <= i < size implies #[trigger] r.slot_ok(i) by {
                assert(r.data@[i]@ == LinkSize::Size(1));
            }
            assert forall|i: int| 0 <= i < size && #[trigger] r.is_root_at(i) implies r.size_at(i)
                == count(r.labels@, i) by {
                assert(r.data@[i]@ == LinkSize::Size(1));
            }
        }
        r
    }

    fn parent(&self, u: Point) -> (r: Point)
        requires
            self.links_wf(),
            u.0 < self.size,
        ensures
            r.0 == self.parent_at(u.0 as int),
    {
        match self.data[u.0 as usize].expand() {
            LinkSize::Parent(parent) => parent,
            LinkSize::Size(_) => u,
        }
    }

    /// Points `src` at `dst`; the labels and counters are left to the caller.
    fn link(&mut self, src: Point, dst: Point)
        requires
            src.0 < old(self).data@.len(),
            dst.0 < SENTINEL,
        ensures
            final(self).data@ == (if src != dst {
                old(self).data@.update(src.0 as int, LinkSizeCompact { data: dst.0 })
            } else {
                old(self).data@
            }),
            final(self).size == old(self).size,
            final(self).total_edges == old(self).total_edges,
            final(self).total_internal == old(self).total_internal,
            final(self).labels == old(self).labels,
    {
        if src != dst {
            self.data.set(src.0 as usize, LinkSizeCompact::link(dst));
        }
    }

    /// The root of `u`'s component and the size stored there. Every point
    /// visited on the way is relinked to the point two steps above it.
    fn find(&mut self, u: Point) -> (r: (Point, u32))
        requires
            old(self).links_wf(),
            u.0 < old(self).size,
        ensures
            final(self).links_wf(),
            final(self).same_shape(old(self)),
            final(self).split_from(old(self), u.0 as int),
            r.0.0 == old(self)@[u.0 as int],
            r.1 == old(self).size_at(r.0.0 as int),
    {
        let mut root = u;
        if let Some(size) = self.data[root.0 as usize].try_size() {
            proof {
                assert(self.slot_ok(u.0 as int));
            }
            return (root, size);
        }
        loop
            invariant
                self.links_wf(),
                self.same_shape(old(self)),
                root.0 < self.size,
                !self.is_root_at(root.0 as int),
                self@[root.0 as int] == old(self)@[u.0 as int],
                u.0 <= root.0,
                forall|i: int|
                    0 <= i < self.size && (i < u.0 || i >= root.0) ==> #[trigger] self.data@[i]
                        == old(self).data@[i],
                self.split_from(old(self), u.0 as int),
            decreases self.size - root.0,
        {
            proof {
                assert(self.slot_ok(root.0 as int));
            }
            let temp = self.parent(root);
            if let Some(size) = self.data[temp.0 as usize].try_size() {
                proof {
                    assert(self.slot_ok(temp.0 as int));
                    assert(old(self).is_root_at(temp.0 as int));
                }
                return (temp, size);
            }
            proof {
                assert(self.slot_ok(temp.0 as int));
            }
            // Path splitting: skip over `temp`.
            let above = self.data[temp.0 as usize];
            let ghost prev = *self;
            self.data.set(root.0 as usize, above);
            proof {
                assert forall|i: int| 0 <= i < self.size implies #[trigger] self.slot_ok(i) by {
                    assert(prev.slot_ok(i));
                    if i != root.0 {
                        assert(self.data@[i] == prev.data@[i]);
                        assert(prev.slot_ok(prev.labels@[i]));
                    }
                }
                assert forall|i: int| 0 <= i < self.data@.len() implies (#[trigger] self.is_root_at(i)
                    == old(self).is_root_at(i)) && (self.is_root_at(i) ==> self.size_at(i)
                    == old(self).size_at(i)) by {
                    assert(prev.is_root_at(i) == old(self).is_root_at(i));
                }
                assert(prev.data@[root.0 as int] == old(self).data@[root.0 as int]);
                assert(prev.data@[temp.0 as int] == old(self).data@[temp.0 as int]);
                assert forall|i: int| 0 <= i < old(self)@.len() implies #[trigger] self.parent_at(i) == old(self).parent_at(i) || (u.0 <= i
                    && self.parent_at(i) == old(self).parent_at(old(self).parent_at(i))) by {
                    if i != root.0 {
                        assert(self.data@[i] == prev.data@[i]);
                        assert(prev.parent_at(i) == old(self).parent_at(i) || (u.0 <= i
                            && prev.parent_at(i) == old(self).parent_at(old(self).parent_at(i))));
                    }
                }
            }
            root = temp;
        }
    }

    /// The root of `u`'s component and its size, relinking the points on the
    /// way as `find` does.
    pub fn root_size(&mut self, u: Point) -> (r: (Point, u32))
        requires
            old(self).wf(),
            u.0 < old(self)@.len(),
        ensures
            final(self).wf(),
            final(self)@ == old(self)@,
            final(self).split_from(old(self), u.0 as int),
            r.0.0 == old(self)@[u.0 as int],
            r.1 == count(old(self)@, old(self)@[u.0 as int]),
    {
        let r = self.find(u);
        proof {
            self.lemma_shape_keeps_wf(old(self));
            assert(old(self).slot_ok(u.0 as int));
        }
        r
    }

    pub fn root(&mut self, u: Point) -> (r: Point)
        requires
            old(self).wf(),
            u.0 < old(self)@.len(),
        ensures
            final(self).wf(),
            final(self)@ == old(self)@,
            final(self).split_from(old(self), u.0 as int),
            r.0 == old(self)@[u.0 as int],
    {
        self.root_size(u).0
    }

    pub fn size(&mut self, u: Point) -> (r: u32)
        requires
            old(self).wf(),
            u.0 < old(self)@.len(),
        ensures
            final(self).wf(),
            final(self)@ == old(self)@,
            r == count(old(self)@, old(self)@[u.0 as int]),
    {
        self.root_size(u).1
    }

    /// Whether `u` and `v` lie in one component.
    pub fn same_set(&mut self, u: Point, v: Point) -> (r: bool)
        requires
            old(self).wf(),
            u.0 < old(self)@.len(),
            v.0 < old(self)@.len(),
        ensures
            final(self).wf(),
            final(self)@ == old(self)@,
            r == (old(self)@[u.0 as int] == old(self)@[v.0 as int]),
    {
        self.root(u) == self.root(v)
    }

    /// Joins the components of `u` and `v` (Rem's algorithm) and tells whether
    /// they were apart. Both sides are walked upwards together, always from the
    /// side with the smaller parent, until that side reaches its root, which is
    /// then linked below the other side. The points passed on the way are
    /// linked straight to the new root.
    pub fn unite(&mut self, first: Point, second: Point) -> (r: bool)
        requires
            old(self).wf(),
            first.0 < old(self)@.len(),
            second.0 < old(self)@.len(),
        ensures
            final(self).wf(),
            r == (old(self)@[first.0 as int] != old(self)@[second.0 as int]),
            r ==> final(self)@ == united(old(self)@, first.0 as int, second.0 as int),
            !r ==> final(self)@ == old(self)@,
            r ==> same_pairs(final(self)@) == same_pairs(old(self)@) + count(
                old(self)@,
                old(self)@[first.0 as int],
            ) * count(old(self)@, old(self)@[second.0 as int]),
    {
        let ghost l0 = self.labels@;
        let ghost ru0 = l0[first.0 as int];
        let ghost rv0 = l0[second.0 as int];
        let ghost n = self.size as int;
        let ghost u0 = first;
        let ghost v0 = second;
        let mut u = first;
        let mut v = second;
        let mut queue = queue_new();
        while self.parent(u).0 != self.parent(v).0
            invariant
                *self == *old(self),
                self.wf(),
                u.0 < n,
                v.0 < n,
                n == self.size,
                l0 == self.labels@,
                u0 == first,
                v0 == second,
                u0.0 < n,
                v0.0 < n,
                l0[u0.0 as int] == ru0,
                l0[v0.0 as int] == rv0,
                (l0[u.0 as int] == ru0 && l0[v.0 as int] == rv0) || (l0[u.0 as int] == rv0
                    && l0[v.0 as int] == ru0),
                queue_items(queue).len() <= u.0 + v.0,
                forall|k: int|
                    0 <= k < queue_items(queue).len() ==> #[trigger] queue_items(queue)[k] < n
                        && !self.is_root_at(queue_items(queue)[k] as int) && (l0[queue_items(
                        queue,
                    )[k] as int] == ru0 || l0[queue_items(queue)[k] as int] == rv0),
            decreases 2 * n - u.0 - v.0,
        {
            proof {
                assert(self.slot_ok(u.0 as int));
                assert(self.slot_ok(v.0 as int));
            }
            if self.parent(u).0 > self.parent(v).0 {
                let t = u;
                u = v;
                v = t;
            }
            if let Some(join_size) = self.data[u.0 as usize].try_size() {
                let pv = self.parent(v);
                let ghost ru = l0[u.0 as int];
                let ghost rv = l0[v.0 as int];
                proof {
                    assert(self.slot_ok(pv.0 as int));
                    assert(ru == u.0);
                    assert(rv != ru);
                    assert(rv > ru);
                    assert(self.slot_ok(rv));
                }
                let ghost before = *self;
                self.link(u, pv);
                self.labels = Ghost(merge_labels(l0, ru, rv, rv));
                proof {
                    let l1 = self.labels@;
                    assert forall|i: int| 0 <= i < n implies #[trigger] self.slot_ok(i) by {
                        assert(before.slot_ok(i));
                        assert(before.slot_ok(before.parent_at(i)));
                        if i != u.0 {
                            assert(self.data@[i] == before.data@[i]);
                        }
                        assert(before.is_root_at(l0[i]));
                        if l0[i] != ru {
                            assert(self.data@[l0[i]] == before.data@[l0[i]]);
                        }
                        assert(self.data@[rv] == before.data@[rv]);
                    }
                }
                let ghost merged = *self;
                let (root, size) = self.find(v);
                proof {
                    assert(root.0 == rv);
                    assert(merged.data@[rv] == before.data@[rv]);
                    assert(before.slot_ok(rv));
                    assert(size == count(l0, rv));
                    assert(join_size == count(l0, ru));
                    lemma_count_two_le(l0, ru, rv);
                }
                let ghost found = *self;
                self.data.set(root.0 as usize, LinkSizeCompact::root(size + join_size));
                proof {
                    let l1 = self.labels@;
                    assert forall|i: int| 0 <= i < n implies #[trigger] self.slot_ok(i) by {
                        assert(found.slot_ok(i));
                        if i != rv {
                            assert(self.data@[i] == found.data@[i]);
                        }
                    }
                    assert forall|i: int| 0 <= i < n && #[trigger] self.is_root_at(i) implies self.size_at(
                        i,
                    ) == count(l1, i) by {
                        lemma_count_merge(l0, ru, rv, rv, i);
                        if i != rv {
                            assert(self.data@[i] == found.data@[i]);
                            assert(found.is_root_at(i) == merged.is_root_at(i));
                            assert(merged.is_root_at(i));
                            assert(i != ru);
                            assert(before.is_root_at(i));
                            assert(before.size_at(i) == count(l0, i));
                        }
                    }
                }
                proof {
                    assert forall|j: int| 0 <= j < queue_items(queue).len() implies !self.is_root_at(
                        #[trigger] queue_items(queue)[j] as int,
                    ) by {
                        let q = queue_items(queue)[j] as int;
                        assert(!before.is_root_at(q));
                        assert(q != u.0);
                        assert(merged.data@[q] == before.data@[q]);
                        assert(found.is_root_at(q) == merged.is_root_at(q));
                        assert(q != rv);
                        assert(self.data@[q] == found.data@[q]);
                    }
                }
                let mut k: usize = 0;
                while k < queue_len(&queue)
                    invariant
                        self.links_wf(),
                        self.sizes_ok(),
                        self.size == n,
                        self.total_edges == old(self).total_edges,
                        self.total_internal == old(self).total_internal,
                        self.labels@ == merge_labels(l0, ru, rv, rv),
                        root.0 == rv,
                        forall|j: int|
                            0 <= j < queue_items(queue).len() ==> #[trigger] queue_items(queue)[j]
                                < n && !self.is_root_at(queue_items(queue)[j] as int) && (l0[queue_items(
                                queue,
                            )[j] as int] == ru || l0[queue_items(queue)[j] as int] == rv),
                    decreases queue_items(queue).len() - k,
                {
                    let p = queue_get(&queue, k);
                    let ghost prev = *self;
                    proof {
                        assert(prev.slot_ok(p as int));
                        assert(prev.slot_ok(rv));
                    }
                    self.link(Point(p), root);
                    proof {
                        assert forall|i: int| 0 <= i < n implies #[trigger] self.slot_ok(i) by {
                            assert(prev.slot_ok(i));
                            if i != p {
                                assert(self.data@[i] == prev.data@[i]);
                            }
                            assert(prev.is_root_at(self.labels@[i]));
                        }
                        assert forall|i: int| 0 <= i < n && #[trigger] self.is_root_at(i) implies self.size_at(
                            i,
                        ) == count(self.labels@, i) by {
                            assert(self.data@[i] == prev.data@[i]);
                            assert(prev.is_root_at(i));
                        }
                        assert forall|j: int| 0 <= j < queue_items(queue).len() implies !self.is_root_at(
                            #[trigger] queue_items(queue)[j] as int,
                        ) by {
                            assert(!prev.is_root_at(queue_items(queue)[j] as int));
                        }
                    }
                    k = k + 1;
                }
                proof {
                    lemma_same_pairs_merge(l0, ru, rv, rv);
                    lemma_same_pairs_le(self.labels@);
                    assert((ru0 == ru && rv0 == rv) || (ru0 == rv && rv0 == ru));
                    assert((if ru0 > rv0 { ru0 } else { rv0 }) == rv);
                    assert forall|i: int| 0 <= i < n implies #[trigger] self.labels@[i] == united(
                        l0,
                        u0.0 as int,
                        v0.0 as int,
                    )[i] by {
                        let uu = united(l0, u0.0 as int, v0.0 as int);
                        assert(l0[u0.0 as int] == ru0);
                        assert(l0[v0.0 as int] == rv0);
                        assert(uu[i] == (if l0[i] == ru0 || l0[i] == rv0 { rv } else { l0[i] }));
                        assert(self.labels@[i] == (if l0[i] == ru || l0[i] == rv { rv } else { l0[i] }));
                    }
                    assert(self.labels@ =~= united(l0, u0.0 as int, v0.0 as int));
                    let cu = count(l0, ru);
                    let cv = count(l0, rv);
                    assert(cv * cu == cu * cv) by (nonlinear_arith);
                    assert(cu * cv <= pairs(n as nat));
                }
                let ghost linked = *self;
                self.total_internal = self.total_internal + (size as u64) * (join_size as u64);
                proof {
                    linked.lemma_same_links(self);
                    assert(old(self)@ == l0);
                    assert(self@ == united(l0, u0.0 as int, v0.0 as int));
                }
                return true;
            }
            let temp = self.parent(u);
            proof {
                assert(self.slot_ok(u.0 as int));
            }
            queue_push(&mut queue, u.0);
            u = temp;
        }
        proof {
            assert(self.slot_ok(u.0 as int));
            assert(self.slot_ok(v.0 as int));
        }
        false
    }

    /// Number of point pairs that share a component.
    pub fn linked_edges(&self) -> (r: u64)
        requires
            self.wf(),
        ensures
            r == same_pairs(self@),
    {
        self.total_internal
    }

    /// Number of point pairs in different components.
    pub fn free_edges(&self) -> (r: u64)
        requires
            self.wf(),
        ensures
            r == pairs(self@.len()) - same_pairs(self@),
            r + same_pairs(self@) == pairs(self@.len()),
    {
        proof {
            lemma_same_pairs_le(self.labels@);
        }
        self.total_edges - self.total_internal
    }

    /// Number of pairs of points.
    pub fn total_edges(&self) -> (r: u64)
        requires
            self.wf(),
        ensures
            r == pairs(self@.len()),
    {
        self.total_edges
    }

    /// Number of points.
    pub fn total_size(&self) -> (r: u32)
        requires
            self.wf(),
        ensures
            r == self@.len(),
    {
        self.size
    }

    /// The points `0, 1, ..., n - 1` in order.
    pub fn iter(&self) -> (r: SizedUnionFindIntoIter)
        requires
            self.wf(),
        ensures
            r.size == self@.len(),
            r.index == 0,
    {
        SizedUnionFindIntoIter { size: self.total_size(), index: 0 }
    }
}

/// Walks the points `index, index + 1, ..., size - 1`.
pub struct SizedUnionFindIntoIter {
    pub size: u32,
    pub index: u32,
}

impl SizedUnionFindIntoIter {
    pub fn next(&mut self) -> (r: Option<Point>)
        ensures
            final(self).size == old(self).size,
            old(self).index < old(self).size ==> r == Some(Point(old(self).index))
                && final(self).index == old(self).index + 1,
            old(self).index >= old(self).size ==> r.is_none() && final(self).index == old(
                self,
            ).index,
    {
        if self.index < self.size {
            let point = Point(self.index);
            self.index += 1;
            return Some(point);
        }
        None
    }
}

} // verus!
