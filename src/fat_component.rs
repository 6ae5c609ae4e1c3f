//! A grow-only union-find that keeps the dominating component up to date
//! itself: once a component holds more than half of the points, every union
//! refreshes its root and size and, when enough of them have joined, prunes
//! its list of outside points.
//!
//! The unions follow Rem's algorithm with splicing: while walking up from
//! both points, the lower side is relinked to the parent of the other side.
//! The component of a point is the root at the end of its parent chain.
use vstd::prelude::*;

use crate::partition::{
    count, lemma_count_le, lemma_count_pos, lemma_same_pairs_all, lemma_count_merge, lemma_count_two_le, lemma_same_pairs_le,
    lemma_same_pairs_merge, lemma_singletons, merge_labels, pairs, same_pairs, singletons,
};
use crate::random::RandomSource;
use crate::sampler::{kept_outside, lemma_compaction_keeps_outside, MAX_ATTEMPTS};
use crate::union_find::{united, Point};

verus! {

/// The dominating component: its root, its size, and a list that holds every
/// point outside it.
pub struct FatComponent {
    root: Point,
    size: u32,
    remainders: Vec<Point>,
}

impl FatComponent {
    /// The tracked root.
    pub closed spec fn root_point(&self) -> Point {
        self.root
    }

    /// The tracked size.
    pub closed spec fn tracked_size(&self) -> u32 {
        self.size
    }

    /// The list of points that holds every point outside the component.
    pub closed spec fn listed(&self) -> Seq<Point> {
        self.remainders@
    }

    fn new(root: Point, size: u32) -> (r: Self)
        ensures
            r.root == root,
            r.size == size,
            r.remainders@.len() == 0,
    {
        Self { root, size, remainders: Vec::new() }
    }

    pub fn root(&self) -> (r: Point)
        ensures
            r == self.root_point(),
    {
        self.root
    }

    fn update(&mut self, root: Point, size: u32)
        ensures
            final(self).root == root,
            final(self).size == size,
            final(self).remainders == old(self).remainders,
    {
        self.root = root;
        self.size = size;
    }

    fn insert_remainder(&mut self, remainder: Point)
        ensures
            final(self).root == old(self).root,
            final(self).size == old(self).size,
            final(self).remainders@ == old(self).remainders@.push(remainder),
    {
        self.remainders.push(remainder);
    }

    /// Number of listed points.
    pub fn remainders(&self) -> (r: u32)
        requires
            self.listed().len() <= u32::MAX,
        ensures
            r == self.listed().len(),
    {
        self.remainders.len() as u32
    }

    pub fn size(&self) -> (r: u32)
        ensures
            r == self.tracked_size(),
    {
        self.size
    }

    /// Keeps the listed points that `set` places outside the component
    /// rooted at `root`, in order.
    fn filter(&mut self, set: &FatComponentUnionFind, root: Point)
        requires
            set.links_ok(),
            forall|k: int| 0 <= k < old(self).remainders@.len() ==> (#[trigger] old(self).remainders@[k]).0 < set@.len(),
        ensures
            final(self).root == old(self).root,
            final(self).size == old(self).size,
            final(self).remainders@ == kept_outside(old(self).remainders@, set@, root.0 as int),
    {
        let ghost before = self.remainders@;
        let mut kept: Vec<Point> = Vec::new();
        let mut k: usize = 0;
        while k < self.remainders.len()
            invariant
                self.remainders@ == before,
                set.links_ok(),
                k <= before.len(),
                forall|j: int| 0 <= j < before.len() ==> (#[trigger] before[j]).0 < set@.len(),
                kept@ == kept_outside(before.take(k as int), set@, root.0 as int),
            decreases before.len() - k,
        {
            let p = self.remainders[k];
            proof {
                assert(before.take(k as int + 1).drop_last() =~= before.take(k as int));
            }
            if set.walk(p) != root {
                kept.push(p);
            }
            k = k + 1;
        }
        proof {
            assert(before.take(k as int) =~= before);
        }
        self.remainders = kept;
    }
}

/// A grow-only union-find over `[0, size)` that also tracks the component
/// holding more than half of the points, once there is one.
pub struct FatComponentUnionFind {
    parents: Vec<Point>,
    sizes: Vec<u32>,
    fat_component: Option<FatComponent>,
    /// Number of point pairs inside components.
    total_internal: u64,
    total_edges: u64,
    size: u32,
}

/// The points `0, 1, ..., n - 1` in order.
pub open spec fn all_points(n: nat) -> Seq<Point> {
    Seq::new(n, |i: int| Point(i as u32))
}

/// Whether `i` is its own parent in `p`.
spec fn root_in(p: Seq<Point>, i: int) -> bool {
    p[i].0 == i
}

/// Whether the parent of `i` in `p` lies above it.
spec fn steps_up_in(p: Seq<Point>, i: int) -> bool {
    0 <= i < p.len() && i < p[i].0 < p.len()
}

/// The root at the end of the parent chain from `i` in `p`.
spec fn reach_in(p: Seq<Point>, i: int) -> int
    decreases p.len() - i,
{
    if steps_up_in(p, i) {
        reach_in(p, p[i].0 as int)
    } else {
        i
    }
}

/// Whether the parent chain from `i` in `p` goes through `x`.
spec fn passes_in(p: Seq<Point>, i: int, x: int) -> bool
    decreases p.len() - i,
{
    if i == x {
        true
    } else if steps_up_in(p, i) {
        passes_in(p, p[i].0 as int, x)
    } else {
        false
    }
}

/// Every point is a root or has a parent above it.
spec fn links_ok_in(p: Seq<Point>) -> bool {
    forall|i: int| 0 <= i < p.len() ==> #[trigger] root_in(p, i) || steps_up_in(p, i)
}

/// The roots of each point's chain.
spec fn view_in(p: Seq<Point>) -> Seq<int> {
    Seq::new(p.len(), |i: int| reach_in(p, i))
}

/// Each root holds the number of points that `l` gives its label.
spec fn sizes_ok_in(p: Seq<Point>, sizes: Seq<u32>, l: Seq<int>) -> bool {
    forall|i: int| 0 <= i < p.len() && #[trigger] root_in(p, i) ==> sizes[i] == count(l, i)
}

proof fn lemma_relink_links(p: Seq<Point>, x: int, y: int)
    requires
        links_ok_in(p),
        0 <= x < y < p.len(),
        y <= u32::MAX,
    ensures
        links_ok_in(p.update(x, Point(y as u32))),
{
    let q = p.update(x, Point(y as u32));
    assert forall|i: int| 0 <= i < q.len() implies #[trigger] root_in(q, i) || steps_up_in(q, i) by {
        if i != x {
            assert(root_in(p, i) || steps_up_in(p, i));
        }
    }
}

impl View for FatComponentUnionFind {
    /// For each point, the root at the end of its parent chain.
    type V = Seq<int>;

    closed spec fn view(&self) -> Seq<int> {
        view_in(self.parents@)
    }
}

impl FatComponentUnionFind {
    /// The parent of `i`.
    pub closed spec fn par(&self, i: int) -> int {
        self.parents@[i].0 as int
    }

    /// Whether `i` is a root.
    pub closed spec fn is_root_at(&self, i: int) -> bool {
        root_in(self.parents@, i)
    }

    spec fn steps_up(&self, i: int) -> bool {
        steps_up_in(self.parents@, i)
    }

    spec fn reach(&self, i: int) -> int {
        reach_in(self.parents@, i)
    }

    spec fn passes(&self, i: int, x: int) -> bool {
        passes_in(self.parents@, i, x)
    }

    spec fn links_ok(&self) -> bool {
        &&& self.parents@.len() == self.size
        &&& self.sizes@.len() == self.size
        &&& links_ok_in(self.parents@)
    }

    spec fn sizes_ok(&self, l: Seq<int>) -> bool {
        sizes_ok_in(self.parents@, self.sizes@, l)
    }

    spec fn fat_ok(&self) -> bool {
        self.fat_component matches Some(fc) ==> {
            &&& fc.root.0 < self.size
            &&& self.is_root_at(fc.root.0 as int)
            &&& fc.size == count(self@, fc.root.0 as int)
            &&& 2 * fc.size > self.size
            &&& fc.remainders@.len() <= self.size
            &&& forall|p: Point|
                0 <= p.0 < self.size && self@[p.0 as int] != fc.root.0 ==> #[trigger] fc.remainders@.contains(p)
            &&& forall|k: int| 0 <= k < fc.remainders@.len() ==> (#[trigger] fc.remainders@[k]).0 < self.size
        }
    }

    /// Whether a component holding more than half of the points is tracked.
    pub closed spec fn is_tracked(&self) -> bool {
        self.fat_component is Some
    }

    /// The root of the tracked component, when `is_tracked()`.
    pub closed spec fn fat_root(&self) -> int {
        self.fat_component->Some_0.root.0 as int
    }

    /// The list of the tracked component, when `is_tracked()`.
    pub closed spec fn fat_listed(&self) -> Seq<Point> {
        self.fat_component->Some_0.remainders@
    }

    /// While nothing is tracked, no component holds more than half of the
    /// points (a lone point is not counted).
    spec fn small_ok(&self) -> bool {
        self.fat_component is None && self.size >= 2 ==> forall|i: int|
            0 <= i < self.size ==> 2 * count(self@, #[trigger] self@[i]) <= self.size
    }

    /// Parent links climb to roots, roots hold their component sizes, the
    /// pair counters are exact, and a tracked component is current.
    pub closed spec fn wf(&self) -> bool {
        &&& self.links_ok()
        &&& self.sizes_ok(self@)
        &&& self.size >= 1
        &&& self.total_edges == pairs(self.size as nat)
        &&& self.total_internal == same_pairs(self@)
        &&& self.fat_ok()
        &&& self.small_ok()
    }

    proof fn lemma_reach(&self, i: int)
        requires
            self.links_ok(),
            0 <= i < self.size,
        ensures
            i <= self.reach(i) < self.size,
            self.is_root_at(self.reach(i)),
            self.reach(self.par(i)) == self.reach(i),
            self.passes(i, self.reach(i)),
        decreases self.size - i,
    {
        assert(self.is_root_at(i) || self.steps_up(i));
        if self.steps_up(i) {
            self.lemma_reach(self.par(i));
        }
    }

    proof fn lemma_passes_reach(&self, i: int, x: int)
        requires
            self.links_ok(),
            0 <= i < self.size,
            self.passes(i, x),
        ensures
            self.reach(i) == self.reach(x),
            i <= x,
        decreases self.size - i,
    {
        if i != x {
            self.lemma_passes_reach(self.par(i), x);
        }
    }

    proof fn lemma_passes_root(&self, i: int, r: int)
        requires
            self.links_ok(),
            0 <= i < self.size,
            0 <= r < self.size,
            self.is_root_at(r),
        ensures
            self.passes(i, r) == (self.reach(i) == r),
        decreases self.size - i,
    {
        assert(self.is_root_at(i) || self.steps_up(i));
        if i != r && self.steps_up(i) {
            self.lemma_passes_root(self.par(i), r);
        }
    }

    /// Pointing `x` at a larger `y` sends every chain through `x` to the root
    /// of `y`, and leaves the others alone.
    proof fn lemma_relink(a: &Self, b: &Self, x: int, y: int, i: int)
        requires
            a.links_ok(),
            b.links_ok(),
            b.size == a.size,
            0 <= x < y < a.size,
            b.parents@ == a.parents@.update(x, Point(y as u32)),
            0 <= i < a.size,
        ensures
            b.reach(i) == if a.passes(i, x) {
                a.reach(y)
            } else {
                a.reach(i)
            },
        decreases a.size - i,
    {
        assert(a.is_root_at(i) || a.steps_up(i));
        if i == x {
            assert(b.steps_up(x));
            Self::lemma_relink(a, b, x, y, y);
            Self::lemma_not_passes_above(a, y, x);
        } else if a.steps_up(i) {
            assert(b.par(i) == a.par(i));
            Self::lemma_relink(a, b, x, y, a.par(i));
        } else {
            assert(b.par(i) == i);
        }
    }

    proof fn lemma_not_passes_above(a: &Self, j: int, x: int)
        requires
            a.links_ok(),
            0 <= x < j < a.size,
        ensures
            !a.passes(j, x),
        decreases a.size - j,
    {
        assert(a.is_root_at(j) || a.steps_up(j));
        if a.steps_up(j) {
            Self::lemma_not_passes_above(a, a.par(j), x);
        }
    }


    proof fn lemma_relink_view(a: &Self, b: &Self, x: int, y: int)
        requires
            a.links_ok(),
            b.links_ok(),
            b.size == a.size,
            0 <= x < y < a.size,
            b.parents@ == a.parents@.update(x, Point(y as u32)),
        ensures
            forall|i: int|
                0 <= i < a.size ==> #[trigger] b@[i] == if a.passes(i, x) {
                    a.reach(y)
                } else {
                    a@[i]
                },
    {
        assert forall|i: int| 0 <= i < a.size implies #[trigger] b@[i] == if a.passes(i, x) {
            a.reach(y)
        } else {
            a@[i]
        } by {
            Self::lemma_relink(a, b, x, y, i);
        }
    }

    fn add_size_to_root(&mut self, point: Point, size: u32) -> (r: (u32, Point))
        requires
            old(self).links_ok(),
            point.0 < old(self).size,
            old(self).sizes@[old(self).reach(point.0 as int)] + size <= u32::MAX,
        ensures
            r.1.0 == old(self).reach(point.0 as int),
            r.0 == old(self).sizes@[r.1.0 as int],
            final(self).sizes@ == old(self).sizes@.update(r.1.0 as int, (r.0 + size) as u32),
            final(self).parents == old(self).parents,
            final(self).size == old(self).size,
            final(self).fat_component == old(self).fat_component,
            final(self).total_internal == old(self).total_internal,
            final(self).total_edges == old(self).total_edges,
    {
        proof {
            self.lemma_reach(point.0 as int);
        }
        let root = self.walk(point);
        let orig_size = self.sizes[root.0 as usize];
        self.sizes.set(root.0 as usize, orig_size + size);
        (orig_size, root)
    }


    /// Under a well-formed structure the roots are exactly the points that
    /// label themselves.
    proof fn lemma_roots(&self)
        requires
            self.links_ok(),
        ensures
            forall|i: int| 0 <= i < self.size ==> #[trigger] self.is_root_at(i) == (self@[i] == i),
            forall|i: int|
                0 <= i < self.size ==> 0 <= #[trigger] self@[i] < self.size && self@[self@[i]] == self@[i]
                    && self.is_root_at(self@[i]),
    {
        assert forall|i: int| 0 <= i < self.size implies 0 <= #[trigger] self@[i] < self.size && self@[self@[i]] == self@[i]
            && self.is_root_at(self@[i]) && (self.is_root_at(i) == (self@[i] == i)) by {
            self.lemma_reach(i);
            assert(root_in(self.parents@, i) || steps_up_in(self.parents@, i));
            let r = self.reach(i);
            assert(self@[i] == r);
            assert(!self.steps_up(r));
            assert(self@[r] == r);
        }
        assert forall|i: int| 0 <= i < self.size implies #[trigger] self.is_root_at(i) == (self@[i] == i) by {
            assert(self@[i] == self@[i]);
        }
    }

    /// The roots are exactly the points that label themselves.
    pub proof fn lemma_root_labels(&self)
        requires
            self.wf(),
        ensures
            forall|i: int| 0 <= i < self@.len() ==> #[trigger] self.is_root_at(i) == (self@[i] == i),
            forall|i: int| 0 <= i < self@.len() ==> #[trigger] self.is_root_at(i) == (self.par(i) == i),
    {
        self.lemma_roots();
    }

    /// The last step of a union: the root `first`, below the parent of
    /// `second`, is linked there and its size added to the other root.
    fn merge_roots(
        &mut self,
        first: Point,
        second: Point,
        Ghost(v0): Ghost<Seq<int>>,
        Ghost(ra): Ghost<int>,
        Ghost(rb): Ghost<int>,
    ) -> (r: (u32, u32, Point))
        requires
            old(self).links_ok(),
            first.0 < old(self).size,
            second.0 < old(self).size,
            old(self).is_root_at(first.0 as int),
            first.0 < old(self).par(second.0 as int),
            (old(self)@[first.0 as int] == ra && old(self)@[second.0 as int] == rb) || (old(self)@[first.0 as int] == rb
                && old(self)@[second.0 as int] == ra),
            merge_labels(old(self)@, ra, rb, if ra > rb { ra } else { rb }) == merge_labels(
                v0,
                ra,
                rb,
                if ra > rb { ra } else { rb },
            ),
            v0.len() == old(self).size,
            forall|i: int| 0 <= i < old(self).size && #[trigger] old(self).is_root_at(i) ==> old(self).sizes@[i] == count(v0, i),
            forall|i: int| 0 <= i < old(self).size ==> #[trigger] old(self).is_root_at(i) == (v0[i] == i),
            old(self).total_internal == same_pairs(v0),
            old(self).total_edges == pairs(old(self).size as nat),
        ensures
            ra != rb,
            final(self).links_ok(),
            final(self).size == old(self).size,
            final(self).total_edges == old(self).total_edges,
            final(self).fat_component == old(self).fat_component,
            final(self)@ == merge_labels(v0, ra, rb, if ra > rb { ra } else { rb }),
            final(self).sizes_ok(final(self)@),
            final(self).total_internal == same_pairs(final(self)@),
            forall|i: int| 0 <= i < final(self).size ==> #[trigger] final(self).is_root_at(i) == (old(self).is_root_at(i) && i != (if ra > rb { rb } else { ra })),
            r.2.0 == (if ra > rb { ra } else { rb }),
            r.0 == count(v0, r.2.0 as int),
            r.1 == count(v0, if ra > rb { rb } else { ra }),
            r.0 + r.1 == count(final(self)@, r.2.0 as int),
            r.0 + r.1 <= final(self).size,
    {
        let ghost big = if ra > rb { ra } else { rb };
        let ghost n = self.size as int;
        let join_size = self.sizes[first.0 as usize];
        let target = self.parents[second.0 as usize];
        let ghost before = *self;
        proof {
            before.lemma_reach(second.0 as int);
            before.lemma_reach(first.0 as int);
            before.lemma_reach(target.0 as int);
            lemma_relink_links(before.parents@, first.0 as int, target.0 as int);
        }
        self.parents.set(first.0 as usize, target);
        let ghost r1 = first.0 as int;
        let ghost r2 = before@[second.0 as int];
        proof {
            Self::lemma_relink_view(&before, self, first.0 as int, target.0 as int);
            assert(r1 < r2);
            assert(r2 == big);
            assert forall|i: int| 0 <= i < n implies #[trigger] self@[i] == merge_labels(v0, ra, rb, big)[i] by {
                before.lemma_passes_root(i, r1);
                before.lemma_reach(i);
                assert(merge_labels(before@, ra, rb, big)[i] == merge_labels(v0, ra, rb, big)[i]);
            }
            assert(self@ =~= merge_labels(v0, ra, rb, big));
            assert(before.is_root_at(r2));
            lemma_count_two_le(v0, ra, rb);
            Self::lemma_not_passes_above(&before, r2, r1);
            before.lemma_passes_root(second.0 as int, r1);
            Self::lemma_relink(&before, self, r1, target.0 as int, second.0 as int);
            assert(self.reach(second.0 as int) == r2);
            assert(before.sizes@[r1] == count(v0, r1));
            assert(before.sizes@[r2] == count(v0, r2));
        }
        let (size, root) = self.add_size_to_root(second, join_size);
        proof {
            let lnew = self@;
            lemma_same_pairs_merge(v0, ra, rb, big);
            lemma_same_pairs_le(lnew);
            assert(count(v0, ra) * count(v0, rb) == count(v0, rb) * count(v0, ra)) by (nonlinear_arith);
            lemma_count_merge(v0, ra, rb, big, big);
            lemma_count_le(lnew, big);
            assert forall|i: int| 0 <= i < n && #[trigger] root_in(self.parents@, i) implies self.sizes@[i] == count(lnew, i) by {
                lemma_count_merge(v0, ra, rb, big, i);
                assert(i != r1);
                assert(before.is_root_at(i));
            }
            assert forall|i: int| 0 <= i < n implies #[trigger] self.is_root_at(i) == (before.is_root_at(i) && i != (if ra > rb { rb } else { ra })) by {
                if i != r1 {
                    assert(self.parents@[i] == before.parents@[i]);
                }
            }
        }
        self.total_internal = self.total_internal + size as u64 * join_size as u64;
        (size, join_size, root)
    }

    /// After a union into `root`, now of `new_size` points: starts tracking
    /// the component when it holds more than half of the points, or brings
    /// the tracked one up to date and prunes its list when more than half of
    /// the list has joined it.
    fn track_fat(
        &mut self,
        root: Point,
        new_size: u32,
        Ghost(v0): Ghost<Seq<int>>,
        Ghost(ra): Ghost<int>,
        Ghost(rb): Ghost<int>,
    )
        requires
            old(self).links_ok(),
            old(self).sizes_ok(old(self)@),
            old(self).size >= 1,
            old(self).total_edges == pairs(old(self).size as nat),
            old(self).total_internal == same_pairs(old(self)@),
            ra != rb,
            v0.len() == old(self).size,
            root.0 == (if ra > rb { ra } else { rb }),
            old(self)@ == merge_labels(v0, ra, rb, root.0 as int),
            new_size == count(old(self)@, root.0 as int),
            forall|i: int| 0 <= i < old(self).size ==> #[trigger] old(self).is_root_at(i) == (v0[i] == i && i != (if ra > rb { rb } else { ra })),
            0 <= ra < old(self).size,
            0 <= rb < old(self).size,
            v0[ra] == ra,
            v0[rb] == rb,
            old(self).fat_component matches Some(fc) ==> {
                &&& fc.root.0 < old(self).size
                &&& v0[fc.root.0 as int] == fc.root.0
                &&& fc.size == count(v0, fc.root.0 as int)
                &&& 2 * fc.size > old(self).size
                &&& fc.remainders@.len() <= old(self).size
                &&& forall|p: Point|
                    0 <= p.0 < old(self).size && v0[p.0 as int] != fc.root.0 ==> #[trigger] fc.remainders@.contains(p)
                &&& forall|k: int| 0 <= k < fc.remainders@.len() ==> (#[trigger] fc.remainders@[k]).0 < old(self).size
            },
            old(self).fat_component is None && old(self).size >= 2 ==> forall|i: int|
                0 <= i < old(self).size ==> 2 * count(v0, #[trigger] v0[i]) <= old(self).size,
        ensures
            final(self).wf(),
            final(self)@ == old(self)@,
            old(self).is_tracked() ==> final(self).is_tracked(),
            2 * new_size > old(self).size ==> final(self).is_tracked() && final(self).fat_root() == root.0,
            !old(self).is_tracked() && final(self).is_tracked() ==> final(self).fat_listed() == all_points(old(self).size as nat),
            old(self).is_tracked() ==> final(self).fat_listed() == old(self).fat_listed() || (final(self).fat_listed()
                == kept_outside(old(self).fat_listed(), final(self)@, final(self).fat_root()) && (old(self).size
                - count(final(self)@, final(self).fat_root())) * 2 < old(self).fat_listed().len()),
    {
        let ghost n = self.size as int;
        let ghost lnew = self@;
        let ghost big = root.0 as int;
        proof {
            lemma_count_merge(v0, ra, rb, big, big);
            assert(self.is_root_at(big) == (v0[big] == big && big != (if ra > rb { rb } else { ra })));
        }
        let fc = self.fat_component.take();
        if new_size > self.size / 2 {
            match fc {
                None => {
                    let mut fat_component = FatComponent::new(root, new_size);
                    let mut point: u32 = 0;
                    while point < self.size
                        invariant
                            point <= n,
                            n == self.size,
                            fat_component.root == root,
                            fat_component.size == new_size,
                            fat_component.remainders@.len() == point,
                            forall|k: int| 0 <= k < point ==> (#[trigger] fat_component.remainders@[k]).0 == k,
                        decreases n - point,
                    {
                        fat_component.insert_remainder(Point(point));
                        point = point + 1;
                    }
                    proof {
                        assert forall|p: Point| 0 <= p.0 < n implies #[trigger] fat_component.remainders@.contains(p) by {
                            assert(fat_component.remainders@[p.0 as int] == p);
                        }
                        assert(fat_component.remainders@ =~= all_points(n as nat));
                    }
                    self.fat_component = Some(fat_component);
                    proof {
                        assert(2 * new_size > n);
                        assert(self.is_root_at(big));
                        assert(self.fat_ok());
                    }
                },
                Some(mut fat_component) => {
                    let ghost fr = fat_component.root.0 as int;
                    proof {
                        if fr != ra && fr != rb {
                            lemma_count_merge(v0, ra, rb, big, fr);
                            lemma_count_two_le(lnew, big, fr);
                        }
                    }
                    proof {
                        lemma_count_le(lnew, big);
                    }
                    fat_component.update(root, new_size);
                    let ghost listed = fat_component.remainders@;
                    proof {
                        assert forall|p: Point| 0 <= p.0 < n && lnew[p.0 as int] != root.0 implies #[trigger] listed.contains(p) by {
                            assert(v0[p.0 as int] != fr);
                        }
                        self.lemma_roots();
                    }
                    if (self.size - fat_component.size()) * 2 < fat_component.remainders() {
                        let target_root = fat_component.root();
                        fat_component.filter(&*self, target_root);
                        proof {
                            lemma_compaction_keeps_outside(listed, lnew, root.0 as int);
                            assert forall|p: Point| 0 <= p.0 < n && lnew[p.0 as int] != root.0 implies #[trigger] fat_component.remainders@.contains(p) by {
                                assert(listed.contains(p));
                            }
                            assert forall|k: int| 0 <= k < fat_component.remainders@.len() implies (#[trigger] fat_component.remainders@[k]).0 < n by {
                                assert(fat_component.remainders@.contains(fat_component.remainders@[k]));
                                let m = choose|m: int| 0 <= m < listed.len() && listed[m] == fat_component.remainders@[k];
                                assert(listed[m].0 < n);
                            }
                        }
                    }
                    self.fat_component = Some(fat_component);
                    proof {
                        assert(2 * new_size > n);
                        assert(self.is_root_at(big));
                        assert(self.fat_ok());
                    }
                },
            }
        } else {
            proof {
                if fc is Some {
                    let fr = fc->Some_0.root.0 as int;
                    assert(fr != ra && fr != rb);
                    lemma_count_merge(v0, ra, rb, big, fr);
                    assert forall|p: Point| 0 <= p.0 < n && lnew[p.0 as int] != fr implies #[trigger] fc->Some_0.remainders@.contains(p) by {
                        assert(v0[p.0 as int] != fr);
                    }
                } else if n >= 2 {
                    assert forall|i: int| 0 <= i < n implies 2 * count(lnew, #[trigger] lnew[i]) <= n by {
                        lemma_count_merge(v0, ra, rb, big, lnew[i]);
                        if v0[i] != ra && v0[i] != rb {
                            assert(2 * count(v0, v0[i]) <= n);
                        }
                    }
                }
            }
            self.fat_component = fc;
            proof {
                if fc is Some {
                    let fr = fc->Some_0.root.0 as int;
                    assert(self.is_root_at(fr));
                    assert(fc->Some_0.size == count(self@, fr));
                }
                assert(self.fat_ok());
            }
        }
        proof {
            assert(self.links_ok());
            assert(self.sizes_ok(self@));
            assert(self.fat_ok());
        }
    }

    /// Merges the components of `first` and `second` and tells whether they
    /// were apart. A merge that leaves a component with more than half of the
    /// points starts tracking it, or refreshes the tracked one.
    pub fn unite(&mut self, first: Point, second: Point) -> (r: bool)
        requires
            old(self).wf(),
            first.0 < old(self)@.len(),
            second.0 < old(self)@.len(),
        ensures
            final(self).wf(),
            r == (old(self)@[first.0 as int] != old(self)@[second.0 as int]),
            r ==> final(self)@ == united(old(self)@, first.0 as int, second.0 as int),
            !r ==> final(self)@ == old(self)@,
            old(self).is_tracked() ==> final(self).is_tracked(),
            r && 2 * count(final(self)@, final(self)@[first.0 as int]) > final(self)@.len()
                ==> final(self).is_tracked() && final(self).fat_root() == final(self)@[first.0 as int],
            !old(self).is_tracked() && final(self).is_tracked() ==> final(self).fat_listed() == all_points(
                final(self)@.len(),
            ),
            old(self).is_tracked() ==> final(self).fat_listed() == old(self).fat_listed() || (final(self).fat_listed()
                == kept_outside(old(self).fat_listed(), final(self)@, final(self).fat_root()) && (final(self)@.len()
                - count(final(self)@, final(self).fat_root())) * 2 < old(self).fat_listed().len()),
    {
        let ghost v0 = self@;
        let ghost start = *self;
        let ghost n = self.size as int;
        let ghost ra = v0[first.0 as int];
        let ghost rb = v0[second.0 as int];
        let ghost big = if ra > rb { ra } else { rb };
        let ghost f0 = first;
        let ghost s0 = second;
        proof {
            self.lemma_roots();
        }
        let mut a = first;
        let mut b = second;
        while self.parents[a.0 as usize] != self.parents[b.0 as usize]
            invariant
                self.links_ok(),
                n == self.size,
                n == start.size,
                self.sizes == start.sizes,
                self.fat_component == start.fat_component,
                self.total_internal == start.total_internal,
                self.total_edges == start.total_edges,
                start.wf(),
                start == *old(self),
                f0 == first,
                s0 == second,
                v0 == start@,
                ra == v0[f0.0 as int],
                rb == v0[s0.0 as int],
                big == if ra > rb { ra } else { rb },
                f0.0 < n,
                s0.0 < n,
                forall|i: int| 0 <= i < n ==> #[trigger] self.is_root_at(i) == start.is_root_at(i),
                forall|i: int| 0 <= i < n ==> #[trigger] start.is_root_at(i) == (v0[i] == i),
                forall|i: int| 0 <= i < n ==> 0 <= #[trigger] v0[i] < n && v0[v0[i]] == v0[i],
                a.0 < n,
                b.0 < n,
                (self@[a.0 as int] == ra && self@[b.0 as int] == rb) || (self@[a.0 as int]
                    == rb && self@[b.0 as int] == ra),
                merge_labels(self@, ra, rb, big) == merge_labels(v0, ra, rb, big),
            decreases 2 * n - a.0 - b.0,
        {
            proof {
                assert(self.is_root_at(a.0 as int) || self.steps_up(a.0 as int));
                assert(self.is_root_at(b.0 as int) || self.steps_up(b.0 as int));
            }
            if self.parents[a.0 as usize].0 > self.parents[b.0 as usize].0 {
                let t = a;
                a = b;
                b = t;
            }
            if self.parents[a.0 as usize] == a {
                let (size, join_size, root) = self.merge_roots(a, b, Ghost(v0), Ghost(ra), Ghost(rb));
                proof {
                    assert(self@ =~= united(v0, f0.0 as int, s0.0 as int));
                    assert(self@[f0.0 as int] == root.0);
                }
                self.track_fat(root, size + join_size, Ghost(v0), Ghost(ra), Ghost(rb));
                return true;
            }
            let temp = self.parents[a.0 as usize];
            let target = self.parents[b.0 as usize];
            let ghost before = *self;
            proof {
                before.lemma_reach(a.0 as int);
                before.lemma_reach(b.0 as int);
                assert(root_in(before.parents@, a.0 as int) || steps_up_in(before.parents@, a.0 as int));
                lemma_relink_links(before.parents@, a.0 as int, target.0 as int);
            }
            self.parents.set(a.0 as usize, target);
            proof {
                Self::lemma_relink_view(&before, self, a.0 as int, target.0 as int);
                assert forall|i: int| 0 <= i < n implies #[trigger] self.is_root_at(i) == start.is_root_at(i) by {
                    assert(before.is_root_at(i) == start.is_root_at(i));
                }
                Self::lemma_not_passes_above(&before, temp.0 as int, a.0 as int);
                assert forall|i: int| 0 <= i < n implies #[trigger] merge_labels(self@, ra, rb, big)[i] == merge_labels(v0, ra, rb, big)[i] by {
                    assert(merge_labels(before@, ra, rb, big)[i] == merge_labels(v0, ra, rb, big)[i]);
                    if before.passes(i, a.0 as int) {
                        before.lemma_passes_reach(i, a.0 as int);
                    }
                }
                assert(merge_labels(self@, ra, rb, big) =~= merge_labels(v0, ra, rb, big));
                if before.passes(b.0 as int, a.0 as int) {
                    before.lemma_passes_reach(b.0 as int, a.0 as int);
                }
            }
            a = temp;
        }
        proof {
            self.lemma_reach(a.0 as int);
            self.lemma_reach(b.0 as int);
            assert(ra == rb);
            assert forall|i: int| 0 <= i < n implies #[trigger] self@[i] == v0[i] by {
                assert(merge_labels(self@, ra, rb, big)[i] == merge_labels(v0, ra, rb, big)[i]);
            }
            assert(self@ =~= v0);
            assert forall|i: int| 0 <= i < n && #[trigger] root_in(self.parents@, i) implies self.sizes@[i] == count(self@, i) by {
                assert(start.is_root_at(i));
            }
        }
        false
    }

    /// `size` singleton components and no tracked component.
    pub fn new(size: u32) -> (r: Self)
        requires
            size >= 1,
        ensures
            r.wf(),
            r@ == singletons(size as nat),
            !r.is_tracked(),
            forall|i: int| 0 <= i < size ==> #[trigger] r.is_root_at(i) && r.par(i) == i,
    {
        let mut parents: Vec<Point> = Vec::new();
        let mut sizes: Vec<u32> = Vec::new();
        let mut i: u32 = 0;
        while i < size
            invariant
                i <= size,
                parents@.len() == i,
                sizes@.len() == i,
                forall|j: int| 0 <= j < i ==> (#[trigger] parents@[j]).0 == j && sizes@[j] == 1,
            decreases size - i,
        {
            parents.push(Point(i));
            sizes.push(1);
            i = i + 1;
        }
        let n = size as u64;
        assert(n * (n - 1) <= 0xffff_fffe_0000_0002u64) by (nonlinear_arith)
            requires
                1 <= n <= 0xffff_ffffu64,
        ;
        let r = Self {
            parents,
            sizes,
            fat_component: None,
            total_internal: 0,
            total_edges: n * (n - 1) / 2,
            size,
        };
        proof {
            assert forall|i: int| 0 <= i < size implies #[trigger] r.reach(i) == i by {
                assert(!r.steps_up(i));
            }
            assert(r@ =~= singletons(size as nat));
            lemma_singletons(size as nat);
        }
        r
    }

    /// The tracked component, once there is one.
    pub fn fat_component(&self) -> (r: Option<&FatComponent>)
        requires
            self.wf(),
        ensures
            r is Some == self.is_tracked(),
            r matches Some(fc) ==> {
                let root = fc.root_point().0 as int;
                &&& root < self@.len()
                &&& self@[root] == root
                &&& fc.tracked_size() == count(self@, root)
                &&& 2 * fc.tracked_size() > self@.len()
                &&& forall|p: Point|
                    0 <= p.0 < self@.len() && self@[p.0 as int] != root ==> #[trigger] fc.listed().contains(p)
            },
            r is None && self@.len() >= 2 ==> forall|i: int|
                0 <= i < self@.len() ==> 2 * count(self@, #[trigger] self@[i]) <= self@.len(),
    {
        proof {
            self.lemma_roots();
        }
        self.fat_component.as_ref()
    }

    /// The parent of `point`; a root is its own parent.
    pub fn parent(&self, point: Point) -> (r: Point)
        requires
            self.wf(),
            point.0 < self@.len(),
        ensures
            r.0 == self.par(point.0 as int),
    {
        self.parents[point.0 as usize]
    }

    /// Whether `point` is a root.
    pub fn is_root(&self, point: Point) -> (r: bool)
        requires
            self.wf(),
            point.0 < self@.len(),
        ensures
            r == self.is_root_at(point.0 as int),
    {
        self.parent(point) == point
    }

    /// The size of `point`'s component if `point` is a root.
    pub fn point_size(&self, point: Point) -> (r: Option<u32>)
        requires
            self.wf(),
            point.0 < self@.len(),
        ensures
            self.is_root_at(point.0 as int) ==> (r matches Some(s) && s == count(self@, point.0 as int)),
            !self.is_root_at(point.0 as int) ==> r is None,
    {
        if self.is_root(point) {
            return Some(self.sizes[point.0 as usize]);
        }
        None
    }

    fn walk(&self, point: Point) -> (r: Point)
        requires
            self.links_ok(),
            point.0 < self.size,
        ensures
            r.0 == self.reach(point.0 as int),
    {
        let mut p = point;
        while self.parents[p.0 as usize] != p
            invariant
                self.links_ok(),
                p.0 < self.size,
                self.reach(p.0 as int) == self.reach(point.0 as int),
            decreases self.size - p.0,
        {
            proof {
                assert(self.is_root_at(p.0 as int) || self.steps_up(p.0 as int));
            }
            p = self.parents[p.0 as usize];
        }
        p
    }

    /// The root of `point`'s component.
    pub fn root(&self, point: Point) -> (r: Point)
        requires
            self.wf(),
            point.0 < self@.len(),
        ensures
            r.0 == self@[point.0 as int],
            r.0 < self@.len(),
            self.is_root_at(r.0 as int),
            self.par(r.0 as int) == r.0,
    {
        proof {
            self.lemma_roots();
        }
        self.walk(point)
    }

    /// Whether the two points lie in one component.
    pub fn same_set(&self, first: Point, second: Point) -> (r: bool)
        requires
            self.wf(),
            first.0 < self@.len(),
            second.0 < self@.len(),
        ensures
            r == (self@[first.0 as int] == self@[second.0 as int]),
    {
        self.root(first) == self.root(second)
    }

    /// The size of `point`'s component.
    pub fn root_size(&self, point: Point) -> (r: u32)
        requires
            self.wf(),
            point.0 < self@.len(),
        ensures
            r == count(self@, self@[point.0 as int]),
    {
        proof {
            self.lemma_reach(point.0 as int);
        }
        self.sizes[self.root(point).0 as usize]
    }


    /// One sampling step: draws a pair of points in different components,
    /// uniformly among such pairs, and unites it. Once a component is
    /// tracked, with probability `size * (n - size) / active_edges` one end
    /// is drawn inside it and one from its list, otherwise both ends from the
    /// list; before that, two uniform points. Gives up with `None`, changing
    /// nothing, after `MAX_ATTEMPTS` rejected draws.
    pub fn sample<R: RandomSource>(&mut self, rng: &mut R) -> (r: Option<(Point, Point)>)
        requires
            old(self).wf(),
            same_pairs(old(self)@) < pairs(old(self)@.len()),
        ensures
            final(self).wf(),
            old(self).is_tracked() ==> final(self).is_tracked(),
            r is None ==> final(self)@ == old(self)@,
            r matches Some(e) ==> {
                &&& e.0.0 < old(self)@.len()
                &&& e.1.0 < old(self)@.len()
                &&& old(self)@[e.0.0 as int] != old(self)@[e.1.0 as int]
                &&& final(self)@ == united(old(self)@, e.0.0 as int, e.1.0 as int)
                &&& same_pairs(final(self)@) > same_pairs(old(self)@)
            },
    {
        let pair = self.draw_pair(rng);
        match pair {
            Some((u, v)) => {
                let ghost l = self@;
                proof {
                    let a = l[u.0 as int];
                    let b = l[v.0 as int];
                    lemma_same_pairs_merge(l, a, b, if a > b { a } else { b });
                    lemma_count_pos(l, u.0 as int);
                    lemma_count_pos(l, v.0 as int);
                    assert(count(l, a) * count(l, b) >= 1) by (nonlinear_arith)
                        requires
                            count(l, a) >= 1,
                            count(l, b) >= 1,
                    ;
                }
                self.unite(u, v);
                Some((u, v))
            },
            None => None,
        }
    }

    /// Draws the pair that `sample` unites, changing nothing.
    fn draw_pair<R: RandomSource>(&mut self, rng: &mut R) -> (r: Option<(Point, Point)>)
        requires
            old(self).wf(),
            same_pairs(old(self)@) < pairs(old(self)@.len()),
        ensures
            final(self).wf(),
            final(self)@ == old(self)@,
            final(self).is_tracked() == old(self).is_tracked(),
            r matches Some(e) ==> e.0.0 < old(self)@.len() && e.1.0 < old(self)@.len() && old(self)@[e.0.0 as int]
                != old(self)@[e.1.0 as int],
    {
        let mut budget: u64 = MAX_ATTEMPTS;
        let active_edges = self.active_edges();
        let fc = self.fat_component.take();
        match fc {
            Some(fat_component) => {
                let ghost l = self@;
                let ghost c = fat_component.root.0 as int;
                proof {
                    if forall|i: int| 0 <= i < l.len() ==> l[i] == c {
                        lemma_same_pairs_all(l, c);
                    }
                    let i = choose|i: int| 0 <= i < l.len() && l[i] != c;
                    assert(fat_component.remainders@.contains(Point(i as u32)));
                    lemma_count_le(l, c);
                }
                let fat_size = fat_component.size() as u64;
                let remainder_size = (self.size - fat_component.size()) as u64;
                proof {
                    assert(fat_size * remainder_size <= 0xffff_ffff_ffff_ffffu64) by (nonlinear_arith)
                        requires
                            fat_size <= 0xffff_ffffu64,
                            remainder_size <= 0xffff_ffffu64,
                    ;
                }
                let r = if rng.below_u64(active_edges) < fat_size * remainder_size {
                    let u = self.sample_component(fat_component.root(), &mut budget, rng);
                    let v = self.sample_remainder_vector(fat_component.root(), &fat_component.remainders, &mut budget, rng);
                    match (u, v) {
                        (Some(u), Some(v)) => Some((u, v)),
                        _ => None,
                    }
                } else {
                    self.sample_remainder_vector_pair(fat_component.root(), &fat_component.remainders, &mut budget, rng)
                };
                self.fat_component = Some(fat_component);
                r
            },
            None => self.sample_sparse(rng),
        }
    }

    fn sample_component<R: RandomSource>(&self, component: Point, budget: &mut u64, rng: &mut R) -> (r: Option<Point>)
        requires
            self.links_ok(),
            self.size >= 1,
        ensures
            *final(budget) <= *old(budget),
            r is Some ==> *final(budget) < *old(budget),
            r matches Some(p) ==> p.0 < self.size && self@[p.0 as int] == component.0,
    {
        while *budget > 0
            invariant
                self.links_ok(),
                self.size >= 1,
                *budget <= *old(budget),
            decreases *budget,
        {
            *budget = *budget - 1;
            let point = Point(rng.below_u32(self.size));
            if self.walk(point) == component {
                return Some(point);
            }
        }
        None
    }

    fn sample_remainder_vector<R: RandomSource>(
        &self,
        component: Point,
        remainders: &Vec<Point>,
        budget: &mut u64,
        rng: &mut R,
    ) -> (r: Option<Point>)
        requires
            self.links_ok(),
            0 < remainders@.len() <= self.size,
            forall|k: int| 0 <= k < remainders@.len() ==> (#[trigger] remainders@[k]).0 < self.size,
        ensures
            *final(budget) <= *old(budget),
            r is Some ==> *final(budget) < *old(budget),
            r matches Some(p) ==> p.0 < self.size && self@[p.0 as int] != component.0,
    {
        let len = remainders.len() as u32;
        while *budget > 0
            invariant
                self.links_ok(),
                len == remainders@.len(),
                len > 0,
                forall|k: int| 0 <= k < remainders@.len() ==> (#[trigger] remainders@[k]).0 < self.size,
                *budget <= *old(budget),
            decreases *budget,
        {
            *budget = *budget - 1;
            let index = rng.below_u32(len) as usize;
            let point = remainders[index];
            if self.walk(point) != component {
                return Some(point);
            }
        }
        None
    }

    fn sample_remainder_vector_pair<R: RandomSource>(
        &self,
        component: Point,
        remainders: &Vec<Point>,
        budget: &mut u64,
        rng: &mut R,
    ) -> (r: Option<(Point, Point)>)
        requires
            self.links_ok(),
            0 < remainders@.len() <= self.size,
            forall|k: int| 0 <= k < remainders@.len() ==> (#[trigger] remainders@[k]).0 < self.size,
        ensures
            r matches Some(e) ==> e.0.0 < self.size && e.1.0 < self.size && self@[e.0.0 as int] != self@[e.1.0 as int],
    {
        while *budget > 0
            invariant
                self.links_ok(),
                0 < remainders@.len() <= self.size,
                forall|k: int| 0 <= k < remainders@.len() ==> (#[trigger] remainders@[k]).0 < self.size,
            decreases *budget,
        {
            let first = self.sample_remainder_vector(component, remainders, budget, rng);
            let second = self.sample_remainder_vector(component, remainders, budget, rng);
            match (first, second) {
                (Some(first), Some(second)) => {
                    if self.walk(first) != self.walk(second) {
                        return Some((first, second));
                    }
                },
                _ => {
                    return None;
                },
            }
        }
        None
    }

    /// Draws two uniform points until they lie in different components;
    /// gives up with `None` after `MAX_ATTEMPTS` draws.
    pub fn sample_sparse<R: RandomSource>(&self, rng: &mut R) -> (r: Option<(Point, Point)>)
        requires
            self.wf(),
        ensures
            r matches Some(e) ==> e.0.0 < self@.len() && e.1.0 < self@.len() && self@[e.0.0 as int]
                != self@[e.1.0 as int],
    {
        let mut attempts: u64 = MAX_ATTEMPTS;
        while attempts > 0
            invariant
                self.wf(),
            decreases attempts,
        {
            attempts = attempts - 1;
            let first = Point(rng.below_u32(self.size));
            let second = Point(rng.below_u32(self.size));
            if !self.same_set(first, second) {
                return Some((first, second));
            }
        }
        None
    }

    /// Number of point pairs inside components.
    pub fn total_internal_edges(&self) -> (r: u64)
        requires
            self.wf(),
        ensures
            r == same_pairs(self@),
    {
        self.total_internal
    }

    /// Number of point pairs in different components.
    pub fn active_edges(&self) -> (r: u64)
        requires
            self.wf(),
        ensures
            r + same_pairs(self@) == pairs(self@.len()),
    {
        proof {
            lemma_same_pairs_le(self@);
        }
        self.total_edges - self.total_internal
    }
}

} // verus!
