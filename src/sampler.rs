//! The adaptive edge sampler: it yields, one at a time, the edges that
//! Kruskal's algorithm accepts on a complete graph whose edge weights are
//! independent and identically distributed, without ever drawing the weights.
//!
//! Each accepted edge is uniform among the point pairs that are still in
//! different components. While the components are small, both ends are drawn
//! uniformly from all points and the pair is rejected when it is already
//! joined. Once one component holds most points, the sampler tracks it with
//! the list of points outside it and draws each end from where it can lie.
use vstd::prelude::*;

use crate::partition::{
    count, lemma_big_component, fixed_points, lemma_count_le, lemma_fixed_points_constant, lemma_fixed_points_merge,
    lemma_one_fixed_point, lemma_same_pairs_all, lemma_same_pairs_le, lemma_same_pairs_lt,
    lemma_singletons, pairs, same_pairs, singletons,
};
use crate::random::RandomSource;
use crate::union_find::{united, Point, SizedUnionFind, SENTINEL};

verus! {

/// The most candidate draws that one step makes before it gives up.
pub const MAX_ATTEMPTS: u64 = 0x100_0000_0000;

/// An accepted edge, with the number of pairs that were still free when it
/// was drawn: the rate of the exponential gap before its weight.
#[derive(Clone, Copy, Debug)]
pub struct Edge {
    pub u: u32,
    pub v: u32,
    pub free_edges: u64,
}

/// Why a sampler cannot be built or cannot go on.
#[derive(PartialEq, Eq, Structural, Clone, Copy, Debug)]
pub enum SamplerError {
    /// Fewer than two points.
    TooFewPoints,
    /// More points than a slot can index next to its tag bit.
    TooManyPoints,
    /// One step used up its candidate draws without finding an edge.
    Stalled,
}

/// The component that holds most points, and a list of points that contains
/// every point outside it (and possibly some that have since joined it).
pub struct FatComponent {
    pub root: Point,
    pub size: u32,
    pub remainders: Vec<Point>,
}

impl FatComponent {
    fn new(root: Point, size: u32) -> (r: Self)
        ensures
            r.root == root,
            r.size == size,
            r.remainders@.len() == 0,
    {
        Self { root, size, remainders: Vec::new() }
    }
}

/// The points `i < k` outside the component labelled `r`, in increasing order.
pub open spec fn outside_points(l: Seq<int>, r: int, k: int) -> Seq<Point>
    decreases k,
{
    if k <= 0 {
        Seq::empty()
    } else {
        let s = outside_points(l, r, k - 1);
        if l[k - 1] != r {
            s.push(Point((k - 1) as u32))
        } else {
            s
        }
    }
}

/// The points of `s` outside the component labelled `r`, in their order.
pub open spec fn kept_outside(s: Seq<Point>, l: Seq<int>, r: int) -> Seq<Point>
    decreases s.len(),
{
    if s.len() == 0 {
        s
    } else {
        let t = kept_outside(s.drop_last(), l, r);
        if l[s.last().0 as int] != r {
            t.push(s.last())
        } else {
            t
        }
    }
}

/// Every point outside the component labelled `r` is listed in `s`.
pub open spec fn covers_outside(s: Seq<Point>, l: Seq<int>, r: int) -> bool {
    forall|i: int| 0 <= i < l.len() && l[i] != r ==> #[trigger] s.contains(Point(i as u32))
}

/// What a tracked component promises against the labelling `l`.
pub open spec fn fat_ok(fc: FatComponent, l: Seq<int>) -> bool {
    &&& fc.root.0 < l.len()
    &&& fc.remainders@.len() <= l.len()
    &&& forall|k: int| 0 <= k < fc.remainders@.len() ==> (#[trigger] fc.remainders@[k]).0 < l.len()
    &&& covers_outside(fc.remainders@, l, l[fc.root.0 as int])
}

/// The labelling of `n` points after joining the ends of `edges` in order.
pub open spec fn labels_after(n: nat, edges: Seq<Edge>) -> Seq<int>
    decreases edges.len(),
{
    if edges.len() == 0 {
        singletons(n)
    } else {
        united(labels_after(n, edges.drop_last()), edges.last().u as int, edges.last().v as int)
    }
}

/// Each edge joins two points of `[0, n)` that the edges before it left in
/// different components.
pub open spec fn joins_components(n: nat, edges: Seq<Edge>) -> bool {
    forall|k: int|
        0 <= k < edges.len() ==> (#[trigger] edges[k]).u < n && edges[k].v < n && labels_after(
            n,
            edges.take(k),
        )[edges[k].u as int] != labels_after(n, edges.take(k))[edges[k].v as int]
}

/// All points share one component.
pub open spec fn connected(l: Seq<int>) -> bool {
    forall|i: int, j: int| 0 <= i < l.len() && 0 <= j < l.len() ==> l[i] == l[j]
}

/// Every label is a point that labels itself.
pub open spec fn canonical(l: Seq<int>) -> bool {
    forall|i: int| 0 <= i < l.len() ==> 0 <= #[trigger] l[i] < l.len() && l[l[i]] == l[i]
}

proof fn lemma_labels_after(n: nat, edges: Seq<Edge>)
    requires
        joins_components(n, edges),
    ensures
        labels_after(n, edges).len() == n,
        canonical(labels_after(n, edges)),
        fixed_points(labels_after(n, edges), n as int) + edges.len() == n,
    decreases edges.len(),
{
    if edges.len() == 0 {
        lemma_singletons(n);
    } else {
        let front = edges.drop_last();
        assert forall|k: int| 0 <= k < front.len() implies (#[trigger] front[k]).u < n && front[k].v
            < n && labels_after(n, front.take(k))[front[k].u as int] != labels_after(
            n,
            front.take(k),
        )[front[k].v as int] by {
            assert(front.take(k) =~= edges.take(k));
            assert(front[k] == edges[k]);
        }
        lemma_labels_after(n, front);
        let l = labels_after(n, front);
        let e = edges.last();
        let k = front.len() as int;
        assert(edges[k] == e);
        assert(edges.take(k) =~= front);
        let a = l[e.u as int];
        let b = l[e.v as int];
        let r = if a > b { a } else { b };
        lemma_fixed_points_merge(l, a, b, r, n as int);
        let m = labels_after(n, edges);
        assert forall|i: int| 0 <= i < m.len() implies 0 <= #[trigger] m[i] < m.len() && m[m[i]]
            == m[i] by {
            assert(0 <= l[i] < n);
        }
    }
}

/// Spanning: `n - 1` edges, each joining two components that the edges
/// before it left apart, put all `n` points in one component.
pub proof fn lemma_spanning(n: nat, edges: Seq<Edge>)
    requires
        n >= 1,
        joins_components(n, edges),
        edges.len() + 1 == n,
    ensures
        connected(labels_after(n, edges)),
{
    lemma_labels_after(n, edges);
    let l = labels_after(n, edges);
    assert forall|i: int, j: int| 0 <= i < l.len() && 0 <= j < l.len() implies l[i] == l[j] by {
        lemma_one_fixed_point(l, n as int, l[i], l[j]);
    }
}

proof fn lemma_outside_points(l: Seq<int>, r: int, k: int)
    requires
        0 <= k <= l.len(),
        l.len() < SENTINEL,
    ensures
        outside_points(l, r, k).len() <= k,
        forall|j: int|
            0 <= j < outside_points(l, r, k).len() ==> (#[trigger] outside_points(l, r, k)[j]).0
                < k && l[outside_points(l, r, k)[j].0 as int] != r,
        forall|i: int|
            0 <= i < k && l[i] != r ==> #[trigger] outside_points(l, r, k).contains(
                Point(i as u32),
            ),
    decreases k,
{
    if k > 0 {
        lemma_outside_points(l, r, k - 1);
        let s = outside_points(l, r, k - 1);
        let t = outside_points(l, r, k);
        assert forall|i: int| 0 <= i < k && l[i] != r implies #[trigger] t.contains(
            Point(i as u32),
        ) by {
            if i < k - 1 {
                assert(s.contains(Point(i as u32)));
                let j = choose|j: int| 0 <= j < s.len() && s[j] == Point(i as u32);
                assert(t[j] == Point(i as u32));
            } else {
                assert(t[t.len() - 1] == Point(i as u32));
            }
        }
    }
}

/// Compaction keeps exactly the listed points that are still outside the
/// component labelled `r`: it drops only points that have joined it, and
/// every listed point outside it stays listed.
pub proof fn lemma_compaction_keeps_outside(s: Seq<Point>, l: Seq<int>, r: int)
    requires
        forall|k: int| 0 <= k < s.len() ==> (#[trigger] s[k]).0 < l.len(),
    ensures
        kept_outside(s, l, r).len() <= s.len(),
        forall|p: Point| #[trigger]
            kept_outside(s, l, r).contains(p) ==> s.contains(p) && l[p.0 as int] != r,
        forall|p: Point| s.contains(p) && l[p.0 as int] != r ==> #[trigger] kept_outside(
            s,
            l,
            r,
        ).contains(p),
    decreases s.len(),
{
    if s.len() > 0 {
        let t = s.drop_last();
        lemma_compaction_keeps_outside(t, l, r);
        let kt = kept_outside(t, l, r);
        let ks = kept_outside(s, l, r);
        assert forall|p: Point| #[trigger] ks.contains(p) implies s.contains(p) && l[p.0 as int]
            != r by {
            let j = choose|j: int| 0 <= j < ks.len() && ks[j] == p;
            if j < kt.len() {
                assert(kt[j] == p);
                assert(kt.contains(p));
                let m = choose|m: int| 0 <= m < t.len() && t[m] == p;
                assert(s[m] == p);
            } else {
                assert(s[s.len() - 1] == p);
            }
        }
        assert forall|p: Point| s.contains(p) && l[p.0 as int] != r implies #[trigger] ks.contains(
            p,
        ) by {
            let m = choose|m: int| 0 <= m < s.len() && s[m] == p;
            if m < s.len() - 1 {
                assert(t[m] == p);
                assert(t.contains(p));
                assert(kt.contains(p));
                let j = choose|j: int| 0 <= j < kt.len() && kt[j] == p;
                assert(ks[j] == p);
            } else {
                assert(ks[ks.len() - 1] == p);
            }
        }
    }
}

/// Looks for a component that holds at least half of the points. If there is
/// one, returns its root and size with the list of every point outside it.
pub fn find_fat_component(set: &mut SizedUnionFind) -> (r: Option<FatComponent>)
    requires
        old(set).wf(),
    ensures
        final(set).wf(),
        final(set)@ == old(set)@,
        r matches Some(fc) ==> {
            let l = old(set)@;
            &&& fc.root.0 < l.len()
            &&& l[fc.root.0 as int] == fc.root.0
            &&& fc.size == count(l, fc.root.0 as int)
            &&& 2 * fc.size >= l.len()
            &&& fc.remainders@ == outside_points(l, fc.root.0 as int, l.len() as int)
        },
        r is None ==> forall|i: int|
            0 <= i < old(set)@.len() ==> 2 * count(old(set)@, #[trigger] old(set)@[i]) < old(
                set,
            )@.len(),
        2 * (pairs(old(set)@.len()) - same_pairs(old(set)@)) < pairs(old(set)@.len()) ==> r is Some,
{
    let ghost l = set@;
    proof {
        set.lemma_labels();
    }
    let n = set.total_size();
    let mut v: u32 = 0;
    while v < n
        invariant
            set.wf(),
            set@ == l,
            l == old(set)@,
            n == l.len(),
            v <= n,
            forall|i: int| 0 <= i < v ==> 2 * count(l, #[trigger] l[i]) < n,
            n < SENTINEL,
        decreases n - v,
    {
        let size = set.size(Point(v));
        proof {
            lemma_count_le(l, l[v as int]);
        }
        if size * 2 >= n {
            let root = set.root(Point(v));
            proof {
                set.lemma_labels();
            }
            let mut fat_component = FatComponent::new(root, size);
            let mut w: u32 = 0;
            while w < n
                invariant
                    set.wf(),
                    set@ == l,
                    n == l.len(),
                    w <= n,
                    v < n,
                    n < SENTINEL,
                    root.0 == l[v as int],
                    fat_component.root == root,
                    fat_component.size == size,
                    fat_component.remainders@ == outside_points(l, root.0 as int, w as int),
                decreases n - w,
            {
                if set.root(Point(w)) != root {
                    fat_component.remainders.push(Point(w));
                }
                w = w + 1;
            }
            return Some(fat_component);
        }
        v = v + 1;
    }
    proof {
        lemma_same_pairs_le(l);
        if 2 * (pairs(l.len()) - same_pairs(l)) < pairs(l.len()) {
            let i = lemma_big_component(l);
            assert(2 * count(l, l[i]) < n);
        }
    }
    None
}

/// Brings a tracked component up to date: its current root and size, and,
/// once more than half of the list has joined it, a list compacted to the
/// points still outside it.
pub fn update_fat_component(set: &mut SizedUnionFind, component: &mut FatComponent)
    requires
        old(set).wf(),
        fat_ok(*old(component), old(set)@),
    ensures
        final(set).wf(),
        final(set)@ == old(set)@,
        ({
            let l = old(set)@;
            let r = l[old(component).root.0 as int];
            let size = count(l, r);
            &&& final(component).root.0 == r
            &&& final(component).size == size
            &&& fat_ok(*final(component), l)
            &&& final(component).remainders@ == if (l.len() - size) * 2 < old(
                component,
            ).remainders@.len() {
                kept_outside(old(component).remainders@, l, r)
            } else {
                old(component).remainders@
            }
        }),
{
    let ghost l = set@;
    let ghost old_list = component.remainders@;
    proof {
        set.lemma_labels();
    }
    component.root = set.root(component.root);
    component.size = set.size(component.root);
    proof {
        lemma_count_le(l, component.root.0 as int);
        assert(component.remainders@.len() <= l.len());
    }
    if (set.total_size() - component.size) * 2 < component.remainders.len() as u32 {
        let mut kept: Vec<Point> = Vec::new();
        let mut k: usize = 0;
        while k < component.remainders.len()
            invariant
                set.wf(),
                set@ == l,
                component.remainders@ == old_list,
                forall|j: int| 0 <= j < old_list.len() ==> (#[trigger] old_list[j]).0 < l.len(),
                component.root.0 < l.len(),
                component.root.0 == l[component.root.0 as int],
                k <= old_list.len(),
                kept@ == kept_outside(old_list.take(k as int), l, component.root.0 as int),
            decreases old_list.len() - k,
        {
            let p = component.remainders[k];
            proof {
                assert(old_list.take(k as int + 1).drop_last() =~= old_list.take(k as int));
            }
            if set.root(p) != component.root {
                kept.push(p);
            }
            k = k + 1;
        }
        proof {
            assert(old_list.take(k as int) =~= old_list);
        }
        component.remainders = kept;
    }
    proof {
        let r = l[component.root.0 as int];
        lemma_compaction_keeps_outside(old_list, l, r);
        let s = component.remainders@;
        assert forall|i: int| 0 <= i < l.len() && l[i] != r implies #[trigger] s.contains(
            Point(i as u32),
        ) by {
            assert(old_list.contains(Point(i as u32)));
        }
        assert forall|k: int| 0 <= k < s.len() implies (#[trigger] s[k]).0 < l.len() by {
            if s != old_list {
                assert(s.contains(s[k]));
            }
        }
    }
}

fn sample_component<R: RandomSource>(
    rng: &mut R,
    set: &mut SizedUnionFind,
    component: &FatComponent,
    budget: &mut u64,
) -> (r: Option<Point>)
    requires
        old(set).wf(),
        component.root.0 < old(set)@.len(),
    ensures
        final(set).wf(),
        final(set)@ == old(set)@,
        *final(budget) <= *old(budget),
        r is Some ==> *final(budget) < *old(budget),
        *old(budget) == 0 ==> r is None,
        r matches Some(p) ==> p.0 < old(set)@.len() && old(set)@[p.0 as int]
            == component.root.0,
{
    proof {
        set.lemma_labels();
    }
    let n = set.total_size();
    while *budget > 0
        invariant
            set.wf(),
            set@ == old(set)@,
            n == set@.len(),
            n >= 1,
            component.root.0 < n,
            *budget <= *old(budget),
        decreases *budget,
    {
        *budget = *budget - 1;
        let u = Point(rng.below_u32(n));
        if set.root(u) == component.root {
            return Some(u);
        }
    }
    None
}

fn sample_remainder<R: RandomSource>(
    rng: &mut R,
    set: &mut SizedUnionFind,
    component: &FatComponent,
    budget: &mut u64,
) -> (r: Option<Point>)
    requires
        old(set).wf(),
        0 < component.remainders@.len() <= old(set)@.len(),
        forall|k: int|
            0 <= k < component.remainders@.len() ==> (#[trigger] component.remainders@[k]).0
                < old(set)@.len(),
    ensures
        final(set).wf(),
        final(set)@ == old(set)@,
        *final(budget) <= *old(budget),
        r is Some ==> *final(budget) < *old(budget),
        r matches Some(p) ==> p.0 < old(set)@.len() && old(set)@[p.0 as int]
            != component.root.0 && component.remainders@.contains(p),
        *old(budget) == 0 ==> r is None,
{
    proof {
        set.lemma_labels();
    }
    let len = component.remainders.len() as u32;
    while *budget > 0
        invariant
            set.wf(),
            set@ == old(set)@,
            len == component.remainders@.len(),
            len > 0,
            forall|k: int|
                0 <= k < component.remainders@.len() ==> (#[trigger] component.remainders@[k]).0
                    < set@.len(),
            *budget <= *old(budget),
        decreases *budget,
    {
        *budget = *budget - 1;
        let index = rng.below_u32(len) as usize;
        let u = component.remainders[index];
        proof {
            assert(component.remainders@[index as int] == u);
        }
        if set.root(u) != component.root {
            return Some(u);
        }
    }
    None
}

fn sample_sparse_edge<R: RandomSource>(
    rng: &mut R,
    set: &mut SizedUnionFind,
    budget: &mut u64,
) -> (r: Option<(Point, Point)>)
    requires
        old(set).wf(),
    ensures
        final(set).wf(),
        r matches Some(e) ==> e.0.0 < old(set)@.len() && e.1.0 < old(set)@.len() && old(set)@[e.0.0 as int]
            != old(set)@[e.1.0 as int] && final(set)@ == united(
            old(set)@,
            e.0.0 as int,
            e.1.0 as int,
        ),
        r is None ==> final(set)@ == old(set)@,
        *old(budget) == 0 ==> r is None,
{
    proof {
        set.lemma_labels();
    }
    let n = set.total_size();
    while *budget > 0
        invariant
            set.wf(),
            set@ == old(set)@,
            n == set@.len(),
            n >= 1,
            *budget <= *old(budget),
        decreases *budget,
    {
        *budget = *budget - 1;
        let u = Point(rng.below_u32(n));
        let v = Point(rng.below_u32(n));
        if set.unite(u, v) {
            return Some((u, v));
        }
    }
    None
}

/// Draws a free pair when a component is tracked: with probability
/// `size * (n - size) / free`, one end inside the component and one outside;
/// otherwise two ends from the list of outside points, redrawn until they lie
/// in different components.
fn sample_component_edge<R: RandomSource>(
    rng: &mut R,
    set: &mut SizedUnionFind,
    component: &FatComponent,
    budget: &mut u64,
) -> (r: Option<(Point, Point)>)
    requires
        old(set).wf(),
        fat_ok(*component, old(set)@),
        old(set)@[component.root.0 as int] == component.root.0,
        component.size == count(old(set)@, component.root.0 as int),
        component.remainders@.len() > 0,
        same_pairs(old(set)@) < pairs(old(set)@.len()),
    ensures
        final(set).wf(),
        r matches Some(e) ==> e.0.0 < old(set)@.len() && e.1.0 < old(set)@.len() && old(set)@[e.0.0 as int]
            != old(set)@[e.1.0 as int] && final(set)@ == united(
            old(set)@,
            e.0.0 as int,
            e.1.0 as int,
        ),
        r is None ==> final(set)@ == old(set)@,
        r matches Some(e) ==> {
            let l = old(set)@;
            let root = component.root.0;
            ||| (l[e.0.0 as int] == root && l[e.1.0 as int] != root && component.remainders@.contains(e.1))
            ||| (l[e.0.0 as int] != root && l[e.1.0 as int] != root && component.remainders@.contains(e.0)
                && component.remainders@.contains(e.1))
        },
        *old(budget) == 0 ==> r is None,
{
    let ghost l = set@;
    let fat_size = component.size;
    proof {
        set.lemma_labels();
        lemma_count_le(l, component.root.0 as int);
        assert(fat_size as u64 * (set@.len() - fat_size) as u64 <= 0x4000_0000_0000_0000u64)
            by (nonlinear_arith)
            requires
                fat_size <= set@.len() < 0x8000_0000u64,
        ;
    }
    let remainder_size = set.total_size() - fat_size;
    let active = set.free_edges();
    if rng.below_u64(active) < fat_size as u64 * remainder_size as u64 {
        let u = sample_component(rng, set, component, budget);
        let v = sample_remainder(rng, set, component, budget);
        match (u, v) {
            (Some(u), Some(v)) => {
                set.unite(u, v);
                Some((u, v))
            },
            _ => None,
        }
    } else {
        while *budget > 0
            invariant
                set.wf(),
                set@ == l,
                l == old(set)@,
                fat_ok(*component, l),
                0 < component.remainders@.len(),
                *budget <= *old(budget),
            decreases *budget,
        {
            let u = sample_remainder(rng, set, component, budget);
            let v = sample_remainder(rng, set, component, budget);
            match (u, v) {
                (Some(u), Some(v)) => {
                    if set.unite(u, v) {
                        return Some((u, v));
                    }
                },
                _ => {
                    return None;
                },
            }
        }
        None
    }
}

/// The sampler: a union-find over the points, the component it tracks once
/// one dominates, and the number of edges the spanning tree still needs.
pub struct FatComponentSampler<R: RandomSource> {
    fat_component: Option<FatComponent>,
    total_count: u32,
    set: SizedUnionFind,
    rng: R,
    attempt_limit: u64,
}

impl<R: RandomSource> FatComponentSampler<R> {
    /// The sampler's invariant: a well-formed structure on at least two
    /// points, one component more than the edges still needed, and a tracked
    /// component whose list covers every point outside it.
    pub closed spec fn wf(&self) -> bool {
        &&& self.set.wf()
        &&& self.set@.len() >= 2
        &&& fixed_points(self.set@, self.set@.len() as int) == self.total_count + 1
        &&& (self.fat_component matches Some(fc) ==> fat_ok(fc, self.set@))
    }

    /// For each point, the root of its component.
    pub closed spec fn labels(&self) -> Seq<int> {
        self.set@
    }

    /// Number of edges the spanning tree still needs.
    pub closed spec fn remaining(&self) -> nat {
        self.total_count as nat
    }

    /// Whether a dominating component is tracked.
    pub closed spec fn is_tracked(&self) -> bool {
        self.fat_component is Some
    }

    /// The tracked component, when `is_tracked()`.
    pub closed spec fn fat(&self) -> FatComponent {
        self.fat_component->Some_0
    }

    /// How many candidate draws one step may make.
    pub closed spec fn attempt_limit(&self) -> u64 {
        self.attempt_limit
    }

    /// A sampler over `size` singleton points that will yield `size - 1` edges.
    pub fn new(rng: R, size: u32) -> (r: Result<Self, SamplerError>)
        ensures
            size < 2 ==> (r matches Err(e) && e == SamplerError::TooFewPoints),
            size >= SENTINEL ==> (r matches Err(e) && e == SamplerError::TooManyPoints),
            2 <= size < SENTINEL ==> (r matches Ok(s) && s.wf() && s.labels() == singletons(
                size as nat,
            ) && s.remaining() == size - 1 && !s.is_tracked() && s.attempt_limit() == MAX_ATTEMPTS),
    {
        if size < 2 {
            return Err(SamplerError::TooFewPoints);
        }
        if size >= SENTINEL {
            return Err(SamplerError::TooManyPoints);
        }
        let set = SizedUnionFind::new(size);
        proof {
            lemma_singletons(size as nat);
        }
        Ok(Self { rng, set, total_count: size - 1, fat_component: None, attempt_limit: MAX_ATTEMPTS })
    }

    /// Sets how many candidate draws one step may make before it reports
    /// `SamplerError::Stalled` (`MAX_ATTEMPTS` unless set).
    pub fn set_attempt_limit(&mut self, limit: u64)
        requires
            old(self).wf(),
        ensures
            final(self).wf(),
            final(self).labels() == old(self).labels(),
            final(self).remaining() == old(self).remaining(),
            final(self).is_tracked() == old(self).is_tracked(),
            final(self).fat() == old(self).fat(),
            final(self).attempt_limit() == limit,
    {
        self.attempt_limit = limit;
    }

    /// Number of edges the spanning tree still needs.
    pub fn remaining_edges(&self) -> (r: u32)
        ensures
            r == self.remaining(),
    {
        self.total_count
    }

    /// The union-find that the accepted edges have built so far.
    pub fn union_find(&self) -> (r: &SizedUnionFind)
        requires
            self.wf(),
        ensures
            r.wf(),
            r@ == self.labels(),
    {
        &self.set
    }

    /// The tracked component, if one has been found.
    pub fn fat_component(&self) -> (r: Option<&FatComponent>)
        requires
            self.wf(),
        ensures
            r is Some == self.is_tracked(),
            r matches Some(fc) ==> fat_ok(*fc, self.labels()),
    {
        self.fat_component.as_ref()
    }

    /// The next edge of the spanning tree, or `None` once it is complete.
    ///
    /// The edge is uniform among the pairs of points in different components.
    /// A tracked component is refreshed first; while none is tracked and more
    /// than half of all pairs are joined, the sampler looks for one.
    pub fn next(&mut self) -> (r: Result<Option<Edge>, SamplerError>)
        requires
            old(self).wf(),
        ensures
            final(self).wf(),
            final(self).attempt_limit() == old(self).attempt_limit(),
            old(self).remaining() == 0 ==> (r matches Ok(None) && final(self).labels() == old(
                self,
            ).labels() && final(self).remaining() == 0 && final(self).is_tracked()
                == old(self).is_tracked()),
            old(self).remaining() > 0 && old(self).attempt_limit() == 0 ==> (r matches Err(e) && e
                == SamplerError::Stalled),
            old(self).remaining() > 0 && old(self).is_tracked() ==> ({
                let l = old(self).labels();
                let root = l[old(self).fat().root.0 as int];
                let size = count(l, root);
                let listed = old(self).fat().remainders@;
                &&& final(self).fat().root.0 == root
                &&& final(self).fat().size == size
                &&& final(self).fat().remainders@ == if (l.len() - size) * 2 < listed.len() {
                    kept_outside(listed, l, root)
                } else {
                    listed
                }
            }),
            old(self).remaining() > 0 && 2 * (pairs(old(self).labels().len()) - same_pairs(
                old(self).labels(),
            )) < pairs(old(self).labels().len()) ==> final(self).is_tracked(),
            old(self).remaining() > 0 ==> match r {
                Ok(Some(e)) => {
                    let l = old(self).labels();
                    &&& e.u < l.len()
                    &&& e.v < l.len()
                    &&& l[e.u as int] != l[e.v as int]
                    &&& final(self).labels() == united(l, e.u as int, e.v as int)
                    &&& e.free_edges == pairs(l.len()) - same_pairs(l)
                    &&& final(self).remaining() == old(self).remaining() - 1
                },
                Ok(None) => false,
                Err(e) => e == SamplerError::Stalled && final(self).labels() == old(
                    self,
                ).labels() && final(self).remaining() == old(self).remaining(),
            },
            old(self).is_tracked() ==> final(self).is_tracked(),
            !old(self).is_tracked() && final(self).is_tracked() ==> 2 * (pairs(
                old(self).labels().len(),
            ) - same_pairs(old(self).labels())) < pairs(old(self).labels().len()),
    {
        let ghost l = self.set@;
        let ghost n = l.len();
        proof {
            self.set.lemma_labels();
            lemma_same_pairs_le(l);
            if same_pairs(l) == pairs(n) {
                if exists|i: int, j: int| 0 <= i < n && 0 <= j < n && l[i] != l[j] {
                    let (i, j) = choose|i: int, j: int| 0 <= i < n && 0 <= j < n && l[i] != l[j];
                    lemma_same_pairs_lt(l, i, j);
                }
                lemma_fixed_points_constant(l, l[0], n as int);
            }
        }
        if self.set.free_edges() == 0 || self.total_count == 0 {
            return Ok(None);
        }
        let free = self.set.free_edges();
        proof {
            assert(pairs(n) <= 0x2000_0000_0000_0000) by (nonlinear_arith)
                requires
                    n < 0x8000_0000,
                    pairs(n) == n * (n - 1) / 2,
            ;
        }
        let fc = self.fat_component.take();
        match fc {
            Some(mut component) => {
                update_fat_component(&mut self.set, &mut component);
                self.fat_component = Some(component);
            },
            None => {
                if self.set.free_edges() * 2 < self.set.total_edges() {
                    self.fat_component = find_fat_component(&mut self.set);
                    proof {
                        if self.fat_component is Some {
                            let fc = self.fat_component->Some_0;
                            lemma_outside_points(l, fc.root.0 as int, n as int);
                            assert forall|i: int| 0 <= i < l.len() && l[i] != l[fc.root.0 as int] implies #[trigger] fc.remainders@.contains(
                                Point(i as u32),
                            ) by {}
                        }
                    }
                }
            },
        }
        let mut budget: u64 = self.attempt_limit;
        let fc = self.fat_component.take();
        let edge = match fc {
            Some(component) => {
                proof {
                    let c = l[component.root.0 as int];
                    if forall|i: int| 0 <= i < n ==> l[i] == c {
                        lemma_same_pairs_all(l, c);
                    }
                    let i = choose|i: int| 0 <= i < n && l[i] != c;
                    assert(component.remainders@.contains(Point(i as u32)));
                }
                let e = sample_component_edge(&mut self.rng, &mut self.set, &component, &mut budget);
                self.fat_component = Some(component);
                e
            },
            None => sample_sparse_edge(&mut self.rng, &mut self.set, &mut budget),
        };
        match edge {
            Some((u, v)) => {
                proof {
                    let a = l[u.0 as int];
                    let b = l[v.0 as int];
                    let r = if a > b { a } else { b };
                    lemma_fixed_points_merge(l, a, b, r, n as int);
                    let l2 = self.set@;
                    if self.fat_component is Some {
                        let fc = self.fat_component->Some_0;
                        let c = l[fc.root.0 as int];
                        assert forall|i: int| 0 <= i < l2.len() && l2[i] != l2[fc.root.0 as int] implies #[trigger] fc.remainders@.contains(
                            Point(i as u32),
                        ) by {
                            assert(l[i] != c);
                        }
                    }
                }
                self.total_count = self.total_count - 1;
                Ok(Some(Edge { u: u.0, v: v.0, free_edges: free }))
            },
            None => Err(SamplerError::Stalled),
        }
    }
}

/// Runs a sampler to the end: the edges of a spanning tree of `size` points,
/// in the order in which Kruskal's algorithm accepts them.
pub fn mst<R: RandomSource>(size: u32, rng: R) -> (r: Result<Vec<Edge>, SamplerError>)
    ensures
        size < 2 ==> r == Err::<Vec<Edge>, SamplerError>(SamplerError::TooFewPoints),
        size >= SENTINEL ==> r == Err::<Vec<Edge>, SamplerError>(SamplerError::TooManyPoints),
        2 <= size < SENTINEL ==> match r {
            Ok(edges) => edges@.len() == size - 1 && joins_components(size as nat, edges@)
                && connected(labels_after(size as nat, edges@)),
            Err(e) => e == SamplerError::Stalled,
        },
{
    let mut sampler = match FatComponentSampler::new(rng, size) {
        Ok(s) => s,
        Err(e) => {
            return Err(e);
        },
    };
    let ghost n = size as nat;
    let mut edges: Vec<Edge> = Vec::new();
    while sampler.remaining_edges() > 0
        invariant
            sampler.wf(),
            sampler.labels() == labels_after(n, edges@),
            sampler.labels().len() == n,
            joins_components(n, edges@),
            edges@.len() + sampler.remaining() == n - 1,
            n == size,
            2 <= size < SENTINEL,
        decreases sampler.remaining(),
    {
        match sampler.next() {
            Ok(Some(e)) => {
                let ghost before = edges@;
                edges.push(e);
                proof {
                    assert(edges@.drop_last() =~= before);
                    assert forall|k: int| 0 <= k < edges@.len() implies (#[trigger] edges@[k]).u
                        < n && edges@[k].v < n && labels_after(n, edges@.take(k))[edges@[k].u as int]
                        != labels_after(n, edges@.take(k))[edges@[k].v as int] by {
                        assert(edges@.take(k) =~= before.take(k));
                        if k == before.len() {
                            assert(before.take(k) =~= before);
                        }
                    }
                }
            },
            _ => {
                return Err(SamplerError::Stalled);
            },
        }
    }
    proof {
        lemma_spanning(n, edges@);
    }
    Ok(edges)
}

} // verus!
