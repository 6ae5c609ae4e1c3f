//! Labelled partitions of `[0, n)`: each point carries the label of its
//! component. These spec functions and lemmas describe what a union-find
//! structure represents.
use vstd::prelude::*;

verus! {

/// Number of positions of `s` that hold `x`.
pub open spec fn count(s: Seq<int>, x: int) -> nat
    decreases s.len(),
{
    if s.len() == 0 {
        0
    } else {
        count(s.drop_last(), x) + if s.last() == x { 1nat } else { 0nat }
    }
}

/// Number of index pairs `i < j` with `s[i] == s[j]`: the pairs of points that
/// already lie in one component.
pub open spec fn same_pairs(s: Seq<int>) -> nat
    decreases s.len(),
{
    if s.len() == 0 {
        0
    } else {
        same_pairs(s.drop_last()) + count(s.drop_last(), s.last())
    }
}

/// `s` with the labels `a` and `b` both replaced by `r`.
pub open spec fn merge_labels(s: Seq<int>, a: int, b: int, r: int) -> Seq<int> {
    s.map_values(|x: int| if x == a || x == b { r } else { x })
}

/// Number of positions `i < k` with `s[i] == i`.
pub open spec fn fixed_points(s: Seq<int>, k: int) -> nat
    decreases k,
{
    if k <= 0 {
        0
    } else {
        fixed_points(s, k - 1) + if s[k - 1] == k - 1 { 1nat } else { 0nat }
    }
}

/// The labelling in which every point is alone: `s[i] == i`.
pub open spec fn singletons(n: nat) -> Seq<int> {
    Seq::new(n, |i: int| i)
}

/// Number of pairs of `n` points.
pub open spec fn pairs(n: nat) -> nat {
    (n * (n - 1) / 2) as nat
}

pub proof fn lemma_count_le(s: Seq<int>, x: int)
    ensures
        count(s, x) <= s.len(),
    decreases s.len(),
{
    if s.len() > 0 {
        lemma_count_le(s.drop_last(), x);
    }
}

pub proof fn lemma_count_two_le(s: Seq<int>, a: int, b: int)
    requires
        a != b,
    ensures
        count(s, a) + count(s, b) <= s.len(),
    decreases s.len(),
{
    if s.len() > 0 {
        lemma_count_two_le(s.drop_last(), a, b);
    }
}

/// A label that some position does not hold occurs fewer than `s.len()` times.
pub proof fn lemma_count_lt(s: Seq<int>, x: int, k: int)
    requires
        0 <= k < s.len(),
        s[k] != x,
    ensures
        count(s, x) < s.len(),
    decreases s.len(),
{
    if k == s.len() - 1 {
        lemma_count_le(s.drop_last(), x);
    } else {
        lemma_count_lt(s.drop_last(), x, k);
    }
}

/// A label held at some position occurs at least once.
pub proof fn lemma_count_pos(s: Seq<int>, k: int)
    requires
        0 <= k < s.len(),
    ensures
        count(s, s[k]) >= 1,
    decreases s.len(),
{
    if k < s.len() - 1 {
        lemma_count_pos(s.drop_last(), k);
    }
}

pub proof fn lemma_count_merge(s: Seq<int>, a: int, b: int, r: int, x: int)
    requires
        a != b,
        r == a || r == b,
    ensures
        count(merge_labels(s, a, b, r), x) == if x == r {
            count(s, a) + count(s, b)
        } else if x == a || x == b {
            0
        } else {
            count(s, x)
        },
    decreases s.len(),
{
    let m = merge_labels(s, a, b, r);
    if s.len() > 0 {
        assert(m.drop_last() =~= merge_labels(s.drop_last(), a, b, r));
        lemma_count_merge(s.drop_last(), a, b, r, x);
    }
}

/// Merging the components labelled `a` and `b` makes exactly
/// `count(s, a) * count(s, b)` new pairs of points share a component.
pub proof fn lemma_same_pairs_merge(s: Seq<int>, a: int, b: int, r: int)
    requires
        a != b,
        r == a || r == b,
    ensures
        same_pairs(merge_labels(s, a, b, r)) == same_pairs(s) + count(s, a) * count(s, b),
    decreases s.len(),
{
    let m = merge_labels(s, a, b, r);
    if s.len() > 0 {
        let t = s.drop_last();
        let x = s.last();
        assert(m.drop_last() =~= merge_labels(t, a, b, r));
        lemma_same_pairs_merge(t, a, b, r);
        lemma_count_merge(t, a, b, r, m.last());
        assert(same_pairs(m) == same_pairs(merge_labels(t, a, b, r)) + count(
            merge_labels(t, a, b, r),
            m.last(),
        ));
        assert(same_pairs(s) == same_pairs(t) + count(t, x));
        let ca = count(t, a);
        let cb = count(t, b);
        let sa = count(s, a);
        let sb = count(s, b);
        if x == a {
            assert(sa == ca + 1 && sb == cb);
            assert(sa * sb == ca * cb + cb) by (nonlinear_arith)
                requires sa == ca + 1 && sb == cb;
        } else if x == b {
            assert(sa == ca && sb == cb + 1);
            assert(sa * sb == ca * cb + ca) by (nonlinear_arith)
                requires sa == ca && sb == cb + 1;
        } else {
            assert(sa == ca && sb == cb);
        }
        assert(m.last() == if x == a || x == b { r } else { x });
        assert(same_pairs(m) == same_pairs(s) + sa * sb);
        assert(same_pairs(merge_labels(s, a, b, r)) == same_pairs(s) + count(s, a) * count(s, b));
    } else {
        assert(m =~= s);
        assert(same_pairs(s) == 0);
        assert(count(s, a) == 0);
        assert(same_pairs(merge_labels(s, a, b, r)) == 0);
    }
}

pub proof fn lemma_same_pairs_le(s: Seq<int>)
    ensures
        same_pairs(s) <= pairs(s.len()),
    decreases s.len(),
{
    if s.len() > 0 {
        let n = s.len();
        lemma_same_pairs_le(s.drop_last());
        lemma_count_le(s.drop_last(), s.last());
        assert((n - 1) * (n - 2) / 2 + (n - 1) == n * (n - 1) / 2) by (nonlinear_arith)
            requires n >= 1;
    }
}

/// Two positions with different labels leave some pair of points apart.
pub proof fn lemma_same_pairs_lt(s: Seq<int>, i: int, j: int)
    requires
        0 <= i < s.len(),
        0 <= j < s.len(),
        s[i] != s[j],
    ensures
        same_pairs(s) < pairs(s.len()),
    decreases s.len(),
{
    let n = s.len();
    let t = s.drop_last();
    assert((n - 1) * (n - 2) / 2 + (n - 1) == n * (n - 1) / 2) by (nonlinear_arith)
        requires n >= 1;
    if i < n - 1 && j < n - 1 {
        lemma_same_pairs_lt(t, i, j);
        lemma_count_le(t, s.last());
    } else {
        lemma_same_pairs_le(t);
        if i == n - 1 {
            lemma_count_lt(t, s.last(), j);
        } else {
            lemma_count_lt(t, s.last(), i);
        }
    }
}

/// When every position holds `c`, every pair of points shares a component.
pub proof fn lemma_same_pairs_all(s: Seq<int>, c: int)
    requires
        forall|i: int| 0 <= i < s.len() ==> s[i] == c,
    ensures
        same_pairs(s) == pairs(s.len()),
    decreases s.len(),
{
    if s.len() > 0 {
        let n = s.len();
        let t = s.drop_last();
        lemma_same_pairs_all(t, c);
        lemma_count_all(t, c);
        assert((n - 1) * (n - 2) / 2 + (n - 1) == n * (n - 1) / 2) by (nonlinear_arith)
            requires n >= 1;
    }
}

proof fn lemma_count_all(s: Seq<int>, c: int)
    requires
        forall|i: int| 0 <= i < s.len() ==> s[i] == c,
    ensures
        count(s, c) == s.len(),
    decreases s.len(),
{
    if s.len() > 0 {
        lemma_count_all(s.drop_last(), c);
    }
}

/// When every position holds `c`, `c` is the only possible fixed point.
pub proof fn lemma_fixed_points_constant(s: Seq<int>, c: int, k: int)
    requires
        forall|i: int| 0 <= i < s.len() ==> s[i] == c,
        0 <= c < s.len(),
        0 <= k <= s.len(),
    ensures
        fixed_points(s, k) == if c < k { 1nat } else { 0nat },
    decreases k,
{
    if k > 0 {
        lemma_fixed_points_constant(s, c, k - 1);
    }
}

pub proof fn lemma_singletons(n: nat)
    ensures
        same_pairs(singletons(n)) == 0,
        fixed_points(singletons(n), n as int) == n,
        forall|x: int| 0 <= x < n ==> #[trigger] count(singletons(n), x) == 1,
    decreases n,
{
    let s = singletons(n);
    if n > 0 {
        lemma_singletons((n - 1) as nat);
        assert(s.drop_last() =~= singletons((n - 1) as nat));
        assert forall|x: int| 0 <= x < n implies #[trigger] count(s, x) == 1 by {
            if x < n - 1 {
                assert(count(singletons((n - 1) as nat), x) == 1);
            } else {
                lemma_singletons_absent((n - 1) as nat, x);
            }
        }
        lemma_singletons_absent((n - 1) as nat, n - 1);
        lemma_fixed_points_prefix(s, singletons((n - 1) as nat), n - 1);
    }
}

proof fn lemma_singletons_absent(n: nat, x: int)
    requires
        x >= n,
    ensures
        count(singletons(n), x) == 0,
    decreases n,
{
    if n > 0 {
        assert(singletons(n).drop_last() =~= singletons((n - 1) as nat));
        lemma_singletons_absent((n - 1) as nat, x);
    }
}

/// `fixed_points` below `k` depends on the first `k` positions only.
proof fn lemma_fixed_points_prefix(s: Seq<int>, t: Seq<int>, k: int)
    requires
        0 <= k <= s.len(),
        k <= t.len(),
        forall|i: int| 0 <= i < k ==> s[i] == t[i],
    ensures
        fixed_points(s, k) == fixed_points(t, k),
    decreases k,
{
    if k > 0 {
        lemma_fixed_points_prefix(s, t, k - 1);
    }
}

/// Merging two distinct fixed points `a` and `b` into `r` removes one fixed point.
pub proof fn lemma_fixed_points_merge(s: Seq<int>, a: int, b: int, r: int, k: int)
    requires
        a != b,
        r == a || r == b,
        0 <= a < s.len(),
        0 <= b < s.len(),
        s[a] == a,
        s[b] == b,
        0 <= k <= s.len(),
    ensures
        fixed_points(merge_labels(s, a, b, r), k) + (if a + b - r < k { 1nat } else { 0nat })
            == fixed_points(s, k),
    decreases k,
{
    if k > 0 {
        lemma_fixed_points_merge(s, a, b, r, k - 1);
    }
}

/// With a single fixed point below `k`, any two fixed points below `k` coincide.
pub proof fn lemma_one_fixed_point(s: Seq<int>, k: int, x: int, y: int)
    requires
        0 <= k <= s.len(),
        fixed_points(s, k) == 1,
        0 <= x < k,
        0 <= y < k,
        s[x] == x,
        s[y] == y,
    ensures
        x == y,
{
    if x != y {
        lemma_two_fixed_points(s, k, x, y);
    }
}

proof fn lemma_two_fixed_points(s: Seq<int>, k: int, x: int, y: int)
    requires
        0 <= k <= s.len(),
        x != y,
        0 <= x,
        0 <= y,
        s.len() > x,
        s.len() > y,
        s[x] == x,
        s[y] == y,
    ensures
        fixed_points(s, k) >= (if x < k { 1nat } else { 0nat }) + (if y < k { 1nat } else { 0nat }),
    decreases k,
{
    if k > 0 {
        lemma_two_fixed_points(s, k - 1, x, y);
    }
}


/// Sum over the positions `j < k` of the size of the class of `s[j]`: the
/// sum of the squares of the class sizes when `k == s.len()`.
pub open spec fn square_sum(s: Seq<int>, k: int) -> int
    decreases k,
{
    if k <= 0 {
        0
    } else {
        square_sum(s, k - 1) + count(s, s[k - 1])
    }
}

proof fn lemma_square_sum_push(s: Seq<int>, x: int, k: int)
    requires
        0 <= k <= s.len(),
    ensures
        square_sum(s.push(x), k) == square_sum(s, k) + count(s.take(k), x),
    decreases k,
{
    if k > 0 {
        lemma_square_sum_push(s, x, k - 1);
        assert(s.push(x).drop_last() =~= s);
        assert(s.take(k).drop_last() =~= s.take(k - 1));
        assert(s.push(x)[k - 1] == s[k - 1]);
    } else {
        assert(s.take(0) =~= Seq::<int>::empty());
    }
}

proof fn lemma_square_sum(s: Seq<int>)
    ensures
        square_sum(s, s.len() as int) == 2 * same_pairs(s) + s.len(),
    decreases s.len(),
{
    if s.len() > 0 {
        let t = s.drop_last();
        let x = s.last();
        assert(s =~= t.push(x));
        lemma_square_sum(t);
        lemma_square_sum_push(t, x, t.len() as int);
        assert(t.take(t.len() as int) =~= t);
    }
}

proof fn lemma_square_sum_le(s: Seq<int>, k: int, b: int)
    requires
        0 <= k <= s.len(),
        forall|j: int| 0 <= j < s.len() ==> 2 * count(s, #[trigger] s[j]) <= b,
    ensures
        2 * square_sum(s, k) <= k * b,
    decreases k,
{
    if k > 0 {
        lemma_square_sum_le(s, k - 1, b);
        assert(2 * count(s, s[k - 1]) <= b);
        assert((k - 1) * b + b == k * b) by (nonlinear_arith);
        assert(square_sum(s, k) == square_sum(s, k - 1) + count(s, s[k - 1]));
    } else {
        assert(k * b == 0) by (nonlinear_arith)
            requires
                k == 0,
        ;
    }
}

/// Once more than half of all pairs share a component, some component holds
/// at least half of the points.
pub proof fn lemma_big_component(s: Seq<int>) -> (i: int)
    requires
        s.len() >= 1,
        same_pairs(s) <= pairs(s.len()),
        2 * (pairs(s.len()) - same_pairs(s)) < pairs(s.len()),
    ensures
        0 <= i < s.len(),
        2 * count(s, s[i]) >= s.len(),
{
    let n = s.len() as int;
    if exists|i: int| 0 <= i < n && 2 * count(s, s[i]) >= n {
        choose|i: int| 0 <= i < n && 2 * count(s, s[i]) >= n
    } else {
        lemma_square_sum(s);
        lemma_square_sum_le(s, n, n - 1);
        let q = n / 2;
        let sp = same_pairs(s) as int;
        if n == 2 * q {
            assert(n * (n - 1) == 2 * (q * (2 * q - 1))) by (nonlinear_arith)
                requires
                    n == 2 * q,
            ;
        } else {
            assert(n * (n - 1) == 2 * (q * (2 * q + 1))) by (nonlinear_arith)
                requires
                    n == 2 * q + 1,
            ;
        }
        assert(2 * pairs(s.len()) == n * (n - 1));
        assert(n * (n - 1) - 2 * n == n * (n - 3)) by (nonlinear_arith);
        assert(4 * sp <= n * (n - 3));
        assert(n * (n - 1) < 4 * sp);
        assert(n * (n - 3) <= n * (n - 1)) by (nonlinear_arith)
            requires
                n >= 1,
        ;
        assert(false);
        0
    }
}

} // verus!
