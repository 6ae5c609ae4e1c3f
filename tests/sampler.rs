use rand::Rng;
use randmst::random::{RandomSource, ThreadSource};
use randmst::sampler::{
    find_fat_component, mst, update_fat_component, FatComponentSampler, SamplerError,
};
use randmst::union_find::{Point, SizedUnionFind};

/// Replays a fixed list of draws, cycling through it.
struct Script {
    values: Vec<u64>,
    pos: usize,
}

impl Script {
    fn new(values: Vec<u64>) -> Self {
        Script { values, pos: 0 }
    }
}

impl RandomSource for Script {
    fn below_u64(&mut self, bound: u64) -> u64 {
        let v = self.values[self.pos % self.values.len()] % bound;
        self.pos += 1;
        v
    }

    fn below_u32(&mut self, bound: u32) -> u32 {
        self.below_u64(bound as u64) as u32
    }
}

#[test]
fn scripted_four_points() {
    let mut sampler = FatComponentSampler::new(Script::new(vec![0, 1, 2, 3, 1, 2]), 4).unwrap();
    let mut linked = Vec::new();
    let mut pairs = Vec::new();
    let mut rates = Vec::new();
    while let Some(edge) = sampler.next().unwrap() {
        pairs.push((edge.u, edge.v));
        rates.push(edge.free_edges);
        linked.push(sampler.union_find().linked_edges());
    }
    assert_eq!(pairs, vec![(0, 1), (2, 3), (1, 2)]);
    assert_eq!(linked, vec![1, 2, 6]);
    assert_eq!(rates, vec![6, 5, 4]);
    assert_eq!(sampler.remaining_edges(), 0);
    assert_eq!(sampler.union_find().free_edges(), 0);
    assert!(sampler.next().unwrap().is_none());
}

#[test]
fn rejected_pairs_are_redrawn() {
    // (0, 0) and (1, 1) lie in one component each, so only (0, 1) is taken.
    let mut sampler = FatComponentSampler::new(Script::new(vec![0, 0, 1, 1, 0, 1]), 2).unwrap();
    let edge = sampler.next().unwrap().unwrap();
    assert_eq!((edge.u, edge.v, edge.free_edges), (0, 1, 1));
    assert!(sampler.next().unwrap().is_none());
}

#[test]
fn stalled_step_reports_error() {
    let mut sampler = FatComponentSampler::new(Script::new(vec![0]), 2).unwrap();
    sampler.set_attempt_limit(10);
    assert_eq!(sampler.next().err(), Some(SamplerError::Stalled));
    assert_eq!(sampler.remaining_edges(), 1);
}

#[test]
fn zero_attempt_limit_stalls_at_once() {
    let mut sampler = FatComponentSampler::new(ThreadSource::new(), 5).unwrap();
    sampler.set_attempt_limit(0);
    assert_eq!(sampler.next().err(), Some(SamplerError::Stalled));
    assert_eq!(sampler.remaining_edges(), 4);
    assert_eq!(sampler.union_find().linked_edges(), 0);
}

#[test]
fn finished_sampler_stays_finished() {
    let mut sampler = FatComponentSampler::new(ThreadSource::new(), 6).unwrap();
    while sampler.next().unwrap().is_some() {}
    for _ in 0..3 {
        assert!(sampler.next().unwrap().is_none());
        assert_eq!(sampler.remaining_edges(), 0);
    }
}

#[test]
fn invalid_sizes_are_rejected() {
    assert_eq!(
        FatComponentSampler::new(ThreadSource::new(), 0).err(),
        Some(SamplerError::TooFewPoints)
    );
    assert_eq!(
        FatComponentSampler::new(ThreadSource::new(), 1).err(),
        Some(SamplerError::TooFewPoints)
    );
    assert_eq!(
        FatComponentSampler::new(ThreadSource::new(), 1 << 31).err(),
        Some(SamplerError::TooManyPoints)
    );
    assert_eq!(mst(1, ThreadSource::new()).err(), Some(SamplerError::TooFewPoints));
}

fn check_spanning_tree(n: u32) {
    let edges = mst(n, ThreadSource::new()).unwrap();
    assert_eq!(edges.len() as u32, n - 1);
    let mut set = SizedUnionFind::new(n);
    for edge in &edges {
        assert_eq!(edge.free_edges, set.free_edges());
        assert!(set.unite(Point(edge.u), Point(edge.v)));
    }
    assert_eq!(set.free_edges(), 0);
    for u in 0..n {
        assert!(set.same_set(Point(0), Point(u)));
    }
}

#[test]
fn full_runs_build_spanning_trees() {
    for n in 2..40 {
        check_spanning_tree(n);
    }
    check_spanning_tree(1000);
    check_spanning_tree(20_000);
}

#[test]
fn tracking_starts_once_and_stays() {
    let n = 3000;
    let mut sampler = FatComponentSampler::new(ThreadSource::new(), n).unwrap();
    let mut was_tracked = false;
    let mut starts = 0;
    while let Some(_) = sampler.next().unwrap() {
        let following = sampler.fat_component().is_some();
        if following && !was_tracked {
            starts += 1;
            let set = sampler.union_find();
            assert!(2 * set.free_edges() < set.total_edges() + 2 * n as u64);
        }
        assert!(!was_tracked || following);
        was_tracked = following;
    }
    assert_eq!(starts, 1);
}

fn outside_points(set: &mut SizedUnionFind, root: Point) -> Vec<Point> {
    let n = set.total_size();
    let mut out = Vec::new();
    for w in 0..n {
        if set.root(Point(w)) != root {
            out.push(Point(w));
        }
    }
    out
}

#[test]
fn compaction_keeps_every_outside_point() {
    let n: u32 = 2000;
    let mut rng = rand::thread_rng();
    let mut set = SizedUnionFind::new(n);
    while 2 * set.free_edges() >= set.total_edges() {
        set.unite(Point(rng.gen_range(0..n)), Point(rng.gen_range(0..n)));
    }
    let mut fc = find_fat_component(&mut set).unwrap();
    assert_eq!(fc.remainders, outside_points(&mut set, fc.root));
    let mut compactions = 0;
    while set.free_edges() > 0 {
        set.unite(Point(rng.gen_range(0..n)), Point(rng.gen_range(0..n)));
        let before = fc.remainders.clone();
        update_fat_component(&mut set, &mut fc);
        let outside = outside_points(&mut set, fc.root);
        for p in &outside {
            assert!(fc.remainders.contains(p));
        }
        if fc.remainders != before {
            compactions += 1;
            assert_eq!(fc.remainders, outside);
        }
        assert_eq!(fc.size, set.size(fc.root));
    }
    assert!(compactions > 0);
}

#[test]
fn large_set_finds_fat_component() {
    let n: u32 = 100_000;
    let mut rng = rand::thread_rng();
    let mut set = SizedUnionFind::new(n);
    for _ in 0..(n as usize * 8 / 10) {
        set.unite(Point(rng.gen_range(0..n)), Point(rng.gen_range(0..n)));
    }
    let mut fc = find_fat_component(&mut set).unwrap();
    assert!(fc.size >= 50_000);
    assert_eq!(fc.remainders.len() as u32, n - fc.size);
    for _ in 0..200_000 {
        set.unite(Point(rng.gen_range(0..n)), Point(rng.gen_range(0..n)));
        update_fat_component(&mut set, &mut fc);
        assert!(fc.remainders.len() as u32 <= 2 * (n - fc.size));
    }
}

#[test]
fn no_fat_component_among_singletons() {
    let mut set = SizedUnionFind::new(10);
    assert!(find_fat_component(&mut set).is_none());
    for v in 1..5 {
        set.unite(Point(0), Point(v));
    }
    let fc = find_fat_component(&mut set).unwrap();
    assert_eq!(fc.root, Point(4));
    assert_eq!(fc.size, 5);
    assert_eq!(fc.remainders, (5..10).map(Point).collect::<Vec<_>>());
}

#[test]
fn thread_source_draws_in_range() {
    let mut source = ThreadSource::new();
    let mut seen = [false; 5];
    for _ in 0..1000 {
        let x = source.below_u32(5);
        assert!(x < 5);
        seen[x as usize] = true;
        assert!(source.below_u64(3) < 3);
    }
    assert!(seen.iter().all(|&s| s));
    assert_eq!(source.below_u64(1), 0);
}
