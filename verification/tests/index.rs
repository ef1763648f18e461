use hnsw::graph::Graph;
use hnsw::{Hamming, Searcher, HNSW};

fn next(state: &mut u64) -> u64 {
    *state = state.wrapping_add(0x9E37_79B9_7F4A_7C15);
    let mut z = *state;
    z = (z ^ (z >> 30)).wrapping_mul(0xBF58_476D_1CE4_E5B9);
    z = (z ^ (z >> 27)).wrapping_mul(0x94D0_49BB_1331_11EB);
    z ^ (z >> 31)
}

fn random_features(seed: u64, n: usize) -> Vec<u128> {
    let mut rng = seed;
    (0..n).map(|_| ((next(&mut rng) as u128) << 64) | next(&mut rng) as u128).collect()
}

fn build(m: usize, efc: usize, seed: u64, features: &[u128]) -> HNSW<Hamming<u128>> {
    let mut index = HNSW::with_params(m, 2 * m, efc, seed);
    let mut searcher = Searcher::default();
    for (i, f) in features.iter().enumerate() {
        assert_eq!(index.insert(Hamming(*f), &mut searcher), i as u32);
    }
    index
}

fn lists(g: &Graph) -> Vec<Vec<Vec<u32>>> {
    (0..g.len() as u32)
        .map(|id| (0..g.levels_of(id)).map(|l| g.neighbors(id, l).clone()).collect())
        .collect()
}

fn check_graph(g: &Graph, m: usize) {
    assert_eq!(g.max_degree(0), 2 * m);
    assert_eq!(g.max_degree(1), m);
    if g.len() == 0 {
        assert_eq!(g.layer_count(), 0);
        return;
    }
    assert_eq!(g.layer_len(0), g.len());
    assert_eq!(g.levels_of(g.entry()), g.layer_count());
    for l in 0..g.layer_count() {
        assert!(g.layer_len(l) >= 1);
        for p in 0..g.layer_len(l) {
            let id = g.feature_at(l, p);
            if l == 0 {
                assert_eq!(id, p as u32);
            } else {
                // Whatever is on a layer is on the layer under it.
                assert!((0..g.layer_len(l - 1)).any(|q| g.feature_at(l - 1, q) == id));
            }
            assert!(g.levels_of(id) > l);
            let list = g.neighbors(id, l);
            assert!(list.len() <= if l == 0 { 2 * m } else { m });
            for (k, n) in list.iter().enumerate() {
                assert!(*n != id);
                assert!((*n as usize) < g.len());
                assert!(g.levels_of(*n) > l);
                assert!(!list[..k].contains(n));
                assert!(g.neighbors(*n, l).contains(&id));
            }
        }
    }
}

#[test]
fn empty_index_query() {
    let index: HNSW<Hamming<u128>> = HNSW::new(12, 24);
    let mut searcher = Searcher::default();
    let mut dest = [5u32; 1];
    let written = index.nearest(&Hamming(7), 1, &mut searcher, &mut dest);
    assert!(written.is_empty());
    assert_eq!(dest, [5]);
    assert!(index.is_empty());
    assert_eq!(index.len(), 0);
    check_graph(index.layers(), 12);
}

#[test]
fn singleton() {
    let mut index: HNSW<Hamming<u128>> = HNSW::new(12, 24);
    let mut searcher = Searcher::default();
    assert_eq!(index.insert(Hamming(0), &mut searcher), 0);
    assert!(!index.is_empty());
    assert_eq!(index.len(), 1);
    assert_eq!(*index.feature(0), Hamming(0));
    let mut dest = [9u32; 1];
    let written = index.nearest(&Hamming(0), 1, &mut searcher, &mut dest);
    assert_eq!(written.to_vec(), vec![0]);
    assert_eq!(searcher.nearest.drain(), vec![(0, 0)]);
    let mut wide = [9u32; 3];
    let written = index.nearest(&Hamming(0b111), 1, &mut searcher, &mut wide);
    assert_eq!(written.to_vec(), vec![0]);
    assert_eq!(wide, [0, 9, 9]);
    assert_eq!(searcher.nearest.drain(), vec![(0, 3)]);
}

#[test]
fn exact_hit_among_many() {
    let mut index: HNSW<Hamming<u8>> = HNSW::new(12, 24);
    let mut searcher = Searcher::default();
    for v in 0..=255u8 {
        assert_eq!(index.insert(Hamming(v), &mut searcher), v as u32);
    }
    let mut dest = [0u32; 1];
    let written = index.nearest(&Hamming(0x42), 16, &mut searcher, &mut dest);
    assert_eq!(written.to_vec(), vec![0x42]);
    assert_eq!(searcher.nearest.drain()[0], (0x42, 0));
    check_graph(index.layers(), 12);
}

#[test]
fn one_bit_neighborhood() {
    let mut index: HNSW<Hamming<u128>> = HNSW::new(64, 128);
    let mut searcher = Searcher::default();
    index.insert(Hamming(0), &mut searcher);
    for bit in 0..128 {
        index.insert(Hamming(1u128 << bit), &mut searcher);
    }
    let mut dest = [0u32; 5];
    let written = index.nearest(&Hamming(0), 8, &mut searcher, &mut dest).to_vec();
    assert_eq!(written.len(), 5);
    assert_eq!(written[0], 0);
    for (k, id) in written.iter().enumerate().skip(1) {
        assert!(*id >= 1 && *id <= 128);
        assert!(!written[..k].contains(id));
    }
    let found = searcher.nearest.drain();
    assert_eq!(found[0], (0, 0));
    for e in &found[1..5] {
        assert_eq!(e.1, 1);
    }
    check_graph(index.layers(), 64);
}

#[test]
fn determinism() {
    let features = random_features(11, 2000);
    let a = build(5, 40, 77, &features);
    let b = build(5, 40, 77, &features);
    assert_eq!(lists(a.layers()), lists(b.layers()));
    assert_eq!(a.layers().entry(), b.layers().entry());
    assert_eq!(a.layers().layer_count(), b.layers().layer_count());
    let c = build(5, 40, 78, &features);
    assert_ne!(lists(a.layers()), lists(c.layers()));
}

#[test]
fn recall_statistic() {
    let size = 65536;
    let space = random_features(5, size);
    let mut rng = 6u64;
    let queries: Vec<u128> = (0..1000)
        .map(|_| {
            let mut f = space[(next(&mut rng) % size as u64) as usize];
            for bit in 0..128 {
                // A bit flips with probability 0.0859.
                if next(&mut rng) < 1_584_563_250_285_286_912 {
                    f ^= 1u128 << bit;
                }
            }
            f
        })
        .collect();
    let best: Vec<u32> =
        queries.iter().map(|q| space.iter().map(|f| (q ^ f).count_ones()).min().unwrap()).collect();
    let index = build(12, 100, 1, &space);
    let mut searcher = Searcher::default();
    let mut hits = 0;
    for (q, b) in queries.iter().zip(&best) {
        let mut dest = [0u32; 1];
        let written = index.nearest(&Hamming(*q), 32, &mut searcher, &mut dest);
        if (space[written[0] as usize] ^ q).count_ones() == *b {
            hits += 1;
        }
    }
    assert!(hits >= 750, "recall {} of 1000", hits);
}

#[test]
fn the_graph_stays_in_order() {
    for (m, seed) in [(1usize, 3u64), (2, 4), (3, 5), (12, 6)] {
        let features = random_features(seed, 600);
        let mut index: HNSW<Hamming<u128>> = HNSW::with_params(m, 2 * m, 2 * m + 8, seed);
        let mut searcher = Searcher::default();
        for (i, f) in features.iter().enumerate() {
            index.insert(Hamming(*f), &mut searcher);
            if i % 97 == 0 {
                check_graph(index.layers(), m);
            }
        }
        check_graph(index.layers(), m);
        assert_eq!(index.len(), 600);
    }
}

#[test]
fn inserted_features_are_found_at_distance_zero() {
    let features = random_features(21, 100);
    let index = build(64, 400, 9, &features);
    let mut searcher = Searcher::default();
    for (i, f) in features.iter().enumerate() {
        let mut dest = [0u32; 1];
        let written = index.nearest(&Hamming(*f), 1, &mut searcher, &mut dest);
        assert_eq!(written.to_vec(), vec![i as u32]);
        assert_eq!(searcher.nearest.drain(), vec![(i as u32, 0)]);
    }
}

#[test]
fn of_two_equal_features_one_is_returned() {
    let mut index: HNSW<Hamming<u128>> = HNSW::new(12, 24);
    let mut searcher = Searcher::default();
    index.insert(Hamming(5), &mut searcher);
    index.insert(Hamming(5), &mut searcher);
    let mut dest = [0u32; 1];
    let written = index.nearest(&Hamming(5), 1, &mut searcher, &mut dest).to_vec();
    assert_eq!(written.len(), 1);
    assert!(written[0] == 0 || written[0] == 1);
    assert_eq!(searcher.nearest.drain()[0].1, 0);
}

#[test]
fn insert_at_puts_the_feature_on_its_layers() {
    let mut index: HNSW<Hamming<u8>> = HNSW::new(2, 4);
    let mut searcher = Searcher::default();
    assert_eq!(index.insert_at(Hamming(0b0000), 1, &mut searcher), 0);
    assert_eq!(index.layers().layer_count(), 2);
    assert_eq!(index.layers().entry(), 0);
    assert_eq!(index.insert_at(Hamming(0b0001), 0, &mut searcher), 1);
    assert_eq!(index.layers().entry(), 0);
    assert_eq!(index.layers().neighbors(1, 0), &vec![0]);
    assert_eq!(index.layers().neighbors(0, 0), &vec![1]);
    assert!(index.layers().neighbors(0, 1).is_empty());
    assert_eq!(index.insert_at(Hamming(0b1000), 1, &mut searcher), 2);
    assert_eq!(index.layers().entry(), 0);
    assert_eq!(index.layers().neighbors(2, 1), &vec![0]);
    assert_eq!(index.layers().neighbors(0, 1), &vec![2]);
    // From 1000: 0000 is at 1, 0001 at 2; 0001 is 1 from 0000, so it is passed over.
    assert_eq!(index.layers().neighbors(2, 0), &vec![0]);
    assert_eq!(index.layers().neighbors(0, 0), &vec![1, 2]);
    assert_eq!(index.insert_at(Hamming(0b1111), 3, &mut searcher), 3);
    assert_eq!(index.layers().layer_count(), 4);
    assert_eq!(index.layers().entry(), 3);
    assert_eq!(index.layers().levels_of(3), 4);
    assert!(index.layers().neighbors(3, 3).is_empty());
    assert!(index.layers().neighbors(3, 2).is_empty());
    // From 1111: 1000 is at 3, 0001 at 3, 0000 at 4; both others are nearer to 1000 than that.
    assert_eq!(index.layers().neighbors(3, 1), &vec![2]);
    assert_eq!(index.layers().neighbors(2, 1), &vec![0, 3]);
    assert_eq!(index.layers().neighbors(0, 1), &vec![2]);
    assert_eq!(index.layers().neighbors(3, 0), &vec![2]);
    assert_eq!(index.layers().neighbors(2, 0), &vec![0, 3]);
    assert_eq!(index.layers().neighbors(1, 0), &vec![0]);
    check_graph(index.layers(), 2);
    assert_eq!(index.len(), 4);
    assert_eq!(*index.feature(3), Hamming(0b1111));
}

#[test]
fn a_full_list_is_cut_down_and_stays_mutual() {
    // Degree 1: two neighbours on layer 0. The third feature that links to 0 makes 0 choose anew.
    let mut index: HNSW<Hamming<u8>> = HNSW::new(1, 2);
    let mut searcher = Searcher::default();
    index.insert_at(Hamming(0b0000_0000), 0, &mut searcher);
    index.insert_at(Hamming(0b0000_0001), 0, &mut searcher);
    index.insert_at(Hamming(0b0000_0010), 0, &mut searcher);
    assert_eq!(index.layers().neighbors(0, 0), &vec![1, 2]);
    index.insert_at(Hamming(0b0000_0100), 0, &mut searcher);
    // All three are at distance 1 from 0 and 2 from each other: the two that came first stay.
    assert_eq!(index.layers().neighbors(0, 0), &vec![1, 2]);
    assert!(index.layers().neighbors(3, 0).is_empty());
    check_graph(index.layers(), 1);
    // What is cut off is not reached any more: the search for it ends at another feature.
    let mut dest = [0u32; 1];
    let written = index.nearest(&Hamming(0b0000_0100), 1, &mut searcher, &mut dest).to_vec();
    assert_ne!(written, vec![3]);
}

#[test]
fn nearest_writes_nearest_first() {
    let features = random_features(31, 3000);
    let index = build(12, 100, 2, &features);
    let mut searcher = Searcher::default();
    let q = features[10] ^ 0b1011;
    let mut dest = [u32::MAX; 10];
    let written = index.nearest(&Hamming(q), 4, &mut searcher, &mut dest).to_vec();
    assert_eq!(written.len(), 10);
    let found = searcher.nearest.drain();
    assert_eq!(found.len(), 10);
    for (k, (id, d)) in found.iter().enumerate() {
        assert_eq!(written[k], *id);
        assert_eq!(*d, (features[*id as usize] ^ q).count_ones());
        assert!(k == 0 || found[k - 1].1 <= *d);
        assert!(!written[..k].contains(id));
    }
    let first = (features[index.layers().entry() as usize] ^ q).count_ones();
    assert!(found[0].1 <= first);
    let mut one = [0u32; 1];
    let written = index.nearest(&Hamming(q), 50, &mut searcher, &mut one).to_vec();
    assert_eq!(written.len(), 1);
    let found = searcher.nearest.drain();
    assert!(found.len() > 1 && found.len() <= 50);
    assert_eq!(written[0], found[0].0);
}

#[test]
fn search_layer_keeps_the_width() {
    let features = random_features(41, 500);
    let index = build(4, 50, 3, &features);
    let mut searcher = Searcher::new();
    let entry = index.layers().entry();
    let top = index.layers().layer_count() - 1;
    index.search_layer(&Hamming(features[3]), entry, 1, top, &mut searcher);
    assert_eq!(searcher.nearest.len(), 1);
    index.search_layer(&Hamming(features[3]), entry, 7, 0, &mut searcher);
    assert_eq!(searcher.nearest.len(), 7);
    let found = searcher.nearest.drain();
    assert!(found[0].1 <= (features[entry as usize] ^ features[3]).count_ones());
}

#[test]
fn what_a_search_finds_cannot_be_bettered_by_a_neighbour() {
    let features = random_features(51, 1500);
    let index = build(6, 60, 8, &features);
    let g = index.layers();
    let mut searcher = Searcher::new();
    let mut rng = 3u64;
    for round in 0..40 {
        let q = features[(next(&mut rng) % 1500) as usize] ^ (next(&mut rng) as u128 & 0xFFFF);
        let ef = 1 + (round % 9);
        let entry = (next(&mut rng) % 1500) as u32;
        index.search_layer(&Hamming(q), entry, ef, 0, &mut searcher);
        let found = searcher.nearest.drain();
        assert!(!found.is_empty() && found.len() <= ef);
        let ids: Vec<u32> = found.iter().map(|e| e.0).collect();
        let worst = found.last().unwrap().1;
        let beaten = |x: u32| ids.contains(&x) || (found.len() == ef && (features[x as usize] ^ q).count_ones() >= worst);
        assert!(beaten(entry));
        for id in &ids {
            for n in g.neighbors(*id, 0) {
                assert!(beaten(*n));
            }
        }
    }
}

#[test]
fn insert_at_is_find_neighbors_and_attach() {
    let features = random_features(61, 400);
    let mut a: HNSW<Hamming<u128>> = HNSW::with_params(3, 6, 20, 5);
    let mut b: HNSW<Hamming<u128>> = HNSW::with_params(3, 6, 20, 5);
    let mut searcher = Searcher::new();
    let mut rng = 17u64;
    for f in &features {
        let level = (next(&mut rng) % 3) as usize;
        let id = a.insert_at(Hamming(*f), level, &mut searcher);
        let picks = b.find_neighbors(&Hamming(*f), level, &mut searcher);
        let top = b.layers().layer_count();
        assert_eq!(picks.len(), if top == 0 { 0 } else { level.min(top - 1) + 1 });
        assert_eq!(b.attach(Hamming(*f), level, picks), id);
    }
    assert_eq!(lists(a.layers()), lists(b.layers()));
    check_graph(b.layers(), 3);
}

#[test]
fn attach_connects_as_the_plan_says() {
    let mut index: HNSW<Hamming<u8>> = HNSW::new(1, 2);
    assert_eq!(index.attach(Hamming(0b000), 1, vec![]), 0);
    assert_eq!(index.attach(Hamming(0b001), 0, vec![vec![0]]), 1);
    assert_eq!(index.attach(Hamming(0b010), 1, vec![vec![0], vec![1, 0]]), 2);
    assert_eq!(index.layers().neighbors(2, 1), &vec![0]);
    assert_eq!(index.layers().neighbors(0, 1), &vec![2]);
    assert_eq!(index.layers().neighbors(2, 0), &vec![1, 0]);
    assert_eq!(index.layers().neighbors(1, 0), &vec![0, 2]);
    assert_eq!(index.layers().neighbors(0, 0), &vec![1, 2]);
    // 100 joins 0, which then lists three and keeps 001 and 010: equally near, they came first.
    // It joins 1, which then lists 000, 010, 100: 000 is nearest; 010 and 100 are nearer to 000
    // than to 001, so they are passed over, and lose 001 in turn.
    assert_eq!(index.attach(Hamming(0b100), 0, vec![vec![0, 1]]), 3);
    assert_eq!(index.layers().neighbors(0, 0), &vec![1, 2]);
    assert_eq!(index.layers().neighbors(1, 0), &vec![0]);
    assert_eq!(index.layers().neighbors(2, 0), &vec![0]);
    assert!(index.layers().neighbors(3, 0).is_empty());
    check_graph(index.layers(), 1);
}

#[test]
fn recall_grows_with_the_width() {
    let size = 8000;
    let space = random_features(71, size);
    let mut rng = 72u64;
    let queries: Vec<u128> = (0..500)
        .map(|_| {
            let mut f = space[(next(&mut rng) % size as u64) as usize];
            for bit in 0..128 {
                if next(&mut rng) < 1_584_563_250_285_286_912 {
                    f ^= 1u128 << bit;
                }
            }
            f
        })
        .collect();
    let best: Vec<u32> =
        queries.iter().map(|q| space.iter().map(|f| (q ^ f).count_ones()).min().unwrap()).collect();
    let index = build(12, 60, 4, &space);
    let mut searcher = Searcher::default();
    let mut last = 0;
    for ef in [1usize, 4, 16, 64, 256] {
        let mut hits = 0;
        for (q, b) in queries.iter().zip(&best) {
            let mut dest = [0u32; 1];
            let written = index.nearest(&Hamming(*q), ef, &mut searcher, &mut dest);
            if (space[written[0] as usize] ^ q).count_ones() == *b {
                hits += 1;
            }
        }
        assert!(hits >= last, "width {}: {} after {}", ef, hits, last);
        last = hits;
    }
    assert!(last >= 400, "recall {} of 500", last);
}
