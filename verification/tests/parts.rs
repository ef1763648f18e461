use hnsw::connect::{connect, prune};
use hnsw::graph::{holds, position, Graph};
use hnsw::sampler::{level_from, Sampler, MAX_LEVEL};
use hnsw::seen::Seen;
use hnsw::select::{is_blocked, place_entry, rank_neighbors, select_neighbors};
use hnsw::Hamming;

#[test]
fn sampler_draws_the_known_numbers() {
    let mut s = Sampler::new(0);
    assert_eq!(s.next_u64(), 0xE220_A839_7B1D_CDAF);
    assert_eq!(s.next_u64(), 0x6E78_9E6A_A1B9_65F4);
    assert_eq!(s.next_u64(), 0x06C4_5D18_8009_454F);
}

#[test]
fn level_counts_the_divisions() {
    assert_eq!(level_from(1, 2), 0);
    assert_eq!(level_from(8, 2), 3);
    assert_eq!(level_from(12, 2), 2);
    assert_eq!(level_from(0, 2), MAX_LEVEL);
    assert_eq!(level_from(144, 12), 2);
    assert_eq!(level_from(145, 12), 0);
    assert_eq!(level_from(12 * 12 * 12 * 5, 12), 3);
    assert_eq!(level_from(u64::MAX, 3), 1);
    assert_eq!(MAX_LEVEL, 32);
}

#[test]
fn samplers_of_one_seed_agree() {
    let mut a = Sampler::new(42);
    let mut b = Sampler::new(42);
    let mut c = Sampler::new(43);
    let la: Vec<usize> = (0..500).map(|_| a.next_level(4)).collect();
    let lb: Vec<usize> = (0..500).map(|_| b.next_level(4)).collect();
    let lc: Vec<usize> = (0..500).map(|_| c.next_level(4)).collect();
    assert_eq!(la, lb);
    assert_ne!(la, lc);
    assert!(la.iter().all(|l| *l <= MAX_LEVEL));
}

#[test]
fn level_of_degree_one_is_drawn_as_of_degree_two() {
    let mut a = Sampler::new(7);
    let mut b = Sampler::new(7);
    for _ in 0..100 {
        assert_eq!(a.next_level(1), b.next_level(2));
    }
}

#[test]
fn levels_thin_out_by_the_degree() {
    let mut s = Sampler::new(1);
    let levels: Vec<usize> = (0..120_000).map(|_| s.next_level(12)).collect();
    let above0 = levels.iter().filter(|l| **l >= 1).count();
    let above1 = levels.iter().filter(|l| **l >= 2).count();
    assert!(above0 > 9_000 && above0 < 11_000);
    assert!(above1 > 600 && above1 < 1_100);
}

#[test]
fn seen_is_emptied_by_clear() {
    let mut s = Seen::new();
    assert!(!s.contains(0));
    s.clear(10);
    assert!(s.insert(3));
    assert!(!s.insert(3));
    assert!(s.insert(9));
    assert!(s.contains(3) && s.contains(9) && !s.contains(4) && !s.contains(10));
    s.clear(4);
    assert!(!s.contains(3) && !s.contains(9));
    assert!(s.insert(3));
    let mut d = Seen::default();
    d.clear(1);
    assert!(d.insert(0));
}

#[test]
fn seen_survives_many_rounds() {
    let mut s = Seen::new();
    for round in 0..1000u32 {
        s.clear(8);
        assert!(!s.contains(round % 8));
        assert!(s.insert(round % 8));
        assert!(s.contains(round % 8));
    }
}

#[test]
fn place_entry_puts_behind_equals() {
    let mut v = vec![(1u32, 2u32), (2, 5), (3, 5), (4, 9)];
    place_entry(&mut v, 5, 5);
    assert_eq!(v, vec![(1, 2), (2, 5), (3, 5), (5, 5), (4, 9)]);
    place_entry(&mut v, 6, 0);
    assert_eq!(v[0], (6, 0));
    place_entry(&mut v, 7, 200);
    assert_eq!(v[6], (7, 200));
    let mut e: Vec<(u32, u32)> = vec![];
    place_entry(&mut e, 1, 1);
    assert_eq!(e, vec![(1, 1)]);
}

#[test]
fn rank_neighbors_orders_by_distance() {
    let features = vec![Hamming(0b0000u8), Hamming(0b0111), Hamming(0b0001), Hamming(0b0011), Hamming(0b1000)];
    assert_eq!(rank_neighbors(&features, 0, &vec![1, 2, 3, 4]), vec![(2, 1), (4, 1), (3, 2), (1, 3)]);
    assert_eq!(rank_neighbors(&features, 1, &vec![0, 4]), vec![(0, 3), (4, 4)]);
    assert_eq!(rank_neighbors(&features, 1, &vec![]), vec![]);
}

#[test]
fn a_candidate_is_blocked_by_a_nearer_neighbour() {
    let features = vec![Hamming(0b0000u8), Hamming(0b0001), Hamming(0b0011), Hamming(0b1100)];
    assert!(is_blocked(&features, &vec![1], 2, 2));
    assert!(!is_blocked(&features, &vec![1], 2, 1));
    assert!(!is_blocked(&features, &vec![1], 3, 2));
    assert!(!is_blocked(&features, &vec![], 3, 200));
    assert!(is_blocked(&features, &vec![3, 1], 2, 2));
}

#[test]
fn neighbours_are_chosen_spread_out() {
    // Seen from 0000: 0001 at 1, 0011 at 2, 1100 at 2, 1110 at 3.
    let features = vec![Hamming(0b0000u8), Hamming(0b0001), Hamming(0b0011), Hamming(0b1100), Hamming(0b1110)];
    let cands = vec![(1u32, 1u32), (2, 2), (3, 2), (4, 3)];
    // 0011 is 1 from 0001: passed over. 1100 is 3 from 0001: taken. 1110 is 1 from 1100: passed over.
    assert_eq!(select_neighbors(&features, &cands, 4), vec![1, 3]);
    assert_eq!(select_neighbors(&features, &cands, 1), vec![1]);
    assert_eq!(select_neighbors(&features, &cands, 0), Vec::<u32>::new());
    assert_eq!(select_neighbors(&features, &vec![], 4), Vec::<u32>::new());
    // Candidates that do not block each other are taken up to the limit.
    let far = vec![Hamming(0b0000_0000u8), Hamming(0b0000_0001), Hamming(0b0000_0010), Hamming(0b0000_0100)];
    let ring = vec![(1u32, 1u32), (2, 1), (3, 1)];
    assert_eq!(select_neighbors(&far, &ring, 5), vec![1, 2, 3]);
    assert_eq!(select_neighbors(&far, &ring, 2), vec![1, 2]);
}

#[test]
fn holds_and_position() {
    let v = vec![4u32, 8, 15, 8];
    assert!(holds(&v, 15));
    assert!(!holds(&v, 16));
    assert_eq!(position(&v, 8), Some(1));
    assert_eq!(position(&v, 4), Some(0));
    assert_eq!(position(&v, 5), None);
    assert_eq!(position(&vec![], 5), None);
}

#[test]
fn graph_grows_by_layers() {
    let mut g = Graph::new(2, 4);
    assert_eq!(g.len(), 0);
    assert_eq!(g.layer_count(), 0);
    assert_eq!(g.max_degree(0), 4);
    assert_eq!(g.max_degree(1), 2);
    assert_eq!(g.max_degree(5), 2);
    assert_eq!(g.grow(1), 0);
    assert_eq!(g.layer_count(), 2);
    assert_eq!(g.entry(), 0);
    assert_eq!(g.grow(0), 1);
    assert_eq!(g.entry(), 0);
    assert_eq!(g.grow(1), 2);
    assert_eq!(g.entry(), 0);
    assert_eq!(g.grow(3), 3);
    assert_eq!(g.entry(), 3);
    assert_eq!(g.layer_count(), 4);
    assert_eq!(g.len(), 4);
    assert_eq!((g.layer_len(0), g.layer_len(1), g.layer_len(2), g.layer_len(3)), (4, 3, 1, 1));
    assert_eq!((g.levels_of(0), g.levels_of(1), g.levels_of(2), g.levels_of(3)), (2, 1, 2, 4));
    for p in 0..4 {
        assert_eq!(g.feature_at(0, p), p as u32);
    }
    assert_eq!((g.feature_at(1, 0), g.feature_at(1, 1), g.feature_at(1, 2)), (0, 2, 3));
    assert_eq!(g.feature_at(2, 0), 3);
    assert!(g.neighbors(3, 3).is_empty());
    assert!(g.neighbors(0, 1).is_empty());
}

#[test]
fn link_and_replace_keep_neighbours_mutual() {
    let mut g = Graph::new(1, 2);
    for _ in 0..4 {
        g.grow(0);
    }
    g.link(0, 0, 1);
    g.link(0, 0, 2);
    assert_eq!(g.neighbors(0, 0), &vec![1, 2]);
    assert_eq!(g.neighbors(1, 0), &vec![0]);
    assert_eq!(g.neighbors(2, 0), &vec![0]);
    // 3 links to 0: the list of 0 now holds one more than the layer allows.
    g.link(0, 3, 0);
    assert_eq!(g.neighbors(0, 0), &vec![1, 2, 3]);
    assert_eq!(g.neighbors(3, 0), &vec![0]);
    g.replace(0, 0, vec![3, 1]);
    assert_eq!(g.neighbors(0, 0), &vec![3, 1]);
    assert_eq!(g.neighbors(1, 0), &vec![0]);
    assert_eq!(g.neighbors(2, 0), &Vec::<u32>::new());
    assert_eq!(g.neighbors(3, 0), &vec![0]);
    g.replace(0, 0, vec![]);
    for id in 0..4 {
        assert!(g.neighbors(id, 0).is_empty());
    }
}

#[test]
fn prune_keeps_the_chosen_and_unlinks_the_rest() {
    let features =
        vec![Hamming(0b0000u8), Hamming(0b0001), Hamming(0b0011), Hamming(0b1000), Hamming(0b1100)];
    let mut g = Graph::new(1, 2);
    for _ in 0..5 {
        g.grow(0);
    }
    connect(&features, &mut g, 0, 0, &vec![1, 3]);
    assert_eq!(g.neighbors(0, 0), &vec![1, 3]);
    assert_eq!(g.neighbors(1, 0), &vec![0]);
    assert_eq!(g.neighbors(3, 0), &vec![0]);
    // 2 joins 0: 0 lists 0001 at 1, 1000 at 1, 0011 at 2. 0011 is 1 from 0001 and is left out.
    connect(&features, &mut g, 0, 2, &vec![0, 1]);
    assert_eq!(g.neighbors(0, 0), &vec![1, 3]);
    assert_eq!(g.neighbors(2, 0), &vec![1]);
    assert_eq!(g.neighbors(1, 0), &vec![0, 2]);
    // 4 links to 3 and to 1 by hand: 1 lists 0000, 0011, 1100 and chooses anew.
    g.link(0, 4, 3);
    g.link(0, 4, 1);
    assert_eq!(g.neighbors(1, 0), &vec![0, 2, 4]);
    prune(&features, &mut g, 0, 1);
    // From 0001: 0000 at 1, 0011 at 1, 1100 at 3: 1100 is 2 from 0000, nearer than 3: left out.
    assert_eq!(g.neighbors(1, 0), &vec![0, 2]);
    assert_eq!(g.neighbors(4, 0), &vec![3]);
    assert_eq!(g.neighbors(3, 0), &vec![0, 4]);
}
