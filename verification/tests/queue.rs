use hnsw::candidates::Candidates;
use hnsw::nearest_queue::{NearestQueue, MAX_DISTANCE};

fn next(state: &mut u64) -> u64 {
    *state = state.wrapping_add(0x9E37_79B9_7F4A_7C15);
    let mut z = *state;
    z = (z ^ (z >> 30)).wrapping_mul(0xBF58_476D_1CE4_E5B9);
    z = (z ^ (z >> 27)).wrapping_mul(0x94D0_49BB_1331_11EB);
    z ^ (z >> 31)
}

#[test]
fn new_queue_holds_nothing() {
    let mut q: NearestQueue<u32> = NearestQueue::new();
    assert_eq!(q.len(), 0);
    assert_eq!(q.worst(), 128);
    assert_eq!(q.drain(), vec![]);
    let mut d: NearestQueue<u32> = NearestQueue::default();
    assert_eq!(d.len(), 0);
    assert_eq!(d.drain(), vec![]);
}

#[test]
fn queue_keeps_the_nearest() {
    let mut q: NearestQueue<u32> = NearestQueue::new();
    q.reset(2);
    assert!(q.insert(10, 5));
    assert_eq!(q.worst(), 128);
    assert!(!q.is_full());
    assert!(q.insert(11, 3));
    assert!(q.is_full());
    assert_eq!(q.worst(), 5);
    assert!(!q.insert(12, 5));
    assert!(q.insert(13, 4));
    assert_eq!(q.worst(), 4);
    assert_eq!(q.len(), 2);
    assert_eq!(q.drain(), vec![(11, 3), (13, 4)]);
}

#[test]
fn worst_is_the_bound_until_the_queue_is_full() {
    let mut q: NearestQueue<u8> = NearestQueue::new();
    q.reset(3);
    assert_eq!(q.worst(), MAX_DISTANCE);
    q.insert(1, 7);
    assert_eq!(q.worst(), MAX_DISTANCE);
    q.insert(2, 9);
    assert_eq!(q.worst(), MAX_DISTANCE);
    q.insert(3, 8);
    assert_eq!(q.worst(), 9);
}

#[test]
fn the_largest_distance_is_taken_while_there_is_room() {
    let mut q: NearestQueue<u8> = NearestQueue::new();
    q.reset(1);
    assert!(q.insert(1, 128));
    assert_eq!(q.worst(), 128);
    assert!(!q.insert(2, 128));
    assert!(q.insert(3, 0));
    assert_eq!(q.worst(), 0);
    assert!(!q.insert(4, 0));
    assert_eq!(q.drain(), vec![(3, 0)]);
}

#[test]
fn of_equal_distances_the_earlier_stays() {
    let mut q: NearestQueue<char> = NearestQueue::new();
    q.reset(3);
    q.insert('a', 4);
    q.insert('b', 4);
    q.insert('c', 4);
    assert!(!q.insert('d', 4));
    assert!(q.insert('e', 2));
    assert_eq!(q.drain(), vec![('e', 2), ('a', 4), ('b', 4)]);
}

#[test]
fn drain_gives_the_nearest_of_the_stream_in_stable_order() {
    for cap in [1usize, 2, 5, 17, 64, 300] {
        let mut rng = cap as u64;
        let stream: Vec<(u32, u32)> = (0..200u32).map(|i| (i, (next(&mut rng) % 129) as u32)).collect();
        let mut q: NearestQueue<u32> = NearestQueue::new();
        q.reset(cap);
        for (n, (item, d)) in stream.iter().enumerate() {
            q.insert(*item, *d);
            assert!(q.len() <= cap);
            assert_eq!(q.len(), (n + 1).min(cap));
        }
        let mut expected = stream.clone();
        expected.sort_by_key(|e| e.1);
        expected.truncate(cap);
        let drained = q.drain();
        for w in drained.windows(2) {
            assert!(w[0].1 <= w[1].1);
        }
        assert_eq!(drained, expected);
    }
}

#[test]
fn insert_says_whether_the_item_was_taken() {
    let mut rng = 99u64;
    let mut q: NearestQueue<u32> = NearestQueue::new();
    q.reset(4);
    let mut held: Vec<(u32, u32)> = vec![];
    for item in 0..100u32 {
        let d = (next(&mut rng) % 20) as u32;
        let expect = held.len() < 4 || d < held.last().unwrap().1;
        assert_eq!(q.insert(item, d), expect);
        if expect {
            let at = held.iter().position(|e| e.1 > d).unwrap_or(held.len());
            held.insert(at, (item, d));
            held.truncate(4);
        }
        let w = if held.len() < 4 { 128 } else { held.last().unwrap().1 };
        assert_eq!(q.worst(), w);
    }
    assert_eq!(q.drain(), held);
}

#[test]
fn add_one_cap_on_a_full_queue() {
    let mut q: NearestQueue<u32> = NearestQueue::new();
    q.reset(2);
    q.insert(1, 10);
    q.insert(2, 20);
    q.add_one_cap(3, 20);
    q.add_one_cap(4, 30);
    assert_eq!(q.worst(), 20);
    q.add_one_cap(5, 15);
    assert_eq!(q.worst(), 15);
    assert_eq!(q.len(), 2);
    assert_eq!(q.drain(), vec![(1, 10), (5, 15)]);
}

#[test]
fn fill_slice_copies_the_nearest() {
    let mut q: NearestQueue<u32> = NearestQueue::new();
    q.reset(4);
    q.insert(40, 9);
    q.insert(41, 3);
    q.insert(42, 3);
    q.insert(43, 0);
    let mut short = [7u32; 2];
    assert_eq!(q.fill_slice(&mut short).to_vec(), vec![43, 41]);
    assert_eq!(short, [43, 41]);
    let mut exact = [7u32; 4];
    assert_eq!(q.fill_slice(&mut exact).to_vec(), vec![43, 41, 42, 40]);
    let mut long = [7u32; 6];
    assert_eq!(q.fill_slice(&mut long).to_vec(), vec![43, 41, 42, 40]);
    assert_eq!(long, [43, 41, 42, 40, 7, 7]);
    let mut none: [u32; 0] = [];
    assert!(q.fill_slice(&mut none).is_empty());
    assert_eq!(q.len(), 4);
}

#[test]
fn reset_empties_and_sets_the_capacity() {
    let mut q: NearestQueue<u32> = NearestQueue::new();
    q.reset(1);
    q.insert(1, 1);
    q.reset(3);
    assert_eq!(q.len(), 0);
    assert_eq!(q.worst(), 128);
    q.insert(2, 5);
    q.insert(3, 4);
    q.insert(4, 6);
    assert!(!q.insert(5, 6));
    assert_eq!(q.drain(), vec![(3, 4), (2, 5), (4, 6)]);
}

#[test]
fn drain_leaves_an_empty_queue_of_the_same_capacity() {
    let mut q: NearestQueue<u32> = NearestQueue::new();
    q.reset(2);
    q.insert(1, 1);
    q.insert(2, 2);
    assert_eq!(q.drain().len(), 2);
    assert_eq!(q.len(), 0);
    assert_eq!(q.worst(), 128);
    assert!(q.insert(3, 100));
    assert!(q.insert(4, 90));
    assert!(!q.insert(5, 100));
    assert_eq!(q.drain(), vec![(4, 90), (3, 100)]);
}

#[test]
fn a_clone_is_a_queue_of_its_own() {
    let mut q: NearestQueue<u32> = NearestQueue::new();
    q.reset(2);
    q.insert(1, 1);
    let mut c = q.clone();
    c.insert(2, 0);
    assert_eq!(q.drain(), vec![(1, 1)]);
    assert_eq!(c.drain(), vec![(2, 0), (1, 1)]);
}

#[test]
fn candidates_come_out_nearest_first() {
    let mut c = Candidates::new();
    assert_eq!(c.pop(), None);
    c.push(1, 7);
    c.push(2, 3);
    c.push(3, 7);
    c.push(4, 128);
    c.push(5, 3);
    c.push(6, 0);
    assert_eq!(c.pop(), Some((6, 0)));
    assert_eq!(c.pop(), Some((5, 3)));
    c.push(7, 1);
    assert_eq!(c.pop(), Some((7, 1)));
    assert_eq!(c.pop(), Some((2, 3)));
    assert_eq!(c.pop(), Some((3, 7)));
    assert_eq!(c.pop(), Some((1, 7)));
    assert_eq!(c.pop(), Some((4, 128)));
    assert_eq!(c.pop(), None);
    assert_eq!(c.pop(), None);
}

#[test]
fn candidates_are_cleared() {
    let mut c = Candidates::default();
    c.push(1, 7);
    c.push(2, 3);
    c.clear();
    assert_eq!(c.pop(), None);
    c.push(3, 9);
    assert_eq!(c.pop(), Some((3, 9)));
}
