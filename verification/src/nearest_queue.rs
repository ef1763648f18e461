//! A bounded queue of the nearest items, for distances in a small fixed range.

use vstd::prelude::*;
use crate::buckets::{
    empty_between, flat, lemma_flat_all_empty, lemma_flat_index, lemma_flat_pop, lemma_flat_push,
    lemma_flat_within, tagged,
};
use crate::ranking::{accepts, ascending, offer, place, within, worst_of};

verus! {

/// The largest distance that a queue can hold.
pub const MAX_DISTANCE: u32 = 128;

/// The number of rows of a queue: one for each distance from 0 to `MAX_DISTANCE`.
pub const ROWS: usize = 129;

/// Keeps the nearest `cap` items offered to it.
///
/// Items sit in one row per distance, so that taking an item in costs constant
/// time. Only distances from 0 to [`MAX_DISTANCE`] can be held, which suits
/// Hamming distances over bit strings of at most that many bits.
#[derive(Clone, Debug)]
pub struct NearestQueue<T> {
    cap: usize,
    size: usize,
    worst: u32,
    distances: Vec<Vec<T>>,
}

impl<T> View for NearestQueue<T> {
    type V = Seq<(T, u32)>;

    /// The entries held, nearest first, entries of equal distance in order of arrival.
    closed spec fn view(&self) -> Seq<(T, u32)> {
        flat(self.rows(), ROWS as nat)
    }
}

impl<T> NearestQueue<T> {
    /// The rows as sequences.
    pub closed spec fn rows(&self) -> Seq<Seq<T>> {
        Seq::new(self.distances@.len(), |i: int| self.distances@[i]@)
    }

    /// The number of items that the queue keeps at most.
    pub closed spec fn capacity(&self) -> nat {
        self.cap as nat
    }

    /// The cached count and worst distance agree with the rows.
    pub closed spec fn wf(&self) -> bool {
        &&& self.distances@.len() == ROWS
        &&& self.size == self@.len()
        &&& self.size <= self.cap
        &&& self.worst <= MAX_DISTANCE
        &&& if self.size == 0 || self.size < self.cap {
            self.worst == MAX_DISTANCE
        } else {
            self.tops_at(self.worst)
        }
    }

    /// Row `w` is the highest row that holds an item.
    spec fn tops_at(&self, w: u32) -> bool {
        &&& w <= MAX_DISTANCE
        &&& self.rows()[w as int].len() > 0
        &&& empty_between(self.rows(), w + 1, ROWS as int)
    }

    /// A well-formed queue is ascending, within its capacity and within the range of distances.
    pub proof fn lemma_wf(&self)
        requires
            self.wf(),
        ensures
            ascending(self@),
            within(self@, MAX_DISTANCE),
            self@.len() <= self.capacity(),
    {
        crate::buckets::lemma_flat_ascending(self.rows(), ROWS as nat);
        lemma_flat_within(self.rows(), ROWS as nat);
    }

    /// An empty queue of capacity 0: `reset` gives it a capacity.
    pub fn new() -> (q: Self)
        ensures
            q.wf(),
            q@ == Seq::<(T, u32)>::empty(),
            q.capacity() == 0,
    {
        let mut distances: Vec<Vec<T>> = Vec::new();
        let mut i: usize = 0;
        while i < ROWS
            invariant
                i <= ROWS,
                distances@.len() == i,
                forall|j: int| 0 <= j < i ==> (#[trigger] distances@[j])@.len() == 0,
            decreases ROWS - i,
        {
            distances.push(Vec::new());
            i += 1;
        }
        let q = NearestQueue { cap: 0, size: 0, worst: MAX_DISTANCE, distances };
        proof {
            assert(empty_between(q.rows(), 0, ROWS as int));
            lemma_flat_all_empty(q.rows(), ROWS as nat);
        }
        q
    }

    /// Empties the queue and sets its capacity, keeping the rows' allocations.
    pub fn reset(&mut self, cap: usize)
        requires
            old(self).wf(),
            cap > 0,
        ensures
            final(self).wf(),
            final(self)@ == Seq::<(T, u32)>::empty(),
            final(self).capacity() == cap,
    {
        self.cap = cap;
        self.size = 0;
        self.worst = MAX_DISTANCE;
        let mut i: usize = 0;
        while i < ROWS
            invariant
                i <= ROWS,
                self.distances@.len() == ROWS,
                self.cap == cap,
                self.size == 0,
                self.worst == MAX_DISTANCE,
                forall|j: int| 0 <= j < i ==> (#[trigger] self.distances@[j])@.len() == 0,
            decreases ROWS - i,
        {
            self.distances[i].clear();
            i += 1;
        }
        proof {
            assert(empty_between(self.rows(), 0, ROWS as int));
            lemma_flat_all_empty(self.rows(), ROWS as nat);
        }
    }

    /// The number of items held.
    pub fn len(&self) -> (n: usize)
        requires
            self.wf(),
        ensures
            n == self@.len(),
    {
        self.size
    }

    /// Whether the queue holds as many items as it keeps at most.
    pub fn is_full(&self) -> (full: bool)
        requires
            self.wf(),
        ensures
            full == (self@.len() == self.capacity()),
    {
        self.size == self.cap
    }

    /// Offers an item at a distance. Below capacity the item is taken in.
    /// At capacity it is taken in only if it is strictly nearer than the
    /// worst item held, which then leaves: of several at the worst distance,
    /// the one that came last. Returns whether the item was taken in.
    pub fn insert(&mut self, item: T, distance: u32) -> (accepted: bool)
        requires
            old(self).wf(),
            old(self).capacity() > 0,
            distance <= MAX_DISTANCE,
        ensures
            final(self).wf(),
            final(self).capacity() == old(self).capacity(),
            accepted == accepts(old(self)@, old(self).capacity(), distance),
            final(self)@ == offer(old(self)@, old(self).capacity(), item, distance),
    {
        if self.size != self.cap {
            proof {
                lemma_flat_push(self.rows(), ROWS as nat, distance, item);
            }
            let ghost before = self.rows();
            self.distances[distance as usize].push(item);
            self.size += 1;
            proof {
                assert(self.rows() =~= before.update(
                    distance as int,
                    before[distance as int].push(item),
                ));
                assert(place(old(self)@, item, distance).len() == old(self)@.len() + 1) by {
                    old(self).lemma_wf();
                    crate::ranking::lemma_place_ascending(old(self)@, item, distance);
                }
            }
            if self.size == self.cap {
                assert(self.rows()[distance as int].len() > 0);
                self.update_worst();
            }
            true
        } else if distance < self.worst {
            proof {
                self.lemma_worst();
            }
            self.add_one_cap(item, distance);
            true
        } else {
            proof {
                self.lemma_worst();
            }
            false
        }
    }

    /// The distance that an item has to beat to be taken in: the largest
    /// distance held once the queue is full, and `MAX_DISTANCE` before.
    pub fn worst(&self) -> (w: u32)
        requires
            self.wf(),
        ensures
            w == worst_of(self@, self.capacity(), MAX_DISTANCE),
            w <= MAX_DISTANCE,
    {
        proof {
            self.lemma_worst();
        }
        self.worst
    }

    /// The cached worst distance is the one that the entries give.
    proof fn lemma_worst(&self)
        requires
            self.wf(),
        ensures
            self.worst == worst_of(self@, self.capacity(), MAX_DISTANCE),
    {
        if !(self.size == 0 || self.size < self.cap) {
            lemma_flat_pop(self.rows(), ROWS as nat, self.worst);
        }
    }

    /// Offers an item to a queue that is at capacity.
    pub fn add_one_cap(&mut self, item: T, distance: u32)
        requires
            old(self).wf(),
            old(self).capacity() > 0,
            old(self)@.len() == old(self).capacity(),
            distance <= MAX_DISTANCE,
        ensures
            final(self).wf(),
            final(self).capacity() == old(self).capacity(),
            final(self)@ == offer(old(self)@, old(self).capacity(), item, distance),
    {
        proof {
            self.lemma_worst();
        }
        if distance < self.worst {
            let ghost rows0 = self.rows();
            let ghost w = self.worst;
            self.distances[distance as usize].push(item);
            proof {
                let rows1 = rows0.update(distance as int, rows0[distance as int].push(item));
                assert(self.rows() =~= rows1);
                lemma_flat_push(rows0, ROWS as nat, distance, item);
                assert(empty_between(rows1, w + 1, ROWS as int)) by {
                    assert forall|j: int| w + 1 <= j < ROWS implies (#[trigger] rows1[j]).len()
                        == 0 by {
                        assert(rows0[j].len() == 0);
                    }
                }
                lemma_flat_pop(rows1, ROWS as nat, w);
                old(self).lemma_wf();
                crate::ranking::lemma_place_ascending(old(self)@, item, distance);
                assert(rows1[distance as int].len() > 0);
            }
            self.remove_worst();
        }
    }

    /// Lowers the worst distance to the highest row that holds an item.
    fn update_worst(&mut self)
        requires
            old(self).distances@.len() == ROWS,
            old(self).worst <= MAX_DISTANCE,
            exists|j: int| 0 <= j <= old(self).worst && (#[trigger] old(self).rows()[j]).len() > 0,
            empty_between(old(self).rows(), old(self).worst + 1, ROWS as int),
        ensures
            final(self).distances == old(self).distances,
            final(self).cap == old(self).cap,
            final(self).size == old(self).size,
            final(self).worst <= old(self).worst,
            final(self).tops_at(final(self).worst),
    {
        while self.distances[self.worst as usize].len() == 0
            invariant
                self.distances == old(self).distances,
                self.cap == old(self).cap,
                self.size == old(self).size,
                self.distances@.len() == ROWS,
                self.worst <= old(self).worst <= MAX_DISTANCE,
                exists|j: int| 0 <= j <= self.worst && (#[trigger] self.rows()[j]).len() > 0,
                empty_between(self.rows(), self.worst + 1, ROWS as int),
            decreases self.worst,
        {
            let ghost j = choose|j: int|
                0 <= j <= self.worst && (#[trigger] self.rows()[j]).len() > 0;
            assert(self.rows()[self.worst as int].len() == 0);
            self.worst -= 1;
            assert(self.rows()[j].len() > 0);
        }
    }

    /// Takes the last item off the worst row, then lowers the worst distance.
    fn remove_worst(&mut self)
        requires
            old(self).distances@.len() == ROWS,
            old(self).tops_at(old(self).worst),
            old(self).rows()[old(self).worst as int].len() > 1 || exists|j: int|
                0 <= j < old(self).worst && (#[trigger] old(self).rows()[j]).len() > 0,
        ensures
            final(self).distances@.len() == ROWS,
            final(self).cap == old(self).cap,
            final(self).size == old(self).size,
            final(self).rows() == old(self).rows().update(
                old(self).worst as int,
                old(self).rows()[old(self).worst as int].drop_last(),
            ),
            final(self).tops_at(final(self).worst),
    {
        let ghost rows0 = self.rows();
        let ghost w = self.worst;
        self.distances[self.worst as usize].pop();
        proof {
            let rows1 = rows0.update(w as int, rows0[w as int].drop_last());
            assert(self.rows() =~= rows1);
            assert forall|j: int| w + 1 <= j < ROWS implies (#[trigger] rows1[j]).len() == 0 by {
                assert(rows0[j].len() == 0);
            }
            if rows0[w as int].len() > 1 {
                assert(rows1[w as int].len() > 0);
            } else {
                let j = choose|j: int| 0 <= j < w && (#[trigger] rows0[j]).len() > 0;
                assert(rows1[j].len() > 0);
            }
        }
        self.update_worst();
    }

    /// Copies the nearest items into `s`, nearest first, as many as `s` has
    /// room for, and returns the part of `s` that was written.
    pub fn fill_slice<'a>(&self, s: &'a mut [T]) -> (written: &'a mut [T]) where T: Clone
        requires
            self.wf(),
        ensures
            written@.len() == if old(s)@.len() <= self@.len() {
                old(s)@.len()
            } else {
                self@.len()
            },
            forall|i: int| 0 <= i < written@.len() ==> cloned(self@[i].0, #[trigger] written@[i]),
            final(s)@ == final(written)@ + old(s)@.skip(written@.len() as int),
    {
        let total_fill = if s.len() <= self.size {
            s.len()
        } else {
            self.size
        };
        let mut ix: usize = 0;
        let mut d: usize = 0;
        while d < ROWS && ix < total_fill
            invariant
                self.wf(),
                d <= ROWS,
                ix <= total_fill <= self@.len(),
                total_fill <= s@.len(),
                s@.len() == old(s)@.len(),
                ix == total_fill || ix == flat(self.rows(), d as nat).len(),
                forall|i: int| 0 <= i < ix ==> cloned(self@[i].0, #[trigger] s@[i]),
                forall|i: int| total_fill <= i < s@.len() ==> s@[i] == old(s)@[i],
            decreases ROWS - d,
        {
            let row = &self.distances[d];
            let mut j: usize = 0;
            while j < row.len() && ix < total_fill
                invariant
                    self.wf(),
                    d < ROWS,
                    row@ == self.rows()[d as int],
                    j <= row@.len(),
                    ix <= total_fill <= self@.len(),
                    total_fill <= s@.len(),
                    s@.len() == old(s)@.len(),
                    ix == total_fill || ix == flat(self.rows(), d as nat).len() + j,
                    forall|i: int| 0 <= i < ix ==> cloned(self@[i].0, #[trigger] s@[i]),
                    forall|i: int| total_fill <= i < s@.len() ==> s@[i] == old(s)@[i],
                decreases row@.len() - j,
            {
                proof {
                    lemma_flat_index(self.rows(), ROWS as nat, d as u32, j as int);
                }
                s[ix] = row[j].clone();
                ix += 1;
                j += 1;
            }
            proof {
                if ix != total_fill {
                    assert(flat(self.rows(), (d + 1) as nat).len() == flat(
                        self.rows(),
                        d as nat,
                    ).len() + row@.len());
                }
            }
            d += 1;
        }
        let (head, _rest) = s.split_at_mut(total_fill);
        head
    }

    /// Takes every entry out, nearest first, entries of equal distance in
    /// order of arrival. The queue is left empty, with its capacity.
    pub fn drain(&mut self) -> (out: Vec<(T, u32)>)
        requires
            old(self).wf(),
        ensures
            out@ == old(self)@,
            ascending(out@),
            final(self).wf(),
            final(self)@ == Seq::<(T, u32)>::empty(),
            final(self).capacity() == old(self).capacity(),
    {
        let mut out: Vec<(T, u32)> = Vec::new();
        let mut d: usize = 0;
        while d < ROWS
            invariant
                d <= ROWS,
                self.distances@.len() == ROWS,
                self.cap == old(self).cap,
                out@ == flat(old(self).rows(), d as nat),
                forall|j: int| 0 <= j < d ==> (#[trigger] self.distances@[j])@.len() == 0,
                forall|j: int| d <= j < ROWS ==> (#[trigger] self.distances@[j])@ == old(self).rows()[j],
            decreases ROWS - d,
        {
            let mut row: Vec<T> = Vec::new();
            std::mem::swap(&mut row, &mut self.distances[d]);
            move_row(row, d as u32, &mut out);
            d += 1;
        }
        self.size = 0;
        self.worst = MAX_DISTANCE;
        proof {
            old(self).lemma_wf();
            assert(empty_between(self.rows(), 0, ROWS as int));
            lemma_flat_all_empty(self.rows(), ROWS as nat);
        }
        out
    }
}

/// Moves the items of a row, each paired with the row's distance, to the end of `out`.
fn move_row<T>(row: Vec<T>, d: u32, out: &mut Vec<(T, u32)>)
    ensures
        final(out)@ == old(out)@ + tagged(row@, d),
{
    let ghost items = row@;
    for item in it: row
        invariant
            it.seq() == items,
            out@ == old(out)@ + tagged(items.take(it.index()), d),
    {
        out.push((item, d));
        proof {
            assert(tagged(items.take(it.index() + 1), d) =~= tagged(items.take(it.index()), d).push(
                (item, d),
            ));
        }
    }
    proof {
        assert(items.take(items.len() as int) =~= items);
    }
}

impl<T> Default for NearestQueue<T> {
    /// An empty queue of capacity 0.
    fn default() -> (q: Self)
        ensures
            q.wf(),
            q@ == Seq::<(T, u32)>::empty(),
            q.capacity() == 0,
    {
        NearestQueue::new()
    }
}

} // verus!
