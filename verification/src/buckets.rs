//! Rows of items indexed by distance, read as one ascending sequence.
//!
//! Row `d` holds the items at distance `d` in the order in which they came.
//! Reading the rows one after the other gives the entries in ascending order
//! of distance, ties in order of arrival.

use vstd::prelude::*;
use crate::ranking::{ascending, within, rank, place};

verus! {

/// The items of one row, each paired with the row's distance.
pub open spec fn tagged<T>(row: Seq<T>, d: u32) -> Seq<(T, u32)> {
    Seq::new(row.len(), |i: int| (row[i], d))
}

/// The entries of the first `n` rows, row after row.
pub open spec fn flat<T>(rows: Seq<Seq<T>>, n: nat) -> Seq<(T, u32)>
    decreases n,
{
    if n == 0 {
        Seq::empty()
    } else {
        flat(rows, (n - 1) as nat) + tagged(rows[n - 1], (n - 1) as u32)
    }
}

/// Every row from `from` up to `to` (exclusive) is empty.
pub open spec fn empty_between<T>(rows: Seq<Seq<T>>, from: int, to: int) -> bool {
    forall|j: int| from <= j < to ==> (#[trigger] rows[j]).len() == 0
}

/// Reading more rows only adds entries at the end.
pub proof fn lemma_flat_prefix<T>(rows: Seq<Seq<T>>, m: nat, n: nat)
    requires
        m <= n,
    ensures
        flat(rows, m).len() <= flat(rows, n).len(),
        flat(rows, m) == flat(rows, n).take(flat(rows, m).len() as int),
    decreases n,
{
    if m < n {
        lemma_flat_prefix(rows, m, (n - 1) as nat);
        assert(flat(rows, m) =~= flat(rows, n).take(flat(rows, m).len() as int));
    } else {
        assert(flat(rows, m) =~= flat(rows, n).take(flat(rows, m).len() as int));
    }
}

/// The entries of the first `n` rows are ascending, and all nearer than `n`.
pub proof fn lemma_flat_ascending<T>(rows: Seq<Seq<T>>, n: nat)
    requires
        n <= u32::MAX,
    ensures
        ascending(flat(rows, n)),
        forall|i: int| 0 <= i < flat(rows, n).len() ==> (#[trigger] flat(rows, n)[i]).1 < n,
    decreases n,
{
    if n > 0 {
        lemma_flat_ascending(rows, (n - 1) as nat);
        let a = flat(rows, (n - 1) as nat);
        let f = flat(rows, n);
        assert forall|i: int| 0 <= i < f.len() implies (#[trigger] f[i]).1 < n by {
            if i < a.len() {
                assert(f[i] == a[i]);
            }
        }
        assert forall|i: int, j: int| 0 <= i <= j < f.len() implies f[i].1 <= f[j].1 by {
            if j < a.len() {
                assert(f[i] == a[i]);
                assert(f[j] == a[j]);
            } else if i < a.len() {
                assert(f[i] == a[i]);
            }
        }
    }
}

/// Rows that agree below `n` read the same up to `n`.
pub proof fn lemma_flat_agree<T>(r1: Seq<Seq<T>>, r2: Seq<Seq<T>>, n: nat)
    requires
        forall|j: int| 0 <= j < n ==> r1[j] == r2[j],
    ensures
        flat(r1, n) == flat(r2, n),
    decreases n,
{
    if n > 0 {
        lemma_flat_agree(r1, r2, (n - 1) as nat);
    }
}

/// Empty rows add nothing.
pub proof fn lemma_flat_empty_tail<T>(rows: Seq<Seq<T>>, m: nat, n: nat)
    requires
        m <= n,
        empty_between(rows, m as int, n as int),
    ensures
        flat(rows, n) == flat(rows, m),
    decreases n,
{
    if m < n {
        lemma_flat_empty_tail(rows, m, (n - 1) as nat);
        assert(rows[n - 1].len() == 0);
        assert(flat(rows, n) =~= flat(rows, (n - 1) as nat));
    }
}

/// With every row empty there is no entry.
pub proof fn lemma_flat_all_empty<T>(rows: Seq<Seq<T>>, n: nat)
    requires
        empty_between(rows, 0, n as int),
    ensures
        flat(rows, n) == Seq::<(T, u32)>::empty(),
{
    lemma_flat_empty_tail(rows, 0, n);
}

/// The rank of `d` among the first `n` rows is the number of entries in the rows up to `d`.
pub proof fn lemma_flat_rank<T>(rows: Seq<Seq<T>>, n: nat, d: u32)
    requires
        d < n <= u32::MAX,
    ensures
        rank(flat(rows, n), d) == flat(rows, (d + 1) as nat).len(),
{
    let f = flat(rows, n);
    let head = flat(rows, (d + 1) as nat);
    lemma_flat_prefix(rows, (d + 1) as nat, n);
    lemma_flat_ascending(rows, (d + 1) as nat);
    lemma_flat_rest_farther(rows, (d + 1) as nat, n);
    assert forall|i: int| 0 <= i < head.len() implies (#[trigger] f[i]).1 <= d by {
        assert(f[i] == head[i]);
    }
    crate::ranking::lemma_rank_unique(f, d, head.len() as int);
}

/// Entries that come after those of the first `m` rows are at distance `m` or more.
pub proof fn lemma_flat_rest_farther<T>(rows: Seq<Seq<T>>, m: nat, n: nat)
    requires
        m <= n <= u32::MAX,
    ensures
        flat(rows, m).len() <= flat(rows, n).len(),
        forall|i: int|
            flat(rows, m).len() <= i < flat(rows, n).len() ==> (#[trigger] flat(rows, n)[i]).1 >= m,
    decreases n,
{
    if m < n {
        lemma_flat_rest_farther(rows, m, (n - 1) as nat);
        let a = flat(rows, (n - 1) as nat);
        let f = flat(rows, n);
        assert forall|i: int| flat(rows, m).len() <= i < f.len() implies (#[trigger] f[i]).1 >= m by {
            if i < a.len() {
                assert(f[i] == a[i]);
            }
        }
    }
}

/// Appending an item to row `d` places `(item, d)` among the entries.
pub proof fn lemma_flat_push<T>(rows: Seq<Seq<T>>, n: nat, d: u32, item: T)
    requires
        d < n <= u32::MAX,
        n <= rows.len(),
    ensures
        flat(rows.update(d as int, rows[d as int].push(item)), n) == place(flat(rows, n), item, d),
    decreases n,
{
    let after = rows.update(d as int, rows[d as int].push(item));
    let head = flat(rows, (d + 1) as nat);
    lemma_flat_rank(rows, n, d);
    if n == d + 1 {
        lemma_flat_agree(rows, after, d as nat);
        assert(tagged(after[d as int], d) =~= tagged(rows[d as int], d).push((item, d)));
        assert(flat(after, n) =~= flat(rows, n).insert(head.len() as int, (item, d)));
    } else {
        lemma_flat_push(rows, (n - 1) as nat, d, item);
        lemma_flat_rank(rows, (n - 1) as nat, d);
        lemma_flat_prefix(rows, (d + 1) as nat, (n - 1) as nat);
        assert(after[n - 1] == rows[n - 1]);
        let a = flat(rows, (n - 1) as nat);
        let t = tagged(rows[n - 1], (n - 1) as u32);
        assert(flat(after, n) == a.insert(head.len() as int, (item, d)) + t);
        assert(a.insert(head.len() as int, (item, d)) + t =~= (a + t).insert(
            head.len() as int,
            (item, d),
        ));
    }
}

/// Taking the last item off the highest row that has one takes the last entry off.
pub proof fn lemma_flat_pop<T>(rows: Seq<Seq<T>>, n: nat, w: u32)
    requires
        w < n <= u32::MAX,
        n <= rows.len(),
        rows[w as int].len() > 0,
        empty_between(rows, w + 1, n as int),
    ensures
        flat(rows, n).len() > 0,
        flat(rows, n).last() == (rows[w as int].last(), w),
        flat(rows.update(w as int, rows[w as int].drop_last()), n) == flat(rows, n).drop_last(),
{
    let after = rows.update(w as int, rows[w as int].drop_last());
    lemma_flat_empty_tail(rows, (w + 1) as nat, n);
    assert(empty_between(after, w + 1, n as int)) by {
        assert forall|j: int| w + 1 <= j < n implies (#[trigger] after[j]).len() == 0 by {
            assert(rows[j].len() == 0);
        }
    }
    lemma_flat_empty_tail(after, (w + 1) as nat, n);
    lemma_flat_agree(rows, after, w as nat);
    assert(tagged(after[w as int], w) =~= tagged(rows[w as int], w).drop_last());
    assert(flat(after, (w + 1) as nat) =~= flat(rows, (w + 1) as nat).drop_last());
}

/// Entry `i` of row `d` is the entry at position `i` behind the rows before `d`.
pub proof fn lemma_flat_index<T>(rows: Seq<Seq<T>>, n: nat, d: u32, i: int)
    requires
        d < n <= u32::MAX,
        0 <= i < rows[d as int].len(),
    ensures
        flat(rows, d as nat).len() + i < flat(rows, n).len(),
        flat(rows, n)[flat(rows, d as nat).len() + i] == (rows[d as int][i], d),
{
    lemma_flat_prefix(rows, (d + 1) as nat, n);
    let head = flat(rows, (d + 1) as nat);
    let k = flat(rows, d as nat).len() + i;
    assert(head[k] == (rows[d as int][i], d));
    assert(flat(rows, n).take(head.len() as int)[k] == flat(rows, n)[k]);
}

/// All entries of rows whose distances stay below `n` are within `n - 1`.
pub proof fn lemma_flat_within<T>(rows: Seq<Seq<T>>, n: nat)
    requires
        0 < n <= u32::MAX,
    ensures
        within(flat(rows, n), (n - 1) as u32),
{
    lemma_flat_ascending(rows, n);
}

/// Taking the last item off row `d` removes the last of the entries at distance `d`.
pub proof fn lemma_flat_take_last<T>(rows: Seq<Seq<T>>, n: nat, d: u32)
    requires
        d < n <= u32::MAX,
        n <= rows.len(),
        rows[d as int].len() > 0,
    ensures
        0 <= flat(rows, (d + 1) as nat).len() - 1 < flat(rows, n).len(),
        flat(rows, n)[flat(rows, (d + 1) as nat).len() - 1] == (rows[d as int].last(), d),
        flat(rows.update(d as int, rows[d as int].drop_last()), n) == flat(rows, n).remove(
            flat(rows, (d + 1) as nat).len() - 1,
        ),
    decreases n,
{
    let after = rows.update(d as int, rows[d as int].drop_last());
    let head = flat(rows, (d + 1) as nat);
    let k = head.len() - 1;
    lemma_flat_index(rows, n, d, rows[d as int].len() - 1);
    if n == d + 1 {
        lemma_flat_agree(rows, after, d as nat);
        assert(tagged(after[d as int], d) =~= tagged(rows[d as int], d).drop_last());
        assert(flat(after, n) =~= flat(rows, n).remove(k));
    } else {
        lemma_flat_take_last(rows, (n - 1) as nat, d);
        lemma_flat_prefix(rows, (d + 1) as nat, (n - 1) as nat);
        assert(after[n - 1] == rows[n - 1]);
        let a = flat(rows, (n - 1) as nat);
        let t = tagged(rows[n - 1], (n - 1) as u32);
        assert(flat(after, n) == a.remove(k) + t);
        assert(a.remove(k) + t =~= (a + t).remove(k));
    }
}

/// The first entry is at the distance of the lowest row that holds an item.
pub proof fn lemma_flat_first<T>(rows: Seq<Seq<T>>, n: nat, lo: u32)
    requires
        lo < n <= u32::MAX,
        empty_between(rows, 0, lo as int),
        rows[lo as int].len() > 0,
    ensures
        flat(rows, n).len() > 0,
        flat(rows, n)[0] == (rows[lo as int][0], lo),
        flat(rows, (lo + 1) as nat).len() == rows[lo as int].len(),
{
    lemma_flat_all_empty(rows, lo as nat);
    lemma_flat_index(rows, n, lo, 0);
}

} // verus!
