//! Sequences of `(item, distance)` entries kept in ascending order of distance.
//!
//! These are the mathematical models that the bounded queue is specified with:
//! a stable insertion into an ordered sequence, the stable ordering of a whole
//! stream, and the effect of offering one entry to a queue of a given capacity.

use vstd::prelude::*;

verus! {

/// The entries of `s` are in non-decreasing order of distance.
pub open spec fn ascending<T>(s: Seq<(T, u32)>) -> bool {
    forall|i: int, j: int| 0 <= i <= j < s.len() ==> s[i].1 <= s[j].1
}

/// Every distance in `s` is at most `bound`.
pub open spec fn within<T>(s: Seq<(T, u32)>, bound: u32) -> bool {
    forall|i: int| 0 <= i < s.len() ==> (#[trigger] s[i]).1 <= bound
}

/// One past the position of the last entry of `s` whose distance is at most `d`
/// (0 when there is none).
pub open spec fn rank<T>(s: Seq<(T, u32)>, d: u32) -> int
    decreases s.len(),
{
    if s.len() == 0 {
        0
    } else if s.last().1 <= d {
        s.len() as int
    } else {
        rank(s.drop_last(), d)
    }
}

/// `s` with `(item, d)` put behind every entry that is at least as near.
pub open spec fn place<T>(s: Seq<(T, u32)>, item: T, d: u32) -> Seq<(T, u32)> {
    s.insert(rank(s, d), (item, d))
}

/// The stable ordering of a stream by distance: entries of equal distance keep
/// the order in which they arrived.
pub open spec fn ordered<T>(stream: Seq<(T, u32)>) -> Seq<(T, u32)>
    decreases stream.len(),
{
    if stream.len() == 0 {
        Seq::empty()
    } else {
        place(ordered(stream.drop_last()), stream.last().0, stream.last().1)
    }
}

/// The first `cap` entries of the stable ordering of `stream`, or all of them
/// when there are fewer.
pub open spec fn nearest_of<T>(stream: Seq<(T, u32)>, cap: nat) -> Seq<(T, u32)> {
    if stream.len() <= cap {
        ordered(stream)
    } else {
        ordered(stream).take(cap as int)
    }
}

/// Whether a queue holding `held`, of capacity `cap`, takes an entry at distance `d`.
pub open spec fn accepts<T>(held: Seq<(T, u32)>, cap: nat, d: u32) -> bool {
    held.len() < cap || (held.len() > 0 && d < held.last().1)
}

/// What a queue holding `held`, of capacity `cap`, holds after it was offered
/// `(item, d)`: below capacity the entry is placed; at capacity it is placed
/// and the last entry leaves, provided the new one is strictly nearer than
/// the last; otherwise nothing changes.
pub open spec fn offer<T>(held: Seq<(T, u32)>, cap: nat, item: T, d: u32) -> Seq<(T, u32)> {
    if held.len() < cap {
        place(held, item, d)
    } else if held.len() > 0 && d < held.last().1 {
        place(held, item, d).drop_last()
    } else {
        held
    }
}

/// What an empty queue of capacity `cap` holds after it was offered the
/// entries of `stream` one after the other.
pub open spec fn offer_all<T>(stream: Seq<(T, u32)>, cap: nat) -> Seq<(T, u32)>
    decreases stream.len(),
{
    if stream.len() == 0 {
        Seq::empty()
    } else {
        offer(offer_all(stream.drop_last(), cap), cap, stream.last().0, stream.last().1)
    }
}

/// The distance that a candidate has to beat: that of the last entry once the
/// queue is full, and `bound` before.
pub open spec fn worst_of<T>(held: Seq<(T, u32)>, cap: nat, bound: u32) -> u32 {
    if held.len() == 0 || held.len() < cap {
        bound
    } else {
        held.last().1
    }
}

/// In an ascending sequence everything before `rank` is at most `d` and
/// everything from `rank` on is farther than `d`.
pub proof fn lemma_rank_splits<T>(s: Seq<(T, u32)>, d: u32)
    requires
        ascending(s),
    ensures
        0 <= rank(s, d) <= s.len(),
        forall|i: int| 0 <= i < rank(s, d) ==> (#[trigger] s[i]).1 <= d,
        forall|i: int| rank(s, d) <= i < s.len() ==> (#[trigger] s[i]).1 > d,
    decreases s.len(),
{
    if s.len() == 0 {
    } else if s.last().1 <= d {
    } else {
        let t = s.drop_last();
        lemma_rank_splits(t, d);
        assert forall|i: int| rank(s, d) <= i < s.len() implies (#[trigger] s[i]).1 > d by {
            if i < t.len() {
                assert(t[i] == s[i]);
            }
        }
        assert forall|i: int| 0 <= i < rank(s, d) implies (#[trigger] s[i]).1 <= d by {
            assert(t[i] == s[i]);
        }
    }
}

/// A position that splits an ascending sequence at `d` is its rank.
pub proof fn lemma_rank_unique<T>(s: Seq<(T, u32)>, d: u32, p: int)
    requires
        0 <= p <= s.len(),
        forall|i: int| 0 <= i < p ==> (#[trigger] s[i]).1 <= d,
        forall|i: int| p <= i < s.len() ==> (#[trigger] s[i]).1 > d,
    ensures
        rank(s, d) == p,
    decreases s.len(),
{
    if s.len() == 0 {
    } else if s.last().1 <= d {
        if p < s.len() {
            assert(s[s.len() - 1].1 > d);
        }
    } else {
        let t = s.drop_last();
        if p == s.len() {
            assert(s[p - 1].1 <= d);
        }
        assert forall|i: int| 0 <= i < p implies (#[trigger] t[i]).1 <= d by {
            assert(t[i] == s[i]);
        }
        assert forall|i: int| p <= i < t.len() implies (#[trigger] t[i]).1 > d by {
            assert(t[i] == s[i]);
        }
        lemma_rank_unique(t, d, p);
    }
}

/// Placing an entry keeps the order, adds one entry and keeps the bound.
pub proof fn lemma_place_ascending<T>(s: Seq<(T, u32)>, item: T, d: u32)
    requires
        ascending(s),
    ensures
        ascending(place(s, item, d)),
        place(s, item, d).len() == s.len() + 1,
        place(s, item, d)[rank(s, d)] == (item, d),
        forall|i: int| 0 <= i < rank(s, d) ==> place(s, item, d)[i] == s[i],
        forall|i: int| rank(s, d) <= i < s.len() ==> place(s, item, d)[i + 1] == s[i],
        forall|bound: u32| within(s, bound) && d <= bound ==> within(place(s, item, d), bound),
{
    lemma_rank_splits(s, d);
    let r = rank(s, d);
    let p = place(s, item, d);
    s.insert_ensures(r, (item, d));
    assert forall|i: int, j: int| 0 <= i <= j < p.len() implies p[i].1 <= p[j].1 by {
        if i < r {
            assert(p[i] == s[i]);
        } else if i > r {
            assert(p[i] == s[i - 1]);
        }
        if j < r {
            assert(p[j] == s[j]);
        } else if j > r {
            assert(p[j] == s[j - 1]);
        }
    }
    assert forall|bound: u32| within(s, bound) && d <= bound implies within(p, bound) by {
        assert forall|i: int| 0 <= i < p.len() implies (#[trigger] p[i]).1 <= bound by {
            if i < r {
                assert(p[i] == s[i]);
            } else if i > r {
                assert(p[i] == s[i - 1]);
            }
        }
    }
}

/// The stable ordering of a stream is ascending and as long as the stream.
pub proof fn lemma_ordered_ascending<T>(stream: Seq<(T, u32)>)
    ensures
        ascending(ordered(stream)),
        ordered(stream).len() == stream.len(),
    decreases stream.len(),
{
    if stream.len() > 0 {
        lemma_ordered_ascending(stream.drop_last());
        lemma_place_ascending(ordered(stream.drop_last()), stream.last().0, stream.last().1);
    }
}

/// Offering an entry keeps the order, the capacity and the bound.
pub proof fn lemma_offer_ascending<T>(held: Seq<(T, u32)>, cap: nat, item: T, d: u32)
    requires
        ascending(held),
        held.len() <= cap,
    ensures
        ascending(offer(held, cap, item, d)),
        offer(held, cap, item, d).len() <= cap,
        offer(held, cap, item, d).len() == if held.len() < cap {
            held.len() + 1
        } else {
            held.len()
        },
        forall|bound: u32| within(held, bound) && d <= bound ==> within(offer(held, cap, item, d), bound),
{
    lemma_place_ascending(held, item, d);
    let p = place(held, item, d);
    if held.len() < cap {
    } else if held.len() > 0 && d < held.last().1 {
        let q = p.drop_last();
        assert forall|i: int, j: int| 0 <= i <= j < q.len() implies q[i].1 <= q[j].1 by {
            assert(q[i] == p[i]);
            assert(q[j] == p[j]);
        }
        assert forall|bound: u32| within(held, bound) && d <= bound implies within(q, bound) by {
            assert forall|i: int| 0 <= i < q.len() implies (#[trigger] q[i]).1 <= bound by {
                assert(q[i] == p[i]);
            }
        }
    } else {
    }
}

/// Offering an entry to the first `cap` entries of an ascending sequence
/// gives the first `cap` entries of that sequence with the entry placed.
pub proof fn lemma_offer_prefix<T>(o: Seq<(T, u32)>, cap: nat, item: T, d: u32)
    requires
        ascending(o),
        0 < cap <= o.len(),
    ensures
        offer(o.take(cap as int), cap, item, d) == place(o, item, d).take(cap as int),
{
    let v = o.take(cap as int);
    let r = rank(o, d);
    lemma_rank_splits(o, d);
    lemma_place_ascending(o, item, d);
    assert(v.last() == o[cap - 1]);
    if d < v.last().1 {
        assert(r <= cap - 1) by {
            if r > cap - 1 {
                assert(o[cap - 1].1 <= d);
            }
        }
        assert forall|i: int| 0 <= i < r implies (#[trigger] v[i]).1 <= d by {
            assert(v[i] == o[i]);
        }
        assert forall|i: int| r <= i < v.len() implies (#[trigger] v[i]).1 > d by {
            assert(v[i] == o[i]);
        }
        lemma_rank_unique(v, d, r);
        assert(place(v, item, d).drop_last() =~= place(o, item, d).take(cap as int));
    } else {
        assert(r >= cap) by {
            if r < cap {
                assert(o[cap - 1].1 > d);
            }
        }
        assert(v =~= place(o, item, d).take(cap as int));
    }
}

/// A queue of capacity `cap` that was offered a stream holds the `cap`
/// nearest entries of the stream, those that came first among entries of
/// equal distance, in ascending order; all of them while the stream is
/// shorter than `cap`.
pub proof fn lemma_queue_keeps_nearest<T>(stream: Seq<(T, u32)>, cap: nat)
    requires
        cap > 0,
    ensures
        offer_all(stream, cap) == nearest_of(stream, cap),
    decreases stream.len(),
{
    if stream.len() > 0 {
        let before = stream.drop_last();
        let item = stream.last().0;
        let d = stream.last().1;
        lemma_queue_keeps_nearest(before, cap);
        lemma_ordered_ascending(before);
        let o = ordered(before);
        lemma_place_ascending(o, item, d);
        if before.len() < cap {
        } else {
            lemma_offer_prefix(o, cap, item, d);
            if before.len() == cap {
                assert(o.take(cap as int) =~= o);
            }
        }
    }
}

/// No item occurs in two entries of `s`.
pub open spec fn distinct_items<T>(s: Seq<(T, u32)>) -> bool {
    forall|i: int, j: int| 0 <= i < j < s.len() ==> s[i].0 != s[j].0
}

/// Placing an entry keeps every entry and adds the one placed.
pub proof fn lemma_place_members<T>(s: Seq<(T, u32)>, item: T, d: u32)
    requires
        ascending(s),
    ensures
        place(s, item, d).contains((item, d)),
        forall|k: int| 0 <= k < s.len() ==> place(s, item, d).contains(#[trigger] s[k]),
        forall|k: int|
            0 <= k < place(s, item, d).len() ==> (#[trigger] place(s, item, d)[k]) == (item, d)
                || s.contains(place(s, item, d)[k]),
        distinct_items(s) && (forall|k: int| 0 <= k < s.len() ==> (#[trigger] s[k]).0 != item)
            ==> distinct_items(place(s, item, d)),
        place(s, item, d)[0].1 <= d,
        s.len() > 0 ==> place(s, item, d)[0].1 <= s[0].1,
{
    lemma_place_ascending(s, item, d);
    lemma_rank_splits(s, d);
    let r = rank(s, d);
    let p = place(s, item, d);
    assert(p[r] == (item, d));
    assert forall|k: int| 0 <= k < s.len() implies p.contains(#[trigger] s[k]) by {
        if k < r {
            assert(p[k] == s[k]);
        } else {
            assert(p[k + 1] == s[k]);
        }
    }
    assert forall|k: int| 0 <= k < p.len() implies (#[trigger] p[k]) == (item, d) || s.contains(
        p[k],
    ) by {
        if k < r {
            assert(p[k] == s[k]);
        } else if k > r {
            assert(p[k] == s[k - 1]);
        }
    }
    if distinct_items(s) && (forall|k: int| 0 <= k < s.len() ==> (#[trigger] s[k]).0 != item) {
        assert forall|i: int, j: int| 0 <= i < j < p.len() implies p[i].0 != p[j].0 by {
            let i2 = if i < r {
                i
            } else {
                i - 1
            };
            let j2 = if j < r {
                j
            } else {
                j - 1
            };
            if i != r {
                assert(p[i] == s[i2]);
            }
            if j != r {
                assert(p[j] == s[j2]);
            }
        }
    }
    if r > 0 {
        assert(p[0] == s[0]);
    }
}

/// Offering an entry leaves entries that were held or the one offered,
/// none twice if none was held twice, and does not move the nearest entry away.
pub proof fn lemma_offer_members<T>(held: Seq<(T, u32)>, cap: nat, item: T, d: u32)
    requires
        ascending(held),
        held.len() <= cap,
        cap > 0,
    ensures
        forall|k: int|
            0 <= k < offer(held, cap, item, d).len() ==> (#[trigger] offer(held, cap, item, d)[k]) == (
                item,
                d,
            ) || held.contains(offer(held, cap, item, d)[k]),
        distinct_items(held) && (forall|k: int| 0 <= k < held.len() ==> (#[trigger] held[k]).0 != item)
            ==> distinct_items(offer(held, cap, item, d)),
        offer(held, cap, item, d).len() > 0,
        held.len() > 0 ==> offer(held, cap, item, d)[0].1 <= held[0].1,
        held.len() == 0 ==> offer(held, cap, item, d)[0] == (item, d),
{
    lemma_place_members(held, item, d);
    lemma_place_ascending(held, item, d);
    let p = place(held, item, d);
    let o = offer(held, cap, item, d);
    if held.len() < cap {
        if held.len() == 0 {
            assert(p[0] == (item, d));
        }
    } else if d < held.last().1 {
        assert forall|k: int| 0 <= k < o.len() implies (#[trigger] o[k]) == (item, d)
            || held.contains(o[k]) by {
            assert(o[k] == p[k]);
        }
        if distinct_items(held) && (forall|k: int|
            0 <= k < held.len() ==> (#[trigger] held[k]).0 != item) {
            assert forall|i: int, j: int| 0 <= i < j < o.len() implies o[i].0 != o[j].0 by {
                assert(o[i] == p[i]);
                assert(o[j] == p[j]);
            }
        }
        assert(o[0] == p[0]);
    } else {
        assert forall|k: int| 0 <= k < o.len() implies (#[trigger] o[k]) == (item, d)
            || held.contains(o[k]) by {}
    }
}

/// After an offer every entry that was held is still held, or the queue is
/// full of entries that are at least as near. The entry offered is held
/// exactly if the queue accepts it, and the last entry of a full queue
/// moves no farther away.
pub proof fn lemma_offer_settles<T>(held: Seq<(T, u32)>, cap: nat, item: T, d: u32)
    requires
        ascending(held),
        held.len() <= cap,
        cap > 0,
    ensures
        forall|j: int|
            0 <= j < held.len() ==> offer(held, cap, item, d).contains(#[trigger] held[j]) || (offer(
                held,
                cap,
                item,
                d,
            ).len() == cap && held[j].1 >= offer(held, cap, item, d).last().1),
        accepts(held, cap, d) ==> offer(held, cap, item, d).contains((item, d)),
        !accepts(held, cap, d) ==> offer(held, cap, item, d) == held && held.len() == cap && d
            >= held.last().1,
        held.len() == cap ==> offer(held, cap, item, d).len() == cap && offer(
            held,
            cap,
            item,
            d,
        ).last().1 <= held.last().1,
{
    lemma_place_members(held, item, d);
    lemma_place_ascending(held, item, d);
    lemma_rank_splits(held, d);
    let p = place(held, item, d);
    let o = offer(held, cap, item, d);
    let r = rank(held, d);
    if held.len() < cap {
    } else if d < held.last().1 {
        assert(r <= held.len() - 1) by {
            if r > held.len() - 1 {
                assert(held[held.len() - 1].1 <= d);
            }
        }
        assert(p[cap as int] == held[cap - 1]);
        assert(o.last() == p[cap - 1]);
        assert(o[r] == p[r]);
        assert forall|j: int| 0 <= j < held.len() implies o.contains(#[trigger] held[j]) || (
        o.len() == cap && held[j].1 >= o.last().1) by {
            if j < r {
                assert(o[j] == p[j]);
            } else if j + 1 < cap {
                assert(o[j + 1] == p[j + 1]);
            } else {
                assert(p[j + 1] == held[j]);
            }
        }
    } else {
    }
}

/// Whatever stream a queue of capacity `cap` was offered, it holds at most
/// `cap` entries, in non-decreasing order of distance.
pub proof fn lemma_queue_ascending<T>(stream: Seq<(T, u32)>, cap: nat)
    ensures
        ascending(offer_all(stream, cap)),
        offer_all(stream, cap).len() <= cap,
        offer_all(stream, cap).len() <= stream.len(),
    decreases stream.len(),
{
    if stream.len() > 0 {
        lemma_queue_ascending(stream.drop_last(), cap);
        lemma_offer_ascending(
            offer_all(stream.drop_last(), cap),
            cap,
            stream.last().0,
            stream.last().1,
        );
    }
}

} // verus!
