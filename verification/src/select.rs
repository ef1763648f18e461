//! The choice of a feature's neighbours among candidates.
//!
//! Candidates are taken nearest first. One is passed over when a neighbour
//! chosen before it is nearer to it than the feature itself is: that
//! neighbour already leads there. This spreads the neighbours out.

use vstd::prelude::*;
use crate::distance::Distance;
use crate::ranking::{
    ascending, distinct_items, lemma_place_ascending, lemma_place_members, lemma_rank_unique,
    ordered, place,
};

verus! {

/// A feature chosen before is nearer to candidate `c` than `d`.
pub open spec fn blocked<T: Distance>(feats: Seq<T>, picked: Seq<u32>, c: u32, d: u32) -> bool {
    exists|k: int|
        0 <= k < picked.len() && T::gap(&feats[c as int], &feats[#[trigger] picked[k] as int]) < d
}

/// The neighbours chosen among `cands`, at most `m`: a candidate is taken
/// unless `m` are chosen already or one chosen before blocks it.
pub open spec fn chosen<T: Distance>(feats: Seq<T>, cands: Seq<(u32, u32)>, m: nat) -> Seq<u32>
    decreases cands.len(),
{
    if cands.len() == 0 {
        Seq::empty()
    } else {
        let before = chosen(feats, cands.drop_last(), m);
        if before.len() < m && !blocked(feats, before, cands.last().0, cands.last().1) {
            before.push(cands.last().0)
        } else {
            before
        }
    }
}

/// The features of `list`, each with its distance from feature `s`.
pub open spec fn measured<T: Distance>(feats: Seq<T>, s: u32, list: Seq<u32>) -> Seq<(u32, u32)> {
    Seq::new(list.len(), |k: int| (list[k], T::gap(&feats[s as int], &feats[list[k] as int])))
}

/// The neighbours that feature `s` keeps of `list`, at most `m`: those
/// chosen among the features of `list` in order of their distance from `s`.
pub open spec fn kept<T: Distance>(feats: Seq<T>, s: u32, list: Seq<u32>, m: nat) -> Seq<u32> {
    chosen(feats, ordered(measured(feats, s, list)), m)
}

/// What is chosen is chosen among the candidates: at most `m` of them, none twice
/// where no candidate comes twice, and the nearest candidate first.
pub proof fn lemma_chosen<T: Distance>(feats: Seq<T>, cands: Seq<(u32, u32)>, m: nat)
    ensures
        chosen(feats, cands, m).len() <= m,
        chosen(feats, cands, m).len() <= cands.len(),
        forall|k: int|
            0 <= k < chosen(feats, cands, m).len() ==> exists|j: int|
                0 <= j < cands.len() && (#[trigger] cands[j]).0 == #[trigger] chosen(feats, cands, m)[k],
        distinct_items(cands) ==> chosen(feats, cands, m).no_duplicates(),
        m > 0 && cands.len() > 0 ==> chosen(feats, cands, m).len() > 0 && chosen(feats, cands, m)[0]
            == cands[0].0,
    decreases cands.len(),
{
    if cands.len() > 0 {
        let rest = cands.drop_last();
        lemma_chosen(feats, rest, m);
        let before = chosen(feats, rest, m);
        let now = chosen(feats, cands, m);
        assert forall|k: int| 0 <= k < now.len() implies exists|j: int|
            0 <= j < cands.len() && (#[trigger] cands[j]).0 == #[trigger] now[k] by {
            if k < before.len() {
                let j = choose|j: int| 0 <= j < rest.len() && (#[trigger] rest[j]).0 == before[k];
                assert(cands[j] == rest[j]);
            } else {
                assert(cands[cands.len() - 1].0 == now[k]);
            }
        }
        if distinct_items(cands) {
            assert(distinct_items(rest)) by {
                assert forall|i: int, j: int| 0 <= i < j < rest.len() implies rest[i].0
                    != rest[j].0 by {
                    assert(rest[i] == cands[i]);
                    assert(rest[j] == cands[j]);
                }
            }
            assert forall|a: int, b: int| 0 <= a < now.len() && 0 <= b < now.len() && a
                != b implies now[a] != now[b] by {
                if a < before.len() && b < before.len() {
                } else {
                    let older = if a < before.len() {
                        a
                    } else {
                        b
                    };
                    let j = choose|j: int|
                        0 <= j < rest.len() && (#[trigger] rest[j]).0 == before[older];
                    assert(rest[j] == cands[j]);
                }
            }
        }
        if m > 0 {
            if rest.len() == 0 {
                assert(!blocked(feats, before, cands.last().0, cands.last().1));
            } else {
                assert(rest[0] == cands[0]);
            }
        }
    }
}

/// Whether a feature among `picked` is nearer to feature `c` than `d`.
pub fn is_blocked<T: Distance>(features: &Vec<T>, picked: &Vec<u32>, c: u32, d: u32) -> (b: bool)
    requires
        c < features@.len(),
        forall|k: int| 0 <= k < picked@.len() ==> picked@[k] < features@.len(),
    ensures
        b == blocked(features@, picked@, c, d),
{
    let mut k: usize = 0;
    while k < picked.len()
        invariant
            k <= picked@.len(),
            c < features@.len(),
            forall|j: int| 0 <= j < picked@.len() ==> picked@[j] < features@.len(),
            forall|j: int|
                0 <= j < k ==> T::gap(&features@[c as int], &features@[#[trigger] picked@[j] as int])
                    >= d,
        decreases picked@.len() - k,
    {
        let between = T::distance(&features[c as usize], &features[picked[k] as usize]);
        if between < d {
            return true;
        }
        k += 1;
    }
    false
}

/// Chooses at most `m` neighbours among candidates that come nearest first.
pub fn select_neighbors<T: Distance>(features: &Vec<T>, cands: &Vec<(u32, u32)>, m: usize) -> (picked:
    Vec<u32>)
    requires
        forall|k: int| 0 <= k < cands@.len() ==> (#[trigger] cands@[k]).0 < features@.len(),
    ensures
        picked@ == chosen(features@, cands@, m as nat),
{
    let mut picked: Vec<u32> = Vec::new();
    let mut i: usize = 0;
    while i < cands.len()
        invariant
            i <= cands@.len(),
            forall|k: int| 0 <= k < cands@.len() ==> (#[trigger] cands@[k]).0 < features@.len(),
            forall|k: int| 0 <= k < picked@.len() ==> picked@[k] < features@.len(),
            picked@ == chosen(features@, cands@.take(i as int), m as nat),
        decreases cands@.len() - i,
    {
        let c = cands[i].0;
        let d = cands[i].1;
        proof {
            assert(cands@.take(i + 1).drop_last() =~= cands@.take(i as int));
            assert(cands@.take(i + 1).last() == cands@[i as int]);
        }
        if picked.len() < m && !is_blocked(features, &picked, c, d) {
            picked.push(c);
        }
        i += 1;
    }
    proof {
        assert(cands@.take(cands@.len() as int) =~= cands@);
    }
    picked
}

/// Puts an entry into an ascending list, behind those that are at least as near.
pub fn place_entry(list: &mut Vec<(u32, u32)>, item: u32, d: u32)
    requires
        ascending(old(list)@),
    ensures
        final(list)@ == place(old(list)@, item, d),
        ascending(final(list)@),
{
    let mut k: usize = list.len();
    while k > 0 && list[k - 1].1 > d
        invariant
            list@ == old(list)@,
            k <= list@.len(),
            forall|i: int| k <= i < list@.len() ==> (#[trigger] list@[i]).1 > d,
        decreases k,
    {
        k -= 1;
    }
    proof {
        assert forall|i: int| 0 <= i < k implies (#[trigger] list@[i]).1 <= d by {
            assert(list@[i].1 <= list@[k - 1].1);
        }
        lemma_rank_unique(list@, d, k as int);
        lemma_place_ascending(list@, item, d);
    }
    list.insert(k, (item, d));
}

/// The features of `list` in order of their distance from feature `s`,
/// features at the same distance in the order of `list`.
pub fn rank_neighbors<T: Distance>(features: &Vec<T>, s: u32, list: &Vec<u32>) -> (sorted: Vec<
    (u32, u32),
>)
    requires
        s < features@.len(),
        forall|k: int| 0 <= k < list@.len() ==> list@[k] < features@.len(),
    ensures
        sorted@ == ordered(measured(features@, s, list@)),
        ascending(sorted@),
        sorted@.len() == list@.len(),
        forall|i: int| 0 <= i < sorted@.len() ==> list@.contains((#[trigger] sorted@[i]).0),
        list@.no_duplicates() ==> distinct_items(sorted@),
{
    let mut sorted: Vec<(u32, u32)> = Vec::new();
    let mut k: usize = 0;
    while k < list.len()
        invariant
            k <= list@.len(),
            s < features@.len(),
            forall|j: int| 0 <= j < list@.len() ==> list@[j] < features@.len(),
            sorted@ == ordered(measured(features@, s, list@).take(k as int)),
            ascending(sorted@),
            sorted@.len() == k,
            forall|i: int|
                0 <= i < sorted@.len() ==> exists|j: int|
                    0 <= j < k && #[trigger] list@[j] == (#[trigger] sorted@[i]).0,
            list@.no_duplicates() ==> distinct_items(sorted@),
        decreases list@.len() - k,
    {
        let n = list[k];
        let d = T::distance(&features[s as usize], &features[n as usize]);
        let ghost before = sorted@;
        proof {
            let all = measured(features@, s, list@);
            assert(all.take(k + 1).drop_last() =~= all.take(k as int));
            assert(all.take(k + 1).last() == (n, d));
            lemma_place_members(before, n, d);
            lemma_place_ascending(before, n, d);
        }
        place_entry(&mut sorted, n, d);
        proof {
            assert forall|i: int| 0 <= i < sorted@.len() implies exists|j: int|
                0 <= j < k + 1 && #[trigger] list@[j] == (#[trigger] sorted@[i]).0 by {
                if sorted@[i] == (n, d) {
                    assert(list@[k as int] == n);
                } else {
                    assert(before.contains(sorted@[i]));
                    let i0 = choose|i0: int| 0 <= i0 < before.len() && before[i0] == sorted@[i];
                    let j = choose|j: int| 0 <= j < k && #[trigger] list@[j] == before[i0].0;
                    assert(list@[j] == sorted@[i].0);
                }
            }
            if list@.no_duplicates() {
                assert forall|i: int| 0 <= i < before.len() implies (#[trigger] before[i]).0
                    != n by {
                    let j = choose|j: int| 0 <= j < k && #[trigger] list@[j] == before[i].0;
                    assert(list@[j] != list@[k as int]);
                }
            }
        }
        k += 1;
    }
    proof {
        let all = measured(features@, s, list@);
        assert(all.take(all.len() as int) =~= all);
        assert forall|i: int| 0 <= i < sorted@.len() implies list@.contains(
            (#[trigger] sorted@[i]).0,
        ) by {
            let j = choose|j: int| 0 <= j < k && #[trigger] list@[j] == sorted@[i].0;
            assert(list@[j] == sorted@[i].0);
        }
    }
    sorted
}

} // verus!
