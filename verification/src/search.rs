//! The greedy search of one layer.
//!
//! The search starts at one feature of the layer and keeps the `ef` nearest
//! features that it comes across. It expands the nearest feature that it has
//! not expanded yet, that is, it looks at that feature's neighbours, and it
//! ends when that feature is farther than the worst of `ef` found.

use vstd::prelude::*;
use vstd::set_lib::lemma_len_subset;
use crate::distance::Distance;
use crate::graph::Graph;
use crate::nearest_queue::MAX_DISTANCE;
use crate::ranking::{
    accepts, ascending, distinct_items, lemma_offer_ascending, lemma_offer_members,
    lemma_offer_settles, lemma_place_ascending, lemma_place_members, offer, place, rank,
};
use crate::searcher::Searcher;
use crate::seen::{below, lemma_below};

verus! {

/// Every feature is within `MAX_DISTANCE` of `q`.
pub open spec fn reaches<T: Distance>(feats: Seq<T>, q: &T) -> bool {
    forall|i: int| 0 <= i < feats.len() ==> T::gap(q, #[trigger] &feats[i]) <= MAX_DISTANCE
}

/// What a search for `q` on layer `l` may hold as found: features of that
/// layer, each once, each with its distance from `q`, nearest first.
pub open spec fn found_on<T: Distance>(
    feats: Seq<T>,
    graph: Graph,
    q: &T,
    l: int,
    found: Seq<(u32, u32)>,
) -> bool {
    &&& ascending(found)
    &&& distinct_items(found)
    &&& forall|k: int|
        0 <= k < found.len() ==> graph.on_layer((#[trigger] found[k]).0 as int, l) && found[k].1
            == T::gap(q, &feats[found[k].0 as int])
}

/// Feature `id` is among the entries.
pub open spec fn among(entries: Seq<(u32, u32)>, id: u32) -> bool {
    exists|j: int| 0 <= j < entries.len() && (#[trigger] entries[j]).0 == id
}

/// Feature `x` is among the features found, or `ef` features were found
/// that are all at least as near to `q` as `x` is.
pub open spec fn settled<T: Distance>(
    feats: Seq<T>,
    q: &T,
    found: Seq<(u32, u32)>,
    ef: nat,
    x: u32,
) -> bool {
    among(found, x) || (found.len() == ef && T::gap(q, &feats[x as int]) >= found.last().1)
}

/// The search has looked at the first `upto` neighbours of `x` on layer `l`.
pub open spec fn expanded_to(graph: Graph, l: int, seen: Set<u32>, x: u32, upto: int) -> bool {
    forall|k: int|
        0 <= k < upto && k < graph.adj(x as int, l).len() ==> seen.contains(
            #[trigger] graph.adj(x as int, l)[k],
        )
}

/// No neighbour of a feature found would make what was found better: each
/// neighbour is found itself, or `ef` features were found that are all
/// at least as near to `q`.
pub open spec fn closed<T: Distance>(
    feats: Seq<T>,
    graph: Graph,
    q: &T,
    l: int,
    found: Seq<(u32, u32)>,
    ef: nat,
) -> bool {
    forall|i: int, k: int|
        0 <= i < found.len() && 0 <= k < graph.adj(found[i].0 as int, l).len() ==> settled(
            feats,
            q,
            found,
            ef,
            #[trigger] graph.adj((#[trigger] found[i]).0 as int, l)[k],
        )
}

/// A search that finds a neighbour of a feature at distance 0 from the
/// query, or starts at that feature, finds a feature at distance 0: that
/// feature itself where no other is at distance 0.
pub proof fn lemma_zero_is_found<T: Distance>(
    feats: Seq<T>,
    graph: Graph,
    q: &T,
    l: int,
    found: Seq<(u32, u32)>,
    ef: nat,
    x: u32,
)
    requires
        graph.count() == feats.len(),
        found_on(feats, graph, q, l, found),
        found.len() >= 1,
        x < feats.len(),
        T::gap(q, &feats[x as int]) == 0,
        settled(feats, q, found, ef, x) || (closed(feats, graph, q, l, found, ef) && exists|
            i: int,
            k: int,
        |
            0 <= i < found.len() && 0 <= k < graph.adj(found[i].0 as int, l).len()
                && #[trigger] graph.adj((#[trigger] found[i]).0 as int, l)[k] == x),
    ensures
        found[0].1 == 0,
        (forall|y: int| 0 <= y < feats.len() && y != x ==> T::gap(q, #[trigger] &feats[y]) > 0)
            ==> found[0].0 == x,
{
    assert(settled(feats, q, found, ef, x));
    if among(found, x) {
        let j = choose|j: int| 0 <= j < found.len() && (#[trigger] found[j]).0 == x;
        assert(found[0].1 <= found[j].1);
    } else {
        assert(found[0].1 <= found[found.len() - 1].1);
    }
    assert(graph.on_layer(found[0].0 as int, l));
    assert(T::gap(q, &feats[found[0].0 as int]) == 0);
}

/// The search has looked at all neighbours of `x` on layer `l`.
pub open spec fn expanded(graph: Graph, l: int, seen: Set<u32>, x: u32) -> bool {
    expanded_to(graph, l, seen, x, graph.adj(x as int, l).len() as int)
}

/// Every feature found is still waiting to be expanded, or all its
/// neighbours have been looked at.
pub open spec fn all_in_hand(
    graph: Graph,
    l: int,
    waiting: Seq<(u32, u32)>,
    seen: Set<u32>,
    found: Seq<(u32, u32)>,
) -> bool {
    forall|i: int|
        0 <= i < found.len() ==> among(waiting, (#[trigger] found[i]).0) || expanded(
            graph,
            l,
            seen,
            found[i].0,
        )
}

/// Every feature found is still waiting to be expanded, or all its
/// neighbours have been looked at, or it is the feature `c` that is being
/// expanded and its first `k` neighbours have been looked at.
pub open spec fn all_in_hand_but(
    graph: Graph,
    l: int,
    waiting: Seq<(u32, u32)>,
    seen: Set<u32>,
    found: Seq<(u32, u32)>,
    c: u32,
    k: int,
) -> bool {
    forall|i: int|
        0 <= i < found.len() ==> among(waiting, (#[trigger] found[i]).0) || expanded(
            graph,
            l,
            seen,
            found[i].0,
        ) || (found[i].0 == c && expanded_to(graph, l, seen, c, k))
}

/// Every feature found has had all its neighbours looked at.
pub open spec fn all_expanded(graph: Graph, l: int, seen: Set<u32>, found: Seq<(u32, u32)>) -> bool {
    forall|i: int| 0 <= i < found.len() ==> expanded(graph, l, seen, (#[trigger] found[i]).0)
}

/// Every feature seen is found or beaten.
pub open spec fn all_settled<T: Distance>(
    feats: Seq<T>,
    q: &T,
    found: Seq<(u32, u32)>,
    ef: nat,
    seen: Set<u32>,
) -> bool {
    forall|x: u32| #[trigger] seen.contains(x) ==> settled(feats, q, found, ef, x)
}

/// The entries carry the distances of their features from `q`.
pub open spec fn measured_from<T: Distance>(feats: Seq<T>, q: &T, entries: Seq<(u32, u32)>) -> bool {
    forall|k: int|
        0 <= k < entries.len() ==> (#[trigger] entries[k]).1 == T::gap(
            q,
            &feats[entries[k].0 as int],
        )
}

/// When the nearest entry leaves the frontier, what was in hand still is,
/// but for the feature that left.
proof fn lemma_taken_up(
    graph: Graph,
    l: int,
    waiting: Seq<(u32, u32)>,
    seen: Set<u32>,
    found: Seq<(u32, u32)>,
    at: int,
)
    requires
        all_in_hand(graph, l, waiting, seen, found),
        0 <= at < waiting.len(),
    ensures
        all_in_hand_but(graph, l, waiting.remove(at), seen, found, waiting[at].0, 0),
{
    let rest = waiting.remove(at);
    waiting.remove_ensures(at);
    assert forall|i: int| 0 <= i < found.len() implies among(rest, (#[trigger] found[i]).0)
        || expanded(graph, l, seen, found[i].0) || (found[i].0 == waiting[at].0 && expanded_to(
        graph,
        l,
        seen,
        waiting[at].0,
        0,
    )) by {
        let x = found[i].0;
        if x != waiting[at].0 && among(waiting, x) {
            let j = choose|j: int| 0 <= j < waiting.len() && (#[trigger] waiting[j]).0 == x;
            if j < at {
                assert(rest[j] == waiting[j]);
            } else {
                assert(rest[j - 1] == waiting[j]);
            }
        }
    }
}

/// When the nearest of the frontier is farther than the worst of what was
/// found, every feature found has been expanded.
proof fn lemma_search_ends<T: Distance>(
    feats: Seq<T>,
    q: &T,
    graph: Graph,
    l: int,
    waiting: Seq<(u32, u32)>,
    seen: Set<u32>,
    found: Seq<(u32, u32)>,
    c: u32,
    dc: u32,
)
    requires
        all_in_hand_but(graph, l, waiting, seen, found, c, 0),
        measured_from(feats, q, waiting),
        measured_from(feats, q, found),
        ascending(found),
        found.len() > 0,
        dc == T::gap(q, &feats[c as int]),
        dc > found.last().1,
        forall|k: int| 0 <= k < waiting.len() ==> (#[trigger] waiting[k]).1 >= dc,
    ensures
        all_expanded(graph, l, seen, found),
{
    assert forall|i: int| 0 <= i < found.len() implies expanded(
        graph,
        l,
        seen,
        (#[trigger] found[i]).0,
    ) by {
        let x = found[i].0;
        assert(found[i].1 <= found[found.len() - 1].1);
        if among(waiting, x) {
            let j = choose|j: int| 0 <= j < waiting.len() && (#[trigger] waiting[j]).0 == x;
            assert(waiting[j].1 >= dc);
        }
    }
}

/// After the search has looked at neighbour `k` of the feature `c` that
/// it expands, what was in hand still is, and `c` is expanded one neighbour further.
proof fn lemma_looked_at(
    graph: Graph,
    l: int,
    waiting: Seq<(u32, u32)>,
    waiting2: Seq<(u32, u32)>,
    seen: Set<u32>,
    held: Seq<(u32, u32)>,
    found: Seq<(u32, u32)>,
    c: u32,
    k: int,
    n: u32,
    d: u32,
    taken: bool,
)
    requires
        all_in_hand_but(graph, l, waiting, seen, held, c, k),
        0 <= k < graph.adj(c as int, l).len(),
        n == graph.adj(c as int, l)[k],
        forall|j: int| 0 <= j < waiting.len() ==> waiting2.contains(#[trigger] waiting[j]),
        forall|i: int| 0 <= i < found.len() ==> (#[trigger] found[i]) == (n, d) || held.contains(found[i]),
        taken ==> waiting2.contains((n, d)),
        !taken ==> found == held,
    ensures
        all_in_hand_but(graph, l, waiting2, seen.insert(n), found, c, k + 1),
{
    let seen2 = seen.insert(n);
    assert forall|i: int| 0 <= i < found.len() implies among(waiting2, (#[trigger] found[i]).0)
        || expanded(graph, l, seen2, found[i].0) || (found[i].0 == c && expanded_to(
        graph,
        l,
        seen2,
        c,
        k + 1,
    )) by {
        let x = found[i].0;
        if found[i] == (n, d) && taken {
            let j = choose|j: int| 0 <= j < waiting2.len() && waiting2[j] == (n, d);
            assert(waiting2[j].0 == x);
        } else {
            let i0 = choose|i0: int| 0 <= i0 < held.len() && held[i0] == found[i];
            assert(held[i0].0 == x);
            if among(waiting, x) {
                let j = choose|j: int| 0 <= j < waiting.len() && (#[trigger] waiting[j]).0 == x;
                let j2 = choose|j2: int| 0 <= j2 < waiting2.len() && waiting2[j2] == waiting[j];
                assert(waiting2[j2].0 == x);
            } else if expanded(graph, l, seen, x) {
                assert(expanded(graph, l, seen2, x));
            } else {
                assert(expanded_to(graph, l, seen, c, k));
                assert(expanded_to(graph, l, seen2, c, k + 1));
            }
        }
    }
}

/// After a feature was seen for the first time and offered where the
/// queue would take it, every feature seen is found or beaten.
proof fn lemma_offered<T: Distance>(
    feats: Seq<T>,
    q: &T,
    held: Seq<(u32, u32)>,
    found: Seq<(u32, u32)>,
    ef: nat,
    seen: Set<u32>,
    n: u32,
    d: u32,
    taken: bool,
)
    requires
        ascending(held),
        held.len() <= ef,
        ef > 0,
        all_settled(feats, q, held, ef, seen),
        measured_from(feats, q, held),
        d == T::gap(q, &feats[n as int]),
        taken == accepts(held, ef, d),
        found == offer(held, ef, n, d),
    ensures
        all_settled(feats, q, found, ef, seen.insert(n)),
{
    lemma_offer_settles(held, ef, n, d);
    assert forall|x: u32| #[trigger] seen.insert(n).contains(x) implies settled(
        feats,
        q,
        found,
        ef,
        x,
    ) by {
        if x == n && taken {
            let j = choose|j: int| 0 <= j < found.len() && found[j] == (n, d);
            assert(found[j].0 == n);
        } else if x == n {
        } else {
            assert(seen.contains(x));
            assert(settled(feats, q, held, ef, x));
            if among(held, x) {
                let j = choose|j: int| 0 <= j < held.len() && (#[trigger] held[j]).0 == x;
                if found.contains(held[j]) {
                    let i = choose|i: int| 0 <= i < found.len() && found[i] == held[j];
                    assert(found[i].0 == x);
                }
            }
        }
    }
}

/// The state of a search after it has looked at feature `n`: the features
/// seen, the frontier and the features found. A feature seen before changes
/// nothing. A new one is seen from now on, and it joins the frontier and
/// the features found if these accept it at its distance from `q`.
pub open spec fn look<T: Distance>(
    feats: Seq<T>,
    q: &T,
    ef: nat,
    state: (Set<u32>, Seq<(u32, u32)>, Seq<(u32, u32)>),
    n: u32,
) -> (Set<u32>, Seq<(u32, u32)>, Seq<(u32, u32)>) {
    let (seen, waiting, found) = state;
    let d = T::gap(q, &feats[n as int]);
    if seen.contains(n) {
        state
    } else if accepts(found, ef, d) {
        (seen.insert(n), place(waiting, n, d), offer(found, ef, n, d))
    } else {
        (seen.insert(n), waiting, found)
    }
}

/// The state of a search after it has looked at the first `k` features of `list`.
pub open spec fn look_all<T: Distance>(
    feats: Seq<T>,
    q: &T,
    ef: nat,
    state: (Set<u32>, Seq<(u32, u32)>, Seq<(u32, u32)>),
    list: Seq<u32>,
    k: nat,
) -> (Set<u32>, Seq<(u32, u32)>, Seq<(u32, u32)>)
    decreases k,
{
    if k == 0 {
        state
    } else {
        look(feats, q, ef, look_all(feats, q, ef, state, list, (k - 1) as nat), list[k - 1])
    }
}

/// What a search that is in `state` ends with, if it ends within `fuel`
/// expansions, where `links[id][l]` are the neighbours of `id` on layer
/// `l`. The search takes the nearest entry off the frontier, of
/// several the one that came last. It ends when there is none, or when `ef`
/// features are found and that entry is farther than the last of them.
/// Else it looks at the neighbours of the entry's feature and goes on.
pub open spec fn run<T: Distance>(
    feats: Seq<T>,
    links: Seq<Seq<Seq<u32>>>,
    q: &T,
    ef: nat,
    l: int,
    state: (Set<u32>, Seq<(u32, u32)>, Seq<(u32, u32)>),
    fuel: nat,
) -> Seq<(u32, u32)>
    decreases fuel,
{
    let (seen, waiting, found) = state;
    if fuel == 0 || waiting.len() == 0 {
        found
    } else {
        let at = rank(waiting, waiting[0].1) - 1;
        let c = waiting[at];
        if found.len() == ef && c.1 > found.last().1 {
            found
        } else {
            let list = links[c.0 as int][l];
            run(
                feats,
                links,
                q,
                ef,
                l,
                look_all(feats, q, ef, (seen, waiting.remove(at), found), list, list.len()),
                (fuel - 1) as nat,
            )
        }
    }
}

/// What the search of layer `l` for the `ef` features nearest to `q`
/// finds from `entry` on. No search expands more than twice as many
/// features as there are.
pub open spec fn searched<T: Distance>(
    feats: Seq<T>,
    links: Seq<Seq<Seq<u32>>>,
    q: &T,
    entry: u32,
    ef: nat,
    l: int,
) -> Seq<(u32, u32)> {
    let first = (entry, T::gap(q, &feats[entry as int]));
    run(feats, links, q, ef, l, (set![entry], seq![first], seq![first]), 2 * feats.len())
}

/// Searches layer `l` for the features nearest to `q`, from `entry` on,
/// keeping the `ef` nearest that it comes across. The features found are
/// left in `searcher.nearest`: the entry is among them or beaten by all of
/// them, and so is every neighbour of every one of them.
pub fn search_layer<T: Distance>(
    features: &Vec<T>,
    graph: &Graph,
    q: &T,
    entry: u32,
    ef: usize,
    l: usize,
    searcher: &mut Searcher,
)
    requires
        graph.wf(),
        graph.count() == features@.len(),
        reaches(features@, q),
        graph.on_layer(entry as int, l as int),
        ef >= 1,
        old(searcher).wf(),
    ensures
        final(searcher).wf(),
        final(searcher).nearest.capacity() == ef,
        1 <= final(searcher).nearest@.len() <= ef,
        found_on(features@, *graph, q, l as int, final(searcher).nearest@),
        final(searcher).nearest@[0].1 <= T::gap(q, &features@[entry as int]),
        settled(features@, q, final(searcher).nearest@, ef as nat, entry),
        closed(features@, *graph, q, l as int, final(searcher).nearest@, ef as nat),
        final(searcher).nearest@ == searched(
            features@,
            graph.links(),
            q,
            entry,
            ef as nat,
            l as int,
        ),
{
    let ghost n_all = features@.len();
    let ghost target = searched(features@, graph.links(), q, entry, ef as nat, l as int);
    let ghost li = l as int;
    proof {
        graph.lemma_wf();
        lemma_below(n_all);
    }
    searcher.reset(ef, features.len());
    let d0 = T::distance(q, &features[entry as usize]);
    assert(T::gap(q, &features@[entry as int]) <= MAX_DISTANCE);
    searcher.seen.insert(entry);
    searcher.candidates.push(entry, d0);
    searcher.nearest.insert(entry, d0);
    proof {
        let none = Seq::<(u32, u32)>::empty();
        searcher.seen.lemma_bounded();
        assert(searcher.seen@.subset_of(below(n_all)));
        lemma_len_subset(searcher.seen@, below(n_all));
        lemma_place_members(none, entry, d0);
        lemma_place_ascending(none, entry, d0);
        lemma_offer_members(none, ef as nat, entry, d0);
        lemma_offer_ascending(none, ef as nat, entry, d0);
        assert(searcher.candidates@[0] == (entry, d0));
        assert(searcher.nearest@[0] == (entry, d0));
        assert(among(searcher.candidates@, entry));
        assert(among(searcher.nearest@, entry));
        assert(searcher.candidates@ =~= seq![(entry, d0)]);
        assert(searcher.nearest@ =~= seq![(entry, d0)]);
        assert(searcher.seen@ =~= set![entry]);
    }
    let ghost mut fuel: nat = 2 * n_all;
    loop
        invariant_except_break
            all_in_hand(*graph, li, searcher.candidates@, searcher.seen@, searcher.nearest@),
            fuel >= 2 * (n_all - searcher.seen@.len()) + searcher.candidates@.len(),
            run(
                features@,
                graph.links(),
                q,
                ef as nat,
                li,
                (searcher.seen@, searcher.candidates@, searcher.nearest@),
                fuel,
            ) == target,
        invariant
            graph.wf(),
            graph.count() == features@.len(),
            reaches(features@, q),
            ef >= 1,
            li == l as int,
            n_all == features@.len(),
            n_all <= u32::MAX,
            below(n_all).finite(),
            below(n_all).len() == n_all,
            graph.on_layer(entry as int, li),
            searcher.wf(),
            searcher.nearest.capacity() == ef,
            searcher.seen.room() >= n_all,
            searcher.seen@.finite(),
            searcher.seen@.len() <= n_all,
            searcher.seen@.contains(entry),
            forall|x: u32| searcher.seen@.contains(x) ==> graph.on_layer(x as int, li),
            all_settled(features@, q, searcher.nearest@, ef as nat, searcher.seen@),
            forall|k: int|
                0 <= k < searcher.nearest@.len() ==> searcher.seen@.contains(
                    (#[trigger] searcher.nearest@[k]).0,
                ),
            measured_from(features@, q, searcher.nearest@),
            distinct_items(searcher.nearest@),
            searcher.nearest@.len() >= 1,
            searcher.nearest@[0].1 <= T::gap(q, &features@[entry as int]),
            forall|k: int|
                0 <= k < searcher.candidates@.len() ==> searcher.seen@.contains(
                    (#[trigger] searcher.candidates@[k]).0,
                ),
            measured_from(features@, q, searcher.candidates@),
            target == searched(features@, graph.links(), q, entry, ef as nat, li),
        ensures
            all_expanded(*graph, li, searcher.seen@, searcher.nearest@),
            searcher.nearest@ == target,
        decreases 2 * (n_all - searcher.seen@.len()) + searcher.candidates@.len(),
    {
        let ghost budget = 2 * (n_all - searcher.seen@.len()) + searcher.candidates@.len();
        let ghost waiting = searcher.candidates@;
        proof {
            searcher.candidates.lemma_wf();
        }
        let next = searcher.candidates.pop();
        let (c, dc) = match next {
            None => {
                assert(all_expanded(*graph, li, searcher.seen@, searcher.nearest@)) by {
                    assert forall|i: int| 0 <= i < searcher.nearest@.len() implies expanded(
                        *graph,
                        li,
                        searcher.seen@,
                        (#[trigger] searcher.nearest@[i]).0,
                    ) by {
                        assert(!among(waiting, searcher.nearest@[i].0));
                    }
                }
                break ;
            },
            Some(e) => e,
        };
        proof {
            let at = rank(waiting, waiting[0].1) - 1;
            waiting.remove_ensures(at);
            assert(waiting[at] == (c, dc));
            assert(searcher.seen@.contains(waiting[at].0));
            assert forall|k: int| 0 <= k < searcher.candidates@.len() implies searcher.seen@.contains(
                (#[trigger] searcher.candidates@[k]).0,
            ) && searcher.candidates@[k].1 == T::gap(
                q,
                &features@[searcher.candidates@[k].0 as int],
            ) && searcher.candidates@[k].1 >= dc by {
                if k < at {
                    assert(searcher.candidates@[k] == waiting[k]);
                    assert(waiting[0].1 <= waiting[k].1);
                } else {
                    assert(searcher.candidates@[k] == waiting[k + 1]);
                    assert(waiting[0].1 <= waiting[k + 1].1);
                }
            }
            lemma_taken_up(*graph, li, waiting, searcher.seen@, searcher.nearest@, at);
            graph.lemma_wf();
            searcher.nearest.lemma_wf();
        }
        let ghost popped = (searcher.seen@, searcher.candidates@, searcher.nearest@);
        if dc > searcher.nearest.worst() && searcher.nearest.is_full() {
            proof {
                searcher.nearest.lemma_wf();
                lemma_search_ends(
                    features@,
                    q,
                    *graph,
                    li,
                    searcher.candidates@,
                    searcher.seen@,
                    searcher.nearest@,
                    c,
                    dc,
                );
            }
            break ;
        }
        let list = graph.neighbors(c, l);
        proof {
            graph.lemma_links();
            assert(graph.links()[c as int][li] == list@);
        }
        assert(run(
            features@,
            graph.links(),
            q,
            ef as nat,
            li,
            look_all(features@, q, ef as nat, popped, list@, list@.len()),
            (fuel - 1) as nat,
        ) == target);
        let mut k: usize = 0;
        while k < list.len()
            invariant
                (searcher.seen@, searcher.candidates@, searcher.nearest@) == look_all(
                    features@,
                    q,
                    ef as nat,
                    popped,
                    list@,
                    k as nat,
                ),
                graph.wf(),
                graph.count() == features@.len(),
                reaches(features@, q),
                ef >= 1,
                li == l as int,
                n_all == features@.len(),
                n_all <= u32::MAX,
                below(n_all).finite(),
                below(n_all).len() == n_all,
                graph.on_layer(entry as int, li),
                graph.on_layer(c as int, li),
                list@ == graph.adj(c as int, li),
                k <= list@.len(),
                searcher.wf(),
                searcher.nearest.capacity() == ef,
                searcher.seen.room() >= n_all,
                searcher.seen@.finite(),
                searcher.seen@.len() <= n_all,
                searcher.seen@.contains(entry),
                forall|x: u32| searcher.seen@.contains(x) ==> graph.on_layer(x as int, li),
                all_settled(features@, q, searcher.nearest@, ef as nat, searcher.seen@),
                forall|k: int|
                    0 <= k < searcher.nearest@.len() ==> searcher.seen@.contains(
                        (#[trigger] searcher.nearest@[k]).0,
                    ),
                measured_from(features@, q, searcher.nearest@),
                distinct_items(searcher.nearest@),
                searcher.nearest@.len() >= 1,
                searcher.nearest@[0].1 <= T::gap(q, &features@[entry as int]),
                forall|k: int|
                    0 <= k < searcher.candidates@.len() ==> searcher.seen@.contains(
                        (#[trigger] searcher.candidates@[k]).0,
                    ),
                measured_from(features@, q, searcher.candidates@),
                all_in_hand_but(
                    *graph,
                    li,
                    searcher.candidates@,
                    searcher.seen@,
                    searcher.nearest@,
                    c,
                    k as int,
                ),
                2 * (n_all - searcher.seen@.len()) + searcher.candidates@.len() < budget,
            decreases list@.len() - k,
        {
            let n = list[k];
            proof {
                graph.lemma_wf();
                assert(graph.on_layer(list@[k as int] as int, li));
            }
            let ghost seen_before = searcher.seen@;
            let ghost waiting = searcher.candidates@;
            let ghost held = searcher.nearest@;
            let ghost taken = false;
            let ghost dn = T::gap(q, &features@[n as int]);
            let fresh = searcher.seen.insert(n);
            if fresh {
                proof {
                    searcher.seen.lemma_bounded();
                    assert(searcher.seen@.subset_of(below(n_all))) by {
                        assert forall|x: u32| searcher.seen@.contains(x) implies below(
                            n_all,
                        ).contains(x) by {
                            assert(graph.on_layer(x as int, li));
                        }
                    }
                    lemma_len_subset(searcher.seen@, below(n_all));
                }
                let d = T::distance(q, &features[n as usize]);
                assert(T::gap(q, &features@[n as int]) <= MAX_DISTANCE);
                proof {
                    searcher.candidates.lemma_wf();
                    searcher.nearest.lemma_wf();
                }
                if d < searcher.nearest.worst() || !searcher.nearest.is_full() {
                    proof {
                        taken = true;
                        lemma_place_members(waiting, n, d);
                        lemma_place_ascending(waiting, n, d);
                        lemma_offer_members(held, ef as nat, n, d);
                        assert forall|j: int| 0 <= j < held.len() implies (#[trigger] held[j]).0
                            != n by {
                            assert(seen_before.contains(held[j].0));
                        }
                        assert(accepts(held, ef as nat, d));
                        lemma_offered(features@, q, held, offer(held, ef as nat, n, d), ef as nat, seen_before, n, d, true);
                    }
                    searcher.candidates.push(n, d);
                    searcher.nearest.insert(n, d);
                    proof {
                        assert forall|j: int|
                            0 <= j < searcher.candidates@.len() implies searcher.seen@.contains(
                            (#[trigger] searcher.candidates@[j]).0,
                        ) && searcher.candidates@[j].1 == T::gap(
                            q,
                            &features@[searcher.candidates@[j].0 as int],
                        ) by {
                            let e = searcher.candidates@[j];
                            if e != (n, d) {
                                assert(waiting.contains(e));
                                let i = choose|i: int| 0 <= i < waiting.len() && waiting[i] == e;
                                assert(seen_before.contains(waiting[i].0));
                            }
                        }
                        assert forall|j: int|
                            0 <= j < searcher.nearest@.len() implies searcher.seen@.contains(
                            (#[trigger] searcher.nearest@[j]).0,
                        ) && searcher.nearest@[j].1 == T::gap(
                            q,
                            &features@[searcher.nearest@[j].0 as int],
                        ) by {
                            let e = searcher.nearest@[j];
                            if e != (n, d) {
                                assert(held.contains(e));
                                let i = choose|i: int| 0 <= i < held.len() && held[i] == e;
                                assert(seen_before.contains(held[i].0));
                            }
                        }
                    }
                } else {
                    proof {
                        assert(!accepts(held, ef as nat, d));
                        lemma_offer_settles(held, ef as nat, n, d);
                        lemma_offered(features@, q, held, held, ef as nat, seen_before, n, d, false);
                    }
                }
            } else {
                assert(searcher.seen@ =~= seen_before);
            }
            proof {
                assert(searcher.seen@ == seen_before.insert(n));
                lemma_looked_at(
                    *graph,
                    li,
                    waiting,
                    searcher.candidates@,
                    seen_before,
                    held,
                    searcher.nearest@,
                    c,
                    k as int,
                    n,
                    dn,
                    taken,
                );
                assert((searcher.seen@, searcher.candidates@, searcher.nearest@) == look(
                    features@,
                    q,
                    ef as nat,
                    (seen_before, waiting, held),
                    n,
                ));
            }
            k += 1;
        }
        proof {
            fuel = (fuel - 1) as nat;
        }
        proof {
            assert(all_in_hand(*graph, li, searcher.candidates@, searcher.seen@, searcher.nearest@)) by {
                assert forall|i: int| 0 <= i < searcher.nearest@.len() implies among(
                    searcher.candidates@,
                    (#[trigger] searcher.nearest@[i]).0,
                ) || expanded(*graph, li, searcher.seen@, searcher.nearest@[i].0) by {}
            }
        }
    }
    proof {
        searcher.nearest.lemma_wf();
        let found = searcher.nearest@;
        assert forall|i: int, k: int|
            0 <= i < found.len() && 0 <= k < graph.adj(found[i].0 as int, li).len() implies settled(
            features@,
            q,
            found,
            ef as nat,
            #[trigger] graph.adj((#[trigger] found[i]).0 as int, li)[k],
        ) by {
            let x = found[i].0;
            assert(expanded(*graph, li, searcher.seen@, x));
            assert(searcher.seen@.contains(graph.adj(x as int, li)[k]));
        }
        assert forall|k: int| 0 <= k < found.len() implies graph.on_layer(
            (#[trigger] found[k]).0 as int,
            li,
        ) && found[k].1 == T::gap(q, &features@[found[k].0 as int]) by {
            assert(searcher.seen@.contains(found[k].0));
        }
    }
}

} // verus!
