//! Connecting a feature to the neighbours chosen for it.
//!
//! A feature and each of its chosen neighbours list each other. A neighbour
//! that then lists more features than its layer allows chooses anew among
//! those that it lists; the features that it leaves out lose it in turn, so
//! that neighbours always list each other.

use vstd::prelude::*;
use crate::distance::Distance;
use crate::graph::{lemma_without, linked, replaced, without, Graph};
use crate::select::{kept, lemma_chosen, rank_neighbors, select_neighbors};

verus! {

/// The largest number of neighbours on layer `l`, for the degree `m` above
/// layer 0 and `m0` on layer 0.
pub open spec fn cap_of(m: nat, m0: nat, l: int) -> nat {
    if l == 0 {
        m0
    } else {
        m
    }
}

/// The lists of neighbours after feature `s` has chosen anew among its
/// neighbours on layer `l`, keeping `cap` at most.
pub open spec fn pruned<T: Distance>(
    feats: Seq<T>,
    links: Seq<Seq<Seq<u32>>>,
    l: int,
    s: int,
    cap: nat,
) -> Seq<Seq<Seq<u32>>> {
    replaced(links, l, s, kept(feats, s as u32, links[s][l], cap))
}

/// The lists of neighbours after `id` and `s` were made neighbours on
/// layer `l`, and `s` has chosen anew if it then listed more than `cap`.
pub open spec fn joined<T: Distance>(
    feats: Seq<T>,
    links: Seq<Seq<Seq<u32>>>,
    l: int,
    id: int,
    s: int,
    cap: nat,
) -> Seq<Seq<Seq<u32>>> {
    let tied = linked(links, l, id, s);
    if tied[s][l].len() > cap {
        pruned(feats, tied, l, s, cap)
    } else {
        tied
    }
}

/// The lists of neighbours after `id` was joined on layer `l` with the first
/// `t` features of `picked`, one after the other.
pub open spec fn connected<T: Distance>(
    feats: Seq<T>,
    links: Seq<Seq<Seq<u32>>>,
    l: int,
    id: int,
    picked: Seq<u32>,
    cap: nat,
    t: nat,
) -> Seq<Seq<Seq<u32>>>
    decreases t,
{
    if t == 0 {
        links
    } else {
        joined(
            feats,
            connected(feats, links, l, id, picked, cap, (t - 1) as nat),
            l,
            id,
            picked[t - 1] as int,
            cap,
        )
    }
}

/// The lists of neighbours after `id` was connected on the layers from
/// `start` down to `start - j + 1`: on layer `start - i` to the features of `picks[i]`.
pub open spec fn attached<T: Distance>(
    feats: Seq<T>,
    links: Seq<Seq<Seq<u32>>>,
    id: int,
    picks: Seq<Seq<u32>>,
    start: int,
    m: nat,
    m0: nat,
    j: nat,
) -> Seq<Seq<Seq<u32>>>
    decreases j,
{
    if j == 0 {
        links
    } else {
        connected(
            feats,
            attached(feats, links, id, picks, start, m, m0, (j - 1) as nat),
            start - (j - 1),
            id,
            picks[j - 1],
            cap_of(m, m0, start - (j - 1)),
            picks[j - 1].len(),
        )
    }
}

/// The lists as sequences.
pub open spec fn views(picks: Seq<Vec<u32>>) -> Seq<Seq<u32>> {
    Seq::new(picks.len(), |j: int| picks[j]@)
}

/// Cuts the neighbours of `s` on layer `l` down to those chosen among
/// them in order of their distance from `s`. The neighbours left out lose `s` in turn.
pub fn prune<T: Distance>(features: &Vec<T>, graph: &mut Graph, l: usize, s: u32)
    requires
        old(graph).loose(s as int, l as int),
        old(graph).on_layer(s as int, l as int),
        old(graph).count() == features@.len(),
    ensures
        final(graph).wf(),
        final(graph).same_nodes(old(graph)),
        final(graph).same_lists_off(old(graph), l as int),
        final(graph).links() == pruned(
            features@,
            old(graph).links(),
            l as int,
            s as int,
            old(graph).cap(l as int),
        ),
        final(graph).adj(s as int, l as int) == kept(
            features@,
            s,
            old(graph).adj(s as int, l as int),
            old(graph).cap(l as int),
        ),
        forall|x: int|
            old(graph).on_layer(x, l as int) && x != s ==> #[trigger] final(graph).adj(x, l as int)
                == old(graph).adj(x, l as int) || final(graph).adj(x, l as int) == without(
                old(graph).adj(x, l as int),
                s,
            ),
{
    proof {
        graph.lemma_loose(s as int, l as int);
        graph.lemma_links();
    }
    let cap = graph.max_degree(l);
    let list = graph.neighbors(s, l);
    let sorted = rank_neighbors(features, s, list);
    let keep = select_neighbors(features, &sorted, cap);
    proof {
        lemma_chosen(features@, sorted@, cap as nat);
        assert forall|k: int| 0 <= k < keep@.len() implies graph.adj(s as int, l as int).contains(
            keep@[k],
        ) by {
            let j = choose|j: int| 0 <= j < sorted@.len() && (#[trigger] sorted@[j]).0 == keep@[k];
            assert(list@.contains(sorted@[j].0));
        }
    }
    graph.replace(l, s, keep);
}

/// Makes the features of `picked` the neighbours of `id` on layer `l`,
/// and `id` a neighbour of each of them. A feature that then has more
/// neighbours than the layer allows is cut down to those that the choice
/// among them keeps, which may leave `id` out again.
pub fn connect<T: Distance>(features: &Vec<T>, graph: &mut Graph, l: usize, id: u32, picked: &Vec<u32>)
    requires
        old(graph).wf(),
        old(graph).count() == features@.len(),
        old(graph).on_layer(id as int, l as int),
        old(graph).adj(id as int, l as int).len() == 0,
        picked@.no_duplicates(),
        picked@.len() <= old(graph).cap(l as int),
        forall|k: int|
            0 <= k < picked@.len() ==> picked@[k] != id && old(graph).on_layer(
                #[trigger] picked@[k] as int,
                l as int,
            ),
    ensures
        final(graph).wf(),
        final(graph).same_nodes(old(graph)),
        final(graph).same_lists_off(old(graph), l as int),
        final(graph).links() == connected(
            features@,
            old(graph).links(),
            l as int,
            id as int,
            picked@,
            old(graph).cap(l as int),
            picked@.len(),
        ),
        forall|k: int|
            0 <= k < final(graph).adj(id as int, l as int).len() ==> picked@.contains(
                #[trigger] final(graph).adj(id as int, l as int)[k],
            ),
{
    let ghost cap = graph.cap(l as int);
    let mut t: usize = 0;
    while t < picked.len()
        invariant
            t <= picked@.len(),
            graph.wf(),
            graph.count() == features@.len(),
            graph.same_nodes(old(graph)),
            graph.same_lists_off(old(graph), l as int),
            cap == old(graph).cap(l as int),
            cap == graph.cap(l as int),
            old(graph).on_layer(id as int, l as int),
            picked@.no_duplicates(),
            picked@.len() <= cap,
            forall|k: int|
                0 <= k < picked@.len() ==> picked@[k] != id && old(graph).on_layer(
                    #[trigger] picked@[k] as int,
                    l as int,
                ),
            graph.adj(id as int, l as int).len() <= t,
            forall|k: int|
                0 <= k < graph.adj(id as int, l as int).len() ==> exists|j: int|
                    0 <= j < t && #[trigger] picked@[j] == #[trigger] graph.adj(id as int, l as int)[k],
            graph.links() == connected(
                features@,
                old(graph).links(),
                l as int,
                id as int,
                picked@,
                cap,
                t as nat,
            ),
        decreases picked@.len() - t,
    {
        let s = picked[t];
        let ghost before = *graph;
        let ghost mine = graph.adj(id as int, l as int);
        proof {
            assert(old(graph).on_layer(picked@[t as int] as int, l as int));
            assert(!mine.contains(s)) by {
                if mine.contains(s) {
                    let k = choose|k: int| 0 <= k < mine.len() && mine[k] == s;
                    let j = choose|j: int| 0 <= j < t && #[trigger] picked@[j] == mine[k];
                    assert(picked@[j] == picked@[t as int]);
                }
            }
        }
        graph.link(l, id, s);
        let ghost tied = *graph;
        proof {
            graph.lemma_loose(s as int, l as int);
            graph.lemma_links();
        }
        if graph.neighbors(s, l).len() > graph.max_degree(l) {
            prune(features, graph, l, s);
            proof {
                lemma_without(tied.adj(id as int, l as int), s);
            }
        } else {
            proof {
                graph.lemma_tight(s as int, l as int);
            }
        }
        proof {
            let now = graph.adj(id as int, l as int);
            let more = mine.push(s);
            assert(tied.adj(id as int, l as int) == more);
            assert(tied.on_layer(id as int, l as int));
            assert(now == more || now == without(more, s));
            assert forall|k: int| 0 <= k < now.len() implies exists|j: int|
                0 <= j < t + 1 && #[trigger] picked@[j] == #[trigger] now[k] by {
                assert(now.contains(now[k]));
                assert(more.contains(now[k]));
                let i = choose|i: int| 0 <= i < more.len() && more[i] == now[k];
                if i < mine.len() {
                    let j = choose|j: int| 0 <= j < t && #[trigger] picked@[j] == mine[i];
                    assert(picked@[j] == now[k]);
                } else {
                    assert(picked@[t as int] == now[k]);
                }
            }
            assert forall|x: int, k: int|
                graph.on_layer(x, k) && k != l as int implies #[trigger] graph.adj(x, k) == old(
                graph,
            ).adj(x, k) by {
                assert(tied.on_layer(x, k));
                assert(before.on_layer(x, k));
                assert(tied.adj(x, k) == before.adj(x, k));
            }
        }
        t += 1;
    }
    proof {
        let now = graph.adj(id as int, l as int);
        assert forall|k: int| 0 <= k < now.len() implies picked@.contains(#[trigger] now[k]) by {
            let j = choose|j: int| 0 <= j < t && #[trigger] picked@[j] == now[k];
            assert(picked@[j] == now[k]);
        }
    }
}

/// Connects `id` on the layers from `start` down to 0: on layer
/// `start - j` to the features of `picks[j]`.
pub fn attach<T: Distance>(
    features: &Vec<T>,
    graph: &mut Graph,
    id: u32,
    picks: &Vec<Vec<u32>>,
    start: usize,
)
    requires
        old(graph).wf(),
        old(graph).count() == features@.len(),
        picks@.len() == start + 1,
        old(graph).on_layer(id as int, start as int),
        forall|l: int| 0 <= l <= start ==> (#[trigger] old(graph).adj(id as int, l)).len() == 0,
        forall|j: int|
            0 <= j <= start ==> (#[trigger] picks@[j])@.no_duplicates() && picks@[j]@.len() <= old(
                graph,
            ).cap(start - j),
        forall|j: int, k: int|
            0 <= j <= start && 0 <= k < picks@[j]@.len() ==> picks@[j]@[k] != id && old(
                graph,
            ).on_layer(#[trigger] picks@[j]@[k] as int, start - j),
    ensures
        final(graph).wf(),
        final(graph).same_nodes(old(graph)),
        final(graph).links() == attached(
            features@,
            old(graph).links(),
            id as int,
            views(picks@),
            start as int,
            old(graph).degree(),
            old(graph).ground_degree(),
            picks@.len(),
        ),
        forall|x: int, k: int|
            old(graph).on_layer(x, k) && k > start ==> #[trigger] final(graph).adj(x, k) == old(
                graph,
            ).adj(x, k),
{
    assert(picks.len() == start + 1);
    let mut j: usize = 0;
    while j <= start
        invariant
            j <= start + 1,
            start < usize::MAX,
            picks@.len() == start + 1,
            graph.wf(),
            graph.count() == features@.len(),
            graph.same_nodes(old(graph)),
            old(graph).on_layer(id as int, start as int),
            forall|x: int, k: int|
                old(graph).on_layer(x, k) && (k > start || k <= start - j) ==> #[trigger] graph.adj(
                    x,
                    k,
                ) == old(graph).adj(x, k),
            forall|l: int| 0 <= l <= start ==> (#[trigger] old(graph).adj(id as int, l)).len() == 0,
            forall|i: int|
                0 <= i <= start ==> (#[trigger] picks@[i])@.no_duplicates() && picks@[i]@.len()
                    <= old(graph).cap(start - i),
            forall|i: int, k: int|
                0 <= i <= start && 0 <= k < picks@[i]@.len() ==> picks@[i]@[k] != id && old(
                    graph,
                ).on_layer(#[trigger] picks@[i]@[k] as int, start - i),
            graph.links() == attached(
                features@,
                old(graph).links(),
                id as int,
                views(picks@),
                start as int,
                old(graph).degree(),
                old(graph).ground_degree(),
                j as nat,
            ),
        decreases start + 1 - j,
    {
        let layer = start - j;
        let ghost before = *graph;
        proof {
            assert(graph.on_layer(id as int, layer as int));
            assert(old(graph).adj(id as int, layer as int).len() == 0);
            assert(graph.adj(id as int, layer as int) == old(graph).adj(id as int, layer as int));
            assert forall|k: int| 0 <= k < picks@[j as int]@.len() implies picks@[j as int]@[k] != id
                && graph.on_layer(#[trigger] picks@[j as int]@[k] as int, layer as int) by {
                assert(old(graph).on_layer(picks@[j as int]@[k] as int, start - j));
            }
            assert(picks@[j as int]@.no_duplicates());
            assert(views(picks@)[j as int] == picks@[j as int]@);
            assert(graph.cap(layer as int) == cap_of(
                old(graph).degree(),
                old(graph).ground_degree(),
                layer as int,
            ));
        }
        connect(features, graph, layer, id, &picks[j]);
        proof {
            assert forall|x: int, k: int|
                old(graph).on_layer(x, k) && (k > start || k <= start - (j + 1))
                implies #[trigger] graph.adj(x, k) == old(graph).adj(x, k) by {
                assert(before.on_layer(x, k));
                assert(graph.on_layer(x, k));
                assert(graph.adj(x, k) == before.adj(x, k));
            }
        }
        j += 1;
    }
}

} // verus!
