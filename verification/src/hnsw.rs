//! The index: features, the layered graph over them, and the searches that
//! insert a feature and find the nearest ones.

use vstd::prelude::*;
use crate::distance::Distance;
use crate::connect::{attach, attached, cap_of, views};
use crate::graph::{grown, grown_nodes, Graph};
use crate::sampler::{advance, level_in, Sampler};
use crate::search::{closed, found_on, reaches, search_layer, searched, settled};
use crate::searcher::Searcher;
use crate::select::{chosen, lemma_chosen, select_neighbors};

verus! {

/// The width of the searches that find a new feature's neighbours, unless
/// the index is made with another.
pub const EF_CONSTRUCTION: usize = 400;

/// The seed of the level sampler, unless the index is made with another.
pub const SEED: u64 = 0;

/// An index over features of type `T` for approximate nearest-neighbour search.
#[derive(Clone, Debug)]
pub struct HNSW<T> {
    features: Vec<T>,
    graph: Graph,
    sampler: Sampler,
    ef_construction: usize,
}

/// In an index of one feature a search finds that feature and nothing
/// else, at its distance from the query: at distance 0 where the query is
/// at distance 0 from it.
pub proof fn lemma_sole_feature<T: Distance>(
    feats: Seq<T>,
    graph: Graph,
    q: &T,
    found: Seq<(u32, u32)>,
)
    requires
        found_on(feats, graph, q, 0, found),
        graph.count() == 1,
        found.len() >= 1,
    ensures
        found == seq![(0u32, T::gap(q, &feats[0]))],
{
    assert(graph.on_layer(found[0].0 as int, 0));
    if found.len() > 1 {
        assert(graph.on_layer(found[1].0 as int, 0));
        assert(found[0].0 != found[1].0);
    }
    assert(found =~= seq![(0u32, T::gap(q, &feats[0]))]);
}

impl<T: Distance> HNSW<T> {
    /// The features, in the order in which they were inserted: the
    /// feature with id `i` is at position `i`.
    pub closed spec fn features(&self) -> Seq<T> {
        self.features@
    }

    /// The graph over the feature-ids.
    pub closed spec fn graph(&self) -> Graph {
        self.graph
    }

    /// The state of the level sampler.
    pub closed spec fn sampler(&self) -> Sampler {
        self.sampler
    }

    /// The width of the searches that find a new feature's neighbours.
    pub closed spec fn build_width(&self) -> nat {
        self.ef_construction as nat
    }

    /// The graph is in order and has a node for each feature.
    pub closed spec fn wf(&self) -> bool {
        &&& self.graph.wf()
        &&& self.graph.count() == self.features@.len()
        &&& self.ef_construction >= 1
    }

    /// Every feature of the index is within the largest distance that a
    /// search can hold of `q`.
    pub open spec fn reaches(&self, q: &T) -> bool {
        reaches(self.features(), q)
    }

    /// What an index that is in order holds of its graph.
    pub proof fn lemma_wf(&self)
        requires
            self.wf(),
        ensures
            self.graph().wf(),
            self.graph().count() == self.features().len(),
            self.features().len() <= u32::MAX,
            self.build_width() >= 1,
    {
        self.graph.lemma_wf();
    }

    /// Neighbours are mutual: on every layer, a feature that lists another
    /// as its neighbour is listed by it in turn.
    pub proof fn lemma_neighbors_mutual(&self, l: int, a: int, b: u32)
        requires
            self.wf(),
            0 <= a < self.graph().links().len(),
            0 <= l < self.graph().links()[a].len(),
            self.graph().links()[a][l].contains(b),
        ensures
            b < self.graph().links().len(),
            l < self.graph().links()[b as int].len(),
            self.graph().links()[b as int][l].contains(a as u32),
    {
        self.graph.lemma_links();
        assert(self.graph.on_layer(a, l));
        self.graph.lemma_symmetric(l, a, b);
    }

    /// No feature has more neighbours than twice the degree on layer 0, nor
    /// more than the degree on a layer above, and none twice.
    pub proof fn lemma_degrees_bounded(&self, l: int, a: int)
        requires
            self.wf(),
            0 <= a < self.graph().links().len(),
            0 <= l < self.graph().links()[a].len(),
        ensures
            l == 0 ==> self.graph().links()[a][l].len() <= 2 * self.graph().degree(),
            l > 0 ==> self.graph().links()[a][l].len() <= self.graph().degree(),
            self.graph().links()[a][l].no_duplicates(),
    {
        self.graph.lemma_links();
        assert(self.graph.on_layer(a, l));
        self.graph.lemma_degree(l, a);
    }

    /// Layers are nested: the feature of a node on a layer above layer 0 has
    /// a node on the layer under it.
    pub proof fn lemma_layers_nested(&self, l: int, p: int)
        requires
            self.wf(),
            0 < l < self.graph().nodes().len(),
            0 <= p < self.graph().nodes()[l].len(),
        ensures
            self.graph().nodes()[l - 1].contains(self.graph().nodes()[l][p]),
    {
        self.graph.lemma_nodes();
        self.graph.lemma_contained(l, l - 1, p);
        let q = choose|q: int|
            0 <= q < self.graph.width(l - 1) && #[trigger] self.graph.node_id(l - 1, q)
                == self.graph.node_id(l, p);
        assert(self.graph.nodes()[l - 1][q] == self.graph.nodes()[l][p]);
    }

    /// An index without features, for the degree `m` above layer 0 and `m0` on layer 0.
    pub fn new(m: usize, m0: usize) -> (index: Self)
        requires
            1 <= m <= 64,
            m0 == 2 * m,
        ensures
            index.wf(),
            index.features() == Seq::<T>::empty(),
            index.graph().degree() == m,
            index.graph().ground_degree() == m0,
            index.graph().height() == 0,
            index.build_width() == EF_CONSTRUCTION,
            index.sampler().state() == SEED,
    {
        HNSW {
            features: Vec::new(),
            graph: Graph::new(m, m0),
            sampler: Sampler::new(SEED),
            ef_construction: EF_CONSTRUCTION,
        }
    }

    /// An index without features, for the degrees `m` and `m0`, with
    /// searches of width `ef_construction` for a new feature's neighbours and
    /// with a level sampler that starts at `seed`.
    pub fn with_params(m: usize, m0: usize, ef_construction: usize, seed: u64) -> (index: Self)
        requires
            1 <= m <= 64,
            m0 == 2 * m,
            ef_construction >= m,
        ensures
            index.wf(),
            index.features() == Seq::<T>::empty(),
            index.graph().degree() == m,
            index.graph().ground_degree() == m0,
            index.graph().height() == 0,
            index.build_width() == ef_construction,
            index.sampler().state() == seed,
    {
        HNSW {
            features: Vec::new(),
            graph: Graph::new(m, m0),
            sampler: Sampler::new(seed),
            ef_construction,
        }
    }

    /// The number of features.
    pub fn len(&self) -> (n: usize)
        ensures
            n == self.features().len(),
    {
        self.features.len()
    }

    /// Whether the index holds no feature.
    pub fn is_empty(&self) -> (empty: bool)
        ensures
            empty == (self.features().len() == 0),
    {
        self.features.len() == 0
    }

    /// The feature with the id `id`.
    pub fn feature(&self, id: u32) -> (f: &T)
        requires
            id < self.features().len(),
        ensures
            *f == self.features()[id as int],
    {
        &self.features[id as usize]
    }

    /// The graph over the feature-ids.
    pub fn layers(&self) -> (g: &Graph)
        ensures
            *g == self.graph(),
    {
        &self.graph
    }

    /// Searches layer `l` for the features nearest to `q`, from `entry`
    /// on, keeping the `ef` nearest that it comes across. The features found
    /// are left in `searcher.nearest`: the entry is among them or beaten by
    /// all of them, and so is every neighbour of every one of them.
    pub fn search_layer(&self, q: &T, entry: u32, ef: usize, l: usize, searcher: &mut Searcher)
        requires
            self.wf(),
            self.reaches(q),
            self.graph().on_layer(entry as int, l as int),
            ef >= 1,
            old(searcher).wf(),
        ensures
            final(searcher).wf(),
            final(searcher).nearest.capacity() == ef,
            1 <= final(searcher).nearest@.len() <= ef,
            found_on(self.features(), self.graph(), q, l as int, final(searcher).nearest@),
            final(searcher).nearest@[0].1 <= T::gap(q, &self.features()[entry as int]),
            settled(self.features(), q, final(searcher).nearest@, ef as nat, entry),
            closed(self.features(), self.graph(), q, l as int, final(searcher).nearest@, ef as nat),
            final(searcher).nearest@ == searched(
                self.features(),
                self.graph().links(),
                q,
                entry,
                ef as nat,
                l as int,
            ),
    {
        search_layer(&self.features, &self.graph, q, entry, ef, l, searcher);
    }
}

/// What the insertion of `q` on the layers up to `level` makes of an index:
/// `q` is the last feature, it is on the layers from 0 to `level`, the
/// layers reach up to `level` at least, and the new feature is the entry
/// point where `level` is above the layers that there were. Above `level`
/// no list of neighbours changes.
pub open spec fn inserted<T: Distance>(before: &HNSW<T>, after: &HNSW<T>, q: T, level: nat) -> bool {
    let id = before.features().len() as int;
    &&& after.features() == before.features().push(q)
    &&& after.build_width() == before.build_width()
    &&& after.graph().degree() == before.graph().degree()
    &&& after.graph().ground_degree() == before.graph().ground_degree()
    &&& after.graph().height() == if before.graph().height() > level {
        before.graph().height()
    } else {
        level + 1
    }
    &&& after.graph().entry_point() == if before.graph().height() > level {
        before.graph().entry_point()
    } else {
        id as u32
    }
    &&& after.graph().nodes() == grown_nodes(before.graph().nodes(), id as u32, level)
    &&& after.graph().levels(id) == level + 1
    &&& forall|x: int| 0 <= x < id ==> after.graph().levels(x) == before.graph().levels(x)
    &&& forall|x: int, l: int|
        before.graph().on_layer(x, l) && l > level ==> #[trigger] after.graph().adj(x, l)
            == before.graph().adj(x, l)
    &&& forall|l: int|
        before.graph().height() <= l <= level ==> #[trigger] after.graph().adj(id, l) == Seq::<
            u32,
        >::empty()
}

/// The highest layer on which a new feature of level `level` gets
/// neighbours, where there are `height` layers: -1 where there is none.
pub open spec fn start_of(height: nat, level: nat) -> int {
    if level < height {
        level as int
    } else {
        height - 1
    }
}

/// The feature that the search of layer `to` starts at, where the search
/// of layer `from` starts at `ep`. The layers from `from` down to the layer
/// above `to` are searched with width 1, and each hands the nearest
/// feature that it finds down to the next.
pub open spec fn descend<T: Distance>(
    feats: Seq<T>,
    links: Seq<Seq<Seq<u32>>>,
    q: &T,
    ep: u32,
    from: int,
    to: int,
) -> u32
    decreases from - to,
{
    if from <= to {
        ep
    } else {
        descend(feats, links, q, searched(feats, links, q, ep, 1, from)[0].0, from - 1, to)
    }
}

/// The feature that the search of layer `start - j` for the neighbours of
/// `q` starts at: `first` on layer `start`, and below it the nearest
/// feature that the search of the layer above has found.
pub open spec fn entry_at<T: Distance>(
    feats: Seq<T>,
    links: Seq<Seq<Seq<u32>>>,
    width: nat,
    q: &T,
    first: u32,
    start: int,
    j: nat,
) -> u32
    decreases j,
{
    if j == 0 {
        first
    } else {
        searched(
            feats,
            links,
            q,
            entry_at(feats, links, width, q, first, start, (j - 1) as nat),
            width,
            start - (j - 1),
        )[0].0
    }
}

/// The neighbours chosen for a new feature `q` of level `level` in a graph
/// of `height` layers with the lists of neighbours `links`, the entry point
/// `entry` and the degrees `m` and `m0`: for each layer from `start_of`
/// down to 0, those chosen among the features that the search of that
/// layer, of width `width`, finds.
pub open spec fn plan_for<T: Distance>(
    feats: Seq<T>,
    links: Seq<Seq<Seq<u32>>>,
    height: nat,
    entry: u32,
    m: nat,
    m0: nat,
    width: nat,
    q: &T,
    level: nat,
) -> Seq<Seq<u32>> {
    let start = start_of(height, level);
    let first = descend(feats, links, q, entry, height - 1, start);
    Seq::new(
        (start + 1) as nat,
        |j: int|
            chosen(
                feats,
                searched(
                    feats,
                    links,
                    q,
                    entry_at(feats, links, width, q, first, start, j as nat),
                    width,
                    start - j,
                ),
                cap_of(m, m0, start - j),
            ),
    )
}

/// The neighbours chosen for a new feature `q` of level `level` in an index.
pub open spec fn plan_of<T: Distance>(index: &HNSW<T>, q: &T, level: nat) -> Seq<Seq<u32>> {
    plan_for(
        index.features(),
        index.graph().links(),
        index.graph().height(),
        index.graph().entry_point(),
        index.graph().degree(),
        index.graph().ground_degree(),
        index.build_width(),
        q,
        level,
    )
}

/// `plan` holds, for each layer from `start_of` down to 0, features that a
/// new feature of level `level` can take as neighbours: features of that
/// layer, none twice, no more than the layer allows. `plan[j]` is for
/// the layer `start_of - j`.
pub open spec fn plan_fits(graph: Graph, level: nat, plan: Seq<Seq<u32>>) -> bool {
    let start = start_of(graph.height(), level);
    &&& plan.len() == start + 1
    &&& forall|j: int|
        0 <= j < plan.len() ==> (#[trigger] plan[j]).no_duplicates() && plan[j].len() <= graph.cap(
            start - j,
        )
    &&& forall|j: int, k: int|
        0 <= j < plan.len() && 0 <= k < plan[j].len() ==> graph.on_layer(
            #[trigger] plan[j][k] as int,
            start - j,
        )
}

/// `picked` are the neighbours chosen among the features that a search
/// of layer `l` for `q`, of width `width`, has found.
pub open spec fn chosen_on<T: Distance>(
    feats: Seq<T>,
    graph: Graph,
    width: nat,
    q: &T,
    l: int,
    picked: Seq<u32>,
) -> bool {
    exists|found: Seq<(u32, u32)>|
        {
            &&& #[trigger] found_on(feats, graph, q, l, found)
            &&& 1 <= found.len() <= width
            &&& closed(feats, graph, q, l, found, width)
            &&& picked == chosen(feats, found, graph.cap(l))
        }
}

/// `plan` fits the graph, and on each layer it holds the neighbours chosen
/// among the features that a search of that layer for `q` has found.
pub open spec fn planned<T: Distance>(
    feats: Seq<T>,
    graph: Graph,
    width: nat,
    q: &T,
    level: nat,
    plan: Seq<Seq<u32>>,
) -> bool {
    &&& plan_fits(graph, level, plan)
    &&& forall|j: int|
        0 <= j < plan.len() ==> chosen_on(
            feats,
            graph,
            width,
            q,
            start_of(graph.height(), level) - j,
            #[trigger] plan[j],
        )
}

/// The lists of neighbours of `after` are those of `before` with `q`
/// added on the layers up to `level` and connected as `plan` says.
pub open spec fn attached_as<T: Distance>(
    feats: Seq<T>,
    before: Graph,
    after: Graph,
    q: T,
    level: nat,
    plan: Seq<Seq<u32>>,
) -> bool {
    after.links() == attached(
        feats.push(q),
        grown(before.links(), level),
        feats.len() as int,
        plan,
        start_of(before.height(), level),
        before.degree(),
        before.ground_degree(),
        plan.len(),
    )
}

/// The graph `after` is the graph `before` with `q` inserted on the layers
/// up to `level` and connected to the neighbours of `plan`, which were
/// chosen among what searches of width `width` of the layers of `before`
/// for `q` have found.
pub open spec fn built<T: Distance>(
    feats: Seq<T>,
    before: Graph,
    width: nat,
    after: Graph,
    q: T,
    level: nat,
    plan: Seq<Seq<u32>>,
) -> bool {
    &&& planned(feats, before, width, &q, level, plan)
    &&& attached_as(feats, before, after, q, level, plan)
}

/// An insertion is determined by what it is made on: two indexes with the
/// same features, lists of neighbours, layers, entry point, degrees and
/// width have the same features, lists of neighbours, layers and entry
/// point after the same feature was inserted on the same level.
pub proof fn lemma_same_insertion<T: Distance>(
    a: &HNSW<T>,
    b: &HNSW<T>,
    a2: &HNSW<T>,
    b2: &HNSW<T>,
    q: T,
    level: nat,
)
    requires
        a.features() == b.features(),
        a.build_width() == b.build_width(),
        a.graph().links() == b.graph().links(),
        a.graph().nodes() == b.graph().nodes(),
        a.graph().height() == b.graph().height(),
        a.graph().entry_point() == b.graph().entry_point(),
        a.graph().degree() == b.graph().degree(),
        a.graph().ground_degree() == b.graph().ground_degree(),
        inserted(a, a2, q, level),
        inserted(b, b2, q, level),
        built(a.features(), a.graph(), a.build_width(), a2.graph(), q, level, plan_of(a, &q, level)),
        built(b.features(), b.graph(), b.build_width(), b2.graph(), q, level, plan_of(b, &q, level)),
    ensures
        a2.features() == b2.features(),
        a2.build_width() == b2.build_width(),
        a2.graph().links() == b2.graph().links(),
        a2.graph().nodes() == b2.graph().nodes(),
        a2.graph().height() == b2.graph().height(),
        a2.graph().entry_point() == b2.graph().entry_point(),
        a2.graph().degree() == b2.graph().degree(),
        a2.graph().ground_degree() == b2.graph().ground_degree(),
{
}

impl<T: Distance> HNSW<T> {
    /// Chooses the neighbours of a new feature `q` of level `level`: on
    /// each layer from the lower of `level` and the top layer down to 0,
    /// among the features that a search of that layer finds nearest to `q`.
    /// The search of a layer starts at the nearest feature that the search
    /// of the layer above has found, and on the top layer at the entry point.
    /// The result holds the neighbours for the highest of these layers first.
    pub fn find_neighbors(&self, q: &T, level: usize, searcher: &mut Searcher) -> (picks: Vec<Vec<u32>>)
        requires
            self.wf(),
            self.reaches(q),
            level < usize::MAX,
            old(searcher).wf(),
        ensures
            final(searcher).wf(),
            planned(
                self.features(),
                self.graph(),
                self.build_width(),
                q,
                level as nat,
                views(picks@),
            ),
            views(picks@) == plan_of(self, q, level as nat),
    {
        let mut picks: Vec<Vec<u32>> = Vec::new();
        proof {
            self.graph.lemma_wf();
        }
        if self.features.len() == 0 {
            assert(views(picks@) =~= plan_of(self, q, level as nat));
            return picks;
        }
        let ghost goal = start_of(self.graph.height(), level as nat);
        let ghost first = descend(
            self.features@,
            self.graph.links(),
            q,
            self.graph.entry_point(),
            self.graph.height() - 1,
            goal,
        );
        let top = self.graph.layer_count() - 1;
        let mut ep = self.graph.entry();
        let mut l: usize = top;
        while l > level
            invariant
                self.wf(),
                self.reaches(q),
                searcher.wf(),
                l <= top,
                l == top || l >= level,
                l >= goal,
                goal == start_of(self.graph.height(), level as nat),
                top + 1 == self.graph.height(),
                self.graph.on_layer(ep as int, l as int),
                descend(self.features@, self.graph.links(), q, ep, l as int, goal) == first,
            decreases l,
        {
            self.search_layer(q, ep, 1, l, searcher);
            let found = searcher.nearest.drain();
            ep = found[0].0;
            l -= 1;
        }
        let start = l;
        let mut j: usize = 0;
        while j <= start
            invariant
                self.wf(),
                self.reaches(q),
                searcher.wf(),
                start <= top,
                start <= level,
                level < usize::MAX,
                start == start_of(self.graph.height(), level as nat),
                top + 1 == self.graph.height(),
                j <= start + 1,
                picks@.len() == j,
                j <= start ==> self.graph.on_layer(ep as int, start - j),
                forall|i: int|
                    0 <= i < j ==> (#[trigger] picks@[i])@.no_duplicates() && picks@[i]@.len()
                        <= self.graph.cap(start - i),
                forall|i: int, k: int|
                    0 <= i < j && 0 <= k < picks@[i]@.len() ==> self.graph.on_layer(
                        #[trigger] picks@[i]@[k] as int,
                        start - i,
                    ),
                forall|i: int|
                    0 <= i < j ==> chosen_on(
                        self.features@,
                        self.graph,
                        self.ef_construction as nat,
                        q,
                        start - i,
                        (#[trigger] picks@[i])@,
                    ),
                ep == entry_at(
                    self.features@,
                    self.graph.links(),
                    self.ef_construction as nat,
                    q,
                    first,
                    start as int,
                    j as nat,
                ),
                forall|i: int|
                    0 <= i < j ==> (#[trigger] picks@[i])@ == chosen(
                        self.features@,
                        searched(
                            self.features@,
                            self.graph.links(),
                            q,
                            entry_at(
                                self.features@,
                                self.graph.links(),
                                self.ef_construction as nat,
                                q,
                                first,
                                start as int,
                                i as nat,
                            ),
                            self.ef_construction as nat,
                            start - i,
                        ),
                        self.graph.cap(start - i),
                    ),
            decreases start + 1 - j,
        {
            let layer = start - j;
            self.search_layer(q, ep, self.ef_construction, layer, searcher);
            let found = searcher.nearest.drain();
            let cap = self.graph.max_degree(layer);
            let picked = select_neighbors(&self.features, &found, cap);
            proof {
                lemma_chosen(self.features@, found@, cap as nat);
                assert forall|k: int| 0 <= k < picked@.len() implies self.graph.on_layer(
                    #[trigger] picked@[k] as int,
                    layer as int,
                ) by {
                    let i = choose|i: int| 0 <= i < found@.len() && (#[trigger] found@[i]).0 == picked@[k];
                    assert(self.graph.on_layer(found@[i].0 as int, layer as int));
                }
                assert(found_on(self.features(), self.graph(), q, layer as int, found@));
                assert(chosen_on(
                    self.features@,
                    self.graph,
                    self.ef_construction as nat,
                    q,
                    layer as int,
                    picked@,
                ));
            }
            ep = found[0].0;
            picks.push(picked);
            j += 1;
        }
        proof {
            let plan = views(picks@);
            assert(first == descend(
                self.features(),
                self.graph().links(),
                q,
                self.graph().entry_point(),
                self.graph().height() - 1,
                start as int,
            ));
            assert(plan =~= plan_of(self, q, level as nat));
            assert forall|i: int| 0 <= i < plan.len() implies chosen_on(
                self.features(),
                self.graph(),
                self.build_width(),
                q,
                start_of(self.graph().height(), level as nat) - i,
                #[trigger] plan[i],
            ) by {
                assert(plan[i] == picks@[i]@);
            }
            assert forall|i: int| 0 <= i < plan.len() implies (#[trigger] plan[i]).no_duplicates()
                && plan[i].len() <= self.graph().cap(start - i) by {
                assert(plan[i] == picks@[i]@);
            }
            assert forall|i: int, k: int| 0 <= i < plan.len() && 0 <= k < plan[i].len() implies self.graph().on_layer(
                #[trigger] plan[i][k] as int,
                start - i,
            ) by {
                assert(plan[i] == picks@[i]@);
                assert(self.graph.on_layer(picks@[i]@[k] as int, start - i));
            }
        }
        picks
    }

    /// Inserts `q` with nodes on the layers from 0 to `level`, connects it
    /// on each layer to the neighbours that `picks` holds for that layer,
    /// and returns its id. `picks` holds the neighbours for the highest
    /// layer first: for the lower of `level` and the top layer.
    pub fn attach(&mut self, q: T, level: usize, picks: Vec<Vec<u32>>) -> (id: u32)
        requires
            old(self).wf(),
            old(self).features().len() < u32::MAX,
            level < usize::MAX,
            plan_fits(old(self).graph(), level as nat, views(picks@)),
        ensures
            final(self).wf(),
            id == old(self).features().len(),
            final(self).sampler() == old(self).sampler(),
            inserted(old(self), final(self), q, level as nat),
            attached_as(
                old(self).features(),
                old(self).graph(),
                final(self).graph(),
                q,
                level as nat,
                views(picks@),
            ),
    {
        let id = self.features.len() as u32;
        let ghost plan = views(picks@);
        proof {
            self.graph.lemma_wf();
            self.graph.lemma_links();
        }
        if picks.len() == 0 {
            self.features.push(q);
            self.graph.grow(level);
            return id;
        }
        let start = picks.len() - 1;
        self.features.push(q);
        let ghost was = self.graph;
        self.graph.grow(level);
        let ghost grew = self.graph;
        proof {
            assert(start == start_of(was.height(), level as nat));
            assert(grew.on_layer(id as int, start as int));
            assert forall|l: int| 0 <= l <= start implies (#[trigger] grew.adj(id as int, l)).len()
                == 0 by {
                assert(grew.adj(id as int, l) == Seq::<u32>::empty());
            }
            assert forall|j: int| 0 <= j <= start implies (#[trigger] picks@[j])@.no_duplicates()
                && picks@[j]@.len() <= grew.cap(start - j) by {
                assert(plan[j] == picks@[j]@);
            }
            assert forall|j: int, k: int| 0 <= j <= start && 0 <= k < picks@[j]@.len() implies picks@[j]@[k]
                != id && grew.on_layer(#[trigger] picks@[j]@[k] as int, start - j) by {
                assert(plan[j] == picks@[j]@);
                let x = plan[j][k] as int;
                assert(was.on_layer(x, start - j));
                assert(grew.levels(x) == was.levels(x));
            }
        }
        attach(&self.features, &mut self.graph, id, &picks, start);
        proof {
            assert forall|x: int, k: int|
                was.on_layer(x, k) && k > level implies #[trigger] self.graph.adj(x, k) == was.adj(
                x,
                k,
            ) by {
                assert(grew.levels(x) == was.levels(x));
                assert(grew.on_layer(x, k));
                assert(self.graph.adj(x, k) == grew.adj(x, k));
            }
            assert forall|k: int| was.height() <= k <= level implies #[trigger] self.graph.adj(
                id as int,
                k,
            ) == Seq::<u32>::empty() by {
                assert(grew.on_layer(id as int, k));
                assert(self.graph.adj(id as int, k) == grew.adj(id as int, k));
            }
        }
        id
    }

    /// Inserts `q` with nodes on the layers from 0 to `level` and returns
    /// its id. On each of these layers that was there, the neighbours of `q`
    /// are chosen among the features that a search of the layer finds nearest to `q`.
    pub fn insert_at(&mut self, q: T, level: usize, searcher: &mut Searcher) -> (id: u32)
        requires
            old(self).wf(),
            old(self).reaches(&q),
            old(self).features().len() < u32::MAX,
            level < usize::MAX,
            old(searcher).wf(),
        ensures
            final(self).wf(),
            final(searcher).wf(),
            id == old(self).features().len(),
            final(self).sampler() == old(self).sampler(),
            inserted(old(self), final(self), q, level as nat),
            built(
                old(self).features(),
                old(self).graph(),
                old(self).build_width(),
                final(self).graph(),
                q,
                level as nat,
                plan_of(old(self), &q, level as nat),
            ),
    {
        let picks = self.find_neighbors(&q, level, searcher);
        let ghost plan = views(picks@);
        let id = self.attach(q, level, picks);
        proof {
            assert(built(
                old(self).features(),
                old(self).graph(),
                old(self).build_width(),
                self.graph(),
                q,
                level as nat,
                plan,
            ));
        }
        id
    }

    /// Inserts `q` and returns its id: the number of features inserted
    /// before. The level of `q` is drawn from the index's sampler.
    pub fn insert(&mut self, q: T, searcher: &mut Searcher) -> (id: u32)
        requires
            old(self).wf(),
            old(self).reaches(&q),
            old(self).features().len() < u32::MAX,
            old(searcher).wf(),
        ensures
            final(self).wf(),
            final(searcher).wf(),
            id == old(self).features().len(),
            final(self).sampler().state() == advance(old(self).sampler().state()),
            inserted(
                old(self),
                final(self),
                q,
                level_in(advance(old(self).sampler().state()), old(self).graph().degree() as usize),
            ),
            built(
                old(self).features(),
                old(self).graph(),
                old(self).build_width(),
                final(self).graph(),
                q,
                level_in(advance(old(self).sampler().state()), old(self).graph().degree() as usize),
                plan_of(
                    old(self),
                    &q,
                    level_in(
                        advance(old(self).sampler().state()),
                        old(self).graph().degree() as usize,
                    ),
                ),
            ),
    {
        let m = self.graph.max_degree(1);
        let level = self.sampler.next_level(m);
        let ghost drawn = *self;
        proof {
            self.graph.lemma_wf();
        }
        let id = self.insert_at(q, level, searcher);
        proof {
            assert(drawn.features() == old(self).features());
            assert(drawn.graph() == old(self).graph());
        }
        id
    }

    /// Finds features near to `q` and writes their ids to `dest`, nearest
    /// first: as many as `dest` has room for and the search has found. The
    /// search keeps the `ef` nearest features that it comes across, or as
    /// many as `dest` has room for if that is more. Returns the part of
    /// `dest` that was written: nothing where the index is empty.
    pub fn nearest<'a>(&self, q: &T, ef: usize, searcher: &mut Searcher, dest: &'a mut [u32]) -> (written:
        &'a mut [u32])
        requires
            self.wf(),
            self.reaches(q),
            ef >= 1,
            old(searcher).wf(),
        ensures
            final(searcher).wf(),
            final(dest)@ == final(written)@ + old(dest)@.skip(written@.len() as int),
            self.features().len() == 0 ==> written@.len() == 0,
            self.features().len() > 0 ==> {
                let found = final(searcher).nearest@;
                &&& found_on(self.features(), self.graph(), q, 0, found)
                &&& 1 <= found.len() <= (if ef >= old(dest)@.len() {
                    ef as nat
                } else {
                    old(dest)@.len()
                })
                &&& found[0].1 <= T::gap(q, &self.features()[self.graph().entry_point() as int])
                &&& found == searched(
                    self.features(),
                    self.graph().links(),
                    q,
                    descend(
                        self.features(),
                        self.graph().links(),
                        q,
                        self.graph().entry_point(),
                        self.graph().height() - 1,
                        0,
                    ),
                    if ef >= old(dest)@.len() {
                        ef as nat
                    } else {
                        old(dest)@.len()
                    },
                    0,
                )
                &&& closed(self.features(), self.graph(), q, 0, found, if ef >= old(dest)@.len() {
                    ef as nat
                } else {
                    old(dest)@.len()
                })
                &&& written@.len() == (if old(dest)@.len() <= found.len() {
                    old(dest)@.len()
                } else {
                    found.len()
                })
                &&& forall|i: int| 0 <= i < written@.len() ==> #[trigger] written@[i] == found[i].0
            },
    {
        if self.features.len() == 0 {
            let (head, _rest) = dest.split_at_mut(0);
            proof {
                assert(old(dest)@.skip(0) =~= old(dest)@);
            }
            return head;
        }
        proof {
            self.graph.lemma_wf();
        }
        let mut ep = self.graph.entry();
        let mut l: usize = self.graph.layer_count() - 1;
        while l > 0
            invariant
                self.wf(),
                self.reaches(q),
                searcher.wf(),
                self.graph.on_layer(ep as int, l as int),
                T::gap(q, &self.features@[ep as int]) <= T::gap(
                    q,
                    &self.features@[self.graph.entry_point() as int],
                ),
                descend(self.features@, self.graph.links(), q, ep, l as int, 0) == descend(
                    self.features@,
                    self.graph.links(),
                    q,
                    self.graph.entry_point(),
                    self.graph.height() - 1,
                    0,
                ),
            decreases l,
        {
            self.search_layer(q, ep, 1, l, searcher);
            let found = searcher.nearest.drain();
            ep = found[0].0;
            l -= 1;
        }
        let width = if ef >= dest.len() {
            ef
        } else {
            dest.len()
        };
        self.search_layer(q, ep, width, 0, searcher);
        let written = searcher.nearest.fill_slice(dest);
        proof {
            assert forall|i: int| 0 <= i < written@.len() implies #[trigger] written@[i]
                == searcher.nearest@[i].0 by {
                assert(cloned(searcher.nearest@[i].0, written@[i]));
            }
        }
        written
    }
}

} // verus!
