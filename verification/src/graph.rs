//! The layered graph over feature-ids.
//!
//! Each layer holds an ordered list of nodes; a node carries a feature-id and
//! the list of its neighbours on that layer. Layer 0 holds every feature, at
//! the position of its id. For the higher layers a table gives, for each
//! feature, the position of its node on each layer that it is on.

use vstd::prelude::*;

verus! {

/// A feature's record on one layer.
#[derive(Clone, Debug)]
pub struct Node {
    id: u32,
    neighbors: Vec<u32>,
}

/// The layers of nodes, the table of positions and the entry point.
#[derive(Clone, Debug)]
pub struct Graph {
    m: usize,
    m0: usize,
    entry: u32,
    layers: Vec<Vec<Node>>,
    slots: Vec<Vec<usize>>,
}

/// `list` with the value `v` taken out, where it holds it.
pub open spec fn without(list: Seq<u32>, v: u32) -> Seq<u32> {
    if list.contains(v) {
        list.remove(list.index_of(v))
    } else {
        list
    }
}

/// The lists of neighbours after `a` and `b` were made neighbours of each
/// other on layer `l`: `links[id][l]` are the neighbours of `id` on layer `l`.
pub open spec fn linked(links: Seq<Seq<Seq<u32>>>, l: int, a: int, b: int) -> Seq<Seq<Seq<u32>>> {
    let one = links.update(a, links[a].update(l, links[a][l].push(b as u32)));
    one.update(b, one[b].update(l, one[b][l].push(a as u32)))
}

/// The lists of neighbours after `keep` was put in the place of the
/// neighbours of `s` on layer `l`: the neighbours that `keep` leaves out
/// have lost `s` from their own lists.
pub open spec fn replaced(links: Seq<Seq<Seq<u32>>>, l: int, s: int, keep: Seq<u32>) -> Seq<
    Seq<Seq<u32>>,
> {
    Seq::new(
        links.len(),
        |x: int|
            if x == s {
                links[s].update(l, keep)
            } else if l < links[x].len() && links[s][l].contains(x as u32) && !keep.contains(
                x as u32,
            ) {
                links[x].update(l, without(links[x][l], s as u32))
            } else {
                links[x]
            },
    )
}

/// The lists of neighbours after a feature was added on the layers from 0
/// to `level`, without neighbours.
pub open spec fn grown(links: Seq<Seq<Seq<u32>>>, level: nat) -> Seq<Seq<Seq<u32>>> {
    links.push(Seq::new(level + 1, |l: int| Seq::<u32>::empty()))
}

/// The features on the layers after feature `id` was added on the layers
/// from 0 to `level`: `nodes[l]` are the features of the nodes of layer `l`,
/// in the order of the nodes.
pub open spec fn grown_nodes(nodes: Seq<Seq<u32>>, id: u32, level: nat) -> Seq<Seq<u32>> {
    Seq::new(
        if nodes.len() > level {
            nodes.len()
        } else {
            level + 1
        },
        |l: int|
            if l > level {
                nodes[l]
            } else if l < nodes.len() {
                nodes[l].push(id)
            } else {
                seq![id]
            },
    )
}

/// What `without` leaves of a list that holds nothing twice.
pub proof fn lemma_without(list: Seq<u32>, v: u32)
    requires
        list.no_duplicates(),
    ensures
        without(list, v).no_duplicates(),
        !without(list, v).contains(v),
        without(list, v).len() <= list.len(),
        forall|x: u32| without(list, v).contains(x) <==> (list.contains(x) && x != v),
{
    let w = without(list, v);
    if list.contains(v) {
        let j = list.index_of(v);
        assert(0 <= j < list.len() && list[j] == v);
        list.remove_ensures(j);
        assert forall|x: u32| w.contains(x) implies list.contains(x) && x != v by {
            let k = choose|k: int| 0 <= k < w.len() && w[k] == x;
            let k2 = if k < j {
                k
            } else {
                k + 1
            };
            assert(list[k2] == x);
        }
        assert forall|x: u32| list.contains(x) && x != v implies w.contains(x) by {
            let k = choose|k: int| 0 <= k < list.len() && list[k] == x;
            let k2 = if k < j {
                k
            } else {
                k - 1
            };
            assert(w[k2] == x);
        }
        assert forall|a: int, b: int| 0 <= a < w.len() && 0 <= b < w.len() && a != b implies w[a]
            != w[b] by {
            let a2 = if a < j {
                a
            } else {
                a + 1
            };
            let b2 = if b < j {
                b
            } else {
                b + 1
            };
            assert(w[a] == list[a2]);
            assert(w[b] == list[b2]);
        }
    }
}

impl Graph {
    /// The number of features.
    pub closed spec fn count(&self) -> nat {
        self.slots@.len()
    }

    /// The number of layers.
    pub closed spec fn height(&self) -> nat {
        self.layers@.len()
    }

    /// The feature that every search starts at.
    pub closed spec fn entry_point(&self) -> u32 {
        self.entry
    }

    /// The largest number of neighbours on the layers above layer 0.
    pub closed spec fn degree(&self) -> nat {
        self.m as nat
    }

    /// The largest number of neighbours on layer 0.
    pub closed spec fn ground_degree(&self) -> nat {
        self.m0 as nat
    }

    /// The largest number of neighbours on layer `l`.
    pub open spec fn cap(&self, l: int) -> nat {
        if l == 0 {
            self.ground_degree()
        } else {
            self.degree()
        }
    }

    /// The number of layers that feature `id` is on: these are the layers from 0 up.
    pub closed spec fn levels(&self, id: int) -> nat {
        self.slots@[id]@.len()
    }

    /// Feature `id` has a node on layer `l`.
    pub open spec fn on_layer(&self, id: int, l: int) -> bool {
        0 <= id < self.count() && 0 <= l < self.levels(id)
    }

    /// The number of nodes on layer `l`.
    pub closed spec fn width(&self, l: int) -> nat {
        self.layers@[l]@.len()
    }

    /// The feature of the node at position `p` of layer `l`.
    pub closed spec fn node_id(&self, l: int, p: int) -> u32 {
        self.layers@[l]@[p].id
    }

    /// The neighbours of the node at position `p` of layer `l`.
    pub closed spec fn list(&self, l: int, p: int) -> Seq<u32> {
        self.layers@[l]@[p].neighbors@
    }

    /// The position of feature `id` on layer `l`.
    pub closed spec fn slot(&self, id: int, l: int) -> int {
        self.slots@[id]@[l] as int
    }

    /// The neighbours of feature `id` on layer `l`.
    pub closed spec fn adj(&self, id: int, l: int) -> Seq<u32> {
        self.list(l, self.slot(id, l))
    }

    /// The table of positions and the layers agree: each feature is on the
    /// layers from 0 up to its own top, layer 0 holds feature `id` at
    /// position `id`, and the entry point is on the top layer.
    pub closed spec fn shape(&self) -> bool {
        &&& self.count() <= u32::MAX
        &&& 1 <= self.m <= 64
        &&& self.m0 == 2 * self.m
        &&& (self.count() == 0) == (self.height() == 0)
        &&& self.height() > 0 ==> self.width(0) == self.count()
        &&& forall|id: int|
            0 <= id < self.count() ==> 1 <= #[trigger] self.levels(id) <= self.height()
                && self.slot(id, 0) == id
        &&& forall|id: int, l: int|
            self.on_layer(id, l) ==> 0 <= #[trigger] self.slot(id, l) < self.width(l)
                && self.node_id(l, self.slot(id, l)) == id
        &&& forall|l: int, p: int|
            0 <= l < self.height() && 0 <= p < self.width(l) ==> self.on_layer(
                #[trigger] self.node_id(l, p) as int,
                l,
            ) && self.slot(self.node_id(l, p) as int, l) == p
        &&& self.count() > 0 ==> self.entry < self.count() && self.levels(self.entry as int)
            == self.height()
    }

    /// `n` is on layer `l`, is not `id` itself, and lists `id` there.
    pub closed spec fn linked_back(&self, id: int, l: int, n: u32) -> bool {
        &&& self.on_layer(n as int, l)
        &&& n != id
        &&& self.adj(n as int, l).contains(id as u32)
    }

    /// The neighbours of `id` on layer `l` are distinct, and each lists `id` in turn.
    pub closed spec fn list_ok(&self, id: int, l: int) -> bool {
        &&& self.adj(id, l).no_duplicates()
        &&& forall|k: int|
            0 <= k < self.adj(id, l).len() ==> self.linked_back(id, l, #[trigger] self.adj(id, l)[k])
    }

    /// Every list of neighbours is in order.
    pub closed spec fn sound(&self) -> bool {
        forall|id: int, l: int| self.on_layer(id, l) ==> #[trigger] self.list_ok(id, l)
    }

    /// No list of neighbours is longer than its layer allows, but for that
    /// of `id0` on layer `l0`, which may hold one more.
    pub closed spec fn bounded_but(&self, id0: int, l0: int) -> bool {
        forall|id: int, l: int|
            self.on_layer(id, l) ==> (#[trigger] self.adj(id, l)).len() <= self.cap(l) + (if id
                == id0 && l == l0 {
                1nat
            } else {
                0nat
            })
    }

    /// The graph is in order: the table and the layers agree, neighbours
    /// list each other, and no list is longer than its layer allows.
    pub closed spec fn wf(&self) -> bool {
        &&& self.shape()
        &&& self.sound()
        &&& self.bounded_but(-1, -1)
    }

    /// The graph is in order, but that the list of `id0` on layer `l0` may hold one neighbour
    /// too many.
    pub closed spec fn loose(&self, id0: int, l0: int) -> bool {
        &&& self.shape()
        &&& self.sound()
        &&& self.bounded_but(id0, l0)
    }

    /// The same features on the same layers, with the same entry point and degrees.
    pub open spec fn same_nodes(&self, other: &Graph) -> bool {
        &&& self.nodes() == other.nodes()
        &&& self.count() == other.count()
        &&& self.height() == other.height()
        &&& self.entry_point() == other.entry_point()
        &&& self.degree() == other.degree()
        &&& self.ground_degree() == other.ground_degree()
        &&& forall|id: int| 0 <= id < self.count() ==> self.levels(id) == other.levels(id)
    }

    /// The same neighbours everywhere, but on layer `l`.
    pub open spec fn same_lists_off(&self, other: &Graph, l: int) -> bool {
        forall|id: int, k: int|
            self.on_layer(id, k) && k != l ==> #[trigger] self.adj(id, k) == other.adj(id, k)
    }

    /// The features on the layers: `nodes()[l]` are the features of the
    /// nodes of layer `l`, in the order of the nodes.
    pub closed spec fn nodes(&self) -> Seq<Seq<u32>> {
        Seq::new(
            self.layers@.len(),
            |l: int| Seq::new(self.layers@[l]@.len(), |p: int| self.layers@[l]@[p].id),
        )
    }

    /// The features on the layers are those of the nodes.
    pub proof fn lemma_nodes(&self)
        ensures
            self.nodes().len() == self.height(),
            forall|l: int| 0 <= l < self.height() ==> (#[trigger] self.nodes()[l]).len() == self.width(l),
            forall|l: int, p: int|
                0 <= l < self.height() && 0 <= p < self.width(l) ==> #[trigger] self.nodes()[l][p]
                    == self.node_id(l, p),
    {
    }

    /// The lists of neighbours: `links()[id][l]` are the neighbours of
    /// feature `id` on layer `l`, for each layer that `id` is on.
    pub closed spec fn links(&self) -> Seq<Seq<Seq<u32>>> {
        Seq::new(self.count(), |id: int| Seq::new(self.levels(id), |l: int| self.adj(id, l)))
    }

    /// The lists of neighbours are those of the features on their layers.
    pub proof fn lemma_links(&self)
        ensures
            self.links().len() == self.count(),
            forall|id: int| 0 <= id < self.count() ==> (#[trigger] self.links()[id]).len() == self.levels(id),
            forall|id: int, l: int| self.on_layer(id, l) ==> #[trigger] self.links()[id][l] == self.adj(id, l),
    {
    }

    /// Graphs of the same features with the same neighbours have the same lists.
    proof fn lemma_links_equal(&self, lists: Seq<Seq<Seq<u32>>>)
        requires
            lists.len() == self.count(),
            forall|id: int| 0 <= id < self.count() ==> (#[trigger] lists[id]).len() == self.levels(id),
            forall|id: int, l: int| self.on_layer(id, l) ==> #[trigger] lists[id][l] == self.adj(id, l),
        ensures
            self.links() == lists,
    {
        assert forall|id: int| 0 <= id < self.count() implies #[trigger] self.links()[id]
            == lists[id] by {
            assert forall|l: int| 0 <= l < self.levels(id) implies self.links()[id][l]
                == lists[id][l] by {
                assert(self.on_layer(id, l));
            }
            assert(self.links()[id] =~= lists[id]);
        }
        assert(self.links() =~= lists);
    }

    /// The table, the ids on the layers, the entry point and the degrees.
    spec fn skeleton(&self) -> (Seq<Seq<usize>>, Seq<Seq<u32>>, u32, usize, usize) {
        (
            Seq::new(self.slots@.len(), |i: int| self.slots@[i]@),
            self.nodes(),
            self.entry,
            self.m,
            self.m0,
        )
    }

    /// Graphs with the same skeleton have the same shape.
    proof fn lemma_skeleton(&self, other: &Graph)
        requires
            self.skeleton() == other.skeleton(),
        ensures
            self.shape() == other.shape(),
            self.same_nodes(other),
            forall|id: int, l: int| self.on_layer(id, l) == other.on_layer(id, l),
            forall|id: int, l: int| self.on_layer(id, l) ==> self.slot(id, l) == other.slot(id, l),
            forall|l: int| 0 <= l < self.height() ==> self.width(l) == other.width(l),
    {
        let (s1, n1, _, _, _) = self.skeleton();
        let (s2, n2, _, _, _) = other.skeleton();
        assert(s1.len() == s2.len());
        assert(n1.len() == n2.len());
        assert forall|id: int| 0 <= id < self.count() implies self.slots@[id]@
            == other.slots@[id]@ by {
            assert(s1[id] == s2[id]);
        }
        assert forall|l: int| 0 <= l < self.height() implies self.width(l) == other.width(l) by {
            assert(n1[l] == n2[l]);
            assert(n1[l].len() == n2[l].len());
        }
        assert forall|l: int, p: int| 0 <= l < self.height() && 0 <= p < self.width(l) implies self.node_id(l, p) == other.node_id(l, p) by {
            assert(n1[l] == n2[l]);
            assert(n1[l][p] == n2[l][p]);
        }
        assert forall|id: int| 0 <= id < self.count() implies self.levels(id) == other.levels(
            id,
        ) by {}
        assert forall|id: int, l: int| self.on_layer(id, l) == other.on_layer(id, l) by {}
        assert forall|id: int, l: int| self.on_layer(id, l) implies self.slot(id, l) == other.slot(
            id,
            l,
        ) by {}
        if self.shape() {
            Self::lemma_shape_moves(self, other);
        }
        if other.shape() {
            Self::lemma_shape_moves(other, self);
        }
    }

    /// A shape carries over to a graph with the same table and ids.
    proof fn lemma_shape_moves(a: &Graph, b: &Graph)
        requires
            a.shape(),
            a.count() == b.count(),
            a.height() == b.height(),
            a.entry == b.entry,
            a.m == b.m,
            a.m0 == b.m0,
            forall|id: int| 0 <= id < a.count() ==> a.slots@[id]@ == b.slots@[id]@,
            forall|l: int| 0 <= l < a.height() ==> a.width(l) == b.width(l),
            forall|l: int, p: int|
                0 <= l < a.height() && 0 <= p < a.width(l) ==> a.node_id(l, p) == b.node_id(l, p),
        ensures
            b.shape(),
    {
        assert forall|id: int| 0 <= id < b.count() implies 1 <= #[trigger] b.levels(id)
            <= b.height() && b.slot(id, 0) == id by {
            assert(a.levels(id) == b.levels(id));
            assert(a.slot(id, 0) == b.slot(id, 0));
        }
        assert forall|id: int, l: int| b.on_layer(id, l) implies 0 <= #[trigger] b.slot(id, l)
            < b.width(l) && b.node_id(l, b.slot(id, l)) == id by {
            assert(a.levels(id) == b.levels(id));
            assert(a.on_layer(id, l));
            assert(a.slot(id, l) == b.slot(id, l));
        }
        assert forall|l: int, p: int| 0 <= l < b.height() && 0 <= p < b.width(l) implies b.on_layer(
            #[trigger] b.node_id(l, p) as int,
            l,
        ) && b.slot(b.node_id(l, p) as int, l) == p by {
            let n = a.node_id(l, p) as int;
            assert(a.on_layer(n, l));
            assert(a.levels(n) == b.levels(n));
            assert(a.slot(n, l) == b.slot(n, l));
        }
        if b.count() > 0 {
            assert(a.levels(a.entry as int) == b.levels(b.entry as int));
        }
    }

    /// In a graph that is in order, neighbours list each other.
    pub proof fn lemma_symmetric(&self, l: int, a: int, b: u32)
        requires
            self.wf(),
            self.on_layer(a, l),
            self.adj(a, l).contains(b),
        ensures
            self.on_layer(b as int, l),
            b != a,
            self.adj(b as int, l).contains(a as u32),
    {
        assert(self.list_ok(a, l));
        let k = choose|k: int| 0 <= k < self.adj(a, l).len() && self.adj(a, l)[k] == b;
        assert(self.linked_back(a, l, self.adj(a, l)[k]));
    }

    /// In a graph that is in order, no feature has more neighbours than
    /// its layer allows, none twice, and the degree of layer 0 is twice that
    /// of the others.
    pub proof fn lemma_degree(&self, l: int, a: int)
        requires
            self.wf(),
            self.on_layer(a, l),
        ensures
            self.adj(a, l).len() <= self.cap(l),
            self.adj(a, l).no_duplicates(),
            self.ground_degree() == 2 * self.degree(),
            1 <= self.degree() <= 64,
    {
        assert(self.list_ok(a, l));
    }

    /// In a graph that is in order, a feature with a node on a layer
    /// above layer 0 has a node on the layer under it.
    pub proof fn lemma_contained(&self, l: int, under: int, p: int)
        requires
            self.wf(),
            0 < l < self.height(),
            under == l - 1,
            0 <= p < self.width(l),
        ensures
            self.on_layer(self.node_id(l, p) as int, l),
            self.on_layer(self.node_id(l, p) as int, under),
            exists|q: int|
                0 <= q < self.width(under) && #[trigger] self.node_id(under, q) == self.node_id(
                    l,
                    p,
                ),
    {
        let id = self.node_id(l, p) as int;
        assert(self.on_layer(id, l));
        assert(self.on_layer(id, under));
        let q = self.slot(id, under);
        assert(0 <= q < self.width(under) && self.node_id(under, q) == id);
    }

    /// What a graph in order holds of its nodes and counts.
    pub proof fn lemma_wf(&self)
        requires
            self.wf(),
        ensures
            self.count() <= u32::MAX,
            (self.count() == 0) == (self.height() == 0),
            self.count() > 0 ==> self.on_layer(self.entry_point() as int, self.height() - 1),
            forall|id: int| 0 <= id < self.count() ==> 1 <= #[trigger] self.levels(id) <= self.height(),
            forall|id: int, l: int, k: int|
                self.on_layer(id, l) && 0 <= k < self.adj(id, l).len() ==> self.on_layer(
                    #[trigger] self.adj(id, l)[k] as int,
                    l,
                ) && self.adj(id, l)[k] != id,
            self.shape(),
            forall|a: int, b: int| self.loose(a, b),
            1 <= self.degree() <= 64,
            self.ground_degree() == 2 * self.degree(),
    {
        assert forall|a: int, b: int| self.loose(a, b) by {
            assert forall|id: int, l: int| self.on_layer(id, l) implies (#[trigger] self.adj(
                id,
                l,
            )).len() <= self.cap(l) + (if id == a && l == b {
                1nat
            } else {
                0nat
            }) by {}
        }
        assert forall|id: int, l: int, k: int|
            self.on_layer(id, l) && 0 <= k < self.adj(id, l).len() implies self.on_layer(
            #[trigger] self.adj(id, l)[k] as int,
            l,
        ) && self.adj(id, l)[k] != id by {
            assert(self.list_ok(id, l));
            assert(self.linked_back(id, l, self.adj(id, l)[k]));
        }
    }

    /// A graph without features, for the degree `m` above layer 0 and `m0` on layer 0.
    pub fn new(m: usize, m0: usize) -> (g: Self)
        requires
            1 <= m <= 64,
            m0 == 2 * m,
        ensures
            g.wf(),
            g.count() == 0,
            g.height() == 0,
            g.degree() == m,
            g.ground_degree() == m0,
    {
        Graph { m, m0, entry: 0, layers: Vec::new(), slots: Vec::new() }
    }

    /// The number of features.
    pub fn len(&self) -> (n: usize)
        ensures
            n == self.count(),
    {
        self.slots.len()
    }

    /// The number of layers.
    pub fn layer_count(&self) -> (n: usize)
        ensures
            n == self.height(),
    {
        self.layers.len()
    }

    /// The number of nodes on layer `l`.
    pub fn layer_len(&self, l: usize) -> (n: usize)
        requires
            l < self.height(),
        ensures
            n == self.width(l as int),
    {
        self.layers[l].len()
    }

    /// The feature of the node at position `p` of layer `l`.
    pub fn feature_at(&self, l: usize, p: usize) -> (id: u32)
        requires
            l < self.height(),
            p < self.width(l as int),
        ensures
            id == self.node_id(l as int, p as int),
    {
        self.layers[l][p].id
    }

    /// The feature that every search starts at.
    pub fn entry(&self) -> (id: u32)
        ensures
            id == self.entry_point(),
    {
        self.entry
    }

    /// The largest number of neighbours on layer `l`.
    pub fn max_degree(&self, l: usize) -> (n: usize)
        ensures
            n == self.cap(l as int),
    {
        if l == 0 {
            self.m0
        } else {
            self.m
        }
    }

    /// The number of layers that feature `id` is on.
    pub fn levels_of(&self, id: u32) -> (n: usize)
        requires
            id < self.count(),
        ensures
            n == self.levels(id as int),
    {
        self.slots[id as usize].len()
    }

    /// The neighbours of feature `id` on layer `l`.
    pub fn neighbors(&self, id: u32, l: usize) -> (list: &Vec<u32>)
        requires
            self.shape(),
            self.on_layer(id as int, l as int),
        ensures
            list@ == self.adj(id as int, l as int),
    {
        let p = self.slots[id as usize][l];
        assert(p == self.slot(id as int, l as int));
        &self.layers[l][p].neighbors
    }

    /// A graph that is in order but for one list is in order where that
    /// list is no longer than its layer allows.
    pub proof fn lemma_tight(&self, a: int, b: int)
        requires
            self.loose(a, b),
            self.on_layer(a, b) ==> self.adj(a, b).len() <= self.cap(b),
        ensures
            self.wf(),
    {
        assert forall|id: int, l: int| self.on_layer(id, l) implies (#[trigger] self.adj(
            id,
            l,
        )).len() <= self.cap(l) by {
            if id == a && l == b {
            } else {
                assert(self.adj(id, l).len() <= self.cap(l) + (if id == a && l == b {
                    1nat
                } else {
                    0nat
                }));
            }
        }
    }

    /// A graph that is in order but for one list that is too long has its shape.
    pub proof fn lemma_loose(&self, a: int, b: int)
        requires
            self.loose(a, b),
        ensures
            self.shape(),
            forall|id: int, l: int, k: int|
                self.on_layer(id, l) && 0 <= k < self.adj(id, l).len() ==> self.on_layer(
                    #[trigger] self.adj(id, l)[k] as int,
                    l,
                ) && self.adj(id, l)[k] != id,
            forall|id: int, l: int| self.on_layer(id, l) ==> (#[trigger] self.adj(id, l)).no_duplicates(),
            forall|id: int, l: int|
                self.on_layer(id, l) && !(id == a && l == b) ==> (#[trigger] self.adj(id, l)).len()
                    <= self.cap(l),
            self.on_layer(a, b) ==> self.adj(a, b).len() <= self.cap(b) + 1,
            forall|id: int, l: int| self.on_layer(id, l) ==> 0 <= l < self.height(),
    {
        assert forall|id: int, l: int, k: int|
            self.on_layer(id, l) && 0 <= k < self.adj(id, l).len() implies self.on_layer(
            #[trigger] self.adj(id, l)[k] as int,
            l,
        ) && self.adj(id, l)[k] != id by {
            assert(self.list_ok(id, l));
            assert(self.linked_back(id, l, self.adj(id, l)[k]));
        }
        assert forall|id: int, l: int| self.on_layer(id, l) implies (#[trigger] self.adj(
            id,
            l,
        )).no_duplicates() by {
            assert(self.list_ok(id, l));
        }
        assert forall|id: int, l: int| self.on_layer(id, l) implies 0 <= l < self.height() by {
            assert(self.levels(id) <= self.height());
        }
    }

    /// Adds a feature, with nodes on the layers from 0 to `level` and
    /// without neighbours. Where `level` is above the top layer, the layers
    /// up to `level` are added and the new feature becomes the entry point.
    /// Returns the feature's id.
    pub fn grow(&mut self, level: usize) -> (id: u32)
        requires
            old(self).wf(),
            old(self).count() < u32::MAX,
            level < usize::MAX,
        ensures
            final(self).wf(),
            id == old(self).count(),
            final(self).count() == old(self).count() + 1,
            final(self).links() == grown(old(self).links(), level as nat),
            final(self).nodes() == grown_nodes(old(self).nodes(), id, level as nat),
            final(self).height() == if old(self).height() > level {
                old(self).height()
            } else {
                (level + 1) as nat
            },
            final(self).entry_point() == if old(self).height() > level {
                old(self).entry_point()
            } else {
                id
            },
            final(self).degree() == old(self).degree(),
            final(self).ground_degree() == old(self).ground_degree(),
            final(self).levels(id as int) == level + 1,
            forall|x: int| 0 <= x < old(self).count() ==> final(self).levels(x) == old(self).levels(x),
            forall|l: int| 0 <= l <= level ==> #[trigger] final(self).adj(id as int, l) == Seq::<u32>::empty(),
            forall|x: int, l: int|
                old(self).on_layer(x, l) ==> #[trigger] final(self).adj(x, l) == old(self).adj(x, l),
    {
        let id = self.slots.len() as u32;
        let base = self.layers.len();
        let mut slot: Vec<usize> = Vec::new();
        let mut l: usize = 0;
        while l <= level
            invariant
                l <= level + 1,
                level < usize::MAX,
                base == old(self).layers@.len(),
                self.slots == old(self).slots,
                self.m == old(self).m,
                self.m0 == old(self).m0,
                self.entry == old(self).entry,
                slot@.len() == l,
                self.layers@.len() == if l <= base {
                    base
                } else {
                    l
                },
                forall|j: int|
                    0 <= j < l ==> (#[trigger] slot@[j]) as int == self.layers@[j]@.len() - 1
                        && self.layers@[j]@.len() >= 1,
                forall|j: int|
                    0 <= j < l ==> (#[trigger] self.layers@[j])@.last().id == id
                        && self.layers@[j]@.last().neighbors@.len() == 0,
                forall|j: int|
                    0 <= j < l && j < base ==> (#[trigger] self.layers@[j])@.len() == old(
                        self,
                    ).layers@[j]@.len() + 1,
                forall|j: int, p: int|
                    0 <= j < l && j < base && 0 <= p < old(self).layers@[j]@.len()
                        ==> #[trigger] self.layers@[j]@[p] == old(self).layers@[j]@[p],
                forall|j: int| base <= j < l ==> (#[trigger] self.layers@[j])@.len() == 1,
                forall|j: int| l <= j < base ==> #[trigger] self.layers@[j] == old(self).layers@[j],
            decreases level + 1 - l,
        {
            if l < self.layers.len() {
                slot.push(self.layers[l].len());
                self.layers[l].push(Node { id, neighbors: Vec::new() });
            } else {
                slot.push(0);
                let mut layer: Vec<Node> = Vec::new();
                layer.push(Node { id, neighbors: Vec::new() });
                self.layers.push(layer);
            }
            l += 1;
        }
        if base <= level {
            self.entry = id;
        }
        self.slots.push(slot);
        proof {
            Self::lemma_grown(old(self), self, level);
            assert(self.nodes() =~~= grown_nodes(old(self).nodes(), id, level as nat)) by {
                let now = self.nodes();
                let then = grown_nodes(old(self).nodes(), id, level as nat);
                assert(now.len() == then.len());
                assert forall|k: int| 0 <= k < now.len() implies #[trigger] now[k] =~= then[k] by {
                    if k > level {
                        assert(self.layers@[k] == old(self).layers@[k]);
                    } else if k < old(self).layers@.len() {
                        assert(self.layers@[k]@.len() == old(self).layers@[k]@.len() + 1);
                        assert(self.layers@[k]@.last().id == id);
                        assert forall|q: int| 0 <= q < old(self).layers@[k]@.len() implies now[k][q]
                            == then[k][q] by {
                            assert(self.layers@[k]@[q] == old(self).layers@[k]@[q]);
                        }
                    } else {
                        assert(self.layers@[k]@.len() == 1);
                        assert(self.layers@[k]@.last().id == id);
                    }
                }
            }
            old(self).lemma_links();
            self.lemma_links_equal(grown(old(self).links(), level as nat));
        }
        id
    }

    /// The graph `g` that `grow` makes of `o` is in order.
    proof fn lemma_grown(o: &Graph, g: &Graph, level: usize)
        requires
            o.wf(),
            o.count() < u32::MAX,
            g.m == o.m,
            g.m0 == o.m0,
            g.entry == if o.height() > level {
                o.entry
            } else {
                o.count() as u32
            },
            g.slots@.len() == o.slots@.len() + 1,
            forall|x: int| 0 <= x < o.slots@.len() ==> #[trigger] g.slots@[x] == o.slots@[x],
            g.slots@[o.slots@.len() as int]@.len() == level + 1,
            g.layers@.len() == if level + 1 <= o.layers@.len() {
                o.layers@.len()
            } else {
                (level + 1) as nat
            },
            forall|j: int|
                0 <= j <= level ==> (#[trigger] g.slots@[o.slots@.len() as int]@[j]) as int
                    == g.layers@[j]@.len() - 1 && g.layers@[j]@.len() >= 1,
            forall|j: int|
                0 <= j <= level ==> (#[trigger] g.layers@[j])@.last().id == o.count()
                    && g.layers@[j]@.last().neighbors@.len() == 0,
            forall|j: int|
                0 <= j <= level && j < o.layers@.len() ==> (#[trigger] g.layers@[j])@.len()
                    == o.layers@[j]@.len() + 1,
            forall|j: int, p: int|
                0 <= j <= level && j < o.layers@.len() && 0 <= p < o.layers@[j]@.len()
                    ==> #[trigger] g.layers@[j]@[p] == o.layers@[j]@[p],
            forall|j: int| o.layers@.len() <= j <= level ==> (#[trigger] g.layers@[j])@.len() == 1,
            forall|j: int| level < j < o.layers@.len() ==> #[trigger] g.layers@[j] == o.layers@[j],
        ensures
            g.wf(),
            g.levels(o.count() as int) == level + 1,
            forall|x: int| 0 <= x < o.count() ==> g.levels(x) == o.levels(x),
            forall|l: int| 0 <= l <= level ==> #[trigger] g.adj(o.count() as int, l) == Seq::<u32>::empty(),
            forall|x: int, l: int| o.on_layer(x, l) ==> #[trigger] g.adj(x, l) == o.adj(x, l),
    {
        let id = o.count() as int;
        assert forall|x: int| 0 <= x < o.count() implies g.levels(x) == o.levels(x) by {
            assert(g.slots@[x] == o.slots@[x]);
        }
        assert forall|x: int, l: int| o.on_layer(x, l) implies g.on_layer(x, l) && g.slot(x, l)
            == o.slot(x, l) && 0 <= l < o.height() by {
            assert(g.slots@[x] == o.slots@[x]);
            assert(o.levels(x) <= o.height());
        }
        // Nodes that were there are where they were.
        assert forall|l: int, p: int| 0 <= l < o.height() && 0 <= p < o.width(l) implies g.layers@[l]@[p]
            == o.layers@[l]@[p] && p < g.width(l) by {
            if l <= level {
                assert(g.layers@[l]@.len() == o.layers@[l]@.len() + 1);
                assert(g.layers@[l]@[p] == o.layers@[l]@[p]);
            } else {
                assert(g.layers@[l] == o.layers@[l]);
            }
        }
        assert forall|x: int, l: int| o.on_layer(x, l) implies #[trigger] g.adj(x, l) == o.adj(
            x,
            l,
        ) by {
            assert(0 <= o.slot(x, l) < o.width(l));
            assert(g.layers@[l]@[o.slot(x, l)] == o.layers@[l]@[o.slot(x, l)]);
        }
        assert forall|l: int| 0 <= l <= level implies #[trigger] g.adj(id, l) == Seq::<
            u32,
        >::empty() by {
            assert(g.slots@[id]@[l] as int == g.layers@[l]@.len() - 1);
            assert(g.layers@[l]@.last().neighbors@.len() == 0);
            assert(g.adj(id, l) =~= Seq::<u32>::empty());
        }
        // The shape.
        assert(g.height() > 0 ==> g.width(0) == g.count()) by {
            if o.height() > 0 {
                assert(g.layers@[0]@.len() == o.layers@[0]@.len() + 1);
            } else {
                assert(g.layers@[0]@.len() == 1);
            }
        }
        assert forall|x: int| 0 <= x < g.count() implies 1 <= #[trigger] g.levels(x) <= g.height()
            && g.slot(x, 0) == x by {
            if x < o.count() {
                assert(g.slots@[x] == o.slots@[x]);
                assert(1 <= o.levels(x) <= o.height());
                assert(o.slot(x, 0) == x);
            } else {
                assert(g.slots@[id]@[0] as int == g.layers@[0]@.len() - 1);
            }
        }
        assert forall|x: int, l: int| g.on_layer(x, l) implies 0 <= #[trigger] g.slot(x, l)
            < g.width(l) && g.node_id(l, g.slot(x, l)) == x by {
            if x < o.count() {
                assert(g.slots@[x] == o.slots@[x]);
                assert(o.on_layer(x, l));
                assert(0 <= o.slot(x, l) < o.width(l));
                assert(o.node_id(l, o.slot(x, l)) == x);
                assert(g.layers@[l]@[o.slot(x, l)] == o.layers@[l]@[o.slot(x, l)]);
            } else {
                assert(g.slots@[id]@[l] as int == g.layers@[l]@.len() - 1);
                assert(g.layers@[l]@.last().id == id);
            }
        }
        assert forall|l: int, p: int| 0 <= l < g.height() && 0 <= p < g.width(l) implies g.on_layer(
            #[trigger] g.node_id(l, p) as int,
            l,
        ) && g.slot(g.node_id(l, p) as int, l) == p by {
            if l < o.height() && p < o.width(l) {
                assert(g.layers@[l]@[p] == o.layers@[l]@[p]);
                let n = o.node_id(l, p) as int;
                assert(o.on_layer(n, l));
                assert(g.slots@[n] == o.slots@[n]);
            } else {
                assert(l <= level);
                assert(g.slots@[id]@[l] as int == g.layers@[l]@.len() - 1);
                assert(g.layers@[l]@.last().id == id);
                if l < o.height() {
                    assert(g.layers@[l]@.len() == o.layers@[l]@.len() + 1);
                } else {
                    assert(g.layers@[l]@.len() == 1);
                }
            }
        }
        assert(g.levels(g.entry as int) == g.height()) by {
            if o.height() > level {
                assert(g.slots@[o.entry as int] == o.slots@[o.entry as int]);
            }
        }
        assert(g.shape());
        // The lists.
        assert forall|x: int, l: int| g.on_layer(x, l) implies #[trigger] g.list_ok(x, l) by {
            if x < o.count() {
                assert(g.slots@[x] == o.slots@[x]);
                assert(o.on_layer(x, l));
                assert(o.list_ok(x, l));
                assert(g.adj(x, l) == o.adj(x, l));
                assert forall|k: int| 0 <= k < g.adj(x, l).len() implies g.linked_back(
                    x,
                    l,
                    #[trigger] g.adj(x, l)[k],
                ) by {
                    let n = o.adj(x, l)[k];
                    assert(o.linked_back(x, l, n));
                    assert(g.adj(n as int, l) == o.adj(n as int, l));
                }
            } else {
                assert(g.adj(id, l) == Seq::<u32>::empty());
            }
        }
        assert forall|x: int, l: int| g.on_layer(x, l) implies (#[trigger] g.adj(x, l)).len()
            <= g.cap(l) by {
            if x < o.count() {
                assert(g.slots@[x] == o.slots@[x]);
                assert(o.on_layer(x, l));
                assert(g.adj(x, l) == o.adj(x, l));
                assert(o.adj(x, l).len() <= o.cap(l));
            } else {
                assert(g.adj(id, l) == Seq::<u32>::empty());
            }
        }
    }
}

/// Whether `list` holds `v`.
pub fn holds(list: &Vec<u32>, v: u32) -> (found: bool)
    ensures
        found == list@.contains(v),
{
    let mut i: usize = 0;
    while i < list.len()
        invariant
            i <= list@.len(),
            forall|k: int| 0 <= k < i ==> list@[k] != v,
        decreases list@.len() - i,
    {
        if list[i] == v {
            return true;
        }
        i += 1;
    }
    false
}

/// The first position of `list` that holds `v`.
pub fn position(list: &Vec<u32>, v: u32) -> (at: Option<usize>)
    ensures
        match at {
            Some(j) => j < list@.len() && list@[j as int] == v && forall|k: int|
                0 <= k < j ==> list@[k] != v,
            None => !list@.contains(v),
        },
{
    let mut i: usize = 0;
    while i < list.len()
        invariant
            i <= list@.len(),
            forall|k: int| 0 <= k < i ==> list@[k] != v,
        decreases list@.len() - i,
    {
        if list[i] == v {
            return Some(i);
        }
        i += 1;
    }
    None
}


impl Graph {
    /// Appends `n` to the neighbours of `id` on layer `l`.
    fn push_neighbor(&mut self, l: usize, id: u32, n: u32)
        requires
            old(self).shape(),
            old(self).on_layer(id as int, l as int),
        ensures
            final(self).skeleton() == old(self).skeleton(),
            final(self).shape(),
            final(self).adj(id as int, l as int) == old(self).adj(id as int, l as int).push(n),
            forall|x: int, k: int|
                old(self).on_layer(x, k) && !(x == id && k == l) ==> #[trigger] final(self).adj(x, k)
                    == old(self).adj(x, k),
    {
        let p = self.slots[id as usize][l];
        assert(p == self.slot(id as int, l as int));
        self.layers[l][p].neighbors.push(n);
        proof {
            Self::lemma_one_list(old(self), self, l as int, id as int);
        }
    }

    /// Puts `list` in the place of the neighbours of `id` on layer `l`, and
    /// the neighbours that were there into `list`.
    fn swap_neighbors(&mut self, l: usize, id: u32, list: &mut Vec<u32>)
        requires
            old(self).shape(),
            old(self).on_layer(id as int, l as int),
        ensures
            final(self).skeleton() == old(self).skeleton(),
            final(self).shape(),
            final(self).adj(id as int, l as int) == old(list)@,
            final(list)@ == old(self).adj(id as int, l as int),
            forall|x: int, k: int|
                old(self).on_layer(x, k) && !(x == id && k == l) ==> #[trigger] final(self).adj(x, k)
                    == old(self).adj(x, k),
    {
        let p = self.slots[id as usize][l];
        assert(p == self.slot(id as int, l as int));
        std::mem::swap(list, &mut self.layers[l][p].neighbors);
        proof {
            Self::lemma_one_list(old(self), self, l as int, id as int);
        }
    }

    /// Takes the neighbour at position `j` out of the neighbours of `id` on layer `l`.
    fn remove_neighbor(&mut self, l: usize, id: u32, j: usize)
        requires
            old(self).shape(),
            old(self).on_layer(id as int, l as int),
            j < old(self).adj(id as int, l as int).len(),
        ensures
            final(self).skeleton() == old(self).skeleton(),
            final(self).shape(),
            final(self).adj(id as int, l as int) == old(self).adj(id as int, l as int).remove(
                j as int,
            ),
            forall|x: int, k: int|
                old(self).on_layer(x, k) && !(x == id && k == l) ==> #[trigger] final(self).adj(x, k)
                    == old(self).adj(x, k),
    {
        let p = self.slots[id as usize][l];
        assert(p == self.slot(id as int, l as int));
        self.layers[l][p].neighbors.remove(j);
        proof {
            Self::lemma_one_list(old(self), self, l as int, id as int);
        }
    }

    /// A graph that differs from another in one list of neighbours only
    /// has its skeleton and its other lists.
    proof fn lemma_one_list(o: &Graph, g: &Graph, l: int, id: int)
        requires
            o.shape(),
            o.on_layer(id, l),
            g.slots == o.slots,
            g.m == o.m,
            g.m0 == o.m0,
            g.entry == o.entry,
            g.layers@.len() == o.layers@.len(),
            forall|k: int| 0 <= k < o.layers@.len() && k != l ==> #[trigger] g.layers@[k] == o.layers@[k],
            g.layers@[l]@.len() == o.layers@[l]@.len(),
            forall|p: int|
                0 <= p < o.layers@[l]@.len() && p != o.slot(id, l) ==> #[trigger] g.layers@[l]@[p]
                    == o.layers@[l]@[p],
            g.layers@[l]@[o.slot(id, l)].id == o.layers@[l]@[o.slot(id, l)].id,
        ensures
            g.skeleton() == o.skeleton(),
            g.shape(),
            forall|x: int, k: int|
                o.on_layer(x, k) && !(x == id && k == l) ==> #[trigger] g.adj(x, k) == o.adj(x, k),
    {
        assert(0 <= l < o.height()) by {
            assert(o.levels(id) <= o.height());
        }
        assert(g.skeleton().1 =~~= o.skeleton().1) by {
            assert forall|k: int, p: int|
                0 <= k < o.layers@.len() && 0 <= p < o.layers@[k]@.len() implies g.layers@[k]@[p].id
                == o.layers@[k]@[p].id by {
                if k != l {
                    assert(g.layers@[k] == o.layers@[k]);
                } else if p != o.slot(id, l) {
                    assert(g.layers@[l]@[p] == o.layers@[l]@[p]);
                }
            }
            assert forall|k: int| 0 <= k < o.layers@.len() implies g.layers@[k]@.len()
                == o.layers@[k]@.len() by {
                if k != l {
                    assert(g.layers@[k] == o.layers@[k]);
                }
            }
        }
        assert(g.skeleton().0 =~~= o.skeleton().0);
        g.lemma_skeleton(o);
        assert forall|x: int, k: int| o.on_layer(x, k) && !(x == id && k == l) implies #[trigger] g.adj(
            x,
            k,
        ) == o.adj(x, k) by {
            assert(0 <= o.slot(x, k) < o.width(k));
            assert(o.levels(x) <= o.height());
            if k != l {
                assert(g.layers@[k] == o.layers@[k]);
            } else {
                assert(o.node_id(l, o.slot(x, l)) == x);
                assert(o.node_id(l, o.slot(id, l)) == id);
                assert(o.slot(x, l) != o.slot(id, l));
                assert(g.layers@[l]@[o.slot(x, l)] == o.layers@[l]@[o.slot(x, l)]);
            }
        }
    }

    /// Makes `a` and `b` neighbours of each other on layer `l`. The list of
    /// `b` may then hold one neighbour more than the layer allows.
    pub fn link(&mut self, l: usize, a: u32, b: u32)
        requires
            old(self).wf(),
            old(self).on_layer(a as int, l as int),
            old(self).on_layer(b as int, l as int),
            a != b,
            !old(self).adj(a as int, l as int).contains(b),
            old(self).adj(a as int, l as int).len() < old(self).cap(l as int),
        ensures
            final(self).loose(b as int, l as int),
            final(self).same_nodes(old(self)),
            final(self).adj(a as int, l as int) == old(self).adj(a as int, l as int).push(b),
            final(self).adj(b as int, l as int) == old(self).adj(b as int, l as int).push(a),
            forall|x: int|
                old(self).on_layer(x, l as int) && x != a && x != b ==> #[trigger] final(self).adj(
                    x,
                    l as int,
                ) == old(self).adj(x, l as int),
            final(self).same_lists_off(old(self), l as int),
            final(self).links() == linked(old(self).links(), l as int, a as int, b as int),
    {
        self.push_neighbor(l, a, b);
        let ghost mid = *self;
        proof {
            mid.lemma_skeleton(old(self));
        }
        self.push_neighbor(l, b, a);
        proof {
            self.lemma_skeleton(&mid);
            let o = old(self);
            let li = l as int;
            assert forall|x: int, k: int| o.on_layer(x, k) implies #[trigger] self.adj(x, k) == (if k
                == li && x == a {
                o.adj(x, k).push(b)
            } else if k == li && x == b {
                o.adj(x, k).push(a)
            } else {
                o.adj(x, k)
            }) by {
                assert(mid.on_layer(x, k));
                if k == li && x == b {
                } else {
                    assert(self.adj(x, k) == mid.adj(x, k));
                }
            }
            assert(!o.adj(b as int, li).contains(a)) by {
                if o.adj(b as int, li).contains(a) {
                    o.lemma_symmetric(li, b as int, a);
                }
            }
            assert forall|x: int, k: int| self.on_layer(x, k) implies #[trigger] self.list_ok(
                x,
                k,
            ) by {
                assert(o.on_layer(x, k));
                assert(o.list_ok(x, k));
                let was = o.adj(x, k);
                let now = self.adj(x, k);
                assert(now.no_duplicates());
                assert forall|i: int| 0 <= i < now.len() implies self.linked_back(
                    x,
                    k,
                    #[trigger] now[i],
                ) by {
                    let n = now[i];
                    if i < was.len() {
                        assert(was[i] == n);
                        assert(o.linked_back(x, k, was[i]));
                        let theirs = o.adj(n as int, k);
                        let j = choose|j: int| 0 <= j < theirs.len() && theirs[j] == x as u32;
                        assert(self.adj(n as int, k)[j] == x as u32);
                    } else {
                        if x == a {
                            assert(n == b);
                            assert(self.adj(b as int, k)[o.adj(b as int, k).len() as int] == a);
                        } else {
                            assert(n == a);
                            assert(self.adj(a as int, k)[o.adj(a as int, k).len() as int] == b);
                        }
                    }
                }
            }
            assert forall|x: int, k: int| self.on_layer(x, k) implies (#[trigger] self.adj(
                x,
                k,
            )).len() <= self.cap(k) + (if x == b && k == li {
                1nat
            } else {
                0nat
            }) by {
                assert(o.on_layer(x, k));
                assert(o.adj(x, k).len() <= o.cap(k));
            }
            o.lemma_links();
            self.lemma_links_equal(linked(o.links(), li, a as int, b as int));
        }
    }

    /// Puts `keep` in the place of the neighbours of `s` on layer `l`. The
    /// neighbours that `keep` leaves out lose `s` from their own lists.
    pub fn replace(&mut self, l: usize, s: u32, keep: Vec<u32>)
        requires
            old(self).loose(s as int, l as int),
            old(self).on_layer(s as int, l as int),
            keep@.no_duplicates(),
            forall|k: int| 0 <= k < keep@.len() ==> old(self).adj(s as int, l as int).contains(keep@[k]),
            keep@.len() <= old(self).cap(l as int),
        ensures
            final(self).wf(),
            final(self).same_nodes(old(self)),
            final(self).adj(s as int, l as int) == keep@,
            forall|x: int|
                old(self).on_layer(x, l as int) && x != s ==> #[trigger] final(self).adj(x, l as int)
                    == if old(self).adj(s as int, l as int).contains(x as u32) && !keep@.contains(
                    x as u32,
                ) {
                    without(old(self).adj(x, l as int), s)
                } else {
                    old(self).adj(x, l as int)
                },
            final(self).same_lists_off(old(self), l as int),
            final(self).links() == replaced(old(self).links(), l as int, s as int, keep@),
    {
        let ghost o = *old(self);
        let ghost li = l as int;
        let ghost kept = keep@;
        let ghost was = o.adj(s as int, li);
        let mut former = keep;
        self.swap_neighbors(l, s, &mut former);
        proof {
            self.lemma_skeleton(&o);
            assert(o.list_ok(s as int, li));
        }
        let mut i: usize = 0;
        while i < former.len()
            invariant
                i <= former@.len(),
                former@ == was,
                was == o.adj(s as int, li),
                li == l as int,
                o.loose(s as int, li),
                o.on_layer(s as int, li),
                was.no_duplicates(),
                self.skeleton() == o.skeleton(),
                self.shape(),
                self.adj(s as int, li) == kept,
                forall|x: int|
                    o.on_layer(x, li) && x != s ==> #[trigger] self.adj(x, li) == if was.contains(
                        x as u32,
                    ) && !kept.contains(x as u32) && was.index_of(x as u32) < i {
                        without(o.adj(x, li), s)
                    } else {
                        o.adj(x, li)
                    },
                forall|x: int, k: int|
                    o.on_layer(x, k) && k != li ==> #[trigger] self.adj(x, k) == o.adj(x, k),
            decreases former@.len() - i,
        {
            let x = former[i];
            proof {
                self.lemma_skeleton(&o);
                assert(was[i as int] == x);
                assert(was.index_of(x) == i);
                assert(o.list_ok(s as int, li));
                assert(o.linked_back(s as int, li, was[i as int]));
                assert(o.list_ok(x as int, li));
            }
            let ghost before = *self;
            if !holds(self.neighbors(s, l), x) {
                let at = position(self.neighbors(x, l), s);
                if let Some(j) = at {
                    self.remove_neighbor(l, x, j);
                    proof {
                        let theirs = o.adj(x as int, li);
                        assert(theirs.index_of(s) == j);
                        self.lemma_skeleton(&before);
                    }
                }
            }
            proof {
                assert forall|y: int| o.on_layer(y, li) && y != s implies #[trigger] self.adj(y, li)
                    == if was.contains(y as u32) && !kept.contains(y as u32) && was.index_of(
                    y as u32,
                ) < i + 1 {
                    without(o.adj(y, li), s)
                } else {
                    o.adj(y, li)
                } by {
                    assert(before.on_layer(y, li));
                    if y == x {
                    } else {
                        assert(self.adj(y, li) == before.adj(y, li));
                        if was.contains(y as u32) {
                            assert(was.index_of(y as u32) != i);
                        }
                    }
                }
                assert forall|y: int, k: int| o.on_layer(y, k) && k != li implies #[trigger] self.adj(
                    y,
                    k,
                ) == o.adj(y, k) by {
                    assert(before.on_layer(y, k));
                    assert(self.adj(y, k) == before.adj(y, k));
                }
            }
            i += 1;
        }
        proof {
            self.lemma_skeleton(&o);
            Self::lemma_replaced(&o, self, li, s, kept);
            o.lemma_links();
            self.lemma_links_equal(replaced(o.links(), li, s as int, kept));
        }
    }

    /// The graph `g` that `replace` makes of `o` is in order.
    proof fn lemma_replaced(o: &Graph, g: &Graph, l: int, s: u32, kept: Seq<u32>)
        requires
            o.loose(s as int, l),
            o.on_layer(s as int, l),
            g.shape(),
            g.same_nodes(o),
            forall|x: int, k: int| g.on_layer(x, k) == o.on_layer(x, k),
            kept.no_duplicates(),
            forall|k: int| 0 <= k < kept.len() ==> o.adj(s as int, l).contains(kept[k]),
            kept.len() <= o.cap(l),
            g.adj(s as int, l) == kept,
            forall|x: int|
                o.on_layer(x, l) && x != s ==> #[trigger] g.adj(x, l) == if o.adj(
                    s as int,
                    l,
                ).contains(x as u32) && !kept.contains(x as u32) {
                    without(o.adj(x, l), s)
                } else {
                    o.adj(x, l)
                },
            forall|x: int, k: int| o.on_layer(x, k) && k != l ==> #[trigger] g.adj(x, k) == o.adj(x, k),
        ensures
            g.wf(),
    {
        let was = o.adj(s as int, l);
        assert forall|x: int, k: int| g.on_layer(x, k) implies #[trigger] g.list_ok(x, k) by {
            assert(o.on_layer(x, k));
            assert(o.list_ok(x, k));
            let theirs = o.adj(x, k);
            let now = g.adj(x, k);
            if k != l {
                assert forall|i: int| 0 <= i < now.len() implies g.linked_back(
                    x,
                    k,
                    #[trigger] now[i],
                ) by {
                    assert(o.linked_back(x, k, theirs[i]));
                }
            } else if x == s {
                assert forall|i: int| 0 <= i < now.len() implies g.linked_back(
                    x,
                    k,
                    #[trigger] now[i],
                ) by {
                    let n = kept[i];
                    assert(was.contains(n));
                    let j = choose|j: int| 0 <= j < was.len() && was[j] == n;
                    assert(o.linked_back(s as int, l, was[j]));
                    assert(kept.contains(n));
                    assert(g.adj(n as int, l) == o.adj(n as int, l));
                }
            } else {
                lemma_without(theirs, s);
                assert(now.no_duplicates());
                assert forall|i: int| 0 <= i < now.len() implies g.linked_back(
                    x,
                    k,
                    #[trigger] now[i],
                ) by {
                    let n = now[i];
                    assert(now.contains(n));
                    assert(theirs.contains(n));
                    let j = choose|j: int| 0 <= j < theirs.len() && theirs[j] == n;
                    assert(o.linked_back(x, l, theirs[j]));
                    if n == s {
                        // `x` still lists `s`, so `x` was not left out.
                        assert(now == theirs);
                        assert(o.list_ok(s as int, l));
                        assert(was.contains(x as u32));
                        assert(kept.contains(x as u32));
                    } else {
                        assert(o.list_ok(n as int, l));
                        lemma_without(o.adj(n as int, l), s);
                    }
                }
            }
        }
        assert forall|x: int, k: int| g.on_layer(x, k) implies (#[trigger] g.adj(x, k)).len()
            <= g.cap(k) by {
            assert(o.on_layer(x, k));
            assert(o.list_ok(x, k));
            if k == l && x != s {
                lemma_without(o.adj(x, k), s);
            }
            assert(o.adj(x, k).len() <= o.cap(k) + (if x == s && k == l {
                1nat
            } else {
                0nat
            }));
        }
    }
}

} // verus!
