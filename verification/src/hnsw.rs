//! Configuration and graph layout of the HNSW index.
use crate::distance::MetricType;
use std::collections::HashMap;
use vstd::prelude::*;

verus! {

/// Parameters of an HNSW graph. The level multiplier `1 / ln(m)` that drives the
/// random choice of a node's level is derived from `m` where levels are drawn.
#[derive(Debug, Clone, Copy, PartialEq, Eq, Structural)]
pub struct HnswConfig {
    /// Neighbors kept per node on the upper layers.
    pub m: usize,
    /// Neighbors kept per node on the bottom layer.
    pub m_max0: usize,
    pub ef_construction: usize,
    pub ef_search: usize,
    pub extend_candidates: bool,
    pub keep_pruned_connections: bool,
}

/// The configuration the library uses unless told otherwise.
pub open spec fn default_config() -> HnswConfig {
    HnswConfig {
        m: 16,
        m_max0: 32,
        ef_construction: 100,
        ef_search: 100,
        extend_candidates: false,
        keep_pruned_connections: true,
    }
}

impl HnswConfig {
    /// A configuration with `m` neighbors per upper-layer node and twice as many on
    /// the bottom layer.
    pub fn new(m: usize, ef_construction: usize, ef_search: usize) -> (r: Self)
        requires
            2 * m <= usize::MAX,
        ensures
            r == (HnswConfig {
                m,
                m_max0: (2 * m) as usize,
                ef_construction,
                ef_search,
                extend_candidates: false,
                keep_pruned_connections: true,
            }),
    {
        HnswConfig {
            m,
            m_max0: m * 2,
            ef_construction,
            ef_search,
            extend_candidates: false,
            keep_pruned_connections: true,
        }
    }
}

impl Default for HnswConfig {
    fn default() -> (r: Self)
        ensures
            r == default_config(),
    {
        HnswConfig {
            m: 16,
            m_max0: 32,
            ef_construction: 100,
            ef_search: 100,
            extend_candidates: false,
            keep_pruned_connections: true,
        }
    }
}

/// A node of the graph: the vector id and, for each layer up to its level, the
/// indices of its neighbor nodes.
#[derive(Debug, Clone)]
pub struct HnswNode {
    pub id: u64,
    pub level: usize,
    pub neighbors: Vec<Vec<usize>>,
}

/// A single-threaded HNSW graph over the slots of a vector storage.
#[derive(Debug, Clone)]
pub struct HnswIndex {
    pub config: HnswConfig,
    pub metric: MetricType,
    pub nodes: Vec<HnswNode>,
    pub id_to_node_idx: HashMap<u64, usize>,
    pub entry_point: Option<usize>,
    pub max_layer: usize,
}

impl HnswIndex {
    /// An empty graph.
    pub fn new(config: HnswConfig, metric: MetricType) -> (r: Self)
        ensures
            r.config == config,
            r.metric == metric,
            r.nodes@ == Seq::<HnswNode>::empty(),
            r.id_to_node_idx@ == Map::<u64, usize>::empty(),
            r.entry_point is None,
            r.max_layer == 0,
            r.graph_wf(),
    {
        HnswIndex {
            config,
            metric,
            nodes: Vec::new(),
            id_to_node_idx: HashMap::new(),
            entry_point: None,
            max_layer: 0,
        }
    }

    /// The number of nodes, deleted vectors included.
    pub fn len(&self) -> (r: usize)
        ensures
            r == self.nodes@.len(),
    {
        self.nodes.len()
    }

    pub fn is_empty(&self) -> (r: bool)
        ensures
            r == (self.nodes@.len() == 0),
    {
        self.nodes.len() == 0
    }
}

/// The neighbors of node `i` of `nodes` on layer `l`.
pub open spec fn layer_of(nodes: Seq<HnswNode>, i: int, l: int) -> Seq<usize> {
    nodes[i].neighbors@[l]@
}

/// Node `to` of `nodes` exists and reaches layer `l`.
pub open spec fn reaches_in(nodes: Seq<HnswNode>, to: int, l: int) -> bool {
    0 <= to < nodes.len() && l <= nodes[to].level
}

/// A neighbor list of node `owner` that names no node twice and not `owner` itself.
pub open spec fn simple_list(list: Seq<usize>, owner: int) -> bool {
    list.no_duplicates() && !list.contains(owner as usize)
}

/// A sound graph layout: each node has one neighbor list per layer up to its
/// level, every link leads to a node that reaches the link's layer, no list
/// names a node twice or the node it belongs to, no node is above the top layer,
/// and the entry point is a node of the top layer and there is one exactly when
/// there are nodes.
pub open spec fn layout_wf(nodes: Seq<HnswNode>, entry_point: Option<usize>, max_layer: usize) -> bool {
    &&& forall|i: int| 0 <= i < nodes.len() ==> #[trigger] nodes[i].neighbors@.len() == nodes[i].level + 1
    &&& forall|i: int| 0 <= i < nodes.len() ==> #[trigger] nodes[i].level <= max_layer
    &&& forall|i: int, l: int, k: int|
        0 <= i < nodes.len() && 0 <= l <= nodes[i].level && 0 <= k < layer_of(nodes, i, l).len()
            ==> reaches_in(nodes, #[trigger] layer_of(nodes, i, l)[k] as int, l)
    &&& forall|i: int, l: int|
        0 <= i < nodes.len() && 0 <= l <= nodes[i].level ==> simple_list(#[trigger] layer_of(nodes, i, l), i)
    &&& (entry_point is None <==> nodes.len() == 0)
    &&& entry_point matches Some(e) ==> e < nodes.len() && nodes[e as int].level == max_layer
}

impl HnswIndex {
    /// The neighbors of node `i` on layer `l`.
    pub open spec fn layer(&self, i: int, l: int) -> Seq<usize> {
        layer_of(self.nodes@, i, l)
    }

    /// Whether node `to` can be linked to on layer `l`: it exists and reaches that layer.
    pub open spec fn reaches(&self, to: int, l: int) -> bool {
        reaches_in(self.nodes@, to, l)
    }

    /// Graph integrity: the layout is sound and each indexed id leads to its node.
    pub open spec fn graph_wf(&self) -> bool {
        &&& layout_wf(self.nodes@, self.entry_point, self.max_layer)
        &&& forall|id: u64| #[trigger]
            self.id_to_node_idx@.contains_key(id) ==> self.id_to_node_idx@[id] < self.nodes@.len()
                && self.nodes@[self.id_to_node_idx@[id] as int].id == id
    }

    /// Whether node `to` can be linked to on layer `layer`.
    pub fn reaches_layer(&self, to: usize, layer: usize) -> (r: bool)
        ensures
            r == self.reaches(to as int, layer as int),
    {
        to < self.nodes.len() && layer <= self.nodes[to].level
    }

    /// Adds `to` to the neighbors of `from` on layer `layer`.
    pub fn link(&mut self, from: usize, to: usize, layer: usize)
        requires
            old(self).graph_wf(),
            old(self).reaches(from as int, layer as int),
            old(self).reaches(to as int, layer as int),
            from != to,
            !old(self).layer(from as int, layer as int).contains(to),
        ensures
            final(self).graph_wf(),
            final(self).nodes@.len() == old(self).nodes@.len(),
            final(self).layer(from as int, layer as int) == old(self).layer(from as int, layer as int).push(to),
            forall|i: int| 0 <= i < final(self).nodes@.len() ==> {
                &&& #[trigger] final(self).nodes@[i].id == old(self).nodes@[i].id
                &&& final(self).nodes@[i].level == old(self).nodes@[i].level
            },
            forall|i: int, l: int|
                0 <= i < final(self).nodes@.len() && 0 <= l <= final(self).nodes@[i].level && !(i == from && l == layer)
                    ==> #[trigger] final(self).layer(i, l) == old(self).layer(i, l),
            final(self).entry_point == old(self).entry_point,
            final(self).max_layer == old(self).max_layer,
            final(self).id_to_node_idx@ == old(self).id_to_node_idx@,
            final(self).config == old(self).config,
            final(self).metric == old(self).metric,
    {
        let ghost pre = *self;
        self.nodes[from].neighbors[layer].push(to);
        proof {
            assert forall|i: int, l: int, k: int|
                0 <= i < self.nodes@.len() && 0 <= l <= self.nodes@[i].level && 0 <= k < layer_of(self.nodes@, 
                    i,
                    l,
                ).len() implies reaches_in(self.nodes@, #[trigger] layer_of(self.nodes@, i, l)[k] as int, l) by {
                if i == from && l == layer && k == layer_of(pre.nodes@, i, l).len() {
                    assert(layer_of(self.nodes@, i, l)[k] == to);
                } else {
                    assert(layer_of(self.nodes@, i, l)[k] == layer_of(pre.nodes@, i, l)[k]);
                    assert(reaches_in(pre.nodes@, layer_of(pre.nodes@, i, l)[k] as int, l));
                }
            }
            assert forall|id: u64| #[trigger] self.id_to_node_idx@.contains_key(id) implies self.id_to_node_idx@[id]
                < self.nodes@.len() && self.nodes@[self.id_to_node_idx@[id] as int].id == id by {
                assert(pre.id_to_node_idx@.contains_key(id));
            }
            assert forall|i: int, l: int| 0 <= i < self.nodes@.len() && 0 <= l <= self.nodes@[i].level implies simple_list(
                #[trigger] layer_of(self.nodes@, i, l),
                i,
            ) by {
                if i == from && l == layer {
                    let old_list = layer_of(pre.nodes@, i, l);
                    assert(simple_list(old_list, i));
                    assert(layer_of(self.nodes@, i, l) == old_list.push(to));
                    assert forall|a: int, b: int|
                        0 <= a < old_list.len() + 1 && 0 <= b < old_list.len() + 1 && a != b implies old_list.push(
                            to,
                        )[a] != old_list.push(to)[b] by {
                        if a == old_list.len() {
                            assert(old_list.contains(old_list[b]));
                        } else if b == old_list.len() {
                            assert(old_list.contains(old_list[a]));
                        }
                    }
                    if old_list.push(to).contains(from) {
                        let k = choose|k: int| 0 <= k < old_list.len() + 1 && old_list.push(to)[k] == from;
                        if k < old_list.len() {
                            assert(old_list.contains(old_list[k]));
                        }
                    }
                } else {
                    assert(layer_of(self.nodes@, i, l) == layer_of(pre.nodes@, i, l));
                }
            }
        }
    }

    /// Whether `to` can be added to the neighbors of `from` on layer `layer`:
    /// both reach the layer, they differ, and `from` does not link to `to` there yet.
    pub fn can_link(&self, from: usize, to: usize, layer: usize) -> (r: bool)
        requires
            self.graph_wf(),
        ensures
            r == (self.reaches(from as int, layer as int) && self.reaches(to as int, layer as int) && from != to
                && !self.layer(from as int, layer as int).contains(to)),
    {
        if from == to || !self.reaches_layer(from, layer) || !self.reaches_layer(to, layer) {
            return false;
        }
        let list = &self.nodes[from].neighbors[layer];
        let mut k: usize = 0;
        while k < list.len()
            invariant
                list@ == self.layer(from as int, layer as int),
                0 <= k <= list@.len(),
                forall|j: int| 0 <= j < k ==> list@[j] != to,
            decreases list@.len() - k,
        {
            if list[k] == to {
                proof {
                    assert(list@ == self.layer(from as int, layer as int));
                    assert(list@[k as int] == to);
                }
                return false;
            }
            k = k + 1;
        }
        proof {
            assert(list@ == self.layer(from as int, layer as int));
        }
        true
    }

    /// Whether `list` can replace the neighbors of `node` on layer `layer`: every
    /// entry reaches the layer, none repeats, and none is `node` itself.
    pub fn valid_neighbors(&self, node: usize, list: &Vec<usize>, layer: usize) -> (r: bool)
        ensures
            r == ((forall|k: int| 0 <= k < list@.len() ==> self.reaches(#[trigger] list@[k] as int, layer as int))
                && simple_list(list@, node as int)),
    {
        let n = list.len();
        let mut k: usize = 0;
        while k < n
            invariant
                n == list@.len(),
                0 <= k <= n,
                forall|j: int| 0 <= j < k ==> self.reaches(#[trigger] list@[j] as int, layer as int),
                forall|j: int| 0 <= j < k ==> #[trigger] list@[j] != node,
                forall|a: int, b: int| 0 <= a < k && 0 <= b < n && a != b ==> list@[a] != list@[b],
            decreases n - k,
        {
            if !self.reaches_layer(list[k], layer) || list[k] == node {
                return false;
            }
            let mut j: usize = 0;
            while j < n
                invariant
                    n == list@.len(),
                    0 <= k < n,
                    0 <= j <= n,
                    forall|b: int| 0 <= b < j && b != k ==> list@[k as int] != list@[b],
                decreases n - j,
            {
                if j != k && list[j] == list[k] {
                    proof {
                        assert(!list@.no_duplicates());
                    }
                    return false;
                }
                j = j + 1;
            }
            k = k + 1;
        }
        true
    }

    /// Whether every node of `list` can be linked to on layer `layer`.
    pub fn all_reach(&self, list: &Vec<usize>, layer: usize) -> (r: bool)
        ensures
            r == forall|k: int| 0 <= k < list@.len() ==> self.reaches(#[trigger] list@[k] as int, layer as int),
    {
        let mut k: usize = 0;
        while k < list.len()
            invariant
                0 <= k <= list@.len(),
                forall|j: int| 0 <= j < k ==> self.reaches(#[trigger] list@[j] as int, layer as int),
            decreases list@.len() - k,
        {
            if !self.reaches_layer(list[k], layer) {
                return false;
            }
            k = k + 1;
        }
        true
    }

    /// Replaces the neighbors of `node` on layer `layer` by `list`.
    pub fn set_neighbors(&mut self, node: usize, layer: usize, list: Vec<usize>)
        requires
            old(self).graph_wf(),
            old(self).reaches(node as int, layer as int),
            forall|k: int| 0 <= k < list@.len() ==> old(self).reaches(#[trigger] list@[k] as int, layer as int),
            simple_list(list@, node as int),
        ensures
            final(self).graph_wf(),
            final(self).nodes@.len() == old(self).nodes@.len(),
            final(self).layer(node as int, layer as int) == list@,
            forall|i: int| 0 <= i < final(self).nodes@.len() ==> {
                &&& #[trigger] final(self).nodes@[i].id == old(self).nodes@[i].id
                &&& final(self).nodes@[i].level == old(self).nodes@[i].level
            },
            forall|i: int, l: int|
                0 <= i < final(self).nodes@.len() && 0 <= l <= final(self).nodes@[i].level && !(i == node && l == layer)
                    ==> #[trigger] final(self).layer(i, l) == old(self).layer(i, l),
            final(self).entry_point == old(self).entry_point,
            final(self).max_layer == old(self).max_layer,
            final(self).id_to_node_idx@ == old(self).id_to_node_idx@,
            final(self).config == old(self).config,
            final(self).metric == old(self).metric,
    {
        let ghost pre = *self;
        let ghost given = list@;
        self.nodes[node].neighbors[layer] = list;
        proof {
            assert forall|i: int, l: int, k: int|
                0 <= i < self.nodes@.len() && 0 <= l <= self.nodes@[i].level && 0 <= k < layer_of(self.nodes@, 
                    i,
                    l,
                ).len() implies reaches_in(self.nodes@, #[trigger] layer_of(self.nodes@, i, l)[k] as int, l) by {
                if i == node && l == layer {
                    assert(layer_of(self.nodes@, i, l)[k] == given[k]);
                } else {
                    assert(layer_of(self.nodes@, i, l)[k] == layer_of(pre.nodes@, i, l)[k]);
                    assert(reaches_in(pre.nodes@, layer_of(pre.nodes@, i, l)[k] as int, l));
                }
            }
            assert forall|i: int, l: int| 0 <= i < self.nodes@.len() && 0 <= l <= self.nodes@[i].level implies simple_list(
                #[trigger] layer_of(self.nodes@, i, l),
                i,
            ) by {
                if !(i == node && l == layer) {
                    assert(layer_of(self.nodes@, i, l) == layer_of(pre.nodes@, i, l));
                }
            }
            assert forall|id: u64| #[trigger] self.id_to_node_idx@.contains_key(id) implies self.id_to_node_idx@[id]
                < self.nodes@.len() && self.nodes@[self.id_to_node_idx@[id] as int].id == id by {
                assert(pre.id_to_node_idx@.contains_key(id));
            }
        }
    }

    /// Adds a node for `id` on levels `0..=level`, with no links yet, and indexes
    /// `id` to it. The node becomes the entry point when it is the first one or
    /// reaches above the top layer.
    pub fn add_node(&mut self, id: u64, level: usize) -> (q: usize)
        requires
            old(self).graph_wf(),
            level < usize::MAX,
            old(self).nodes@.len() < usize::MAX,
        ensures
            final(self).graph_wf(),
            q == old(self).nodes@.len(),
            final(self).nodes@.len() == q + 1,
            forall|i: int| 0 <= i < q ==> #[trigger] final(self).nodes@[i] == old(self).nodes@[i],
            final(self).nodes@[q as int].id == id,
            final(self).nodes@[q as int].level == level,
            forall|l: int| 0 <= l <= level ==> #[trigger] final(self).layer(q as int, l).len() == 0,
            final(self).id_to_node_idx@ == old(self).id_to_node_idx@.insert(id, q),
            if old(self).entry_point is None || level > old(self).max_layer {
                final(self).entry_point == Some(q) && final(self).max_layer == level
            } else {
                final(self).entry_point == old(self).entry_point && final(self).max_layer == old(
                    self,
                ).max_layer
            },
            final(self).config == old(self).config,
            final(self).metric == old(self).metric,
    {
        let ghost pre = *self;
        let mut neighbors: Vec<Vec<usize>> = Vec::new();
        let mut l: usize = 0;
        while l <= level
            invariant
                l <= level + 1,
                level < usize::MAX,
                neighbors@.len() == l,
                forall|j: int| 0 <= j < l ==> (#[trigger] neighbors@[j])@.len() == 0,
            decreases level + 1 - l,
        {
            neighbors.push(Vec::new());
            l = l + 1;
        }
        let q = self.nodes.len();
        self.nodes.push(HnswNode { id, level, neighbors });
        self.id_to_node_idx.insert(id, q);
        if self.entry_point.is_none() || level > self.max_layer {
            self.entry_point = Some(q);
            self.max_layer = level;
        }
        proof {
            assert forall|i: int| 0 <= i < q implies #[trigger] self.nodes@[i] == pre.nodes@[i] by {}
            assert forall|i: int| 0 <= i < self.nodes@.len() implies #[trigger] self.nodes@[i].level <= self.max_layer by {
                if i < q {
                    assert(pre.nodes@[i].level <= pre.max_layer);
                }
            }
            assert forall|i: int, l: int, k: int|
                0 <= i < self.nodes@.len() && 0 <= l <= self.nodes@[i].level && 0 <= k < layer_of(self.nodes@, 
                    i,
                    l,
                ).len() implies reaches_in(self.nodes@, #[trigger] layer_of(self.nodes@, i, l)[k] as int, l) by {
                if i < q {
                    assert(layer_of(self.nodes@, i, l) == layer_of(pre.nodes@, i, l));
                    assert(reaches_in(pre.nodes@, layer_of(pre.nodes@, i, l)[k] as int, l));
                } else {
                    assert(layer_of(self.nodes@, i, l).len() == 0);
                }
            }
            assert forall|id2: u64| #[trigger] self.id_to_node_idx@.contains_key(id2) implies self.id_to_node_idx@[id2]
                < self.nodes@.len() && self.nodes@[self.id_to_node_idx@[id2] as int].id == id2 by {
                if id2 != id {
                    assert(pre.id_to_node_idx@.contains_key(id2));
                }
            }
            if let Some(e) = pre.entry_point {
                assert(pre.nodes@[e as int].level == pre.max_layer);
            }
            assert forall|i: int, l: int| 0 <= i < self.nodes@.len() && 0 <= l <= self.nodes@[i].level implies simple_list(
                #[trigger] layer_of(self.nodes@, i, l),
                i,
            ) by {
                if i < q {
                    assert(layer_of(self.nodes@, i, l) == layer_of(pre.nodes@, i, l));
                } else {
                    assert(layer_of(self.nodes@, i, l).len() == 0);
                    assert(layer_of(self.nodes@, i, l) =~= Seq::<usize>::empty());
                }
            }
        }
        q
    }

    /// Rebuilds a graph from its parts, indexing each id to the last node that
    /// carries it. Answers `None` when the parts break graph integrity.
    pub fn from_parts(
        config: HnswConfig,
        metric: MetricType,
        nodes: Vec<HnswNode>,
        entry_point: Option<usize>,
        max_layer: usize,
    ) -> (r: Option<Self>)
        ensures
            r is Some <==> layout_wf(nodes@, entry_point, max_layer),
            r matches Some(g) ==> {
                &&& g.graph_wf()
                &&& g.config == config
                &&& g.metric == metric
                &&& g.nodes@ == nodes@
                &&& g.entry_point == entry_point
                &&& g.max_layer == max_layer
                &&& forall|id: u64| #[trigger] g.id_to_node_idx@.contains_key(id) <==> exists|p: int|
                    0 <= p < nodes@.len() && nodes@[p].id == id
            },
    {
        let n = nodes.len();
        let mut i: usize = 0;
        while i < n
            invariant
                n == nodes@.len(),
                0 <= i <= n,
                                forall|j: int| 0 <= j < i ==> #[trigger] nodes@[j].neighbors@.len() == nodes@[j].level + 1,
                forall|j: int| 0 <= j < i ==> #[trigger] nodes@[j].level <= max_layer,
                forall|j: int, l: int, k: int|
                    0 <= j < i && 0 <= l <= nodes@[j].level && 0 <= k < layer_of(nodes@, j, l).len()
                        ==> reaches_in(nodes@, #[trigger] layer_of(nodes@, j, l)[k] as int, l),
                forall|j: int, l: int|
                    0 <= j < i && 0 <= l <= nodes@[j].level ==> simple_list(#[trigger] layer_of(nodes@, j, l), j),
            decreases n - i,
        {
            let level = nodes[i].level;
            let layers = nodes[i].neighbors.len();
            if level >= layers || layers - level != 1 || level > max_layer {
                proof {
                    assert(!layout_wf(nodes@, entry_point, max_layer)) by {
                        assert(nodes@[i as int].neighbors@.len() == layers);
                    }
                }
                return None;
            }
            let mut l: usize = 0;
            while l < layers
                invariant
                    n == nodes@.len(),
                    0 <= i < n,
                                        level == nodes@[i as int].level,
                    layers == level + 1,
                    layers == nodes@[i as int].neighbors@.len(),
                    0 <= l <= layers,
                    forall|ll: int, k: int|
                        0 <= ll < l && 0 <= k < layer_of(nodes@, i as int, ll).len() ==> reaches_in(nodes@, 
                            #[trigger] layer_of(nodes@, i as int, ll)[k] as int,
                            ll,
                        ),
                    forall|ll: int| 0 <= ll < l ==> simple_list(#[trigger] layer_of(nodes@, i as int, ll), i as int),
                decreases layers - l,
            {
                let list = &nodes[i].neighbors[l];
                let len = list.len();
                let mut k: usize = 0;
                while k < len
                    invariant
                        n == nodes@.len(),
                        0 <= i < n,
                                                0 <= l < layers,
                        layers == nodes@[i as int].neighbors@.len(),
                        list@ == layer_of(nodes@, i as int, l as int),
                        len == list@.len(),
                        0 <= k <= len,
                        forall|kk: int| 0 <= kk < k ==> reaches_in(nodes@, #[trigger] list@[kk] as int, l as int),
                        forall|kk: int| 0 <= kk < k ==> #[trigger] list@[kk] != i,
                        forall|a: int, b: int| 0 <= a < k && 0 <= b < k && a != b ==> list@[a] != list@[b],
                    decreases len - k,
                {
                    let t = list[k];
                    if t >= n || nodes[t].level < l || t == i {
                        proof {
                            assert(!layout_wf(nodes@, entry_point, max_layer)) by {
                                assert(layer_of(nodes@, i as int, l as int)[k as int] == t);
                                if t == i {
                                    assert(layer_of(nodes@, i as int, l as int).contains(i));
                                }
                            }
                        }
                        return None;
                    }
                    let mut j: usize = 0;
                    while j < k
                        invariant
                            n == nodes@.len(),
                            0 <= i < n,
                            0 <= l < layers,
                            layers == nodes@[i as int].neighbors@.len(),
                            list@ == layer_of(nodes@, i as int, l as int),
                            0 <= k < len,
                            len == list@.len(),
                            t == list@[k as int],
                            0 <= j <= k,
                            forall|b: int| 0 <= b < j ==> list@[b] != t,
                        decreases k - j,
                    {
                        if list[j] == t {
                            proof {
                                assert(!layout_wf(nodes@, entry_point, max_layer)) by {
                                    assert(list@[j as int] == list@[k as int]);
                                    assert(j != k);
                                    assert(!layer_of(nodes@, i as int, l as int).no_duplicates());
                                    if layout_wf(nodes@, entry_point, max_layer) {
                                        assert(nodes@[i as int].neighbors@.len() == nodes@[i as int].level + 1);
                                        assert(simple_list(layer_of(nodes@, i as int, l as int), i as int));
                                    }
                                }
                            }
                            return None;
                        }
                        j = j + 1;
                    }
                    k = k + 1;
                }
                proof {
                    assert(simple_list(layer_of(nodes@, i as int, l as int), i as int));
                }
                l = l + 1;
            }
            i = i + 1;
        }
        match entry_point {
            None => {
                if n != 0 {
                    return None;
                }
            },
            Some(e) => {
                if e >= n || nodes[e].level != max_layer {
                    return None;
                }
            },
        }
        let mut index: HashMap<u64, usize> = HashMap::new();
        let mut p: usize = 0;
        while p < n
            invariant
                n == nodes@.len(),
                0 <= p <= n,
                forall|id: u64| #[trigger] index@.contains_key(id) ==> index@[id] < p && nodes@[index@[id] as int].id == id,
                forall|id: u64| #[trigger] index@.contains_key(id) <==> exists|q: int| 0 <= q < p && nodes@[q].id == id,
            decreases n - p,
        {
            let id = nodes[p].id;
            index.insert(id, p);
            proof {
                assert forall|id2: u64| #[trigger] index@.contains_key(id2) <==> exists|q: int| 0 <= q < p + 1 && nodes@[q].id == id2 by {
                    if index@.contains_key(id2) && id2 != id {
                        let q = choose|q: int| 0 <= q < p && nodes@[q].id == id2;
                        assert(0 <= q < p + 1 && nodes@[q].id == id2);
                    }
                    if id2 == id {
                        assert(nodes@[p as int].id == id2);
                    }
                }
            }
            p = p + 1;
        }
        let g = HnswIndex { config, metric, nodes, id_to_node_idx: index, entry_point, max_layer };
        proof {
            assert forall|i: int, l: int, k: int|
                0 <= i < g.nodes@.len() && 0 <= l <= g.nodes@[i].level && 0 <= k < g.layer(i, l).len()
                    implies g.reaches(#[trigger] g.layer(i, l)[k] as int, l) by {
                assert(layer_of(nodes@, i, l) == g.layer(i, l));
                assert(reaches_in(nodes@, layer_of(nodes@, i, l)[k] as int, l));
            }
        }
        Some(g)
    }
}

/// The selected neighbors topped up from the candidates the diversity test
/// discarded, in their order, skipping any already selected, until `m` are
/// selected or the discarded ones run out.
pub open spec fn topped_up(selected: Seq<usize>, discarded: Seq<usize>, m: nat) -> Seq<usize>
    decreases discarded.len(),
{
    if discarded.len() == 0 || selected.len() >= m {
        selected
    } else {
        let d = discarded[0];
        let next = if selected.contains(d) {
            selected
        } else {
            selected.push(d)
        };
        topped_up(next, discarded.drop_first(), m)
    }
}

proof fn lemma_topped_up_facts(selected: Seq<usize>, discarded: Seq<usize>, m: nat)
    ensures
        topped_up(selected, discarded, m).len() <= if selected.len() >= m {
            selected.len()
        } else {
            m
        },
        selected.no_duplicates() ==> topped_up(selected, discarded, m).no_duplicates(),
        selected.is_prefix_of(topped_up(selected, discarded, m)),
        forall|x: usize| #[trigger] topped_up(selected, discarded, m).contains(x) ==> selected.contains(x)
            || discarded.contains(x),
    decreases discarded.len(),
{
    if discarded.len() == 0 || selected.len() >= m {
    } else {
        let d = discarded[0];
        let next = if selected.contains(d) {
            selected
        } else {
            selected.push(d)
        };
        lemma_topped_up_facts(next, discarded.drop_first(), m);
        let r = topped_up(next, discarded.drop_first(), m);
        assert(r == topped_up(selected, discarded, m));
        if selected.no_duplicates() && !selected.contains(d) {
            assert forall|a: int, b: int| 0 <= a < next.len() && 0 <= b < next.len() && a != b implies next[a]
                != next[b] by {
                if a == selected.len() as int {
                    assert(next[b] == selected[b]);
                } else if b == selected.len() as int {
                    assert(next[a] == selected[a]);
                }
            }
        }
        assert forall|x: usize| #[trigger] r.contains(x) implies selected.contains(x) || discarded.contains(x) by {
            if next.contains(x) && !selected.contains(x) {
                assert(x == d);
                assert(discarded[0] == x);
            }
            if discarded.drop_first().contains(x) {
                let j = choose|j: int| 0 <= j < discarded.drop_first().len() && discarded.drop_first()[j] == x;
                assert(discarded[j + 1] == x);
            }
        }
        assert(selected.is_prefix_of(next));
    }
}

/// The discarded candidates that are not already selected.
pub open spec fn fresh_candidates(selected: Seq<usize>, discarded: Seq<usize>) -> Set<usize> {
    discarded.to_set().difference(selected.to_set())
}

/// Law: topping up stops only at `m` or when the discarded candidates run out.
/// A list that already has `m` neighbors stays as it is; a shorter one grows by
/// every distinct discarded candidate it lacks, up to `m` neighbors in all.
pub proof fn law_topping_up_stops_at_m_or_when_candidates_run_out(
    selected: Seq<usize>,
    discarded: Seq<usize>,
    m: nat,
)
    ensures
        fresh_candidates(selected, discarded).finite(),
        selected.len() >= m ==> topped_up(selected, discarded, m) == selected,
        selected.len() < m ==> topped_up(selected, discarded, m).len() == if selected.len()
            + fresh_candidates(selected, discarded).len() < m {
            selected.len() + fresh_candidates(selected, discarded).len()
        } else {
            m
        },
    decreases discarded.len(),
{
    broadcast use vstd::seq_lib::seq_to_set_is_finite;
    broadcast use vstd::set::group_set_axioms;

    let fresh = fresh_candidates(selected, discarded);
    assert(fresh.finite()) by {
        vstd::set_lib::lemma_set_subset_finite(discarded.to_set(), fresh);
    }
    if discarded.len() == 0 {
        assert(fresh =~= Set::<usize>::empty());
    } else if selected.len() >= m {
    } else {
        let d = discarded[0];
        let rest = discarded.drop_first();
        assert(discarded.to_set() =~= rest.to_set().insert(d)) by {
            assert forall|x: usize| discarded.to_set().contains(x) <==> rest.to_set().insert(d).contains(x) by {
                if discarded.contains(x) && x != d {
                    let j = choose|j: int| 0 <= j < discarded.len() && discarded[j] == x;
                    assert(rest[j - 1] == x);
                }
                if rest.contains(x) {
                    let j = choose|j: int| 0 <= j < rest.len() && rest[j] == x;
                    assert(discarded[j + 1] == x);
                }
                if x == d {
                    assert(discarded[0] == x);
                }
            }
        }
        if selected.contains(d) {
            assert(fresh =~= fresh_candidates(selected, rest));
            law_topping_up_stops_at_m_or_when_candidates_run_out(selected, rest, m);
        } else {
            let next = selected.push(d);
            assert(next.to_set() =~= selected.to_set().insert(d)) by {
                assert forall|x: usize| next.to_set().contains(x) <==> selected.to_set().insert(d).contains(x) by {
                    if next.contains(x) && x != d {
                        let j = choose|j: int| 0 <= j < next.len() && next[j] == x;
                        assert(selected[j] == x);
                    }
                    if selected.contains(x) {
                        let j = choose|j: int| 0 <= j < selected.len() && selected[j] == x;
                        assert(next[j] == x);
                    }
                    if x == d {
                        assert(next[selected.len() as int] == x);
                    }
                }
            }
            assert(fresh.contains(d));
            assert(fresh_candidates(next, rest) =~= fresh.remove(d));
            law_topping_up_stops_at_m_or_when_candidates_run_out(next, rest, m);
            assert(topped_up(selected, discarded, m) == topped_up(next, rest, m));
        }
    }
}

/// Tops the selected neighbors up from the discarded candidates, as the
/// neighbor-selection heuristic does when it keeps pruned connections.
pub fn keep_pruned(selected: Vec<usize>, discarded: &[usize], m: usize) -> (r: Vec<usize>)
    ensures
        r@ == topped_up(selected@, discarded@, m as nat),
        r@.len() <= if selected@.len() >= m {
            selected@.len()
        } else {
            m as nat
        },
        selected@.no_duplicates() ==> r@.no_duplicates(),
        selected@.is_prefix_of(r@),
        forall|x: usize| #[trigger] r@.contains(x) ==> selected@.contains(x) || discarded@.contains(x),
        selected@.len() >= m ==> r@ == selected@,
        selected@.len() < m ==> r@.len() == if selected@.len() + fresh_candidates(selected@, discarded@).len()
            < m {
            selected@.len() + fresh_candidates(selected@, discarded@).len()
        } else {
            m as nat
        },
{
    proof {
        lemma_topped_up_facts(selected@, discarded@, m as nat);
        law_topping_up_stops_at_m_or_when_candidates_run_out(selected@, discarded@, m as nat);
    }
    let ghost original = selected@;
    let mut result = selected;
    let mut i: usize = 0;
    proof {
        assert(discarded@.skip(0) =~= discarded@);
    }
    while i < discarded.len()
        invariant
            0 <= i <= discarded@.len(),
            topped_up(result@, discarded@.skip(i as int), m as nat) == topped_up(
                original,
                discarded@,
                m as nat,
            ),
        ensures
            result@ == topped_up(original, discarded@, m as nat),
        decreases discarded@.len() - i,
    {
        if result.len() >= m {
            break;
        }
        let d = discarded[i];
        proof {
            assert(discarded@.skip(i as int)[0] == d);
            assert(discarded@.skip(i as int).drop_first() =~= discarded@.skip(i + 1));
        }
        let mut seen = false;
        let mut j: usize = 0;
        while j < result.len()
            invariant
                0 <= j <= result@.len(),
                seen == result@.take(j as int).contains(d),
            decreases result@.len() - j,
        {
            proof {
                let before = result@.take(j as int);
                let after = result@.take(j + 1);
                assert(after =~= before.push(result@[j as int]));
                if result@[j as int] == d {
                    assert(after[j as int] == d);
                } else if after.contains(d) {
                    let k = choose|k: int| 0 <= k < after.len() && after[k] == d;
                    assert(k < j);
                    assert(before[k] == d);
                }
            }
            if result[j] == d {
                seen = true;
            }
            j = j + 1;
        }
        proof {
            assert(result@.take(result@.len() as int) =~= result@);
        }
        if !seen {
            result.push(d);
        }
        i = i + 1;
    }
    result
}

} // verus!
