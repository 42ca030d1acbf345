//! Renumbering the HNSW graph after the storage dropped the slots of deleted vectors.
use crate::hnsw::{layer_of, reaches_in, simple_list, HnswIndex, HnswNode};
use std::collections::HashMap;
use vstd::prelude::*;

verus! {

/// Whether node `i` is kept: its id is still stored.
pub open spec fn is_kept(nodes: Seq<HnswNode>, keys: Set<u64>, i: int) -> bool {
    keys.contains(nodes[i].id)
}

/// How many of the first `i` nodes are kept: the new position of node `i` when it is kept.
pub open spec fn kept_before(nodes: Seq<HnswNode>, keys: Set<u64>, i: int) -> nat
    decreases i,
{
    if i <= 0 {
        0
    } else {
        kept_before(nodes, keys, i - 1) + if is_kept(nodes, keys, i - 1) {
            1nat
        } else {
            0nat
        }
    }
}

/// A neighbor list with the links to dropped nodes removed and the others
/// renumbered, in their order.
pub open spec fn relinked(links: Seq<usize>, nodes: Seq<HnswNode>, keys: Set<u64>) -> Seq<usize>
    decreases links.len(),
{
    if links.len() == 0 {
        Seq::empty()
    } else {
        let rest = relinked(links.drop_last(), nodes, keys);
        let t = links.last() as int;
        if is_kept(nodes, keys, t) {
            rest.push(kept_before(nodes, keys, t) as usize)
        } else {
            rest
        }
    }
}

pub(crate) proof fn lemma_kept_before_monotone(nodes: Seq<HnswNode>, keys: Set<u64>, i: int, j: int)
    requires
        0 <= i <= j,
    ensures
        kept_before(nodes, keys, i) <= kept_before(nodes, keys, j),
        i < j && is_kept(nodes, keys, i) ==> kept_before(nodes, keys, i) < kept_before(nodes, keys, j),
        kept_before(nodes, keys, j) <= j,
    decreases j,
{
    if j > 0 {
        if i < j {
            lemma_kept_before_monotone(nodes, keys, i, j - 1);
        } else {
            lemma_kept_before_monotone(nodes, keys, 0, j - 1);
        }
    }
}

/// The links of a list whose target node is kept, in their order.
pub open spec fn kept_links(links: Seq<usize>, nodes: Seq<HnswNode>, keys: Set<u64>) -> Seq<usize> {
    links.filter(|t: usize| is_kept(nodes, keys, t as int))
}

/// Law: renumbering a neighbor list keeps one link for every link whose target
/// node is kept, leading to that target's new position, and removes only the
/// links whose target was dropped.
pub proof fn law_relinked_keeps_surviving_links(links: Seq<usize>, nodes: Seq<HnswNode>, keys: Set<u64>)
    ensures
        relinked(links, nodes, keys).len() == kept_links(links, nodes, keys).len(),
        forall|j: int|
            0 <= j < links.len() && is_kept(nodes, keys, links[j] as int) ==> relinked(links, nodes, keys).contains(
                kept_before(nodes, keys, #[trigger] links[j] as int) as usize,
            ),
    decreases links.len(),
{
    if links.len() == 0 {
        reveal(Seq::filter);
        assert(kept_links(links, nodes, keys) =~= Seq::<usize>::empty());
    } else {
        let init = links.drop_last();
        let t = links.last();
        law_relinked_keeps_surviving_links(init, nodes, keys);
        assert(init.push(t) =~= links);
        init.lemma_filter_push(t, |x: usize| is_kept(nodes, keys, x as int));
        let rest = relinked(init, nodes, keys);
        let r = relinked(links, nodes, keys);
        assert forall|j: int| 0 <= j < links.len() && is_kept(nodes, keys, links[j] as int) implies r.contains(
            kept_before(nodes, keys, #[trigger] links[j] as int) as usize,
        ) by {
            if j < init.len() {
                assert(init[j] == links[j]);
                assert(rest.contains(kept_before(nodes, keys, init[j] as int) as usize));
                let k = choose|k: int| 0 <= k < rest.len() && rest[k] == kept_before(nodes, keys, init[j] as int) as usize;
                if is_kept(nodes, keys, t as int) {
                    assert(r[k] == rest[k]);
                } else {
                    assert(r == rest);
                }
            } else {
                assert(links[j] == t);
                assert(r[rest.len() as int] == kept_before(nodes, keys, t as int) as usize);
            }
        }
    }
}

proof fn lemma_relinked_members(links: Seq<usize>, nodes: Seq<HnswNode>, keys: Set<u64>, k: int)
    requires
        0 <= k < relinked(links, nodes, keys).len(),
    ensures
        exists|j: int|
            0 <= j < links.len() && is_kept(nodes, keys, links[j] as int) && #[trigger] relinked(
                links,
                nodes,
                keys,
            )[k] == kept_before(nodes, keys, links[j] as int) as usize,
    decreases links.len(),
{
    let rest = relinked(links.drop_last(), nodes, keys);
    let t = links.last() as int;
    if k < rest.len() {
        lemma_relinked_members(links.drop_last(), nodes, keys, k);
        let j = choose|j: int|
            0 <= j < links.drop_last().len() && is_kept(nodes, keys, links.drop_last()[j] as int)
                && #[trigger] rest[k] == kept_before(nodes, keys, links.drop_last()[j] as int) as usize;
        assert(links[j] == links.drop_last()[j]);
        assert(relinked(links, nodes, keys)[k] == rest[k]);
    } else {
        assert(is_kept(nodes, keys, t));
        assert(relinked(links, nodes, keys)[k] == kept_before(nodes, keys, t) as usize);
        assert(links[links.len() - 1] == links.last());
    }
}

/// The entry point of `graph` is kept.
pub open spec fn entry_kept(graph: HnswIndex, keys: Set<u64>) -> bool {
    graph.entry_point matches Some(e) && is_kept(graph.nodes@, keys, e as int)
}

proof fn lemma_relinked_simple(links: Seq<usize>, nodes: Seq<HnswNode>, keys: Set<u64>, owner: int)
    requires
        simple_list(links, owner),
        0 <= owner <= usize::MAX,
        is_kept(nodes, keys, owner),
    ensures
        simple_list(relinked(links, nodes, keys), kept_before(nodes, keys, owner) as int),
    decreases links.len(),
{
    if links.len() > 0 {
        let init = links.drop_last();
        let t = links.last() as int;
        assert forall|a: int, b: int| 0 <= a < init.len() && 0 <= b < init.len() && a != b implies init[a] != init[b] by {
            assert(init[a] == links[a] && init[b] == links[b]);
        }
        if init.contains(owner as usize) {
            let j = choose|j: int| 0 <= j < init.len() && init[j] == owner as usize;
            assert(links[j] == owner as usize);
        }
        lemma_relinked_simple(init, nodes, keys, owner);
        let rest = relinked(init, nodes, keys);
        let kb_owner = kept_before(nodes, keys, owner);
        if is_kept(nodes, keys, t) {
            let kt = kept_before(nodes, keys, t);
            lemma_kept_before_monotone(nodes, keys, t, t);
            lemma_kept_before_monotone(nodes, keys, owner, owner);
            assert(links[links.len() - 1] == t as usize);
            assert(t != owner);
            if t < owner {
                lemma_kept_before_monotone(nodes, keys, t, owner);
            } else {
                lemma_kept_before_monotone(nodes, keys, owner, t);
            }
            assert(kt as usize != kb_owner as usize);
            if rest.contains(kt as usize) {
                let k = choose|k: int| 0 <= k < rest.len() && rest[k] == kt as usize;
                lemma_relinked_members(init, nodes, keys, k);
                let j = choose|j: int|
                    0 <= j < init.len() && is_kept(nodes, keys, init[j] as int) && #[trigger] relinked(
                        init,
                        nodes,
                        keys,
                    )[k] == kept_before(nodes, keys, init[j] as int) as usize;
                let tj = init[j] as int;
                assert(links[j] == init[j]);
                assert(tj != t);
                lemma_kept_before_monotone(nodes, keys, tj, tj);
                if tj < t {
                    lemma_kept_before_monotone(nodes, keys, tj, t);
                } else {
                    lemma_kept_before_monotone(nodes, keys, t, tj);
                }
            }
            let r = rest.push(kt as usize);
            assert(r == relinked(links, nodes, keys));
            assert forall|a: int, b: int| 0 <= a < r.len() && 0 <= b < r.len() && a != b implies r[a] != r[b] by {
                if a == rest.len() {
                    assert(rest.contains(rest[b]));
                } else if b == rest.len() {
                    assert(rest.contains(rest[a]));
                }
            }
            if r.contains(kb_owner as usize) {
                let k = choose|k: int| 0 <= k < r.len() && r[k] == kb_owner as usize;
                if k < rest.len() {
                    assert(rest.contains(rest[k]));
                }
            }
        } else {
            assert(rest == relinked(links, nodes, keys));
        }
    }
}

/// Node `p` of `after` is node `src` of `before`, its links relinked.
pub open spec fn carried(before: Seq<HnswNode>, keys: Set<u64>, after: HnswNode, src: int) -> bool {
    &&& after.id == before[src].id
    &&& after.level == before[src].level
    &&& after.neighbors@.len() == after.level + 1
    &&& forall|l: int|
        0 <= l <= after.level ==> #[trigger] after.neighbors@[l]@ == relinked(
            before[src].neighbors@[l]@,
            before,
            keys,
        )
}

impl HnswIndex {
    fn relink_list(&self, links: &Vec<usize>, positions: &Vec<Option<usize>>, Ghost(keys): Ghost<Set<u64>>) -> (r: Vec<usize>)
        requires
            positions@.len() == self.nodes@.len(),
            forall|t: int| 0 <= t < self.nodes@.len() ==> #[trigger] positions@[t] == if is_kept(self.nodes@, keys, t) {
                Some(kept_before(self.nodes@, keys, t) as usize)
            } else {
                None
            },
            forall|k: int| 0 <= k < links@.len() ==> #[trigger] links@[k] < self.nodes@.len(),
        ensures
            r@ == relinked(links@, self.nodes@, keys),
    {
        let mut out: Vec<usize> = Vec::new();
        let mut k: usize = 0;
        while k < links.len()
            invariant
                0 <= k <= links@.len(),
                positions@.len() == self.nodes@.len(),
                forall|t: int| 0 <= t < self.nodes@.len() ==> #[trigger] positions@[t] == if is_kept(self.nodes@, keys, t) {
                    Some(kept_before(self.nodes@, keys, t) as usize)
                } else {
                    None
                },
                forall|j: int| 0 <= j < links@.len() ==> #[trigger] links@[j] < self.nodes@.len(),
                out@ == relinked(links@.take(k as int), self.nodes@, keys),
            decreases links@.len() - k,
        {
            let t = links[k];
            proof {
                assert(links@.take(k + 1).drop_last() =~= links@.take(k as int));
                assert(links@.take(k + 1).last() == t);
            }
            match positions[t] {
                Some(p) => {
                    out.push(p);
                },
                None => {},
            }
            k = k + 1;
        }
        proof {
            assert(links@.take(links@.len() as int) =~= links@);
        }
        out
    }

    /// After the storage dropped the slots of deleted vectors: keeps the nodes
    /// whose id is still stored (a key of `new_index`), in their order, renumbers
    /// every link to a kept node and removes the links to dropped ones. The entry
    /// point stays when its node is kept; otherwise the first kept node of the
    /// highest level takes over, and an empty graph has none. Each kept id is
    /// indexed to the last node that carries it.
    pub fn remap_storage_indices(&mut self, new_index: &HashMap<u64, usize>)
        requires
            old(self).graph_wf(),
        ensures
            final(self).graph_wf(),
            final(self).nodes@.len() == kept_before(old(self).nodes@, new_index@.dom(), old(self).nodes@.len() as int),
            forall|i: int|
                0 <= i < old(self).nodes@.len() && is_kept(old(self).nodes@, new_index@.dom(), i) ==> carried(
                    old(self).nodes@,
                    new_index@.dom(),
                    #[trigger] final(self).nodes@[kept_before(old(self).nodes@, new_index@.dom(), i) as int],
                    i,
                ),
            entry_kept(*old(self), new_index@.dom()) ==> {
                &&& final(self).entry_point == Some(
                    kept_before(old(self).nodes@, new_index@.dom(), old(self).entry_point.unwrap() as int) as usize,
                )
                &&& final(self).max_layer == old(self).max_layer
            },
            !entry_kept(*old(self), new_index@.dom()) ==> match final(self).entry_point {
                None => final(self).nodes@.len() == 0 && final(self).max_layer == 0,
                Some(p) => forall|q: int| 0 <= q < p ==> #[trigger] final(self).nodes@[q].level < final(self).nodes@[p as int].level,
            },
            forall|id: u64| #[trigger] final(self).id_to_node_idx@.contains_key(id) <==> exists|p: int|
                0 <= p < final(self).nodes@.len() && final(self).nodes@[p].id == id,
            forall|id: u64, p: int|
                #![trigger final(self).nodes@[p].id, final(self).id_to_node_idx@[id]]
                0 <= p < final(self).nodes@.len() && final(self).nodes@[p].id == id ==> p <= final(self).id_to_node_idx@[id],
            forall|i: int, l: int, j: int|
                0 <= i < old(self).nodes@.len() && is_kept(old(self).nodes@, new_index@.dom(), i) && 0 <= l
                    <= old(self).nodes@[i].level && 0 <= j < layer_of(old(self).nodes@, i, l).len() && is_kept(
                    old(self).nodes@,
                    new_index@.dom(),
                    layer_of(old(self).nodes@, i, l)[j] as int,
                ) ==> layer_of(
                    final(self).nodes@,
                    kept_before(old(self).nodes@, new_index@.dom(), i) as int,
                    l,
                ).contains(
                    kept_before(
                        old(self).nodes@,
                        new_index@.dom(),
                        #[trigger] layer_of(old(self).nodes@, i, l)[j] as int,
                    ) as usize,
                ),
            forall|i: int, l: int|
                0 <= i < old(self).nodes@.len() && is_kept(old(self).nodes@, new_index@.dom(), i) && 0 <= l
                    <= old(self).nodes@[i].level ==> layer_of(
                    final(self).nodes@,
                    kept_before(old(self).nodes@, new_index@.dom(), i) as int,
                    l,
                ).len() == kept_links(#[trigger] layer_of(old(self).nodes@, i, l), old(self).nodes@, new_index@.dom()).len(),
            final(self).config == old(self).config,
            final(self).metric == old(self).metric,
    {
        let ghost pre = *self;
        let ghost keys = new_index@.dom();
        let n = self.nodes.len();
        let mut positions: Vec<Option<usize>> = Vec::new();
        let mut count: usize = 0;
        let mut i: usize = 0;
        while i < n
            invariant
                n == self.nodes@.len(),
                *self == pre,
                keys == new_index@.dom(),
                0 <= i <= n,
                positions@.len() == i,
                count == kept_before(self.nodes@, keys, i as int),
                forall|t: int| 0 <= t < i ==> #[trigger] positions@[t] == if is_kept(self.nodes@, keys, t) {
                    Some(kept_before(self.nodes@, keys, t) as usize)
                } else {
                    None
                },
            decreases n - i,
        {
            proof {
                lemma_kept_before_monotone(self.nodes@, keys, i as int, i as int);
            }
            if new_index.contains_key(&self.nodes[i].id) {
                positions.push(Some(count));
                count = count + 1;
            } else {
                positions.push(None);
            }
            i = i + 1;
        }
        let mut new_nodes: Vec<HnswNode> = Vec::new();
        let ghost mut src: Seq<int> = Seq::empty();
        let mut i: usize = 0;
        while i < n
            invariant
                n == self.nodes@.len(),
                *self == pre,
                pre.graph_wf(),
                keys == new_index@.dom(),
                0 <= i <= n,
                positions@.len() == n,
                forall|t: int| 0 <= t < n ==> #[trigger] positions@[t] == if is_kept(self.nodes@, keys, t) {
                    Some(kept_before(self.nodes@, keys, t) as usize)
                } else {
                    None
                },
                new_nodes@.len() == kept_before(self.nodes@, keys, i as int),
                src.len() == new_nodes@.len(),
                forall|p: int| 0 <= p < src.len() ==> {
                    &&& 0 <= #[trigger] src[p] < i
                    &&& is_kept(self.nodes@, keys, src[p])
                    &&& kept_before(self.nodes@, keys, src[p]) == p
                    &&& carried(self.nodes@, keys, new_nodes@[p], src[p])
                },
                forall|t: int| 0 <= t < i && is_kept(self.nodes@, keys, t) ==> {
                    &&& kept_before(self.nodes@, keys, t) < src.len()
                    &&& src[#[trigger] kept_before(self.nodes@, keys, t) as int] == t
                },
            decreases n - i,
        {
            if new_index.contains_key(&self.nodes[i].id) {
                let level = self.nodes[i].level;
                let layers = self.nodes[i].neighbors.len();
                proof {
                    assert(layers == level + 1);
                }
                let mut neighbors: Vec<Vec<usize>> = Vec::new();
                let mut l: usize = 0;
                while l < layers
                    invariant
                        layers == level + 1,
                        n == self.nodes@.len(),
                        *self == pre,
                        pre.graph_wf(),
                        0 <= i < n,
                        level == self.nodes@[i as int].level,
                        l <= level + 1,
                        positions@.len() == n,
                        forall|t: int| 0 <= t < n ==> #[trigger] positions@[t] == if is_kept(self.nodes@, keys, t) {
                            Some(kept_before(self.nodes@, keys, t) as usize)
                        } else {
                            None
                        },
                        neighbors@.len() == l,
                        forall|j: int| 0 <= j < l ==> (#[trigger] neighbors@[j])@ == relinked(
                            self.nodes@[i as int].neighbors@[j]@,
                            self.nodes@,
                            keys,
                        ),
                    decreases level + 1 - l,
                {
                    proof {
                        assert(self.nodes@[i as int].neighbors@.len() == level + 1);
                        assert forall|k: int| 0 <= k < layer_of(self.nodes@, i as int, l as int).len() implies #[trigger] layer_of(self.nodes@, 
                            i as int,
                            l as int,
                        )[k] < self.nodes@.len() by {
                            assert(reaches_in(self.nodes@, layer_of(self.nodes@, i as int, l as int)[k] as int, l as int));
                        }
                    }
                    let list = self.relink_list(&self.nodes[i].neighbors[l], &positions, Ghost(keys));
                    neighbors.push(list);
                    l = l + 1;
                }
                let ghost before_nodes = new_nodes@;
                new_nodes.push(HnswNode { id: self.nodes[i].id, level, neighbors });
                proof {
                    let p = before_nodes.len() as int;
                    src = src.push(i as int);
                    assert(self.nodes@[i as int].neighbors@.len() == level + 1);
                    assert(carried(self.nodes@, keys, new_nodes@[p], i as int));
                    assert forall|q: int| 0 <= q < src.len() implies {
                        &&& 0 <= #[trigger] src[q] < i + 1
                        &&& is_kept(self.nodes@, keys, src[q])
                        &&& kept_before(self.nodes@, keys, src[q]) == q
                        &&& carried(self.nodes@, keys, new_nodes@[q], src[q])
                    } by {
                        if q < p {
                            assert(new_nodes@[q] == before_nodes[q]);
                        }
                    }
                }
            }
            proof {
                assert forall|t: int| 0 <= t < i + 1 && is_kept(self.nodes@, keys, t) implies {
                    &&& kept_before(self.nodes@, keys, t) < src.len()
                    &&& src[#[trigger] kept_before(self.nodes@, keys, t) as int] == t
                } by {
                    if t == i {
                        assert(kept_before(self.nodes@, keys, t + 1) == kept_before(self.nodes@, keys, t) + 1);
                    }
                }
            }
            i = i + 1;
        }
        proof {
            assert forall|p: int, l: int, k: int|
                0 <= p < new_nodes@.len() && 0 <= l <= new_nodes@[p].level && 0 <= k < new_nodes@[p].neighbors@[l]@.len()
                    implies {
                &&& #[trigger] new_nodes@[p].neighbors@[l]@[k] < new_nodes@.len()
                &&& l <= new_nodes@[new_nodes@[p].neighbors@[l]@[k] as int].level
            } by {
                let s = src[p];
                let links = pre.nodes@[s].neighbors@[l]@;
                assert(carried(pre.nodes@, keys, new_nodes@[p], s));
                assert(new_nodes@[p].neighbors@[l]@ == relinked(links, pre.nodes@, keys));
                lemma_relinked_members(links, pre.nodes@, keys, k);
                let j = choose|j: int|
                    0 <= j < links.len() && is_kept(pre.nodes@, keys, links[j] as int) && #[trigger] relinked(
                        links,
                        pre.nodes@,
                        keys,
                    )[k] == kept_before(pre.nodes@, keys, links[j] as int) as usize;
                let t = links[j] as int;
                assert(layer_of(pre.nodes@, s, l)[j] == links[j]);
                assert(reaches_in(pre.nodes@, layer_of(pre.nodes@, s, l)[j] as int, l));
                assert(0 <= t < n);
                lemma_kept_before_monotone(pre.nodes@, keys, t, n as int);
                assert(src[kept_before(pre.nodes@, keys, t) as int] == t);
                let q = kept_before(pre.nodes@, keys, t) as int;
                assert(carried(pre.nodes@, keys, new_nodes@[q], t));
            }
        }
        self.nodes = new_nodes;
        proof {
            assert forall|p: int| 0 <= p < self.nodes@.len() implies #[trigger] self.nodes@[p].level <= pre.max_layer by {
                assert(carried(pre.nodes@, keys, self.nodes@[p], src[p]));
                assert(pre.nodes@[src[p]].level <= pre.max_layer);
            }
        }
        let mut kept_entry: Option<usize> = None;
        match self.entry_point {
            Some(e) => {
                if e < n {
                    kept_entry = positions[e];
                }
            },
            None => {},
        }
        match kept_entry {
            Some(p) => {
                proof {
                    let e = pre.entry_point.unwrap() as int;
                    lemma_kept_before_monotone(pre.nodes@, keys, e, n as int);
                    assert(src[p as int] == e);
                    assert(carried(pre.nodes@, keys, self.nodes@[p as int], e));
                }
                self.entry_point = Some(p);
            },
            None => {
                let len = self.nodes.len();
                if len == 0 {
                    self.entry_point = None;
                    self.max_layer = 0;
                } else {
                    let mut best: usize = 0;
                    let mut j: usize = 1;
                    while j < len
                        invariant
                            len == self.nodes@.len(),
                            1 <= j <= len,
                            best < j,
                            forall|q: int| 0 <= q < best ==> #[trigger] self.nodes@[q].level < self.nodes@[best as int].level,
                            forall|q: int| 0 <= q < j ==> #[trigger] self.nodes@[q].level <= self.nodes@[best as int].level,
                        decreases len - j,
                    {
                        if self.nodes[j].level > self.nodes[best].level {
                            best = j;
                        }
                        j = j + 1;
                    }
                    self.entry_point = Some(best);
                    self.max_layer = self.nodes[best].level;
                }
            },
        }
        let mut index: HashMap<u64, usize> = HashMap::new();
        let len = self.nodes.len();
        let mut p: usize = 0;
        while p < len
            invariant
                len == self.nodes@.len(),
                0 <= p <= len,
                forall|id: u64| #[trigger] index@.contains_key(id) ==> index@[id] < p && self.nodes@[index@[id] as int].id == id,
                forall|id: u64| #[trigger] index@.contains_key(id) <==> exists|q: int| 0 <= q < p && self.nodes@[q].id == id,
                forall|id: u64, q: int|
                    #![trigger self.nodes@[q].id, index@[id]]
                    0 <= q < p && self.nodes@[q].id == id ==> q <= index@[id],
            decreases len - p,
        {
            let id = self.nodes[p].id;
            index.insert(id, p);
            proof {
                assert forall|id2: u64| #[trigger] index@.contains_key(id2) <==> exists|q: int| 0 <= q < p + 1 && self.nodes@[q].id == id2 by {
                    if index@.contains_key(id2) && id2 != id {
                        let q = choose|q: int| 0 <= q < p && self.nodes@[q].id == id2;
                        assert(0 <= q < p + 1 && self.nodes@[q].id == id2);
                    }
                    if id2 == id {
                        assert(self.nodes@[p as int].id == id2);
                    }
                }
            }
            p = p + 1;
        }
        self.id_to_node_idx = index;
        proof {
            let fin = *self;
            assert forall|i: int| 0 <= i < fin.nodes@.len() implies #[trigger] fin.nodes@[i].neighbors@.len()
                == fin.nodes@[i].level + 1 by {
                assert(carried(pre.nodes@, keys, fin.nodes@[i], src[i]));
            }
            assert forall|i: int| 0 <= i < fin.nodes@.len() implies #[trigger] fin.nodes@[i].level <= fin.max_layer by {
                if kept_entry is Some {
                    assert(fin.nodes@[i].level <= pre.max_layer);
                }
            }
            assert forall|i: int, l: int, k: int|
                0 <= i < fin.nodes@.len() && 0 <= l <= fin.nodes@[i].level && 0 <= k < layer_of(fin.nodes@, i, l).len()
                    implies reaches_in(fin.nodes@, #[trigger] layer_of(fin.nodes@, i, l)[k] as int, l) by {
                assert(layer_of(fin.nodes@, i, l)[k] == fin.nodes@[i].neighbors@[l]@[k]);
            }
            assert forall|i: int, l: int| 0 <= i < fin.nodes@.len() && 0 <= l <= fin.nodes@[i].level implies simple_list(
                #[trigger] layer_of(fin.nodes@, i, l),
                i,
            ) by {
                let sp = src[i];
                assert(carried(pre.nodes@, keys, fin.nodes@[i], sp));
                assert(simple_list(layer_of(pre.nodes@, sp, l), sp));
                assert(sp < pre.nodes@.len());
                lemma_relinked_simple(layer_of(pre.nodes@, sp, l), pre.nodes@, keys, sp);
            }
            assert forall|i: int, l: int, j: int|
                0 <= i < pre.nodes@.len() && is_kept(pre.nodes@, keys, i) && 0 <= l <= pre.nodes@[i].level && 0 <= j
                    < layer_of(pre.nodes@, i, l).len() && is_kept(pre.nodes@, keys, layer_of(pre.nodes@, i, l)[j] as int)
                    implies layer_of(fin.nodes@, kept_before(pre.nodes@, keys, i) as int, l).contains(
                kept_before(pre.nodes@, keys, #[trigger] layer_of(pre.nodes@, i, l)[j] as int) as usize,
            ) by {
                let q = kept_before(pre.nodes@, keys, i) as int;
                assert(src[q] == i);
                assert(carried(pre.nodes@, keys, fin.nodes@[q], i));
                law_relinked_keeps_surviving_links(layer_of(pre.nodes@, i, l), pre.nodes@, keys);
                assert(layer_of(pre.nodes@, i, l)[j] == layer_of(pre.nodes@, i, l)[j]);
            }
            assert forall|i: int, l: int|
                0 <= i < pre.nodes@.len() && is_kept(pre.nodes@, keys, i) && 0 <= l <= pre.nodes@[i].level implies layer_of(
                fin.nodes@,
                kept_before(pre.nodes@, keys, i) as int,
                l,
            ).len() == kept_links(#[trigger] layer_of(pre.nodes@, i, l), pre.nodes@, keys).len() by {
                let q = kept_before(pre.nodes@, keys, i) as int;
                assert(src[q] == i);
                assert(carried(pre.nodes@, keys, fin.nodes@[q], i));
                law_relinked_keeps_surviving_links(layer_of(pre.nodes@, i, l), pre.nodes@, keys);
            }
            assert forall|i: int|
                0 <= i < pre.nodes@.len() && is_kept(pre.nodes@, keys, i) implies carried(
                    pre.nodes@,
                    keys,
                    #[trigger] fin.nodes@[kept_before(pre.nodes@, keys, i) as int],
                    i,
                ) by {
                let q = kept_before(pre.nodes@, keys, i) as int;
                assert(src[q] == i);
            }
        }
    }
}

} // verus!
