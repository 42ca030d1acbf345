//! What compacting a collection keeps of the match between its storage and its graph.
use crate::hnsw::HnswIndex;
use crate::hnsw_remap::{carried, is_kept, kept_before};
use crate::storage::VectorStorage;
use vstd::prelude::*;

verus! {

/// Node `i` of the graph holds the vector in slot `i` of the storage, for every slot.
pub open spec fn aligned<T: Copy, M>(graph: HnswIndex, storage: VectorStorage<T, M>) -> bool {
    &&& graph.nodes@.len() == storage.slots().len()
    &&& forall|i: int| 0 <= i < graph.nodes@.len() ==> #[trigger] graph.nodes@[i].id == storage.slots()[i]
}

proof fn lemma_kept_prefix<T: Copy, M>(
    graph: HnswIndex,
    storage: VectorStorage<T, M>,
    keys: Set<u64>,
    i: int,
)
    requires
        aligned(graph, storage),
        0 <= i <= storage.slots().len(),
        forall|x: u64| #[trigger] keys.contains(x) == storage.is_live(x),
    ensures
        storage.slots().take(i).filter(|x: u64| storage.is_live(x)).len() == kept_before(graph.nodes@, keys, i),
        forall|j: int|
            0 <= j < i && is_kept(graph.nodes@, keys, j) ==> storage.slots().take(i).filter(
                |x: u64| storage.is_live(x),
            )[kept_before(graph.nodes@, keys, j) as int] == #[trigger] storage.slots()[j],
    decreases i,
{
    let live = |x: u64| storage.is_live(x);
    let s = storage.slots();
    if i == 0 {
        reveal(Seq::filter);
        assert(s.take(0) =~= Seq::<u64>::empty());
        assert(Seq::<u64>::empty().filter(live) =~= Seq::<u64>::empty());
    } else {
        lemma_kept_prefix(graph, storage, keys, i - 1);
        let prev = s.take(i - 1);
        assert(s.take(i) =~= prev.push(s[i - 1]));
        prev.lemma_filter_push(s[i - 1], live);
        assert(graph.nodes@[i - 1].id == s[i - 1]);
        assert(is_kept(graph.nodes@, keys, i - 1) == live(s[i - 1]));
        assert forall|j: int| 0 <= j < i && is_kept(graph.nodes@, keys, j) implies s.take(i).filter(live)[kept_before(
            graph.nodes@,
            keys,
            j,
        ) as int] == #[trigger] s[j] by {
            if j < i - 1 {
                crate::hnsw_remap::lemma_kept_before_monotone(graph.nodes@, keys, j, i - 1);
                assert(s.take(i).filter(live)[kept_before(graph.nodes@, keys, j) as int] == prev.filter(
                    live,
                )[kept_before(graph.nodes@, keys, j) as int]);
            }
        }
    }
}

proof fn lemma_every_position_has_a_source(nodes: Seq<crate::hnsw::HnswNode>, keys: Set<u64>, n: int, p: int)
    requires
        0 <= n,
        0 <= p < kept_before(nodes, keys, n),
    ensures
        exists|i: int| 0 <= i < n && is_kept(nodes, keys, i) && #[trigger] kept_before(nodes, keys, i) == p,
    decreases n,
{
    if p < kept_before(nodes, keys, n - 1) {
        lemma_every_position_has_a_source(nodes, keys, n - 1, p);
        let i = choose|i: int| 0 <= i < n - 1 && is_kept(nodes, keys, i) && #[trigger] kept_before(nodes, keys, i) == p;
        assert(0 <= i < n && is_kept(nodes, keys, i) && kept_before(nodes, keys, i) == p);
    } else {
        assert(is_kept(nodes, keys, n - 1));
        assert(kept_before(nodes, keys, n - 1) == p);
    }
}

/// Law: compaction keeps the graph in step with the storage. When node `i` of the
/// graph holds the vector in slot `i` before the storage is compacted, then after
/// the graph is renumbered with the new slots the compaction reports, node `p`
/// holds the vector in new slot `p`, and no node is left over.
pub proof fn law_compaction_keeps_graph_aligned<T: Copy, M>(
    storage_before: VectorStorage<T, M>,
    storage_after: VectorStorage<T, M>,
    new_slots: Map<u64, usize>,
    graph_before: HnswIndex,
    graph_after: HnswIndex,
)
    requires
        aligned(graph_before, storage_before),
        storage_after.contents() == storage_before.contents(),
        storage_after.slots() == storage_before.slots().filter(|x: u64| storage_before.is_live(x)),
        forall|x: u64| #[trigger] new_slots.contains_key(x) == storage_after.is_live(x),
        graph_after.nodes@.len() == kept_before(graph_before.nodes@, new_slots.dom(), graph_before.nodes@.len() as int),
        forall|i: int|
            0 <= i < graph_before.nodes@.len() && is_kept(graph_before.nodes@, new_slots.dom(), i) ==> carried(
                graph_before.nodes@,
                new_slots.dom(),
                #[trigger] graph_after.nodes@[kept_before(graph_before.nodes@, new_slots.dom(), i) as int],
                i,
            ),
    ensures
        aligned(graph_after, storage_after),
{
    let keys = new_slots.dom();
    let n = graph_before.nodes@.len() as int;
    let s = storage_before.slots();
    let live = |x: u64| storage_before.is_live(x);
    assert forall|x: u64| #[trigger] keys.contains(x) == storage_before.is_live(x) by {
        assert(new_slots.contains_key(x) == storage_after.is_live(x));
        assert(storage_after.contents().contains_key(x) == storage_before.contents().contains_key(x));
        assert(storage_after.contents().dom().contains(x) == storage_after.is_live(x));
        assert(storage_before.contents().dom().contains(x) == storage_before.is_live(x));
    }
    lemma_kept_prefix(graph_before, storage_before, keys, n);
    assert(s.take(n) =~= s);
    assert forall|p: int| 0 <= p < graph_after.nodes@.len() implies #[trigger] graph_after.nodes@[p].id
        == storage_after.slots()[p] by {
        lemma_every_position_has_a_source(graph_before.nodes@, keys, n, p);
        let i = choose|i: int| 0 <= i < n && is_kept(graph_before.nodes@, keys, i) && #[trigger] kept_before(
            graph_before.nodes@,
            keys,
            i,
        ) == p;
        assert(carried(graph_before.nodes@, keys, graph_after.nodes@[p], i));
        assert(s.filter(live)[p] == s[i]);
        assert(graph_before.nodes@[i].id == s[i]);
    }
}

} // verus!
