//! What holds of the storage across operations, stated over the contents that
//! the operations' contracts describe.
use crate::storage::VectorStorage;
use vstd::prelude::*;

verus! {

/// Law: once a vector is stored under an id, reading the id gives that vector
/// and metadata back, and no other id changes.
pub proof fn law_stored_vector_reads_back<T: Copy, M>(
    before: VectorStorage<T, M>,
    after: VectorStorage<T, M>,
    id: u64,
    vector: Seq<T>,
    metadata: Option<M>,
)
    requires
        after.contents() == before.contents().insert(id, (vector, metadata)),
    ensures
        after.is_live(id),
        after.vector_of(id) == vector,
        after.metadata_of(id) == metadata,
        forall|x: u64| x != id ==> (#[trigger] after.is_live(x) <==> before.is_live(x)),
        forall|x: u64|
            x != id && before.is_live(x) ==> #[trigger] after.vector_of(x) == before.vector_of(x)
                && after.metadata_of(x) == before.metadata_of(x),
{
    assert(after.contents().contains_key(id));
    assert(after.contents().dom().contains(id) == after.is_live(id));
    assert(after.contents()[id] == (after.vector_of(id), after.metadata_of(id)));
    assert forall|x: u64| x != id implies (#[trigger] after.is_live(x) <==> before.is_live(x)) by {
        assert(after.contents().contains_key(x) == before.contents().contains_key(x));
        assert(after.contents().dom().contains(x) == after.is_live(x));
        assert(before.contents().dom().contains(x) == before.is_live(x));
    }
    assert forall|x: u64| x != id && before.is_live(x) implies #[trigger] after.vector_of(x)
        == before.vector_of(x) && after.metadata_of(x) == before.metadata_of(x) by {
        assert(after.contents().dom().contains(x) == after.is_live(x));
        assert(before.contents().dom().contains(x) == before.is_live(x));
        assert(after.contents()[x] == before.contents()[x]);
        assert(after.contents()[x] == (after.vector_of(x), after.metadata_of(x)));
        assert(before.contents()[x] == (before.vector_of(x), before.metadata_of(x)));
    }
}

/// Law: a deleted id is no longer there, and no other id changes.
pub proof fn law_deleted_vector_is_gone<T: Copy, M>(
    before: VectorStorage<T, M>,
    after: VectorStorage<T, M>,
    id: u64,
)
    requires
        after.contents() == before.contents().remove(id),
    ensures
        !after.is_live(id),
        forall|x: u64| x != id ==> (#[trigger] after.is_live(x) <==> before.is_live(x)),
        forall|x: u64|
            x != id && before.is_live(x) ==> #[trigger] after.vector_of(x) == before.vector_of(x)
                && after.metadata_of(x) == before.metadata_of(x),
{
    assert(!after.contents().contains_key(id));
    assert(after.contents().dom().contains(id) == after.is_live(id));
    assert forall|x: u64| x != id implies (#[trigger] after.is_live(x) <==> before.is_live(x)) by {
        assert(after.contents().contains_key(x) == before.contents().contains_key(x));
        assert(after.contents().dom().contains(x) == after.is_live(x));
        assert(before.contents().dom().contains(x) == before.is_live(x));
    }
    assert forall|x: u64| x != id && before.is_live(x) implies #[trigger] after.vector_of(x)
        == before.vector_of(x) && after.metadata_of(x) == before.metadata_of(x) by {
        assert(after.contents().dom().contains(x) == after.is_live(x));
        assert(before.contents().dom().contains(x) == before.is_live(x));
        assert(after.contents()[x] == before.contents()[x]);
        assert(after.contents()[x] == (after.vector_of(x), after.metadata_of(x)));
        assert(before.contents()[x] == (before.vector_of(x), before.metadata_of(x)));
    }
}

/// Law: storing an id again after deleting it leaves the storage as if the new
/// vector had simply replaced the old one.
pub proof fn law_reinsert_after_delete<T: Copy, M>(
    start: VectorStorage<T, M>,
    deleted: VectorStorage<T, M>,
    reinserted: VectorStorage<T, M>,
    id: u64,
    vector: Seq<T>,
    metadata: Option<M>,
)
    requires
        deleted.contents() == start.contents().remove(id),
        reinserted.contents() == deleted.contents().insert(id, (vector, metadata)),
        deleted.wf(),
    ensures
        reinserted.contents() == start.contents().insert(id, (vector, metadata)),
        reinserted.contents().dom().len() == deleted.contents().dom().len() + 1,
{
    assert(reinserted.contents() =~= start.contents().insert(id, (vector, metadata)));
    assert(!deleted.contents().dom().contains(id));
    deleted.lemma_live_count();
}

/// Law: compaction keeps every live id with its vector and metadata, and the
/// number of live vectors.
pub proof fn law_compaction_keeps_vectors<T: Copy, M>(
    before: VectorStorage<T, M>,
    after: VectorStorage<T, M>,
)
    requires
        after.contents() == before.contents(),
    ensures
        forall|x: u64| #[trigger] after.is_live(x) <==> before.is_live(x),
        forall|x: u64|
            before.is_live(x) ==> #[trigger] after.vector_of(x) == before.vector_of(x)
                && after.metadata_of(x) == before.metadata_of(x),
        after.contents().dom().len() == before.contents().dom().len(),
{
    assert forall|x: u64| #[trigger] after.is_live(x) <==> before.is_live(x) by {
        assert(after.contents().contains_key(x) == before.contents().contains_key(x));
        assert(after.contents().dom().contains(x) == after.is_live(x));
        assert(before.contents().dom().contains(x) == before.is_live(x));
    }
    assert forall|x: u64| before.is_live(x) implies #[trigger] after.vector_of(x) == before.vector_of(
        x,
    ) && after.metadata_of(x) == before.metadata_of(x) by {
        assert(after.contents().dom().contains(x) == after.is_live(x));
        assert(before.contents().dom().contains(x) == before.is_live(x));
        assert(after.contents()[x] == before.contents()[x]);
        assert(after.contents()[x] == (after.vector_of(x), after.metadata_of(x)));
        assert(before.contents()[x] == (before.vector_of(x), before.metadata_of(x)));
    }
}

} // verus!
