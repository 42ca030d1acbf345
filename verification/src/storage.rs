//! Flat vector storage: vectors of one dimension laid out back to back, addressed
//! by slot, with ids mapped to slots, tombstones for deleted ids and optional
//! metadata per id.
//!
//! The storage is generic over the component type `T` of a vector and the
//! metadata type `M`; it never looks inside either.
use crate::error::VectorDbError;
use std::collections::{HashMap, HashSet};
use vstd::prelude::*;
use vstd::slice::slice_subrange;

verus! {

broadcast use vstd::std_specs::hash::group_hash_axioms;

/// Slot `i` occupies components `i * dim .. (i + 1) * dim` of the data.
#[derive(Debug)]
#[verifier::reject_recursive_types(M)]
pub struct VectorStorage<T, M> {
    dim: usize,
    data: Vec<T>,
    id_to_idx: HashMap<u64, usize>,
    idx_to_id: Vec<u64>,
    metadata_store: HashMap<u64, M>,
    deleted: HashSet<u64>,
}

proof fn lemma_slot_bounds(i: int, n: int, dim: int)
    requires
        0 <= i < n,
        0 <= dim,
    ensures
        0 <= i * dim,
        i * dim + dim <= n * dim,
{
    assert(0 <= i * dim) by (nonlinear_arith)
        requires
            0 <= i,
            0 <= dim,
    ;
    assert(i * dim + dim <= n * dim) by (nonlinear_arith)
        requires
            i + 1 <= n,
            0 <= dim,
    ;
}

proof fn lemma_slots_apart(i: int, j: int, dim: int)
    requires
        0 <= i < j,
        0 <= dim,
    ensures
        i * dim + dim <= j * dim,
{
    assert(i * dim + dim <= j * dim) by (nonlinear_arith)
        requires
            i + 1 <= j,
            0 <= dim,
    ;
}

proof fn lemma_next_slot(n: int, dim: int)
    ensures
        (n + 1) * dim == n * dim + dim,
{
    assert((n + 1) * dim == n * dim + dim) by (nonlinear_arith);
}

fn overwrite_at<T: Copy>(data: &mut Vec<T>, start: usize, src: &[T])
    requires
        start + src@.len() <= old(data)@.len(),
    ensures
        final(data)@ == old(data)@.subrange(0, start as int) + src@ + old(data)@.subrange(
            start + src@.len(),
            old(data)@.len() as int,
        ),
{
    let ghost pre = data@;
    let total = data.len();
    let mut k: usize = 0;
    while k < src.len()
        invariant
            0 <= k <= src@.len(),
            total == pre.len(),
            start + src@.len() <= pre.len(),
            data@.len() == pre.len(),
            forall|p: int|
                0 <= p < pre.len() && (p < start || p >= start + src@.len()) ==> #[trigger] data@[p]
                    == pre[p],
            forall|q: int| 0 <= q < k ==> #[trigger] data@[start + q] == src@[q],
        decreases src@.len() - k,
    {
        data.set(start + k, src[k]);
        k = k + 1;
    }
    assert forall|p: int| start <= p < start + src@.len() implies data@[p] == src@[p - start] by {
        assert(data@[start + (p - start)] == src@[p - start]);
    }
    assert(data@ =~= pre.subrange(0, start as int) + src@ + pre.subrange(
        start + src@.len(),
        pre.len() as int,
    ));
}

fn append_all<T: Copy>(data: &mut Vec<T>, src: &[T])
    ensures
        final(data)@ == old(data)@ + src@,
{
    let mut k: usize = 0;
    while k < src.len()
        invariant
            0 <= k <= src@.len(),
            data@ == old(data)@ + src@.subrange(0, k as int),
        decreases src@.len() - k,
    {
        data.push(src[k]);
        k = k + 1;
        assert(data@ =~= old(data)@ + src@.subrange(0, k as int));
    }
    assert(src@.subrange(0, src@.len() as int) =~= src@);
}

/// The parts describe a storage: the data holds one vector per slot, slots hold
/// distinct ids, deleted ids hold slots, and metadata belongs to live ids.
pub open spec fn parts_consistent(
    dim: nat,
    data_len: nat,
    ids: Seq<u64>,
    deleted: Seq<u64>,
    meta_keys: Seq<u64>,
) -> bool {
    &&& data_len == ids.len() * dim
    &&& ids.no_duplicates()
    &&& forall|k: int| 0 <= k < deleted.len() ==> ids.contains(#[trigger] deleted[k])
    &&& forall|k: int|
        0 <= k < meta_keys.len() ==> ids.contains(#[trigger] meta_keys[k]) && !deleted.contains(
            meta_keys[k],
        )
}

pub open spec fn pair_keys<M>(pairs: Seq<(u64, M)>) -> Seq<u64> {
    pairs.map_values(|p: (u64, M)| p.0)
}

/// The map a list of key/value pairs describes; a later pair for a key wins.
pub open spec fn pairs_to_map<M>(pairs: Seq<(u64, M)>) -> Map<u64, M>
    decreases pairs.len(),
{
    if pairs.len() == 0 {
        Map::empty()
    } else {
        pairs_to_map(pairs.drop_last()).insert(pairs.last().0, pairs.last().1)
    }
}

proof fn lemma_pairs_to_map_keys<M>(pairs: Seq<(u64, M)>)
    ensures
        forall|x: u64| #[trigger] pairs_to_map(pairs).contains_key(x) ==> exists|k: int|
            0 <= k < pairs.len() && pairs[k].0 == x,
    decreases pairs.len(),
{
    if pairs.len() > 0 {
        lemma_pairs_to_map_keys(pairs.drop_last());
        assert forall|x: u64| #[trigger] pairs_to_map(pairs).contains_key(x) implies exists|k: int|
            0 <= k < pairs.len() && pairs[k].0 == x by {
            if x != pairs.last().0 {
                assert(pairs_to_map(pairs.drop_last()).contains_key(x));
                let k = choose|k: int| 0 <= k < pairs.drop_last().len() && pairs.drop_last()[k].0 == x;
                assert(pairs[k].0 == x);
            } else {
                assert(pairs[pairs.len() - 1].0 == x);
            }
        }
    }
}

impl<T: Copy, M> VectorStorage<T, M> {
    /// The dimension every stored vector has.
    pub closed spec fn dimension(&self) -> nat {
        self.dim as nat
    }

    /// The id held by each slot, in slot order (deleted ids keep their slot).
    pub closed spec fn slots(&self) -> Seq<u64> {
        self.idx_to_id@
    }

    /// The slot an id was given, if it was ever stored.
    pub closed spec fn index_of(&self, id: u64) -> Option<nat> {
        if self.id_to_idx@.contains_key(id) {
            Some(self.id_to_idx@[id] as nat)
        } else {
            None
        }
    }

    /// The ids that are deleted but still hold their slot.
    pub closed spec fn tombstones(&self) -> Set<u64> {
        self.deleted@
    }

    /// The components stored in slot `i`.
    pub closed spec fn slot_vector(&self, i: int) -> Seq<T> {
        self.data@.subrange(i * self.dim, i * self.dim + self.dim)
    }

    /// Every stored component, slot after slot.
    pub closed spec fn flat_data(&self) -> Seq<T> {
        self.data@
    }

    /// The metadata kept per id.
    pub closed spec fn metadata(&self) -> Map<u64, M> {
        self.metadata_store@
    }

    /// The id is stored and not deleted.
    pub open spec fn is_live(&self, id: u64) -> bool {
        &&& self.index_of(id) is Some
        &&& !self.tombstones().contains(id)
    }

    /// The vector stored for an id.
    pub open spec fn vector_of(&self, id: u64) -> Seq<T> {
        self.slot_vector(self.index_of(id).unwrap() as int)
    }

    pub open spec fn metadata_of(&self, id: u64) -> Option<M> {
        if self.metadata().contains_key(id) {
            Some(self.metadata()[id])
        } else {
            None
        }
    }

    /// What the storage holds: each live id with its vector and metadata.
    pub open spec fn contents(&self) -> Map<u64, (Seq<T>, Option<M>)> {
        Map::new(|id: u64| self.is_live(id), |id: u64| (self.vector_of(id), self.metadata_of(id)))
    }

    pub closed spec fn wf(&self) -> bool {
        &&& self.data@.len() == self.idx_to_id@.len() * self.dim
        &&& self.idx_to_id@.no_duplicates()
        &&& forall|id: u64| #[trigger]
            self.id_to_idx@.contains_key(id) <==> self.idx_to_id@.contains(id)
        &&& forall|i: int|
            0 <= i < self.idx_to_id@.len() ==> #[trigger] self.id_to_idx@[self.idx_to_id@[i]] == i
        &&& forall|id: u64| #[trigger] self.deleted@.contains(id) ==> self.id_to_idx@.contains_key(id)
        &&& forall|id: u64| #[trigger]
            self.metadata_store@.contains_key(id) ==> self.id_to_idx@.contains_key(id)
                && !self.deleted@.contains(id)
        &&& self.deleted@.finite()
        &&& self.deleted@.len() <= self.idx_to_id@.len()
    }

    /// The shape of a well-formed storage: slots hold distinct ids, each stored id
    /// knows its slot, tombstones and metadata belong to stored ids, and the data
    /// holds exactly one vector per slot.
    pub proof fn lemma_wf_facts(&self)
        requires
            self.wf(),
        ensures
            self.flat_data().len() == self.slots().len() * self.dimension(),
            self.slots().no_duplicates(),
            forall|id: u64| #[trigger] self.index_of(id) is Some <==> self.slots().contains(id),
            forall|i: int|
                0 <= i < self.slots().len() ==> #[trigger] self.index_of(self.slots()[i]) == Some(
                    i as nat,
                ),
            forall|id: u64| #[trigger]
                self.index_of(id) is Some ==> self.index_of(id).unwrap() < self.slots().len(),
            forall|id: u64| #[trigger] self.tombstones().contains(id) ==> self.index_of(id) is Some,
            forall|id: u64| #[trigger] self.metadata().contains_key(id) ==> self.is_live(id),
            forall|i: int|
                0 <= i < self.slots().len() ==> #[trigger] self.slot_vector(i).len()
                    == self.dimension(),
            self.tombstones().len() <= self.slots().len(),
    {
        assert forall|id: u64| #[trigger] self.index_of(id) is Some implies self.index_of(id).unwrap()
            < self.slots().len() by {
            assert(self.idx_to_id@.contains(id));
            let i = choose|i: int| 0 <= i < self.idx_to_id@.len() && self.idx_to_id@[i] == id;
            assert(self.id_to_idx@[self.idx_to_id@[i]] == i);
        }
        assert forall|i: int| 0 <= i < self.slots().len() implies #[trigger] self.slot_vector(i).len()
            == self.dimension() by {
            lemma_slot_bounds(i, self.idx_to_id@.len() as int, self.dim as int);
        }
        assert forall|i: int| 0 <= i < self.slots().len() implies #[trigger] self.index_of(
            self.slots()[i],
        ) == Some(i as nat) by {
            assert(self.idx_to_id@.contains(self.idx_to_id@[i]));
        }
    }

    /// The live ids are the stored ids less the tombstones, so there are as many
    /// as slots minus tombstones.
    pub proof fn lemma_live_count(&self)
        requires
            self.wf(),
        ensures
            self.contents().dom().finite(),
            self.contents().dom().len() == self.slots().len() - self.tombstones().len(),
    {
        self.lemma_wf_facts();
        let all = self.idx_to_id@.to_set();
        let tomb = self.deleted@;
        let live = self.contents().dom();
        self.idx_to_id@.unique_seq_to_set();
        assert(live =~= all.difference(tomb)) by {
            assert forall|x: u64| live.contains(x) <==> all.difference(tomb).contains(x) by {
                if all.contains(x) {
                    assert(self.idx_to_id@.contains(x));
                }
            }
        }
        assert(tomb.subset_of(all)) by {
            assert forall|x: u64| tomb.contains(x) implies all.contains(x) by {
                assert(self.idx_to_id@.contains(x));
            }
        }
        vstd::set_lib::lemma_set_subset_finite(all, live);
        assert(all =~= live + tomb);
        vstd::set_lib::lemma_set_disjoint_lens(live, tomb);
    }

    /// An empty storage for vectors of `dim` components.
    pub fn new(dim: usize) -> (r: Self)
        ensures
            r.wf(),
            r.dimension() == dim,
            r.slots() == Seq::<u64>::empty(),
            r.tombstones() == Set::<u64>::empty(),
            r.metadata() == Map::<u64, M>::empty(),
            r.contents() == Map::<u64, (Seq<T>, Option<M>)>::empty(),
    {
        let r = VectorStorage {
            dim,
            data: Vec::new(),
            id_to_idx: HashMap::new(),
            idx_to_id: Vec::new(),
            metadata_store: HashMap::new(),
            deleted: HashSet::new(),
        };
        assert(r.contents() =~= Map::<u64, (Seq<T>, Option<M>)>::empty());
        r
    }

    pub fn dim(&self) -> (r: usize)
        ensures
            r == self.dimension(),
    {
        self.dim
    }

    /// How many ids are stored and not deleted.
    pub fn len(&self) -> (r: usize)
        requires
            self.wf(),
        ensures
            r == self.contents().dom().len(),
    {
        proof {
            self.lemma_live_count();
        }
        self.idx_to_id.len() - self.deleted.len()
    }

    pub fn is_empty(&self) -> (r: bool)
        requires
            self.wf(),
        ensures
            r == (self.contents().dom().len() == 0),
    {
        self.len() == 0
    }

    /// Stores `vector` under `id`. A deleted id gets its old slot back; a new id
    /// gets a new slot at the end. The metadata replaces any earlier metadata.
    pub fn insert(&mut self, id: u64, vector: &[T], metadata: Option<M>) -> (r: Result<
        (),
        VectorDbError,
    >)
        requires
            old(self).wf(),
        ensures
            final(self).wf(),
            final(self).dimension() == old(self).dimension(),
            vector@.len() != old(self).dimension() ==> {
                &&& r matches Err(VectorDbError::DimensionMismatch { expected, actual })
                &&& expected == old(self).dimension()
                &&& actual == vector@.len()
                &&& *final(self) == *old(self)
            },
            vector@.len() == old(self).dimension() && old(self).is_live(id) ==> {
                &&& r matches Err(VectorDbError::DuplicateId(dup))
                &&& dup == id
                &&& *final(self) == *old(self)
            },
            vector@.len() == old(self).dimension() && !old(self).is_live(id) ==> {
                &&& r is Ok
                &&& final(self).contents() == old(self).contents().insert(id, (vector@, metadata))
                &&& final(self).slots() == if old(self).index_of(id) is Some {
                    old(self).slots()
                } else {
                    old(self).slots().push(id)
                }
                &&& final(self).index_of(id) == if old(self).index_of(id) is Some {
                    old(self).index_of(id)
                } else {
                    Some(old(self).slots().len())
                }
                &&& final(self).tombstones() == old(self).tombstones().remove(id)
            },
    {
        if vector.len() != self.dim {
            return Err(VectorDbError::DimensionMismatch { expected: self.dim, actual: vector.len() });
        }
        let known = self.id_to_idx.contains_key(&id);
        if known && !self.deleted.contains(&id) {
            return Err(VectorDbError::DuplicateId(id));
        }
        let ghost pre = *self;
        let dim = self.dim;
        let n = self.idx_to_id.len();
        let ghost mut slot: int = n as int;
        if self.deleted.remove(&id) {
            let idx = *self.id_to_idx.get(&id).unwrap();
            proof {
                slot = idx as int;
            }
            proof {
                pre.lemma_wf_facts();
                lemma_slot_bounds(idx as int, n as int, dim as int);
            }
            let total = self.data.len();
            let start = idx * dim;
            overwrite_at(&mut self.data, start, vector);
            proof {
                assert(self.data@.subrange(start as int, start + dim) =~= vector@);
                assert forall|j: int| 0 <= j < n && j != idx implies #[trigger] self.slot_vector(j)
                    == pre.slot_vector(j) by {
                    if j < idx {
                        lemma_slots_apart(j, idx as int, dim as int);
                    } else {
                        lemma_slots_apart(idx as int, j, dim as int);
                    }
                    lemma_slot_bounds(j, n as int, dim as int);
                    assert(self.slot_vector(j) =~= pre.slot_vector(j));
                }
                assert(self.slot_vector(slot) =~= vector@);
            }
        } else {
            proof {
                pre.lemma_wf_facts();
                lemma_next_slot(n as int, dim as int);
            }
            self.id_to_idx.insert(id, n);
            self.idx_to_id.push(id);
            append_all(&mut self.data, vector);
            proof {
                assert(self.data@.subrange(n * dim, n * dim + dim) =~= vector@);
                assert(self.slot_vector(slot) =~= vector@);
                assert forall|j: int| 0 <= j < n implies #[trigger] self.slot_vector(j)
                    == pre.slot_vector(j) by {
                    lemma_slot_bounds(j, n as int, dim as int);
                    assert(self.slot_vector(j) =~= pre.slot_vector(j));
                }
                assert(self.idx_to_id@ == pre.idx_to_id@.push(id));
                assert forall|i: int| 0 <= i < self.idx_to_id@.len() implies #[trigger]
                    self.id_to_idx@[self.idx_to_id@[i]] == i by {
                    if i < n {
                        assert(self.idx_to_id@[i] == pre.idx_to_id@[i]);
                        assert(pre.idx_to_id@.contains(pre.idx_to_id@[i]));
                    }
                }
                assert forall|x: u64| #[trigger] self.id_to_idx@.contains_key(x)
                    <==> self.idx_to_id@.contains(x) by {
                    if x == id {
                        assert(self.idx_to_id@[n as int] == id);
                    } else {
                        if self.idx_to_id@.contains(x) {
                            let i = choose|i: int| 0 <= i < self.idx_to_id@.len() && self.idx_to_id@[i] == x;
                            assert(i < n);
                            assert(pre.idx_to_id@[i] == x);
                            assert(pre.idx_to_id@.contains(x));
                        }
                        if pre.idx_to_id@.contains(x) {
                            let i = choose|i: int| 0 <= i < pre.idx_to_id@.len() && pre.idx_to_id@[i] == x;
                            assert(self.idx_to_id@[i] == x);
                        }
                    }
                }
            }
        }
        let ghost mid = *self;
        match metadata {
            Some(m) => {
                self.metadata_store.insert(id, m);
            },
            None => {
                self.metadata_store.remove(&id);
            },
        }
        proof {
            assert(self.data@ == mid.data@);
            assert(self.deleted@ =~= pre.deleted@.remove(id));
            if pre.deleted@.contains(id) {
                vstd::set_lib::lemma_set_subset_finite(pre.deleted@, self.deleted@);
                assert(self.deleted@.len() < pre.deleted@.len());
            }
            self.lemma_wf_facts();
            pre.lemma_wf_facts();
            assert(self.index_of(id) == Some(slot as nat));
            assert(self.slot_vector(slot) =~= mid.slot_vector(slot));
            let nc = self.contents();
            let oc = pre.contents().insert(id, (vector@, metadata));
            assert forall|x: u64| nc.contains_key(x) == oc.contains_key(x) by {
                if x != id {
                    assert(self.index_of(x) == pre.index_of(x));
                }
            }
            assert forall|x: u64| nc.contains_key(x) implies nc[x] == oc[x] by {
                if x != id {
                    let j = pre.index_of(x).unwrap() as int;
                    assert(pre.slots()[j] == x);
                    assert(j != slot) by {
                        if j == slot {
                            assert(self.slots()[slot] == id);
                            assert(self.slots()[j] == pre.slots()[j]);
                        }
                    }
                    assert(mid.slot_vector(j) == pre.slot_vector(j));
                    assert(self.slot_vector(j) =~= mid.slot_vector(j));
                    assert(self.metadata_of(x) == pre.metadata_of(x));
                }
            }
            assert(nc =~= oc);
        }
        Ok(())
    }

    /// Marks `id` deleted. Answers whether it was live; its slot stays reserved.
    pub fn delete(&mut self, id: u64) -> (r: Result<bool, VectorDbError>)
        requires
            old(self).wf(),
        ensures
            final(self).wf(),
            r == Ok::<bool, VectorDbError>(old(self).is_live(id)),
            final(self).dimension() == old(self).dimension(),
            final(self).slots() == old(self).slots(),
            final(self).contents() == old(self).contents().remove(id),
            final(self).tombstones() == if old(self).is_live(id) {
                old(self).tombstones().insert(id)
            } else {
                old(self).tombstones()
            },
            forall|x: u64| #[trigger] final(self).index_of(x) == old(self).index_of(x),
    {
        let ghost pre = *self;
        if self.id_to_idx.contains_key(&id) && !self.deleted.contains(&id) {
            self.deleted.insert(id);
            self.metadata_store.remove(&id);
            proof {
                pre.lemma_wf_facts();
                let live_slots = pre.idx_to_id@.to_set();
                assert(self.deleted@.subset_of(live_slots)) by {
                    assert forall|x: u64| self.deleted@.contains(x) implies live_slots.contains(x) by {
                        assert(pre.idx_to_id@.contains(x));
                    }
                }
                pre.idx_to_id@.lemma_cardinality_of_set();
                vstd::set_lib::lemma_len_subset(self.deleted@, live_slots);
                assert(self.contents() =~= pre.contents().remove(id));
            }
            Ok(true)
        } else {
            proof {
                assert(self.contents() =~= pre.contents().remove(id));
            }
            Ok(false)
        }
    }

    /// Whether `id` is deleted (and still holds its slot).
    pub fn is_deleted(&self, id: u64) -> (r: bool)
        requires
            self.wf(),
        ensures
            r == self.tombstones().contains(id),
    {
        self.deleted.contains(&id)
    }

    /// The vector of a live id.
    pub fn get_vector(&self, id: u64) -> (r: Option<&[T]>)
        requires
            self.wf(),
        ensures
            self.is_live(id) ==> (r matches Some(v) && v@ == self.vector_of(id)),
            !self.is_live(id) ==> r is None,
    {
        if self.deleted.contains(&id) {
            return None;
        }
        match self.id_to_idx.get(&id) {
            None => None,
            Some(idx_ref) => {
                let idx = *idx_ref;
                proof {
                    self.lemma_wf_facts();
                    lemma_slot_bounds(idx as int, self.idx_to_id@.len() as int, self.dim as int);
                }
                let total = self.data.len();
                let start = idx * self.dim;
                Some(slice_subrange(self.data.as_slice(), start, start + self.dim))
            },
        }
    }

    /// The slot of a live id.
    pub fn get_idx_by_id(&self, id: u64) -> (r: Option<usize>)
        requires
            self.wf(),
        ensures
            self.is_live(id) ==> (r matches Some(i) && Some(i as nat) == self.index_of(id)),
            !self.is_live(id) ==> r is None,
    {
        if self.deleted.contains(&id) {
            return None;
        }
        match self.id_to_idx.get(&id) {
            None => None,
            Some(idx_ref) => Some(*idx_ref),
        }
    }

    /// The vector in slot `idx`, unless the slot's id is deleted.
    pub fn get_vector_by_idx(&self, idx: usize) -> (r: Option<&[T]>)
        requires
            self.wf(),
        ensures
            idx < self.slots().len() && !self.tombstones().contains(self.slots()[idx as int]) ==> (r matches Some(v)
                && v@ == self.slot_vector(idx as int)),
            !(idx < self.slots().len() && !self.tombstones().contains(self.slots()[idx as int]))
                ==> r is None,
    {
        if idx >= self.idx_to_id.len() {
            return None;
        }
        let id = self.idx_to_id[idx];
        if self.deleted.contains(&id) {
            return None;
        }
        proof {
            lemma_slot_bounds(idx as int, self.idx_to_id@.len() as int, self.dim as int);
        }
        let total = self.data.len();
        let start = idx * self.dim;
        Some(slice_subrange(self.data.as_slice(), start, start + self.dim))
    }

    /// The metadata of a live id, if it has any.
    pub fn get_metadata(&self, id: u64) -> (r: Option<&M>)
        requires
            self.wf(),
        ensures
            self.is_live(id) && self.metadata().contains_key(id) ==> (r matches Some(m) && *m
                == self.metadata()[id]),
            !(self.is_live(id) && self.metadata().contains_key(id)) ==> r is None,
    {
        if self.deleted.contains(&id) {
            return None;
        }
        self.metadata_store.get(&id)
    }

    /// All stored components, slot after slot, deleted slots included.
    pub fn raw_data(&self) -> (r: &[T])
        ensures
            r@ == self.flat_data(),
    {
        self.data.as_slice()
    }

    /// The id of every slot, deleted ones included.
    pub fn raw_idx_to_id(&self) -> (r: &[u64])
        ensures
            r@ == self.slots(),
    {
        self.idx_to_id.as_slice()
    }

    /// The live ids, in slot order.
    pub fn live_ids(&self) -> (r: Vec<u64>)
        requires
            self.wf(),
        ensures
            r@ == self.slots().filter(|x: u64| self.is_live(x)),
    {
        let ghost live = |x: u64| self.is_live(x);
        let n = self.idx_to_id.len();
        let mut out: Vec<u64> = Vec::new();
        proof {
            reveal(Seq::filter);
            assert(self.slots().take(0) =~= Seq::<u64>::empty());
            assert(Seq::<u64>::empty().filter(live) =~= Seq::<u64>::empty());
        }
        let mut i: usize = 0;
        while i < n
            invariant
                self.wf(),
                n == self.idx_to_id@.len(),
                0 <= i <= n,
                live == (|x: u64| self.is_live(x)),
                out@ == self.slots().take(i as int).filter(live),
            decreases n - i,
        {
            let id = self.idx_to_id[i];
            proof {
                self.lemma_wf_facts();
                assert(self.slots().take(i + 1) =~= self.slots().take(i as int).push(id));
                self.slots().take(i as int).lemma_filter_push(id, live);
                assert(self.index_of(id) == Some(i as nat));
            }
            if !self.deleted.contains(&id) {
                out.push(id);
            }
            i = i + 1;
        }
        proof {
            assert(self.slots().take(n as int) =~= self.slots());
        }
        out
    }

    /// Live ids in slot order, their vectors packed in that order, and each id's packed slot.
    fn packed_parts(&self) -> (r: (Vec<T>, Vec<u64>, HashMap<u64, usize>))
        requires
            self.wf(),
        ensures
            r.1@ == self.slots().filter(|x: u64| self.is_live(x)),
            r.1@.no_duplicates(),
            r.0@.len() == r.1@.len() * self.dimension(),
            forall|k: int|
                0 <= k < r.1@.len() ==> #[trigger] r.0@.subrange(
                    k * self.dimension(),
                    k * self.dimension() + self.dimension(),
                ) == self.vector_of(r.1@[k]),
            forall|x: u64| #[trigger] r.2@.contains_key(x) <==> r.1@.contains(x),
            forall|k: int| 0 <= k < r.1@.len() ==> #[trigger] r.2@[r.1@[k]] == k,
    {
        let ghost live = |x: u64| self.is_live(x);
        let dim = self.dim;
        let n = self.idx_to_id.len();
        let total = self.data.len();
        let mut new_data: Vec<T> = Vec::new();
        let mut new_ids: Vec<u64> = Vec::new();
        let mut new_map: HashMap<u64, usize> = HashMap::new();
        proof {
            self.lemma_wf_facts();
            assert(self.slots().take(0) =~= Seq::<u64>::empty());
            reveal(Seq::filter);
            assert(Seq::<u64>::empty().filter(live) =~= Seq::<u64>::empty());
        }
        let mut i: usize = 0;
        while i < n
            invariant
                self.wf(),
                dim == self.dim,
                n == self.idx_to_id@.len(),
                total == self.data@.len(),
                0 <= i <= n,
                live == (|x: u64| self.is_live(x)),
                new_ids@ == self.slots().take(i as int).filter(live),
                new_ids@.no_duplicates(),
                new_ids@.len() <= i,
                new_data@.len() == new_ids@.len() * dim,
                forall|k: int|
                    0 <= k < new_ids@.len() ==> #[trigger] new_data@.subrange(k * dim, k * dim + dim)
                        == self.vector_of(new_ids@[k]),
                forall|k: int|
                    0 <= k < new_ids@.len() ==> self.index_of(#[trigger] new_ids@[k]) is Some
                        && self.index_of(new_ids@[k]).unwrap() < i,
                forall|x: u64| #[trigger] new_map@.contains_key(x) <==> new_ids@.contains(x),
                forall|k: int| 0 <= k < new_ids@.len() ==> #[trigger] new_map@[new_ids@[k]] == k,
            decreases n - i,
        {
            let id = self.idx_to_id[i];
            let ghost before_ids = new_ids@;
            let ghost before_data = new_data@;
            proof {
                self.lemma_wf_facts();
                assert(self.slots().take(i + 1) =~= self.slots().take(i as int).push(id));
                self.slots().take(i as int).lemma_filter_push(id, live);
            }
            if !self.deleted.contains(&id) {
                proof {
                    lemma_slot_bounds(i as int, n as int, dim as int);
                    lemma_next_slot(new_ids@.len() as int, dim as int);
                    assert(self.index_of(id) == Some(i as nat));
                }
                let start = i * dim;
                append_all(&mut new_data, slice_subrange(self.data.as_slice(), start, start + dim));
                let len = new_ids.len();
                new_map.insert(id, len);
                new_ids.push(id);
                proof {
                    assert(new_ids@ == before_ids.push(id));
                    assert(!before_ids.contains(id)) by {
                        if before_ids.contains(id) {
                            let k = choose|k: int| 0 <= k < before_ids.len() && before_ids[k] == id;
                            assert(self.index_of(before_ids[k]).unwrap() < i);
                        }
                    }
                    assert forall|k: int| 0 <= k < new_ids@.len() implies #[trigger] new_data@.subrange(
                        k * dim,
                        k * dim + dim,
                    ) == self.vector_of(new_ids@[k]) by {
                        if k < len {
                            lemma_slot_bounds(k, len as int, dim as int);
                            assert(new_data@.subrange(k * dim, k * dim + dim) =~= before_data.subrange(
                                k * dim,
                                k * dim + dim,
                            ));
                        } else {
                            assert(new_data@.subrange(k * dim, k * dim + dim) =~= self.slot_vector(i as int));
                        }
                    }
                    assert forall|x: u64| #[trigger] new_map@.contains_key(x) <==> new_ids@.contains(x) by {
                        if x == id {
                            assert(new_ids@[len as int] == id);
                        } else {
                            if new_ids@.contains(x) {
                                let k = choose|k: int| 0 <= k < new_ids@.len() && new_ids@[k] == x;
                                assert(k < len);
                                assert(before_ids[k] == x);
                                assert(before_ids.contains(x));
                            }
                            if before_ids.contains(x) {
                                let k = choose|k: int| 0 <= k < before_ids.len() && before_ids[k] == x;
                                assert(new_ids@[k] == x);
                            }
                        }
                    }
                    assert forall|k: int| 0 <= k < new_ids@.len() implies #[trigger] new_map@[new_ids@[k]] == k by {
                        if k < len {
                            assert(new_ids@[k] == before_ids[k]);
                            assert(before_ids.contains(before_ids[k]));
                        }
                    }
                }
            }
            i = i + 1;
        }
        proof {
            assert(self.slots().take(n as int) =~= self.slots());
        }
        (new_data, new_ids, new_map)
    }

    /// Drops the slots of deleted ids and packs the live vectors in slot order.
    /// Returns each live id's new slot.
    pub fn compact(&mut self) -> (r: HashMap<u64, usize>)
        requires
            old(self).wf(),
        ensures
            final(self).wf(),
            final(self).dimension() == old(self).dimension(),
            final(self).contents() == old(self).contents(),
            final(self).slots() == old(self).slots().filter(|x: u64| old(self).is_live(x)),
            final(self).tombstones() == Set::<u64>::empty(),
            forall|x: u64| #[trigger] r@.contains_key(x) == final(self).is_live(x),
            forall|x: u64|
                r@.contains_key(x) ==> Some(r@[x] as nat) == #[trigger] final(self).index_of(x),
    {
        let ghost pre = *self;
        let ghost live = |x: u64| pre.is_live(x);
        let (new_data, new_ids, new_map) = self.packed_parts();
        let result = new_map.clone();
        self.data = new_data;
        self.idx_to_id = new_ids;
        self.id_to_idx = new_map;
        self.deleted.clear();
        proof {
            pre.lemma_wf_facts();
            let ids = self.idx_to_id@;
            assert forall|x: u64| #[trigger] ids.contains(x) <==> pre.is_live(x) by {
                if ids.contains(x) {
                    pre.slots().lemma_filter_contains_rev(live, x);
                    let k = choose|k: int| 0 <= k < ids.len() && ids[k] == x;
                    pre.slots().lemma_filter_pred(live, k);
                }
                if pre.is_live(x) {
                    let j = pre.index_of(x).unwrap() as int;
                    assert(pre.slots()[j] == x);
                    pre.slots().lemma_filter_contains(live, j);
                }
            }
            assert forall|x: u64| #[trigger] self.metadata_store@.contains_key(x) implies self.id_to_idx@.contains_key(x)
                && !self.deleted@.contains(x) by {
                assert(pre.is_live(x));
            }
            assert forall|x: u64| self.is_live(x) implies #[trigger] self.vector_of(x) == pre.vector_of(x) by {
                let k = self.id_to_idx@[x] as int;
                assert(ids.contains(x));
                let kk = choose|kk: int| 0 <= kk < ids.len() && ids[kk] == x;
                assert(self.id_to_idx@[ids[kk]] == kk);
            }
            assert(self.contents() =~= pre.contents());
        }
        result
    }

    /// Rebuilds a storage from its parts: the dimension, the packed data, the id
    /// of every slot, the deleted ids and the metadata of live ids (a later pair
    /// for an id replaces an earlier one). Answers `None` when the parts do not
    /// describe a storage.
    pub fn from_parts(
        dim: usize,
        data: Vec<T>,
        idx_to_id: Vec<u64>,
        deleted: Vec<u64>,
        metadata: Vec<(u64, M)>,
    ) -> (r: Option<Self>)
        ensures
            r is Some <==> parts_consistent(
                dim as nat,
                data@.len(),
                idx_to_id@,
                deleted@,
                pair_keys(metadata@),
            ),
            r matches Some(st) ==> {
                &&& st.wf()
                &&& st.dimension() == dim
                &&& st.flat_data() == data@
                &&& st.slots() == idx_to_id@
                &&& st.tombstones() == deleted@.to_set()
                &&& st.metadata() == pairs_to_map(metadata@)
            },
    {
        let ghost keys = pair_keys(metadata@);
        let n = idx_to_id.len();
        let data_len = data.len();
        match n.checked_mul(dim) {
            None => {
                return None;
            },
            Some(size) => {
                if size != data.len() {
                    return None;
                }
            },
        }
        let mut id_to_idx: HashMap<u64, usize> = HashMap::new();
        let mut i: usize = 0;
        while i < n
            invariant
                0 <= i <= n,
                n == idx_to_id@.len(),
                idx_to_id@.take(i as int).no_duplicates(),
                forall|x: u64| #[trigger] id_to_idx@.contains_key(x) <==> idx_to_id@.take(i as int).contains(x),
                forall|k: int| 0 <= k < i ==> #[trigger] id_to_idx@[idx_to_id@[k]] == k,
            decreases n - i,
        {
            let id = idx_to_id[i];
            let ghost before = idx_to_id@.take(i as int);
            proof {
                assert(idx_to_id@.take(i + 1) =~= before.push(id));
            }
            if id_to_idx.contains_key(&id) {
                proof {
                    let k = choose|k: int| 0 <= k < before.len() && before[k] == id;
                    assert(idx_to_id@[k] == id && k != i);
                }
                return None;
            }
            id_to_idx.insert(id, i);
            proof {
                let after = idx_to_id@.take(i + 1);
                assert forall|x: u64| #[trigger] id_to_idx@.contains_key(x) <==> after.contains(x) by {
                    if x == id {
                        assert(after[i as int] == id);
                    } else {
                        if after.contains(x) {
                            let k = choose|k: int| 0 <= k < after.len() && after[k] == x;
                            assert(before[k] == x);
                        }
                        if before.contains(x) {
                            let k = choose|k: int| 0 <= k < before.len() && before[k] == x;
                            assert(after[k] == x);
                        }
                    }
                }
                assert forall|k: int| 0 <= k < i + 1 implies #[trigger] id_to_idx@[idx_to_id@[k]] == k by {
                    if k < i {
                        assert(before[k] == idx_to_id@[k]);
                        assert(before.contains(idx_to_id@[k]));
                    }
                }
            }
            i = i + 1;
        }
        proof {
            assert(idx_to_id@.take(n as int) =~= idx_to_id@);
        }
        let mut tomb: HashSet<u64> = HashSet::new();
        let mut j: usize = 0;
        while j < deleted.len()
            invariant
                0 <= j <= deleted@.len(),
                forall|x: u64| #[trigger] id_to_idx@.contains_key(x) <==> idx_to_id@.contains(x),
                tomb@ == deleted@.take(j as int).to_set(),
                forall|k: int| 0 <= k < j ==> idx_to_id@.contains(#[trigger] deleted@[k]),
            decreases deleted@.len() - j,
        {
            let d = deleted[j];
            proof {
                assert(deleted@.take(j + 1) =~= deleted@.take(j as int).push(d));
                deleted@.take(j as int).lemma_push_to_set_commute(d);
            }
            if !id_to_idx.contains_key(&d) {
                return None;
            }
            tomb.insert(d);
            j = j + 1;
        }
        proof {
            assert(deleted@.take(deleted@.len() as int) =~= deleted@);
        }
        let mut meta: HashMap<u64, M> = HashMap::new();
        let mut rest = metadata;
        let mut pending: Vec<(u64, M)> = Vec::new();
        let ghost all = rest@;
        // Reverse the pairs so they can be taken from the back in their original order.
        while rest.len() > 0
            invariant
                all == rest@ + pending@.reverse(),
            decreases rest@.len(),
        {
            let p = rest.pop().unwrap();
            let ghost before_pending = pending@;
            pending.push(p);
            proof {
                assert(pending@.reverse() =~= seq![p] + before_pending.reverse());
            }
        }
        proof {
            assert(all =~= pending@.reverse());
            assert(keys.len() == all.len());
            assert(forall|k: int| 0 <= k < all.len() ==> #[trigger] keys[k] == all[k].0);
        }
        let mut taken: usize = 0;
        let total = pending.len();
        while pending.len() > 0
            invariant
                all == pending@.reverse().take(0) + all.take(taken as int) + all.skip(taken as int),
                pending@.reverse() == all.skip(taken as int),
                taken + pending@.len() == total,
                total == all.len(),
                keys == pair_keys(metadata@),
                keys.len() == all.len(),
                forall|k: int| 0 <= k < all.len() ==> #[trigger] keys[k] == all[k].0,
                forall|x: u64| #[trigger] id_to_idx@.contains_key(x) <==> idx_to_id@.contains(x),
                tomb@ == deleted@.to_set(),
                meta@ == pairs_to_map(all.take(taken as int)),
                forall|k: int| 0 <= k < taken ==> idx_to_id@.contains(#[trigger] all[k].0) && !deleted@.contains(all[k].0),
            decreases pending@.len(),
        {
            let ghost before_pending = pending@;
            let (key, value) = pending.pop().unwrap();
            proof {
                assert(before_pending.reverse()[0] == (key, value));
                assert(all[taken as int] == (key, value));
                assert(pending@.reverse() =~= all.skip(taken + 1));
                assert(all.take(taken + 1).drop_last() =~= all.take(taken as int));
                assert(all.take(taken + 1).last() == (key, value));
            }
            if !id_to_idx.contains_key(&key) || tomb.contains(&key) {
                proof {
                    assert(keys[taken as int] == key);
                    if id_to_idx@.contains_key(key) {
                        assert(deleted@.to_set().contains(key));
                        assert(deleted@.contains(key));
                    }
                    assert(!(idx_to_id@.contains(keys[taken as int]) && !deleted@.contains(
                        keys[taken as int],
                    )));
                }
                return None;
            }
            meta.insert(key, value);
            taken = taken + 1;
        }
        proof {
            assert(all.take(total as int) =~= all);
            assert forall|k: int| 0 <= k < keys.len() implies idx_to_id@.contains(#[trigger] keys[k])
                && !deleted@.contains(keys[k]) by {
                assert(keys[k] == all[k].0);
            }
            assert forall|x: u64| #[trigger] tomb@.contains(x) implies id_to_idx@.contains_key(x) by {
                assert(deleted@.contains(x));
                let k = choose|k: int| 0 <= k < deleted@.len() && deleted@[k] == x;
                assert(deleted@.take(deleted@.len() as int)[k] == x);
            }
            lemma_pairs_to_map_keys(all);
            let live_slots = idx_to_id@.to_set();
            assert(tomb@.subset_of(live_slots));
            idx_to_id@.lemma_cardinality_of_set();
            vstd::set_lib::lemma_len_subset(tomb@, live_slots);
        }
        let st = VectorStorage { dim, data, id_to_idx, idx_to_id, metadata_store: meta, deleted: tomb };
        proof {
            assert forall|x: u64| #[trigger] st.metadata_store@.contains_key(x) implies st.id_to_idx@.contains_key(x)
                && !st.deleted@.contains(x) by {
                let k = choose|k: int| 0 <= k < all.len() && all[k].0 == x;
                assert(keys[k] == x);
            }
        }
        Some(st)
    }
}

} // verus!
