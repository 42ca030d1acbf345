//! Storage of product-quantization codes: one code per id, kept in insertion
//! slots, with tombstones for deleted ids. The quantizer that produces the codes
//! is held but never looked into.
use crate::error::VectorDbError;
use std::collections::{HashMap, HashSet};
use vstd::prelude::*;

verus! {

broadcast use vstd::std_specs::hash::group_hash_axioms;

#[derive(Debug)]
#[verifier::reject_recursive_types(Q)]
pub struct QuantizedVectorStorage<Q> {
    dim: usize,
    quantizer: Q,
    codes: Vec<Vec<u8>>,
    ids: Vec<u64>,
    id_to_idx: HashMap<u64, usize>,
    deleted: HashSet<u64>,
}

impl<Q> QuantizedVectorStorage<Q> {
    pub closed spec fn dimension(&self) -> nat {
        self.dim as nat
    }

    pub closed spec fn quantizer_spec(&self) -> Q {
        self.quantizer
    }

    /// The id of each slot, in insertion order; deleted ids keep their slot.
    pub closed spec fn slots(&self) -> Seq<u64> {
        self.ids@
    }

    /// The code held by each slot.
    pub closed spec fn slot_codes(&self) -> Seq<Seq<u8>> {
        self.codes@.map_values(|c: Vec<u8>| c@)
    }

    pub closed spec fn index_of(&self, id: u64) -> Option<nat> {
        if self.id_to_idx@.contains_key(id) {
            Some(self.id_to_idx@[id] as nat)
        } else {
            None
        }
    }

    pub closed spec fn tombstones(&self) -> Set<u64> {
        self.deleted@
    }

    pub open spec fn is_live(&self, id: u64) -> bool {
        &&& self.index_of(id) is Some
        &&& !self.tombstones().contains(id)
    }

    /// Each live id with its code.
    pub open spec fn contents(&self) -> Map<u64, Seq<u8>> {
        Map::new(
            |id: u64| self.is_live(id),
            |id: u64| self.slot_codes()[self.index_of(id).unwrap() as int],
        )
    }

    pub closed spec fn wf(&self) -> bool {
        &&& self.codes@.len() == self.ids@.len()
        &&& self.ids@.no_duplicates()
        &&& forall|id: u64| #[trigger] self.id_to_idx@.contains_key(id) <==> self.ids@.contains(id)
        &&& forall|i: int| 0 <= i < self.ids@.len() ==> #[trigger] self.id_to_idx@[self.ids@[i]] == i
        &&& forall|id: u64| #[trigger] self.deleted@.contains(id) ==> self.id_to_idx@.contains_key(id)
    }

    proof fn lemma_index_in_range(&self, id: u64)
        requires
            self.wf(),
            self.id_to_idx@.contains_key(id),
        ensures
            self.id_to_idx@[id] < self.ids@.len(),
            self.ids@[self.id_to_idx@[id] as int] == id,
    {
        assert(self.ids@.contains(id));
        let i = choose|i: int| 0 <= i < self.ids@.len() && self.ids@[i] == id;
        assert(self.id_to_idx@[self.ids@[i]] == i);
    }

    /// An empty store for codes of vectors with `dim` components made by `quantizer`.
    pub fn new(quantizer: Q, dim: usize) -> (r: Self)
        ensures
            r.wf(),
            r.dimension() == dim,
            r.quantizer_spec() == quantizer,
            r.slots() == Seq::<u64>::empty(),
            r.contents() == Map::<u64, Seq<u8>>::empty(),
    {
        let r = QuantizedVectorStorage {
            dim,
            quantizer,
            codes: Vec::new(),
            ids: Vec::new(),
            id_to_idx: HashMap::new(),
            deleted: HashSet::new(),
        };
        assert(r.contents() =~= Map::<u64, Seq<u8>>::empty());
        r
    }

    pub fn dim(&self) -> (r: usize)
        ensures
            r == self.dimension(),
    {
        self.dim
    }

    pub fn quantizer(&self) -> (r: &Q)
        ensures
            *r == self.quantizer_spec(),
    {
        &self.quantizer
    }

    /// Stores the code of `id`: a live id has its code replaced in place, a
    /// deleted id gets its old slot back, a new id gets a new slot at the end.
    pub fn insert_code(&mut self, id: u64, code: Vec<u8>)
        requires
            old(self).wf(),
        ensures
            final(self).wf(),
            final(self).dimension() == old(self).dimension(),
            final(self).quantizer_spec() == old(self).quantizer_spec(),
            final(self).contents() == old(self).contents().insert(id, code@),
            final(self).slots() == if old(self).index_of(id) is Some {
                old(self).slots()
            } else {
                old(self).slots().push(id)
            },
            final(self).tombstones() == old(self).tombstones().remove(id),
    {
        let ghost pre = *self;
        let ghost code_view = code@;
        let known = self.id_to_idx.contains_key(&id);
        self.deleted.remove(&id);
        let ghost mut slot: int = self.ids@.len() as int;
        if known {
            let idx = *self.id_to_idx.get(&id).unwrap();
            proof {
                pre.lemma_index_in_range(id);
                slot = idx as int;
            }
            self.codes.set(idx, code);
        } else {
            let n = self.ids.len();
            self.id_to_idx.insert(id, n);
            self.ids.push(id);
            self.codes.push(code);
            proof {
                assert forall|i: int| 0 <= i < self.ids@.len() implies #[trigger]
                    self.id_to_idx@[self.ids@[i]] == i by {
                    if i < n {
                        assert(self.ids@[i] == pre.ids@[i]);
                        assert(pre.ids@.contains(pre.ids@[i]));
                    }
                }
                assert forall|x: u64| #[trigger] self.id_to_idx@.contains_key(x) <==> self.ids@.contains(x) by {
                    if x == id {
                        assert(self.ids@[n as int] == id);
                    } else {
                        if self.ids@.contains(x) {
                            let k = choose|k: int| 0 <= k < self.ids@.len() && self.ids@[k] == x;
                            assert(pre.ids@[k] == x);
                        }
                        if pre.ids@.contains(x) {
                            let k = choose|k: int| 0 <= k < pre.ids@.len() && pre.ids@[k] == x;
                            assert(self.ids@[k] == x);
                        }
                    }
                }
            }
        }
        proof {
            assert(self.deleted@ =~= pre.deleted@.remove(id));
            assert(self.index_of(id) == Some(slot as nat));
            assert(self.slot_codes()[slot] == code_view);
            let nc = self.contents();
            let oc = pre.contents().insert(id, code_view);
            assert forall|x: u64| nc.contains_key(x) == oc.contains_key(x) by {
                if x != id {
                    assert(self.index_of(x) == pre.index_of(x));
                }
            }
            assert forall|x: u64| nc.contains_key(x) implies nc[x] == oc[x] by {
                if x != id {
                    pre.lemma_index_in_range(x);
                    let j = pre.id_to_idx@[x] as int;
                    assert(j != slot) by {
                        if j == slot {
                            assert(self.ids@[slot] == id);
                        }
                    }
                    assert(self.slot_codes()[j] == pre.slot_codes()[j]);
                }
            }
            assert(nc =~= oc);
        }
    }

    /// Marks a live id deleted; answers whether it was live.
    pub fn delete(&mut self, id: u64) -> (r: bool)
        requires
            old(self).wf(),
        ensures
            final(self).wf(),
            r == old(self).is_live(id),
            final(self).dimension() == old(self).dimension(),
            final(self).quantizer_spec() == old(self).quantizer_spec(),
            final(self).slots() == old(self).slots(),
            final(self).contents() == old(self).contents().remove(id),
    {
        let ghost pre = *self;
        if self.id_to_idx.contains_key(&id) && !self.deleted.contains(&id) {
            self.deleted.insert(id);
            proof {
                assert(self.contents() =~= pre.contents().remove(id));
            }
            true
        } else {
            proof {
                assert(self.contents() =~= pre.contents().remove(id));
            }
            false
        }
    }

    /// Whether the id is deleted (its slot still holds its last code).
    pub fn is_deleted(&self, id: u64) -> (r: bool)
        requires
            self.wf(),
        ensures
            r == self.tombstones().contains(id),
    {
        self.deleted.contains(&id)
    }

    /// The number of slots, deleted ones included.
    pub fn len(&self) -> (r: usize)
        requires
            self.wf(),
        ensures
            r == self.slots().len(),
    {
        self.codes.len()
    }

    pub fn is_empty(&self) -> (r: bool)
        requires
            self.wf(),
        ensures
            r == (self.slots().len() == 0),
    {
        self.codes.len() == 0
    }

    /// The code of every slot, in slot order.
    pub fn codes(&self) -> (r: &[Vec<u8>])
        requires
            self.wf(),
        ensures
            r@.len() == self.slots().len(),
            forall|i: int| 0 <= i < r@.len() ==> #[trigger] r@[i]@ == self.slot_codes()[i],
    {
        self.codes.as_slice()
    }

    /// The id of every slot, in slot order.
    pub fn ids(&self) -> (r: &[u64])
        ensures
            r@ == self.slots(),
    {
        self.ids.as_slice()
    }

    /// Rebuilds a store from its parts: the quantizer, the dimension, the code of
    /// every slot, the id of every slot and the deleted ids. Answers `None` when
    /// the parts do not describe a store.
    pub fn from_parts(quantizer: Q, dim: usize, codes: Vec<Vec<u8>>, ids: Vec<u64>, deleted: Vec<u64>) -> (r:
        Option<Self>)
        ensures
            r is Some <==> {
                &&& codes@.len() == ids@.len()
                &&& ids@.no_duplicates()
                &&& forall|k: int| 0 <= k < deleted@.len() ==> ids@.contains(#[trigger] deleted@[k])
            },
            r matches Some(st) ==> {
                &&& st.wf()
                &&& st.dimension() == dim
                &&& st.quantizer_spec() == quantizer
                &&& st.slots() == ids@
                &&& st.slot_codes() == codes@.map_values(|c: Vec<u8>| c@)
                &&& st.tombstones() == deleted@.to_set()
            },
    {
        let n = ids.len();
        if codes.len() != n {
            return None;
        }
        let mut id_to_idx: HashMap<u64, usize> = HashMap::new();
        let mut i: usize = 0;
        while i < n
            invariant
                0 <= i <= n,
                n == ids@.len(),
                ids@.take(i as int).no_duplicates(),
                forall|x: u64| #[trigger] id_to_idx@.contains_key(x) <==> ids@.take(i as int).contains(x),
                forall|k: int| 0 <= k < i ==> #[trigger] id_to_idx@[ids@[k]] == k,
            decreases n - i,
        {
            let id = ids[i];
            let ghost before = ids@.take(i as int);
            proof {
                assert(ids@.take(i + 1) =~= before.push(id));
            }
            if id_to_idx.contains_key(&id) {
                proof {
                    let k = choose|k: int| 0 <= k < before.len() && before[k] == id;
                    assert(ids@[k] == id && k != i);
                }
                return None;
            }
            id_to_idx.insert(id, i);
            proof {
                let after = ids@.take(i + 1);
                assert forall|x: u64| #[trigger] id_to_idx@.contains_key(x) <==> after.contains(x) by {
                    if x == id {
                        assert(after[i as int] == id);
                    } else {
                        if after.contains(x) {
                            let k = choose|k: int| 0 <= k < after.len() && after[k] == x;
                            assert(before[k] == x);
                        }
                        if before.contains(x) {
                            let k = choose|k: int| 0 <= k < before.len() && before[k] == x;
                            assert(after[k] == x);
                        }
                    }
                }
                assert forall|k: int| 0 <= k < i + 1 implies #[trigger] id_to_idx@[ids@[k]] == k by {
                    if k < i {
                        assert(before[k] == ids@[k]);
                        assert(before.contains(ids@[k]));
                    }
                }
            }
            i = i + 1;
        }
        proof {
            assert(ids@.take(n as int) =~= ids@);
        }
        let mut tomb: HashSet<u64> = HashSet::new();
        let mut j: usize = 0;
        while j < deleted.len()
            invariant
                0 <= j <= deleted@.len(),
                forall|x: u64| #[trigger] id_to_idx@.contains_key(x) <==> ids@.contains(x),
                tomb@ == deleted@.take(j as int).to_set(),
                forall|k: int| 0 <= k < j ==> ids@.contains(#[trigger] deleted@[k]),
            decreases deleted@.len() - j,
        {
            let d = deleted[j];
            proof {
                assert(deleted@.take(j + 1) =~= deleted@.take(j as int).push(d));
                deleted@.take(j as int).lemma_push_to_set_commute(d);
            }
            if !id_to_idx.contains_key(&d) {
                return None;
            }
            tomb.insert(d);
            j = j + 1;
        }
        proof {
            assert(deleted@.take(deleted@.len() as int) =~= deleted@);
            assert forall|x: u64| #[trigger] tomb@.contains(x) implies id_to_idx@.contains_key(x) by {
                let k = choose|k: int| 0 <= k < deleted@.len() && deleted@[k] == x;
            }
        }
        Some(QuantizedVectorStorage { dim, quantizer, codes, ids, id_to_idx, deleted: tomb })
    }
}

/// The width of each sub-vector when vectors of `dim` components are split into
/// `num_subvectors` equal parts for quantization. Training on no vectors is
/// refused, and so is a split that does not come out even.
pub fn subspace_width(dim: usize, num_subvectors: usize, num_vectors: usize) -> (r: Result<usize, VectorDbError>)
    requires
        num_vectors == 0 || num_subvectors > 0,
    ensures
        num_vectors == 0 ==> r matches Err(VectorDbError::StorageError(_)),
        num_vectors > 0 && dim % num_subvectors != 0 ==> {
            &&& r matches Err(VectorDbError::DimensionMismatch { expected, actual })
            &&& expected == dim
            &&& actual == num_subvectors
        },
        num_vectors > 0 && dim % num_subvectors == 0 ==> r == Ok::<usize, VectorDbError>(dim / num_subvectors),
{
    if num_vectors == 0 {
        return Err(VectorDbError::StorageError(String::from_str("Cannot train PQ on empty dataset")));
    }
    if dim % num_subvectors != 0 {
        return Err(VectorDbError::DimensionMismatch { expected: dim, actual: num_subvectors });
    }
    Ok(dim / num_subvectors)
}

} // verus!
