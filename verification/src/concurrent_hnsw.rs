//! Layout of the HNSW graph that is searched and extended from many threads at
//! once: each neighbor list sits behind its own lock.
use crate::distance::MetricType;
use crate::hnsw::HnswConfig;
use std::sync::atomic::{AtomicBool, AtomicU32, AtomicUsize};
use std::collections::HashMap;
use std::sync::Arc;
use vstd::prelude::*;

verus! {

#[verifier::external_type_specification]
#[verifier::external_body]
pub struct ExRawRwLock(parking_lot::RawRwLock);

#[verifier::external_type_specification]
#[verifier::external_body]
#[verifier::reject_recursive_types(R)]
#[verifier::reject_recursive_types(T)]
pub struct ExRwLock<R, T: ?Sized>(lock_api::RwLock<R, T>);

#[verifier::external_type_specification]
#[verifier::external_body]
pub struct ExRawMutex(parking_lot::RawMutex);

#[verifier::external_type_specification]
#[verifier::external_body]
#[verifier::reject_recursive_types(R)]
#[verifier::reject_recursive_types(T)]
pub struct ExMutex<R, T: ?Sized>(lock_api::Mutex<R, T>);

/// Calls `parking_lot::RwLock::new`. What the lock holds is not stated: it can
/// change behind a shared reference.
#[verifier::external_body]
fn new_rw_lock<T>(value: T) -> parking_lot::RwLock<T> {
    parking_lot::RwLock::new(value)
}

/// Calls `parking_lot::Mutex::new`. What the lock holds is not stated: it can
/// change behind a shared reference.
#[verifier::external_body]
fn new_mutex<T>(value: T) -> parking_lot::Mutex<T> {
    parking_lot::Mutex::new(value)
}

#[derive(Debug)]
pub struct ConcurrentHnswNode {
    pub id: u64,
    pub storage_idx: usize,
    pub level: usize,
    pub neighbors: Vec<parking_lot::RwLock<Vec<usize>>>,
}

/// The graph: nodes behind one lock, per-layer neighbor lists behind their own
/// locks, and the entry point and top layer in atomics.
#[derive(Debug)]
pub struct ConcurrentHnswIndex {
    pub config: HnswConfig,
    pub metric: MetricType,
    pub nodes: parking_lot::RwLock<Vec<Arc<ConcurrentHnswNode>>>,
    pub entry_point: AtomicUsize,
    pub max_layer: AtomicUsize,
    pub has_entry_point: AtomicBool,
    /// Visit marks shared by searches, one per node.
    pub visited_tags: parking_lot::Mutex<Vec<u32>>,
    /// The mark of the next search.
    pub visit_id_counter: AtomicU32,
}

impl ConcurrentHnswIndex {
    /// An empty graph with the given configuration and metric.
    pub fn new(config: HnswConfig, metric: MetricType) -> (r: Self)
        ensures
            r.config == config,
            r.metric == metric,
    {
        ConcurrentHnswIndex {
            config,
            metric,
            nodes: new_rw_lock(Vec::new()),
            entry_point: AtomicUsize::new(0),
            max_layer: AtomicUsize::new(0),
            has_entry_point: AtomicBool::new(false),
            visited_tags: new_mutex(Vec::new()),
            visit_id_counter: AtomicU32::new(1),
        }
    }
}

/// The storage slot of a node's vector after compaction, given the new slot of
/// every vector that survived; `usize::MAX`, a slot no storage has, for a vector
/// that was dropped.
pub fn compacted_slot(new_index: &HashMap<u64, usize>, id: u64) -> (r: usize)
    ensures
        r == if new_index@.contains_key(id) {
            new_index@[id]
        } else {
            usize::MAX
        },
{
    match new_index.get(&id) {
        Some(slot) => *slot,
        None => usize::MAX,
    }
}

/// Readies the visit marks for a search over `num_nodes` nodes that was handed
/// mark `visit_id`: the marks grow, with zeros, to `num_nodes + 1024` when they
/// are fewer than `num_nodes`; when the mark is the last one a `u32` can hold,
/// every mark is cleared and the search uses mark 1 instead. Answers the mark
/// the search uses.
pub fn prepare_visit_marks(tags: &mut Vec<u32>, num_nodes: usize, visit_id: u32) -> (mark: u32)
    requires
        num_nodes + 1024 <= usize::MAX,
    ensures
        final(tags)@.len() == if old(tags)@.len() < num_nodes {
            num_nodes + 1024
        } else {
            old(tags)@.len() as int
        },
        visit_id == u32::MAX ==> mark == 1 && forall|i: int| 0 <= i < final(tags)@.len() ==> #[trigger] final(tags)@[i] == 0,
        visit_id != u32::MAX ==> {
            &&& mark == visit_id
            &&& forall|i: int| 0 <= i < old(tags)@.len() ==> #[trigger] final(tags)@[i] == old(tags)@[i]
            &&& forall|i: int| old(tags)@.len() <= i < final(tags)@.len() ==> #[trigger] final(tags)@[i] == 0
        },
{
    if tags.len() < num_nodes {
        let target = num_nodes + 1024;
        while tags.len() < target
            invariant
                target == num_nodes + 1024,
                old(tags)@.len() < num_nodes,
                old(tags)@.len() <= tags@.len() <= target,
                forall|i: int| 0 <= i < old(tags)@.len() ==> #[trigger] tags@[i] == old(tags)@[i],
                forall|i: int| old(tags)@.len() <= i < tags@.len() ==> #[trigger] tags@[i] == 0,
            decreases target - tags@.len(),
        {
            tags.push(0);
        }
    }
    if visit_id == u32::MAX {
        let n = tags.len();
        let mut i: usize = 0;
        while i < n
            invariant
                n == tags@.len(),
                0 <= i <= n,
                forall|j: int| 0 <= j < i ==> #[trigger] tags@[j] == 0,
            decreases n - i,
        {
            tags.set(i, 0);
            i = i + 1;
        }
        return 1;
    }
    visit_id
}

/// Marks node `idx` visited by the search with mark `mark`. Answers whether this
/// is the node's first visit in that search; a node without a mark slot is
/// never visited.
pub fn mark_first_visit(tags: &mut Vec<u32>, idx: usize, mark: u32) -> (first: bool)
    ensures
        first == (idx < old(tags)@.len() && old(tags)@[idx as int] != mark),
        final(tags)@ == if idx < old(tags)@.len() {
            old(tags)@.update(idx as int, mark)
        } else {
            old(tags)@
        },
{
    if idx < tags.len() {
        let first = tags[idx] != mark;
        tags.set(idx, mark);
        first
    } else {
        false
    }
}

} // verus!
