//! Snapshots of the whole database.
use crate::concurrent_hnsw::ConcurrentHnswIndex;
use crate::distance::MetricType;
use crate::hnsw::{default_config, HnswConfig};
use vstd::prelude::*;

verus! {

/// Writes and reads snapshots.
#[derive(Debug)]
pub struct SnapshotEngine;

/// The concurrent index a collection snapshot gets when it was saved without one:
/// empty, with the default configuration and the L2 metric.
pub fn default_concurrent_hnsw() -> (r: ConcurrentHnswIndex)
    ensures
        r.config == default_config(),
        r.metric == MetricType::L2,
{
    ConcurrentHnswIndex::new(HnswConfig::default(), MetricType::L2)
}

/// Counts the logged operations since the last snapshot and says when the
/// next one is due. A threshold of 0 turns automatic snapshots off.
#[derive(Debug)]
pub struct SnapshotTrigger {
    pub threshold: u64,
    pub ops_since_snapshot: u64,
}

impl SnapshotTrigger {
    /// No operation counted yet, snapshots due every `threshold` operations.
    pub fn new(threshold: u64) -> (r: Self)
        ensures
            r.threshold == threshold,
            r.ops_since_snapshot == 0,
    {
        SnapshotTrigger { threshold, ops_since_snapshot: 0 }
    }

    /// Counts one more logged operation and answers whether a snapshot is now
    /// due. With automatic snapshots off nothing is counted. The count wraps
    /// around as an atomic counter does.
    pub fn record_op(&mut self) -> (due: bool)
        ensures
            final(self).threshold == old(self).threshold,
            old(self).threshold == 0 ==> !due && final(self).ops_since_snapshot == old(self).ops_since_snapshot,
            old(self).threshold > 0 ==> {
                &&& final(self).ops_since_snapshot == (if old(self).ops_since_snapshot == u64::MAX {
                    0
                } else {
                    old(self).ops_since_snapshot + 1
                })
                &&& due == (final(self).ops_since_snapshot >= old(self).threshold)
            },
    {
        if self.threshold == 0 {
            return false;
        }
        self.ops_since_snapshot = self.ops_since_snapshot.wrapping_add(1);
        self.ops_since_snapshot >= self.threshold
    }

    /// A snapshot was taken: counting starts again.
    pub fn reset(&mut self)
        ensures
            final(self).threshold == old(self).threshold,
            final(self).ops_since_snapshot == 0,
    {
        self.ops_since_snapshot = 0;
    }
}

} // verus!
