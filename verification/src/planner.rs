//! Choosing how a filtered search is executed.
use vstd::prelude::*;

verus! {

#[derive(Debug, Clone, Copy, PartialEq, Eq, Structural)]
pub enum QueryStrategy {
    /// Scan every live vector.
    BruteForceScan,
    /// Walk the HNSW graph, keeping only matching vectors.
    HnswFiltered,
    /// Scan only the vectors that match the filter.
    FilteredScan,
}

/// Picks the execution strategy of a query.
pub struct QueryPlanner;

/// The strategy for a collection of `total` live vectors of which `matching`
/// pass the filter (`None` when there is no filter), asked for `k` results, where
/// `below_tenth` tells whether the filter's selectivity (the share of live
/// vectors that pass it, as the caller computes it) is under a tenth: an empty
/// collection is scanned; an unfiltered query walks the graph; a filter whose
/// selectivity is under a tenth, or that passes no more than twice the results
/// asked for, scans the matching vectors; any other filter is applied while
/// walking the graph.
pub open spec fn strategy_for(total: nat, matching: Option<nat>, below_tenth: bool, k: nat) -> QueryStrategy {
    if total == 0 {
        QueryStrategy::BruteForceScan
    } else {
        match matching {
            None => QueryStrategy::HnswFiltered,
            Some(m) => if below_tenth || m <= 2 * k {
                QueryStrategy::FilteredScan
            } else {
                QueryStrategy::HnswFiltered
            },
        }
    }
}

impl QueryPlanner {
    /// The strategy for `total` live vectors, `matching` of them passing the
    /// filter if there is one, whether that filter's selectivity is under a
    /// tenth, and `k` results asked for.
    pub fn choose_strategy(total: usize, matching: Option<usize>, below_tenth: bool, k: usize) -> (r: QueryStrategy)
        ensures
            r == strategy_for(
                total as nat,
                match matching {
                    Some(m) => Some(m as nat),
                    None => None,
                },
                below_tenth,
                k as nat,
            ),
            total == 0 ==> r == QueryStrategy::BruteForceScan,
            total > 0 && matching is None ==> r == QueryStrategy::HnswFiltered,
            total > 0 && matching is Some ==> {
                &&& (r == QueryStrategy::FilteredScan <==> below_tenth || matching.unwrap() <= 2 * k)
                &&& (r == QueryStrategy::HnswFiltered <==> !below_tenth && matching.unwrap() > 2 * k)
            },
    {
        if total == 0 {
            return QueryStrategy::BruteForceScan;
        }
        match matching {
            None => QueryStrategy::HnswFiltered,
            Some(m) => {
                let few = (m as u128) <= (k as u128) * 2;
                if below_tenth || few {
                    QueryStrategy::FilteredScan
                } else {
                    QueryStrategy::HnswFiltered
                }
            },
        }
    }
}

/// Law: a filtered query on a non-empty collection scans the matching vectors
/// exactly when the filter's selectivity is under a tenth or it passes at most
/// twice the results asked for, and walks the graph otherwise; an empty
/// collection is always scanned and an unfiltered query always walks the graph.
pub proof fn law_filtered_scan_threshold(total: nat, matching: nat, below_tenth: bool, k: nat)
    ensures
        total > 0 ==> (strategy_for(total, Some(matching), below_tenth, k) == QueryStrategy::FilteredScan
            <==> below_tenth || matching <= 2 * k),
        total > 0 ==> (strategy_for(total, Some(matching), below_tenth, k) == QueryStrategy::HnswFiltered
            <==> !below_tenth && matching > 2 * k),
        strategy_for(0, Some(matching), below_tenth, k) == QueryStrategy::BruteForceScan,
        total > 0 ==> strategy_for(total, None, below_tenth, k) == QueryStrategy::HnswFiltered,
{
}

} // verus!
