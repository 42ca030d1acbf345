use vectordb_core::planner::{QueryPlanner, QueryStrategy};
use vectordb_core::storage::VectorStorage;

fn matching_count(storage: &VectorStorage<f32, serde_json::Value>, below: f64) -> usize {
    storage
        .live_ids()
        .iter()
        .filter(|&&id| {
            storage
                .get_metadata(id)
                .and_then(|m| m.get("val"))
                .and_then(|v| v.as_f64())
                .map(|v| v < below)
                .unwrap_or(false)
        })
        .count()
}

fn below_tenth(matching: usize, total: usize) -> bool {
    (matching as f32 / total as f32) < 0.10
}

#[test]
fn test_query_planner_selectivity() {
    let mut storage: VectorStorage<f32, serde_json::Value> = VectorStorage::new(2);
    for i in 0..100 {
        let mut meta = serde_json::Map::new();
        meta.insert("val".to_string(), serde_json::Value::from(i));
        storage.insert(i as u64, &[i as f32, i as f32], Some(serde_json::Value::Object(meta))).unwrap();
    }
    let total = storage.len();

    // Selective filter (5 matching out of 100 = 5%)
    let matching = matching_count(&storage, 5.0);
    let strategy = QueryPlanner::choose_strategy(total, Some(matching), below_tenth(matching, total), 10);
    assert_eq!(strategy, QueryStrategy::FilteredScan);
    assert_eq!(matching, 5);

    // Broad filter (80 matching out of 100 = 80%)
    let matching_broad = matching_count(&storage, 80.0);
    let strategy_broad =
        QueryPlanner::choose_strategy(total, Some(matching_broad), below_tenth(matching_broad, total), 10);
    assert_eq!(strategy_broad, QueryStrategy::HnswFiltered);
    assert_eq!(matching_broad, 80);
}

#[test]
fn empty_collection_is_scanned() {
    assert_eq!(QueryPlanner::choose_strategy(0, Some(0), false, 5), QueryStrategy::BruteForceScan);
    assert_eq!(QueryPlanner::choose_strategy(0, None, false, 5), QueryStrategy::BruteForceScan);
}

#[test]
fn unfiltered_query_walks_the_graph() {
    assert_eq!(QueryPlanner::choose_strategy(100, None, false, 10), QueryStrategy::HnswFiltered);
    assert_eq!(QueryPlanner::choose_strategy(100, None, true, 10), QueryStrategy::HnswFiltered);
}

#[test]
fn few_matches_relative_to_k_are_scanned() {
    // 20 of 100 pass: not under a tenth, but no more than twice k = 10.
    assert_eq!(QueryPlanner::choose_strategy(100, Some(20), false, 10), QueryStrategy::FilteredScan);
    assert_eq!(QueryPlanner::choose_strategy(100, Some(21), false, 10), QueryStrategy::HnswFiltered);
}

#[test]
fn selectivity_under_a_tenth_is_scanned() {
    assert_eq!(QueryPlanner::choose_strategy(1000, Some(99), below_tenth(99, 1000), 1), QueryStrategy::FilteredScan);
    assert_eq!(QueryPlanner::choose_strategy(1000, Some(100), below_tenth(100, 1000), 1), QueryStrategy::HnswFiltered);
}

#[test]
fn selectivity_is_judged_as_the_caller_rounds_it() {
    // 100000000 / 1000000001 rounds to exactly 0.1 in f32, which is not under a tenth.
    let total = 1_000_000_001usize;
    let matching = 100_000_000usize;
    assert!(!below_tenth(matching, total));
    assert_eq!(
        QueryPlanner::choose_strategy(total, Some(matching), below_tenth(matching, total), 1),
        QueryStrategy::HnswFiltered
    );
}

#[test]
fn huge_counts_do_not_overflow() {
    assert_eq!(
        QueryPlanner::choose_strategy(usize::MAX, Some(usize::MAX), false, usize::MAX),
        QueryStrategy::FilteredScan
    );
    assert_eq!(QueryPlanner::choose_strategy(usize::MAX, Some(usize::MAX), false, 0), QueryStrategy::HnswFiltered);
}
