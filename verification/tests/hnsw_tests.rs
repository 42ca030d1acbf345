use std::collections::HashMap;
use vectordb_core::distance::MetricType;
use vectordb_core::hnsw::{keep_pruned, HnswConfig, HnswIndex, HnswNode};
use vectordb_core::concurrent_hnsw::{compacted_slot, mark_first_visit, prepare_visit_marks};
use vectordb_core::snapshot::default_concurrent_hnsw;
use vectordb_core::storage::VectorStorage;

#[test]
fn config_new_doubles_m_for_the_bottom_layer() {
    let config = HnswConfig::new(8, 32, 64);
    assert_eq!(config.m, 8);
    assert_eq!(config.m_max0, 16);
    assert_eq!(config.ef_construction, 32);
    assert_eq!(config.ef_search, 64);
    assert!(!config.extend_candidates);
    assert!(config.keep_pruned_connections);
}

#[test]
fn default_config_values() {
    let config = HnswConfig::default();
    assert_eq!(config.m, 16);
    assert_eq!(config.m_max0, 32);
    assert_eq!(config.ef_construction, 100);
    assert_eq!(config.ef_search, 100);
    assert!(!config.extend_candidates);
    assert!(config.keep_pruned_connections);
}

#[test]
fn default_concurrent_index_is_empty_l2() {
    let index = default_concurrent_hnsw();
    assert_eq!(index.config, HnswConfig::default());
    assert_eq!(index.metric, MetricType::L2);
    assert!(index.nodes.read().is_empty());
}

#[test]
fn first_node_becomes_the_entry_point() {
    let mut index = HnswIndex::new(HnswConfig::default(), MetricType::Cosine);
    assert!(index.is_empty());
    let q = index.add_node(42, 2);
    assert_eq!(q, 0);
    assert_eq!(index.len(), 1);
    assert_eq!(index.entry_point, Some(0));
    assert_eq!(index.max_layer, 2);
    assert_eq!(index.nodes[0].neighbors.len(), 3);
    assert_eq!(index.id_to_node_idx.get(&42), Some(&0));
}

#[test]
fn higher_node_takes_over_the_entry_point() {
    let mut index = HnswIndex::new(HnswConfig::default(), MetricType::L2);
    index.add_node(1, 1);
    index.add_node(2, 0);
    assert_eq!(index.entry_point, Some(0));
    assert_eq!(index.max_layer, 1);
    index.add_node(3, 4);
    assert_eq!(index.entry_point, Some(2));
    assert_eq!(index.max_layer, 4);
}

#[test]
fn links_and_neighbor_replacement() {
    let mut index = HnswIndex::new(HnswConfig::default(), MetricType::L2);
    index.add_node(10, 1);
    index.add_node(11, 0);
    index.add_node(12, 1);
    assert!(index.reaches_layer(2, 1));
    assert!(!index.reaches_layer(1, 1));
    assert!(!index.reaches_layer(3, 0));
    index.link(0, 1, 0);
    index.link(1, 0, 0);
    index.link(0, 2, 1);
    index.link(0, 2, 0);
    assert_eq!(index.nodes[0].neighbors[0], vec![1, 2]);
    assert_eq!(index.nodes[0].neighbors[1], vec![2]);
    assert_eq!(index.nodes[1].neighbors[0], vec![0]);
    let pruned = vec![2];
    assert!(index.all_reach(&pruned, 0));
    assert!(!index.all_reach(&vec![1], 1));
    index.set_neighbors(0, 0, pruned);
    assert_eq!(index.nodes[0].neighbors[0], vec![2]);
}

#[test]
fn compaction_renumbers_the_graph() {
    let mut index = HnswIndex::new(HnswConfig::new(4, 16, 16), MetricType::L2);
    for i in 0..10u64 {
        index.add_node(10 + i, 0);
    }
    for a in 0..10usize {
        if a + 1 < 10 {
            index.link(a, a + 1, 0);
            index.link(a + 1, a, 0);
        }
    }
    // The vector of id 14 (node 4) was deleted and the storage compacted.
    let mut new_index: HashMap<u64, usize> = HashMap::new();
    let mut slot = 0usize;
    for i in 0..10u64 {
        if 10 + i != 14 {
            new_index.insert(10 + i, slot);
            slot += 1;
        }
    }
    index.remap_storage_indices(&new_index);
    assert_eq!(index.len(), 9);
    let ids: Vec<u64> = index.nodes.iter().map(|n| n.id).collect();
    assert_eq!(ids, vec![10, 11, 12, 13, 15, 16, 17, 18, 19]);
    // Node of 13 lost its link to 14; node of 15 (now at 4) lost it too.
    assert_eq!(index.nodes[3].neighbors[0], vec![2]);
    assert_eq!(index.nodes[4].neighbors[0], vec![5]);
    assert_eq!(index.nodes[8].neighbors[0], vec![7]);
    assert_eq!(index.entry_point, Some(0));
    assert_eq!(index.id_to_node_idx.get(&19), Some(&8));
    assert!(index.id_to_node_idx.get(&14).is_none());
}

#[test]
fn compaction_that_drops_the_entry_point_picks_the_highest_node() {
    let mut index = HnswIndex::new(HnswConfig::default(), MetricType::L2);
    index.add_node(1, 3);
    index.add_node(2, 1);
    index.add_node(3, 2);
    index.add_node(4, 2);
    index.link(1, 2, 1);
    let mut new_index: HashMap<u64, usize> = HashMap::new();
    new_index.insert(2, 0);
    new_index.insert(3, 1);
    new_index.insert(4, 2);
    index.remap_storage_indices(&new_index);
    assert_eq!(index.len(), 3);
    assert_eq!(index.entry_point, Some(1));
    assert_eq!(index.max_layer, 2);
    assert_eq!(index.nodes[0].neighbors[1], vec![1]);
}

#[test]
fn compaction_of_everything_empties_the_graph() {
    let mut index = HnswIndex::new(HnswConfig::default(), MetricType::L2);
    index.add_node(1, 2);
    index.add_node(2, 0);
    index.remap_storage_indices(&HashMap::new());
    assert!(index.is_empty());
    assert_eq!(index.entry_point, None);
    assert_eq!(index.max_layer, 0);
    assert!(index.id_to_node_idx.is_empty());
}

#[test]
fn pruned_connections_top_up_without_duplicates() {
    assert_eq!(keep_pruned(vec![4, 1], &[1, 7, 7, 9, 3], 4), vec![4, 1, 7, 9]);
    assert_eq!(keep_pruned(vec![4, 1], &[1], 4), vec![4, 1]);
    assert_eq!(keep_pruned(vec![2, 5, 6], &[8], 2), vec![2, 5, 6]);
    assert_eq!(keep_pruned(vec![], &[3, 3, 2], 5), vec![3, 2]);
}

#[test]
fn visit_marks_grow_and_wrap() {
    let mut tags: Vec<u32> = vec![5, 6];
    assert_eq!(prepare_visit_marks(&mut tags, 3, 7), 7);
    assert_eq!(tags.len(), 3 + 1024);
    assert_eq!(&tags[0..3], &[5, 6, 0][..]);

    let mut enough: Vec<u32> = vec![9, 9, 9];
    assert_eq!(prepare_visit_marks(&mut enough, 2, 4), 4);
    assert_eq!(enough, vec![9, 9, 9]);

    let mut wrapping: Vec<u32> = vec![3, u32::MAX, 8];
    assert_eq!(prepare_visit_marks(&mut wrapping, 1, u32::MAX), 1);
    assert_eq!(wrapping, vec![0, 0, 0]);
}

#[test]
fn first_visit_is_reported_once() {
    let mut tags: Vec<u32> = vec![0, 0, 0];
    assert!(mark_first_visit(&mut tags, 1, 2));
    assert!(!mark_first_visit(&mut tags, 1, 2));
    assert!(mark_first_visit(&mut tags, 1, 3));
    assert!(!mark_first_visit(&mut tags, 5, 3));
    assert_eq!(tags, vec![0, 3, 0]);
}

#[test]
fn compacted_slot_of_dropped_vector_is_out_of_range() {
    let mut new_index: HashMap<u64, usize> = HashMap::new();
    new_index.insert(11, 0);
    assert_eq!(compacted_slot(&new_index, 11), 0);
    assert_eq!(compacted_slot(&new_index, 12), usize::MAX);
}

#[test]
fn compaction_keeps_graph_and_storage_in_step() {
    let mut storage: VectorStorage<f32, ()> = VectorStorage::new(2);
    let mut index = HnswIndex::new(HnswConfig::new(4, 16, 16), MetricType::L2);
    for i in 0..10u64 {
        let id = 10 + i;
        storage.insert(id, &[id as f32, id as f32], None).unwrap();
        index.add_node(id, (i % 3) as usize);
    }
    storage.delete(14).unwrap();
    storage.delete(10).unwrap();
    let new_slots = storage.compact();
    index.remap_storage_indices(&new_slots);
    let ids: Vec<u64> = index.nodes.iter().map(|n| n.id).collect();
    assert_eq!(ids, storage.raw_idx_to_id().to_vec());
    assert_eq!(ids, vec![11, 12, 13, 15, 16, 17, 18, 19]);
}

#[test]
fn links_are_never_repeated_or_to_self() {
    let mut index = HnswIndex::new(HnswConfig::default(), MetricType::L2);
    index.add_node(10, 1);
    index.add_node(11, 1);
    assert!(index.can_link(0, 1, 1));
    assert!(!index.can_link(0, 0, 0));
    assert!(!index.can_link(0, 2, 0));
    index.link(0, 1, 1);
    assert!(!index.can_link(0, 1, 1));
    assert!(index.can_link(0, 1, 0));
    assert!(index.valid_neighbors(0, &vec![1], 0));
    assert!(!index.valid_neighbors(0, &vec![1, 1], 0));
    assert!(!index.valid_neighbors(0, &vec![0], 0));
    assert!(!index.valid_neighbors(0, &vec![5], 0));
}

#[test]
fn graph_parts_with_repeated_or_self_links_are_refused() {
    let node = |id: u64, neighbors: Vec<Vec<usize>>| HnswNode { id, level: 0, neighbors };
    let ok = HnswIndex::from_parts(
        HnswConfig::default(),
        MetricType::L2,
        vec![node(1, vec![vec![1]]), node(2, vec![vec![0]])],
        Some(0),
        0,
    );
    assert!(ok.is_some());
    assert_eq!(ok.unwrap().id_to_node_idx.get(&2), Some(&1));
    let repeated = HnswIndex::from_parts(
        HnswConfig::default(),
        MetricType::L2,
        vec![node(1, vec![vec![1, 1]]), node(2, vec![vec![0]])],
        Some(0),
        0,
    );
    assert!(repeated.is_none());
    let to_self = HnswIndex::from_parts(
        HnswConfig::default(),
        MetricType::L2,
        vec![node(1, vec![vec![0]]), node(2, vec![vec![0]])],
        Some(0),
        0,
    );
    assert!(to_self.is_none());
}
