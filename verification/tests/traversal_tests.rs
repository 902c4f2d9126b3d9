use rhyzome::store::Rhyzome;

fn edge(store: &mut Rhyzome, from: &[u8], to: &[u8]) {
    store.add_relation(b"edge", from, to, vec![], 0).unwrap();
}

fn as_set(ids: &[Vec<u8>]) -> std::collections::BTreeSet<Vec<u8>> {
    ids.iter().cloned().collect()
}

#[test]
fn dfs_visits_reachable_nodes_once_start_first() {
    let mut store = Rhyzome::new();
    edge(&mut store, b"A", b"B");
    edge(&mut store, b"B", b"C");
    edge(&mut store, b"A", b"C");
    edge(&mut store, b"D", b"A"); // D reaches A, but A does not reach D
    let order = store.dfs(b"A");
    assert_eq!(order[0], b"A".to_vec());
    assert_eq!(order.len(), 3);
    let set = as_set(&order);
    assert!(set.contains(&b"A".to_vec()));
    assert!(set.contains(&b"B".to_vec()));
    assert!(set.contains(&b"C".to_vec()));
    assert!(!set.contains(&b"D".to_vec()));
}

#[test]
fn dfs_exact_order_is_deterministic() {
    let mut store = Rhyzome::new();
    edge(&mut store, b"A", b"B");
    edge(&mut store, b"B", b"C");
    edge(&mut store, b"A", b"C");
    // stack walk: A is visited, then the last-pushed successor first
    assert_eq!(
        store.dfs(b"A"),
        vec![b"A".to_vec(), b"C".to_vec(), b"B".to_vec()]
    );
}

#[test]
fn bfs_orders_by_hop_distance() {
    let mut store = Rhyzome::new();
    edge(&mut store, b"A", b"B");
    edge(&mut store, b"B", b"C");
    edge(&mut store, b"A", b"C");
    // distance 0: A; distance 1: B, C (in stored-scan order)
    assert_eq!(
        store.bfs(b"A"),
        vec![b"A".to_vec(), b"B".to_vec(), b"C".to_vec()]
    );
}

#[test]
fn bfs_two_levels_in_order() {
    let mut store = Rhyzome::new();
    edge(&mut store, b"A", b"B");
    edge(&mut store, b"A", b"C");
    edge(&mut store, b"B", b"D");
    edge(&mut store, b"C", b"E");
    let order = store.bfs(b"A");
    assert_eq!(
        order,
        vec![
            b"A".to_vec(),
            b"B".to_vec(),
            b"C".to_vec(),
            b"D".to_vec(),
            b"E".to_vec()
        ]
    );
}

#[test]
fn dfs_and_bfs_visit_the_same_set() {
    let mut store = Rhyzome::new();
    edge(&mut store, b"A", b"B");
    edge(&mut store, b"B", b"C");
    edge(&mut store, b"C", b"A");
    edge(&mut store, b"B", b"D");
    edge(&mut store, b"E", b"F"); // unreachable from A
    let d = store.dfs(b"A");
    let b = store.bfs(b"A");
    assert_eq!(as_set(&d), as_set(&b));
    assert_eq!(d.len(), b.len());
}

#[test]
fn self_loop_is_visited_once() {
    let mut store = Rhyzome::new();
    edge(&mut store, b"A", b"A");
    assert_eq!(store.dfs(b"A"), vec![b"A".to_vec()]);
    assert_eq!(store.bfs(b"A"), vec![b"A".to_vec()]);
}

#[test]
fn cycle_terminates() {
    let mut store = Rhyzome::new();
    edge(&mut store, b"A", b"B");
    edge(&mut store, b"B", b"A");
    let order = store.dfs(b"A");
    assert_eq!(order.len(), 2);
    assert_eq!(order[0], b"A".to_vec());
}

#[test]
fn start_with_no_relations_is_still_visited() {
    let store = Rhyzome::new();
    assert_eq!(store.dfs(b"Z"), vec![b"Z".to_vec()]);
    assert_eq!(store.bfs(b"Z"), vec![b"Z".to_vec()]);
}

#[test]
fn get_related_nodes_lists_targets_in_scan_order() {
    let mut store = Rhyzome::new();
    edge(&mut store, b"A", b"B");
    edge(&mut store, b"B", b"C");
    edge(&mut store, b"A", b"C");
    store.add_relation(b"other", b"A", b"D", vec![], 0).unwrap();
    let related = store.get_related_nodes(b"A");
    assert_eq!(
        related,
        vec![b"B".to_vec(), b"C".to_vec(), b"D".to_vec()]
    );
    assert!(store.get_related_nodes(b"C").is_empty());
}

#[test]
fn get_related_filters_by_relation_name() {
    let mut store = Rhyzome::new();
    edge(&mut store, b"A", b"B");
    store.add_relation(b"likes", b"A", b"C", vec![], 0).unwrap();
    edge(&mut store, b"A", b"D");
    assert_eq!(
        store.get_related(b"A", b"edge"),
        vec![b"B".to_vec(), b"D".to_vec()]
    );
    assert_eq!(store.get_related(b"A", b"likes"), vec![b"C".to_vec()]);
    assert!(store.get_related(b"B", b"edge").is_empty());
}

#[test]
fn traversals_are_deterministic_on_a_snapshot() {
    let mut store = Rhyzome::new();
    edge(&mut store, b"A", b"B");
    edge(&mut store, b"B", b"C");
    edge(&mut store, b"A", b"C");
    edge(&mut store, b"C", b"A");
    assert_eq!(store.dfs(b"A"), store.dfs(b"A"));
    assert_eq!(store.bfs(b"A"), store.bfs(b"A"));
}
