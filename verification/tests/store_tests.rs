use rhyzome::store::{Node, Rhyzome};
use rhyzome::RhyzomeError;

fn node(id: &[u8], payload: &[u8], ts: i64) -> Node {
    Node { id: id.to_vec(), payload: payload.to_vec(), timestamp: ts }
}

#[test]
fn put_get_round_trip() {
    let mut store = Rhyzome::new();
    let payload = vec![0u8, 1, 2, 255, 95, 0];
    let existed = store.add_node(node(b"n1", &payload, 7));
    assert!(!existed);
    let got = store.get_node(b"n1").unwrap();
    assert_eq!(got.id, b"n1".to_vec());
    assert_eq!(got.payload, payload);
    assert_eq!(got.timestamp, 7);
}

#[test]
fn get_missing_node_is_none() {
    let store = Rhyzome::new();
    assert!(store.get_node(b"nope").is_none());
}

#[test]
fn delete_after_put_makes_get_not_found() {
    let mut store = Rhyzome::new();
    store.add_node(node(b"n1", b"p", 1));
    assert!(store.delete_node(b"n1"));
    assert!(store.get_node(b"n1").is_none());
    assert!(!store.delete_node(b"n1"));
}

#[test]
fn delete_never_created_id_reports_did_not_exist() {
    let mut store = Rhyzome::new();
    assert!(!store.delete_node(b"ghost-id"));
}

#[test]
fn update_node_overwrites_wholesale() {
    let mut store = Rhyzome::new();
    assert!(!store.add_node(node(b"n1", b"first", 1)));
    assert!(store.update_node(node(b"n1", b"second", 2)));
    let got = store.get_node(b"n1").unwrap();
    assert_eq!(got.payload, b"second".to_vec());
    assert_eq!(got.timestamp, 2);
    assert_eq!(store.iter_nodes().len(), 1);
}

#[test]
fn relation_overwrite_keeps_exactly_one_record() {
    let mut store = Rhyzome::new();
    let existed = store
        .add_relation(b"likes", b"a", b"b", b"p1".to_vec(), 1)
        .unwrap();
    assert!(!existed);
    let existed = store
        .add_relation(b"likes", b"a", b"b", b"p2".to_vec(), 2)
        .unwrap();
    assert!(existed);
    let rel = store.get_relation(b"likes", b"a", b"b").unwrap().unwrap();
    assert_eq!(rel.payload, b"p2".to_vec());
    assert_eq!(store.iter_relations().len(), 1);
    assert_eq!(store.iter_relations()[0], b"likes_a_b".to_vec());
}

#[test]
fn relation_crud() {
    let mut store = Rhyzome::new();
    store
        .add_relation(b"edge", b"a", b"b", b"payload".to_vec(), 5)
        .unwrap();
    let rel = store.get_relation(b"edge", b"a", b"b").unwrap().unwrap();
    assert_eq!(rel.name, b"edge".to_vec());
    assert_eq!(rel.from, b"a".to_vec());
    assert_eq!(rel.to, b"b".to_vec());
    assert_eq!(rel.payload, b"payload".to_vec());
    assert_eq!(rel.timestamp, 5);
    assert!(store.get_relation(b"edge", b"b", b"a").unwrap().is_none());
    assert!(store.delete_relation(b"edge", b"a", b"b").unwrap());
    assert!(store.get_relation(b"edge", b"a", b"b").unwrap().is_none());
    assert!(!store.delete_relation(b"edge", b"a", b"b").unwrap());
}

#[test]
fn relation_rejects_invalid_components() {
    let mut store = Rhyzome::new();
    assert_eq!(
        store.add_relation(b"ed_ge", b"a", b"b", vec![], 0),
        Err(RhyzomeError::KeyEncodingError)
    );
    assert_eq!(
        store.get_relation(b"edge", b"", b"b"),
        Err(RhyzomeError::KeyEncodingError)
    );
    assert_eq!(
        store.delete_relation(b"edge", b"a", b"b_"),
        Err(RhyzomeError::KeyEncodingError)
    );
}

#[test]
fn iter_nodes_in_insertion_order() {
    let mut store = Rhyzome::new();
    store.add_node(node(b"b", b"", 0));
    store.add_node(node(b"a", b"", 0));
    store.add_node(node(b"c", b"", 0));
    let ids = store.iter_nodes();
    assert_eq!(ids, vec![b"b".to_vec(), b"a".to_vec(), b"c".to_vec()]);
}

#[test]
fn list_relations_decodes_stored_keys() {
    let mut store = Rhyzome::new();
    store.add_relation(b"edge", b"a", b"b", vec![], 0).unwrap();
    store.add_relation(b"likes", b"b", b"c", vec![], 0).unwrap();
    let triples = store.list_relations();
    assert_eq!(
        triples,
        vec![
            (b"edge".to_vec(), b"a".to_vec(), b"b".to_vec()),
            (b"likes".to_vec(), b"b".to_vec(), b"c".to_vec()),
        ]
    );
}

#[test]
fn query_nodes_filters_by_payload() {
    let mut store = Rhyzome::new();
    store.add_node(node(b"n1", b"keep", 0));
    store.add_node(node(b"n2", b"drop", 0));
    store.add_node(node(b"n3", b"keep", 0));
    let ids = store.query_nodes(|p: &Vec<u8>| p.as_slice() == b"keep");
    assert_eq!(ids, vec![b"n1".to_vec(), b"n3".to_vec()]);
    let none = store.query_nodes(|_p: &Vec<u8>| false);
    assert!(none.is_empty());
}

#[test]
fn dangling_relation_survives_node_delete() {
    let mut store = Rhyzome::new();
    store.add_node(node(b"A", b"", 0));
    store.add_node(node(b"B", b"", 0));
    store
        .add_relation(b"edge", b"A", b"B", b"link".to_vec(), 0)
        .unwrap();
    assert!(store.delete_node(b"A"));
    let rel = store.get_relation(b"edge", b"A", b"B").unwrap().unwrap();
    assert_eq!(rel.payload, b"link".to_vec());
}

#[test]
fn snapshot_sees_pre_write_state() {
    let mut store = Rhyzome::new();
    store.add_node(node(b"n1", b"old", 1));
    let snap = store.snapshot();
    store.update_node(node(b"n1", b"new", 2));
    store.add_node(node(b"n2", b"other", 3));
    assert_eq!(snap.get_node(b"n1").unwrap().payload, b"old".to_vec());
    assert!(snap.get_node(b"n2").is_none());
    assert_eq!(store.get_node(b"n1").unwrap().payload, b"new".to_vec());
}

#[test]
fn snapshot_traversal_unaffected_by_concurrent_write() {
    let mut store = Rhyzome::new();
    store.add_relation(b"edge", b"A", b"B", vec![], 0).unwrap();
    let snap = store.snapshot();
    store.add_relation(b"edge", b"B", b"C", vec![], 0).unwrap();
    // the snapshot's walk sees the pre-write graph for its whole duration
    assert_eq!(snap.dfs(b"A"), vec![b"A".to_vec(), b"B".to_vec()]);
    assert_eq!(
        store.dfs(b"A"),
        vec![b"A".to_vec(), b"B".to_vec(), b"C".to_vec()]
    );
}

#[test]
fn query_relations_filters_decoded_triples() {
    let mut store = Rhyzome::new();
    store.add_relation(b"edge", b"a", b"b", vec![], 0).unwrap();
    store.add_relation(b"likes", b"a", b"c", vec![], 0).unwrap();
    store.add_relation(b"edge", b"c", b"d", vec![], 0).unwrap();
    let from_a = store.query_relations(|_n: &Vec<u8>, f: &Vec<u8>, _t: &Vec<u8>| {
        f.as_slice() == b"a"
    });
    assert_eq!(
        from_a,
        vec![
            (b"edge".to_vec(), b"a".to_vec(), b"b".to_vec()),
            (b"likes".to_vec(), b"a".to_vec(), b"c".to_vec()),
        ]
    );
    let edges = store.query_relations(|n: &Vec<u8>, _f: &Vec<u8>, _t: &Vec<u8>| {
        n.as_slice() == b"edge"
    });
    assert_eq!(edges.len(), 2);
}
