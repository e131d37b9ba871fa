use cubby::{Id, Node, NodeKey, NodeManager};

const MAX_NODES: usize = 2000;

#[test]
fn keys_smoke() {
    let mut mgr = NodeManager::new(MAX_NODES);

    let key = mgr.add(Node::new(true));
    assert!(mgr.get(key).is_some());

    mgr.remove(key);
    assert!(!mgr.get(key).is_some());
}

#[test]
fn readme_keys_example() {
    let mut mgr = NodeManager::new(MAX_NODES);
    let key = mgr.add(Node::new(true));
    assert!(mgr.get(key).is_some());
    assert!(mgr.get(key).unwrap().data);
    mgr.remove(key);
    assert!(!mgr.get(key).is_some());
}

#[test]
fn node_key_parts() {
    let k: NodeKey = (3, 77);
    assert_eq!(k.idx(), 3);
    assert_eq!(k.nid(), 77);
}

#[test]
fn node_with_id_and_destroy() {
    let mut n = Node::with_id("x", 9);
    assert_eq!(*n.id(), Some(9));
    assert_eq!(n.data, "x");
    n.destroy();
    assert_eq!(*n.id(), None);
    assert_eq!(n.data, "x");
    assert!(Node::new(1u8).id().is_some());
}

#[test]
fn add_appends_then_reuses_freed_index_last_in_first_out() {
    let mut mgr = NodeManager::new(4);
    assert_eq!(mgr.add(Node::with_id('a', 1)), (0, 1));
    assert_eq!(mgr.add(Node::with_id('b', 2)), (1, 2));
    assert_eq!(mgr.add(Node::with_id('c', 3)), (2, 3));
    assert!(mgr.remove((0, 1)));
    assert!(mgr.remove((2, 3)));
    assert_eq!(mgr.add(Node::with_id('d', 4)), (2, 4));
    assert_eq!(mgr.add(Node::with_id('e', 5)), (0, 5));
    assert_eq!(mgr.add(Node::with_id('f', 6)), (3, 6));
    assert!(mgr.get((0, 1)).is_none());
    assert_eq!(mgr.get((0, 5)).unwrap().data, 'e');
}

#[test]
fn remove_refuses_wrong_or_stale_key() {
    let mut mgr = NodeManager::new(4);
    let k = mgr.add(Node::with_id(5u8, 10));
    assert!(!mgr.remove((k.0, 11)));
    assert!(mgr.remove(k));
    assert!(!mgr.remove(k));
    assert!(mgr.get(k).is_none());
    assert!(mgr.get_mut(k).is_none());
}

#[test]
fn get_mut_changes_data_in_place() {
    let mut mgr = NodeManager::new(4);
    let k = mgr.add(Node::with_id(5u8, 10));
    mgr.get_mut(k).unwrap().data = 6;
    assert_eq!(mgr.get(k).unwrap().data, 6);
    assert!(mgr.get_mut((k.0, 99)).is_none());
}

#[test]
fn parents_are_set_and_read_back() {
    let mut mgr = NodeManager::new(4);
    let root = mgr.add(Node::with_id("root", 1));
    let child = mgr.add(Node::with_id("child", 2));
    assert_eq!(mgr.get_pkey(child), None);
    assert!(mgr.get_parent(child).is_none());
    mgr.set_parent(child, root);
    assert_eq!(mgr.get_pkey(child), Some(root));
    assert_eq!(mgr.get_parent(child).unwrap().data, "root");
    // a wrong key sets nothing
    mgr.set_parent((root.0, 9), child);
    assert_eq!(mgr.get_pkey(root), None);
    // a parent that was removed is not reached
    assert!(mgr.remove(root));
    assert_eq!(mgr.get_pkey(child), Some(root));
    assert!(mgr.get_parent(child).is_none());
}

#[test]
fn box_iter_lists_live_nodes_in_order() {
    let mut mgr = NodeManager::new(4);
    let a = mgr.add(Node::with_id(1u8, 1));
    let _b = mgr.add(Node::with_id(2u8, 2));
    let _c = mgr.add(Node::with_id(3u8, 3));
    assert!(mgr.remove(a));
    let data: Vec<u8> = mgr.box_iter().iter().map(|n| n.data).collect();
    assert_eq!(data, vec![2, 3]);
    let empty: NodeManager<u8> = NodeManager::new(0);
    assert!(empty.box_iter().is_empty());
}

#[test]
fn data_written_through_get_mut_is_read_back() {
    let mut mgr = NodeManager::new(4);
    let k = mgr.add(Node::with_id(5u8, 10));
    mgr.get_mut(k).unwrap().set_data(7);
    assert_eq!(*mgr.get(k).unwrap().data(), 7);
    assert_eq!(*mgr.get(k).unwrap().id(), Some(10));
}
