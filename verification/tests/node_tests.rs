use jim::{NodeInfo, NodeKind};

#[test]
fn test_node_contains() {
    let node = NodeInfo::new(NodeKind::Object, 10, 20, 0, None);
    assert!(node.contains(10));
    assert!(node.contains(15));
    assert!(node.contains(19));
    assert!(!node.contains(20));
    assert!(!node.contains(9));
}

#[test]
fn test_node_is_container() {
    assert!(NodeInfo::new(NodeKind::Object, 0, 10, 0, None).is_container());
    assert!(NodeInfo::new(NodeKind::Array, 0, 10, 0, None).is_container());
    assert!(!NodeInfo::new(NodeKind::String, 0, 10, 0, None).is_container());
}

#[test]
fn test_node_is_value() {
    assert!(NodeInfo::new(NodeKind::String, 0, 10, 0, None).is_value());
    assert!(NodeInfo::new(NodeKind::Number, 0, 10, 0, None).is_value());
    assert!(NodeInfo::new(NodeKind::Boolean, 0, 10, 0, None).is_value());
    assert!(NodeInfo::new(NodeKind::Null, 0, 10, 0, None).is_value());
    assert!(!NodeInfo::new(NodeKind::Object, 0, 10, 0, None).is_value());
}

#[test]
fn test_node_len_and_display() {
    let node = NodeInfo::new(NodeKind::Array, 3, 9, 1, Some(0));
    assert_eq!(node.len(), 6);
    assert_eq!(node.kind.display(), "Array");
    assert_eq!(NodeKind::Unknown.display(), "Unknown");
}
