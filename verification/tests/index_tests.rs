use jim::{NodeKind, StructuralIndex, Tokenizer};

fn build_index(json: &str) -> StructuralIndex {
    let mut tokenizer = Tokenizer::new(json.to_string());
    let tokens = tokenizer.tokenize_all();
    StructuralIndex::from_tokens(&tokens)
}

#[test]
fn test_index_from_simple_object() {
    let index = build_index(r#"{"key": "value"}"#);
    assert!(!index.is_empty());

    // object, key string and value string
    assert!(index.len() >= 3);

    let first = index.get(0).unwrap();
    assert_eq!(first.kind, NodeKind::Object);
}

#[test]
fn test_node_at_offset() {
    let index = build_index(r#"{"key": "value"}"#);

    let node = index.node_at(0);
    assert!(node.is_some());
    assert_eq!(node.unwrap().kind, NodeKind::Object);
}

#[test]
fn test_sibling_navigation() {
    let index = build_index(r#"[1, 2, 3]"#);

    let first_num_id = index
        .nodes()
        .iter()
        .position(|n| n.kind == NodeKind::Number)
        .unwrap();

    let next = index.next_sibling(first_num_id);
    assert!(next.is_some());

    let next_node = index.get(next.unwrap()).unwrap();
    assert_eq!(next_node.kind, NodeKind::Number);
}

#[test]
fn test_object_and_array_discovery_order() {
    // tokenizing then indexing yields the nodes in discovery order, and the
    // sibling of the first key is the second key
    let json = r#"{"a": 1, "b": [2, 3]}"#;
    let index = build_index(json);

    let kinds: Vec<NodeKind> = index.nodes().iter().map(|n| n.kind).collect();
    assert_eq!(
        kinds,
        vec![
            NodeKind::Object,
            NodeKind::String,
            NodeKind::Number,
            NodeKind::String,
            NodeKind::Array,
            NodeKind::Number,
            NodeKind::Number,
        ]
    );

    // the sibling scan walks nodes of the same depth and parent, so the
    // "a" key's next sibling is its value (node 2); the key-to-key hop is
    // next_key, which lands on "b" (node 3)
    assert_eq!(index.next_sibling(1), Some(2));
    assert_eq!(index.prev_sibling(2), Some(1));
    assert_eq!(index.next_key(index.get(1).unwrap().start), Some(3));
}

#[test]
fn test_containment_and_parenthood() {
    let json = r#"{"a": 1, "b": [2, 3]}"#;
    let index = build_index(json);
    let nodes = index.nodes();
    for (i, n) in nodes.iter().enumerate() {
        assert!(n.start < n.end);
        if let Some(p) = n.parent {
            assert!(p < i);
            assert!(nodes[p].is_container());
            assert!(nodes[p].start <= n.start);
            assert!(n.end <= nodes[p].end);
        }
    }
    // the array node spans "[2, 3]"
    assert_eq!(nodes[4].start, 14);
    assert_eq!(nodes[4].end, 20);
    assert_eq!(nodes[4].parent, Some(0));
}

#[test]
fn test_parent_first_child_children() {
    let json = r#"{"a": 1, "b": [2, 3]}"#;
    let index = build_index(json);

    assert_eq!(index.parent(5), Some(4));
    assert_eq!(index.first_child(4), Some(5));
    assert_eq!(index.children(4), vec![5, 6]);
    assert_eq!(index.children(0), vec![1, 2, 3, 4]);
    assert_eq!(index.first_child(0), Some(1));
    assert_eq!(index.parent(0), None);
}

#[test]
fn test_key_value_parity_queries() {
    // keys sit at even slots among an object's children, values at odd slots
    let json = r#"{"a": 1, "b": [2, 3]}"#;
    let index = build_index(json);

    // next_key from the start finds "a" (node 1), then "b" (node 3)
    let k1 = index.next_key(0).unwrap();
    assert_eq!(k1, 1);
    let k2 = index.next_key(index.get(k1).unwrap().start).unwrap();
    assert_eq!(k2, 3);
    assert_eq!(index.next_key(index.get(k2).unwrap().start), None);
    assert_eq!(index.prev_key(index.get(k2).unwrap().start), Some(1));

    // values: the number 1 (node 2), then the array children
    let v1 = index.next_value(1).unwrap();
    assert_eq!(v1, 2);
    let v2 = index.next_value(index.get(v1).unwrap().start).unwrap();
    assert_eq!(v2, 4);
    // the object itself is a top-level node, hence a value
    assert_eq!(index.prev_value(index.get(v1).unwrap().start), Some(0));
}

#[test]
fn test_node_at_innermost() {
    let json = r#"{"a": 1, "b": [2, 3]}"#;
    let index = build_index(json);
    // offset 15 sits on the "2" inside the array: the innermost node is the
    // number, not the array or the object
    let n = index.node_at(15).unwrap();
    assert_eq!(n.kind, NodeKind::Number);
    assert_eq!(n.parent, Some(4));
    // offset 13 sits on the colon-space gap inside the object
    let g = index.node_at(13).unwrap();
    assert_eq!(g.kind, NodeKind::Object);
}
