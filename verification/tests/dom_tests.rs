use webby::dom::{AttributeMap, Document, Node, NodeKind};

#[test]
fn empty_document_has_document_root() {
    let document = Document::empty();

    assert_eq!(document.root.id, 0);
    assert!(matches!(document.root.kind, NodeKind::Document));
    assert!(document.root.children.is_empty());
}

#[test]
fn element_constructor_normalizes_tag_name() {
    let node = Node::element("H1", AttributeMap::new());

    assert!(matches!(
        node.kind,
        NodeKind::Element(element) if element.tag_name == "h1"
    ));
}

#[test]
fn stable_ids_are_assigned_in_tree_order() {
    let mut document = Document::empty();
    document
        .root
        .children
        .push(Node::element("body", AttributeMap::new()));
    document.root.children[0].children.push(Node::text("Hello"));

    document.assign_stable_ids();

    assert_eq!(document.root.id, 0);
    assert_eq!(document.root.children[0].id, 1);
    assert_eq!(document.root.children[0].children[0].id, 2);
}

#[test]
fn mutation_helpers_update_tree_without_panicking() {
    let mut document = Document::empty();
    document
        .root
        .children
        .push(Node::element("body", AttributeMap::new()));
    document.assign_stable_ids();

    assert!(document.set_attribute(1, "ID", "main"));
    assert!(document.set_text_content(1, "Changed"));
    assert_eq!(document.root.children[0].children[0].id, 2);
    assert!(document.remove_node(2).is_some());
    assert!(document.root.children[0].children.is_empty());
}

#[test]
fn shadow_children_are_assigned_and_found_deterministically() {
    let mut document = Document::empty();
    document
        .root
        .children
        .push(Node::element("x-card", AttributeMap::new()));
    document.assign_stable_ids();

    assert!(document.attach_shadow_root(1));
    assert!(document.append_shadow_child(1, Node::text("Shadow")));
    document.assign_stable_ids();

    let host = document.find_node(1);
    assert!(host.is_some_and(|node| node.render_children().len() == 1));
    assert!(matches!(
        document.find_node(2).map(|node| &node.kind),
        Some(NodeKind::Text(text)) if text == "Shadow"
    ));
}

#[test]
fn set_attribute_lowercases_name_and_reads_back() {
    let mut document = Document::empty();
    document
        .root
        .children
        .push(Node::element("div", AttributeMap::new()));
    document.assign_stable_ids();

    assert!(document.set_attribute(1, "Data-X", "one"));
    assert!(document.set_attribute(1, "data-x", "two"));
    let node = document.find_node(1).expect("element");
    match &node.kind {
        NodeKind::Element(element) => {
            assert_eq!(element.attributes.len(), 1);
            assert_eq!(element.attributes.get("data-x").map(String::as_str), Some("two"));
        }
        _ => panic!("expected element"),
    }
}

#[test]
fn mutations_on_missing_or_text_nodes_are_refused() {
    let mut document = Document::empty();
    document.root.children.push(Node::text("plain"));
    document.assign_stable_ids();

    assert!(!document.set_attribute(1, "id", "x"));
    assert!(!document.set_attribute(9, "id", "x"));
    assert!(!document.attach_shadow_root(1));
    assert!(!document.append_child(9, Node::text("x")));
    assert!(document.remove_node(0).is_none());
    assert!(document.remove_node(9).is_none());
}

#[test]
fn next_node_id_is_one_past_the_largest_id() {
    let mut document = Document::empty();
    document
        .root
        .children
        .push(Node::element("p", AttributeMap::new()));
    document.root.children[0].children.push(Node::text("a"));
    document.root.children.push(Node::text("b"));
    document.assign_stable_ids();

    assert_eq!(document.next_node_id(), 4);
    assert_eq!(document.root.children[1].id, 3);
}

#[test]
fn attribute_map_keeps_keys_sorted() {
    let mut attributes = AttributeMap::new();
    attributes.insert("src".to_string(), "a".to_string());
    attributes.insert("alt".to_string(), "b".to_string());
    attributes.insert("id".to_string(), "c".to_string());

    let keys: Vec<&str> = (0..attributes.len())
        .map(|index| attributes.entry(index).0.as_str())
        .collect();
    assert_eq!(keys, vec!["alt", "id", "src"]);
    assert!(attributes.contains_key("id"));
    assert!(!attributes.contains_key("ID"));
    assert!(!attributes.is_empty());
}

#[test]
fn tree_children_list_light_then_shadow_children() {
    let mut document = Document::empty();
    document
        .root
        .children
        .push(Node::element("x-card", AttributeMap::new()));
    document.root.children[0].children.push(Node::text("light"));
    document.assign_stable_ids();
    assert!(document.attach_shadow_root(1));
    assert!(document.append_shadow_child(1, Node::text("shadow")));
    document.assign_stable_ids();

    let host = document.find_node(1).expect("host");
    let ids: Vec<u64> = host.tree_children().iter().map(|node| node.id).collect();
    assert_eq!(ids, vec![2, 3]);
    assert_eq!(host.render_children().len(), 1);
    assert_eq!(document.next_node_id(), 4);
}

#[test]
fn assigning_stable_ids_twice_changes_nothing() {
    let mut document = webby::html::parse_document("<body><p>a<b>c</b></p><i>d</i></body>").expect("parses");
    document.assign_stable_ids();
    let once = document.clone();
    document.assign_stable_ids();
    assert_eq!(document, once);
}

#[test]
fn removal_succeeds_only_for_ids_below_the_root() {
    let mut document = webby::html::parse_document("<body><p>a</p></body>").expect("parses");
    document.assign_stable_ids();
    let root = document.root.id;
    assert!(document.remove_node(root).is_none());
    assert!(document.remove_node(9999).is_none());
    let removed = document.remove_node(1).expect("node 1 exists");
    assert_eq!(removed.id, 1);
    assert!(document.remove_node(1).is_none());
}
