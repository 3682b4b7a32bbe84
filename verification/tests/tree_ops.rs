use zealandia::birds::{build_tree, BirdTree, GroupError, Node};

#[test]
fn children_of_a_bird_is_a_type_error() {
    let tree = build_tree();
    let kea = tree.search_by_name("Kea").unwrap();
    assert!(tree.nodes[kea].children().is_err());
    let root_children = tree.nodes[tree.root].children().expect("the root is a group");
    assert_eq!(root_children.len(), 1);
}

#[test]
fn adding_under_a_bird_fails() {
    let mut nodes: Vec<Node> = Vec::new();
    nodes.push(Node::new_group("Animalia"));
    let sparrow = Node::add(&mut nodes, 0, Node::new_bird("Sparrow", "domesticus")).unwrap();
    let r = Node::add(&mut nodes, sparrow, Node::new_bird("Another", "bird"));
    assert!(r.is_err());
    assert_eq!(nodes.len(), 2);
}

#[test]
fn tree_with_bird_root_is_refused() {
    let mut nodes: Vec<Node> = Vec::new();
    nodes.push(Node::new_bird("Sparrow", "domesticus"));
    assert!(BirdTree::new(nodes, 0, Vec::new()).is_none());
}

#[test]
fn tree_with_bird_direct_parent_is_refused() {
    let mut nodes: Vec<Node> = Vec::new();
    nodes.push(Node::new_group("Animalia"));
    let sparrow = Node::add(&mut nodes, 0, Node::new_bird("Sparrow", "domesticus")).unwrap();
    assert!(BirdTree::new(nodes, 0, vec![sparrow]).is_none());
}

#[test]
fn node_accessors() {
    let g = Node::new_group("Aves");
    assert_eq!(g.name(), "Aves");
    assert_eq!(g.scientific_name(), "Aves");
    assert!(g.parent().is_none());
    let b = Node::new_bird("Kea", "notabilis");
    assert_eq!(b.name(), "Kea");
    assert_eq!(b.scientific_name(), "notabilis");
    assert!(b.parent().is_none());
}

#[test]
fn parent_links_are_set_by_add() {
    let tree = build_tree();
    let kea = tree.search_by_name("Kea").unwrap();
    let nestor = tree.nodes[kea].parent().expect("a bird in the tree has a parent");
    assert_eq!(tree.nodes[nestor].name(), "Nestor");
    assert!(tree.nodes[tree.root].parent().is_none());
}

#[test]
fn group_name_too_long_is_rejected() {
    let mut tree = build_tree();
    let long = "x".repeat(51);
    let r = tree.add_group("Aves", &long);
    assert_eq!(r, Err(GroupError::InputOutsideOfBoundsError));
    let ok = "x".repeat(50);
    assert!(tree.add_group("Aves", &ok).is_ok());
}

#[test]
fn length_rule_counts_code_points_not_bytes() {
    let mut tree = build_tree();
    let umlauts = "ü".repeat(50);
    assert_eq!(umlauts.len(), 100);
    assert!(tree.add_group("Aves", &umlauts).is_ok());
}

#[test]
fn add_group_under_unknown_parent_fails() {
    let mut tree = build_tree();
    let before = tree.nodes.len();
    assert_eq!(tree.add_group("Mammalia", "Canis"), Err(GroupError::NoGroupExistsErr));
    assert_eq!(
        tree.add_bird("Mammalia", "Wolf", "lupus"),
        Err(GroupError::NoGroupExistsErr)
    );
    assert_eq!(tree.nodes.len(), before);
}

#[test]
fn new_group_is_not_searchable_as_bird() {
    let mut tree = build_tree();
    tree.add_group("Aves", "Falconiformes").unwrap();
    assert!(tree.search_by_name("Falconiformes").is_none());
    let birds = tree.birds_in_group_from_name("Falconiformes").unwrap();
    assert!(birds.is_empty());
}

#[test]
fn first_match_wins_in_index_order() {
    let mut tree = build_tree();
    tree.add_bird("Apteryx", "Kea", "impostor").unwrap();
    let hit = tree.search_by_name("Kea").unwrap();
    assert_eq!(tree.nodes[hit].scientific_name(), "notabilis");
}

#[test]
fn search_on_fresh_group_after_add_bird() {
    let mut tree = build_tree();
    tree.add_group("Aves", "Strigiformes").unwrap();
    tree.add_bird("Strigiformes", "Morepork", "novaeseelandiae").unwrap();
    let hit = tree.search_by_name("  MOREPORK  ").expect("index must cover the new parent");
    assert_eq!(tree.nodes[hit].scientific_name(), "novaeseelandiae");
    assert_eq!(tree.direct_parents.len(), 5);
}
