use zealandia::birds::{build_tree, BirdTree, Node};
use zealandia::records::{bird_data_from_bird, tree_records, BirdData};

#[test]
fn records_carry_lowercased_parent_paths() {
    let tree = build_tree();
    let kea = tree.search_by_name("Kea").unwrap();
    let rec = bird_data_from_bird(&tree, kea);
    assert_eq!(rec.common_name, "Kea");
    assert_eq!(rec.name, "notabilis");
    assert_eq!(
        rec.parent_nodes,
        vec!["animalia", "chordata", "aves", "psittiaciformes", "strigopidae", "nestor"]
    );
}

#[test]
fn tree_records_cover_every_indexed_bird() {
    let tree = build_tree();
    let recs = tree_records(&tree);
    let commons: Vec<&str> = recs.iter().map(|r| r.common_name.as_str()).collect();
    assert_eq!(commons, vec!["Kaka", "Kea", "Little Spotted Kiwi", "Piwakawaka", "Tui"]);
}

#[test]
fn ingest_creates_missing_groups_with_original_case() {
    let mut nodes: Vec<Node> = Vec::new();
    nodes.push(Node::new_group("Animalia"));
    let mut tree = BirdTree::new(nodes, 0, Vec::new()).unwrap();
    let rec = BirdData {
        parent_nodes: vec!["animalia".to_string(), "chordata".to_string(), "nestor".to_string()],
        name: "notabilis".to_string(),
        common_name: "Kea".to_string(),
    };
    tree.insert_data(&rec);
    let kea = tree.search_by_name("Kea").expect("ingested bird is indexed");
    assert_eq!(tree.full_scientific_name(kea), "Animalia chordata nestor notabilis");
}

#[test]
fn ingest_descends_into_existing_groups_case_insensitively() {
    let mut tree = build_tree();
    let before = tree.nodes.len();
    let rec = BirdData {
        parent_nodes: vec![
            "animalia".to_string(),
            "chordata".to_string(),
            "aves".to_string(),
            "psittiaciformes".to_string(),
            "strigopidae".to_string(),
            "nestor".to_string(),
        ],
        name: "notabilis".to_string(),
        common_name: "Kea".to_string(),
    };
    tree.insert_data(&rec);
    // only the bird itself was created: every group on the path matched
    assert_eq!(tree.nodes.len(), before + 1);
    let hit = tree.search_by_name("Kea").unwrap();
    assert_eq!(
        tree.full_scientific_name(hit),
        "Animalia Chordata Aves Psittiaciformes Strigopidae Nestor notabilis"
    );
}

#[test]
fn ingest_does_not_duplicate_direct_parent_entries() {
    let mut tree = build_tree();
    let rec = BirdData {
        parent_nodes: vec![
            "animalia".to_string(),
            "chordata".to_string(),
            "aves".to_string(),
            "psittiaciformes".to_string(),
            "strigopidae".to_string(),
            "nestor".to_string(),
        ],
        name: "meridionalis".to_string(),
        common_name: "Kaka".to_string(),
    };
    tree.insert_data(&rec);
    assert_eq!(tree.direct_parents.len(), 4);
    let aves = tree.birds_in_group_from_name("Aves").unwrap();
    assert_eq!(aves.len(), 6);
}

#[test]
fn round_trip_keeps_every_saved_bird() {
    let mut tree = build_tree();
    let saved = tree_records(&tree);
    for rec in saved.iter() {
        tree.insert_data(rec);
    }
    let now = tree_records(&tree);
    for rec in saved.iter() {
        let found = now.iter().any(|r| {
            r.common_name == rec.common_name && r.name == rec.name
                && r.parent_nodes == rec.parent_nodes
        });
        assert!(found, "no record for {} after the round trip", rec.common_name);
    }
}

#[test]
fn saved_bird_returns_with_equivalent_path() {
    let mut tree = build_tree();
    let kea = tree.search_by_name("Kea").unwrap();
    let back = zealandia::laws::saved_bird_returns(&mut tree, kea);
    assert_eq!(tree.nodes[back].name(), "Kea");
    assert_eq!(tree.nodes[back].scientific_name(), "notabilis");
    assert_eq!(
        tree.full_scientific_name(back),
        "Animalia Chordata Aves Psittiaciformes Strigopidae Nestor notabilis"
    );
}
