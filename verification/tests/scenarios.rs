use zealandia::birds::{build_tree, GroupError};

#[test]
fn search_kea_by_common_name() {
    let tree = build_tree();
    let kea = tree.search_by_name("Kea").expect("Kea should be found");
    assert_eq!(tree.nodes[kea].name(), "Kea");
    assert_eq!(tree.nodes[kea].scientific_name(), "notabilis");
    assert_eq!(
        tree.full_scientific_name(kea),
        "Animalia Chordata Aves Psittiaciformes Strigopidae Nestor notabilis"
    );
}

#[test]
fn search_kiwi_by_scientific_name_case_and_trim() {
    let tree = build_tree();
    let kiwi = tree
        .search_by_scientific_name("  OWENII ")
        .expect("the epithet should match case-insensitively after trimming");
    assert_eq!(tree.nodes[kiwi].name(), "Little Spotted Kiwi");
}

#[test]
fn birds_in_aves_in_preorder() {
    let tree = build_tree();
    let birds = tree.birds_in_group_from_name("Aves").expect("Aves exists");
    let names: Vec<&str> = birds.iter().map(|&b| tree.nodes[b].name()).collect();
    assert_eq!(names, vec!["Kaka", "Kea", "Little Spotted Kiwi", "Piwakawaka", "Tui"]);
}

#[test]
fn birds_in_prosthemadera() {
    let tree = build_tree();
    let birds = tree.birds_in_group_from_name("Prosthemadera").expect("genus exists");
    let names: Vec<&str> = birds.iter().map(|&b| tree.nodes[b].name()).collect();
    assert_eq!(names, vec!["Tui"]);
}

#[test]
fn unknown_group_is_an_error() {
    let tree = build_tree();
    let r = tree.birds_in_group_from_name("Reptilia");
    assert!(matches!(r, Err(GroupError::NoGroupExistsErr)));
}

#[test]
fn empty_bird_name_is_rejected_and_tree_unchanged() {
    let mut tree = build_tree();
    let before = tree.nodes.len();
    let r = tree.add_bird("Nestor", "", "x");
    assert_eq!(r, Err(GroupError::InputOutsideOfBoundsError));
    assert_eq!(tree.nodes.len(), before);
    assert_eq!(tree.direct_parents.len(), 4);
}

#[test]
fn bellbird_discoverable_after_adding_group_and_species() {
    let mut tree = build_tree();
    tree.add_group("Meliphagidae", "Anthornis").expect("parent exists");
    tree.add_bird("Anthornis", "Bellbird", "melanura").expect("parent exists");
    let bellbird = tree.search_by_name("bellbird").expect("new bird should be searchable");
    assert_eq!(tree.nodes[bellbird].name(), "Bellbird");
    let path = tree.full_scientific_name(bellbird);
    assert!(path.ends_with("Meliphagidae Anthornis melanura"), "path was {path}");
}

#[test]
fn node_details_shows_three_lines_for_a_bird() {
    let tree = build_tree();
    let kea = tree.search_by_name("Kea").unwrap();
    assert_eq!(
        tree.node_details(kea),
        "Kea\nnotabilis\nAnimalia Chordata Aves Psittiaciformes Strigopidae Nestor notabilis"
    );
    assert_eq!(tree.node_details(tree.root), "Animalia");
}

#[test]
fn added_bird_is_searchable_end_to_end() {
    let mut tree = build_tree();
    let b = zealandia::laws::added_bird_is_searchable(
        &mut tree,
        "Apteryx",
        "Great Spotted Kiwi",
        "haastii",
    )
    .expect("the genus exists");
    assert_eq!(tree.nodes[b].name(), "Great Spotted Kiwi");
    assert_eq!(tree.search_by_name("  great spotted KIWI "), Some(b));
}

#[test]
fn full_name_is_trimmed_at_the_ends() {
    let mut tree = build_tree();
    tree.add_bird("Nestor", "Mystery", " epi ").unwrap();
    let hit = tree.search_by_name("Mystery").unwrap();
    let path = tree.full_scientific_name(hit);
    assert!(path.ends_with("epi"), "path was {path:?}");
    assert!(!path.starts_with(' ') && !path.ends_with(' '));
}

#[test]
fn search_accepts_non_breaking_space_padding() {
    let tree = build_tree();
    let kea = tree.search_by_name("\u{00A0}Kea\u{00A0}").expect("query padded with NBSP");
    assert_eq!(tree.nodes[kea].scientific_name(), "notabilis");
}
