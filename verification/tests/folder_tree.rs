//! The folder selection model: lazy materialization, toggle propagation,
//! and selected-path persistence.

use lnxdrive_client::folder_model::FolderSelectionModel;

const TREE: &[u8] = br#"{"name":"root","path":"/","children":[{"name":"Docs","path":"/Docs","children":[]},{"name":"Photos","path":"/Photos","children":[{"name":"2024","path":"/Photos/2024","children":[]}]}]}"#;

fn sel(paths: &[&[u8]]) -> Vec<Vec<u8>> {
    paths.iter().map(|p| p.to_vec()).collect()
}

#[test]
fn initial_reconciliation_marks_only_materialized_roots() {
    let model = FolderSelectionModel::populate_from_json(TREE, &sel(&[b"/Docs"]));
    assert_eq!(model.node_count(), 2);
    assert_eq!(model.path_of(0), &b"/Docs".to_vec());
    assert!(model.is_selected(0));
    assert_eq!(model.path_of(1), &b"/Photos".to_vec());
    assert!(!model.is_selected(1));
}

#[test]
fn expansion_seeds_children_with_the_parent_value_now() {
    // the persisted list names /Docs only; 2024 is not yet materialized
    let mut model = FolderSelectionModel::populate_from_json(TREE, &sel(&[b"/Docs"]));
    model.expand(1);
    assert_eq!(model.node_count(), 3);
    assert_eq!(model.path_of(2), &b"/Photos/2024".to_vec());
    // it inherits Photos' current value (false), not the persisted list
    assert!(!model.is_selected(2));
}

#[test]
fn expansion_after_a_toggle_inherits_the_later_value() {
    let mut model = FolderSelectionModel::populate_from_json(TREE, &sel(&[]));
    model.toggle(1, true);
    model.expand(1);
    assert!(model.is_selected(2));
}

#[test]
fn toggle_propagates_down_and_never_up() {
    let mut model = FolderSelectionModel::populate_from_json(TREE, &sel(&[]));
    model.expand(1);
    // select the subtree
    model.toggle(1, true);
    assert!(model.is_selected(1));
    assert!(model.is_selected(2));
    assert!(!model.is_selected(0));
    // deselect the child only: the parent is untouched
    model.toggle(2, false);
    assert!(model.is_selected(1));
    assert!(!model.is_selected(2));
    // deselect the parent: the child is overridden again
    model.toggle(2, true);
    model.toggle(1, false);
    assert!(!model.is_selected(1));
    assert!(!model.is_selected(2));
}

#[test]
fn selected_paths_reports_every_selected_node_in_order() {
    let mut model = FolderSelectionModel::populate_from_json(TREE, &sel(&[]));
    model.expand(1);
    model.toggle(0, true);
    model.toggle(2, true);
    assert_eq!(model.selected_paths(), sel(&[b"/Docs", b"/Photos/2024"]));
}

#[test]
fn selection_round_trips_through_the_persisted_list() {
    let mut model = FolderSelectionModel::populate_from_json(TREE, &sel(&[]));
    model.expand(1);
    model.toggle(0, true);
    model.toggle(2, true);
    let persisted = model.selected_paths();
    // what comes back from the daemon right after is what was sent
    model.reconcile_selection(&persisted);
    assert_eq!(model.selected_paths(), persisted);
    assert!(model.is_selected(0));
    assert!(!model.is_selected(1));
    assert!(model.is_selected(2));
}

#[test]
fn array_of_roots_and_unparsable_texts() {
    let model = FolderSelectionModel::populate_from_json(
        br#"[{"name":"A","path":"/A","children":[]},{"name":"B","path":"/B"}]"#,
        &sel(&[b"/B"]),
    );
    assert_eq!(model.node_count(), 2);
    assert!(!model.is_selected(0));
    assert!(model.is_selected(1));

    let empty = FolderSelectionModel::populate_from_json(b"oops", &sel(&[]));
    assert_eq!(empty.node_count(), 0);
    let not_folders = FolderSelectionModel::populate_from_json(b"[{\"name\":1}]", &sel(&[]));
    assert_eq!(not_folders.node_count(), 0);
}

#[test]
fn expanding_a_leaf_changes_nothing() {
    let mut model = FolderSelectionModel::populate_from_json(TREE, &sel(&[]));
    model.expand(0);
    assert_eq!(model.node_count(), 2);
}

#[test]
fn toggle_propagates_through_all_materialized_levels() {
    // root -> Photos -> 2024 -> RAW: three levels below the root list
    let tree = br#"[{"name":"Photos","path":"/Photos","children":[{"name":"2024","path":"/Photos/2024","children":[{"name":"RAW","path":"/Photos/2024/RAW","children":[]}]}]}]"#;
    let mut model = FolderSelectionModel::populate_from_json(tree, &sel(&[]));
    model.expand(0);
    model.expand(1);
    assert_eq!(model.node_count(), 3);
    model.toggle(0, true);
    assert!(model.is_selected(0) && model.is_selected(1) && model.is_selected(2));
    // the middle node toggles its own subtree only
    model.toggle(1, false);
    assert!(model.is_selected(0));
    assert!(!model.is_selected(1) && !model.is_selected(2));
    assert_eq!(model.selected_paths(), sel(&[b"/Photos"]));
}
