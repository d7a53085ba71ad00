use size_check::select::{JsonViewerApp, SelState, SelectionSet};
use size_check::tree::{FileNode, FolderNode};

fn file(path: &str, name: &str, size: u64) -> FileNode {
    FileNode { path: path.to_string(), name: name.to_string(), size }
}

fn sample_tree() -> FolderNode {
    FolderNode {
        path: "/r".to_string(),
        name: "r".to_string(),
        size: 60,
        files: vec![file("/r/x.mkv", "x.mkv", 10)],
        subfolders: vec![FolderNode {
            path: "/r/a".to_string(),
            name: "a".to_string(),
            size: 50,
            files: vec![file("/r/a/f1.mkv", "f1.mkv", 20), file("/r/a/f2.mkv", "f2.mkv", 30)],
            subfolders: vec![],
        }],
    }
}

#[test]
fn selection_set_insert_remove() {
    let mut sel = SelectionSet::new();
    assert!(sel.is_empty());
    sel.insert("/r/a");
    sel.insert("/r/a");
    assert_eq!(sel.len(), 1);
    assert!(sel.contains("/r/a"));
    sel.remove("/r/a");
    assert!(!sel.contains("/r/a"));
    assert!(sel.is_empty());
}

#[test]
fn deselect_one_child_turns_partial() {
    let folder = sample_tree();
    let mut app = JsonViewerApp::new(sample_tree());
    app.select_folder_recursive(&folder.subfolders[0]);
    // The parent folder with every descendant selected reads as full.
    assert_eq!(app.selection_state(&folder.subfolders[0]), SelState::FullySelected);
    assert_eq!(app.selected_files.len(), 3);
    // Deselect one child file: the folder recomputes to partially selected.
    app.selected_files.remove("/r/a/f1.mkv");
    assert_eq!(app.selection_state(&folder.subfolders[0]), SelState::PartiallySelected);
    // Deselect everything below it: unselected again.
    app.deselect_folder_recursive(&folder.subfolders[0]);
    assert_eq!(app.selection_state(&folder.subfolders[0]), SelState::Unselected);
}

#[test]
fn tri_state_on_root() {
    let folder = sample_tree();
    let mut app = JsonViewerApp::new(sample_tree());
    assert_eq!(app.selection_state(&folder), SelState::Unselected);
    app.selected_files.insert("/r/x.mkv");
    assert_eq!(app.selection_state(&folder), SelState::PartiallySelected);
    app.select_folder_recursive(&folder);
    assert_eq!(app.selection_state(&folder), SelState::FullySelected);
}

#[test]
fn select_confirm_reconcile_removes_subtree() {
    let folder = sample_tree();
    let mut app = JsonViewerApp::new(sample_tree());
    app.select_folder_recursive(&folder.subfolders[0]);
    let staged = app.confirm_selected();
    assert_eq!(staged.len(), 3);
    assert!(app.selected_files.is_empty());
    assert!(!app.confirm_deletion);
    assert_eq!(app.pending_deletions.len(), 3);
    app.apply_deletions();
    // Exactly the selected subtree is gone, and every ancestor shrank by
    // exactly its aggregate size.
    assert_eq!(app.root_folder.subfolders.len(), 0);
    assert_eq!(app.root_folder.files.len(), 1);
    assert_eq!(app.root_folder.size, 10);
    assert_eq!(app.pending_deletions.len(), 0);
}

#[test]
fn stale_path_still_pruned_and_batch_continues() {
    // Confirming paths that no longer exist anywhere must still prune them
    // from the in-memory tree, and the rest of the batch must be processed.
    let mut app = JsonViewerApp::new(sample_tree());
    app.request_delete("/r/a/f1.mkv");
    assert!(app.confirm_deletion);
    app.request_delete("/no/such/path");
    app.request_delete("/r/x.mkv");
    let staged = app.confirm_selected();
    assert_eq!(staged.len(), 3);
    app.apply_deletions();
    assert_eq!(app.root_folder.files.len(), 0);
    assert_eq!(app.root_folder.subfolders.len(), 1);
    assert_eq!(app.root_folder.subfolders[0].files.len(), 1);
    assert_eq!(app.root_folder.subfolders[0].files[0].name, "f2.mkv");
    assert_eq!(app.root_folder.subfolders[0].size, 30);
    assert_eq!(app.root_folder.size, 30);
}

#[test]
fn cancel_keeps_selection() {
    let mut app = JsonViewerApp::new(sample_tree());
    app.request_delete("/r/x.mkv");
    assert!(app.confirm_deletion);
    app.cancel_confirmation();
    assert!(!app.confirm_deletion);
    assert!(app.selected_files.contains("/r/x.mkv"));
}

#[test]
fn reconcile_folder_path_removes_whole_subtree() {
    let mut app = JsonViewerApp::new(sample_tree());
    app.request_delete("/r/a");
    app.confirm_selected();
    app.apply_deletions();
    assert_eq!(app.root_folder.subfolders.len(), 0);
    assert_eq!(app.root_folder.size, 10);
}
