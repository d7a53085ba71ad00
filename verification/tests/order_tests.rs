use size_check::order::sort_folder;
use size_check::tree::{FileNode, FolderNode};

fn file(name: &str, size: u64) -> FileNode {
    FileNode { path: format!("/r/{}", name), name: name.to_string(), size }
}

fn leaf(name: &str, files: Vec<FileNode>) -> FolderNode {
    let size = files.iter().map(|f| f.size).sum();
    FolderNode {
        path: format!("/r/{}", name),
        name: name.to_string(),
        size,
        files,
        subfolders: vec![],
    }
}

fn sample() -> FolderNode {
    FolderNode {
        path: "/r".to_string(),
        name: "r".to_string(),
        size: 600,
        files: vec![file("small.mkv", 100), file("big.mkv", 300)],
        subfolders: vec![
            leaf("tiny", vec![file("t.mkv", 50)]),
            leaf("huge", vec![file("h1.mkv", 100), file("h2.mkv", 50)]),
        ],
    }
}

fn file_sizes(f: &FolderNode) -> Vec<u64> {
    f.files.iter().map(|x| x.size).collect()
}

#[test]
fn by_file_size_orders_descending() {
    let mut tree = sample();
    sort_folder(&mut tree, "file");
    assert_eq!(file_sizes(&tree), vec![300, 100]);
    // Subfolders keep their order under the file policy, but their own
    // files are sorted too.
    assert_eq!(tree.subfolders[0].name, "tiny");
    assert_eq!(file_sizes(&tree.subfolders[1]), vec![100, 50]);
}

#[test]
fn by_folder_size_orders_subfolders() {
    let mut tree = sample();
    sort_folder(&mut tree, "folder");
    assert_eq!(tree.subfolders[0].name, "huge");
    assert_eq!(tree.subfolders[1].name, "tiny");
    // The file policy was not applied: files keep their prior order.
    assert_eq!(file_sizes(&tree), vec![100, 300]);
}

#[test]
fn sorting_twice_is_the_same_as_once() {
    let mut once = sample();
    sort_folder(&mut once, "file");
    let mut twice = sample();
    sort_folder(&mut twice, "file");
    sort_folder(&mut twice, "file");
    assert_eq!(file_sizes(&once), file_sizes(&twice));
    let names_once: Vec<String> = once.files.iter().map(|f| f.name.clone()).collect();
    let names_twice: Vec<String> = twice.files.iter().map(|f| f.name.clone()).collect();
    assert_eq!(names_once, names_twice);
}

#[test]
fn ties_keep_prior_order() {
    let mut tree = FolderNode {
        path: "/r".to_string(),
        name: "r".to_string(),
        size: 30,
        files: vec![file("first.mkv", 10), file("second.mkv", 10), file("third.mkv", 10)],
        subfolders: vec![],
    };
    sort_folder(&mut tree, "file");
    let names: Vec<String> = tree.files.iter().map(|f| f.name.clone()).collect();
    assert_eq!(names, vec!["first.mkv", "second.mkv", "third.mkv"]);
}

#[test]
fn sort_keeps_sizes_and_membership() {
    let mut tree = sample();
    sort_folder(&mut tree, "file");
    assert_eq!(tree.size, 600);
    let mut sizes = file_sizes(&tree);
    sizes.sort();
    assert_eq!(sizes, vec![100, 300]);
    assert_eq!(tree.subfolders.len(), 2);
}
