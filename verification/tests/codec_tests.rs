use size_check::codec::{parse_tree, serialize_tree};
use size_check::tree::{FileNode, FolderNode};

fn file(path: &str, name: &str, size: u64) -> FileNode {
    FileNode { path: path.to_string(), name: name.to_string(), size }
}

fn sample_tree() -> FolderNode {
    FolderNode {
        path: "/vol/root".to_string(),
        name: "root".to_string(),
        size: 400,
        files: vec![],
        subfolders: vec![FolderNode {
            path: "/vol/root/Media".to_string(),
            name: "Media".to_string(),
            size: 400,
            files: vec![
                file("/vol/root/Media/a.mkv", "a.mkv", 100),
                file("/vol/root/Media/b.mkv", "b.mkv", 300),
            ],
            subfolders: vec![],
        }],
    }
}

fn assert_same_shape(a: &FolderNode, b: &FolderNode) {
    assert_eq!(a.path, b.path);
    assert_eq!(a.name, b.name);
    assert_eq!(a.size, b.size, "aggregate size differs at {}", a.path);
    assert_eq!(a.files.len(), b.files.len());
    for (x, y) in a.files.iter().zip(b.files.iter()) {
        assert_eq!(x.path, y.path);
        assert_eq!(x.name, y.name);
        assert_eq!(x.size, y.size);
    }
    assert_eq!(a.subfolders.len(), b.subfolders.len());
    for (x, y) in a.subfolders.iter().zip(b.subfolders.iter()) {
        assert_same_shape(x, y);
    }
}

#[test]
fn round_trip_preserves_every_size() {
    let tree = sample_tree();
    let doc = serialize_tree(&tree);
    let back = parse_tree(doc.as_str()).expect("serialized tree must parse");
    assert_same_shape(&tree, &back);
}

#[test]
fn round_trip_with_escapes_and_empty_lists() {
    let tree = FolderNode {
        path: "/v/we\\ird\"dir".to_string(),
        name: "we\\ird\"dir".to_string(),
        size: 0,
        files: vec![file("/v/we\\ird\"dir/q\"f.mkv", "q\"f.mkv", 0)],
        subfolders: vec![],
    };
    let doc = serialize_tree(&tree);
    let back = parse_tree(doc.as_str()).expect("escaped names must survive");
    assert_same_shape(&tree, &back);
}

#[test]
fn serialized_document_is_plain_json() {
    let tree = sample_tree();
    let doc = serialize_tree(&tree);
    let v: serde_json::Value = serde_json::from_str(doc.as_str()).expect("document must be JSON");
    assert_eq!(v["path"], "/vol/root");
    assert_eq!(v["name"], "root");
    assert_eq!(v["size"], 400);
    assert_eq!(v["files"].as_array().unwrap().len(), 0);
    let media = &v["subfolders"][0];
    assert_eq!(media["name"], "Media");
    assert_eq!(media["size"], 400);
    assert_eq!(media["files"][1]["size"], 300);
}

#[test]
fn garbage_does_not_parse() {
    assert!(parse_tree("").is_none());
    assert!(parse_tree("{\"path\":\"x\"}").is_none());
    assert!(parse_tree("not json at all").is_none());
}

#[test]
fn trailing_garbage_rejected() {
    let doc = serialize_tree(&sample_tree());
    let mut padded = String::new();
    padded.push_str(doc.as_str());
    padded.push_str("junk");
    assert!(parse_tree(padded.as_str()).is_none());
}
