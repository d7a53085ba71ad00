use size_check::report::{render_summary, write_tree};
use size_check::tree::{FileNode, FolderNode, Summary};

fn sample() -> FolderNode {
    FolderNode {
        path: "/r".to_string(),
        name: "r".to_string(),
        size: 400,
        files: vec![FileNode {
            path: "/r/a.mkv".to_string(),
            name: "a.mkv".to_string(),
            size: 100,
        }],
        subfolders: vec![FolderNode {
            path: "/r/sub".to_string(),
            name: "sub".to_string(),
            size: 300,
            files: vec![FileNode {
                path: "/r/sub/b.mkv".to_string(),
                name: "b.mkv".to_string(),
                size: 300,
            }],
            subfolders: vec![],
        }],
    }
}

#[test]
fn indented_listing() {
    let text = write_tree(&sample());
    let expected = "├── r (400.00 B)\n\
                    │   ├── a.mkv (100.00 B)\n\
                    │   ├── sub (300.00 B)\n\
                    │   │   ├── b.mkv (300.00 B)\n";
    assert_eq!(text, expected);
}

#[test]
fn summary_block() {
    let s = Summary { total_files: 2, total_folders: 1, total_size: 400 };
    let text = render_summary(&s);
    assert_eq!(
        text,
        "Summary:\n- Total folders: 1\n- Total files: 2\n- Total size: 400.00 B\n"
    );
}
