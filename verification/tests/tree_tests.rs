use size_check::progress::ProgressCounter;
use size_check::tree::{
    count_entries, visit_dirs, DirSnapshot, FileMeta, FilterConfig, FolderNode, Summary,
    TreeError,
};

fn cfg_all() -> FilterConfig {
    FilterConfig {
        include_all_extensions: true,
        exclude_trickplay: false,
        skip_hidden: true,
        skip_os_metadata: true,
    }
}

fn cfg_media_only() -> FilterConfig {
    FilterConfig {
        include_all_extensions: false,
        exclude_trickplay: true,
        skip_hidden: true,
        skip_os_metadata: true,
    }
}

fn file(name: &str, size: u64) -> FileMeta {
    FileMeta { name: name.to_string(), size }
}

fn dir(name: &str, files: Vec<FileMeta>, dirs: Vec<DirSnapshot>) -> DirSnapshot {
    DirSnapshot { name: name.to_string(), readable: true, files, dirs }
}

fn build(snap: &DirSnapshot, path: &str, cfg: &FilterConfig) -> (FolderNode, Summary, u64) {
    let mut summary = Summary::default();
    let total = count_entries(snap, cfg);
    let mut progress = ProgressCounter::new(total);
    let tree = visit_dirs(snap, path, cfg, &mut summary, &mut progress).unwrap();
    assert_eq!(progress.total, total);
    progress.finish();
    assert_eq!(progress.pos, progress.total);
    (tree, summary, total)
}

fn assert_trees_equal(a: &FolderNode, b: &FolderNode) {
    assert_eq!(a.path, b.path);
    assert_eq!(a.name, b.name);
    assert_eq!(a.size, b.size);
    assert_eq!(a.files.len(), b.files.len());
    for (x, y) in a.files.iter().zip(b.files.iter()) {
        assert_eq!(x.path, y.path);
        assert_eq!(x.name, y.name);
        assert_eq!(x.size, y.size);
    }
    assert_eq!(a.subfolders.len(), b.subfolders.len());
    for (x, y) in a.subfolders.iter().zip(b.subfolders.iter()) {
        assert_trees_equal(x, y);
    }
}

fn count_nodes(f: &FolderNode) -> (u64, u64) {
    let mut files = f.files.len() as u64;
    let mut folders = 0u64;
    for sub in &f.subfolders {
        let (sf, sd) = count_nodes(sub);
        files += sf;
        folders += 1 + sd;
    }
    (files, folders)
}

fn check_sizes(f: &FolderNode) -> u64 {
    let mut total = 0u64;
    for file in &f.files {
        total += file.size;
    }
    for sub in &f.subfolders {
        total += check_sizes(sub);
    }
    assert_eq!(f.size, total, "aggregate size invariant broken at {}", f.path);
    total
}

#[test]
fn two_files_in_one_folder_summary() {
    let snap = dir(
        "root",
        vec![],
        vec![dir("Media", vec![file("a.mkv", 100), file("b.mkv", 300)], vec![])],
    );
    let (tree, summary, total) = build(&snap, "/vol/root", &cfg_all());
    assert_eq!(summary.total_files, 2);
    assert_eq!(summary.total_folders, 1);
    assert_eq!(summary.total_size, 400);
    assert_eq!(total, 3);
    assert_eq!(tree.path, "/vol/root");
    assert_eq!(tree.name, "root");
    assert_eq!(tree.size, 400);
    assert_eq!(tree.subfolders.len(), 1);
    let media = &tree.subfolders[0];
    assert_eq!(media.path, "/vol/root/Media");
    assert_eq!(media.size, 400);
    assert_eq!(media.files.len(), 2);
    assert_eq!(media.files[0].name, "a.mkv");
    assert_eq!(media.files[0].path, "/vol/root/Media/a.mkv");
    check_sizes(&tree);
}

#[test]
fn trickplay_sidecar_excluded() {
    let snap = dir(
        "root",
        vec![],
        vec![
            dir("Show.trickplay", vec![file("thumb.mkv", 50)], vec![]),
            dir("Show", vec![file("e1.mkv", 700)], vec![]),
        ],
    );
    let cfg = cfg_media_only();
    let (tree, summary, total) = build(&snap, "/vol/root", &cfg);
    assert_eq!(tree.subfolders.len(), 1);
    assert_eq!(tree.subfolders[0].name, "Show");
    assert_eq!(summary.total_folders, 1);
    assert_eq!(summary.total_files, 1);
    assert_eq!(summary.total_size, 700);
    // The pre-pass count mirrors the same skip rules: the sidecar and its
    // contents are absent from it too.
    assert_eq!(total, 2);
}

#[test]
fn trickplay_kept_when_everything_included() {
    let snap = dir(
        "root",
        vec![],
        vec![dir("Show.trickplay", vec![file("thumb.jpg", 50)], vec![])],
    );
    let (tree, summary, _) = build(&snap, "/r", &cfg_all());
    assert_eq!(tree.subfolders.len(), 1);
    assert_eq!(summary.total_size, 50);
}

#[test]
fn extension_allow_list_filters_files() {
    let snap = dir(
        "root",
        vec![file("movie.mkv", 10), file("notes.txt", 5), file("clip.avi", 7), file("v.mp4", 3)],
        vec![],
    );
    let (tree, summary, _) = build(&snap, "/r", &cfg_media_only());
    assert_eq!(tree.files.len(), 3);
    assert_eq!(summary.total_size, 20);
}

#[test]
fn hidden_and_os_metadata_skipped() {
    let snap = dir(
        "root",
        vec![file(".DS_Store", 1), file(".hidden.mkv", 2), file("ok.mkv", 4)],
        vec![dir(".git", vec![file("index.mkv", 9)], vec![])],
    );
    let (tree, summary, _) = build(&snap, "/r", &cfg_all());
    assert_eq!(tree.files.len(), 1);
    assert_eq!(tree.subfolders.len(), 0);
    assert_eq!(summary.total_size, 4);
}

#[test]
fn unreadable_directory_skipped_not_fatal() {
    let snap = dir(
        "root",
        vec![file("a.mkv", 5)],
        vec![DirSnapshot {
            name: "broken".to_string(),
            readable: false,
            files: vec![file("b.mkv", 50)],
            dirs: vec![],
        }],
    );
    let (tree, summary, _) = build(&snap, "/r", &cfg_all());
    assert_eq!(tree.subfolders.len(), 0);
    assert_eq!(summary.total_size, 5);
    assert_eq!(summary.total_folders, 0);
}

#[test]
fn unreadable_root_is_fatal() {
    let snap = DirSnapshot {
        name: "root".to_string(),
        readable: false,
        files: vec![],
        dirs: vec![],
    };
    let mut summary = Summary::default();
    let mut progress = ProgressCounter::new(0);
    let r = visit_dirs(&snap, "/r", &cfg_all(), &mut summary, &mut progress);
    assert!(matches!(r, Err(TreeError::RootUnreadable)));
}

#[test]
fn building_twice_gives_equal_trees() {
    let snap = dir(
        "root",
        vec![file("z.mkv", 11), file("a.mkv", 22)],
        vec![
            dir("inner", vec![file("deep.mp4", 33)], vec![dir("deeper", vec![], vec![])]),
        ],
    );
    let cfg = cfg_all();
    let (t1, s1, _) = build(&snap, "/base", &cfg);
    let (t2, s2, _) = build(&snap, "/base", &cfg);
    assert_trees_equal(&t1, &t2);
    assert_eq!(s1.total_size, s2.total_size);
    assert_eq!(s1.total_files, s2.total_files);
    assert_eq!(s1.total_folders, s2.total_folders);
}

#[test]
fn summary_matches_tree_counts() {
    let snap = dir(
        "root",
        vec![file("a.mkv", 1)],
        vec![dir("x", vec![file("b.mkv", 2), file("c.mkv", 4)], vec![dir("y", vec![file("d.mkv", 8)], vec![])])],
    );
    let (tree, summary, total) = build(&snap, "/r", &cfg_all());
    assert_eq!(summary.total_size, check_sizes(&tree));
    let (files, folders) = count_nodes(&tree);
    assert_eq!(summary.total_files, files);
    assert_eq!(summary.total_folders, folders);
    assert_eq!(total, files + folders);
}
