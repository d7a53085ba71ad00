use size_check::trickplay::{is_trickplay_name, is_video_name, missing_trickplay, orphan_trickplay};

#[test]
fn classification_of_names() {
    assert!(is_trickplay_name("Show S01E01.trickplay"));
    assert!(!is_trickplay_name("Show S01E01.mkv"));
    assert!(is_video_name("a.mkv"));
    assert!(is_video_name("b.mp4"));
    assert!(!is_video_name("c.txt"));
}

#[test]
fn missing_and_orphans() {
    let stems = vec!["Covered".to_string(), "Naked".to_string()];
    let tps = vec!["Covered.trickplay".to_string(), "Orphan.trickplay".to_string()];
    let missing = missing_trickplay(&stems, &tps);
    assert_eq!(missing, vec!["Naked".to_string()]);
    let orphans = orphan_trickplay(&tps, &stems);
    assert_eq!(orphans, vec!["Orphan.trickplay".to_string()]);
}

#[test]
fn empty_lists() {
    let none: Vec<String> = vec![];
    let tps = vec!["X.trickplay".to_string()];
    assert_eq!(missing_trickplay(&none, &tps).len(), 0);
    assert_eq!(orphan_trickplay(&tps, &none), tps);
}
