use size_check::relink::{best_match, clean_name, levenshtein};

#[test]
fn levenshtein_known_values() {
    assert_eq!(levenshtein("kitten", "sitting"), 3);
    assert_eq!(levenshtein("", "abc"), 3);
    assert_eq!(levenshtein("abc", ""), 3);
    assert_eq!(levenshtein("same", "same"), 0);
    assert_eq!(levenshtein("flaw", "lawn"), 2);
}

#[test]
fn clean_name_normalises() {
    assert_eq!(clean_name("The.Movie.X265-GROUP"), "themoviegroup");
    assert_eq!(clean_name("Film (2021) [1080p]"), "film2021");
    assert_eq!(clean_name("Nom_FRENCH.2160p.mkv"), "nommkv");
    assert_eq!(clean_name(""), "");
}

#[test]
fn best_match_picks_closest_under_cutoff() {
    let torrents = vec![
        "Other.Show.S01.WEB".to_string(),
        "The.Movie.2021.WEB".to_string(),
        "The.Movie.2021".to_string(),
    ];
    // Both candidates reduce to the same cleaned name; the first at the
    // smallest distance wins.
    let r = best_match("The.Movie.2021.1080p", &torrents);
    assert_eq!(r, Some(1));
}

#[test]
fn best_match_none_when_all_far() {
    let torrents = vec!["Zzzzzzzzzzzzzzzzzzzzzz".to_string()];
    let r = best_match("The.Movie.2021", &torrents);
    assert_eq!(r, None);
}

#[test]
fn best_match_empty_list() {
    let torrents: Vec<String> = vec![];
    assert_eq!(best_match("anything", &torrents), None);
}
