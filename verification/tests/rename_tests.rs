use size_check::rename::extract_title_with_year;

#[test]
fn parenthesised_year_wins() {
    assert_eq!(extract_title_with_year("The Matrix (1999).mkv"), "The Matrix (1999)");
    assert_eq!(extract_title_with_year("Title (2004)"), "Title (2004)");
}

#[test]
fn parenthesised_year_with_dots() {
    // The dot before the parenthesis becomes a space of its own.
    assert_eq!(extract_title_with_year("Some.Film.(2010).BluRay.mkv"), "Some Film  (2010)");
}

#[test]
fn bare_year_between_separators() {
    assert_eq!(extract_title_with_year("Some.Movie.2004.1080p.mkv"), "Some Movie 2004");
    // The prefix is trimmed before the year is appended, so the space
    // before a bare year disappears.
    assert_eq!(extract_title_with_year("Old Film 1977 remaster.avi"), "Old Film1977");
}

#[test]
fn no_year_falls_back() {
    assert_eq!(extract_title_with_year("NoYearHere.mkv"), "Unknown Title");
    assert_eq!(extract_title_with_year(""), "Unknown Title");
}

#[test]
fn parentheses_without_a_year_fall_through() {
    // The parenthesised text is not four digits, so the bare-year rule
    // applies instead.
    assert_eq!(extract_title_with_year("Film (extended) 2006.mkv"), "Film (extended)2006");
}

#[test]
fn leading_year_keeps_parentheses() {
    assert_eq!(extract_title_with_year("(2020) Thing"), "(2020)");
}
