use size_check::query::{build_search_query, Category, Lang, Quality, SubCategory};

#[test]
fn category_codes() {
    assert_eq!(Category::Films.as_str(), "2145");
    assert_eq!(SubCategory::Films.as_str(), "2183");
    assert_eq!(SubCategory::Animation.as_str(), "2178");
    assert_eq!(SubCategory::VideoClips.as_str(), "2187");
}

#[test]
fn lang_and_quality_codes() {
    assert_eq!(Lang::Anglais.as_str(), "1");
    assert_eq!(Lang::French.as_str(), "2");
    assert_eq!(Lang::Vostfr.as_str(), "8");
    assert_eq!(Quality::SdRip.as_str(), "1");
    assert_eq!(Quality::WebDl4k.as_str(), "18");
    assert_eq!(Quality::WebRip720.as_str(), "23");
}

#[test]
fn query_layout() {
    let q = build_search_query(
        "dune",
        Category::Films,
        SubCategory::Films,
        &[Lang::French, Lang::MultiInclusFr],
        &[Quality::HdRip4k],
    );
    assert_eq!(q.len(), 10);
    assert_eq!(q[0].0, "name");
    assert_eq!(q[0].1, "dune");
    assert_eq!(q[1].0, "description");
    assert_eq!(q[1].1, "");
    assert_eq!(q[2].0, "file");
    assert_eq!(q[3].0, "uploader");
    assert_eq!(q[4].0, "category");
    assert_eq!(q[4].1, "2145");
    assert_eq!(q[5].0, "sub_category");
    assert_eq!(q[5].1, "2183");
    assert_eq!(q[6].0, "do");
    assert_eq!(q[6].1, "search");
    assert_eq!(q[7].0, "option_langue:multiple[]");
    assert_eq!(q[7].1, "2");
    assert_eq!(q[8].1, "4");
    assert_eq!(q[9].0, "option_qualite[]");
    assert_eq!(q[9].1, "9");
}

#[test]
fn query_without_filters() {
    let q = build_search_query("x", Category::Films, SubCategory::SeriesTv, &[], &[]);
    assert_eq!(q.len(), 7);
    assert_eq!(q[5].1, "2184");
}
