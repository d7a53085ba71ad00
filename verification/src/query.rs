//! The search-query builder of the torrent lookup tool.
//!
//! Categories, subcategories, languages and qualities each stand for a
//! numeric code in the index's search request; `build_search_query`
//! assembles the full ordered key-value list for one search.

use vstd::prelude::*;

verus! {

/// The top-level search category.
#[derive(Debug, Clone, Copy)]
pub enum Category {
    Films,
}

/// The subcategory refining a search.
#[derive(Debug, Clone, Copy)]
pub enum SubCategory {
    Animation,
    AnimationSerie,
    Concert,
    Documentaire,
    EmissionTv,
    Films,
    SeriesTv,
    Spectacle,
    Sport,
    VideoClips,
}

/// The language filter of a search.
#[derive(Debug, Clone, Copy)]
pub enum Lang {
    Anglais,
    French,
    Muet,
    MultiInclusFr,
    MultiInclusQuebecois,
    Quebecois,
    Vfstfr,
    Vostfr,
}

/// The quality filter of a search.
#[allow(non_camel_case_types)]
#[derive(Debug, Clone, Copy)]
pub enum Quality {
    SdRip,
    Bluray4kFullAndRemux,
    Bluray4kFull,
    Bluray4kRemux,
    DvdR5,
    DvdR9,
    DvdRip,
    HdRip1080,
    HdRip4k,
    HdRip720,
    TvRipSd,
    TvRip1080,
    TvRip4k,
    TvRip720,
    VCD_SVCD_VHSRIP,
    WebDL,
    WebDL1080,
    WebDl4k,
    WebDl720,
    WebRip,
    WebRip1080,
    WebRip4k,
    WebRip720,
}

/// The request code of each `Category` choice.
pub open spec fn category_code(x: Category) -> Seq<char> {
    match x {
        Category::Films => seq!['2', '1', '4', '5'],
    }
}

/// The request code of each `SubCategory` choice.
pub open spec fn subcategory_code(x: SubCategory) -> Seq<char> {
    match x {
        SubCategory::Animation => seq!['2', '1', '7', '8'],
        SubCategory::AnimationSerie => seq!['2', '1', '7', '9'],
        SubCategory::Concert => seq!['2', '1', '8', '0'],
        SubCategory::Documentaire => seq!['2', '1', '8', '1'],
        SubCategory::EmissionTv => seq!['2', '1', '8', '2'],
        SubCategory::Films => seq!['2', '1', '8', '3'],
        SubCategory::SeriesTv => seq!['2', '1', '8', '4'],
        SubCategory::Spectacle => seq!['2', '1', '8', '5'],
        SubCategory::Sport => seq!['2', '1', '8', '6'],
        SubCategory::VideoClips => seq!['2', '1', '8', '7'],
    }
}

/// The request code of each `Lang` choice.
pub open spec fn lang_code(x: Lang) -> Seq<char> {
    match x {
        Lang::Anglais => seq!['1'],
        Lang::French => seq!['2'],
        Lang::Muet => seq!['3'],
        Lang::MultiInclusFr => seq!['4'],
        Lang::MultiInclusQuebecois => seq!['5'],
        Lang::Quebecois => seq!['6'],
        Lang::Vfstfr => seq!['7'],
        Lang::Vostfr => seq!['8'],
    }
}

/// The request code of each `Quality` choice.
pub open spec fn quality_code(x: Quality) -> Seq<char> {
    match x {
        Quality::SdRip => seq!['1'],
        Quality::Bluray4kFullAndRemux => seq!['2'],
        Quality::Bluray4kFull => seq!['3'],
        Quality::Bluray4kRemux => seq!['4'],
        Quality::DvdR5 => seq!['5'],
        Quality::DvdR9 => seq!['6'],
        Quality::DvdRip => seq!['7'],
        Quality::HdRip1080 => seq!['8'],
        Quality::HdRip4k => seq!['9'],
        Quality::HdRip720 => seq!['1', '0'],
        Quality::TvRipSd => seq!['1', '1'],
        Quality::TvRip1080 => seq!['1', '2'],
        Quality::TvRip4k => seq!['1', '3'],
        Quality::TvRip720 => seq!['1', '4'],
        Quality::VCD_SVCD_VHSRIP => seq!['1', '5'],
        Quality::WebDL => seq!['1', '6'],
        Quality::WebDL1080 => seq!['1', '7'],
        Quality::WebDl4k => seq!['1', '8'],
        Quality::WebDl720 => seq!['1', '9'],
        Quality::WebRip => seq!['2', '0'],
        Quality::WebRip1080 => seq!['2', '1'],
        Quality::WebRip4k => seq!['2', '2'],
        Quality::WebRip720 => seq!['2', '3'],
    }
}

/// The request key `name`.
pub open spec fn key_name() -> Seq<char> {
    seq!['n', 'a', 'm', 'e']
}
/// The request key `description`.
pub open spec fn key_description() -> Seq<char> {
    seq!['d', 'e', 's', 'c', 'r', 'i', 'p', 't', 'i', 'o', 'n']
}
/// The request key `file`.
pub open spec fn key_file() -> Seq<char> {
    seq!['f', 'i', 'l', 'e']
}
/// The request key `uploader`.
pub open spec fn key_uploader() -> Seq<char> {
    seq!['u', 'p', 'l', 'o', 'a', 'd', 'e', 'r']
}
/// The request key `category`.
pub open spec fn key_category() -> Seq<char> {
    seq!['c', 'a', 't', 'e', 'g', 'o', 'r', 'y']
}
/// The request key `sub_category`.
pub open spec fn key_sub_category() -> Seq<char> {
    seq!['s', 'u', 'b', '_', 'c', 'a', 't', 'e', 'g', 'o', 'r', 'y']
}
/// The request key `do`.
pub open spec fn key_do() -> Seq<char> {
    seq!['d', 'o']
}
/// The request key `search`.
pub open spec fn key_search() -> Seq<char> {
    seq!['s', 'e', 'a', 'r', 'c', 'h']
}
/// The request key `option_langue:multiple[]`.
pub open spec fn key_lang() -> Seq<char> {
    seq!['o', 'p', 't', 'i', 'o', 'n', '_', 'l', 'a', 'n', 'g', 'u', 'e', ':', 'm', 'u', 'l', 't', 'i', 'p', 'l', 'e', '[', ']']
}
/// The request key `option_qualite[]`.
pub open spec fn key_quality() -> Seq<char> {
    seq!['o', 'p', 't', 'i', 'o', 'n', '_', 'q', 'u', 'a', 'l', 'i', 't', 'e', '[', ']']
}

impl Category {
    /// The code this choice stands for in a search request.
    pub fn as_str(&self) -> (r: &'static str)
        ensures
            r@ == category_code(*self),
    {
        match self {
            Category::Films => {
                let r = "2145";
                proof {
                    reveal_strlit("2145");
                    assert(r@ =~= seq!['2', '1', '4', '5']);
                }
                r
            },
        }
    }
}

impl SubCategory {
    /// The code this choice stands for in a search request.
    pub fn as_str(&self) -> (r: &'static str)
        ensures
            r@ == subcategory_code(*self),
    {
        match self {
            SubCategory::Animation => {
                let r = "2178";
                proof {
                    reveal_strlit("2178");
                    assert(r@ =~= seq!['2', '1', '7', '8']);
                }
                r
            },
            SubCategory::AnimationSerie => {
                let r = "2179";
                proof {
                    reveal_strlit("2179");
                    assert(r@ =~= seq!['2', '1', '7', '9']);
                }
                r
            },
            SubCategory::Concert => {
                let r = "2180";
                proof {
                    reveal_strlit("2180");
                    assert(r@ =~= seq!['2', '1', '8', '0']);
                }
                r
            },
            SubCategory::Documentaire => {
                let r = "2181";
                proof {
                    reveal_strlit("2181");
                    assert(r@ =~= seq!['2', '1', '8', '1']);
                }
                r
            },
            SubCategory::EmissionTv => {
                let r = "2182";
                proof {
                    reveal_strlit("2182");
                    assert(r@ =~= seq!['2', '1', '8', '2']);
                }
                r
            },
            SubCategory::Films => {
                let r = "2183";
                proof {
                    reveal_strlit("2183");
                    assert(r@ =~= seq!['2', '1', '8', '3']);
                }
                r
            },
            SubCategory::SeriesTv => {
                let r = "2184";
                proof {
                    reveal_strlit("2184");
                    assert(r@ =~= seq!['2', '1', '8', '4']);
                }
                r
            },
            SubCategory::Spectacle => {
                let r = "2185";
                proof {
                    reveal_strlit("2185");
                    assert(r@ =~= seq!['2', '1', '8', '5']);
                }
                r
            },
            SubCategory::Sport => {
                let r = "2186";
                proof {
                    reveal_strlit("2186");
                    assert(r@ =~= seq!['2', '1', '8', '6']);
                }
                r
            },
            SubCategory::VideoClips => {
                let r = "2187";
                proof {
                    reveal_strlit("2187");
                    assert(r@ =~= seq!['2', '1', '8', '7']);
                }
                r
            },
        }
    }
}

impl Lang {
    /// The code this choice stands for in a search request.
    pub fn as_str(&self) -> (r: &'static str)
        ensures
            r@ == lang_code(*self),
    {
        match self {
            Lang::Anglais => {
                let r = "1";
                proof {
                    reveal_strlit("1");
                    assert(r@ =~= seq!['1']);
                }
                r
            },
            Lang::French => {
                let r = "2";
                proof {
                    reveal_strlit("2");
                    assert(r@ =~= seq!['2']);
                }
                r
            },
            Lang::Muet => {
                let r = "3";
                proof {
                    reveal_strlit("3");
                    assert(r@ =~= seq!['3']);
                }
                r
            },
            Lang::MultiInclusFr => {
                let r = "4";
                proof {
                    reveal_strlit("4");
                    assert(r@ =~= seq!['4']);
                }
                r
            },
            Lang::MultiInclusQuebecois => {
                let r = "5";
                proof {
                    reveal_strlit("5");
                    assert(r@ =~= seq!['5']);
                }
                r
            },
            Lang::Quebecois => {
                let r = "6";
                proof {
                    reveal_strlit("6");
                    assert(r@ =~= seq!['6']);
                }
                r
            },
            Lang::Vfstfr => {
                let r = "7";
                proof {
                    reveal_strlit("7");
                    assert(r@ =~= seq!['7']);
                }
                r
            },
            Lang::Vostfr => {
                let r = "8";
                proof {
                    reveal_strlit("8");
                    assert(r@ =~= seq!['8']);
                }
                r
            },
        }
    }
}

impl Quality {
    /// The code this choice stands for in a search request.
    pub fn as_str(&self) -> (r: &'static str)
        ensures
            r@ == quality_code(*self),
    {
        match self {
            Quality::SdRip => {
                let r = "1";
                proof {
                    reveal_strlit("1");
                    assert(r@ =~= seq!['1']);
                }
                r
            },
            Quality::Bluray4kFullAndRemux => {
                let r = "2";
                proof {
                    reveal_strlit("2");
                    assert(r@ =~= seq!['2']);
                }
                r
            },
            Quality::Bluray4kFull => {
                let r = "3";
                proof {
                    reveal_strlit("3");
                    assert(r@ =~= seq!['3']);
                }
                r
            },
            Quality::Bluray4kRemux => {
                let r = "4";
                proof {
                    reveal_strlit("4");
                    assert(r@ =~= seq!['4']);
                }
                r
            },
            Quality::DvdR5 => {
                let r = "5";
                proof {
                    reveal_strlit("5");
                    assert(r@ =~= seq!['5']);
                }
                r
            },
            Quality::DvdR9 => {
                let r = "6";
                proof {
                    reveal_strlit("6");
                    assert(r@ =~= seq!['6']);
                }
                r
            },
            Quality::DvdRip => {
                let r = "7";
                proof {
                    reveal_strlit("7");
                    assert(r@ =~= seq!['7']);
                }
                r
            },
            Quality::HdRip1080 => {
                let r = "8";
                proof {
                    reveal_strlit("8");
                    assert(r@ =~= seq!['8']);
                }
                r
            },
            Quality::HdRip4k => {
                let r = "9";
                proof {
                    reveal_strlit("9");
                    assert(r@ =~= seq!['9']);
                }
                r
            },
            Quality::HdRip720 => {
                let r = "10";
                proof {
                    reveal_strlit("10");
                    assert(r@ =~= seq!['1', '0']);
                }
                r
            },
            Quality::TvRipSd => {
                let r = "11";
                proof {
                    reveal_strlit("11");
                    assert(r@ =~= seq!['1', '1']);
                }
                r
            },
            Quality::TvRip1080 => {
                let r = "12";
                proof {
                    reveal_strlit("12");
                    assert(r@ =~= seq!['1', '2']);
                }
                r
            },
            Quality::TvRip4k => {
                let r = "13";
                proof {
                    reveal_strlit("13");
                    assert(r@ =~= seq!['1', '3']);
                }
                r
            },
            Quality::TvRip720 => {
                let r = "14";
                proof {
                    reveal_strlit("14");
                    assert(r@ =~= seq!['1', '4']);
                }
                r
            },
            Quality::VCD_SVCD_VHSRIP => {
                let r = "15";
                proof {
                    reveal_strlit("15");
                    assert(r@ =~= seq!['1', '5']);
                }
                r
            },
            Quality::WebDL => {
                let r = "16";
                proof {
                    reveal_strlit("16");
                    assert(r@ =~= seq!['1', '6']);
                }
                r
            },
            Quality::WebDL1080 => {
                let r = "17";
                proof {
                    reveal_strlit("17");
                    assert(r@ =~= seq!['1', '7']);
                }
                r
            },
            Quality::WebDl4k => {
                let r = "18";
                proof {
                    reveal_strlit("18");
                    assert(r@ =~= seq!['1', '8']);
                }
                r
            },
            Quality::WebDl720 => {
                let r = "19";
                proof {
                    reveal_strlit("19");
                    assert(r@ =~= seq!['1', '9']);
                }
                r
            },
            Quality::WebRip => {
                let r = "20";
                proof {
                    reveal_strlit("20");
                    assert(r@ =~= seq!['2', '0']);
                }
                r
            },
            Quality::WebRip1080 => {
                let r = "21";
                proof {
                    reveal_strlit("21");
                    assert(r@ =~= seq!['2', '1']);
                }
                r
            },
            Quality::WebRip4k => {
                let r = "22";
                proof {
                    reveal_strlit("22");
                    assert(r@ =~= seq!['2', '2']);
                }
                r
            },
            Quality::WebRip720 => {
                let r = "23";
                proof {
                    reveal_strlit("23");
                    assert(r@ =~= seq!['2', '3']);
                }
                r
            },
        }
    }
}

/// Assembles the ordered key-value list of one search request: the name,
/// the three always-empty free-text fields, the category and subcategory
/// codes, the search action, then one entry per language and one per
/// quality filter.
pub fn build_search_query(
    name: &str,
    category: Category,
    subcategory: SubCategory,
    langs: &[Lang],
    qualities: &[Quality],
) -> (r: Vec<(&'static str, String)>)
    ensures
        r@.len() == 7 + langs@.len() + qualities@.len(),
        (#[trigger] r@[0]).0@ == key_name() && r@[0].1@ == name@,
        r@[1].0@ == key_description() && r@[1].1@.len() == 0,
        r@[2].0@ == key_file() && r@[2].1@.len() == 0,
        r@[3].0@ == key_uploader() && r@[3].1@.len() == 0,
        r@[4].0@ == key_category() && r@[4].1@ == category_code(category),
        r@[5].0@ == key_sub_category() && r@[5].1@ == subcategory_code(subcategory),
        r@[6].0@ == key_do() && r@[6].1@ == key_search(),
        forall|i: int|
            0 <= i < langs@.len() ==> (#[trigger] r@[7 + i]).0@ == key_lang() && r@[7 + i].1@
                == lang_code(langs@[i]),
        forall|i: int|
            0 <= i < qualities@.len() ==> (#[trigger] r@[7 + langs@.len() + i]).0@ == key_quality()
                && r@[7 + langs@.len() + i].1@ == quality_code(qualities@[i]),
{
    let mut query: Vec<(&'static str, String)> = Vec::new();
    proof {
        reveal_strlit("name");
        reveal_strlit("description");
        reveal_strlit("file");
        reveal_strlit("uploader");
        reveal_strlit("category");
        reveal_strlit("sub_category");
        reveal_strlit("do");
        reveal_strlit("search");
        reveal_strlit("option_langue:multiple[]");
        reveal_strlit("option_qualite[]");
        assert("name"@ =~= key_name());
        assert("description"@ =~= key_description());
        assert("file"@ =~= key_file());
        assert("uploader"@ =~= key_uploader());
        assert("category"@ =~= key_category());
        assert("sub_category"@ =~= key_sub_category());
        assert("do"@ =~= key_do());
        assert("search"@ =~= key_search());
        assert("option_langue:multiple[]"@ =~= key_lang());
        assert("option_qualite[]"@ =~= key_quality());
    }
    query.push(("name", name.to_owned()));
    query.push(("description", String::new()));
    query.push(("file", String::new()));
    query.push(("uploader", String::new()));
    query.push(("category", category.as_str().to_owned()));
    query.push(("sub_category", subcategory.as_str().to_owned()));
    let search_value = "search";
    query.push(("do", search_value.to_owned()));
    let nlangs = langs.len();
    let mut i: usize = 0;
    while i < nlangs
        invariant
            nlangs == langs@.len(),
            i <= nlangs,
            query@.len() == 7 + i,
            (#[trigger] query@[0]).0@ == key_name() && query@[0].1@ == name@,
            query@[1].0@ == key_description() && query@[1].1@.len() == 0,
            query@[2].0@ == key_file() && query@[2].1@.len() == 0,
            query@[3].0@ == key_uploader() && query@[3].1@.len() == 0,
            query@[4].0@ == key_category() && query@[4].1@ == category_code(category),
            query@[5].0@ == key_sub_category() && query@[5].1@ == subcategory_code(subcategory),
            query@[6].0@ == key_do() && query@[6].1@ == key_search(),
            forall|k: int|
                0 <= k < i ==> (#[trigger] query@[7 + k]).0@ == key_lang() && query@[7 + k].1@
                    == lang_code(langs@[k]),
        decreases nlangs - i,
    {
        let lang_key = "option_langue:multiple[]";
        proof {
            reveal_strlit("option_langue:multiple[]");
            assert(lang_key@ =~= key_lang());
        }
        query.push((lang_key, langs[i].as_str().to_owned()));
        i = i + 1;
    }
    let nquals = qualities.len();
    let mut j: usize = 0;
    while j < nquals
        invariant
            nquals == qualities@.len(),
            nlangs == langs@.len(),
            j <= nquals,
            query@.len() == 7 + nlangs + j,
            (#[trigger] query@[0]).0@ == key_name() && query@[0].1@ == name@,
            query@[1].0@ == key_description() && query@[1].1@.len() == 0,
            query@[2].0@ == key_file() && query@[2].1@.len() == 0,
            query@[3].0@ == key_uploader() && query@[3].1@.len() == 0,
            query@[4].0@ == key_category() && query@[4].1@ == category_code(category),
            query@[5].0@ == key_sub_category() && query@[5].1@ == subcategory_code(subcategory),
            query@[6].0@ == key_do() && query@[6].1@ == key_search(),
            forall|k: int|
                0 <= k < nlangs ==> (#[trigger] query@[7 + k]).0@ == key_lang() && query@[7
                    + k].1@ == lang_code(langs@[k]),
            forall|k: int|
                0 <= k < j ==> (#[trigger] query@[7 + nlangs + k]).0@ == key_quality() && query@[7
                    + nlangs + k].1@ == quality_code(qualities@[k]),
        decreases nquals - j,
    {
        let qual_key = "option_qualite[]";
        proof {
            reveal_strlit("option_qualite[]");
            assert(qual_key@ =~= key_quality());
        }
        query.push((qual_key, qualities[j].as_str().to_owned()));
        j = j + 1;
    }
    query
}

} // verus!
