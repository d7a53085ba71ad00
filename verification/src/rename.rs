//! The movie-renaming heuristic: a display title with its year.
//!
//! A file name like `Some Movie (2004) extras.mkv` yields `Some Movie
//! (2004)`; when no parenthesised year is present, the first four-digit
//! run between separators is used instead; a name without any year falls
//! back to a fixed placeholder. Dots become spaces and outer whitespace is
//! trimmed, exactly as the mover expects its folder names.

use vstd::prelude::*;

verus! {

use crate::text::{chars_of, string_from_chars, occurs_at, occurs_at_exec};
use crate::codec::{is_digit, is_digit_exec};

/// What `char::is_whitespace` returns: a property of the character alone.
pub uninterp spec fn spec_is_whitespace(c: char) -> bool;

/// Relies on `char::is_whitespace`: whether the character is Unicode
/// whitespace, a property of the character alone.
#[verifier::external_body]
fn is_whitespace_char(c: char) -> (r: bool)
    ensures
        r == spec_is_whitespace(c),
{
    c.is_whitespace()
}

/// `s` with trailing whitespace removed.
pub open spec fn trim_end(s: Seq<char>) -> Seq<char>
    decreases s.len(),
{
    if s.len() > 0 && spec_is_whitespace(s.last()) {
        trim_end(s.drop_last())
    } else {
        s
    }
}

/// `s` with leading whitespace removed.
pub open spec fn trim_start(s: Seq<char>) -> Seq<char>
    decreases s.len(),
{
    if s.len() > 0 && spec_is_whitespace(s.first()) {
        trim_start(s.drop_first())
    } else {
        s
    }
}

/// `s` with outer whitespace removed.
pub open spec fn spec_trim(s: Seq<char>) -> Seq<char> {
    trim_start(trim_end(s))
}

/// What a found position means: the character stands there, and a missing
/// result means it stands nowhere at or after the start.
pub proof fn lemma_find_char_props(s: Seq<char>, c: char, i: int)
    requires
        0 <= i <= s.len(),
    ensures
        find_char_from(s, c, i) >= 0 ==> i <= find_char_from(s, c, i) < s.len() && s[find_char_from(
            s,
            c,
            i,
        )] == c,
    decreases s.len() - i,
{
    if i < s.len() && s[i] != c {
        lemma_find_char_props(s, c, i + 1);
    }
}

/// The first position of `c` in `s` at or after `i`; negative if absent.
pub open spec fn find_char_from(s: Seq<char>, c: char, i: int) -> int
    decreases s.len() - i,
{
    if i < 0 || i >= s.len() {
        -1
    } else if s[i] == c {
        i
    } else {
        find_char_from(s, c, i + 1)
    }
}

/// The first position of a separator — dot or space — at or after `i`.
pub open spec fn find_sep_from(s: Seq<char>, i: int) -> int
    decreases s.len() - i,
{
    if i < 0 || i >= s.len() {
        -1
    } else if s[i] == '.' || s[i] == ' ' {
        i
    } else {
        find_sep_from(s, i + 1)
    }
}

/// The first position where `pat` occurs in `s` at or after `i`.
pub open spec fn find_sub_from(s: Seq<char>, pat: Seq<char>, i: int) -> int
    decreases s.len() - i,
{
    if i < 0 || i + pat.len() > s.len() {
        -1
    } else if occurs_at(s, pat, i) {
        i
    } else {
        find_sub_from(s, pat, i + 1)
    }
}

/// Every character is a decimal digit.
pub open spec fn all_digits(s: Seq<char>) -> bool {
    forall|i: int| 0 <= i < s.len() ==> is_digit(#[trigger] s[i])
}

/// Dots replaced by spaces.
pub open spec fn dots_to_spaces(s: Seq<char>) -> Seq<char> {
    Seq::new(
        s.len(),
        |i: int|
            if s[i] == '.' {
                ' '
            } else {
                s[i]
            },
    )
}

/// The placeholder for a name without any year.
pub open spec fn unknown_title() -> Seq<char> {
    seq!['U', 'n', 'k', 'n', 'o', 'w', 'n', ' ', 'T', 'i', 't', 'l', 'e']
}

/// The parenthesised-year reading of a name: the trimmed text before the
/// first `(`, re-joined with the four digits found inside the parentheses.
pub open spec fn spec_year_branch(s: Seq<char>) -> Option<Seq<char>> {
    let st = find_char_from(s, '(', 0);
    if st >= 0 {
        let close = find_char_from(s, ')', st);
        if close >= 0 {
            let ys = s.subrange(st + 1, close);
            if ys.len() == 4 && all_digits(ys) {
                Some(spec_trim(s.take(st)) + seq![' ', '('] + ys + seq![')'])
            } else {
                None
            }
        } else {
            None
        }
    } else {
        None
    }
}

/// The first separator-delimited part of four digits, at or after `i`.
pub open spec fn spec_year_part_from(s: Seq<char>, i: int) -> Option<Seq<char>>
    decreases s.len() - i,
{
    if i < 0 || i > s.len() {
        None
    } else {
        let k = find_sep_from(s, i);
        if k < 0 {
            let part = s.subrange(i, s.len() as int);
            if part.len() == 4 && all_digits(part) {
                Some(part)
            } else {
                None
            }
        } else if k < i || k >= s.len() {
            None
        } else {
            let part = s.subrange(i, k);
            if part.len() == 4 && all_digits(part) {
                Some(part)
            } else {
                spec_year_part_from(s, k + 1)
            }
        }
    }
}

/// The bare-year reading of a name: the trimmed text before the first
/// occurrence of the first four-digit part, followed by that part.
pub open spec fn spec_part_branch(s: Seq<char>) -> Option<Seq<char>> {
    match spec_year_part_from(s, 0) {
        Some(part) => {
            let at = find_sub_from(s, part, 0);
            let cut = if at < 0 {
                0
            } else {
                at
            };
            Some(spec_trim(s.take(cut)) + part)
        },
        None => None,
    }
}

/// The extracted title: the parenthesised-year reading if it applies, else
/// the bare-year reading, else the placeholder — with dots replaced by
/// spaces and outer whitespace trimmed.
pub open spec fn spec_extract_title(s: Seq<char>) -> Seq<char> {
    let t = match spec_year_branch(s) {
        Some(t) => t,
        None => match spec_part_branch(s) {
            Some(t) => t,
            None => unknown_title(),
        },
    };
    spec_trim(dots_to_spaces(t))
}

/// The first position of `c` at or after `from`, if any.
fn find_char_exec(v: &Vec<char>, c: char, from: usize) -> (r: Option<usize>)
    requires
        from <= v@.len(),
    ensures
        r matches Some(k) ==> from <= k < v@.len() && find_char_from(v@, c, from as int) == k,
        r is None ==> find_char_from(v@, c, from as int) == -1,
{
    let n = v.len();
    let mut i = from;
    while i < n
        invariant
            n == v@.len(),
            from <= i <= n,
            find_char_from(v@, c, from as int) == find_char_from(v@, c, i as int),
        decreases n - i,
    {
        if v[i] == c {
            return Some(i);
        }
        i = i + 1;
    }
    None
}

/// The first separator position at or after `from`, if any.
fn find_sep_exec(v: &Vec<char>, from: usize) -> (r: Option<usize>)
    requires
        from <= v@.len(),
    ensures
        r matches Some(k) ==> from <= k < v@.len() && find_sep_from(v@, from as int) == k,
        r is None ==> find_sep_from(v@, from as int) == -1,
{
    let n = v.len();
    let mut i = from;
    while i < n
        invariant
            n == v@.len(),
            from <= i <= n,
            find_sep_from(v@, from as int) == find_sep_from(v@, i as int),
        decreases n - i,
    {
        if v[i] == '.' || v[i] == ' ' {
            return Some(i);
        }
        i = i + 1;
    }
    None
}

/// The first position where `pat` occurs, if any.
fn find_sub_exec(v: &Vec<char>, pat: &Vec<char>) -> (r: Option<usize>)
    ensures
        r matches Some(k) ==> k + pat@.len() <= v@.len() && find_sub_from(v@, pat@, 0) == k,
        r is None ==> find_sub_from(v@, pat@, 0) == -1,
{
    let n = v.len();
    let m = pat.len();
    if m > n {
        return None;
    }
    let mut i: usize = 0;
    while i <= n - m
        invariant
            n == v@.len(),
            m == pat@.len(),
            m <= n,
            i <= n - m + 1,
            find_sub_from(v@, pat@, 0) == find_sub_from(v@, pat@, i as int),
        decreases n - m - i + 1,
    {
        if occurs_at_exec(v, pat, i) {
            return Some(i);
        }
        i = i + 1;
    }
    None
}

/// Whether every character of `v[lo..hi]` is a digit.
fn all_digits_range(v: &Vec<char>, lo: usize, hi: usize) -> (r: bool)
    requires
        lo <= hi <= v@.len(),
    ensures
        r == all_digits(v@.subrange(lo as int, hi as int)),
{
    let mut i = lo;
    while i < hi
        invariant
            lo <= i <= hi <= v@.len(),
            forall|j: int| lo <= j < i ==> is_digit(#[trigger] v@[j]),
        decreases hi - i,
    {
        if !is_digit_exec(v[i]) {
            proof {
                assert(v@.subrange(lo as int, hi as int)[i - lo] == v@[i as int]);
            }
            return false;
        }
        i = i + 1;
    }
    proof {
        assert forall|j: int|
            0 <= j < hi - lo implies is_digit(
            #[trigger] v@.subrange(lo as int, hi as int)[j],
        ) by {
            assert(v@.subrange(lo as int, hi as int)[j] == v@[lo + j]);
        }
    }
    true
}

/// Trims outer whitespace from a character sequence.
fn trim_chars(v: &Vec<char>, lo: usize, hi: usize) -> (r: Vec<char>)
    requires
        lo <= hi <= v@.len(),
    ensures
        r@ == spec_trim(v@.subrange(lo as int, hi as int)),
{
    let ghost orig = v@.subrange(lo as int, hi as int);
    let mut end = hi;
    while end > lo && is_whitespace_char(v[end - 1])
        invariant
            lo <= end <= hi <= v@.len(),
            trim_end(orig) == trim_end(v@.subrange(lo as int, end as int)),
        decreases end,
    {
        proof {
            assert(v@.subrange(lo as int, end as int).last() == v@[end - 1]);
            assert(v@.subrange(lo as int, end as int).drop_last() =~= v@.subrange(
                lo as int,
                end - 1,
            ));
        }
        end = end - 1;
    }
    proof {
        assert(trim_end(v@.subrange(lo as int, end as int)) == v@.subrange(lo as int, end as int));
    }
    let mut start = lo;
    while start < end && is_whitespace_char(v[start])
        invariant
            lo <= start <= end,
            end <= v@.len(),
            trim_end(orig) == v@.subrange(lo as int, end as int),
            trim_start(v@.subrange(lo as int, end as int)) == trim_start(v@.subrange(
                start as int,
                end as int,
            )),
        decreases end - start,
    {
        proof {
            assert(v@.subrange(start as int, end as int).first() == v@[start as int]);
            assert(v@.subrange(start as int, end as int).drop_first() =~= v@.subrange(
                start + 1,
                end as int,
            ));
        }
        start = start + 1;
    }
    proof {
        assert(trim_start(v@.subrange(start as int, end as int)) == v@.subrange(
            start as int,
            end as int,
        ));
    }
    let mut out: Vec<char> = Vec::new();
    let mut i = start;
    while i < end
        invariant
            start <= i <= end <= v@.len(),
            out@ == v@.subrange(start as int, i as int),
        decreases end - i,
    {
        out.push(v[i]);
        proof {
            assert(v@.subrange(start as int, i + 1) =~= v@.subrange(start as int, i as int).push(
                v@[i as int],
            ));
        }
        i = i + 1;
    }
    out
}

/// The separator-delimited four-digit part at or after `from`, if any.
fn year_part_exec(v: &Vec<char>, from: usize) -> (r: Option<(usize, usize)>)
    requires
        from <= v@.len(),
    ensures
        r matches Some(p) ==> from <= p.0 <= p.1 <= v@.len() && spec_year_part_from(
            v@,
            from as int,
        ) == Some(v@.subrange(p.0 as int, p.1 as int)),
        r is None ==> spec_year_part_from(v@, from as int) is None,
    decreases v@.len() - from,
{
    let n = v.len();
    let sep = find_sep_exec(v, from);
    match sep {
        None => {
            if n - from == 4 && all_digits_range(v, from, n) {
                Some((from, n))
            } else {
                None
            }
        },
        Some(k) => {
            if k - from == 4 && all_digits_range(v, from, k) {
                Some((from, k))
            } else {
                year_part_exec(v, k + 1)
            }
        },
    }
}

/// Builds the display title of a media file name: the name's year — in
/// parentheses, or as a bare four-digit part — joined to the title text
/// before it, dots turned to spaces, outer whitespace trimmed; a fixed
/// placeholder when no year can be found.
pub fn extract_title_with_year(file_name: &str) -> (r: String)
    ensures
        r@ == spec_extract_title(file_name@),
{
    let v = chars_of(file_name);
    let n = v.len();
    let mut title: Vec<char> = Vec::new();
    let mut found = false;
    let open_at = find_char_exec(&v, '(', 0);
    match open_at {
        Some(st) => {
            let close = find_char_exec(&v, ')', st);
            match close {
                Some(cl) => {
                    if cl - st == 5 && all_digits_range(&v, st + 1, cl) {
                        let mut t = trim_chars(&v, 0, st);
                        proof {
                            assert(v@.subrange(0, st as int) =~= v@.take(st as int));
                        }
                        t.push(' ');
                        t.push('(');
                        let mut i = st + 1;
                        while i < cl
                            invariant
                                st + 1 <= i <= cl <= v@.len(),
                                t@ == spec_trim(v@.take(st as int)) + seq![' ', '('] + v@.subrange(
                                    st + 1,
                                    i as int,
                                ),
                            decreases cl - i,
                        {
                            t.push(v[i]);
                            proof {
                                assert(v@.subrange(st + 1, i + 1) =~= v@.subrange(
                                    st + 1,
                                    i as int,
                                ).push(v@[i as int]));
                                assert(t@ =~= spec_trim(v@.take(st as int)) + seq![' ', '(']
                                    + v@.subrange(st + 1, i + 1));
                            }
                            i = i + 1;
                        }
                        t.push(')');
                        title = t;
                        found = true;
                        proof {
                            assert(title@ =~= spec_trim(v@.take(st as int)) + seq![' ', '(']
                                + v@.subrange(st + 1, cl as int) + seq![')']);
                            assert(spec_year_branch(v@) == Some(title@));
                        }
                    } else {
                        proof {
                            lemma_find_char_props(v@, '(', 0);
                            lemma_find_char_props(v@, ')', st as int);
                            assert(v@[st as int] == '(');
                            assert(v@[cl as int] == ')');
                            assert(cl > st);
                            assert(v@.subrange(st + 1, cl as int).len() == cl - st - 1);
                            assert(spec_year_branch(v@) is None);
                        }
                    }
                },
                None => {
                    proof {
                        assert(spec_year_branch(v@) is None);
                    }
                },
            }
        },
        None => {
            proof {
                assert(spec_year_branch(v@) is None);
            }
        },
    }
    if !found {
        let part = year_part_exec(&v, 0);
        if let Some((lo, hi)) = part {
            let at = {
                let mut pat: Vec<char> = Vec::new();
                let mut i = lo;
                while i < hi
                    invariant
                        lo <= i <= hi <= v@.len(),
                        pat@ == v@.subrange(lo as int, i as int),
                    decreases hi - i,
                {
                    pat.push(v[i]);
                    proof {
                        assert(v@.subrange(lo as int, i + 1) =~= v@.subrange(
                            lo as int,
                            i as int,
                        ).push(v@[i as int]));
                    }
                    i = i + 1;
                }
                find_sub_exec(&v, &pat)
            };
            let cut = match at {
                Some(k) => k,
                None => 0,
            };
            let mut t = trim_chars(&v, 0, cut);
            proof {
                assert(v@.subrange(0, cut as int) =~= v@.take(cut as int));
            }
            let mut i = lo;
            while i < hi
                invariant
                    lo <= i <= hi <= v@.len(),
                    cut <= v@.len(),
                    t@ == spec_trim(v@.take(cut as int)) + v@.subrange(lo as int, i as int),
                decreases hi - i,
            {
                t.push(v[i]);
                proof {
                    assert(v@.subrange(lo as int, i + 1) =~= v@.subrange(lo as int, i as int).push(
                        v@[i as int],
                    ));
                    assert(t@ =~= spec_trim(v@.take(cut as int)) + v@.subrange(lo as int, i + 1));
                }
                i = i + 1;
            }
            title = t;
            found = true;
            proof {
                assert(spec_year_branch(v@) is None);
                assert(spec_part_branch(v@) == Some(title@));
            }
        } else {
            proof {
                assert(spec_year_branch(v@) is None);
                assert(spec_part_branch(v@) is None);
            }
        }
    }
    if !found {
        let u = chars_of("Unknown Title");
        proof {
            reveal_strlit("Unknown Title");
            assert(u@ =~= unknown_title());
        }
        title = u;
    }
    proof {
        assert(title@ == (match spec_year_branch(v@) {
            Some(t) => t,
            None => match spec_part_branch(v@) {
                Some(t) => t,
                None => unknown_title(),
            },
        }));
    }
    let m = title.len();
    let mut replaced: Vec<char> = Vec::new();
    let mut i: usize = 0;
    while i < m
        invariant
            m == title@.len(),
            i <= m,
            replaced@ == dots_to_spaces(title@).take(i as int),
        decreases m - i,
    {
        if title[i] == '.' {
            replaced.push(' ');
        } else {
            replaced.push(title[i]);
        }
        proof {
            assert(dots_to_spaces(title@).take(i + 1) =~= dots_to_spaces(title@).take(
                i as int,
            ).push(dots_to_spaces(title@)[i as int]));
        }
        i = i + 1;
    }
    proof {
        assert(dots_to_spaces(title@).take(m as int) =~= dots_to_spaces(title@));
    }
    let out = trim_chars(&replaced, 0, replaced.len());
    proof {
        assert(replaced@.subrange(0, replaced@.len() as int) =~= replaced@);
    }
    string_from_chars(&out)
}

} // verus!
