//! The filename-matching heuristic of the torrent relinker.
//!
//! Media and torrent file names are first normalised — lower-cased, stripped
//! to their alphanumeric characters, and freed of a fixed list of release
//! keywords — and then compared by edit distance. A torrent is matched to a
//! media item when it is the first torrent at the smallest distance below
//! the cut-off.

use vstd::prelude::*;

verus! {

use crate::text::{chars_of, string_from_chars, occurs_at, occurs_at_exec, str_eq};

/// What `str::to_lowercase` returns: a function of the characters alone.
pub uninterp spec fn lower_of(s: Seq<char>) -> Seq<char>;

/// Relies on `str::to_lowercase`: the lowercase mapping of the characters,
/// depending on the characters alone.
#[verifier::external_body]
fn to_lowercase_str(s: &str) -> (r: String)
    ensures
        r@ == lower_of(s@),
{
    s.to_lowercase()
}

/// What `char::is_alphanumeric` returns: a property of the character alone.
pub uninterp spec fn spec_is_alphanumeric(c: char) -> bool;

/// Relies on `char::is_alphanumeric`: whether the character is a Unicode
/// letter or digit, a property of the character alone.
#[verifier::external_body]
fn is_alphanumeric_char(c: char) -> (r: bool)
    ensures
        r == spec_is_alphanumeric(c),
{
    c.is_alphanumeric()
}

/// The characters kept by the alphanumeric filter, in order.
pub open spec fn keep_alnum(s: Seq<char>) -> Seq<char>
    decreases s.len(),
{
    if s.len() == 0 {
        Seq::empty()
    } else {
        keep_alnum(s.drop_last()) + (if spec_is_alphanumeric(s.last()) {
            seq![s.last()]
        } else {
            Seq::empty()
        })
    }
}

/// `s` with every occurrence of `pat` removed, scanning left to right.
pub open spec fn remove_all(s: Seq<char>, pat: Seq<char>) -> Seq<char>
    decreases s.len(),
{
    if s.len() == 0 {
        s
    } else if pat.len() > 0 && occurs_at(s, pat, 0) {
        remove_all(s.skip(pat.len() as int), pat)
    } else {
        seq![s.first()] + remove_all(s.drop_first(), pat)
    }
}

/// The release keywords stripped from a cleaned name, in removal order.
pub open spec fn keywords() -> Seq<Seq<char>> {
    seq![
        seq!['2', '1', '6', '0', 'p'],
        seq!['u', 'h', 'd'],
        seq!['1', '0', 'b', 'i', 't'],
        seq!['4', 'k'],
        seq!['d', 't', 's', 'h', 'd', 'm', 'a'],
        seq!['1', '0', '8', '0', 'p'],
        seq!['h', 'd', 'r'],
        seq!['d', 'v'],
        seq!['x', '2', '6', '5'],
        seq!['w', 'e', 'b'],
        seq!['b', 'l', 'u', 'r', 'a', 'y'],
        seq!['a', 'c', '3'],
        seq!['d', 't', 's'],
        seq!['5', '1'],
        seq!['7', '1'],
        seq!['t', 'r', 'u', 'e', 'h', 'd'],
        seq!['l', 'i', 'g', 'h', 't'],
        seq!['a', 't', 'm'],
        seq!['v', 'f', 'f'],
        seq!['f', 'r', 'e', 'n', 'c', 'h'],
        seq!['m', 'u', 'l', 't', 'i', 'v', 'f'],
        seq!['m', 'u', 'l', 't', 'i'],
        seq!['h', '2', '6', '5'],
        seq!['h', 'e', 'v', 'c'],
        seq!['r', 'e', 'm', 'u', 'x'],
        seq!['b', 'd', 'r', 'i', 'p'],
        seq!['f', 'w', 'm', 'k', 'v'],
        seq!['d', 't', 's', 'h', 'd'],
    ]
}

/// The keywords removed one after the other.
pub open spec fn fold_remove(s: Seq<char>, kws: Seq<Seq<char>>) -> Seq<char>
    decreases kws.len(),
{
    if kws.len() == 0 {
        s
    } else {
        fold_remove(remove_all(s, kws.first()), kws.drop_first())
    }
}

/// The normal form a name is compared under.
pub open spec fn spec_clean_name(s: Seq<char>) -> Seq<char> {
    fold_remove(keep_alnum(lower_of(s)), keywords())
}

/// The keyword list, as characters.
fn keyword_vecs() -> (out: Vec<Vec<char>>)
    ensures
        out@.len() == keywords().len(),
        forall|j: int| 0 <= j < out@.len() ==> (#[trigger] out@[j])@ == keywords()[j],
{
    let mut out: Vec<Vec<char>> = Vec::new();
    let k0 = chars_of("2160p");
    proof {
        reveal_strlit("2160p");
        assert(k0@ =~= keywords()[0]);
    }
    out.push(k0);
    proof {
        assert(forall|j: int| 0 <= j < out@.len() ==> (#[trigger] out@[j])@ == keywords()[j]);
    }
    let k1 = chars_of("uhd");
    proof {
        reveal_strlit("uhd");
        assert(k1@ =~= keywords()[1]);
    }
    out.push(k1);
    proof {
        assert(forall|j: int| 0 <= j < out@.len() ==> (#[trigger] out@[j])@ == keywords()[j]);
    }
    let k2 = chars_of("10bit");
    proof {
        reveal_strlit("10bit");
        assert(k2@ =~= keywords()[2]);
    }
    out.push(k2);
    proof {
        assert(forall|j: int| 0 <= j < out@.len() ==> (#[trigger] out@[j])@ == keywords()[j]);
    }
    let k3 = chars_of("4k");
    proof {
        reveal_strlit("4k");
        assert(k3@ =~= keywords()[3]);
    }
    out.push(k3);
    proof {
        assert(forall|j: int| 0 <= j < out@.len() ==> (#[trigger] out@[j])@ == keywords()[j]);
    }
    let k4 = chars_of("dtshdma");
    proof {
        reveal_strlit("dtshdma");
        assert(k4@ =~= keywords()[4]);
    }
    out.push(k4);
    proof {
        assert(forall|j: int| 0 <= j < out@.len() ==> (#[trigger] out@[j])@ == keywords()[j]);
    }
    let k5 = chars_of("1080p");
    proof {
        reveal_strlit("1080p");
        assert(k5@ =~= keywords()[5]);
    }
    out.push(k5);
    proof {
        assert(forall|j: int| 0 <= j < out@.len() ==> (#[trigger] out@[j])@ == keywords()[j]);
    }
    let k6 = chars_of("hdr");
    proof {
        reveal_strlit("hdr");
        assert(k6@ =~= keywords()[6]);
    }
    out.push(k6);
    proof {
        assert(forall|j: int| 0 <= j < out@.len() ==> (#[trigger] out@[j])@ == keywords()[j]);
    }
    let k7 = chars_of("dv");
    proof {
        reveal_strlit("dv");
        assert(k7@ =~= keywords()[7]);
    }
    out.push(k7);
    proof {
        assert(forall|j: int| 0 <= j < out@.len() ==> (#[trigger] out@[j])@ == keywords()[j]);
    }
    let k8 = chars_of("x265");
    proof {
        reveal_strlit("x265");
        assert(k8@ =~= keywords()[8]);
    }
    out.push(k8);
    proof {
        assert(forall|j: int| 0 <= j < out@.len() ==> (#[trigger] out@[j])@ == keywords()[j]);
    }
    let k9 = chars_of("web");
    proof {
        reveal_strlit("web");
        assert(k9@ =~= keywords()[9]);
    }
    out.push(k9);
    proof {
        assert(forall|j: int| 0 <= j < out@.len() ==> (#[trigger] out@[j])@ == keywords()[j]);
    }
    let k10 = chars_of("bluray");
    proof {
        reveal_strlit("bluray");
        assert(k10@ =~= keywords()[10]);
    }
    out.push(k10);
    proof {
        assert(forall|j: int| 0 <= j < out@.len() ==> (#[trigger] out@[j])@ == keywords()[j]);
    }
    let k11 = chars_of("ac3");
    proof {
        reveal_strlit("ac3");
        assert(k11@ =~= keywords()[11]);
    }
    out.push(k11);
    proof {
        assert(forall|j: int| 0 <= j < out@.len() ==> (#[trigger] out@[j])@ == keywords()[j]);
    }
    let k12 = chars_of("dts");
    proof {
        reveal_strlit("dts");
        assert(k12@ =~= keywords()[12]);
    }
    out.push(k12);
    proof {
        assert(forall|j: int| 0 <= j < out@.len() ==> (#[trigger] out@[j])@ == keywords()[j]);
    }
    let k13 = chars_of("51");
    proof {
        reveal_strlit("51");
        assert(k13@ =~= keywords()[13]);
    }
    out.push(k13);
    proof {
        assert(forall|j: int| 0 <= j < out@.len() ==> (#[trigger] out@[j])@ == keywords()[j]);
    }
    let k14 = chars_of("71");
    proof {
        reveal_strlit("71");
        assert(k14@ =~= keywords()[14]);
    }
    out.push(k14);
    proof {
        assert(forall|j: int| 0 <= j < out@.len() ==> (#[trigger] out@[j])@ == keywords()[j]);
    }
    let k15 = chars_of("truehd");
    proof {
        reveal_strlit("truehd");
        assert(k15@ =~= keywords()[15]);
    }
    out.push(k15);
    proof {
        assert(forall|j: int| 0 <= j < out@.len() ==> (#[trigger] out@[j])@ == keywords()[j]);
    }
    let k16 = chars_of("light");
    proof {
        reveal_strlit("light");
        assert(k16@ =~= keywords()[16]);
    }
    out.push(k16);
    proof {
        assert(forall|j: int| 0 <= j < out@.len() ==> (#[trigger] out@[j])@ == keywords()[j]);
    }
    let k17 = chars_of("atm");
    proof {
        reveal_strlit("atm");
        assert(k17@ =~= keywords()[17]);
    }
    out.push(k17);
    proof {
        assert(forall|j: int| 0 <= j < out@.len() ==> (#[trigger] out@[j])@ == keywords()[j]);
    }
    let k18 = chars_of("vff");
    proof {
        reveal_strlit("vff");
        assert(k18@ =~= keywords()[18]);
    }
    out.push(k18);
    proof {
        assert(forall|j: int| 0 <= j < out@.len() ==> (#[trigger] out@[j])@ == keywords()[j]);
    }
    let k19 = chars_of("french");
    proof {
        reveal_strlit("french");
        assert(k19@ =~= keywords()[19]);
    }
    out.push(k19);
    proof {
        assert(forall|j: int| 0 <= j < out@.len() ==> (#[trigger] out@[j])@ == keywords()[j]);
    }
    let k20 = chars_of("multivf");
    proof {
        reveal_strlit("multivf");
        assert(k20@ =~= keywords()[20]);
    }
    out.push(k20);
    proof {
        assert(forall|j: int| 0 <= j < out@.len() ==> (#[trigger] out@[j])@ == keywords()[j]);
    }
    let k21 = chars_of("multi");
    proof {
        reveal_strlit("multi");
        assert(k21@ =~= keywords()[21]);
    }
    out.push(k21);
    proof {
        assert(forall|j: int| 0 <= j < out@.len() ==> (#[trigger] out@[j])@ == keywords()[j]);
    }
    let k22 = chars_of("h265");
    proof {
        reveal_strlit("h265");
        assert(k22@ =~= keywords()[22]);
    }
    out.push(k22);
    proof {
        assert(forall|j: int| 0 <= j < out@.len() ==> (#[trigger] out@[j])@ == keywords()[j]);
    }
    let k23 = chars_of("hevc");
    proof {
        reveal_strlit("hevc");
        assert(k23@ =~= keywords()[23]);
    }
    out.push(k23);
    proof {
        assert(forall|j: int| 0 <= j < out@.len() ==> (#[trigger] out@[j])@ == keywords()[j]);
    }
    let k24 = chars_of("remux");
    proof {
        reveal_strlit("remux");
        assert(k24@ =~= keywords()[24]);
    }
    out.push(k24);
    proof {
        assert(forall|j: int| 0 <= j < out@.len() ==> (#[trigger] out@[j])@ == keywords()[j]);
    }
    let k25 = chars_of("bdrip");
    proof {
        reveal_strlit("bdrip");
        assert(k25@ =~= keywords()[25]);
    }
    out.push(k25);
    proof {
        assert(forall|j: int| 0 <= j < out@.len() ==> (#[trigger] out@[j])@ == keywords()[j]);
    }
    let k26 = chars_of("fwmkv");
    proof {
        reveal_strlit("fwmkv");
        assert(k26@ =~= keywords()[26]);
    }
    out.push(k26);
    proof {
        assert(forall|j: int| 0 <= j < out@.len() ==> (#[trigger] out@[j])@ == keywords()[j]);
    }
    let k27 = chars_of("dtshd");
    proof {
        reveal_strlit("dtshd");
        assert(k27@ =~= keywords()[27]);
    }
    out.push(k27);
    proof {
        assert(forall|j: int| 0 <= j < out@.len() ==> (#[trigger] out@[j])@ == keywords()[j]);
    }
    out
}

/// The alphanumeric characters of `v`, in order.
fn keep_alnum_exec(v: &Vec<char>) -> (r: Vec<char>)
    ensures
        r@ == keep_alnum(v@),
{
    let n = v.len();
    let mut out: Vec<char> = Vec::new();
    let mut i: usize = 0;
    while i < n
        invariant
            n == v@.len(),
            i <= n,
            out@ == keep_alnum(v@.take(i as int)),
        decreases n - i,
    {
        proof {
            assert(v@.take(i + 1).drop_last() =~= v@.take(i as int));
            assert(v@.take(i + 1).last() == v@[i as int]);
        }
        if is_alphanumeric_char(v[i]) {
            let ghost prev = out@;
            out.push(v[i]);
            proof {
                assert(out@ =~= prev + seq![v@[i as int]]);
            }
        } else {
            proof {
                assert(out@ =~= out@ + Seq::<char>::empty());
            }
        }
        i = i + 1;
    }
    proof {
        assert(v@.take(n as int) =~= v@);
    }
    out
}

/// Removes every occurrence of `pat` from `v[pos..]`.
fn remove_all_from(v: &Vec<char>, pos: usize, pat: &Vec<char>) -> (r: Vec<char>)
    requires
        pos <= v@.len(),
    ensures
        r@ == remove_all(v@.skip(pos as int), pat@),
    decreases v@.len() - pos,
{
    let n = v.len();
    if pos >= n {
        let out: Vec<char> = Vec::new();
        proof {
            assert(v@.skip(pos as int) =~= Seq::<char>::empty());
        }
        return out;
    }
    let m = pat.len();
    if m > 0 && n - pos >= m && occurs_at_exec_at(v, pat, pos) {
        let rest = remove_all_from(v, pos + m, pat);
        proof {
            assert(occurs_at(v@.skip(pos as int), pat@, 0)) by {
                assert(forall|k: int|
                    0 <= k < pat@.len() ==> v@.skip(pos as int)[k] == v@[pos + k]);
            }
            assert(v@.skip(pos as int).skip(m as int) =~= v@.skip(pos + m));
        }
        rest
    } else {
        let mut rest = remove_all_from(v, pos + 1, pat);
        rest.insert(0, v[pos]);
        proof {
            if m > 0 && occurs_at(v@.skip(pos as int), pat@, 0) {
                assert(forall|k: int|
                    0 <= k < pat@.len() ==> v@[pos + k] == v@.skip(pos as int)[k]);
                assert(occurs_at(v@, pat@, pos as int));
            }
            assert(v@.skip(pos as int).first() == v@[pos as int]);
            assert(v@.skip(pos as int).drop_first() =~= v@.skip(pos + 1));
            assert(rest@ =~= seq![v@[pos as int]] + remove_all(v@.skip(pos + 1), pat@));
        }
        rest
    }
}

/// Whether `pat` occurs in `v` at `pos`, bounds already checked.
fn occurs_at_exec_at(v: &Vec<char>, pat: &Vec<char>, pos: usize) -> (r: bool)
    requires
        pos + pat@.len() <= v@.len(),
    ensures
        r == occurs_at(v@, pat@, pos as int),
{
    occurs_at_exec(v, pat, pos)
}

/// Normalises a name for matching: lower case, alphanumeric characters
/// only, release keywords removed.
pub fn clean_name(name: &str) -> (r: String)
    ensures
        r@ == spec_clean_name(name@),
{
    let lowered = to_lowercase_str(name);
    let chars = chars_of(lowered.as_str());
    let filtered = keep_alnum_exec(&chars);
    let kws = keyword_vecs();
    let nk = kws.len();
    let mut acc = filtered;
    proof {
        assert(keywords().skip(0) =~= keywords());
    }
    let mut i: usize = 0;
    while i < nk
        invariant
            nk == keywords().len(),
            nk == kws@.len(),
            forall|j: int| 0 <= j < nk ==> (#[trigger] kws@[j])@ == keywords()[j],
            i <= nk,
            fold_remove(acc@, keywords().skip(i as int)) == spec_clean_name(name@),
        decreases nk - i,
    {
        proof {
            assert(keywords().skip(i as int).first() == keywords()[i as int]);
            assert(keywords().skip(i as int).drop_first() =~= keywords().skip(i + 1));
        }
        let next = remove_all_from(&acc, 0, &kws[i]);
        proof {
            assert(acc@.skip(0) =~= acc@);
        }
        acc = next;
        i = i + 1;
    }
    proof {
        assert(keywords().skip(nk as int) =~= Seq::<Seq<char>>::empty());
    }
    string_from_chars(&acc)
}

/// The edit distance between the first `i` characters of `a` and the first
/// `j` characters of `b`: insertions, deletions and substitutions each
/// cost one.
pub open spec fn lev(a: Seq<char>, b: Seq<char>, i: nat, j: nat) -> nat
    decreases i + j,
{
    if i == 0 {
        j
    } else if j == 0 {
        i
    } else {
        let del = lev(a, b, (i - 1) as nat, j) + 1;
        let ins = lev(a, b, i, (j - 1) as nat) + 1;
        let sub = lev(a, b, (i - 1) as nat, (j - 1) as nat) + (if a[i - 1] == b[j - 1] {
            0nat
        } else {
            1nat
        });
        min3(del, ins, sub)
    }
}

/// The smallest of three costs.
pub open spec fn min3(x: nat, y: nat, z: nat) -> nat {
    if x <= y && x <= z {
        x
    } else if y <= z {
        y
    } else {
        z
    }
}

/// The distance never exceeds the longer prefix.
pub proof fn lemma_lev_le(a: Seq<char>, b: Seq<char>, i: nat, j: nat)
    ensures
        lev(a, b, i, j) <= i + j,
        lev(a, b, i, j) <= (if i >= j {
            i
        } else {
            j
        }),
    decreases i + j,
{
    if i > 0 && j > 0 {
        lemma_lev_le(a, b, (i - 1) as nat, j);
        lemma_lev_le(a, b, i, (j - 1) as nat);
        lemma_lev_le(a, b, (i - 1) as nat, (j - 1) as nat);
    }
}

/// A string is at distance zero from itself.
pub proof fn lemma_lev_refl(a: Seq<char>, i: nat)
    requires
        i <= a.len(),
    ensures
        lev(a, a, i, i) == 0,
    decreases i,
{
    if i > 0 {
        lemma_lev_refl(a, (i - 1) as nat);
    }
}

/// The edit distance between two names' characters. Total: any two strings
/// can be compared.
pub fn levenshtein(a: &str, b: &str) -> (r: usize)
    ensures
        r == lev(a@, b@, a@.len(), b@.len()),
{
    if str_eq(a, b) {
        proof {
            lemma_lev_refl(a@, a@.len());
        }
        return 0;
    }
    let av = chars_of(a);
    let bv = chars_of(b);
    let alen = av.len();
    let blen = bv.len();
    if alen == 0 {
        return blen;
    }
    if blen == 0 {
        return alen;
    }
    let mut prev: Vec<u128> = Vec::new();
    prev.push(0);
    let mut k: usize = 0;
    while k < blen
        invariant
            blen == b@.len(),
            k <= blen,
            prev@.len() == k + 1,
            forall|m: int| 0 <= m <= k ==> prev@[m] == lev(a@, b@, 0, m as nat),
        decreases blen - k,
    {
        let next = (k as u128) + 1;
        prev.push(next);
        k = k + 1;
    }
    let mut i: usize = 0;
    while i < alen
        invariant
            alen == a@.len(),
            blen == b@.len(),
            av@ == a@,
            bv@ == b@,
            i <= alen,
            prev@.len() == blen + 1,
            forall|m: int| 0 <= m <= blen ==> prev@[m] == lev(a@, b@, i as nat, m as nat),
        decreases alen - i,
    {
        let mut curr: Vec<u128> = Vec::new();
        curr.push((i + 1) as u128);
        let mut j: usize = 0;
        while j < blen
            invariant
                alen == a@.len(),
                blen == b@.len(),
                av@ == a@,
                bv@ == b@,
                i < alen,
                j <= blen,
                prev@.len() == blen + 1,
                forall|m: int| 0 <= m <= blen ==> prev@[m] == lev(a@, b@, i as nat, m as nat),
                curr@.len() == j + 1,
                forall|m: int| 0 <= m <= j ==> curr@[m] == lev(a@, b@, (i + 1) as nat, m as nat),
            decreases blen - j,
        {
            let cost: u128 = if av[i] == bv[j] {
                0
            } else {
                1
            };
            proof {
                lemma_lev_le(a@, b@, (i + 1) as nat, j as nat);
                lemma_lev_le(a@, b@, i as nat, (j + 1) as nat);
                lemma_lev_le(a@, b@, i as nat, j as nat);
            }
            let d1 = curr[j] + 1;
            let d2 = prev[j + 1] + 1;
            let d3 = prev[j] + cost;
            let best = if d1 <= d2 && d1 <= d3 {
                d1
            } else if d2 <= d3 {
                d2
            } else {
                d3
            };
            curr.push(best);
            j = j + 1;
        }
        prev = curr;
        i = i + 1;
    }
    let out = prev[blen];
    proof {
        lemma_lev_le(a@, b@, a@.len(), b@.len());
    }
    out as usize
}

/// The distance under which two cleaned names are considered a match.
pub open spec fn match_cutoff() -> nat {
    11
}

/// The matching distance between a media name and a torrent name.
pub open spec fn spec_match_dist(media: Seq<char>, torrent: Seq<char>) -> nat {
    lev(
        spec_clean_name(media),
        spec_clean_name(torrent),
        spec_clean_name(media).len(),
        spec_clean_name(torrent).len(),
    )
}

/// Picks the torrent matching a media item: the first one at the smallest
/// cleaned-name edit distance under the cut-off, if any lies under it.
pub fn best_match(media: &str, torrents: &Vec<String>) -> (r: Option<usize>)
    ensures
        r matches Some(k) ==> 0 <= k < torrents@.len() && spec_match_dist(
            media@,
            torrents@[k as int]@,
        ) < match_cutoff() && (forall|j: int|
            0 <= j < torrents@.len() ==> spec_match_dist(media@, (#[trigger] torrents@[j])@)
                >= spec_match_dist(media@, torrents@[k as int]@)) && (forall|j: int|
            0 <= j < k ==> spec_match_dist(media@, (#[trigger] torrents@[j])@) > spec_match_dist(
                media@,
                torrents@[k as int]@,
            )),
        r is None ==> forall|j: int|
            0 <= j < torrents@.len() ==> spec_match_dist(media@, (#[trigger] torrents@[j])@)
                >= match_cutoff(),
{
    let media_clean = clean_name(media);
    let n = torrents.len();
    let mut best: Option<usize> = None;
    let mut best_distance: usize = 11;
    let mut i: usize = 0;
    while i < n
        invariant
            n == torrents@.len(),
            i <= n,
            media_clean@ == spec_clean_name(media@),
            best_distance <= 11,
            best matches Some(k) ==> 0 <= k < i && best_distance == spec_match_dist(
                media@,
                torrents@[k as int]@,
            ) && best_distance < 11 && (forall|j: int|
                0 <= j < k ==> spec_match_dist(media@, (#[trigger] torrents@[j])@)
                    > best_distance),
            best is None ==> best_distance == 11,
            forall|j: int|
                0 <= j < i ==> spec_match_dist(media@, (#[trigger] torrents@[j])@)
                    >= best_distance,
        decreases n - i,
    {
        let torrent_clean = clean_name(torrents[i].as_str());
        let distance = levenshtein(media_clean.as_str(), torrent_clean.as_str());
        if distance < best_distance {
            best_distance = distance;
            best = Some(i);
        }
        i = i + 1;
    }
    best
}

} // verus!
