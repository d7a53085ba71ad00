//! The structured report format: a lossless tree document and its reader.
//!
//! A tree is serialized to a compact JSON document with the fields `path`,
//! `name`, `size`, `files` and `subfolders`, in that fixed order; quotes and
//! backslashes in names are escaped, everything else is written verbatim.
//! The reader accepts exactly this shape and is proved complete for it:
//! parsing a serialized tree always succeeds and returns a structurally
//! equal tree — in particular one with identical aggregate size at every
//! node.

use vstd::prelude::*;

verus! {

use crate::text::{chars_of, string_from_chars};
use crate::tree::{FolderNode, FileNode, tree_equal, file_nodes_equal, folder_lists_equal};
use crate::sizefmt::{dec_rep, digit_char};

/// One escaped character: quote and backslash get a backslash prefix.
pub open spec fn esc_char(c: char) -> Seq<char> {
    if c == '"' {
        seq!['\\', '"']
    } else if c == '\\' {
        seq!['\\', '\\']
    } else {
        seq![c]
    }
}

/// A string body with every character escaped.
pub open spec fn esc(s: Seq<char>) -> Seq<char>
    decreases s.len(),
{
    if s.len() == 0 {
        Seq::empty()
    } else {
        esc_char(s.first()) + esc(s.drop_first())
    }
}

/// The opening of an object up to the start of the path string.
pub open spec fn lit_obj_open() -> Seq<char> {
    seq!['{', '"', 'p', 'a', 't', 'h', '"', ':', '"']
}

/// Between the path string and the name string.
pub open spec fn lit_name() -> Seq<char> {
    seq!['"', ',', '"', 'n', 'a', 'm', 'e', '"', ':', '"']
}

/// Between the name string and the size number.
pub open spec fn lit_size() -> Seq<char> {
    seq!['"', ',', '"', 's', 'i', 'z', 'e', '"', ':']
}

/// Between the size number and the file list.
pub open spec fn lit_files() -> Seq<char> {
    seq![',', '"', 'f', 'i', 'l', 'e', 's', '"', ':', '[']
}

/// Between the file list and the subfolder list.
pub open spec fn lit_subs() -> Seq<char> {
    seq![']', ',', '"', 's', 'u', 'b', 'f', 'o', 'l', 'd', 'e', 'r', 's', '"', ':', '[']
}

/// The closing of a folder object.
pub open spec fn lit_end() -> Seq<char> {
    seq![']', '}']
}

/// One serialized file object.
pub open spec fn ser_file(f: FileNode) -> Seq<char> {
    lit_obj_open() + esc(f.path@) + lit_name() + esc(f.name@) + lit_size() + dec_rep(f.size as nat)
        + seq!['}']
}

/// A comma-separated file list, without its brackets.
pub open spec fn ser_files(fs: Seq<FileNode>) -> Seq<char>
    decreases fs.len(),
{
    if fs.len() == 0 {
        Seq::empty()
    } else {
        ser_file(fs.first()) + ser_files_tail(fs.drop_first())
    }
}

/// The continuation of a file list: a comma before every further entry.
pub open spec fn ser_files_tail(fs: Seq<FileNode>) -> Seq<char>
    decreases fs.len(),
{
    if fs.len() == 0 {
        Seq::empty()
    } else {
        seq![','] + ser_file(fs.first()) + ser_files_tail(fs.drop_first())
    }
}

/// One serialized folder object, recursively.
pub open spec fn ser_tree(f: FolderNode) -> Seq<char>
    decreases f,
{
    lit_obj_open() + esc(f.path@) + lit_name() + esc(f.name@) + lit_size() + dec_rep(f.size as nat)
        + lit_files() + ser_files(f.files@) + lit_subs() + ser_subs(f.subfolders@) + lit_end()
}

/// A comma-separated folder list, without its brackets.
pub open spec fn ser_subs(subs: Seq<FolderNode>) -> Seq<char>
    decreases subs,
{
    if subs.len() == 0 {
        Seq::empty()
    } else {
        ser_tree(subs.first()) + ser_subs_tail(subs.drop_first())
    }
}

/// The continuation of a folder list: a comma before every further entry.
pub open spec fn ser_subs_tail(subs: Seq<FolderNode>) -> Seq<char>
    decreases subs,
{
    if subs.len() == 0 {
        Seq::empty()
    } else {
        seq![','] + ser_tree(subs.first()) + ser_subs_tail(subs.drop_first())
    }
}

/// Escaping distributes over concatenation.
pub proof fn lemma_esc_concat(a: Seq<char>, b: Seq<char>)
    ensures
        esc(a + b) == esc(a) + esc(b),
    decreases a.len(),
{
    if a.len() == 0 {
        assert(a + b =~= b);
        assert(esc(a) + esc(b) =~= esc(b));
    } else {
        assert((a + b).first() == a.first());
        assert((a + b).drop_first() =~= a.drop_first() + b);
        lemma_esc_concat(a.drop_first(), b);
        assert(esc(a + b) =~= esc(a) + esc(b));
    }
}

/// The escaped characters of one character, as computed.
fn esc_char_exec(c: char, out: &mut Vec<char>)
    ensures
        final(out)@ == old(out)@ + esc_char(c),
{
    let ghost prev = out@;
    if c == '"' {
        out.push('\\');
        out.push('"');
    } else if c == '\\' {
        out.push('\\');
        out.push('\\');
    } else {
        out.push(c);
    }
    proof {
        assert(out@ =~= prev + esc_char(c));
    }
}

/// Appends the escaped body of `s`.
fn esc_exec(s: &str, out: &mut Vec<char>)
    ensures
        final(out)@ == old(out)@ + esc(s@),
{
    let v = chars_of(s);
    let n = v.len();
    let mut i: usize = 0;
    while i < n
        invariant
            n == v@.len(),
            v@ == s@,
            i <= n,
            out@ == old(out)@ + esc(s@.take(i as int)),
        decreases n - i,
    {
        proof {
            assert(s@.take(i + 1) =~= s@.take(i as int) + seq![s@[i as int]]);
            lemma_esc_concat(s@.take(i as int), seq![s@[i as int]]);
            assert(seq![s@[i as int]].drop_first() =~= Seq::<char>::empty());
            assert(esc(Seq::<char>::empty()) == Seq::<char>::empty());
            assert(esc(seq![s@[i as int]]) =~= esc_char(s@[i as int]));
        }
        esc_char_exec(v[i], out);
        proof {
            assert(out@ =~= old(out)@ + esc(s@.take(i + 1)));
        }
        i = i + 1;
    }
    proof {
        assert(s@.take(n as int) =~= s@);
    }
}

/// Appends a literal fragment of the format.
fn append_lit(out: &mut Vec<char>, lit: &Vec<char>)
    ensures
        final(out)@ == old(out)@ + lit@,
{
    let n = lit.len();
    let mut i: usize = 0;
    while i < n
        invariant
            n == lit@.len(),
            i <= n,
            out@ == old(out)@ + lit@.take(i as int),
        decreases n - i,
    {
        out.push(lit[i]);
        proof {
            assert(lit@.take(i + 1) =~= lit@.take(i as int).push(lit@[i as int]));
            assert(out@ =~= old(out)@ + lit@.take(i + 1));
        }
        i = i + 1;
    }
    proof {
        assert(lit@.take(n as int) =~= lit@);
    }
}

/// The opening fragment, as characters.
fn lit_obj_open_vec() -> (v: Vec<char>)
    ensures
        v@ == lit_obj_open(),
{
    let v = chars_of("{\"path\":\"");
    proof {
        reveal_strlit("{\"path\":\"");
        assert(v@ =~= lit_obj_open());
    }
    v
}

/// The fragment before the name, as characters.
fn lit_name_vec() -> (v: Vec<char>)
    ensures
        v@ == lit_name(),
{
    let v = chars_of("\",\"name\":\"");
    proof {
        reveal_strlit("\",\"name\":\"");
        assert(v@ =~= lit_name());
    }
    v
}

/// The fragment before the size, as characters.
fn lit_size_vec() -> (v: Vec<char>)
    ensures
        v@ == lit_size(),
{
    let v = chars_of("\",\"size\":");
    proof {
        reveal_strlit("\",\"size\":");
        assert(v@ =~= lit_size());
    }
    v
}

/// The fragment before the file list, as characters.
fn lit_files_vec() -> (v: Vec<char>)
    ensures
        v@ == lit_files(),
{
    let v = chars_of(",\"files\":[");
    proof {
        reveal_strlit(",\"files\":[");
        assert(v@ =~= lit_files());
    }
    v
}

/// The fragment before the subfolder list, as characters.
fn lit_subs_vec() -> (v: Vec<char>)
    ensures
        v@ == lit_subs(),
{
    let v = chars_of("],\"subfolders\":[");
    proof {
        reveal_strlit("],\"subfolders\":[");
        assert(v@ =~= lit_subs());
    }
    v
}

/// The closing fragment, as characters.
fn lit_end_vec() -> (v: Vec<char>)
    ensures
        v@ == lit_end(),
{
    let v = chars_of("]}");
    proof {
        reveal_strlit("]}");
        assert(v@ =~= lit_end());
    }
    v
}

/// Appends the decimal digits of `n`.
fn append_dec(out: &mut Vec<char>, n: u64)
    ensures
        final(out)@ == old(out)@ + dec_rep(n as nat),
    decreases n,
{
    if n < 10 {
        out.push(crate::sizefmt::digit_char_exec(n));
        proof {
            assert(out@ =~= old(out)@ + dec_rep(n as nat));
        }
    } else {
        append_dec(out, n / 10);
        out.push(crate::sizefmt::digit_char_exec(n % 10));
        proof {
            assert(out@ =~= old(out)@ + dec_rep(n as nat));
        }
    }
}

/// Appends one serialized file object.
fn ser_file_exec(f: &FileNode, out: &mut Vec<char>)
    ensures
        final(out)@ == old(out)@ + ser_file(*f),
{
    let lit1 = lit_obj_open_vec();
    append_lit(out, &lit1);
    esc_exec(f.path.as_str(), out);
    let lit2 = lit_name_vec();
    append_lit(out, &lit2);
    esc_exec(f.name.as_str(), out);
    let lit3 = lit_size_vec();
    append_lit(out, &lit3);
    append_dec(out, f.size);
    out.push('}');
    proof {
        assert(out@ =~= old(out)@ + ser_file(*f));
    }
}

/// Appends a comma-separated file list.
fn ser_files_exec(files: &Vec<FileNode>, out: &mut Vec<char>)
    ensures
        final(out)@ == old(out)@ + ser_files(files@),
{
    if files.len() == 0 {
        proof {
            assert(out@ =~= old(out)@ + ser_files(files@));
        }
        return ;
    }
    ser_file_exec(&files[0], out);
    proof {
        assert(files@.skip(1) =~= files@.drop_first());
    }
    ser_files_from(files, 1, out);
    proof {
        assert(out@ =~= old(out)@ + ser_files(files@));
    }
}

/// Appends the continuation of a file list from entry `i` on.
fn ser_files_from(files: &Vec<FileNode>, i: usize, out: &mut Vec<char>)
    requires
        1 <= i <= files@.len(),
    ensures
        final(out)@ == old(out)@ + ser_files_tail(files@.skip(i as int)),
    decreases files@.len() - i,
{
    if i == files.len() {
        proof {
            assert(files@.skip(i as int) =~= Seq::<FileNode>::empty());
            assert(out@ =~= old(out)@ + ser_files_tail(files@.skip(i as int)));
        }
        return ;
    }
    out.push(',');
    ser_file_exec(&files[i], out);
    proof {
        assert(files@.skip(i as int).first() == files@[i as int]);
        assert(files@.skip(i as int).drop_first() =~= files@.skip(i + 1));
    }
    ser_files_from(files, i + 1, out);
    proof {
        assert(out@ =~= old(out)@ + ser_files_tail(files@.skip(i as int)));
    }
}

/// Appends one serialized folder object, recursively.
#[verifier::rlimit(60)]
fn ser_tree_exec(f: &FolderNode, out: &mut Vec<char>)
    ensures
        final(out)@ == old(out)@ + ser_tree(*f),
    decreases *f,
{
    let lit1 = lit_obj_open_vec();
    append_lit(out, &lit1);
    esc_exec(f.path.as_str(), out);
    let lit2 = lit_name_vec();
    append_lit(out, &lit2);
    esc_exec(f.name.as_str(), out);
    let lit3 = lit_size_vec();
    append_lit(out, &lit3);
    append_dec(out, f.size);
    let lit4 = lit_files_vec();
    append_lit(out, &lit4);
    ser_files_exec(&f.files, out);
    let lit5 = lit_subs_vec();
    append_lit(out, &lit5);
    if f.subfolders.len() > 0 {
        ser_tree_exec(&f.subfolders[0], out);
        proof {
            assert(f.subfolders@.skip(1) =~= f.subfolders@.drop_first());
        }
        ser_subs_from(f, 1, out);
    }
    let lit6 = lit_end_vec();
    append_lit(out, &lit6);
    proof {
        if f.subfolders@.len() == 0 {
            assert(ser_subs(f.subfolders@) =~= Seq::<char>::empty());
        }
        assert(out@ =~= old(out)@ + ser_tree(*f));
    }
}

/// Appends the continuation of this folder's subfolder list from entry `i`.
fn ser_subs_from(f: &FolderNode, i: usize, out: &mut Vec<char>)
    requires
        1 <= i <= f.subfolders@.len(),
    ensures
        final(out)@ == old(out)@ + ser_subs_tail(f.subfolders@.skip(i as int)),
    decreases *f, f.subfolders@.len() - i,
{
    if i == f.subfolders.len() {
        proof {
            assert(f.subfolders@.skip(i as int) =~= Seq::<FolderNode>::empty());
            assert(out@ =~= old(out)@ + ser_subs_tail(f.subfolders@.skip(i as int)));
        }
        return ;
    }
    out.push(',');
    ser_tree_exec(&f.subfolders[i], out);
    proof {
        assert(f.subfolders@.skip(i as int).first() == f.subfolders@[i as int]);
        assert(f.subfolders@.skip(i as int).drop_first() =~= f.subfolders@.skip(i + 1));
    }
    ser_subs_from(f, i + 1, out);
    proof {
        assert(out@ =~= old(out)@ + ser_subs_tail(f.subfolders@.skip(i as int)));
    }
}

/// Serializes the full tree to its structured document.
pub fn serialize_tree(f: &FolderNode) -> (r: String)
    ensures
        r@ == ser_tree(*f),
{
    let mut out: Vec<char> = Vec::new();
    ser_tree_exec(f, &mut out);
    string_from_chars(&out)
}

/// Splitting a known subrange at a concatenation boundary.
pub proof fn lemma_subrange_split(s: Seq<char>, i: int, j: int, a: Seq<char>, b: Seq<char>)
    requires
        0 <= i <= j <= s.len(),
        s.subrange(i, j) == a + b,
    ensures
        i + a.len() <= j,
        s.subrange(i, i + a.len()) == a,
        s.subrange(i + a.len(), j) == b,
{
    assert(s.subrange(i, j).len() == a.len() + b.len());
    assert forall|k: int| 0 <= k < a.len() implies s.subrange(i, i + a.len() as int)[k] == a[k] by {
        assert(s.subrange(i, j)[k] == a[k]);
    }
    assert(s.subrange(i, i + a.len()) =~= a);
    assert forall|k: int| 0 <= k < b.len() implies s.subrange(i + a.len(), j)[k] == b[k] by {
        assert(s.subrange(i, j)[k + a.len()] == b[k]);
    }
    assert(s.subrange(i + a.len(), j) =~= b);
}

/// Whether a character is a decimal digit.
pub open spec fn is_digit(c: char) -> bool {
    ||| c == '0'
    ||| c == '1'
    ||| c == '2'
    ||| c == '3'
    ||| c == '4'
    ||| c == '5'
    ||| c == '6'
    ||| c == '7'
    ||| c == '8'
    ||| c == '9'
}

/// Whether a character is a decimal digit.
pub fn is_digit_exec(c: char) -> (r: bool)
    ensures
        r == is_digit(c),
{
    c == '0' || c == '1' || c == '2' || c == '3' || c == '4' || c == '5' || c == '6' || c == '7'
        || c == '8' || c == '9'
}

/// The numeric value of a digit character; ten for anything else.
fn char_digit_val(c: char) -> (d: u64)
    ensures
        d <= 10,
        (d <= 9) == is_digit(c),
        is_digit(c) ==> c == digit_char(d as nat),
{
    if c == '0' {
        0
    } else if c == '1' {
        1
    } else if c == '2' {
        2
    } else if c == '3' {
        3
    } else if c == '4' {
        4
    } else if c == '5' {
        5
    } else if c == '6' {
        6
    } else if c == '7' {
        7
    } else if c == '8' {
        8
    } else if c == '9' {
        9
    } else {
        10
    }
}

/// Every character of a decimal representation is a digit, and the
/// representation is never empty.
pub proof fn lemma_dec_rep_digits(n: nat)
    ensures
        dec_rep(n).len() >= 1,
        forall|k: int| 0 <= k < dec_rep(n).len() ==> is_digit(#[trigger] dec_rep(n)[k]),
        n < 10 <==> dec_rep(n).len() == 1,
    decreases n,
{
    if n < 10 {
    } else {
        lemma_dec_rep_digits(n / 10);
        assert forall|k: int| 0 <= k < dec_rep(n).len() implies is_digit(
            #[trigger] dec_rep(n)[k],
        ) by {
            if k < dec_rep(n / 10).len() {
                assert(dec_rep(n)[k] == dec_rep(n / 10)[k]);
            } else {
                assert(dec_rep(n)[k] == digit_char(n % 10));
            }
        }
    }
}

/// Converts the digit run `v[i..k]` to a number; on the decimal
/// representation of any `n` that fits, the result is exactly `n`.
fn conv_digits(v: &Vec<char>, i: usize, k: usize) -> (r: Option<u64>)
    requires
        i < k <= v@.len(),
    ensures
        forall|n: nat|
            #![trigger dec_rep(n)]
            (n <= u64::MAX && k - i == dec_rep(n).len() && v@.subrange(i as int, k as int)
                == dec_rep(n)) ==> r == Some(n as u64),
    decreases k - i,
{
    if k - i == 1 {
        let d = char_digit_val(v[i]);
        if d <= 9 {
            proof {
                assert forall|n: nat|
                    (n <= u64::MAX && k - i == dec_rep(n).len() && v@.subrange(
                        i as int,
                        k as int,
                    ) == dec_rep(n)) implies Some(d) == Some(n as u64) by {
                    lemma_dec_rep_digits(n);
                    assert(n < 10);
                    assert(dec_rep(n)[0] == digit_char(n));
                    assert(v@.subrange(i as int, k as int)[0] == v@[i as int]);
                    assert(v@[i as int] == digit_char(n));
                    assert(d as nat == n);
                }
            }
            Some(d)
        } else {
            proof {
                assert forall|n: nat|
                    !(n <= u64::MAX && k - i == dec_rep(n).len() && v@.subrange(
                        i as int,
                        k as int,
                    ) == dec_rep(n)) by {
                    if n <= u64::MAX && k - i == dec_rep(n).len() && v@.subrange(
                        i as int,
                        k as int,
                    ) == dec_rep(n) {
                        lemma_dec_rep_digits(n);
                        assert(dec_rep(n)[0] == digit_char(n));
                        assert(v@[i as int] == digit_char(n));
                        assert(is_digit(v@[i as int]));
                    }
                }
            }
            None
        }
    } else {
        let inner = conv_digits(v, i, k - 1);
        let d = char_digit_val(v[k - 1]);
        let r: Option<u64> = match inner {
            Some(acc) => {
                if d <= 9 && acc <= u64::MAX / 10 && acc * 10 <= u64::MAX - d {
                    Some(acc * 10 + d)
                } else {
                    None
                }
            },
            None => None,
        };
        proof {
            assert forall|n: nat|
                (n <= u64::MAX && k - i == dec_rep(n).len() && v@.subrange(i as int, k as int)
                    == dec_rep(n)) implies r == Some(n as u64) by {
                lemma_dec_rep_digits(n);
                assert(n >= 10);
                assert(dec_rep(n) == dec_rep(n / 10).push(digit_char(n % 10)));
                lemma_dec_rep_digits(n / 10);
                assert(v@.subrange(i as int, k as int).len() == k - i);
                assert forall|m: int| 0 <= m < k - 1 - i implies #[trigger] (v@.subrange(
                    i as int,
                    (k - 1) as int,
                )[m]) == dec_rep(n / 10)[m] by {
                    assert(v@.subrange(i as int, k as int)[m] == dec_rep(n)[m]);
                    assert(dec_rep(n)[m] == dec_rep(n / 10)[m]);
                }
                assert(v@.subrange(i as int, (k - 1) as int) =~= dec_rep(n / 10));
                assert(n / 10 <= u64::MAX) by {
                    assert(n / 10 <= n);
                }
                assert(inner == Some((n / 10) as u64));
                assert(v@.subrange(i as int, k as int)[k - i - 1] == dec_rep(n)[k - i - 1]);
                assert(dec_rep(n)[k - i - 1] == digit_char(n % 10));
                assert(v@[k - 1] == digit_char(n % 10));
                assert(d as nat == n % 10);
                assert((n / 10) * 10 + n % 10 == n) by (nonlinear_arith);
                assert(n / 10 <= u64::MAX / 10) by {
                    assert((u64::MAX / 10) * 10 + 5 == u64::MAX);
                    if n / 10 > u64::MAX / 10 {
                        assert((n / 10) * 10 > (u64::MAX / 10) * 10) by (nonlinear_arith)
                            requires
                                n / 10 > u64::MAX / 10,
                        ;
                    }
                }
            }
        }
        r
    }
}

/// Parses the maximal digit run at `i` as a number. On the decimal
/// representation of any `n` that fits, followed by a non-digit, the result
/// is exactly `n`, positioned right after it.
fn parse_u64_at(v: &Vec<char>, i: usize) -> (r: Option<(u64, usize)>)
    ensures
        r matches Some(p) ==> i < p.1 <= v@.len(),
        forall|n: nat|
            #![trigger dec_rep(n)]
            (n <= u64::MAX && i + dec_rep(n).len() <= v@.len() && v@.subrange(
                i as int,
                i + dec_rep(n).len(),
            ) == dec_rep(n) && (i + dec_rep(n).len() < v@.len() ==> !is_digit(
                v@[i + dec_rep(n).len()],
            ))) ==> r == Some((n as u64, (i + dec_rep(n).len()) as usize)),
{
    let len = v.len();
    if i >= len {
        proof {
            assert forall|n: nat|
                !(n <= u64::MAX && i + dec_rep(n).len() <= v@.len() && v@.subrange(
                    i as int,
                    i + dec_rep(n).len(),
                ) == dec_rep(n) && (i + dec_rep(n).len() < v@.len() ==> !is_digit(
                    v@[i + dec_rep(n).len()],
                ))) by {
                lemma_dec_rep_digits(n);
            }
        }
        return None;
    }
    let mut cur = i;
    while cur < len && is_digit_exec(v[cur])
        invariant
            len == v@.len(),
            i <= cur <= len,
            forall|m: int| i <= m < cur ==> is_digit(#[trigger] v@[m]),
        decreases len - cur,
    {
        cur = cur + 1;
    }
    if cur == i {
        proof {
            assert forall|n: nat|
                !(n <= u64::MAX && i + dec_rep(n).len() <= v@.len() && v@.subrange(
                    i as int,
                    i + dec_rep(n).len(),
                ) == dec_rep(n) && (i + dec_rep(n).len() < v@.len() ==> !is_digit(
                    v@[i + dec_rep(n).len()],
                ))) by {
                if n <= u64::MAX && i + dec_rep(n).len() <= v@.len() && v@.subrange(
                    i as int,
                    i + dec_rep(n).len(),
                ) == dec_rep(n) {
                    lemma_dec_rep_digits(n);
                    assert(v@.subrange(i as int, i + dec_rep(n).len())[0] == dec_rep(n)[0]);
                    assert(is_digit(v@[i as int]));
                    assert(i < len);
                }
            }
        }
        return None;
    }
    let value = conv_digits(v, i, cur);
    match value {
        Some(num) => {
            proof {
                assert forall|n: nat|
                    (n <= u64::MAX && i + dec_rep(n).len() <= v@.len() && v@.subrange(
                        i as int,
                        i + dec_rep(n).len(),
                    ) == dec_rep(n) && (i + dec_rep(n).len() < v@.len() ==> !is_digit(
                        v@[i + dec_rep(n).len()],
                    ))) implies Some((num, cur)) == Some((n as u64, (i + dec_rep(n).len()) as usize)) by {
                    lemma_dec_rep_digits(n);
                    let e = i + dec_rep(n).len();
                    assert forall|m: int| i <= m < e implies is_digit(#[trigger] v@[m]) by {
                        assert(v@.subrange(i as int, e as int)[m - i] == dec_rep(n)[m - i]);
                    }
                    if cur < e {
                        assert(is_digit(v@[cur as int]));
                        assert(false);
                    }
                    if cur > e {
                        assert(is_digit(v@[e as int]));
                        assert(false);
                    }
                    assert(cur == e);
                }
            }
            Some((num, cur))
        },
        None => {
            proof {
                assert forall|n: nat|
                    !(n <= u64::MAX && i + dec_rep(n).len() <= v@.len() && v@.subrange(
                        i as int,
                        i + dec_rep(n).len(),
                    ) == dec_rep(n) && (i + dec_rep(n).len() < v@.len() ==> !is_digit(
                        v@[i + dec_rep(n).len()],
                    ))) by {
                    if n <= u64::MAX && i + dec_rep(n).len() <= v@.len() && v@.subrange(
                        i as int,
                        i + dec_rep(n).len(),
                    ) == dec_rep(n) && (i + dec_rep(n).len() < v@.len() ==> !is_digit(
                        v@[i + dec_rep(n).len()],
                    )) {
                        lemma_dec_rep_digits(n);
                        let e = i + dec_rep(n).len();
                        assert forall|m: int| i <= m < e implies is_digit(#[trigger] v@[m]) by {
                            assert(v@.subrange(i as int, e as int)[m - i] == dec_rep(n)[m - i]);
                        }
                        if cur < e {
                            assert(is_digit(v@[cur as int]));
                        }
                        if cur > e {
                            assert(is_digit(v@[e as int]));
                        }
                        assert(cur == e);
                        assert(value == Some(n as u64));
                    }
                }
            }
            None
        },
    }
}

/// The escaped body of `s` plus the closing quote stands in `v` at `i`.
pub open spec fn str_match(v: Seq<char>, i: int, s: Seq<char>) -> bool {
    &&& 0 <= i
    &&& i + esc(s).len() + 1 <= v.len()
    &&& v.subrange(i, i + esc(s).len() + 1) == esc(s) + seq!['"']
}

/// Unfolding one escaped character of a matched string body.
proof fn lemma_str_match_step(v: Seq<char>, i: int, s: Seq<char>)
    requires
        str_match(v, i, s),
        v[i] != '"',
    ensures
        s.len() > 0,
        str_match(v, i + esc_char(s.first()).len(), s.drop_first()),
        esc(s).len() == esc_char(s.first()).len() + esc(s.drop_first()).len(),
        (s.first() == '"' || s.first() == '\\') ==> (v[i] == '\\' && i + 1 < v.len() && v[i + 1]
            == s.first() && esc_char(s.first()).len() == 2),
        !(s.first() == '"' || s.first() == '\\') ==> (v[i] == s.first() && esc_char(
            s.first(),
        ).len() == 1),
{
    assert(v.subrange(i, i + esc(s).len() + 1)[0] == v[i]);
    if s.len() == 0 {
        assert(esc(s).len() == 0);
        assert(v[i] == '"');
        assert(false);
    }
    assert(esc(s) == esc_char(s.first()) + esc(s.drop_first()));
    assert(v[i] == esc(s)[0]);
    assert(esc(s)[0] == esc_char(s.first())[0]);
    assert(esc(s) + seq!['"'] =~= esc_char(s.first()) + (esc(s.drop_first()) + seq!['"']));
    lemma_subrange_split(
        v,
        i,
        i + esc(s).len() + 1,
        esc_char(s.first()),
        esc(s.drop_first()) + seq!['"'],
    );
    if s.first() == '"' || s.first() == '\\' {
        assert(esc_char(s.first()) =~= seq!['\\', s.first()]);
        assert(v.subrange(i, i + 2)[0] == v[i]);
        assert(v.subrange(i, i + 2)[1] == v[i + 1]);
    } else {
        assert(esc_char(s.first()) =~= seq![s.first()]);
    }
}

/// Reads a string body up to its closing quote, undoing the escapes.
/// Complete for every escaped body the serializer can produce.
fn parse_string_chars(v: &Vec<char>, i: usize) -> (r: Option<(Vec<char>, usize)>)
    ensures
        r matches Some(p) ==> i < p.1 <= v@.len(),
        forall|s: Seq<char>|
            #![trigger esc(s)]
            str_match(v@, i as int, s) ==> (r matches Some(p) && p.0@ == s && p.1 == i + esc(
                s,
            ).len() + 1),
    decreases v@.len() - i,
{
    let len = v.len();
    if i >= len {
        proof {
            assert forall|s: Seq<char>| !str_match(v@, i as int, s) by {
                if str_match(v@, i as int, s) {
                    assert(i + esc(s).len() + 1 <= v@.len());
                }
            }
        }
        return None;
    }
    let c = v[i];
    if c == '"' {
        proof {
            assert forall|s: Seq<char>|
                str_match(v@, i as int, s) implies s.len() == 0 && i + esc(s).len() + 1 == i
                + 1 by {
                if s.len() > 0 {
                    assert(v@.subrange(i as int, i + esc(s).len() + 1)[0] == v@[i as int]);
                    assert(esc(s) == esc_char(s.first()) + esc(s.drop_first()));
                    assert(v@[i as int] == esc_char(s.first())[0]);
                    assert(esc_char(s.first())[0] != '"');
                    assert(false);
                }
            }
        }
        let out: Vec<char> = Vec::new();
        return Some((out, i + 1));
    }
    if c == '\\' {
        if i + 1 >= len {
            proof {
                assert forall|s: Seq<char>| !str_match(v@, i as int, s) by {
                    if str_match(v@, i as int, s) {
                        lemma_str_match_step(v@, i as int, s);
                    }
                }
            }
            return None;
        }
        let c2 = v[i + 1];
        if c2 == '"' || c2 == '\\' {
            let rest = parse_string_chars(v, i + 2);
            match rest {
                Some(p) => {
                    let (chars, j) = p;
                    let mut out = chars;
                    out.insert(0, c2);
                    proof {
                        assert forall|s: Seq<char>|
                            str_match(v@, i as int, s) implies out@ == s && j == i + esc(
                            s,
                        ).len() + 1 by {
                            lemma_str_match_step(v@, i as int, s);
                            assert(s.first() == c2);
                            assert(str_match(v@, i + 2, s.drop_first()));
                            assert(out@ =~= seq![c2] + s.drop_first());
                            assert(seq![c2] + s.drop_first() =~= s);
                        }
                    }
                    return Some((out, j));
                },
                None => {
                    proof {
                        assert forall|s: Seq<char>| !str_match(v@, i as int, s) by {
                            if str_match(v@, i as int, s) {
                                lemma_str_match_step(v@, i as int, s);
                                assert(str_match(v@, i + 2, s.drop_first()));
                                assert(rest matches Some(_));
                            }
                        }
                    }
                    return None;
                },
            }
        } else {
            proof {
                assert forall|s: Seq<char>| !str_match(v@, i as int, s) by {
                    if str_match(v@, i as int, s) {
                        lemma_str_match_step(v@, i as int, s);
                        assert(v@[i + 1] == s.first());
                    }
                }
            }
            return None;
        }
    }
    let rest = parse_string_chars(v, i + 1);
    match rest {
        Some(p) => {
            let (chars, j) = p;
            let mut out = chars;
            out.insert(0, c);
            proof {
                assert forall|s: Seq<char>|
                    str_match(v@, i as int, s) implies out@ == s && j == i + esc(s).len()
                    + 1 by {
                    lemma_str_match_step(v@, i as int, s);
                    assert(s.first() == c);
                    assert(str_match(v@, i + 1, s.drop_first()));
                    assert(out@ =~= seq![c] + s.drop_first());
                    assert(seq![c] + s.drop_first() =~= s);
                }
            }
            Some((out, j))
        },
        None => {
            proof {
                assert forall|s: Seq<char>| !str_match(v@, i as int, s) by {
                    if str_match(v@, i as int, s) {
                        lemma_str_match_step(v@, i as int, s);
                        assert(str_match(v@, i + 1, s.drop_first()));
                        assert(rest matches Some(_));
                    }
                }
            }
            None
        },
    }
}

/// Expects the exact literal fragment at `i`.
fn parse_lit_at(v: &Vec<char>, i: usize, lit: &Vec<char>) -> (r: Option<usize>)
    ensures
        r matches Some(j) ==> j == i + lit@.len() && j <= v@.len(),
        (i + lit@.len() <= v@.len() && v@.subrange(i as int, i + lit@.len()) == lit@) ==> r
            == Some((i + lit@.len()) as usize),
{
    if lit.len() > v.len() || i > v.len() - lit.len() {
        proof {
            assert(i + lit@.len() > v@.len());
        }
        return None;
    }
    let ok = crate::text::occurs_at_exec(v, lit, i);
    if ok {
        proof {
            assert(v@.subrange(i as int, i + lit@.len()) =~= lit@);
        }
        Some(i + lit.len())
    } else {
        proof {
            if v@.subrange(i as int, i + lit@.len()) == lit@ {
                assert forall|k: int| 0 <= k < lit@.len() implies v@[i + k] == lit@[k] by {
                    assert(v@.subrange(i as int, i + lit@.len())[k] == lit@[k]);
                }
                assert(crate::text::occurs_at(v@, lit@, i as int));
            }
        }
        None
    }
}

/// The fragment `frag` stands in `v` at `i`.
pub open spec fn frag_match(v: Seq<char>, i: int, frag: Seq<char>) -> bool {
    &&& 0 <= i
    &&& i + frag.len() <= v.len()
    &&& v.subrange(i, i + frag.len()) == frag
}

/// The decimal digits of `n` stand in `v` at `i`, not followed by a digit.
pub open spec fn num_match(v: Seq<char>, i: int, n: nat) -> bool {
    &&& 0 <= i
    &&& i + dec_rep(n).len() <= v.len()
    &&& v.subrange(i, i + dec_rep(n).len()) == dec_rep(n)
    &&& (i + dec_rep(n).len() < v.len() ==> !is_digit(v[i + dec_rep(n).len()]))
}

/// The literal after a path string, up into the name string.
pub open spec fn lit_name_rest() -> Seq<char> {
    seq![',', '"', 'n', 'a', 'm', 'e', '"', ':', '"']
}

/// The literal after a name string, up to the size number.
pub open spec fn lit_size_rest() -> Seq<char> {
    seq![',', '"', 's', 'i', 'z', 'e', '"', ':']
}

/// The literal between the file list and the subfolder list, after the
/// bracket that closes the files.
pub open spec fn lit_subs_rest() -> Seq<char> {
    seq![',', '"', 's', 'u', 'b', 'f', 'o', 'l', 'd', 'e', 'r', 's', '"', ':', '[']
}

/// The literal after a path string, as characters.
fn lit_name_rest_vec() -> (v: Vec<char>)
    ensures
        v@ == lit_name_rest(),
{
    let v = chars_of(",\"name\":\"");
    proof {
        reveal_strlit(",\"name\":\"");
        assert(v@ =~= lit_name_rest());
    }
    v
}

/// The literal after a name string, as characters.
fn lit_size_rest_vec() -> (v: Vec<char>)
    ensures
        v@ == lit_size_rest(),
{
    let v = chars_of(",\"size\":");
    proof {
        reveal_strlit(",\"size\":");
        assert(v@ =~= lit_size_rest());
    }
    v
}

/// The literal before the subfolder list, as characters.
fn lit_subs_rest_vec() -> (v: Vec<char>)
    ensures
        v@ == lit_subs_rest(),
{
    let v = chars_of(",\"subfolders\":[");
    proof {
        reveal_strlit(",\"subfolders\":[");
        assert(v@ =~= lit_subs_rest());
    }
    v
}

/// A matched file object decomposes into its successive fragments.
#[verifier::rlimit(80)]
proof fn lemma_file_frag(v: Seq<char>, i: int, f: FileNode)
    requires
        frag_match(v, i, ser_file(f)),
    ensures
        ({
            let p0 = i + 9;
            let p1 = p0 + esc(f.path@).len() + 1;
            let p2 = p1 + 9;
            let p3 = p2 + esc(f.name@).len() + 1;
            let p4 = p3 + 8;
            let p5 = p4 + dec_rep(f.size as nat).len();
            &&& frag_match(v, i, lit_obj_open())
            &&& str_match(v, p0, f.path@)
            &&& frag_match(v, p1, lit_name_rest())
            &&& str_match(v, p2, f.name@)
            &&& frag_match(v, p3, lit_size_rest())
            &&& num_match(v, p4, f.size as nat)
            &&& frag_match(v, p5, seq!['}'])
            &&& i + ser_file(f).len() == p5 + 1
        }),
{
    let a1 = lit_obj_open();
    let a2 = esc(f.path@) + seq!['"'];
    let a3 = lit_name_rest();
    let a4 = esc(f.name@) + seq!['"'];
    let a5 = lit_size_rest();
    let a6 = dec_rep(f.size as nat);
    let a7 = seq!['}'];
    let j = i + ser_file(f).len();
    assert(ser_file(f) =~= a1 + (a2 + (a3 + (a4 + (a5 + (a6 + a7))))));
    lemma_subrange_split(v, i, j, a1, a2 + (a3 + (a4 + (a5 + (a6 + a7)))));
    let p0 = i + 9;
    lemma_subrange_split(v, p0, j, a2, a3 + (a4 + (a5 + (a6 + a7))));
    let p1 = p0 + esc(f.path@).len() + 1;
    lemma_subrange_split(v, p1, j, a3, a4 + (a5 + (a6 + a7)));
    let p2 = p1 + 9;
    lemma_subrange_split(v, p2, j, a4, a5 + (a6 + a7));
    let p3 = p2 + esc(f.name@).len() + 1;
    lemma_subrange_split(v, p3, j, a5, a6 + a7);
    let p4 = p3 + 8;
    lemma_subrange_split(v, p4, j, a6, a7);
    let p5 = p4 + dec_rep(f.size as nat).len();
    assert(v.subrange(p0, p0 + a2.len()) == a2);
    assert(str_match(v, p0, f.path@));
    assert(v.subrange(p2, p2 + a4.len()) == a4);
    assert(str_match(v, p2, f.name@));
    assert(v.subrange(p5, j)[0] == v[p5]);
    assert(v[p5] == '}');
    assert(num_match(v, p4, f.size as nat));
}

/// The first character of a serialized file object.
proof fn lemma_ser_file_first(f: FileNode)
    ensures
        ser_file(f).len() >= 20,
        ser_file(f)[0] == '{',
{
    lemma_dec_rep_digits(f.size as nat);
    assert(ser_file(f)[0] == lit_obj_open()[0]);
}

/// The first character of a serialized folder object.
proof fn lemma_ser_tree_first(t: FolderNode)
    ensures
        ser_tree(t).len() >= 20,
        ser_tree(t)[0] == '{',
{
    lemma_dec_rep_digits(t.size as nat);
    assert(ser_tree(t)[0] == lit_obj_open()[0]);
}

/// Parses one file object. Complete for every serialized file.
fn parse_file_at(v: &Vec<char>, i: usize) -> (r: Option<(FileNode, usize)>)
    ensures
        r matches Some(p) ==> i < p.1 <= v@.len(),
        forall|f: FileNode|
            #![trigger ser_file(f)]
            frag_match(v@, i as int, ser_file(f)) ==> (r matches Some(p) && p.0.path@ == f.path@
                && p.0.name@ == f.name@ && p.0.size == f.size && p.1 == i + ser_file(f).len()),
{
    let lit1 = lit_obj_open_vec();
    let s1 = parse_lit_at(v, i, &lit1);
    let j1 = match s1 {
        Some(j) => j,
        None => {
            proof {
                assert forall|f: FileNode|
                    #![trigger ser_file(f)]
                    !frag_match(v@, i as int, ser_file(f)) by {
                    if frag_match(v@, i as int, ser_file(f)) {
                        lemma_file_frag(v@, i as int, f);
                    }
                }
            }
            return None;
        },
    };
    let s2 = parse_string_chars(v, j1);
    let (path_chars, j2) = match s2 {
        Some(p) => p,
        None => {
            proof {
                assert forall|f: FileNode|
                    #![trigger ser_file(f)]
                    !frag_match(v@, i as int, ser_file(f)) by {
                    if frag_match(v@, i as int, ser_file(f)) {
                        lemma_file_frag(v@, i as int, f);
                    }
                }
            }
            return None;
        },
    };
    let lit2 = lit_name_rest_vec();
    let s3 = parse_lit_at(v, j2, &lit2);
    let j3 = match s3 {
        Some(j) => j,
        None => {
            proof {
                assert forall|f: FileNode|
                    #![trigger ser_file(f)]
                    !frag_match(v@, i as int, ser_file(f)) by {
                    if frag_match(v@, i as int, ser_file(f)) {
                        lemma_file_frag(v@, i as int, f);
                    }
                }
            }
            return None;
        },
    };
    let s4 = parse_string_chars(v, j3);
    let (name_chars, j4) = match s4 {
        Some(p) => p,
        None => {
            proof {
                assert forall|f: FileNode|
                    #![trigger ser_file(f)]
                    !frag_match(v@, i as int, ser_file(f)) by {
                    if frag_match(v@, i as int, ser_file(f)) {
                        lemma_file_frag(v@, i as int, f);
                    }
                }
            }
            return None;
        },
    };
    let lit3 = lit_size_rest_vec();
    let s5 = parse_lit_at(v, j4, &lit3);
    let j5 = match s5 {
        Some(j) => j,
        None => {
            proof {
                assert forall|f: FileNode|
                    #![trigger ser_file(f)]
                    !frag_match(v@, i as int, ser_file(f)) by {
                    if frag_match(v@, i as int, ser_file(f)) {
                        lemma_file_frag(v@, i as int, f);
                    }
                }
            }
            return None;
        },
    };
    let s6 = parse_u64_at(v, j5);
    let (size, j6) = match s6 {
        Some(p) => p,
        None => {
            proof {
                assert forall|f: FileNode|
                    #![trigger ser_file(f)]
                    !frag_match(v@, i as int, ser_file(f)) by {
                    if frag_match(v@, i as int, ser_file(f)) {
                        lemma_file_frag(v@, i as int, f);
                    }
                }
            }
            return None;
        },
    };
    if j6 >= v.len() {
        proof {
            assert forall|f: FileNode|
                #![trigger ser_file(f)]
                !frag_match(v@, i as int, ser_file(f)) by {
                if frag_match(v@, i as int, ser_file(f)) {
                    lemma_file_frag(v@, i as int, f);
                }
            }
        }
        return None;
    }
    if v[j6] != '}' {
        proof {
            assert forall|f: FileNode|
                #![trigger ser_file(f)]
                !frag_match(v@, i as int, ser_file(f)) by {
                if frag_match(v@, i as int, ser_file(f)) {
                    lemma_file_frag(v@, i as int, f);
                    assert(v@.subrange(j6 as int, j6 + 1)[0] == v@[j6 as int]);
                }
            }
        }
        return None;
    }
    let path = string_from_chars(&path_chars);
    let name = string_from_chars(&name_chars);
    let node = FileNode { path, name, size };
    proof {
        assert forall|f: FileNode|
            #![trigger ser_file(f)]
            frag_match(v@, i as int, ser_file(f)) implies (node.path@ == f.path@ && node.name@
            == f.name@ && node.size == f.size && j6 + 1 == i + ser_file(f).len()) by {
            lemma_file_frag(v@, i as int, f);
        }
    }
    Some((node, j6 + 1))
}

/// Parses a file list together with the bracket that closes it.
/// Complete for every serialized file list.
fn parse_files_at(v: &Vec<char>, i: usize) -> (r: Option<(Vec<FileNode>, usize)>)
    ensures
        r matches Some(p) ==> i < p.1 <= v@.len(),
        forall|fs: Seq<FileNode>|
            #![trigger ser_files(fs)]
            frag_match(v@, i as int, ser_files(fs) + seq![']']) ==> (r matches Some(p)
                && file_nodes_equal(p.0@, fs) && p.1 == i + ser_files(fs).len() + 1),
    decreases v@.len() - i, 1int,
{
    let len = v.len();
    if i < len && v[i] == ']' {
        let out: Vec<FileNode> = Vec::new();
        proof {
            assert forall|fs: Seq<FileNode>|
                #![trigger ser_files(fs)]
                frag_match(v@, i as int, ser_files(fs) + seq![']']) implies (file_nodes_equal(
                out@,
                fs,
            ) && i + 1 == i + ser_files(fs).len() + 1) by {
                if fs.len() > 0 {
                    lemma_ser_file_first(fs.first());
                    assert(v@.subrange(i as int, i + ser_files(fs).len() + 1)[0] == v@[i as int]);
                    assert((ser_files(fs) + seq![']'])[0] == ser_file(fs.first())[0]);
                    assert(false);
                }
                assert(ser_files(fs).len() == 0);
            }
        }
        return Some((out, i + 1));
    }
    let first = parse_file_at(v, i);
    match first {
        Some(p) => {
            let (f1, j1) = p;
            let rest = parse_files_tail_at(v, j1);
            match rest {
                Some(q) => {
                    let (tail, j2) = q;
                    let mut out = tail;
                    out.insert(0, f1);
                    proof {
                        assert forall|fs: Seq<FileNode>|
                            #![trigger ser_files(fs)]
                            frag_match(v@, i as int, ser_files(fs) + seq![']']) implies (
                        file_nodes_equal(out@, fs) && j2 == i + ser_files(fs).len() + 1) by {
                            lemma_files_at_decompose(v@, i as int, fs, i < len && v@[i as int] == ']');
                            let h = fs.first();
                            assert(frag_match(v@, i as int, ser_file(h)));
                            assert(j1 == i + ser_file(h).len());
                            assert(frag_match(
                                v@,
                                j1 as int,
                                ser_files_tail(fs.drop_first()) + seq![']'],
                            ));
                            assert(file_nodes_equal(tail@, fs.drop_first()));
                            assert(out@ =~= seq![f1] + tail@);
                            assert forall|k: int| 0 <= k < out@.len() implies (#[trigger] out@[k]).path@
                                == fs[k].path@ && out@[k].name@ == fs[k].name@ && out@[k].size
                                == fs[k].size by {
                                if k > 0 {
                                    assert(out@[k] == tail@[k - 1]);
                                    assert(fs.drop_first()[k - 1] == fs[k]);
                                }
                            }
                        }
                    }
                    Some((out, j2))
                },
                None => {
                    proof {
                        assert forall|fs: Seq<FileNode>|
                            #![trigger ser_files(fs)]
                            !frag_match(v@, i as int, ser_files(fs) + seq![']']) by {
                            if frag_match(v@, i as int, ser_files(fs) + seq![']']) {
                                lemma_files_at_decompose(v@, i as int, fs, i < len && v@[i as int] == ']');
                                assert(j1 == i + ser_file(fs.first()).len());
                                assert(frag_match(
                                    v@,
                                    j1 as int,
                                    ser_files_tail(fs.drop_first()) + seq![']'],
                                ));
                                assert(rest matches Some(_));
                            }
                        }
                    }
                    None
                },
            }
        },
        None => {
            proof {
                assert forall|fs: Seq<FileNode>|
                    #![trigger ser_files(fs)]
                    !frag_match(v@, i as int, ser_files(fs) + seq![']']) by {
                    if frag_match(v@, i as int, ser_files(fs) + seq![']']) {
                        lemma_files_at_decompose(v@, i as int, fs, i < len && v@[i as int] == ']');
                        assert(frag_match(v@, i as int, ser_file(fs.first())));
                        assert(first matches Some(_));
                    }
                }
            }
            None
        },
    }
}

/// A nonempty matched file list decomposes into its head and its tail.
proof fn lemma_files_at_decompose(v: Seq<char>, i: int, fs: Seq<FileNode>, saw_bracket: bool)
    requires
        frag_match(v, i, ser_files(fs) + seq![']']),
        !saw_bracket,
        (i < v.len() && v[i] == ']') ==> saw_bracket,
    ensures
        fs.len() > 0,
        frag_match(v, i, ser_file(fs.first())),
        frag_match(v, i + ser_file(fs.first()).len(), ser_files_tail(fs.drop_first()) + seq![']']),
        ser_files(fs).len() == ser_file(fs.first()).len() + ser_files_tail(fs.drop_first()).len(),
{
    if fs.len() == 0 {
        assert(ser_files(fs).len() == 0);
        assert(v.subrange(i, i + 1)[0] == v[i]);
        assert((ser_files(fs) + seq![']'])[0] == ']');
        assert(v[i] == ']');
        assert(false);
    }
    assert(ser_files(fs) + seq![']'] =~= ser_file(fs.first()) + (ser_files_tail(fs.drop_first())
        + seq![']']));
    lemma_subrange_split(
        v,
        i,
        i + ser_files(fs).len() + 1,
        ser_file(fs.first()),
        ser_files_tail(fs.drop_first()) + seq![']'],
    );
}

/// Parses the continuation of a file list: comma-led entries up to and
/// including the closing bracket.
fn parse_files_tail_at(v: &Vec<char>, i: usize) -> (r: Option<(Vec<FileNode>, usize)>)
    ensures
        r matches Some(p) ==> i < p.1 <= v@.len(),
        forall|fs: Seq<FileNode>|
            #![trigger ser_files_tail(fs)]
            frag_match(v@, i as int, ser_files_tail(fs) + seq![']']) ==> (r matches Some(p)
                && file_nodes_equal(p.0@, fs) && p.1 == i + ser_files_tail(fs).len() + 1),
    decreases v@.len() - i, 2int,
{
    let len = v.len();
    if i >= len {
        proof {
            assert forall|fs: Seq<FileNode>|
                #![trigger ser_files_tail(fs)]
                !frag_match(v@, i as int, ser_files_tail(fs) + seq![']']) by {
            }
        }
        return None;
    }
    if v[i] == ']' {
        let out: Vec<FileNode> = Vec::new();
        proof {
            assert forall|fs: Seq<FileNode>|
                #![trigger ser_files_tail(fs)]
                frag_match(v@, i as int, ser_files_tail(fs) + seq![']']) implies (
            file_nodes_equal(out@, fs) && i + 1 == i + ser_files_tail(fs).len() + 1) by {
                if fs.len() > 0 {
                    assert(v@.subrange(i as int, i + ser_files_tail(fs).len() + 1)[0] == v@[i as int]);
                    assert((ser_files_tail(fs) + seq![']'])[0] == ',');
                    assert(false);
                }
                assert(ser_files_tail(fs).len() == 0);
            }
        }
        return Some((out, i + 1));
    }
    if v[i] != ',' {
        proof {
            assert forall|fs: Seq<FileNode>|
                #![trigger ser_files_tail(fs)]
                !frag_match(v@, i as int, ser_files_tail(fs) + seq![']']) by {
                if frag_match(v@, i as int, ser_files_tail(fs) + seq![']']) {
                    assert(v@.subrange(i as int, i + ser_files_tail(fs).len() + 1)[0] == v@[i as int]);
                    if fs.len() > 0 {
                        assert((ser_files_tail(fs) + seq![']'])[0] == ',');
                    } else {
                        assert((ser_files_tail(fs) + seq![']'])[0] == ']');
                    }
                }
            }
        }
        return None;
    }
    let first = parse_file_at(v, i + 1);
    match first {
        Some(p) => {
            let (f1, j1) = p;
            let rest = parse_files_tail_at(v, j1);
            match rest {
                Some(q) => {
                    let (tail, j2) = q;
                    let mut out = tail;
                    out.insert(0, f1);
                    proof {
                        assert forall|fs: Seq<FileNode>|
                            #![trigger ser_files_tail(fs)]
                            frag_match(v@, i as int, ser_files_tail(fs) + seq![']']) implies (
                        file_nodes_equal(out@, fs) && j2 == i + ser_files_tail(fs).len() + 1) by {
                            lemma_files_tail_decompose(v@, i as int, fs);
                            assert(frag_match(v@, i + 1, ser_file(fs.first())));
                            assert(j1 == i + 1 + ser_file(fs.first()).len());
                            assert(frag_match(
                                v@,
                                j1 as int,
                                ser_files_tail(fs.drop_first()) + seq![']'],
                            ));
                            assert(file_nodes_equal(tail@, fs.drop_first()));
                            assert(out@ =~= seq![f1] + tail@);
                            assert forall|k: int| 0 <= k < out@.len() implies (#[trigger] out@[k]).path@
                                == fs[k].path@ && out@[k].name@ == fs[k].name@ && out@[k].size
                                == fs[k].size by {
                                if k > 0 {
                                    assert(out@[k] == tail@[k - 1]);
                                    assert(fs.drop_first()[k - 1] == fs[k]);
                                }
                            }
                        }
                    }
                    Some((out, j2))
                },
                None => {
                    proof {
                        assert forall|fs: Seq<FileNode>|
                            #![trigger ser_files_tail(fs)]
                            !frag_match(v@, i as int, ser_files_tail(fs) + seq![']']) by {
                            if frag_match(v@, i as int, ser_files_tail(fs) + seq![']']) {
                                lemma_files_tail_decompose(v@, i as int, fs);
                                assert(j1 == i + 1 + ser_file(fs.first()).len());
                                assert(frag_match(
                                    v@,
                                    j1 as int,
                                    ser_files_tail(fs.drop_first()) + seq![']'],
                                ));
                                assert(rest matches Some(_));
                            }
                        }
                    }
                    None
                },
            }
        },
        None => {
            proof {
                assert forall|fs: Seq<FileNode>|
                    #![trigger ser_files_tail(fs)]
                    !frag_match(v@, i as int, ser_files_tail(fs) + seq![']']) by {
                    if frag_match(v@, i as int, ser_files_tail(fs) + seq![']']) {
                        lemma_files_tail_decompose(v@, i as int, fs);
                        assert(frag_match(v@, i + 1, ser_file(fs.first())));
                        assert(first matches Some(_));
                    }
                }
            }
            None
        },
    }
}

/// A matched continuation beginning with a comma decomposes into its first
/// entry and the remaining continuation.
proof fn lemma_files_tail_decompose(v: Seq<char>, i: int, fs: Seq<FileNode>)
    requires
        frag_match(v, i, ser_files_tail(fs) + seq![']']),
        i < v.len(),
        v[i] == ',',
    ensures
        fs.len() > 0,
        frag_match(v, i + 1, ser_file(fs.first())),
        frag_match(
            v,
            i + 1 + ser_file(fs.first()).len(),
            ser_files_tail(fs.drop_first()) + seq![']'],
        ),
        ser_files_tail(fs).len() == 1 + ser_file(fs.first()).len() + ser_files_tail(
            fs.drop_first(),
        ).len(),
{
    if fs.len() == 0 {
        assert(v.subrange(i, i + 1)[0] == v[i]);
        assert((ser_files_tail(fs) + seq![']'])[0] == ']');
        assert(false);
    }
    assert(ser_files_tail(fs) + seq![']'] =~= seq![','] + (ser_file(fs.first()) + (ser_files_tail(
        fs.drop_first(),
    ) + seq![']'])));
    lemma_subrange_split(
        v,
        i,
        i + ser_files_tail(fs).len() + 1,
        seq![','],
        ser_file(fs.first()) + (ser_files_tail(fs.drop_first()) + seq![']']),
    );
    lemma_subrange_split(
        v,
        i + 1,
        i + ser_files_tail(fs).len() + 1,
        ser_file(fs.first()),
        ser_files_tail(fs.drop_first()) + seq![']'],
    );
}

/// Equal head entries and equal tails make structurally equal lists.
proof fn lemma_folder_lists_equal_cons(
    x: FolderNode,
    xs: Seq<FolderNode>,
    y: FolderNode,
    ys: Seq<FolderNode>,
)
    requires
        tree_equal(x, y),
        folder_lists_equal(xs, ys),
    ensures
        folder_lists_equal(seq![x] + xs, seq![y] + ys),
    decreases xs.len(),
{
    if xs.len() == 0 {
        assert(ys.len() == 0);
        assert((seq![x] + xs).last() == x);
        assert((seq![y] + ys).last() == y);
        assert((seq![x] + xs).drop_last() =~= Seq::<FolderNode>::empty());
        assert((seq![y] + ys).drop_last() =~= Seq::<FolderNode>::empty());
        assert(folder_lists_equal(
            Seq::<FolderNode>::empty(),
            Seq::<FolderNode>::empty(),
        ));
    } else {
        assert(ys.len() == xs.len());
        assert((seq![x] + xs).last() == xs.last());
        assert((seq![y] + ys).last() == ys.last());
        assert((seq![x] + xs).drop_last() =~= seq![x] + xs.drop_last());
        assert((seq![y] + ys).drop_last() =~= seq![y] + ys.drop_last());
        lemma_folder_lists_equal_cons(x, xs.drop_last(), y, ys.drop_last());
    }
}

/// The length of the opening part of a folder object, up to the end of
/// its size number.
pub open spec fn tree_header_len(t: FolderNode) -> int {
    9 + esc(t.path@).len() as int + 1 + 9 + esc(t.name@).len() as int + 1 + 8 + dec_rep(
        t.size as nat,
    ).len() as int
}

/// The part of a folder object after its size number.
pub open spec fn tree_tail_frag(t: FolderNode) -> Seq<char> {
    lit_files() + ((ser_files(t.files@) + seq![']']) + (lit_subs_rest() + ((ser_subs(
        t.subfolders@,
    ) + seq![']']) + seq!['}'])))
}

/// A matched folder object decomposes into its header fragments and the
/// remaining tail.
#[verifier::rlimit(100)]
proof fn lemma_tree_frag_head(v: Seq<char>, i: int, t: FolderNode)
    requires
        frag_match(v, i, ser_tree(t)),
    ensures
        ({
            let p0 = i + 9;
            let p1 = p0 + esc(t.path@).len() + 1;
            let p2 = p1 + 9;
            let p3 = p2 + esc(t.name@).len() + 1;
            let p4 = p3 + 8;
            let p5 = i + tree_header_len(t);
            &&& frag_match(v, i, lit_obj_open())
            &&& str_match(v, p0, t.path@)
            &&& frag_match(v, p1, lit_name_rest())
            &&& str_match(v, p2, t.name@)
            &&& frag_match(v, p3, lit_size_rest())
            &&& num_match(v, p4, t.size as nat)
            &&& frag_match(v, p5, tree_tail_frag(t))
            &&& i + ser_tree(t).len() == p5 + tree_tail_frag(t).len()
        }),
{
    let a1 = lit_obj_open();
    let a2 = esc(t.path@) + seq!['"'];
    let a3 = lit_name_rest();
    let a4 = esc(t.name@) + seq!['"'];
    let a5 = lit_size_rest();
    let a6 = dec_rep(t.size as nat);
    let tail = tree_tail_frag(t);
    let j = i + ser_tree(t).len();
    assert(ser_tree(t) =~= a1 + (a2 + (a3 + (a4 + (a5 + (a6 + tail))))));
    lemma_subrange_split(v, i, j, a1, a2 + (a3 + (a4 + (a5 + (a6 + tail)))));
    let p0 = i + 9;
    lemma_subrange_split(v, p0, j, a2, a3 + (a4 + (a5 + (a6 + tail))));
    let p1 = p0 + esc(t.path@).len() + 1;
    lemma_subrange_split(v, p1, j, a3, a4 + (a5 + (a6 + tail)));
    let p2 = p1 + 9;
    lemma_subrange_split(v, p2, j, a4, a5 + (a6 + tail));
    let p3 = p2 + esc(t.name@).len() + 1;
    lemma_subrange_split(v, p3, j, a5, a6 + tail);
    let p4 = p3 + 8;
    lemma_subrange_split(v, p4, j, a6, tail);
    let p5 = p4 + dec_rep(t.size as nat).len();
    assert(v.subrange(p0, p0 + a2.len()) == a2);
    assert(str_match(v, p0, t.path@));
    assert(v.subrange(p2, p2 + a4.len()) == a4);
    assert(str_match(v, p2, t.name@));
    assert(v.subrange(p5, j)[0] == v[p5]);
    assert(tail[0] == lit_files()[0]);
    assert(lit_files()[0] == ',');
    assert(v[p5] == ',');
    assert(num_match(v, p4, t.size as nat));
}

/// The tail of a folder object decomposes into its list fragments.
#[verifier::rlimit(100)]
proof fn lemma_tree_frag_tail(v: Seq<char>, p5: int, t: FolderNode)
    requires
        frag_match(v, p5, tree_tail_frag(t)),
    ensures
        ({
            let p6 = p5 + 10;
            let p7 = p6 + ser_files(t.files@).len() + 1;
            let p8 = p7 + 15;
            let p9 = p8 + ser_subs(t.subfolders@).len() + 1;
            &&& frag_match(v, p5, lit_files())
            &&& frag_match(v, p6, ser_files(t.files@) + seq![']'])
            &&& frag_match(v, p7, lit_subs_rest())
            &&& frag_match(v, p8, ser_subs(t.subfolders@) + seq![']'])
            &&& frag_match(v, p9, seq!['}'])
            &&& p5 + tree_tail_frag(t).len() == p9 + 1
        }),
{
    let a7 = lit_files();
    let a8 = ser_files(t.files@) + seq![']'];
    let a9 = lit_subs_rest();
    let a10 = ser_subs(t.subfolders@) + seq![']'];
    let a11 = seq!['}'];
    let j = p5 + tree_tail_frag(t).len();
    lemma_subrange_split(v, p5, j, a7, a8 + (a9 + (a10 + a11)));
    let p6 = p5 + 10;
    lemma_subrange_split(v, p6, j, a8, a9 + (a10 + a11));
    let p7 = p6 + ser_files(t.files@).len() + 1;
    lemma_subrange_split(v, p7, j, a9, a10 + a11);
    let p8 = p7 + 15;
    lemma_subrange_split(v, p8, j, a10, a11);
    let p9 = p8 + ser_subs(t.subfolders@).len() + 1;
    assert(v.subrange(p9, j)[0] == v[p9]);
    assert(v[p9] == '}');
}

/// The positions of a matched folder object's list fragments.
proof fn lemma_tree_positions(v: Seq<char>, i: int, t: FolderNode)
    requires
        frag_match(v, i, ser_tree(t)),
    ensures
        ({
            let p5 = i + tree_header_len(t);
            let p6 = p5 + 10;
            let p7 = p6 + ser_files(t.files@).len() + 1;
            let p8 = p7 + 15;
            let p9 = p8 + ser_subs(t.subfolders@).len() + 1;
            &&& frag_match(v, p5, lit_files())
            &&& frag_match(v, p6, ser_files(t.files@) + seq![']'])
            &&& frag_match(v, p7, lit_subs_rest())
            &&& frag_match(v, p8, ser_subs(t.subfolders@) + seq![']'])
            &&& frag_match(v, p9, seq!['}'])
            &&& i + ser_tree(t).len() == p9 + 1
        }),
{
    lemma_tree_frag_head(v, i, t);
    lemma_tree_frag_tail(v, i + tree_header_len(t), t);
}

/// Parses the opening of a folder object: path, name and size.
#[verifier::rlimit(100)]
fn parse_tree_header(v: &Vec<char>, i: usize) -> (r: Option<(String, String, u64, usize)>)
    ensures
        r matches Some(p) ==> i < p.3 <= v@.len(),
        forall|t: FolderNode|
            #![trigger ser_tree(t)]
            frag_match(v@, i as int, ser_tree(t)) ==> (r matches Some(p) && p.0@ == t.path@
                && p.1@ == t.name@ && p.2 == t.size && p.3 == i + tree_header_len(t)),
{
    let vlen = v.len();
    let lit1 = lit_obj_open_vec();
    let s1 = parse_lit_at(v, i, &lit1);
    let j1 = match s1 {
        Some(j) => j,
        None => {
            proof {
                assert forall|t: FolderNode|
                    #![trigger ser_tree(t)]
                    !frag_match(v@, i as int, ser_tree(t)) by {
                    if frag_match(v@, i as int, ser_tree(t)) {
                        lemma_tree_frag_head(v@, i as int, t);
                    }
                }
            }
            return None;
        },
    };
    let s2 = parse_string_chars(v, j1);
    let (path_chars, j2) = match s2 {
        Some(p) => p,
        None => {
            proof {
                assert forall|t: FolderNode|
                    #![trigger ser_tree(t)]
                    !frag_match(v@, i as int, ser_tree(t)) by {
                    if frag_match(v@, i as int, ser_tree(t)) {
                        lemma_tree_frag_head(v@, i as int, t);
                    }
                }
            }
            return None;
        },
    };
    let lit2 = lit_name_rest_vec();
    let s3 = parse_lit_at(v, j2, &lit2);
    let j3 = match s3 {
        Some(j) => j,
        None => {
            proof {
                assert forall|t: FolderNode|
                    #![trigger ser_tree(t)]
                    !frag_match(v@, i as int, ser_tree(t)) by {
                    if frag_match(v@, i as int, ser_tree(t)) {
                        lemma_tree_frag_head(v@, i as int, t);
                    }
                }
            }
            return None;
        },
    };
    let s4 = parse_string_chars(v, j3);
    let (name_chars, j4) = match s4 {
        Some(p) => p,
        None => {
            proof {
                assert forall|t: FolderNode|
                    #![trigger ser_tree(t)]
                    !frag_match(v@, i as int, ser_tree(t)) by {
                    if frag_match(v@, i as int, ser_tree(t)) {
                        lemma_tree_frag_head(v@, i as int, t);
                    }
                }
            }
            return None;
        },
    };
    let lit3 = lit_size_rest_vec();
    let s5 = parse_lit_at(v, j4, &lit3);
    let j5 = match s5 {
        Some(j) => j,
        None => {
            proof {
                assert forall|t: FolderNode|
                    #![trigger ser_tree(t)]
                    !frag_match(v@, i as int, ser_tree(t)) by {
                    if frag_match(v@, i as int, ser_tree(t)) {
                        lemma_tree_frag_head(v@, i as int, t);
                    }
                }
            }
            return None;
        },
    };
    let s6 = parse_u64_at(v, j5);
    let (size, j6) = match s6 {
        Some(p) => p,
        None => {
            proof {
                assert forall|t: FolderNode|
                    #![trigger ser_tree(t)]
                    !frag_match(v@, i as int, ser_tree(t)) by {
                    if frag_match(v@, i as int, ser_tree(t)) {
                        lemma_tree_frag_head(v@, i as int, t);
                    }
                }
            }
            return None;
        },
    };
    let path = string_from_chars(&path_chars);
    let name = string_from_chars(&name_chars);
    proof {
        assert forall|t: FolderNode|
            #![trigger ser_tree(t)]
            frag_match(v@, i as int, ser_tree(t)) implies (path@ == t.path@ && name@ == t.name@
            && size == t.size && j6 == i + tree_header_len(t)) by {
            lemma_tree_frag_head(v@, i as int, t);
            assert(j1 == i + 9);
            assert(j2 == j1 + esc(t.path@).len() + 1);
            assert(j3 == j2 + 9);
            assert(j4 == j3 + esc(t.name@).len() + 1);
            assert(j5 == j4 + 8);
            assert(j6 == j5 + dec_rep(t.size as nat).len());
        }
    }
    Some((path, name, size, j6))
}

/// Parses one folder object, recursively. Complete for every serialized
/// tree: together with `serialize_tree`, writing a tree out and reading it
/// back always succeeds and yields a structurally equal tree — the same
/// paths, names and sizes at every node.
#[verifier::rlimit(100)]
fn parse_tree_at(v: &Vec<char>, i: usize) -> (r: Option<(FolderNode, usize)>)
    ensures
        r matches Some(p) ==> i < p.1 <= v@.len(),
        forall|t: FolderNode|
            #![trigger ser_tree(t)]
            frag_match(v@, i as int, ser_tree(t)) ==> (r matches Some(p) && tree_equal(p.0, t)
                && p.1 == i + ser_tree(t).len()),
    decreases v@.len() - i, 0int,
{
    let vlen = v.len();
    let header = parse_tree_header(v, i);
    let (path, name, size, j6) = match header {
        Some(p) => p,
        None => {
            proof {
                assert forall|t: FolderNode|
                    #![trigger ser_tree(t)]
                    !frag_match(v@, i as int, ser_tree(t)) by {
                    if frag_match(v@, i as int, ser_tree(t)) {
                        assert(header matches Some(_));
                    }
                }
            }
            return None;
        },
    };
    let lit4 = lit_files_vec();
    let s7 = parse_lit_at(v, j6, &lit4);
    let j7 = match s7 {
        Some(j) => j,
        None => {
            proof {
                assert forall|t: FolderNode|
                    #![trigger ser_tree(t)]
                    !frag_match(v@, i as int, ser_tree(t)) by {
                    if frag_match(v@, i as int, ser_tree(t)) {
                        lemma_tree_positions(v@, i as int, t);
                        assert(j6 == i + tree_header_len(t));
                        assert(s7 matches Some(_));
                    }
                }
            }
            return None;
        },
    };
    let s8 = parse_files_at(v, j7);
    let (files, j8) = match s8 {
        Some(p) => p,
        None => {
            proof {
                assert forall|t: FolderNode|
                    #![trigger ser_tree(t)]
                    !frag_match(v@, i as int, ser_tree(t)) by {
                    if frag_match(v@, i as int, ser_tree(t)) {
                        lemma_tree_positions(v@, i as int, t);
                        assert(s8 matches Some(_));
                    }
                }
            }
            return None;
        },
    };
    let lit5 = lit_subs_rest_vec();
    let s9 = parse_lit_at(v, j8, &lit5);
    let j9 = match s9 {
        Some(j) => j,
        None => {
            proof {
                assert forall|t: FolderNode|
                    #![trigger ser_tree(t)]
                    !frag_match(v@, i as int, ser_tree(t)) by {
                    if frag_match(v@, i as int, ser_tree(t)) {
                        lemma_tree_positions(v@, i as int, t);
                        assert(s9 matches Some(_));
                    }
                }
            }
            return None;
        },
    };
    let s10 = parse_subs_at(v, j9);
    let (subs, j10) = match s10 {
        Some(p) => p,
        None => {
            proof {
                assert forall|t: FolderNode|
                    #![trigger ser_tree(t)]
                    !frag_match(v@, i as int, ser_tree(t)) by {
                    if frag_match(v@, i as int, ser_tree(t)) {
                        lemma_tree_positions(v@, i as int, t);
                        assert(s10 matches Some(_));
                    }
                }
            }
            return None;
        },
    };
    if j10 >= vlen {
        proof {
            assert forall|t: FolderNode|
                #![trigger ser_tree(t)]
                !frag_match(v@, i as int, ser_tree(t)) by {
                if frag_match(v@, i as int, ser_tree(t)) {
                    lemma_tree_positions(v@, i as int, t);
                }
            }
        }
        return None;
    }
    if v[j10] != '}' {
        proof {
            assert forall|t: FolderNode|
                #![trigger ser_tree(t)]
                !frag_match(v@, i as int, ser_tree(t)) by {
                if frag_match(v@, i as int, ser_tree(t)) {
                    lemma_tree_positions(v@, i as int, t);
                    assert(v@.subrange(j10 as int, j10 + 1)[0] == v@[j10 as int]);
                }
            }
        }
        return None;
    }
    let node = FolderNode { path, name, size, files, subfolders: subs };
    proof {
        assert forall|t: FolderNode|
            #![trigger ser_tree(t)]
            frag_match(v@, i as int, ser_tree(t)) implies (tree_equal(node, t) && j10 + 1 == i
            + ser_tree(t).len()) by {
            lemma_tree_positions(v@, i as int, t);
            assert(file_nodes_equal(node.files@, t.files@));
            assert(folder_lists_equal(node.subfolders@, t.subfolders@));
        }
    }
    Some((node, j10 + 1))
}

/// Parses a folder list together with the bracket that closes it.
fn parse_subs_at(v: &Vec<char>, i: usize) -> (r: Option<(Vec<FolderNode>, usize)>)
    ensures
        r matches Some(p) ==> i < p.1 <= v@.len(),
        forall|subs: Seq<FolderNode>|
            #![trigger ser_subs(subs)]
            frag_match(v@, i as int, ser_subs(subs) + seq![']']) ==> (r matches Some(p)
                && folder_lists_equal(p.0@, subs) && p.1 == i + ser_subs(subs).len() + 1),
    decreases v@.len() - i, 1int,
{
    let len = v.len();
    if i < len && v[i] == ']' {
        let out: Vec<FolderNode> = Vec::new();
        proof {
            assert forall|subs: Seq<FolderNode>|
                #![trigger ser_subs(subs)]
                frag_match(v@, i as int, ser_subs(subs) + seq![']']) implies (folder_lists_equal(
                out@,
                subs,
            ) && i + 1 == i + ser_subs(subs).len() + 1) by {
                if subs.len() > 0 {
                    lemma_ser_tree_first(subs.first());
                    assert(v@.subrange(i as int, i + ser_subs(subs).len() + 1)[0] == v@[i as int]);
                    assert((ser_subs(subs) + seq![']'])[0] == ser_tree(subs.first())[0]);
                    assert(false);
                }
                assert(ser_subs(subs).len() == 0);
            }
        }
        return Some((out, i + 1));
    }
    let first = parse_tree_at(v, i);
    match first {
        Some(p) => {
            let (f1, j1) = p;
            let rest = parse_subs_tail_at(v, j1);
            match rest {
                Some(q) => {
                    let (tail, j2) = q;
                    let mut out = tail;
                    out.insert(0, f1);
                    proof {
                        assert forall|subs: Seq<FolderNode>|
                            #![trigger ser_subs(subs)]
                            frag_match(v@, i as int, ser_subs(subs) + seq![']']) implies (
                        folder_lists_equal(out@, subs) && j2 == i + ser_subs(subs).len() + 1) by {
                            lemma_subs_at_decompose(v@, i as int, subs, i < len && v@[i as int] == ']');
                            assert(frag_match(v@, i as int, ser_tree(subs.first())));
                            assert(j1 == i + ser_tree(subs.first()).len());
                            assert(frag_match(
                                v@,
                                j1 as int,
                                ser_subs_tail(subs.drop_first()) + seq![']'],
                            ));
                            assert(folder_lists_equal(tail@, subs.drop_first()));
                            assert(tree_equal(f1, subs.first()));
                            lemma_folder_lists_equal_cons(
                                f1,
                                tail@,
                                subs.first(),
                                subs.drop_first(),
                            );
                            assert(out@ =~= seq![f1] + tail@);
                            assert(seq![subs.first()] + subs.drop_first() =~= subs);
                        }
                    }
                    Some((out, j2))
                },
                None => {
                    proof {
                        assert forall|subs: Seq<FolderNode>|
                            #![trigger ser_subs(subs)]
                            !frag_match(v@, i as int, ser_subs(subs) + seq![']']) by {
                            if frag_match(v@, i as int, ser_subs(subs) + seq![']']) {
                                lemma_subs_at_decompose(v@, i as int, subs, i < len && v@[i as int] == ']');
                                assert(j1 == i + ser_tree(subs.first()).len());
                                assert(frag_match(
                                    v@,
                                    j1 as int,
                                    ser_subs_tail(subs.drop_first()) + seq![']'],
                                ));
                                assert(rest matches Some(_));
                            }
                        }
                    }
                    None
                },
            }
        },
        None => {
            proof {
                assert forall|subs: Seq<FolderNode>|
                    #![trigger ser_subs(subs)]
                    !frag_match(v@, i as int, ser_subs(subs) + seq![']']) by {
                    if frag_match(v@, i as int, ser_subs(subs) + seq![']']) {
                        lemma_subs_at_decompose(v@, i as int, subs, i < len && v@[i as int] == ']');
                        assert(frag_match(v@, i as int, ser_tree(subs.first())));
                        assert(first matches Some(_));
                    }
                }
            }
            None
        },
    }
}

/// A nonempty matched folder list decomposes into head and tail.
proof fn lemma_subs_at_decompose(v: Seq<char>, i: int, subs: Seq<FolderNode>, saw_bracket: bool)
    requires
        frag_match(v, i, ser_subs(subs) + seq![']']),
        !saw_bracket,
        (i < v.len() && v[i] == ']') ==> saw_bracket,
    ensures
        subs.len() > 0,
        frag_match(v, i, ser_tree(subs.first())),
        frag_match(
            v,
            i + ser_tree(subs.first()).len(),
            ser_subs_tail(subs.drop_first()) + seq![']'],
        ),
        ser_subs(subs).len() == ser_tree(subs.first()).len() + ser_subs_tail(
            subs.drop_first(),
        ).len(),
{
    if subs.len() == 0 {
        assert(ser_subs(subs).len() == 0);
        assert(v.subrange(i, i + 1)[0] == v[i]);
        assert((ser_subs(subs) + seq![']'])[0] == ']');
        assert(v[i] == ']');
        assert(false);
    }
    assert(ser_subs(subs) + seq![']'] =~= ser_tree(subs.first()) + (ser_subs_tail(
        subs.drop_first(),
    ) + seq![']']));
    lemma_subrange_split(
        v,
        i,
        i + ser_subs(subs).len() + 1,
        ser_tree(subs.first()),
        ser_subs_tail(subs.drop_first()) + seq![']'],
    );
}

/// Parses the continuation of a folder list, up to and including the
/// closing bracket.
fn parse_subs_tail_at(v: &Vec<char>, i: usize) -> (r: Option<(Vec<FolderNode>, usize)>)
    ensures
        r matches Some(p) ==> i < p.1 <= v@.len(),
        forall|subs: Seq<FolderNode>|
            #![trigger ser_subs_tail(subs)]
            frag_match(v@, i as int, ser_subs_tail(subs) + seq![']']) ==> (r matches Some(p)
                && folder_lists_equal(p.0@, subs) && p.1 == i + ser_subs_tail(subs).len() + 1),
    decreases v@.len() - i, 2int,
{
    let len = v.len();
    if i >= len {
        proof {
            assert forall|subs: Seq<FolderNode>|
                #![trigger ser_subs_tail(subs)]
                !frag_match(v@, i as int, ser_subs_tail(subs) + seq![']']) by {
            }
        }
        return None;
    }
    if v[i] == ']' {
        let out: Vec<FolderNode> = Vec::new();
        proof {
            assert forall|subs: Seq<FolderNode>|
                #![trigger ser_subs_tail(subs)]
                frag_match(v@, i as int, ser_subs_tail(subs) + seq![']']) implies (
            folder_lists_equal(out@, subs) && i + 1 == i + ser_subs_tail(subs).len() + 1) by {
                if subs.len() > 0 {
                    assert(v@.subrange(i as int, i + ser_subs_tail(subs).len() + 1)[0] == v@[i as int]);
                    assert((ser_subs_tail(subs) + seq![']'])[0] == ',');
                    assert(false);
                }
                assert(ser_subs_tail(subs).len() == 0);
            }
        }
        return Some((out, i + 1));
    }
    if v[i] != ',' {
        proof {
            assert forall|subs: Seq<FolderNode>|
                #![trigger ser_subs_tail(subs)]
                !frag_match(v@, i as int, ser_subs_tail(subs) + seq![']']) by {
                if frag_match(v@, i as int, ser_subs_tail(subs) + seq![']']) {
                    assert(v@.subrange(i as int, i + ser_subs_tail(subs).len() + 1)[0] == v@[i as int]);
                    if subs.len() > 0 {
                        assert((ser_subs_tail(subs) + seq![']'])[0] == ',');
                    } else {
                        assert((ser_subs_tail(subs) + seq![']'])[0] == ']');
                    }
                }
            }
        }
        return None;
    }
    let first = parse_tree_at(v, i + 1);
    match first {
        Some(p) => {
            let (f1, j1) = p;
            let rest = parse_subs_tail_at(v, j1);
            match rest {
                Some(q) => {
                    let (tail, j2) = q;
                    let mut out = tail;
                    out.insert(0, f1);
                    proof {
                        assert forall|subs: Seq<FolderNode>|
                            #![trigger ser_subs_tail(subs)]
                            frag_match(v@, i as int, ser_subs_tail(subs) + seq![']']) implies (
                        folder_lists_equal(out@, subs) && j2 == i + ser_subs_tail(subs).len()
                            + 1) by {
                            lemma_subs_tail_decompose(v@, i as int, subs);
                            assert(frag_match(v@, i + 1, ser_tree(subs.first())));
                            assert(j1 == i + 1 + ser_tree(subs.first()).len());
                            assert(frag_match(
                                v@,
                                j1 as int,
                                ser_subs_tail(subs.drop_first()) + seq![']'],
                            ));
                            assert(folder_lists_equal(tail@, subs.drop_first()));
                            assert(tree_equal(f1, subs.first()));
                            lemma_folder_lists_equal_cons(
                                f1,
                                tail@,
                                subs.first(),
                                subs.drop_first(),
                            );
                            assert(out@ =~= seq![f1] + tail@);
                            assert(seq![subs.first()] + subs.drop_first() =~= subs);
                        }
                    }
                    Some((out, j2))
                },
                None => {
                    proof {
                        assert forall|subs: Seq<FolderNode>|
                            #![trigger ser_subs_tail(subs)]
                            !frag_match(v@, i as int, ser_subs_tail(subs) + seq![']']) by {
                            if frag_match(v@, i as int, ser_subs_tail(subs) + seq![']']) {
                                lemma_subs_tail_decompose(v@, i as int, subs);
                                assert(j1 == i + 1 + ser_tree(subs.first()).len());
                                assert(frag_match(
                                    v@,
                                    j1 as int,
                                    ser_subs_tail(subs.drop_first()) + seq![']'],
                                ));
                                assert(rest matches Some(_));
                            }
                        }
                    }
                    None
                },
            }
        },
        None => {
            proof {
                assert forall|subs: Seq<FolderNode>|
                    #![trigger ser_subs_tail(subs)]
                    !frag_match(v@, i as int, ser_subs_tail(subs) + seq![']']) by {
                    if frag_match(v@, i as int, ser_subs_tail(subs) + seq![']']) {
                        lemma_subs_tail_decompose(v@, i as int, subs);
                        assert(frag_match(v@, i + 1, ser_tree(subs.first())));
                        assert(first matches Some(_));
                    }
                }
            }
            None
        },
    }
}

/// A matched continuation beginning with a comma decomposes into its first
/// entry and the remaining continuation.
proof fn lemma_subs_tail_decompose(v: Seq<char>, i: int, subs: Seq<FolderNode>)
    requires
        frag_match(v, i, ser_subs_tail(subs) + seq![']']),
        i < v.len(),
        v[i] == ',',
    ensures
        subs.len() > 0,
        frag_match(v, i + 1, ser_tree(subs.first())),
        frag_match(
            v,
            i + 1 + ser_tree(subs.first()).len(),
            ser_subs_tail(subs.drop_first()) + seq![']'],
        ),
        ser_subs_tail(subs).len() == 1 + ser_tree(subs.first()).len() + ser_subs_tail(
            subs.drop_first(),
        ).len(),
{
    if subs.len() == 0 {
        assert(v.subrange(i, i + 1)[0] == v[i]);
        assert((ser_subs_tail(subs) + seq![']'])[0] == ']');
        assert(false);
    }
    assert(ser_subs_tail(subs) + seq![']'] =~= seq![','] + (ser_tree(subs.first()) + (
    ser_subs_tail(subs.drop_first()) + seq![']'])));
    lemma_subrange_split(
        v,
        i,
        i + ser_subs_tail(subs).len() + 1,
        seq![','],
        ser_tree(subs.first()) + (ser_subs_tail(subs.drop_first()) + seq![']']),
    );
    lemma_subrange_split(
        v,
        i + 1,
        i + ser_subs_tail(subs).len() + 1,
        ser_tree(subs.first()),
        ser_subs_tail(subs.drop_first()) + seq![']'],
    );
}

/// Reads a structured tree document back into a tree. Complete for the
/// serializer's output: for every tree `t`, parsing `serialize_tree(t)`
/// succeeds and yields a tree structurally equal to `t` — identical paths,
/// names, and aggregate sizes at every node.
pub fn parse_tree(s: &str) -> (r: Option<FolderNode>)
    ensures
        forall|t: FolderNode|
            #![trigger ser_tree(t)]
            s@ == ser_tree(t) ==> (r matches Some(f) && tree_equal(f, t)),
{
    let v = chars_of(s);
    let n = v.len();
    let parsed = parse_tree_at(&v, 0);
    match parsed {
        Some(p) => {
            let (f, j) = p;
            if j == n {
                proof {
                    assert forall|t: FolderNode|
                        s@ == ser_tree(t) implies tree_equal(f, t) by {
                        assert(v@.subrange(0, ser_tree(t).len() as int) =~= ser_tree(t));
                        assert(frag_match(v@, 0, ser_tree(t)));
                    }
                }
                Some(f)
            } else {
                proof {
                    assert forall|t: FolderNode| s@ != ser_tree(t) by {
                        if s@ == ser_tree(t) {
                            assert(v@.subrange(0, ser_tree(t).len() as int) =~= ser_tree(t));
                            assert(frag_match(v@, 0, ser_tree(t)));
                        }
                    }
                }
                None
            }
        },
        None => {
            proof {
                assert forall|t: FolderNode| s@ != ser_tree(t) by {
                    if s@ == ser_tree(t) {
                        assert(v@.subrange(0, ser_tree(t).len() as int) =~= ser_tree(t));
                        assert(frag_match(v@, 0, ser_tree(t)));
                        assert(parsed matches Some(_));
                    }
                }
            }
            None
        },
    }
}

} // verus!
