//! The sort policy: in-place, recursive re-ordering of each folder's
//! children by descending size.
//!
//! `ByFileSize` reorders each folder's own files, `ByFolderSize` reorders
//! each folder's subfolders; both are stable — ties keep their prior
//! relative order — and neither alters any size nor the set of entries.
//! The order is pinned exactly by a specification-level stable insertion
//! sort, so sorting is deterministic and provably idempotent.

use vstd::prelude::*;

verus! {

use crate::text::{chars_of, chars_eq};
use crate::tree::{FolderNode, FileNode, wf, wf_list, sum_file_sizes, sum_folder_sizes,
    lemma_wf_list_index};

/// Stable descending insertion of a file: `x` goes after every entry at
/// least as large, before the first strictly smaller one.
pub open spec fn spec_insert_file(x: FileNode, s: Seq<FileNode>) -> Seq<FileNode>
    decreases s.len(),
{
    if s.len() == 0 {
        seq![x]
    } else if s.first().size >= x.size {
        seq![s.first()] + spec_insert_file(x, s.drop_first())
    } else {
        seq![x] + s
    }
}

/// Stable descending insertion sort of a file list.
pub open spec fn spec_sort_files(s: Seq<FileNode>) -> Seq<FileNode>
    decreases s.len(),
{
    if s.len() == 0 {
        s
    } else {
        spec_insert_file(s.last(), spec_sort_files(s.drop_last()))
    }
}

/// Descending order by size over a file list.
pub open spec fn files_sorted_desc(s: Seq<FileNode>) -> bool {
    forall|i: int, j: int| 0 <= i < j < s.len() ==> (#[trigger] s[i]).size >= (#[trigger] s[j]).size
}

/// Stable descending insertion of a folder.
pub open spec fn spec_insert_sub(x: FolderNode, s: Seq<FolderNode>) -> Seq<FolderNode>
    decreases s.len(),
{
    if s.len() == 0 {
        seq![x]
    } else if s.first().size >= x.size {
        seq![s.first()] + spec_insert_sub(x, s.drop_first())
    } else {
        seq![x] + s
    }
}

/// Stable descending insertion sort of a folder list.
pub open spec fn spec_sort_subs(s: Seq<FolderNode>) -> Seq<FolderNode>
    decreases s.len(),
{
    if s.len() == 0 {
        s
    } else {
        spec_insert_sub(s.last(), spec_sort_subs(s.drop_last()))
    }
}

/// Descending order by aggregate size over a folder list.
pub open spec fn subs_sorted_desc(s: Seq<FolderNode>) -> bool {
    forall|i: int, j: int| 0 <= i < j < s.len() ==> (#[trigger] s[i]).size >= (#[trigger] s[j]).size
}

/// The criterion selecting the folder policy: the keyword `folder`; any
/// other criterion string selects the file policy.
pub open spec fn folder_keyword() -> Seq<char> {
    seq!['f', 'o', 'l', 'd', 'e', 'r']
}

/// `nsub` is the recursively sorted copy of some member of `os` equal to
/// `target`.
pub open spec fn sorted_from_one_of(
    nsub: FolderNode,
    os: Seq<FolderNode>,
    target: FolderNode,
    by_folder: bool,
) -> bool
    decreases os,
{
    exists|j: int|
        0 <= j < os.len() && os[j] == target && sorted_tree_rel(nsub, #[trigger] os[j], by_folder)
}

/// The sorted tree: same path, name and size, children re-ordered by the
/// chosen policy at this level, and every subfolder sorted the same way.
pub open spec fn sorted_tree_rel(nf: FolderNode, of: FolderNode, by_folder: bool) -> bool
    decreases of,
{
    let m = if by_folder {
        spec_sort_subs(of.subfolders@)
    } else {
        of.subfolders@
    };
    &&& nf.path == of.path
    &&& nf.name == of.name
    &&& nf.size == of.size
    &&& nf.files@ == (if by_folder {
        of.files@
    } else {
        spec_sort_files(of.files@)
    })
    &&& nf.subfolders@.len() == m.len()
    &&& forall|i: int|
        0 <= i < m.len() ==> sorted_from_one_of(
            (#[trigger] nf.subfolders@[i]),
            of.subfolders@,
            m[i],
            by_folder,
        )
}

/// Inserting grows a file list by exactly one entry.
pub proof fn lemma_insert_file_len(x: FileNode, s: Seq<FileNode>)
    ensures
        spec_insert_file(x, s).len() == s.len() + 1,
    decreases s.len(),
{
    if s.len() > 0 && s.first().size >= x.size {
        lemma_insert_file_len(x, s.drop_first());
    }
}

/// Sorting keeps the length of a file list.
pub proof fn lemma_sort_files_len(s: Seq<FileNode>)
    ensures
        spec_sort_files(s).len() == s.len(),
    decreases s.len(),
{
    if s.len() > 0 {
        lemma_sort_files_len(s.drop_last());
        lemma_insert_file_len(s.last(), spec_sort_files(s.drop_last()));
    }
}

/// The entries of an insertion are the inserted one and the old ones.
pub proof fn lemma_insert_file_elements(x: FileNode, s: Seq<FileNode>, i: int)
    requires
        0 <= i < spec_insert_file(x, s).len(),
    ensures
        spec_insert_file(x, s)[i] == x || exists|j: int| 0 <= j < s.len() && s[j] == spec_insert_file(x, s)[i],
    decreases s.len(),
{
    lemma_insert_file_len(x, s);
    if s.len() == 0 {
    } else if s.first().size >= x.size {
        if i == 0 {
            assert(s[0] == spec_insert_file(x, s)[i]);
        } else {
            lemma_insert_file_elements(x, s.drop_first(), i - 1);
            let r = spec_insert_file(x, s.drop_first());
            if r[i - 1] == x {
            } else {
                let j = choose|j: int| 0 <= j < s.drop_first().len() && s.drop_first()[j] == r[i - 1];
                assert(s[j + 1] == spec_insert_file(x, s)[i]);
            }
        }
    } else {
        if i > 0 {
            assert(s[i - 1] == spec_insert_file(x, s)[i]);
        }
    }
}

/// The multiset of a list with one entry placed in front.
pub proof fn lemma_cons_multiset_file(a: FileNode, r: Seq<FileNode>)
    ensures
        (seq![a] + r).to_multiset() == r.to_multiset().insert(a),
{
    broadcast use vstd::seq_lib::group_to_multiset_ensures;

    let t = seq![a] + r;
    assert(t[0] == a);
    assert(t.remove(0) =~= r);
    assert(t.remove(0).to_multiset() =~= t.to_multiset().remove(t[0]));
    assert(t.contains(a));
    assert(t.to_multiset().count(a) > 0);
    assert(t.to_multiset() =~= t.to_multiset().remove(a).insert(a));
}

/// Inserting keeps the multiset of entries, adding the inserted one.
pub proof fn lemma_insert_file_multiset(x: FileNode, s: Seq<FileNode>)
    ensures
        spec_insert_file(x, s).to_multiset() == s.to_multiset().insert(x),
    decreases s.len(),
{
    broadcast use vstd::seq_lib::group_to_multiset_ensures;

    if s.len() == 0 {
        assert(spec_insert_file(x, s) =~= seq![x] + Seq::<FileNode>::empty());
        lemma_cons_multiset_file(x, Seq::<FileNode>::empty());
        assert(Seq::<FileNode>::empty().to_multiset() =~= s.to_multiset());
    } else if s.first().size >= x.size {
        lemma_insert_file_multiset(x, s.drop_first());
        let r = spec_insert_file(x, s.drop_first());
        assert(spec_insert_file(x, s) =~= seq![s.first()] + r);
        lemma_cons_multiset_file(s.first(), r);
        assert(s =~= seq![s.first()] + s.drop_first());
        lemma_cons_multiset_file(s.first(), s.drop_first());
        assert(spec_insert_file(x, s).to_multiset() =~= s.to_multiset().insert(x));
    } else {
        assert(spec_insert_file(x, s) =~= seq![x] + s);
        lemma_cons_multiset_file(x, s);
    }
}

/// Sorting never changes the multiset of files present.
pub proof fn lemma_sort_files_multiset(s: Seq<FileNode>)
    ensures
        spec_sort_files(s).to_multiset() == s.to_multiset(),
    decreases s.len(),
{
    broadcast use vstd::seq_lib::group_to_multiset_ensures;

    if s.len() > 0 {
        lemma_sort_files_multiset(s.drop_last());
        lemma_insert_file_multiset(s.last(), spec_sort_files(s.drop_last()));
        assert(s =~= s.drop_last().push(s.last()));
        assert(s.to_multiset() =~= s.drop_last().to_multiset().insert(s.last()));
    }
}

/// Inserting into a sorted list keeps it sorted.
pub proof fn lemma_insert_file_sorted(x: FileNode, s: Seq<FileNode>)
    requires
        files_sorted_desc(s),
    ensures
        files_sorted_desc(spec_insert_file(x, s)),
    decreases s.len(),
{
    lemma_insert_file_len(x, s);
    if s.len() == 0 {
    } else if s.first().size >= x.size {
        assert(files_sorted_desc(s.drop_first()));
        lemma_insert_file_sorted(x, s.drop_first());
        let r = spec_insert_file(x, s.drop_first());
        let t = spec_insert_file(x, s);
        lemma_insert_file_len(x, s.drop_first());
        assert forall|i: int, j: int| 0 <= i < j < t.len() implies (#[trigger] t[i]).size >= (
        #[trigger] t[j]).size by {
            if i == 0 {
                assert(t[0] == s.first());
                assert(t[j] == r[j - 1]);
                lemma_insert_file_elements(x, s.drop_first(), j - 1);
                if r[j - 1] == x {
                } else {
                    let k = choose|k: int|
                        0 <= k < s.drop_first().len() && s.drop_first()[k] == r[j - 1];
                    assert(s[k + 1] == r[j - 1]);
                    assert(s[0].size >= s[k + 1].size);
                }
            } else {
                assert(t[i] == r[i - 1]);
                assert(t[j] == r[j - 1]);
            }
        }
    } else {
        let t = spec_insert_file(x, s);
        assert forall|i: int, j: int| 0 <= i < j < t.len() implies (#[trigger] t[i]).size >= (
        #[trigger] t[j]).size by {
            if i == 0 {
                assert(t[0] == x);
                assert(t[j] == s[j - 1]);
                assert(s[0].size < x.size);
                if j > 1 {
                    assert(s[0].size >= s[j - 1].size);
                }
            } else {
                assert(t[i] == s[i - 1]);
                assert(t[j] == s[j - 1]);
            }
        }
    }
}

/// The sorted file list is sorted.
pub proof fn lemma_sort_files_sorted(s: Seq<FileNode>)
    ensures
        files_sorted_desc(spec_sort_files(s)),
    decreases s.len(),
{
    if s.len() > 0 {
        lemma_sort_files_sorted(s.drop_last());
        lemma_insert_file_sorted(s.last(), spec_sort_files(s.drop_last()));
    }
}

/// Inserting below everything appends at the end.
pub proof fn lemma_insert_file_all_ge(x: FileNode, s: Seq<FileNode>)
    requires
        forall|i: int| 0 <= i < s.len() ==> (#[trigger] s[i]).size >= x.size,
    ensures
        spec_insert_file(x, s) == s.push(x),
    decreases s.len(),
{
    if s.len() == 0 {
        assert(spec_insert_file(x, s) =~= s.push(x));
    } else {
        assert(forall|i: int|
            0 <= i < s.drop_first().len() ==> (#[trigger] s.drop_first()[i]).size >= x.size);
        lemma_insert_file_all_ge(x, s.drop_first());
        assert(spec_insert_file(x, s) =~= s.push(x));
    }
}

/// Sorting an already sorted file list changes nothing.
pub proof fn lemma_sort_files_of_sorted(s: Seq<FileNode>)
    requires
        files_sorted_desc(s),
    ensures
        spec_sort_files(s) == s,
    decreases s.len(),
{
    if s.len() > 0 {
        assert(files_sorted_desc(s.drop_last()));
        lemma_sort_files_of_sorted(s.drop_last());
        assert(forall|i: int|
            0 <= i < s.drop_last().len() ==> (#[trigger] s.drop_last()[i]).size >= s.last().size);
        lemma_insert_file_all_ge(s.last(), s.drop_last());
        assert(s.drop_last().push(s.last()) =~= s);
    }
}

/// Sorting files twice gives the same order as sorting once.
pub proof fn lemma_sort_files_idempotent(s: Seq<FileNode>)
    ensures
        spec_sort_files(spec_sort_files(s)) == spec_sort_files(s),
{
    lemma_sort_files_sorted(s);
    lemma_sort_files_of_sorted(spec_sort_files(s));
}

/// Inserting adds exactly the inserted folder's size to the total.
pub proof fn lemma_insert_sub_sum(x: FolderNode, s: Seq<FolderNode>)
    ensures
        sum_folder_sizes(spec_insert_sub(x, s)) == sum_folder_sizes(s) + x.size,
        spec_insert_sub(x, s).len() == s.len() + 1,
    decreases s.len(),
{
    if s.len() == 0 {
        let r = spec_insert_sub(x, s);
        assert(r.drop_last() =~= s);
    } else if s.first().size >= x.size {
        lemma_insert_sub_sum(x, s.drop_first());
        let r = spec_insert_sub(x, s.drop_first());
        let t = spec_insert_sub(x, s);
        assert(t =~= seq![s.first()] + r);
        lemma_sum_cons_sub(s.first(), r);
        lemma_sum_cons_sub(s.first(), s.drop_first());
        assert(seq![s.first()] + s.drop_first() =~= s);
    } else {
        let t = spec_insert_sub(x, s);
        assert(t =~= seq![x] + s);
        lemma_sum_cons_sub(x, s);
    }
}

/// Front-unfolding of the subfolder-size sum.
pub proof fn lemma_sum_cons_sub(x: FolderNode, s: Seq<FolderNode>)
    ensures
        sum_folder_sizes(seq![x] + s) == x.size + sum_folder_sizes(s),
    decreases s.len(),
{
    let t = seq![x] + s;
    if s.len() == 0 {
        assert(t.len() == 1);
        assert(t.drop_last() =~= Seq::<FolderNode>::empty());
        assert(t.last() == x);
        assert(sum_folder_sizes(t) == sum_folder_sizes(t.drop_last()) + t.last().size as int);
        assert(sum_folder_sizes(t.drop_last()) == 0);
        assert(sum_folder_sizes(seq![x] + s) == x.size + sum_folder_sizes(s));
    } else {
        assert(t.drop_last() =~= seq![x] + s.drop_last());
        assert(t.last() == s.last());
        lemma_sum_cons_sub(x, s.drop_last());
        assert(sum_folder_sizes(t) == sum_folder_sizes(t.drop_last()) + t.last().size as int);
        assert(sum_folder_sizes(t.drop_last()) == x.size + sum_folder_sizes(s.drop_last()));
        assert(sum_folder_sizes(s) == sum_folder_sizes(s.drop_last()) + s.last().size as int);
        assert(sum_folder_sizes(seq![x] + s) == x.size + sum_folder_sizes(s));
    }
}

/// Sorting folders keeps their total size.
pub proof fn lemma_sort_subs_sum(s: Seq<FolderNode>)
    ensures
        sum_folder_sizes(spec_sort_subs(s)) == sum_folder_sizes(s),
        spec_sort_subs(s).len() == s.len(),
    decreases s.len(),
{
    if s.len() > 0 {
        lemma_sort_subs_sum(s.drop_last());
        lemma_insert_sub_sum(s.last(), spec_sort_subs(s.drop_last()));
    }
}

/// Front-unfolding of the file-size sum.
pub proof fn lemma_sum_cons_file(x: FileNode, s: Seq<FileNode>)
    ensures
        sum_file_sizes(seq![x] + s) == x.size + sum_file_sizes(s),
    decreases s.len(),
{
    let t = seq![x] + s;
    if s.len() == 0 {
        assert(t.len() == 1);
        assert(t.drop_last() =~= Seq::<FileNode>::empty());
        assert(t.last() == x);
        assert(sum_file_sizes(t) == sum_file_sizes(t.drop_last()) + t.last().size as int);
        assert(sum_file_sizes(t.drop_last()) == 0);
        assert(sum_file_sizes(seq![x] + s) == x.size + sum_file_sizes(s));
    } else {
        assert(t.drop_last() =~= seq![x] + s.drop_last());
        assert(t.last() == s.last());
        lemma_sum_cons_file(x, s.drop_last());
        assert(sum_file_sizes(t) == sum_file_sizes(t.drop_last()) + t.last().size as int);
        assert(sum_file_sizes(t.drop_last()) == x.size + sum_file_sizes(s.drop_last()));
        assert(sum_file_sizes(s) == sum_file_sizes(s.drop_last()) + s.last().size as int);
        assert(sum_file_sizes(seq![x] + s) == x.size + sum_file_sizes(s));
    }
}

/// Inserting adds exactly the inserted file's size to the total.
pub proof fn lemma_insert_file_sum(x: FileNode, s: Seq<FileNode>)
    ensures
        sum_file_sizes(spec_insert_file(x, s)) == sum_file_sizes(s) + x.size,
    decreases s.len(),
{
    if s.len() == 0 {
        let r = spec_insert_file(x, s);
        assert(r.drop_last() =~= s);
    } else if s.first().size >= x.size {
        lemma_insert_file_sum(x, s.drop_first());
        let r = spec_insert_file(x, s.drop_first());
        let t = spec_insert_file(x, s);
        assert(t =~= seq![s.first()] + r);
        lemma_sum_cons_file(s.first(), r);
        lemma_sum_cons_file(s.first(), s.drop_first());
        assert(seq![s.first()] + s.drop_first() =~= s);
    } else {
        let t = spec_insert_file(x, s);
        assert(t =~= seq![x] + s);
        lemma_sum_cons_file(x, s);
    }
}

/// Sorting files keeps their total size.
pub proof fn lemma_sort_files_sum(s: Seq<FileNode>)
    ensures
        sum_file_sizes(spec_sort_files(s)) == sum_file_sizes(s),
    decreases s.len(),
{
    if s.len() > 0 {
        lemma_sort_files_sum(s.drop_last());
        lemma_insert_file_sum(s.last(), spec_sort_files(s.drop_last()));
    }
}

/// Every entry of the sorted folder list is one of the original folders.
pub proof fn lemma_insert_sub_elements(x: FolderNode, s: Seq<FolderNode>, i: int)
    requires
        0 <= i < spec_insert_sub(x, s).len(),
    ensures
        spec_insert_sub(x, s)[i] == x || exists|j: int|
            0 <= j < s.len() && s[j] == spec_insert_sub(x, s)[i],
    decreases s.len(),
{
    lemma_insert_sub_sum(x, s);
    if s.len() == 0 {
    } else if s.first().size >= x.size {
        if i == 0 {
            assert(s[0] == spec_insert_sub(x, s)[i]);
        } else {
            lemma_insert_sub_elements(x, s.drop_first(), i - 1);
            let r = spec_insert_sub(x, s.drop_first());
            if r[i - 1] == x {
            } else {
                let j = choose|j: int|
                    0 <= j < s.drop_first().len() && s.drop_first()[j] == r[i - 1];
                assert(s[j + 1] == spec_insert_sub(x, s)[i]);
            }
        }
    } else {
        if i > 0 {
            assert(s[i - 1] == spec_insert_sub(x, s)[i]);
        }
    }
}

/// Where the scan stops is where the specification inserts.
proof fn lemma_spec_insert_file_at(x: FileNode, s: Seq<FileNode>, k: int)
    requires
        0 <= k <= s.len(),
        forall|j: int| 0 <= j < k ==> (#[trigger] s[j]).size >= x.size,
        k < s.len() ==> s[k].size < x.size,
    ensures
        spec_insert_file(x, s) == s.insert(k, x),
    decreases s.len(),
{
    if s.len() == 0 {
        assert(spec_insert_file(x, s) =~= s.insert(0, x));
    } else if s.first().size >= x.size {
        assert(s[0].size >= x.size);
        assert(k >= 1);
        lemma_spec_insert_file_at(x, s.drop_first(), k - 1);
        assert(seq![s.first()] + s.drop_first().insert(k - 1, x) =~= s.insert(k, x));
    } else {
        assert(k == 0) by {
            if k > 0 {
                assert(s[0].size >= x.size);
            }
        }
        assert(seq![x] + s =~= s.insert(0, x));
    }
}

/// Where the scan stops is where the specification inserts.
proof fn lemma_spec_insert_sub_at(x: FolderNode, s: Seq<FolderNode>, k: int)
    requires
        0 <= k <= s.len(),
        forall|j: int| 0 <= j < k ==> (#[trigger] s[j]).size >= x.size,
        k < s.len() ==> s[k].size < x.size,
    ensures
        spec_insert_sub(x, s) == s.insert(k, x),
    decreases s.len(),
{
    if s.len() == 0 {
        assert(spec_insert_sub(x, s) =~= s.insert(0, x));
    } else if s.first().size >= x.size {
        assert(s[0].size >= x.size);
        assert(k >= 1);
        lemma_spec_insert_sub_at(x, s.drop_first(), k - 1);
        assert(seq![s.first()] + s.drop_first().insert(k - 1, x) =~= s.insert(k, x));
    } else {
        assert(k == 0) by {
            if k > 0 {
                assert(s[0].size >= x.size);
            }
        }
        assert(seq![x] + s =~= s.insert(0, x));
    }
}

/// Stable insertion of one file into an already-built descending list.
fn insert_file_sorted(v: &mut Vec<FileNode>, x: FileNode)
    ensures
        final(v)@ == spec_insert_file(x, old(v)@),
{
    let n = v.len();
    let mut k: usize = 0;
    while k < n && v[k].size >= x.size
        invariant
            *v == *old(v),
            n == v@.len(),
            k <= n,
            forall|j: int| 0 <= j < k ==> (#[trigger] v@[j]).size >= x.size,
        decreases n - k,
    {
        k = k + 1;
    }
    proof {
        lemma_spec_insert_file_at(x, v@, k as int);
    }
    v.insert(k, x);
}

/// Stable insertion of one folder into an already-built descending list.
fn insert_sub_sorted(v: &mut Vec<FolderNode>, x: FolderNode)
    ensures
        final(v)@ == spec_insert_sub(x, old(v)@),
{
    let n = v.len();
    let mut k: usize = 0;
    while k < n && v[k].size >= x.size
        invariant
            *v == *old(v),
            n == v@.len(),
            k <= n,
            forall|j: int| 0 <= j < k ==> (#[trigger] v@[j]).size >= x.size,
        decreases n - k,
    {
        k = k + 1;
    }
    proof {
        lemma_spec_insert_sub_at(x, v@, k as int);
    }
    v.insert(k, x);
}

/// Stable descending sort of a file list by size.
fn sort_files_vec(v: Vec<FileNode>) -> (r: Vec<FileNode>)
    ensures
        r@ == spec_sort_files(v@),
{
    let ghost orig = v@;
    let mut v = v;
    let mut out: Vec<FileNode> = Vec::new();
    let n = v.len();
    let mut i: usize = 0;
    while i < n
        invariant
            n == orig.len(),
            i <= n,
            v@ =~= orig.skip(i as int),
            out@ == spec_sort_files(orig.take(i as int)),
        decreases n - i,
    {
        let x = v.remove(0);
        proof {
            assert(orig.skip(i as int)[0] == orig[i as int]);
            assert(v@ =~= orig.skip(i as int).remove(0));
            assert(orig.skip(i as int).remove(0) =~= orig.skip(i + 1));
            assert(orig.take(i + 1).drop_last() =~= orig.take(i as int));
            assert(orig.take(i + 1).last() == orig[i as int]);
        }
        insert_file_sorted(&mut out, x);
        i = i + 1;
    }
    proof {
        assert(orig.take(n as int) =~= orig);
    }
    out
}

/// Stable descending sort of a folder list by aggregate size.
fn sort_subs_vec(v: Vec<FolderNode>) -> (r: Vec<FolderNode>)
    ensures
        r@ == spec_sort_subs(v@),
{
    let ghost orig = v@;
    let mut v = v;
    let mut out: Vec<FolderNode> = Vec::new();
    let n = v.len();
    let mut i: usize = 0;
    while i < n
        invariant
            n == orig.len(),
            i <= n,
            v@ =~= orig.skip(i as int),
            out@ == spec_sort_subs(orig.take(i as int)),
        decreases n - i,
    {
        let x = v.remove(0);
        proof {
            assert(orig.skip(i as int)[0] == orig[i as int]);
            assert(v@ =~= orig.skip(i as int).remove(0));
            assert(orig.skip(i as int).remove(0) =~= orig.skip(i + 1));
            assert(orig.take(i + 1).drop_last() =~= orig.take(i as int));
            assert(orig.take(i + 1).last() == orig[i as int]);
        }
        insert_sub_sorted(&mut out, x);
        i = i + 1;
    }
    proof {
        assert(orig.take(n as int) =~= orig);
    }
    out
}

/// Sorts one folder and, recursively, every folder below it.
#[verifier::loop_isolation(false)]
fn sort_tree(f: FolderNode, by_folder: bool) -> (r: FolderNode)
    ensures
        sorted_tree_rel(r, f, by_folder),
    decreases f,
{
    let ghost of = f;
    let FolderNode { path, name, size, files, subfolders } = f;
    let new_files = if by_folder {
        files
    } else {
        sort_files_vec(files)
    };
    let mut subs = if by_folder {
        sort_subs_vec(subfolders)
    } else {
        subfolders
    };
    let ghost m = if by_folder {
        spec_sort_subs(of.subfolders@)
    } else {
        of.subfolders@
    };
    proof {
        if by_folder {
            lemma_sort_subs_sum(of.subfolders@);
        }
    }
    let n = subs.len();
    let mut k: usize = 0;
    while k < n
        invariant
            n == m.len(),
            n == subs@.len(),
            k <= n,
            m == (if by_folder {
                spec_sort_subs(of.subfolders@)
            } else {
                of.subfolders@
            }),
            forall|i: int| k <= i < n ==> subs@[i] == m[i],
            forall|i: int|
                0 <= i < k ==> sorted_from_one_of(
                    (#[trigger] subs@[i]),
                    of.subfolders@,
                    m[i],
                    by_folder,
                ),
        decreases n - k,
    {
        let ghost prev = subs@;
        let sub = subs.remove(k);
        proof {
            assert(sub == m[k as int]);
            if by_folder {
                lemma_sort_subs_elements(of.subfolders@, k as int);
            } else {
                assert(of.subfolders@[k as int] == m[k as int]);
            }
            let j = choose|j: int|
                0 <= j < of.subfolders@.len() && of.subfolders@[j] == m[k as int];
            assert(sub == of.subfolders@[j]);
            assert(decreases_to!(of => of.subfolders));
            assert(decreases_to!(of.subfolders => of.subfolders@[j]));
            assert(decreases_to!(of => sub));
        }
        let sub2 = sort_tree(sub, by_folder);
        subs.insert(k, sub2);
        proof {
            assert(subs@ =~= prev.update(k as int, sub2));
            let j = choose|j: int|
                0 <= j < of.subfolders@.len() && of.subfolders@[j] == m[k as int];
            assert(sorted_tree_rel(sub2, of.subfolders@[j], by_folder));
            assert(sorted_from_one_of(subs@[k as int], of.subfolders@, m[k as int], by_folder));
        }
        k = k + 1;
    }
    FolderNode { path, name, size, files: new_files, subfolders: subs }
}

/// The sort policy: reorders each folder's files (criterion other than
/// `folder`) or each folder's subfolders (criterion `folder`) descending by
/// size, stably, then recurses into every subfolder. Sizes and membership
/// are untouched.
pub fn sort_folder(folder: &mut FolderNode, sort_by: &str)
    ensures
        sorted_tree_rel(*final(folder), *old(folder), sort_by@ == folder_keyword()),
{
    let v = chars_of(sort_by);
    let pat = chars_of("folder");
    proof {
        reveal_strlit("folder");
        assert(pat@ =~= folder_keyword());
    }
    let by_folder = chars_eq(&v, &pat);
    let mut tmp = FolderNode {
        path: String::new(),
        name: String::new(),
        size: 0,
        files: Vec::new(),
        subfolders: Vec::new(),
    };
    core::mem::swap(folder, &mut tmp);
    let sorted = sort_tree(tmp, by_folder);
    *folder = sorted;
}

/// Every entry of the sorted list equals some entry of the original.
pub proof fn lemma_sort_subs_elements(s: Seq<FolderNode>, i: int)
    requires
        0 <= i < spec_sort_subs(s).len(),
    ensures
        exists|j: int| 0 <= j < s.len() && s[j] == spec_sort_subs(s)[i],
    decreases s.len(),
{
    lemma_sort_subs_sum(s);
    if s.len() > 0 {
        let r = spec_sort_subs(s.drop_last());
        lemma_insert_sub_elements(s.last(), r, i);
        if spec_insert_sub(s.last(), r)[i] == s.last() {
            assert(s[s.len() - 1] == spec_sort_subs(s)[i]);
        } else {
            let j = choose|j: int| 0 <= j < r.len() && r[j] == spec_insert_sub(s.last(), r)[i];
            lemma_sort_subs_sum(s.drop_last());
            lemma_sort_subs_elements(s.drop_last(), j);
            let k = choose|k: int| 0 <= k < s.drop_last().len() && s.drop_last()[k] == r[j];
            assert(s[k] == spec_sort_subs(s)[i]);
        }
    }
}

/// The sizes a file list carries, in order.
pub open spec fn file_sizes_of(s: Seq<FileNode>) -> Seq<u64> {
    s.map_values(|f: FileNode| f.size)
}

/// The multiset of a size list with one size placed in front.
proof fn lemma_cons_multiset_size(a: u64, r: Seq<u64>)
    ensures
        (seq![a] + r).to_multiset() == r.to_multiset().insert(a),
{
    broadcast use vstd::seq_lib::group_to_multiset_ensures;

    let t = seq![a] + r;
    assert(t[0] == a);
    assert(t.remove(0) =~= r);
    assert(t.remove(0).to_multiset() =~= t.to_multiset().remove(t[0]));
    assert(t.contains(a));
    assert(t.to_multiset().count(a) > 0);
    assert(t.to_multiset() =~= t.to_multiset().remove(a).insert(a));
}

/// Inserting a file adds exactly its size to the size multiset.
proof fn lemma_insert_file_sizes_multiset(x: FileNode, s: Seq<FileNode>)
    ensures
        file_sizes_of(spec_insert_file(x, s)).to_multiset() == file_sizes_of(
            s,
        ).to_multiset().insert(x.size),
    decreases s.len(),
{
    broadcast use vstd::seq_lib::group_to_multiset_ensures;

    if s.len() == 0 {
        assert(file_sizes_of(spec_insert_file(x, s)) =~= seq![x.size]
            + Seq::<u64>::empty());
        lemma_cons_multiset_size(x.size, Seq::<u64>::empty());
        assert(Seq::<u64>::empty().to_multiset() =~= file_sizes_of(s).to_multiset());
    } else if s.first().size >= x.size {
        lemma_insert_file_sizes_multiset(x, s.drop_first());
        let r = spec_insert_file(x, s.drop_first());
        assert(file_sizes_of(spec_insert_file(x, s)) =~= seq![s.first().size] + file_sizes_of(r));
        lemma_cons_multiset_size(s.first().size, file_sizes_of(r));
        assert(file_sizes_of(s) =~= seq![s.first().size] + file_sizes_of(s.drop_first()));
        lemma_cons_multiset_size(s.first().size, file_sizes_of(s.drop_first()));
        assert(file_sizes_of(spec_insert_file(x, s)).to_multiset() =~= file_sizes_of(
            s,
        ).to_multiset().insert(x.size));
    } else {
        assert(file_sizes_of(spec_insert_file(x, s)) =~= seq![x.size] + file_sizes_of(s));
        lemma_cons_multiset_size(x.size, file_sizes_of(s));
    }
}

/// Sorting never changes the multiset of file sizes present.
pub proof fn lemma_sort_files_sizes_multiset(s: Seq<FileNode>)
    ensures
        file_sizes_of(spec_sort_files(s)).to_multiset() == file_sizes_of(s).to_multiset(),
    decreases s.len(),
{
    broadcast use vstd::seq_lib::group_to_multiset_ensures;

    if s.len() > 0 {
        lemma_sort_files_sizes_multiset(s.drop_last());
        lemma_insert_file_sizes_multiset(s.last(), spec_sort_files(s.drop_last()));
        assert(file_sizes_of(s) =~= file_sizes_of(s.drop_last()).push(s.last().size));
        assert(file_sizes_of(s).to_multiset() =~= file_sizes_of(
            s.drop_last(),
        ).to_multiset().insert(s.last().size));
    }
}

/// Two folder lists with equal sizes at every index weigh the same.
proof fn lemma_sum_by_sizes(a: Seq<FolderNode>, b: Seq<FolderNode>)
    requires
        a.len() == b.len(),
        forall|i: int| 0 <= i < a.len() ==> (#[trigger] a[i]).size == b[i].size,
    ensures
        sum_folder_sizes(a) == sum_folder_sizes(b),
    decreases a.len(),
{
    if a.len() > 0 {
        assert(forall|i: int|
            0 <= i < a.drop_last().len() ==> (#[trigger] a.drop_last()[i]).size
                == b.drop_last()[i].size);
        lemma_sum_by_sizes(a.drop_last(), b.drop_last());
        assert(a[a.len() - 1].size == b[b.len() - 1].size);
    }
}

/// Sorting preserves the size invariant: the re-ordered tree is still
/// well-formed, with every aggregate untouched.
pub proof fn lemma_sort_preserves_wf(nf: FolderNode, of: FolderNode, by_folder: bool)
    requires
        sorted_tree_rel(nf, of, by_folder),
        wf(of),
    ensures
        wf(nf),
    decreases of,
{
    let m = if by_folder {
        spec_sort_subs(of.subfolders@)
    } else {
        of.subfolders@
    };
    if by_folder {
        lemma_sort_subs_sum(of.subfolders@);
    } else {
        lemma_sort_files_sum(of.files@);
    }
    assert forall|i: int| 0 <= i < nf.subfolders@.len() implies (#[trigger] nf.subfolders@[i]).size
        == m[i].size && wf(nf.subfolders@[i]) by {
        assert(sorted_from_one_of(nf.subfolders@[i], of.subfolders@, m[i], by_folder));
        let j = choose|j: int|
            0 <= j < of.subfolders@.len() && of.subfolders@[j] == m[i] && sorted_tree_rel(
                nf.subfolders@[i],
                #[trigger] of.subfolders@[j],
                by_folder,
            );
        lemma_wf_list_index(of.subfolders@, j);
        lemma_sort_preserves_wf(nf.subfolders@[i], of.subfolders@[j], by_folder);
    }
    lemma_sum_by_sizes(nf.subfolders@, m);
    if by_folder {
        lemma_sort_subs_sum(of.subfolders@);
    }
    lemma_wf_list_pointwise(nf.subfolders@);
}

/// A list of well-formed folders is a well-formed list.
proof fn lemma_wf_list_pointwise(subs: Seq<FolderNode>)
    requires
        forall|i: int| 0 <= i < subs.len() ==> wf(#[trigger] subs[i]),
    ensures
        wf_list(subs),
    decreases subs.len(),
{
    if subs.len() > 0 {
        assert(wf(subs[subs.len() - 1]));
        assert(forall|i: int|
            0 <= i < subs.drop_last().len() ==> wf(#[trigger] subs.drop_last()[i]));
        lemma_wf_list_pointwise(subs.drop_last());
    }
}

} // verus!
