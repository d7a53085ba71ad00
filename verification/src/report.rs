//! The plain-text report: an indented pre-order listing of the tree.
//!
//! Each folder prints one line with its name and formatted size, then one
//! line per file at one deeper indent, then its subfolders recursively.
//! A summary block renders the walk totals. Writing the text anywhere is
//! the caller's business; the library only builds it.

use vstd::prelude::*;

verus! {

use crate::text::{chars_of, string_from_chars};
use crate::tree::{FolderNode, FileNode, Summary};
use crate::sizefmt::{SizeUnit, spec_format_size, format_size, dec_rep};

/// One step of indentation.
pub open spec fn indent_bar() -> Seq<char> {
    seq!['│', ' ', ' ', ' ']
}

/// The branch marker before every entry name.
pub open spec fn branch_mark() -> Seq<char> {
    seq!['├', '─', '─', ' ']
}

/// The opening of the size annotation.
pub open spec fn size_open() -> Seq<char> {
    seq![' ', '(']
}

/// The closing of the size annotation and the line break.
pub open spec fn size_close() -> Seq<char> {
    seq![')', '\n']
}

/// The rendered size of an entry, as the report shows it.
pub open spec fn spec_report_size(size: u64) -> Seq<char> {
    spec_format_size(size as nat, 2, SizeUnit::Decimal, None)
}

/// One folder line at the given prefix.
pub open spec fn spec_folder_line(f: FolderNode, prefix: Seq<char>) -> Seq<char> {
    prefix + branch_mark() + f.name@ + size_open() + spec_report_size(f.size) + size_close()
}

/// One file line, one indent deeper than its folder.
pub open spec fn spec_file_line(f: FileNode, prefix: Seq<char>) -> Seq<char> {
    prefix + indent_bar() + branch_mark() + f.name@ + size_open() + spec_report_size(f.size)
        + size_close()
}

/// The lines of a folder's own files, in order.
pub open spec fn spec_files_lines(fs: Seq<FileNode>, prefix: Seq<char>) -> Seq<char>
    decreases fs.len(),
{
    if fs.len() == 0 {
        Seq::empty()
    } else {
        spec_file_line(fs.first(), prefix) + spec_files_lines(fs.drop_first(), prefix)
    }
}

/// The full listing of one folder: its line, its files, its subfolders.
pub open spec fn spec_tree_text(f: FolderNode, prefix: Seq<char>) -> Seq<char>
    decreases f,
{
    spec_folder_line(f, prefix) + spec_files_lines(f.files@, prefix) + spec_subs_text(
        f.subfolders@,
        prefix + indent_bar(),
    )
}

/// The listings of a list of folders, in order.
pub open spec fn spec_subs_text(subs: Seq<FolderNode>, prefix: Seq<char>) -> Seq<char>
    decreases subs,
{
    if subs.len() == 0 {
        Seq::empty()
    } else {
        spec_tree_text(subs.first(), prefix) + spec_subs_text(subs.drop_first(), prefix)
    }
}

/// Appends the indentation bar.
fn push_indent_bar(out: &mut Vec<char>)
    ensures
        final(out)@ == old(out)@ + indent_bar(),
{
    out.push('│');
    out.push(' ');
    out.push(' ');
    out.push(' ');
    proof {
        assert(out@ =~= old(out)@ + indent_bar());
    }
}

/// Appends the branch marker.
fn push_branch_mark(out: &mut Vec<char>)
    ensures
        final(out)@ == old(out)@ + branch_mark(),
{
    out.push('├');
    out.push('─');
    out.push('─');
    out.push(' ');
    proof {
        assert(out@ =~= old(out)@ + branch_mark());
    }
}

/// Appends the characters of a string.
fn push_str_chars(out: &mut Vec<char>, s: &str)
    ensures
        final(out)@ == old(out)@ + s@,
{
    let v = chars_of(s);
    let n = v.len();
    let mut i: usize = 0;
    while i < n
        invariant
            n == v@.len(),
            v@ == s@,
            i <= n,
            out@ == old(out)@ + s@.take(i as int),
        decreases n - i,
    {
        out.push(v[i]);
        proof {
            assert(s@.take(i + 1) =~= s@.take(i as int).push(s@[i as int]));
            assert(out@ =~= old(out)@ + s@.take(i + 1));
        }
        i = i + 1;
    }
    proof {
        assert(s@.take(n as int) =~= s@);
    }
}

/// Appends the size annotation of an entry.
fn push_size(out: &mut Vec<char>, size: u64)
    ensures
        final(out)@ == old(out)@ + size_open() + spec_report_size(size) + size_close(),
{
    out.push(' ');
    out.push('(');
    let formatted = format_size(size, 2, SizeUnit::Decimal, None);
    push_str_chars(out, formatted.as_str());
    out.push(')');
    out.push('\n');
    proof {
        assert(out@ =~= old(out)@ + size_open() + spec_report_size(size) + size_close());
    }
}

/// Appends the listing of one folder.
fn tree_text_exec(f: &FolderNode, prefix: &Vec<char>, out: &mut Vec<char>)
    ensures
        final(out)@ == old(out)@ + spec_tree_text(*f, prefix@),
    decreases *f,
{
    let ghost start = out@;
    push_str_chars_vec(out, prefix);
    push_branch_mark(out);
    push_str_chars(out, f.name.as_str());
    push_size(out, f.size);
    proof {
        assert(out@ =~= start + spec_folder_line(*f, prefix@));
    }
    let nfiles = f.files.len();
    let mut i: usize = 0;
    while i < nfiles
        invariant
            nfiles == f.files@.len(),
            i <= nfiles,
            out@ == start + spec_folder_line(*f, prefix@) + files_upto(f.files@, prefix@, i as int),
        decreases nfiles - i,
    {
        let ghost before = out@;
        push_str_chars_vec(out, prefix);
        push_indent_bar(out);
        push_branch_mark(out);
        push_str_chars(out, f.files[i].name.as_str());
        push_size(out, f.files[i].size);
        proof {
            assert(out@ =~= before + spec_file_line(f.files@[i as int], prefix@));
            assert(files_upto(f.files@, prefix@, i + 1) =~= files_upto(f.files@, prefix@, i as int)
                + spec_file_line(f.files@[i as int], prefix@));
            assert(out@ =~= start + spec_folder_line(*f, prefix@) + files_upto(
                f.files@,
                prefix@,
                i + 1,
            ));
        }
        i = i + 1;
    }
    proof {
        lemma_files_upto_all(f.files@, prefix@);
    }
    let mut child_prefix = prefix.clone();
    push_indent_bar(&mut child_prefix);
    let nsubs = f.subfolders.len();
    let mut j: usize = 0;
    while j < nsubs
        invariant
            nsubs == f.subfolders@.len(),
            j <= nsubs,
            child_prefix@ == prefix@ + indent_bar(),
            out@ == start + spec_folder_line(*f, prefix@) + spec_files_lines(f.files@, prefix@)
                + subs_upto(f.subfolders@, prefix@ + indent_bar(), j as int),
        decreases nsubs - j,
    {
        let ghost before = out@;
        proof {
            assert(decreases_to!(*f => f.subfolders));
            assert(decreases_to!(f.subfolders => f.subfolders@[j as int]));
        }
        tree_text_exec(&f.subfolders[j], &child_prefix, out);
        proof {
            assert(subs_upto(f.subfolders@, prefix@ + indent_bar(), j + 1) =~= subs_upto(
                f.subfolders@,
                prefix@ + indent_bar(),
                j as int,
            ) + spec_tree_text(f.subfolders@[j as int], prefix@ + indent_bar()));
            assert(out@ =~= start + spec_folder_line(*f, prefix@) + spec_files_lines(
                f.files@,
                prefix@,
            ) + subs_upto(f.subfolders@, prefix@ + indent_bar(), j + 1));
        }
        j = j + 1;
    }
    proof {
        lemma_subs_upto_all(f.subfolders@, prefix@ + indent_bar());
        assert(out@ =~= start + spec_tree_text(*f, prefix@));
    }
}

/// Appends a prefix held as characters.
fn push_str_chars_vec(out: &mut Vec<char>, s: &Vec<char>)
    ensures
        final(out)@ == old(out)@ + s@,
{
    let n = s.len();
    let mut i: usize = 0;
    while i < n
        invariant
            n == s@.len(),
            i <= n,
            out@ == old(out)@ + s@.take(i as int),
        decreases n - i,
    {
        out.push(s[i]);
        proof {
            assert(s@.take(i + 1) =~= s@.take(i as int).push(s@[i as int]));
            assert(out@ =~= old(out)@ + s@.take(i + 1));
        }
        i = i + 1;
    }
    proof {
        assert(s@.take(n as int) =~= s@);
    }
}

/// The first `i` file lines.
pub open spec fn files_upto(fs: Seq<FileNode>, prefix: Seq<char>, i: int) -> Seq<char>
    decreases i,
{
    if i <= 0 {
        Seq::empty()
    } else {
        files_upto(fs, prefix, i - 1) + spec_file_line(fs[i - 1], prefix)
    }
}

/// All the file lines match the recursive form.
proof fn lemma_files_upto_all(fs: Seq<FileNode>, prefix: Seq<char>)
    ensures
        files_upto(fs, prefix, fs.len() as int) == spec_files_lines(fs, prefix),
{
    lemma_files_upto_shift(fs, prefix, fs.len() as int);
    assert(fs.take(fs.len() as int) =~= fs);
}

/// The first `i` file lines are the lines of the first `i` files.
proof fn lemma_files_upto_shift(fs: Seq<FileNode>, prefix: Seq<char>, i: int)
    requires
        0 <= i <= fs.len(),
    ensures
        files_upto(fs, prefix, i) == spec_files_lines(fs.take(i), prefix),
    decreases i,
{
    if i == 0 {
        assert(fs.take(0) =~= Seq::<FileNode>::empty());
    } else {
        lemma_files_upto_shift(fs, prefix, i - 1);
        lemma_files_lines_snoc(fs.take(i - 1), fs[i - 1], prefix);
        assert(fs.take(i) =~= fs.take(i - 1).push(fs[i - 1]));
    }
}

/// Appending one file appends its line.
proof fn lemma_files_lines_snoc(fs: Seq<FileNode>, x: FileNode, prefix: Seq<char>)
    ensures
        spec_files_lines(fs.push(x), prefix) == spec_files_lines(fs, prefix) + spec_file_line(
            x,
            prefix,
        ),
    decreases fs.len(),
{
    if fs.len() == 0 {
        assert(fs.push(x).first() == x);
        assert(fs.push(x).drop_first() =~= Seq::<FileNode>::empty());
        assert(spec_files_lines(Seq::<FileNode>::empty(), prefix) == Seq::<char>::empty());
        assert(spec_files_lines(fs.push(x), prefix) =~= spec_files_lines(fs, prefix)
            + spec_file_line(x, prefix));
    } else {
        assert(fs.push(x).first() == fs.first());
        assert(fs.push(x).drop_first() =~= fs.drop_first().push(x));
        lemma_files_lines_snoc(fs.drop_first(), x, prefix);
        assert(spec_files_lines(fs.push(x), prefix) =~= spec_files_lines(fs, prefix)
            + spec_file_line(x, prefix));
    }
}

/// The first `j` folder listings.
pub open spec fn subs_upto(subs: Seq<FolderNode>, prefix: Seq<char>, j: int) -> Seq<char>
    decreases j,
{
    if j <= 0 {
        Seq::empty()
    } else {
        subs_upto(subs, prefix, j - 1) + spec_tree_text(subs[j - 1], prefix)
    }
}

/// All the folder listings match the recursive form.
proof fn lemma_subs_upto_all(subs: Seq<FolderNode>, prefix: Seq<char>)
    ensures
        subs_upto(subs, prefix, subs.len() as int) == spec_subs_text(subs, prefix),
{
    lemma_subs_upto_shift(subs, prefix, subs.len() as int);
    assert(subs.take(subs.len() as int) =~= subs);
}

/// The first `j` listings are the listings of the first `j` folders.
proof fn lemma_subs_upto_shift(subs: Seq<FolderNode>, prefix: Seq<char>, j: int)
    requires
        0 <= j <= subs.len(),
    ensures
        subs_upto(subs, prefix, j) == spec_subs_text(subs.take(j), prefix),
    decreases j,
{
    if j == 0 {
        assert(subs.take(0) =~= Seq::<FolderNode>::empty());
    } else {
        lemma_subs_upto_shift(subs, prefix, j - 1);
        lemma_subs_text_snoc(subs.take(j - 1), subs[j - 1], prefix);
        assert(subs.take(j) =~= subs.take(j - 1).push(subs[j - 1]));
    }
}

/// Appending one folder appends its listing.
proof fn lemma_subs_text_snoc(subs: Seq<FolderNode>, x: FolderNode, prefix: Seq<char>)
    ensures
        spec_subs_text(subs.push(x), prefix) == spec_subs_text(subs, prefix) + spec_tree_text(
            x,
            prefix,
        ),
    decreases subs.len(),
{
    if subs.len() == 0 {
        assert(subs.push(x).first() == x);
        assert(subs.push(x).drop_first() =~= Seq::<FolderNode>::empty());
        assert(spec_subs_text(Seq::<FolderNode>::empty(), prefix) == Seq::<char>::empty());
        assert(spec_subs_text(subs.push(x), prefix) =~= spec_subs_text(subs, prefix)
            + spec_tree_text(x, prefix));
    } else {
        assert(subs.push(x).first() == subs.first());
        assert(subs.push(x).drop_first() =~= subs.drop_first().push(x));
        lemma_subs_text_snoc(subs.drop_first(), x, prefix);
        assert(spec_subs_text(subs.push(x), prefix) =~= spec_subs_text(subs, prefix)
            + spec_tree_text(x, prefix));
    }
}

/// Renders the full indented listing of a tree.
pub fn write_tree(folder: &FolderNode) -> (r: String)
    ensures
        r@ == spec_tree_text(*folder, Seq::<char>::empty()),
{
    let prefix: Vec<char> = Vec::new();
    let mut out: Vec<char> = Vec::new();
    tree_text_exec(folder, &prefix, &mut out);
    string_from_chars(&out)
}

/// The rendered summary block: total folders, total files, total size.
pub open spec fn spec_summary_text(s: Summary) -> Seq<char> {
    seq!['S', 'u', 'm', 'm', 'a', 'r', 'y', ':', '\n', '-', ' ', 'T', 'o', 't', 'a', 'l', ' ', 'f', 'o', 'l', 'd', 'e', 'r', 's', ':', ' ']
        + dec_rep(s.total_folders as nat)
        + seq!['\n', '-', ' ', 'T', 'o', 't', 'a', 'l', ' ', 'f', 'i', 'l', 'e', 's', ':', ' ']
        + dec_rep(s.total_files as nat)
        + seq!['\n', '-', ' ', 'T', 'o', 't', 'a', 'l', ' ', 's', 'i', 'z', 'e', ':', ' ']
        + spec_report_size(s.total_size) + seq!['\n']
}

/// Renders the summary block.
pub fn render_summary(s: &Summary) -> (r: String)
    ensures
        r@ == spec_summary_text(*s),
{
    let mut out: Vec<char> = Vec::new();
    let head = "Summary:\n- Total folders: ";
    proof {
        reveal_strlit("Summary:\n- Total folders: ");
    }
    push_str_chars(&mut out, head);
    let folders = crate::sizefmt::dec_rep_chars(s.total_folders);
    push_str_chars_vec(&mut out, &folders);
    let mid1 = "\n- Total files: ";
    proof {
        reveal_strlit("\n- Total files: ");
    }
    push_str_chars(&mut out, mid1);
    let files = crate::sizefmt::dec_rep_chars(s.total_files);
    push_str_chars_vec(&mut out, &files);
    let mid2 = "\n- Total size: ";
    proof {
        reveal_strlit("\n- Total size: ");
    }
    push_str_chars(&mut out, mid2);
    let formatted = format_size(s.total_size, 2, SizeUnit::Decimal, None);
    push_str_chars(&mut out, formatted.as_str());
    out.push('\n');
    proof {
        assert(out@ =~= spec_summary_text(*s));
    }
    string_from_chars(&out)
}

} // verus!
