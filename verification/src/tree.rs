//! The hierarchical size model of a directory tree and its builder.
//!
//! The builder consumes a `DirSnapshot` — a plain-value picture of a directory
//! as the surrounding program read it from disk — and produces a `FolderNode`
//! tree in which every folder carries the aggregate byte count of all the
//! files below it. Inclusion filters (media-extension allow-list, hidden
//! entries, OS bookkeeping files, trickplay sidecar folders) are applied
//! during the walk; a subdirectory that could not be read is skipped and
//! contributes nothing. A `Summary` of totals is accumulated during the same
//! walk, and a pre-pass `count_entries` computes the progress total under
//! exactly the same filtering decisions.

use vstd::prelude::*;

verus! {

use crate::progress::ProgressCounter;
use crate::text::{has_sub, has_suffix, spec_child_path, child_path, chars_of, has_sub_exec,
    has_suffix_exec, occurs_at_exec};

/// A file in the size model: its absolute path, display name and byte count.
pub struct FileNode {
    pub path: String,
    pub name: String,
    pub size: u64,
}

/// A folder in the size model, owning its files and subfolders by value.
pub struct FolderNode {
    pub path: String,
    pub name: String,
    pub size: u64,
    pub files: Vec<FileNode>,
    pub subfolders: Vec<FolderNode>,
}

/// Totals accumulated once during the walk.
pub struct Summary {
    pub total_files: u64,
    pub total_folders: u64,
    pub total_size: u64,
}

impl Default for Summary {
    /// An all-zero summary, ready to be fed to the walk.
    fn default() -> (s: Summary)
        ensures
            s.total_files == 0 && s.total_folders == 0 && s.total_size == 0,
    {
        Summary { total_files: 0, total_folders: 0, total_size: 0 }
    }
}

/// What the walk saw of one file: its name and its size from metadata.
/// A file whose metadata could not be read is left out of the snapshot.
pub struct FileMeta {
    pub name: String,
    pub size: u64,
}

/// What the walk saw of one directory. `readable` is false when the directory
/// listing itself failed; such a directory is skipped entirely.
pub struct DirSnapshot {
    pub name: String,
    pub readable: bool,
    pub files: Vec<FileMeta>,
    pub dirs: Vec<DirSnapshot>,
}

/// The inclusion filters applied during the walk.
#[derive(Clone, Copy)]
pub struct FilterConfig {
    /// When false, only files on the media-extension allow-list are kept.
    pub include_all_extensions: bool,
    /// When true, directories marked as trickplay sidecars are skipped.
    pub exclude_trickplay: bool,
    /// When true, entries whose name starts with `.` are skipped.
    pub skip_hidden: bool,
    /// When true, known OS bookkeeping files are skipped.
    pub skip_os_metadata: bool,
}

/// The marker that identifies a trickplay sidecar directory.
pub open spec fn trickplay_marker() -> Seq<char> {
    seq!['.', 't', 'r', 'i', 'c', 'k', 'p', 'l', 'a', 'y']
}

/// The OS bookkeeping file excluded by `skip_os_metadata`.
pub open spec fn os_metadata_name() -> Seq<char> {
    seq!['.', 'D', 'S', '_', 'S', 't', 'o', 'r', 'e']
}

/// A name is hidden when it starts with the hidden-file marker.
pub open spec fn spec_hidden(name: Seq<char>) -> bool {
    name.len() > 0 && name[0] == '.'
}

/// A name carries one of the allowed media extensions.
pub open spec fn spec_media_ext(name: Seq<char>) -> bool {
    ||| has_suffix(name, seq!['.', 'm', 'p', '4'])
    ||| has_suffix(name, seq!['.', 'm', 'k', 'v'])
    ||| has_suffix(name, seq!['.', 'a', 'v', 'i'])
}

/// Whether a file with this name is kept by the filters.
pub open spec fn spec_file_included(cfg: FilterConfig, name: Seq<char>) -> bool {
    &&& !(cfg.skip_os_metadata && name == os_metadata_name())
    &&& !(cfg.skip_hidden && spec_hidden(name))
    &&& (cfg.include_all_extensions || spec_media_ext(name))
}

/// Whether a directory is descended into: it must have been readable and its
/// name must pass the hidden and trickplay filters.
pub open spec fn spec_dir_included(cfg: FilterConfig, d: DirSnapshot) -> bool {
    &&& d.readable
    &&& !(cfg.skip_hidden && spec_hidden(d.name@))
    &&& !(cfg.exclude_trickplay && has_sub(d.name@, trickplay_marker()))
}

/// Total size of the included files of one directory level.
pub open spec fn files_size_sum(fs: Seq<FileMeta>, cfg: FilterConfig) -> int
    decreases fs.len(),
{
    if fs.len() == 0 {
        0
    } else {
        files_size_sum(fs.drop_last(), cfg) + if spec_file_included(cfg, fs.last().name@) {
            fs.last().size as int
        } else {
            0
        }
    }
}

/// Total aggregate size contributed by the included directories of one level.
pub open spec fn dirs_agg(ds: Seq<DirSnapshot>, cfg: FilterConfig) -> int
    decreases ds,
{
    if ds.len() == 0 {
        0
    } else {
        dirs_agg(ds.drop_last(), cfg) + if spec_dir_included(cfg, ds.last()) {
            spec_agg_size(ds.last(), cfg)
        } else {
            0
        }
    }
}

/// Aggregate byte count of everything the filters keep below `d`.
pub open spec fn spec_agg_size(d: DirSnapshot, cfg: FilterConfig) -> int
    decreases d,
{
    files_size_sum(d.files@, cfg) + dirs_agg(d.dirs@, cfg)
}

/// How many files of one level the filters keep.
pub open spec fn files_inc_count(fs: Seq<FileMeta>, cfg: FilterConfig) -> int
    decreases fs.len(),
{
    if fs.len() == 0 {
        0
    } else {
        files_inc_count(fs.drop_last(), cfg) + if spec_file_included(cfg, fs.last().name@) {
            1int
        } else {
            0int
        }
    }
}

/// How many files the filters keep below `d`, recursively.
pub open spec fn snap_file_count(d: DirSnapshot, cfg: FilterConfig) -> int
    decreases d,
{
    files_inc_count(d.files@, cfg) + dirs_file_count(d.dirs@, cfg)
}

/// Files kept below the included directories of one level.
pub open spec fn dirs_file_count(ds: Seq<DirSnapshot>, cfg: FilterConfig) -> int
    decreases ds,
{
    if ds.len() == 0 {
        0
    } else {
        dirs_file_count(ds.drop_last(), cfg) + if spec_dir_included(cfg, ds.last()) {
            snap_file_count(ds.last(), cfg)
        } else {
            0
        }
    }
}

/// How many directories the walk descends into below `d`, recursively.
pub open spec fn snap_folder_count(d: DirSnapshot, cfg: FilterConfig) -> int
    decreases d,
{
    dirs_folder_count(d.dirs@, cfg)
}

/// Directories descended into, for one level: each included directory counts
/// itself and everything it is descended into below it.
pub open spec fn dirs_folder_count(ds: Seq<DirSnapshot>, cfg: FilterConfig) -> int
    decreases ds,
{
    if ds.len() == 0 {
        0
    } else {
        dirs_folder_count(ds.drop_last(), cfg) + if spec_dir_included(cfg, ds.last()) {
            1 + snap_folder_count(ds.last(), cfg)
        } else {
            0
        }
    }
}

/// The progress pre-pass total: every included entry, file or directory,
/// under exactly the builder's filtering decisions.
pub open spec fn spec_entry_count(d: DirSnapshot, cfg: FilterConfig) -> int {
    snap_file_count(d, cfg) + snap_folder_count(d, cfg)
}

/// Sum of the sizes of a folder's own files.
pub open spec fn sum_file_sizes(files: Seq<FileNode>) -> int
    decreases files.len(),
{
    if files.len() == 0 {
        0
    } else {
        sum_file_sizes(files.drop_last()) + files.last().size as int
    }
}

/// Sum of the aggregate sizes of a folder's subfolders.
pub open spec fn sum_folder_sizes(subs: Seq<FolderNode>) -> int
    decreases subs.len(),
{
    if subs.len() == 0 {
        0
    } else {
        sum_folder_sizes(subs.drop_last()) + subs.last().size as int
    }
}

/// File-size sums over a folder's own files are never negative.
pub proof fn lemma_sum_file_sizes_nonneg(files: Seq<FileNode>)
    ensures
        sum_file_sizes(files) >= 0,
    decreases files.len(),
{
    if files.len() > 0 {
        lemma_sum_file_sizes_nonneg(files.drop_last());
    }
}

/// Subfolder-size sums are never negative.
pub proof fn lemma_sum_folder_sizes_nonneg(subs: Seq<FolderNode>)
    ensures
        sum_folder_sizes(subs) >= 0,
    decreases subs.len(),
{
    if subs.len() > 0 {
        lemma_sum_folder_sizes_nonneg(subs.drop_last());
    }
}

/// A prefix of a file list weighs at most the whole list.
pub proof fn lemma_sum_file_sizes_take(files: Seq<FileNode>, i: int)
    requires
        0 <= i <= files.len(),
    ensures
        sum_file_sizes(files.take(i)) <= sum_file_sizes(files),
    decreases files.len() - i,
{
    if i == files.len() {
        assert(files.take(i) =~= files);
    } else {
        lemma_sum_file_sizes_take(files, i + 1);
        assert(files.take(i + 1).drop_last() =~= files.take(i));
        assert(files.take(i + 1).last() == files[i]);
    }
}

/// A prefix of a folder list weighs at most the whole list.
pub proof fn lemma_sum_folder_sizes_take(subs: Seq<FolderNode>, i: int)
    requires
        0 <= i <= subs.len(),
    ensures
        sum_folder_sizes(subs.take(i)) <= sum_folder_sizes(subs),
    decreases subs.len() - i,
{
    if i == subs.len() {
        assert(subs.take(i) =~= subs);
    } else {
        lemma_sum_folder_sizes_take(subs, i + 1);
        assert(subs.take(i + 1).drop_last() =~= subs.take(i));
        assert(subs.take(i + 1).last() == subs[i]);
    }
}

/// The size invariant, for every folder of a tree: the aggregate equals the
/// sum of the folder's own file sizes plus its subfolders' aggregates.
pub open spec fn wf(f: FolderNode) -> bool
    decreases f,
{
    &&& f.size as int == sum_file_sizes(f.files@) + sum_folder_sizes(f.subfolders@)
    &&& wf_list(f.subfolders@)
}

/// The size invariant over a list of folders.
pub open spec fn wf_list(subs: Seq<FolderNode>) -> bool
    decreases subs,
{
    if subs.len() == 0 {
        true
    } else {
        wf(subs.last()) && wf_list(subs.drop_last())
    }
}

/// A file node is exactly what the builder makes of one kept file entry.
pub open spec fn file_node_matches(f: FileNode, path: Seq<char>, m: FileMeta) -> bool {
    &&& f.name@ == m.name@
    &&& f.path@ == spec_child_path(path, m.name@)
    &&& f.size == m.size
}

/// The folder's own file list is exactly the kept files of the snapshot
/// level, in order, each with its path, name and size.
pub open spec fn files_built(
    files: Seq<FileNode>,
    path: Seq<char>,
    fs: Seq<FileMeta>,
    cfg: FilterConfig,
) -> bool
    decreases fs.len(),
{
    if fs.len() == 0 {
        files.len() == 0
    } else if spec_file_included(cfg, fs.last().name@) {
        &&& files.len() > 0
        &&& file_node_matches(files.last(), path, fs.last())
        &&& files_built(files.drop_last(), path, fs.drop_last(), cfg)
    } else {
        files_built(files, path, fs.drop_last(), cfg)
    }
}

/// The subfolder list is exactly the kept directories of the snapshot level,
/// in order, each built from its own snapshot.
pub open spec fn subs_built(
    subs: Seq<FolderNode>,
    path: Seq<char>,
    ds: Seq<DirSnapshot>,
    cfg: FilterConfig,
) -> bool
    decreases ds,
{
    if ds.len() == 0 {
        subs.len() == 0
    } else if spec_dir_included(cfg, ds.last()) {
        &&& subs.len() > 0
        &&& built_from(subs.last(), spec_child_path(path, ds.last().name@), ds.last(), cfg)
        &&& subs_built(subs.drop_last(), path, ds.drop_last(), cfg)
    } else {
        subs_built(subs, path, ds.drop_last(), cfg)
    }
}

/// The tree `f` is exactly what the builder produces from the snapshot `d`
/// rooted at `path`: same name, kept children in order, aggregate size.
pub open spec fn built_from(f: FolderNode, path: Seq<char>, d: DirSnapshot, cfg: FilterConfig) -> bool
    decreases d,
{
    &&& f.path@ == path
    &&& f.name@ == d.name@
    &&& files_built(f.files@, path, d.files@, cfg)
    &&& subs_built(f.subfolders@, path, d.dirs@, cfg)
    &&& f.size as int == files_size_sum(d.files@, cfg) + dirs_agg(d.dirs@, cfg)
}

/// File-size sums over a level are never negative.
pub proof fn lemma_files_size_sum_nonneg(fs: Seq<FileMeta>, cfg: FilterConfig)
    ensures
        files_size_sum(fs, cfg) >= 0,
    decreases fs.len(),
{
    if fs.len() > 0 {
        lemma_files_size_sum_nonneg(fs.drop_last(), cfg);
    }
}

/// Aggregate sizes are never negative.
pub proof fn lemma_agg_size_nonneg(d: DirSnapshot, cfg: FilterConfig)
    ensures
        spec_agg_size(d, cfg) >= 0,
    decreases d,
{
    lemma_files_size_sum_nonneg(d.files@, cfg);
    lemma_dirs_agg_nonneg(d.dirs@, cfg);
}

/// Aggregate contributions of a level's directories are never negative.
pub proof fn lemma_dirs_agg_nonneg(ds: Seq<DirSnapshot>, cfg: FilterConfig)
    ensures
        dirs_agg(ds, cfg) >= 0,
    decreases ds,
{
    if ds.len() > 0 {
        lemma_dirs_agg_nonneg(ds.drop_last(), cfg);
        if spec_dir_included(cfg, ds.last()) {
            lemma_agg_size_nonneg(ds.last(), cfg);
        }
    }
}

/// Kept-file counts are never negative.
pub proof fn lemma_files_inc_count_nonneg(fs: Seq<FileMeta>, cfg: FilterConfig)
    ensures
        files_inc_count(fs, cfg) >= 0,
    decreases fs.len(),
{
    if fs.len() > 0 {
        lemma_files_inc_count_nonneg(fs.drop_last(), cfg);
    }
}

/// File counts below a directory are never negative.
pub proof fn lemma_snap_file_count_nonneg(d: DirSnapshot, cfg: FilterConfig)
    ensures
        snap_file_count(d, cfg) >= 0,
    decreases d,
{
    lemma_files_inc_count_nonneg(d.files@, cfg);
    lemma_dirs_file_count_nonneg(d.dirs@, cfg);
}

/// File counts below a level's directories are never negative.
pub proof fn lemma_dirs_file_count_nonneg(ds: Seq<DirSnapshot>, cfg: FilterConfig)
    ensures
        dirs_file_count(ds, cfg) >= 0,
    decreases ds,
{
    if ds.len() > 0 {
        lemma_dirs_file_count_nonneg(ds.drop_last(), cfg);
        if spec_dir_included(cfg, ds.last()) {
            lemma_snap_file_count_nonneg(ds.last(), cfg);
        }
    }
}

/// Folder counts below a directory are never negative.
pub proof fn lemma_snap_folder_count_nonneg(d: DirSnapshot, cfg: FilterConfig)
    ensures
        snap_folder_count(d, cfg) >= 0,
    decreases d,
{
    lemma_dirs_folder_count_nonneg(d.dirs@, cfg);
}

/// Folder counts below a level's directories are never negative.
pub proof fn lemma_dirs_folder_count_nonneg(ds: Seq<DirSnapshot>, cfg: FilterConfig)
    ensures
        dirs_folder_count(ds, cfg) >= 0,
    decreases ds,
{
    if ds.len() > 0 {
        lemma_dirs_folder_count_nonneg(ds.drop_last(), cfg);
        if spec_dir_included(cfg, ds.last()) {
            lemma_snap_folder_count_nonneg(ds.last(), cfg);
        }
    }
}

/// A prefix of a level contributes at most the whole level's file-size sum.
pub proof fn lemma_files_size_sum_take(fs: Seq<FileMeta>, cfg: FilterConfig, i: int)
    requires
        0 <= i <= fs.len(),
    ensures
        files_size_sum(fs.take(i), cfg) <= files_size_sum(fs, cfg),
    decreases fs.len() - i,
{
    if i == fs.len() {
        assert(fs.take(i) =~= fs);
    } else {
        lemma_files_size_sum_take(fs, cfg, i + 1);
        assert(fs.take(i + 1).drop_last() =~= fs.take(i));
        assert(fs.take(i + 1).last() == fs[i]);
    }
}

/// A prefix of a level contributes at most the whole level's kept-file count.
pub proof fn lemma_files_inc_count_take(fs: Seq<FileMeta>, cfg: FilterConfig, i: int)
    requires
        0 <= i <= fs.len(),
    ensures
        files_inc_count(fs.take(i), cfg) <= files_inc_count(fs, cfg),
    decreases fs.len() - i,
{
    if i == fs.len() {
        assert(fs.take(i) =~= fs);
    } else {
        lemma_files_inc_count_take(fs, cfg, i + 1);
        assert(fs.take(i + 1).drop_last() =~= fs.take(i));
        assert(fs.take(i + 1).last() == fs[i]);
    }
}

/// A prefix of a level contributes at most the whole level's aggregate.
pub proof fn lemma_dirs_agg_take(ds: Seq<DirSnapshot>, cfg: FilterConfig, i: int)
    requires
        0 <= i <= ds.len(),
    ensures
        dirs_agg(ds.take(i), cfg) <= dirs_agg(ds, cfg),
    decreases ds.len() - i,
{
    if i == ds.len() {
        assert(ds.take(i) =~= ds);
    } else {
        lemma_dirs_agg_take(ds, cfg, i + 1);
        assert(ds.take(i + 1).drop_last() =~= ds.take(i));
        assert(ds.take(i + 1).last() == ds[i]);
        if spec_dir_included(cfg, ds[i]) {
            lemma_agg_size_nonneg(ds[i], cfg);
        }
    }
}

/// A prefix of a level contributes at most the whole level's file count.
pub proof fn lemma_dirs_file_count_take(ds: Seq<DirSnapshot>, cfg: FilterConfig, i: int)
    requires
        0 <= i <= ds.len(),
    ensures
        dirs_file_count(ds.take(i), cfg) <= dirs_file_count(ds, cfg),
    decreases ds.len() - i,
{
    if i == ds.len() {
        assert(ds.take(i) =~= ds);
    } else {
        lemma_dirs_file_count_take(ds, cfg, i + 1);
        assert(ds.take(i + 1).drop_last() =~= ds.take(i));
        assert(ds.take(i + 1).last() == ds[i]);
        if spec_dir_included(cfg, ds[i]) {
            lemma_snap_file_count_nonneg(ds[i], cfg);
        }
    }
}

/// A prefix of a level contributes at most the whole level's folder count.
pub proof fn lemma_dirs_folder_count_take(ds: Seq<DirSnapshot>, cfg: FilterConfig, i: int)
    requires
        0 <= i <= ds.len(),
    ensures
        dirs_folder_count(ds.take(i), cfg) <= dirs_folder_count(ds, cfg),
    decreases ds.len() - i,
{
    if i == ds.len() {
        assert(ds.take(i) =~= ds);
    } else {
        lemma_dirs_folder_count_take(ds, cfg, i + 1);
        assert(ds.take(i + 1).drop_last() =~= ds.take(i));
        assert(ds.take(i + 1).last() == ds[i]);
        if spec_dir_included(cfg, ds[i]) {
            lemma_snap_folder_count_nonneg(ds[i], cfg);
        }
    }
}

/// Every member of a well-formed list is well-formed.
pub proof fn lemma_wf_list_index(subs: Seq<FolderNode>, i: int)
    requires
        wf_list(subs),
        0 <= i < subs.len(),
    ensures
        wf(subs[i]),
    decreases subs.len(),
{
    if i == subs.len() - 1 {
        assert(subs[i] == subs.last());
    } else {
        lemma_wf_list_index(subs.drop_last(), i);
        assert(subs.drop_last()[i] == subs[i]);
    }
}

/// How many files a built tree holds, at every depth.
pub open spec fn tree_file_count(f: FolderNode) -> int
    decreases f,
{
    f.files@.len() + subs_file_count(f.subfolders@)
}

/// Files held below a list of folders.
pub open spec fn subs_file_count(subs: Seq<FolderNode>) -> int
    decreases subs,
{
    if subs.len() == 0 {
        0
    } else {
        subs_file_count(subs.drop_last()) + tree_file_count(subs.last())
    }
}

/// How many folders a tree holds below its root, at every depth.
pub open spec fn tree_folder_count(f: FolderNode) -> int
    decreases f,
{
    subs_folder_count(f.subfolders@)
}

/// Folders held in and below a list of folders.
pub open spec fn subs_folder_count(subs: Seq<FolderNode>) -> int
    decreases subs,
{
    if subs.len() == 0 {
        0
    } else {
        subs_folder_count(subs.drop_last()) + 1 + tree_folder_count(subs.last())
    }
}

/// Two file lists agree on every path, name and size.
pub open spec fn file_nodes_equal(x: Seq<FileNode>, y: Seq<FileNode>) -> bool {
    &&& x.len() == y.len()
    &&& forall|i: int|
        0 <= i < x.len() ==> (#[trigger] x[i]).path@ == y[i].path@ && x[i].name@ == y[i].name@
            && x[i].size == y[i].size
}

/// Structural equality of trees: same paths, names and sizes everywhere.
pub open spec fn tree_equal(a: FolderNode, b: FolderNode) -> bool
    decreases a,
{
    &&& a.path@ == b.path@
    &&& a.name@ == b.name@
    &&& a.size == b.size
    &&& file_nodes_equal(a.files@, b.files@)
    &&& folder_lists_equal(a.subfolders@, b.subfolders@)
}

/// Structural equality of folder lists.
pub open spec fn folder_lists_equal(x: Seq<FolderNode>, y: Seq<FolderNode>) -> bool
    decreases x,
{
    if x.len() == 0 {
        y.len() == 0
    } else {
        y.len() == x.len() && tree_equal(x.last(), y.last()) && folder_lists_equal(
            x.drop_last(),
            y.drop_last(),
        )
    }
}

/// A built file list carries exactly the kept sizes and the kept count.
pub proof fn lemma_files_built_sums(
    files: Seq<FileNode>,
    path: Seq<char>,
    fs: Seq<FileMeta>,
    cfg: FilterConfig,
)
    requires
        files_built(files, path, fs, cfg),
    ensures
        sum_file_sizes(files) == files_size_sum(fs, cfg),
        files.len() == files_inc_count(fs, cfg),
    decreases fs.len(),
{
    if fs.len() == 0 {
    } else if spec_file_included(cfg, fs.last().name@) {
        lemma_files_built_sums(files.drop_last(), path, fs.drop_last(), cfg);
    } else {
        lemma_files_built_sums(files, path, fs.drop_last(), cfg);
    }
}

/// Every tree the builder returns satisfies the size invariant, and its
/// file and folder counts equal the snapshot's kept counts: the summary
/// accumulated during the walk is thereby validated against the tree.
pub proof fn lemma_built_wf(f: FolderNode, path: Seq<char>, d: DirSnapshot, cfg: FilterConfig)
    requires
        built_from(f, path, d, cfg),
    ensures
        wf(f),
        f.size as int == spec_agg_size(d, cfg),
        tree_file_count(f) == snap_file_count(d, cfg),
        tree_folder_count(f) == snap_folder_count(d, cfg),
    decreases d,
{
    lemma_files_built_sums(f.files@, path, d.files@, cfg);
    lemma_subs_built_wf(f.subfolders@, path, d.dirs@, cfg);
}

/// The list form of `lemma_built_wf`, over one level of subdirectories.
pub proof fn lemma_subs_built_wf(
    subs: Seq<FolderNode>,
    path: Seq<char>,
    ds: Seq<DirSnapshot>,
    cfg: FilterConfig,
)
    requires
        subs_built(subs, path, ds, cfg),
    ensures
        wf_list(subs),
        sum_folder_sizes(subs) == dirs_agg(ds, cfg),
        subs_file_count(subs) == dirs_file_count(ds, cfg),
        subs_folder_count(subs) == dirs_folder_count(ds, cfg),
    decreases ds,
{
    if ds.len() == 0 {
    } else if spec_dir_included(cfg, ds.last()) {
        lemma_built_wf(subs.last(), spec_child_path(path, ds.last().name@), ds.last(), cfg);
        lemma_subs_built_wf(subs.drop_last(), path, ds.drop_last(), cfg);
    } else {
        lemma_subs_built_wf(subs, path, ds.drop_last(), cfg);
    }
}

/// Building twice over an unchanged snapshot is deterministic: any two trees
/// built from the same snapshot at the same root are structurally equal.
pub proof fn lemma_build_deterministic(
    a: FolderNode,
    b: FolderNode,
    path: Seq<char>,
    d: DirSnapshot,
    cfg: FilterConfig,
)
    requires
        built_from(a, path, d, cfg),
        built_from(b, path, d, cfg),
    ensures
        tree_equal(a, b),
    decreases d,
{
    lemma_files_built_unique(a.files@, b.files@, path, d.files@, cfg);
    lemma_subs_built_unique(a.subfolders@, b.subfolders@, path, d.dirs@, cfg);
}

/// Two file lists built from the same level are equal entry by entry.
pub proof fn lemma_files_built_unique(
    x: Seq<FileNode>,
    y: Seq<FileNode>,
    path: Seq<char>,
    fs: Seq<FileMeta>,
    cfg: FilterConfig,
)
    requires
        files_built(x, path, fs, cfg),
        files_built(y, path, fs, cfg),
    ensures
        file_nodes_equal(x, y),
    decreases fs.len(),
{
    if fs.len() == 0 {
    } else if spec_file_included(cfg, fs.last().name@) {
        lemma_files_built_unique(x.drop_last(), y.drop_last(), path, fs.drop_last(), cfg);
        assert forall|i: int| 0 <= i < x.len() implies (#[trigger] x[i]).path@ == y[i].path@
            && x[i].name@ == y[i].name@ && x[i].size == y[i].size by {
            if i < x.len() - 1 {
                assert(x.drop_last()[i] == x[i]);
                assert(y.drop_last()[i] == y[i]);
            }
        }
    } else {
        lemma_files_built_unique(x, y, path, fs.drop_last(), cfg);
    }
}

/// Two folder lists built from the same level are structurally equal.
pub proof fn lemma_subs_built_unique(
    x: Seq<FolderNode>,
    y: Seq<FolderNode>,
    path: Seq<char>,
    ds: Seq<DirSnapshot>,
    cfg: FilterConfig,
)
    requires
        subs_built(x, path, ds, cfg),
        subs_built(y, path, ds, cfg),
    ensures
        folder_lists_equal(x, y),
    decreases ds,
{
    if ds.len() == 0 {
    } else if spec_dir_included(cfg, ds.last()) {
        lemma_build_deterministic(
            x.last(),
            y.last(),
            spec_child_path(path, ds.last().name@),
            ds.last(),
            cfg,
        );
        lemma_subs_built_unique(x.drop_last(), y.drop_last(), path, ds.drop_last(), cfg);
    } else {
        lemma_subs_built_unique(x, y, path, ds.drop_last(), cfg);
    }
}

/// The pre-pass total is an upper bound on the folder-visit events of the
/// main walk: progress driven by it can only end at or under the total.
pub proof fn lemma_entry_count_bounds_folder_visits(d: DirSnapshot, cfg: FilterConfig)
    ensures
        snap_folder_count(d, cfg) <= spec_entry_count(d, cfg),
{
    lemma_snap_file_count_nonneg(d, cfg);
}

/// The error of the builder: only the root itself failing to read is fatal.
#[derive(Debug, Clone, Copy, PartialEq, Eq, Structural)]
pub enum TreeError {
    RootUnreadable,
}

/// Whether the filters keep a file with this name.
pub fn file_included(cfg: &FilterConfig, name: &str) -> (r: bool)
    ensures
        r == spec_file_included(*cfg, name@),
{
    let v = chars_of(name);
    if cfg.skip_os_metadata {
        let pat = chars_of(".DS_Store");
        proof {
            reveal_strlit(".DS_Store");
            assert(pat@ =~= os_metadata_name());
        }
        if v.len() == pat.len() {
            if occurs_at_exec(&v, &pat, 0) {
                proof {
                    assert(name@ =~= os_metadata_name());
                }
                return false;
            }
        }
        proof {
            if name@ == os_metadata_name() {
                assert(v@.len() == pat@.len());
                assert(crate::text::occurs_at(v@, pat@, 0));
            }
        }
    }
    if cfg.skip_hidden && v.len() > 0 {
        if v[0] == '.' {
            return false;
        }
    }
    if cfg.include_all_extensions {
        return true;
    }
    let p_mp4 = chars_of(".mp4");
    let p_mkv = chars_of(".mkv");
    let p_avi = chars_of(".avi");
    proof {
        reveal_strlit(".mp4");
        reveal_strlit(".mkv");
        reveal_strlit(".avi");
        assert(p_mp4@ =~= seq!['.', 'm', 'p', '4']);
        assert(p_mkv@ =~= seq!['.', 'm', 'k', 'v']);
        assert(p_avi@ =~= seq!['.', 'a', 'v', 'i']);
    }
    if has_suffix_exec(&v, &p_mp4) {
        return true;
    }
    if has_suffix_exec(&v, &p_mkv) {
        return true;
    }
    if has_suffix_exec(&v, &p_avi) {
        return true;
    }
    false
}

/// Whether the walk descends into this directory.
pub fn dir_included(cfg: &FilterConfig, d: &DirSnapshot) -> (r: bool)
    ensures
        r == spec_dir_included(*cfg, *d),
{
    if !d.readable {
        return false;
    }
    let v = chars_of(d.name.as_str());
    if cfg.skip_hidden && v.len() > 0 {
        if v[0] == '.' {
            return false;
        }
    }
    if cfg.exclude_trickplay {
        let pat = chars_of(".trickplay");
        proof {
            reveal_strlit(".trickplay");
            assert(pat@ =~= trickplay_marker());
        }
        if has_sub_exec(&v, &pat) {
            return false;
        }
    }
    true
}

/// The progress pre-pass: how many entries — files and directories — the
/// walk will keep below `d`, under exactly the walk's own filter decisions.
pub fn count_entries(d: &DirSnapshot, cfg: &FilterConfig) -> (count: u64)
    requires
        spec_entry_count(*d, *cfg) <= u64::MAX,
    ensures
        count as int == spec_entry_count(*d, *cfg),
    decreases *d,
{
    proof {
        lemma_snap_file_count_nonneg(*d, *cfg);
        lemma_snap_folder_count_nonneg(*d, *cfg);
    }
    let mut count: u64 = 0;
    let nfiles = d.files.len();
    let mut i: usize = 0;
    while i < nfiles
        invariant
            nfiles == d.files@.len(),
            i <= nfiles,
            count as int == files_inc_count(d.files@.take(i as int), *cfg),
            files_inc_count(d.files@, *cfg) + dirs_file_count(d.dirs@, *cfg)
                + dirs_folder_count(d.dirs@, *cfg) <= u64::MAX,
        decreases nfiles - i,
    {
        proof {
            assert(d.files@.take(i + 1).drop_last() =~= d.files@.take(i as int));
            assert(d.files@.take(i + 1).last() == d.files@[i as int]);
            lemma_files_inc_count_take(d.files@, *cfg, i + 1);
            lemma_dirs_file_count_nonneg(d.dirs@, *cfg);
            lemma_dirs_folder_count_nonneg(d.dirs@, *cfg);
        }
        if file_included(cfg, d.files[i].name.as_str()) {
            count = count + 1;
        }
        i = i + 1;
    }
    proof {
        assert(d.files@.take(nfiles as int) =~= d.files@);
        lemma_files_inc_count_nonneg(d.files@, *cfg);
    }
    let ndirs = d.dirs.len();
    let mut j: usize = 0;
    while j < ndirs
        invariant
            ndirs == d.dirs@.len(),
            j <= ndirs,
            count as int == files_inc_count(d.files@, *cfg)
                + dirs_file_count(d.dirs@.take(j as int), *cfg)
                + dirs_folder_count(d.dirs@.take(j as int), *cfg),
            files_inc_count(d.files@, *cfg) + dirs_file_count(d.dirs@, *cfg)
                + dirs_folder_count(d.dirs@, *cfg) <= u64::MAX,
            files_inc_count(d.files@, *cfg) >= 0,
        decreases ndirs - j,
    {
        proof {
            assert(d.dirs@.take(j + 1).drop_last() =~= d.dirs@.take(j as int));
            assert(d.dirs@.take(j + 1).last() == d.dirs@[j as int]);
            lemma_dirs_file_count_take(d.dirs@, *cfg, j + 1);
            lemma_dirs_folder_count_take(d.dirs@, *cfg, j + 1);
            lemma_dirs_file_count_nonneg(d.dirs@.take(j as int), *cfg);
            lemma_dirs_folder_count_nonneg(d.dirs@.take(j as int), *cfg);
            lemma_dirs_file_count_nonneg(d.dirs@.take(j + 1), *cfg);
            lemma_dirs_folder_count_nonneg(d.dirs@.take(j + 1), *cfg);
        }
        let sub = &d.dirs[j];
        if dir_included(cfg, sub) {
            proof {
                lemma_snap_file_count_nonneg(d.dirs@[j as int], *cfg);
                lemma_snap_folder_count_nonneg(d.dirs@[j as int], *cfg);
            }
            let below = count_entries(sub, cfg);
            count = count + 1;
            count = count + below;
        }
        j = j + 1;
    }
    proof {
        assert(d.dirs@.take(ndirs as int) =~= d.dirs@);
    }
    count
}

/// Builds the size model of the directory pictured by `d`, rooted at `path`,
/// applying the filters, and accumulates the walk's totals and progress.
///
/// The result is pinned exactly by `built_from`; the summary grows by the
/// tree's own file count, folder count (the root itself not counted) and
/// aggregate size; progress advances once per directory descended into.
pub fn visit_dirs(
    d: &DirSnapshot,
    path: &str,
    cfg: &FilterConfig,
    summary: &mut Summary,
    progress: &mut ProgressCounter,
) -> (r: Result<FolderNode, TreeError>)
    requires
        old(summary).total_size + spec_agg_size(*d, *cfg) <= u64::MAX,
        old(summary).total_files + snap_file_count(*d, *cfg) <= u64::MAX,
        old(summary).total_folders + snap_folder_count(*d, *cfg) <= u64::MAX,
        old(progress).pos + snap_folder_count(*d, *cfg) <= u64::MAX,
    ensures
        r is Ok <==> d.readable,
        d.readable ==> built_from(r->Ok_0, path@, *d, *cfg),
        d.readable ==> final(summary).total_size == old(summary).total_size + spec_agg_size(
            *d,
            *cfg,
        ),
        d.readable ==> final(summary).total_files == old(summary).total_files + snap_file_count(
            *d,
            *cfg,
        ),
        d.readable ==> final(summary).total_folders == old(summary).total_folders
            + snap_folder_count(*d, *cfg),
        d.readable ==> final(progress).pos == old(progress).pos + snap_folder_count(*d, *cfg),
        !d.readable ==> *final(summary) == *old(summary),
        !d.readable ==> *final(progress) == *old(progress),
        final(progress).total == old(progress).total,
    decreases *d,
{
    if !d.readable {
        return Err(TreeError::RootUnreadable);
    }
    proof {
        lemma_files_size_sum_nonneg(d.files@, *cfg);
        lemma_dirs_agg_nonneg(d.dirs@, *cfg);
        lemma_files_inc_count_nonneg(d.files@, *cfg);
        lemma_dirs_file_count_nonneg(d.dirs@, *cfg);
        lemma_dirs_folder_count_nonneg(d.dirs@, *cfg);
    }
    let mut folder = FolderNode {
        path: path.to_owned(),
        name: d.name.clone(),
        size: 0,
        files: Vec::new(),
        subfolders: Vec::new(),
    };
    let nfiles = d.files.len();
    let mut i: usize = 0;
    while i < nfiles
        invariant
            nfiles == d.files@.len(),
            i <= nfiles,
            folder.path@ == path@,
            folder.name@ == d.name@,
            folder.subfolders@.len() == 0,
            files_built(folder.files@, path@, d.files@.take(i as int), *cfg),
            folder.size as int == files_size_sum(d.files@.take(i as int), *cfg),
            summary.total_size == old(summary).total_size + folder.size,
            summary.total_files as int == old(summary).total_files + files_inc_count(
                d.files@.take(i as int),
                *cfg,
            ),
            summary.total_folders == old(summary).total_folders,
            *progress == *old(progress),
            old(summary).total_size + files_size_sum(d.files@, *cfg) + dirs_agg(d.dirs@, *cfg)
                <= u64::MAX,
            old(summary).total_files + files_inc_count(d.files@, *cfg) + dirs_file_count(
                d.dirs@,
                *cfg,
            ) <= u64::MAX,
            dirs_agg(d.dirs@, *cfg) >= 0,
            dirs_file_count(d.dirs@, *cfg) >= 0,
        decreases nfiles - i,
    {
        proof {
            assert(d.files@.take(i + 1).drop_last() =~= d.files@.take(i as int));
            assert(d.files@.take(i + 1).last() == d.files@[i as int]);
            lemma_files_size_sum_take(d.files@, *cfg, i + 1);
            lemma_files_inc_count_take(d.files@, *cfg, i + 1);
            lemma_files_size_sum_nonneg(d.files@.take(i as int), *cfg);
            lemma_files_inc_count_nonneg(d.files@.take(i as int), *cfg);
        }
        let fm = &d.files[i];
        let ghost prev_files = folder.files@;
        if file_included(cfg, fm.name.as_str()) {
            let fpath = child_path(path, fm.name.as_str());
            folder.size = folder.size + fm.size;
            folder.files.push(FileNode { path: fpath, name: fm.name.clone(), size: fm.size });
            summary.total_files = summary.total_files + 1;
            summary.total_size = summary.total_size + fm.size;
            proof {
                assert(folder.files@.drop_last() =~= prev_files);
                assert(file_node_matches(folder.files@.last(), path@, d.files@[i as int]));
                assert(files_built(folder.files@, path@, d.files@.take(i + 1), *cfg));
            }
        } else {
            proof {
                assert(files_built(folder.files@, path@, d.files@.take(i + 1), *cfg));
            }
        }
        i = i + 1;
    }
    proof {
        assert(d.files@.take(nfiles as int) =~= d.files@);
    }
    let ndirs = d.dirs.len();
    let mut j: usize = 0;
    while j < ndirs
        invariant
            ndirs == d.dirs@.len(),
            j <= ndirs,
            folder.path@ == path@,
            folder.name@ == d.name@,
            files_built(folder.files@, path@, d.files@, *cfg),
            subs_built(folder.subfolders@, path@, d.dirs@.take(j as int), *cfg),
            folder.size as int == files_size_sum(d.files@, *cfg) + dirs_agg(
                d.dirs@.take(j as int),
                *cfg,
            ),
            summary.total_size as int == old(summary).total_size + folder.size,
            summary.total_files as int == old(summary).total_files + files_inc_count(
                d.files@,
                *cfg,
            ) + dirs_file_count(d.dirs@.take(j as int), *cfg),
            summary.total_folders as int == old(summary).total_folders + dirs_folder_count(
                d.dirs@.take(j as int),
                *cfg,
            ),
            progress.pos as int == old(progress).pos + dirs_folder_count(
                d.dirs@.take(j as int),
                *cfg,
            ),
            progress.total == old(progress).total,
            old(summary).total_size + files_size_sum(d.files@, *cfg) + dirs_agg(d.dirs@, *cfg)
                <= u64::MAX,
            old(summary).total_files + files_inc_count(d.files@, *cfg) + dirs_file_count(
                d.dirs@,
                *cfg,
            ) <= u64::MAX,
            old(summary).total_folders + dirs_folder_count(d.dirs@, *cfg) <= u64::MAX,
            old(progress).pos + dirs_folder_count(d.dirs@, *cfg) <= u64::MAX,
            files_size_sum(d.files@, *cfg) >= 0,
            files_inc_count(d.files@, *cfg) >= 0,
        decreases ndirs - j,
    {
        proof {
            assert(d.dirs@.take(j + 1).drop_last() =~= d.dirs@.take(j as int));
            assert(d.dirs@.take(j + 1).last() == d.dirs@[j as int]);
            lemma_dirs_agg_take(d.dirs@, *cfg, j + 1);
            lemma_dirs_file_count_take(d.dirs@, *cfg, j + 1);
            lemma_dirs_folder_count_take(d.dirs@, *cfg, j + 1);
            lemma_dirs_agg_nonneg(d.dirs@.take(j as int), *cfg);
            lemma_dirs_file_count_nonneg(d.dirs@.take(j as int), *cfg);
            lemma_dirs_folder_count_nonneg(d.dirs@.take(j as int), *cfg);
        }
        let sub = &d.dirs[j];
        if dir_included(cfg, sub) {
            proof {
                lemma_agg_size_nonneg(d.dirs@[j as int], *cfg);
                lemma_snap_file_count_nonneg(d.dirs@[j as int], *cfg);
                lemma_snap_folder_count_nonneg(d.dirs@[j as int], *cfg);
            }
            progress.inc();
            summary.total_folders = summary.total_folders + 1;
            let spath = child_path(path, sub.name.as_str());
            let res = visit_dirs(sub, spath.as_str(), cfg, summary, progress);
            let ghost prev_subs = folder.subfolders@;
            match res {
                Ok(subfolder) => {
                    folder.size = folder.size + subfolder.size;
                    folder.subfolders.push(subfolder);
                    proof {
                        assert(folder.subfolders@.drop_last() =~= prev_subs);
                        assert(built_from(
                            folder.subfolders@.last(),
                            spec_child_path(path@, d.dirs@[j as int].name@),
                            d.dirs@[j as int],
                            *cfg,
                        ));
                        assert(subs_built(folder.subfolders@, path@, d.dirs@.take(j + 1), *cfg));
                    }
                },
                Err(_) => {
                    proof {
                        assert(false);
                    }
                },
            }
        } else {
            proof {
                assert(subs_built(folder.subfolders@, path@, d.dirs@.take(j + 1), *cfg));
            }
        }
        j = j + 1;
    }
    proof {
        assert(d.dirs@.take(ndirs as int) =~= d.dirs@);
    }
    Ok(folder)
}

} // verus!
