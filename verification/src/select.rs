//! The interactive selection engine.
//!
//! The engine holds a working copy of the built tree together with a set of
//! selected paths and a staging list of confirmed deletions. A folder's
//! selection state is derived, never stored: it is fully selected when its
//! own path and every descendant path is in the set, partially selected when
//! some but not all are, and unselected otherwise. Confirmation moves the
//! selected paths into the staging list; reconciliation prunes every staged
//! path from the working tree, recomputes aggregate sizes bottom-up, and
//! clears both sets.

use vstd::prelude::*;

verus! {

use crate::text::str_eq;
use crate::tree::{FolderNode, FileNode, wf, wf_list, sum_file_sizes, sum_folder_sizes,
    lemma_wf_list_index, lemma_sum_folder_sizes_nonneg, lemma_sum_file_sizes_take,
    lemma_sum_folder_sizes_take};

/// A set of absolute paths marked for deletion, file or folder alike.
pub struct SelectionSet {
    pub paths: Vec<String>,
}

impl SelectionSet {
    /// Membership of a path, by characters.
    pub open spec fn spec_contains(self, p: Seq<char>) -> bool {
        exists|i: int| 0 <= i < self.paths@.len() && self.paths@[i]@ == p
    }

    /// No path is stored twice.
    pub open spec fn inv(self) -> bool {
        forall|i: int, j: int|
            0 <= i < j < self.paths@.len() ==> (#[trigger] self.paths@[i])@ != (
            #[trigger] self.paths@[j])@
    }

    /// An empty selection.
    pub fn new() -> (s: SelectionSet)
        ensures
            s.inv(),
            forall|q: Seq<char>| !s.spec_contains(q),
            s.paths@.len() == 0,
    {
        SelectionSet { paths: Vec::new() }
    }

    /// How many paths are selected.
    pub fn len(&self) -> (n: usize)
        ensures
            n == self.paths@.len(),
    {
        self.paths.len()
    }

    /// Whether nothing is selected.
    pub fn is_empty(&self) -> (r: bool)
        ensures
            r == (self.paths@.len() == 0),
            r == forall|q: Seq<char>| !self.spec_contains(q),
    {
        let r = self.paths.len() == 0;
        proof {
            if self.paths@.len() > 0 {
                assert(self.spec_contains(self.paths@[0]@));
            }
        }
        r
    }

    /// Whether `p` is selected.
    pub fn contains(&self, p: &str) -> (r: bool)
        ensures
            r == self.spec_contains(p@),
    {
        let n = self.paths.len();
        let mut i: usize = 0;
        while i < n
            invariant
                n == self.paths@.len(),
                i <= n,
                forall|j: int| 0 <= j < i ==> (#[trigger] self.paths@[j])@ != p@,
            decreases n - i,
        {
            if str_eq(self.paths[i].as_str(), p) {
                return true;
            }
            i = i + 1;
        }
        false
    }

    /// Adds `p` to the selection; already-selected paths stay single.
    pub fn insert(&mut self, p: &str)
        requires
            old(self).inv(),
        ensures
            final(self).inv(),
            forall|q: Seq<char>|
                #![trigger final(self).spec_contains(q)]
                #![trigger old(self).spec_contains(q)]
                final(self).spec_contains(q) <==> (old(self).spec_contains(q) || q == p@),
    {
        if !self.contains(p) {
            let ghost prev = self.paths@;
            self.paths.push(p.to_owned());
            proof {
                assert forall|q: Seq<char>|
                    final(self).spec_contains(q) <==> (old(self).spec_contains(q) || q
                        == p@) by {
                    if final(self).spec_contains(q) {
                        let i = choose|i: int|
                            0 <= i < self.paths@.len() && self.paths@[i]@ == q;
                        if i < prev.len() {
                            assert(old(self).spec_contains(q));
                        }
                    }
                    if old(self).spec_contains(q) {
                        let i = choose|i: int| 0 <= i < prev.len() && prev[i]@ == q;
                        assert(self.paths@[i]@ == q);
                    }
                    if q == p@ {
                        assert(self.paths@[prev.len() as int]@ == q);
                    }
                }
            }
        }
    }

    /// Removes `p` from the selection, if present.
    pub fn remove(&mut self, p: &str)
        requires
            old(self).inv(),
        ensures
            final(self).inv(),
            forall|q: Seq<char>|
                #![trigger final(self).spec_contains(q)]
                #![trigger old(self).spec_contains(q)]
                final(self).spec_contains(q) <==> (old(self).spec_contains(q) && q != p@),
    {
        let n = self.paths.len();
        let mut i: usize = 0;
        while i < n
            invariant
                old(self).inv(),
                *self == *old(self),
                n == self.paths@.len(),
                i <= n,
                forall|j: int| 0 <= j < i ==> (#[trigger] self.paths@[j])@ != p@,
            decreases n - i,
        {
            if str_eq(self.paths[i].as_str(), p) {
                let ghost prev = self.paths@;
                self.paths.remove(i);
                proof {
                    assert(self.paths@ =~= prev.remove(i as int));
                    assert forall|q: Seq<char>|
                        final(self).spec_contains(q) <==> (old(self).spec_contains(q) && q
                            != p@) by {
                        if final(self).spec_contains(q) {
                            let k = choose|k: int|
                                0 <= k < self.paths@.len() && self.paths@[k]@ == q;
                            if k < i {
                                assert(prev[k]@ == q);
                            } else {
                                assert(prev[k + 1]@ == q);
                            }
                        }
                        if old(self).spec_contains(q) && q != p@ {
                            let k = choose|k: int| 0 <= k < prev.len() && prev[k]@ == q;
                            if k < i {
                                assert(self.paths@[k]@ == q);
                            } else {
                                assert(prev[i as int]@ == p@);
                                assert(k != i);
                                assert(self.paths@[k - 1]@ == q);
                            }
                        }
                    }
                }
                return ;
            }
            i = i + 1;
        }
        proof {
            assert forall|q: Seq<char>|
                final(self).spec_contains(q) <==> (old(self).spec_contains(q) && q != p@) by {
                if old(self).spec_contains(q) && q == p@ {
                    let k = choose|k: int| 0 <= k < self.paths@.len() && self.paths@[k]@ == q;
                    assert(false);
                }
            }
        }
    }

    /// Empties the selection.
    pub fn clear(&mut self)
        ensures
            final(self).inv(),
            final(self).paths@.len() == 0,
            forall|q: Seq<char>| !final(self).spec_contains(q),
    {
        self.paths = Vec::new();
    }
}

/// Whether `p` is the path of some file of this list.
pub open spec fn in_file_list(files: Seq<FileNode>, p: Seq<char>) -> bool {
    exists|i: int| 0 <= i < files.len() && (#[trigger] files[i]).path@ == p
}

/// Whether `p` is the path of this folder or of any descendant.
pub open spec fn in_tree(f: FolderNode, p: Seq<char>) -> bool
    decreases f,
{
    ||| f.path@ == p
    ||| in_file_list(f.files@, p)
    ||| exists|i: int| 0 <= i < f.subfolders@.len() && in_tree(#[trigger] f.subfolders@[i], p)
}

/// The folder, all its files and all its descendants are selected.
pub open spec fn all_selected(sel: SelectionSet, f: FolderNode) -> bool
    decreases f,
{
    &&& sel.spec_contains(f.path@)
    &&& forall|i: int|
        0 <= i < f.files@.len() ==> sel.spec_contains((#[trigger] f.files@[i]).path@)
    &&& forall|i: int|
        0 <= i < f.subfolders@.len() ==> all_selected(sel, #[trigger] f.subfolders@[i])
}

/// The folder itself, one of its files, or anything below is selected.
pub open spec fn any_selected(sel: SelectionSet, f: FolderNode) -> bool
    decreases f,
{
    ||| sel.spec_contains(f.path@)
    ||| exists|i: int|
        0 <= i < f.files@.len() && sel.spec_contains((#[trigger] f.files@[i]).path@)
    ||| exists|i: int|
        0 <= i < f.subfolders@.len() && any_selected(sel, #[trigger] f.subfolders@[i])
}

/// The derived tri-state of a folder row.
#[derive(Debug, Clone, Copy, PartialEq, Eq, Structural)]
pub enum SelState {
    Unselected,
    PartiallySelected,
    FullySelected,
}

/// The interactive viewer state: the working tree, the selection, the staged
/// deletions, and whether a confirmation dialog is pending.
pub struct JsonViewerApp {
    pub root_folder: FolderNode,
    pub pending_deletions: Vec<String>,
    pub selected_files: SelectionSet,
    pub confirm_deletion: bool,
}

impl JsonViewerApp {
    /// The engine's invariant: the working tree satisfies the size invariant
    /// and the selection holds no duplicates.
    pub open spec fn inv(self) -> bool {
        &&& wf(self.root_folder)
        &&& self.selected_files.inv()
    }

    /// A fresh session over a built tree, nothing selected, nothing staged.
    pub fn new(root_folder: FolderNode) -> (app: JsonViewerApp)
        requires
            wf(root_folder),
        ensures
            app.inv(),
            app.root_folder == root_folder,
            app.pending_deletions@.len() == 0,
            forall|q: Seq<char>| !app.selected_files.spec_contains(q),
            !app.confirm_deletion,
    {
        JsonViewerApp {
            root_folder,
            pending_deletions: Vec::new(),
            selected_files: SelectionSet::new(),
            confirm_deletion: false,
        }
    }

    /// Marks the folder and every descendant path as selected.
    pub fn select_folder_recursive(&mut self, folder: &FolderNode)
        requires
            old(self).selected_files.inv(),
        ensures
            final(self).selected_files.inv(),
            forall|q: Seq<char>|
                #![trigger final(self).selected_files.spec_contains(q)]
                #![trigger old(self).selected_files.spec_contains(q)]
                final(self).selected_files.spec_contains(q) <==> (old(
                    self,
                ).selected_files.spec_contains(q) || in_tree(*folder, q)),
            final(self).root_folder == old(self).root_folder,
            final(self).pending_deletions == old(self).pending_deletions,
            final(self).confirm_deletion == old(self).confirm_deletion,
        decreases *folder,
    {
        self.selected_files.insert(folder.path.as_str());
        let nfiles = folder.files.len();
        let mut i: usize = 0;
        while i < nfiles
            invariant
                nfiles == folder.files@.len(),
                i <= nfiles,
                self.selected_files.inv(),
                forall|q: Seq<char>|
                    #![trigger self.selected_files.spec_contains(q)]
                    #![trigger old(self).selected_files.spec_contains(q)]
                    self.selected_files.spec_contains(q) <==> (old(
                        self,
                    ).selected_files.spec_contains(q) || q == folder.path@ || exists|j: int|
                        0 <= j < i && (#[trigger] folder.files@[j]).path@ == q),
                self.root_folder == old(self).root_folder,
                self.pending_deletions == old(self).pending_deletions,
                self.confirm_deletion == old(self).confirm_deletion,
            decreases nfiles - i,
        {
            self.selected_files.insert(folder.files[i].path.as_str());
            i = i + 1;
        }
        let nsubs = folder.subfolders.len();
        let mut j: usize = 0;
        while j < nsubs
            invariant
                nsubs == folder.subfolders@.len(),
                j <= nsubs,
                self.selected_files.inv(),
                forall|q: Seq<char>|
                    #![trigger self.selected_files.spec_contains(q)]
                    #![trigger old(self).selected_files.spec_contains(q)]
                    self.selected_files.spec_contains(q) <==> (old(
                        self,
                    ).selected_files.spec_contains(q) || q == folder.path@ || in_file_list(
                        folder.files@,
                        q,
                    ) || exists|k: int|
                        0 <= k < j && in_tree(#[trigger] folder.subfolders@[k], q)),
                self.root_folder == old(self).root_folder,
                self.pending_deletions == old(self).pending_deletions,
                self.confirm_deletion == old(self).confirm_deletion,
            decreases nsubs - j,
        {
            let ghost mid = self.selected_files;
            self.select_folder_recursive(&folder.subfolders[j]);
            proof {
                assert forall|q: Seq<char>|
                    #![trigger self.selected_files.spec_contains(q)]
                    #![trigger old(self).selected_files.spec_contains(q)]
                    self.selected_files.spec_contains(q) <==> (old(
                        self,
                    ).selected_files.spec_contains(q) || q == folder.path@ || in_file_list(
                        folder.files@,
                        q,
                    ) || (exists|k: int|
                        0 <= k < j + 1 && in_tree(#[trigger] folder.subfolders@[k], q))) by {
                    assert(self.selected_files.spec_contains(q) <==> (mid.spec_contains(q)
                        || in_tree(folder.subfolders@[j as int], q)));
                    if in_tree(folder.subfolders@[j as int], q) {
                        assert(0 <= j < j + 1 && in_tree(folder.subfolders@[j as int], q));
                    }
                    if exists|k: int| 0 <= k < j + 1 && in_tree(folder.subfolders@[k], q) {
                        let k = choose|k: int|
                            0 <= k < j + 1 && in_tree(folder.subfolders@[k], q);
                        if k != j {
                            assert(0 <= k < j && in_tree(folder.subfolders@[k], q));
                        }
                    }
                }
            }
            j = j + 1;
        }
    }

    /// Unmarks the folder and every descendant path.
    pub fn deselect_folder_recursive(&mut self, folder: &FolderNode)
        requires
            old(self).selected_files.inv(),
        ensures
            final(self).selected_files.inv(),
            forall|q: Seq<char>|
                #![trigger final(self).selected_files.spec_contains(q)]
                #![trigger old(self).selected_files.spec_contains(q)]
                final(self).selected_files.spec_contains(q) <==> (old(
                    self,
                ).selected_files.spec_contains(q) && !in_tree(*folder, q)),
            final(self).root_folder == old(self).root_folder,
            final(self).pending_deletions == old(self).pending_deletions,
            final(self).confirm_deletion == old(self).confirm_deletion,
        decreases *folder,
    {
        self.selected_files.remove(folder.path.as_str());
        let nfiles = folder.files.len();
        let mut i: usize = 0;
        while i < nfiles
            invariant
                nfiles == folder.files@.len(),
                i <= nfiles,
                self.selected_files.inv(),
                forall|q: Seq<char>|
                    #![trigger self.selected_files.spec_contains(q)]
                    #![trigger old(self).selected_files.spec_contains(q)]
                    self.selected_files.spec_contains(q) <==> (old(
                        self,
                    ).selected_files.spec_contains(q) && q != folder.path@ && !(exists|j: int|
                        0 <= j < i && (#[trigger] folder.files@[j]).path@ == q)),
                self.root_folder == old(self).root_folder,
                self.pending_deletions == old(self).pending_deletions,
                self.confirm_deletion == old(self).confirm_deletion,
            decreases nfiles - i,
        {
            self.selected_files.remove(folder.files[i].path.as_str());
            i = i + 1;
        }
        let nsubs = folder.subfolders.len();
        let mut j: usize = 0;
        while j < nsubs
            invariant
                nsubs == folder.subfolders@.len(),
                j <= nsubs,
                self.selected_files.inv(),
                forall|q: Seq<char>|
                    #![trigger self.selected_files.spec_contains(q)]
                    #![trigger old(self).selected_files.spec_contains(q)]
                    self.selected_files.spec_contains(q) <==> (old(
                        self,
                    ).selected_files.spec_contains(q) && q != folder.path@ && !in_file_list(
                        folder.files@,
                        q,
                    ) && !(exists|k: int|
                        0 <= k < j && in_tree(#[trigger] folder.subfolders@[k], q))),
                self.root_folder == old(self).root_folder,
                self.pending_deletions == old(self).pending_deletions,
                self.confirm_deletion == old(self).confirm_deletion,
            decreases nsubs - j,
        {
            let ghost mid = self.selected_files;
            self.deselect_folder_recursive(&folder.subfolders[j]);
            proof {
                assert forall|q: Seq<char>|
                    #![trigger self.selected_files.spec_contains(q)]
                    #![trigger old(self).selected_files.spec_contains(q)]
                    self.selected_files.spec_contains(q) <==> (old(
                        self,
                    ).selected_files.spec_contains(q) && q != folder.path@ && !in_file_list(
                        folder.files@,
                        q,
                    ) && !(exists|k: int|
                        0 <= k < j + 1 && in_tree(#[trigger] folder.subfolders@[k], q))) by {
                    assert(self.selected_files.spec_contains(q) <==> (mid.spec_contains(q)
                        && !in_tree(folder.subfolders@[j as int], q)));
                    if in_tree(folder.subfolders@[j as int], q) {
                        assert(0 <= j < j + 1 && in_tree(folder.subfolders@[j as int], q));
                    }
                    if exists|k: int| 0 <= k < j + 1 && in_tree(folder.subfolders@[k], q) {
                        let k = choose|k: int|
                            0 <= k < j + 1 && in_tree(folder.subfolders@[k], q);
                        if k != j {
                            assert(0 <= k < j && in_tree(folder.subfolders@[k], q));
                        }
                    }
                }
            }
            j = j + 1;
        }
    }

    /// Whether the folder, all its files and all descendants are selected.
    pub fn are_all_children_selected(&self, folder: &FolderNode) -> (r: bool)
        ensures
            r == all_selected(self.selected_files, *folder),
        decreases *folder,
    {
        let nfiles = folder.files.len();
        let mut i: usize = 0;
        while i < nfiles
            invariant
                nfiles == folder.files@.len(),
                i <= nfiles,
                forall|j: int|
                    0 <= j < i ==> self.selected_files.spec_contains(
                        (#[trigger] folder.files@[j]).path@,
                    ),
            decreases nfiles - i,
        {
            if !self.selected_files.contains(folder.files[i].path.as_str()) {
                return false;
            }
            i = i + 1;
        }
        let nsubs = folder.subfolders.len();
        let mut j: usize = 0;
        while j < nsubs
            invariant
                nsubs == folder.subfolders@.len(),
                j <= nsubs,
                forall|k: int|
                    0 <= k < i ==> self.selected_files.spec_contains(
                        (#[trigger] folder.files@[k]).path@,
                    ),
                i == nfiles,
                nfiles == folder.files@.len(),
                forall|k: int|
                    0 <= k < j ==> all_selected(
                        self.selected_files,
                        #[trigger] folder.subfolders@[k],
                    ),
            decreases nsubs - j,
        {
            if !self.are_all_children_selected(&folder.subfolders[j]) {
                return false;
            }
            j = j + 1;
        }
        self.selected_files.contains(folder.path.as_str())
    }

    /// Whether the folder, one of its files, or anything below is selected.
    pub fn are_any_children_selected(&self, folder: &FolderNode) -> (r: bool)
        ensures
            r == any_selected(self.selected_files, *folder),
        decreases *folder,
    {
        let nfiles = folder.files.len();
        let mut i: usize = 0;
        while i < nfiles
            invariant
                nfiles == folder.files@.len(),
                i <= nfiles,
                forall|j: int|
                    0 <= j < i ==> !self.selected_files.spec_contains(
                        (#[trigger] folder.files@[j]).path@,
                    ),
            decreases nfiles - i,
        {
            if self.selected_files.contains(folder.files[i].path.as_str()) {
                return true;
            }
            i = i + 1;
        }
        let nsubs = folder.subfolders.len();
        let mut j: usize = 0;
        while j < nsubs
            invariant
                nsubs == folder.subfolders@.len(),
                j <= nsubs,
                i == nfiles,
                nfiles == folder.files@.len(),
                forall|k: int|
                    0 <= k < i ==> !self.selected_files.spec_contains(
                        (#[trigger] folder.files@[k]).path@,
                    ),
                forall|k: int|
                    0 <= k < j ==> !any_selected(
                        self.selected_files,
                        #[trigger] folder.subfolders@[k],
                    ),
            decreases nsubs - j,
        {
            if self.are_any_children_selected(&folder.subfolders[j]) {
                return true;
            }
            j = j + 1;
        }
        self.selected_files.contains(folder.path.as_str())
    }

    /// The derived tri-state of a folder row, recomputed from the selection.
    pub fn selection_state(&self, folder: &FolderNode) -> (r: SelState)
        ensures
            r == SelState::FullySelected <==> all_selected(self.selected_files, *folder),
            r == SelState::PartiallySelected <==> (!all_selected(self.selected_files, *folder)
                && any_selected(self.selected_files, *folder)),
            r == SelState::Unselected <==> (!all_selected(self.selected_files, *folder)
                && !any_selected(self.selected_files, *folder)),
    {
        if self.are_all_children_selected(folder) {
            SelState::FullySelected
        } else if self.are_any_children_selected(folder) {
            SelState::PartiallySelected
        } else {
            SelState::Unselected
        }
    }

    /// A context-menu deletion request: selects the path and asks the user
    /// to confirm.
    pub fn request_delete(&mut self, path: &str)
        requires
            old(self).selected_files.inv(),
        ensures
            final(self).selected_files.inv(),
            forall|q: Seq<char>|
                #![trigger final(self).selected_files.spec_contains(q)]
                #![trigger old(self).selected_files.spec_contains(q)]
                final(self).selected_files.spec_contains(q) <==> (old(
                    self,
                ).selected_files.spec_contains(q) || q == path@),
            final(self).confirm_deletion,
            final(self).root_folder == old(self).root_folder,
            final(self).pending_deletions == old(self).pending_deletions,
    {
        self.selected_files.insert(path);
        self.confirm_deletion = true;
    }

    /// Cancels a pending confirmation; the selection is left unchanged.
    pub fn cancel_confirmation(&mut self)
        ensures
            !final(self).confirm_deletion,
            final(self).selected_files == old(self).selected_files,
            final(self).root_folder == old(self).root_folder,
            final(self).pending_deletions == old(self).pending_deletions,
    {
        self.confirm_deletion = false;
    }

    /// Confirms the deletion of everything selected: every selected path is
    /// staged onto the deletion list, in order, and returned for the caller
    /// to delete physically; the selection empties and the dialog closes.
    /// Paths are staged whether or not their physical deletion will succeed.
    pub fn confirm_selected(&mut self) -> (r: Vec<String>)
        ensures
            final(self).pending_deletions@ == old(self).pending_deletions@ + old(
                self,
            ).selected_files.paths@,
            r@ == old(self).selected_files.paths@,
            final(self).selected_files.inv(),
            forall|q: Seq<char>| !final(self).selected_files.spec_contains(q),
            !final(self).confirm_deletion,
            final(self).root_folder == old(self).root_folder,
    {
        let mut out: Vec<String> = Vec::new();
        let n = self.selected_files.len();
        let mut i: usize = 0;
        while i < n
            invariant
                n == self.selected_files.paths@.len(),
                i <= n,
                self.selected_files == old(self).selected_files,
                self.root_folder == old(self).root_folder,
                self.confirm_deletion == old(self).confirm_deletion,
                self.pending_deletions@ == old(self).pending_deletions@ + self.selected_files.paths@.take(i as int),
                out@ == self.selected_files.paths@.take(i as int),
            decreases n - i,
        {
            let ghost pend_prev = self.pending_deletions@;
            let ghost out_prev = out@;
            let p = self.selected_files.paths[i].clone();
            self.pending_deletions.push(p);
            let p2 = self.selected_files.paths[i].clone();
            out.push(p2);
            proof {
                assert(self.selected_files.paths@.take(i + 1) =~= self.selected_files.paths@.take(
                    i as int,
                ).push(self.selected_files.paths@[i as int]));
                assert(self.pending_deletions@ =~= old(self).pending_deletions@
                    + self.selected_files.paths@.take(i + 1));
                assert(out@ =~= self.selected_files.paths@.take(i + 1));
            }
            i = i + 1;
        }
        proof {
            assert(self.selected_files.paths@.take(n as int) =~= self.selected_files.paths@);
        }
        self.selected_files.clear();
        self.confirm_deletion = false;
        out
    }
}

/// Whether `p` is one of the staged deletion paths.
pub open spec fn in_pending(pending: Seq<String>, p: Seq<char>) -> bool {
    exists|i: int| 0 <= i < pending.len() && (#[trigger] pending[i])@ == p
}

/// Whether `p` is one of the staged deletion paths.
pub fn path_pending(pending: &Vec<String>, p: &str) -> (r: bool)
    ensures
        r == in_pending(pending@, p@),
{
    let n = pending.len();
    let mut i: usize = 0;
    while i < n
        invariant
            n == pending@.len(),
            i <= n,
            forall|j: int| 0 <= j < i ==> (#[trigger] pending@[j])@ != p@,
        decreases n - i,
    {
        if str_eq(pending[i].as_str(), p) {
            return true;
        }
        i = i + 1;
    }
    false
}

/// The new file list is the old one with every staged path removed, in order.
pub open spec fn files_pruned(nf: Seq<FileNode>, of: Seq<FileNode>, pending: Seq<String>) -> bool
    decreases of.len(),
{
    if of.len() == 0 {
        nf.len() == 0
    } else if in_pending(pending, of.last().path@) {
        files_pruned(nf, of.drop_last(), pending)
    } else {
        &&& nf.len() > 0
        &&& nf.last() == of.last()
        &&& files_pruned(nf.drop_last(), of.drop_last(), pending)
    }
}

/// The new folder list is the old one with every staged subtree removed and
/// every kept subtree pruned recursively.
pub open spec fn subs_pruned(ns: Seq<FolderNode>, os: Seq<FolderNode>, pending: Seq<String>) -> bool
    decreases os,
{
    if os.len() == 0 {
        ns.len() == 0
    } else if in_pending(pending, os.last().path@) {
        subs_pruned(ns, os.drop_last(), pending)
    } else {
        &&& ns.len() > 0
        &&& pruned_from(ns.last(), os.last(), pending)
        &&& subs_pruned(ns.drop_last(), os.drop_last(), pending)
    }
}

/// Reconciliation of one folder: staged files and subtrees removed at every
/// depth, and the aggregate size recomputed bottom-up from what remains.
pub open spec fn pruned_from(nf: FolderNode, of: FolderNode, pending: Seq<String>) -> bool
    decreases of,
{
    &&& nf.path@ == of.path@
    &&& nf.name@ == of.name@
    &&& files_pruned(nf.files@, of.files@, pending)
    &&& subs_pruned(nf.subfolders@, of.subfolders@, pending)
    &&& nf.size as int == sum_file_sizes(nf.files@) + sum_folder_sizes(nf.subfolders@)
}

/// Pruning a file list never increases its total size.
pub proof fn lemma_files_pruned_sum_le(nf: Seq<FileNode>, of: Seq<FileNode>, pending: Seq<String>)
    requires
        files_pruned(nf, of, pending),
    ensures
        0 <= sum_file_sizes(nf) <= sum_file_sizes(of),
    decreases of.len(),
{
    if of.len() == 0 {
    } else if in_pending(pending, of.last().path@) {
        lemma_files_pruned_sum_le(nf, of.drop_last(), pending);
    } else {
        lemma_files_pruned_sum_le(nf.drop_last(), of.drop_last(), pending);
    }
}

/// A pruned tree is well-formed again and weighs no more than before.
pub proof fn lemma_pruned_wf(nf: FolderNode, of: FolderNode, pending: Seq<String>)
    requires
        pruned_from(nf, of, pending),
        wf(of),
    ensures
        wf(nf),
        nf.size <= of.size,
    decreases of,
{
    lemma_files_pruned_sum_le(nf.files@, of.files@, pending);
    lemma_subs_pruned_wf(nf.subfolders@, of.subfolders@, pending);
}

/// The list form of `lemma_pruned_wf`.
pub proof fn lemma_subs_pruned_wf(ns: Seq<FolderNode>, os: Seq<FolderNode>, pending: Seq<String>)
    requires
        subs_pruned(ns, os, pending),
        wf_list(os),
    ensures
        wf_list(ns),
        0 <= sum_folder_sizes(ns) <= sum_folder_sizes(os),
    decreases os,
{
    if os.len() == 0 {
    } else if in_pending(pending, os.last().path@) {
        lemma_subs_pruned_wf(ns, os.drop_last(), pending);
        lemma_pruned_wf_size_nonneg(os.last());
    } else {
        lemma_pruned_wf(ns.last(), os.last(), pending);
        lemma_subs_pruned_wf(ns.drop_last(), os.drop_last(), pending);
    }
}

/// A folder's size is non-negative; spelled out for sum bookkeeping.
proof fn lemma_pruned_wf_size_nonneg(f: FolderNode)
    ensures
        f.size >= 0,
{
}

/// Removes every staged file from one level.
fn prune_files(files: Vec<FileNode>, pending: &Vec<String>) -> (r: Vec<FileNode>)
    ensures
        files_pruned(r@, files@, pending@),
    decreases files@.len(),
{
    let mut files = files;
    let ghost orig = files@;
    if files.len() == 0 {
        return files;
    }
    let last = files.pop().unwrap();
    proof {
        assert(files@ =~= orig.drop_last());
        assert(last == orig.last());
    }
    let mut rest = prune_files(files, pending);
    if !path_pending(pending, last.path.as_str()) {
        let ghost rest_prev = rest@;
        rest.push(last);
        proof {
            assert(rest@.drop_last() =~= rest_prev);
            assert(rest@.last() == last);
        }
    }
    rest
}

/// Prunes every kept subtree and removes every staged one, at one level.
fn prune_subs(subs: Vec<FolderNode>, pending: &Vec<String>) -> (r: Vec<FolderNode>)
    requires
        wf_list(subs@),
    ensures
        subs_pruned(r@, subs@, pending@),
    decreases subs@,
{
    let mut subs = subs;
    let ghost orig = subs@;
    if subs.len() == 0 {
        return subs;
    }
    let last = subs.pop().unwrap();
    proof {
        assert(subs@ =~= orig.drop_last());
        assert(last == orig.last());
    }
    let mut rest = prune_subs(subs, pending);
    if !path_pending(pending, last.path.as_str()) {
        let pruned = prune_tree(last, pending);
        let ghost rest_prev = rest@;
        rest.push(pruned);
        proof {
            assert(rest@.drop_last() =~= rest_prev);
        }
    }
    rest
}

/// Prunes one folder, rebuilding its aggregate size from what remains.
fn prune_tree(f: FolderNode, pending: &Vec<String>) -> (r: FolderNode)
    requires
        wf(f),
    ensures
        pruned_from(r, f, pending@),
    decreases f,
{
    let ghost of = f;
    let FolderNode { path, name, size: _, files, subfolders } = f;
    let new_files = prune_files(files, pending);
    let new_subs = prune_subs(subfolders, pending);
    proof {
        lemma_files_pruned_sum_le(new_files@, of.files@, pending@);
        lemma_subs_pruned_wf(new_subs@, of.subfolders@, pending@);
    }
    let new_size = sum_level(&new_files, &new_subs);
    FolderNode { path, name, size: new_size, files: new_files, subfolders: new_subs }
}

/// The total size of one level: own files plus subfolder aggregates.
fn sum_level(files: &Vec<FileNode>, subs: &Vec<FolderNode>) -> (s: u64)
    requires
        0 <= sum_file_sizes(files@) + sum_folder_sizes(subs@) <= u64::MAX,
        sum_file_sizes(files@) >= 0,
        sum_folder_sizes(subs@) >= 0,
    ensures
        s as int == sum_file_sizes(files@) + sum_folder_sizes(subs@),
{
    let mut s: u64 = 0;
    let nfiles = files.len();
    let mut i: usize = 0;
    while i < nfiles
        invariant
            nfiles == files@.len(),
            i <= nfiles,
            s as int == sum_file_sizes(files@.take(i as int)),
            sum_file_sizes(files@) + sum_folder_sizes(subs@) <= u64::MAX,
            sum_folder_sizes(subs@) >= 0,
        decreases nfiles - i,
    {
        proof {
            assert(files@.take(i + 1).drop_last() =~= files@.take(i as int));
            assert(files@.take(i + 1).last() == files@[i as int]);
            lemma_sum_file_sizes_take(files@, i + 1);
        }
        s = s + files[i].size;
        i = i + 1;
    }
    proof {
        assert(files@.take(nfiles as int) =~= files@);
    }
    let nsubs = subs.len();
    let mut j: usize = 0;
    while j < nsubs
        invariant
            nsubs == subs@.len(),
            j <= nsubs,
            s as int == sum_file_sizes(files@) + sum_folder_sizes(subs@.take(j as int)),
            sum_file_sizes(files@) + sum_folder_sizes(subs@) <= u64::MAX,
            sum_file_sizes(files@) >= 0,
        decreases nsubs - j,
    {
        proof {
            assert(subs@.take(j + 1).drop_last() =~= subs@.take(j as int));
            assert(subs@.take(j + 1).last() == subs@[j as int]);
            lemma_sum_folder_sizes_take(subs@, j + 1);
            lemma_sum_folder_sizes_nonneg(subs@.take(j as int));
        }
        s = s + subs[j].size;
        j = j + 1;
    }
    proof {
        assert(subs@.take(nsubs as int) =~= subs@);
    }
    s
}

impl JsonViewerApp {
    /// Reconciliation of one folder against the staged deletions: files and
    /// subtrees whose paths are staged are removed at every depth, and
    /// aggregate sizes are recomputed bottom-up.
    pub fn apply_deletions_to_folder(folder: &mut FolderNode, pending: &Vec<String>)
        requires
            wf(*old(folder)),
        ensures
            pruned_from(*final(folder), *old(folder), pending@),
            wf(*final(folder)),
    {
        let mut files: Vec<FileNode> = Vec::new();
        core::mem::swap(&mut files, &mut folder.files);
        let new_files = prune_files(files, pending);
        let mut subs: Vec<FolderNode> = Vec::new();
        core::mem::swap(&mut subs, &mut folder.subfolders);
        let new_subs = prune_subs(subs, pending);
        proof {
            lemma_files_pruned_sum_le(new_files@, old(folder).files@, pending@);
            lemma_subs_pruned_wf(new_subs@, old(folder).subfolders@, pending@);
        }
        folder.size = sum_level(&new_files, &new_subs);
        folder.files = new_files;
        folder.subfolders = new_subs;
    }

    /// Reconciliation of the whole working tree: prunes every staged path,
    /// recomputes the aggregates, and clears the staging list and the
    /// selection. Runs after a confirmation, before the next interaction.
    pub fn apply_deletions(&mut self)
        requires
            old(self).inv(),
        ensures
            final(self).inv(),
            pruned_from(
                final(self).root_folder,
                old(self).root_folder,
                old(self).pending_deletions@,
            ),
            final(self).pending_deletions@.len() == 0,
            forall|q: Seq<char>| !final(self).selected_files.spec_contains(q),
            final(self).confirm_deletion == old(self).confirm_deletion,
    {
        let mut pending: Vec<String> = Vec::new();
        core::mem::swap(&mut pending, &mut self.pending_deletions);
        Self::apply_deletions_to_folder(&mut self.root_folder, &pending);
        self.selected_files.clear();
    }
}

/// How many files of this list carry the path `p`.
pub open spec fn count_in_files(files: Seq<FileNode>, p: Seq<char>) -> int
    decreases files.len(),
{
    if files.len() == 0 {
        0
    } else {
        count_in_files(files.drop_last(), p) + if files.last().path@ == p {
            1int
        } else {
            0int
        }
    }
}

/// How many nodes of the tree carry the path `p`.
pub open spec fn count_in_tree(f: FolderNode, p: Seq<char>) -> int
    decreases f,
{
    (if f.path@ == p {
        1int
    } else {
        0int
    }) + count_in_files(f.files@, p) + count_in_subs(f.subfolders@, p)
}

/// How many nodes below this folder list carry the path `p`.
pub open spec fn count_in_subs(subs: Seq<FolderNode>, p: Seq<char>) -> int
    decreases subs,
{
    if subs.len() == 0 {
        0
    } else {
        count_in_subs(subs.drop_last(), p) + count_in_tree(subs.last(), p)
    }
}

/// No path occurs twice anywhere in the tree.
pub open spec fn tree_paths_unique(f: FolderNode) -> bool {
    forall|q: Seq<char>| #[trigger] count_in_tree(f, q) <= 1
}

/// `c` is `f` itself or a node somewhere below it.
pub open spec fn contains_node(f: FolderNode, c: FolderNode) -> bool
    decreases f,
{
    ||| c == f
    ||| exists|i: int|
        0 <= i < f.subfolders@.len() && contains_node(#[trigger] f.subfolders@[i], c)
}

/// File counts are never negative.
proof fn lemma_count_in_files_nonneg(files: Seq<FileNode>, p: Seq<char>)
    ensures
        count_in_files(files, p) >= 0,
    decreases files.len(),
{
    if files.len() > 0 {
        lemma_count_in_files_nonneg(files.drop_last(), p);
    }
}

/// Tree counts are never negative.
proof fn lemma_count_in_tree_nonneg(f: FolderNode, p: Seq<char>)
    ensures
        count_in_tree(f, p) >= 0,
    decreases f,
{
    lemma_count_in_files_nonneg(f.files@, p);
    lemma_count_in_subs_nonneg(f.subfolders@, p);
}

/// List counts are never negative.
proof fn lemma_count_in_subs_nonneg(subs: Seq<FolderNode>, p: Seq<char>)
    ensures
        count_in_subs(subs, p) >= 0,
    decreases subs,
{
    if subs.len() > 0 {
        lemma_count_in_subs_nonneg(subs.drop_last(), p);
        lemma_count_in_tree_nonneg(subs.last(), p);
    }
}

/// A path stands in a tree exactly when its count is positive.
proof fn lemma_in_tree_count(f: FolderNode, p: Seq<char>)
    ensures
        in_tree(f, p) <==> count_in_tree(f, p) >= 1,
    decreases f,
{
    lemma_in_files_count(f.files@, p);
    lemma_in_subs_count(f.subfolders@, p);
    lemma_count_in_files_nonneg(f.files@, p);
    lemma_count_in_subs_nonneg(f.subfolders@, p);
}

/// A path stands in a file list exactly when its count is positive.
proof fn lemma_in_files_count(files: Seq<FileNode>, p: Seq<char>)
    ensures
        in_file_list(files, p) <==> count_in_files(files, p) >= 1,
    decreases files.len(),
{
    lemma_count_in_files_nonneg(files, p);
    if files.len() > 0 {
        lemma_in_files_count(files.drop_last(), p);
        lemma_count_in_files_nonneg(files.drop_last(), p);
        if in_file_list(files, p) {
            let i = choose|i: int| 0 <= i < files.len() && (#[trigger] files[i]).path@ == p;
            if i < files.len() - 1 {
                assert(files.drop_last()[i] == files[i]);
                assert(in_file_list(files.drop_last(), p));
            } else {
                assert(files.last().path@ == p);
            }
            assert(count_in_files(files, p) >= 1);
        }
        if count_in_files(files, p) >= 1 {
            if files.last().path@ == p {
                assert((files[files.len() - 1]).path@ == p);
                assert(in_file_list(files, p));
            } else {
                assert(count_in_files(files.drop_last(), p) >= 1);
                let i = choose|i: int|
                    0 <= i < files.drop_last().len() && (#[trigger] files.drop_last()[i]).path@
                        == p;
                assert((files[i]).path@ == p);
                assert(in_file_list(files, p));
            }
        }
    }
}

/// A path stands below a folder list exactly when its count is positive.
proof fn lemma_in_subs_count(subs: Seq<FolderNode>, p: Seq<char>)
    ensures
        (exists|i: int| 0 <= i < subs.len() && in_tree(#[trigger] subs[i], p)) <==> count_in_subs(
            subs,
            p,
        ) >= 1,
    decreases subs,
{
    lemma_count_in_subs_nonneg(subs, p);
    if subs.len() > 0 {
        lemma_in_subs_count(subs.drop_last(), p);
        lemma_in_tree_count(subs.last(), p);
        lemma_count_in_tree_nonneg(subs.last(), p);
        lemma_count_in_subs_nonneg(subs.drop_last(), p);
        if exists|i: int| 0 <= i < subs.len() && in_tree(#[trigger] subs[i], p) {
            let i = choose|i: int| 0 <= i < subs.len() && in_tree(#[trigger] subs[i], p);
            if i < subs.len() - 1 {
                assert(subs.drop_last()[i] == subs[i]);
                assert(in_tree(subs.drop_last()[i], p));
                assert(exists|k: int|
                    0 <= k < subs.drop_last().len() && in_tree(#[trigger] subs.drop_last()[k], p));
            } else {
                assert(in_tree(subs.last(), p));
            }
            assert(count_in_subs(subs, p) >= 1);
        }
        if count_in_subs(subs, p) >= 1 {
            if count_in_tree(subs.last(), p) >= 1 {
                assert(in_tree(subs[subs.len() - 1], p));
            } else {
                assert(count_in_subs(subs.drop_last(), p) >= 1);
                let i = choose|i: int|
                    0 <= i < subs.drop_last().len() && in_tree(#[trigger] subs.drop_last()[i], p);
                assert(in_tree(subs[i], p));
            }
        }
    }
}

/// The count of a list is at least the count of any one member./// The count of a list is at least the count of any one member.
proof fn lemma_count_subs_index(subs: Seq<FolderNode>, i: int, p: Seq<char>)
    requires
        0 <= i < subs.len(),
    ensures
        count_in_subs(subs, p) >= count_in_tree(subs[i], p),
    decreases subs,
{
    if i == subs.len() - 1 {
        lemma_count_in_subs_nonneg(subs.drop_last(), p);
        assert(subs[i] == subs.last());
    } else {
        lemma_count_subs_index(subs.drop_last(), i, p);
        lemma_count_in_tree_nonneg(subs.last(), p);
        assert(subs.drop_last()[i] == subs[i]);
    }
}

/// The count of a list covers two distinct members together.
proof fn lemma_count_subs_two(subs: Seq<FolderNode>, i: int, j: int, p: Seq<char>)
    requires
        0 <= i < subs.len(),
        0 <= j < subs.len(),
        i != j,
    ensures
        count_in_subs(subs, p) >= count_in_tree(subs[i], p) + count_in_tree(subs[j], p),
    decreases subs,
{
    if i == subs.len() - 1 {
        lemma_count_subs_index(subs.drop_last(), j, p);
        assert(subs.drop_last()[j] == subs[j]);
        assert(subs[i] == subs.last());
    } else if j == subs.len() - 1 {
        lemma_count_subs_index(subs.drop_last(), i, p);
        assert(subs.drop_last()[i] == subs[i]);
        assert(subs[j] == subs.last());
    } else {
        lemma_count_subs_two(subs.drop_last(), i, j, p);
        lemma_count_in_tree_nonneg(subs.last(), p);
        assert(subs.drop_last()[i] == subs[i]);
        assert(subs.drop_last()[j] == subs[j]);
    }
}

/// A containing tree counts at least what the contained node counts.
proof fn lemma_count_mono_contains(x: FolderNode, c: FolderNode, p: Seq<char>)
    requires
        contains_node(x, c),
    ensures
        count_in_tree(x, p) >= count_in_tree(c, p),
    decreases x,
{
    if c == x {
    } else {
        let i = choose|i: int|
            0 <= i < x.subfolders@.len() && contains_node(#[trigger] x.subfolders@[i], c);
        lemma_count_mono_contains(x.subfolders@[i], c, p);
        lemma_count_subs_index(x.subfolders@, i, p);
        lemma_count_in_files_nonneg(x.files@, p);
    }
}

/// Pruning with nothing staged in the list leaves the file list unchanged.
proof fn lemma_files_pruned_noop(nf: Seq<FileNode>, of: Seq<FileNode>, pending: Seq<String>)
    requires
        files_pruned(nf, of, pending),
        forall|k: int| 0 <= k < of.len() ==> !in_pending(pending, (#[trigger] of[k]).path@),
    ensures
        nf == of,
    decreases of.len(),
{
    if of.len() == 0 {
        assert(nf =~= of);
    } else {
        assert(!in_pending(pending, of[of.len() - 1].path@));
        lemma_files_pruned_noop(nf.drop_last(), of.drop_last(), pending);
        assert(nf =~= nf.drop_last().push(nf.last()));
        assert(of =~= of.drop_last().push(of.last()));
    }
}

/// Pruning a subtree none of whose paths are staged changes neither its
/// size nor its set of paths.
proof fn lemma_prune_noop(nf: FolderNode, of: FolderNode, pending: Seq<String>)
    requires
        pruned_from(nf, of, pending),
        wf(of),
        forall|q: Seq<char>| in_tree(of, q) ==> !in_pending(pending, q),
    ensures
        nf.size == of.size,
        forall|q: Seq<char>| in_tree(nf, q) <==> in_tree(of, q),
    decreases of,
{
    assert forall|k: int| 0 <= k < of.files@.len() implies !in_pending(
        pending,
        (#[trigger] of.files@[k]).path@,
    ) by {
        assert(in_file_list(of.files@, of.files@[k].path@));
        assert(in_tree(of, of.files@[k].path@));
    }
    lemma_files_pruned_noop(nf.files@, of.files@, pending);
    lemma_subs_pruned_noop(nf.subfolders@, of.subfolders@, pending, of);
    assert forall|q: Seq<char>| in_tree(nf, q) <==> in_tree(of, q) by {
        if in_tree(nf, q) {
            if !(nf.path@ == q) && !in_file_list(nf.files@, q) {
                let i = choose|i: int|
                    0 <= i < nf.subfolders@.len() && in_tree(#[trigger] nf.subfolders@[i], q);
                assert(in_tree(of.subfolders@[i], q));
            }
        }
        if in_tree(of, q) {
            if !(of.path@ == q) && !in_file_list(of.files@, q) {
                let i = choose|i: int|
                    0 <= i < of.subfolders@.len() && in_tree(#[trigger] of.subfolders@[i], q);
                assert(in_tree(nf.subfolders@[i], q));
            }
        }
    }
}

/// The list form of `lemma_prune_noop`: sizes and paths elementwise.
proof fn lemma_subs_pruned_noop(
    ns: Seq<FolderNode>,
    os: Seq<FolderNode>,
    pending: Seq<String>,
    ctx: FolderNode,
)
    requires
        subs_pruned(ns, os, pending),
        wf_list(os),
        forall|k: int|
            0 <= k < os.len() ==> forall|q: Seq<char>|
                in_tree(#[trigger] os[k], q) ==> !in_pending(pending, q),
    ensures
        ns.len() == os.len(),
        sum_folder_sizes(ns) == sum_folder_sizes(os),
        forall|k: int|
            0 <= k < os.len() ==> ((#[trigger] ns[k]).size == os[k].size && forall|q: Seq<char>|
                in_tree(ns[k], q) <==> in_tree(#[trigger] os[k], q)),
    decreases os,
{
    if os.len() == 0 {
    } else {
        assert(in_tree(os[os.len() - 1], os.last().path@));
        assert(!in_pending(pending, os.last().path@));
        assert(forall|k: int|
            0 <= k < os.drop_last().len() ==> os.drop_last()[k] == os[k]);
        lemma_subs_pruned_noop(ns.drop_last(), os.drop_last(), pending, ctx);
        lemma_prune_noop(ns.last(), os.last(), pending);
        assert forall|k: int|
            0 <= k < os.len() implies ((#[trigger] ns[k]).size == os[k].size && forall|
            q: Seq<char>,
        |
            in_tree(ns[k], q) <==> in_tree(#[trigger] os[k], q)) by {
            if k < os.len() - 1 {
                assert(ns.drop_last()[k] == ns[k]);
                assert(os.drop_last()[k] == os[k]);
            } else {
                assert(ns[k] == ns.last());
                assert(os[k] == os.last());
            }
        }
    }
}

/// The selection/deletion round trip: when the staged paths are exactly
/// the paths of one folder `c` standing somewhere below `of`, and no path
/// occurs twice in the tree, reconciliation removes exactly `c`'s subtree
/// — every path of `c` is gone, every other path survives — and the
/// aggregate size of the tree drops by exactly `c`'s aggregate size. The
/// statement applies at any ancestor of `c`, so every ancestor's size
/// drops by exactly that amount.
pub proof fn lemma_selection_deletion_round_trip(
    nf: FolderNode,
    of: FolderNode,
    pending: Seq<String>,
    c: FolderNode,
)
    requires
        wf(of),
        tree_paths_unique(of),
        pruned_from(nf, of, pending),
        exists|i: int|
            0 <= i < of.subfolders@.len() && contains_node(#[trigger] of.subfolders@[i], c),
        forall|q: Seq<char>|
            #![trigger in_pending(pending, q)]
            in_pending(pending, q) <==> in_tree(c, q),
    ensures
        nf.size as int == of.size - c.size,
        forall|q: Seq<char>|
            #![trigger in_tree(nf, q)]
            #![trigger in_tree(of, q)]
            in_tree(nf, q) <==> (in_tree(of, q) && !in_tree(c, q)),
    decreases of,
{
    let i = choose|i: int|
        0 <= i < of.subfolders@.len() && contains_node(#[trigger] of.subfolders@[i], c);
    assert(in_tree(c, c.path@));
    // The root's own path is not staged: a second occurrence inside c's
    // subtree would break uniqueness.
    assert(!in_pending(pending, of.path@)) by {
        if in_pending(pending, of.path@) {
            assert(in_tree(c, of.path@));
            lemma_in_tree_count(c, of.path@);
            lemma_count_mono_contains(of.subfolders@[i], c, of.path@);
            lemma_count_subs_index(of.subfolders@, i, of.path@);
            lemma_count_in_files_nonneg(of.files@, of.path@);
            assert(count_in_tree(of, of.path@) >= 2);
        }
    }
    // Nor is any file path at this level.
    assert forall|k: int| 0 <= k < of.files@.len() implies !in_pending(
        pending,
        (#[trigger] of.files@[k]).path@,
    ) by {
        if in_pending(pending, of.files@[k].path@) {
            let p = of.files@[k].path@;
            assert(in_tree(c, p));
            lemma_in_tree_count(c, p);
            lemma_count_mono_contains(of.subfolders@[i], c, p);
            lemma_count_subs_index(of.subfolders@, i, p);
            assert(in_file_list(of.files@, p));
            lemma_in_files_count(of.files@, p);
            assert(count_in_tree(of, p) >= 2);
        }
    }
    lemma_files_pruned_noop(nf.files@, of.files@, pending);
    // Branches other than the one holding c share no path with c's subtree.
    assert forall|j: int, q: Seq<char>|
        0 <= j < of.subfolders@.len() && j != i implies ((#[trigger] in_tree(
        of.subfolders@[j],
        q,
    )) ==> !in_tree(c, q)) by {
        if 0 <= j < of.subfolders@.len() && j != i && in_tree(of.subfolders@[j], q) && in_tree(
            c,
            q,
        ) {
            lemma_in_tree_count(of.subfolders@[j], q);
            lemma_in_tree_count(c, q);
            lemma_count_mono_contains(of.subfolders@[i], c, q);
            lemma_count_subs_two(of.subfolders@, i, j, q);
            lemma_count_in_files_nonneg(of.files@, q);
            assert(count_in_tree(of, q) >= 2);
        }
    }
    // The branch holding c inherits uniqueness.
    assert forall|q: Seq<char>| #[trigger] count_in_tree(of.subfolders@[i], q) <= 1 by {
        lemma_count_subs_index(of.subfolders@, i, q);
        lemma_count_in_files_nonneg(of.files@, q);
        assert(count_in_tree(of, q) <= 1);
    }
    lemma_p4_subs(nf.subfolders@, of.subfolders@, pending, c, i);
    assert(nf.size as int == of.size - c.size);
    assert forall|q: Seq<char>|
        in_tree(nf, q) <==> (in_tree(of, q) && !in_tree(c, q)) by {
        if q == of.path@ {
            assert(in_tree(nf, q));
            assert(in_tree(of, q));
            assert(!in_tree(c, q));
        } else if in_file_list(of.files@, q) {
            let k = choose|k: int| 0 <= k < of.files@.len() && (#[trigger] of.files@[k]).path@ == q;
            assert(!in_pending(pending, q));
            assert(!in_tree(c, q));
            assert(in_tree(nf, q));
            assert(in_tree(of, q));
        } else {
            assert(in_file_list(nf.files@, q) == in_file_list(of.files@, q));
            if in_tree(nf, q) {
                assert(exists|k: int|
                    0 <= k < nf.subfolders@.len() && in_tree(#[trigger] nf.subfolders@[k], q));
                assert((exists|k: int|
                    0 <= k < of.subfolders@.len() && in_tree(#[trigger] of.subfolders@[k], q))
                    && !in_tree(c, q));
                assert(in_tree(of, q));
            }
            if in_tree(of, q) && !in_tree(c, q) {
                assert(exists|k: int|
                    0 <= k < of.subfolders@.len() && in_tree(#[trigger] of.subfolders@[k], q));
                assert(exists|k: int|
                    0 <= k < nf.subfolders@.len() && in_tree(#[trigger] nf.subfolders@[k], q));
                assert(in_tree(nf, q));
            }
        }
    }
}

/// The list form of the round trip, at the level whose entry `i` holds `c`.
proof fn lemma_p4_subs(
    ns: Seq<FolderNode>,
    os: Seq<FolderNode>,
    pending: Seq<String>,
    c: FolderNode,
    i: int,
)
    requires
        subs_pruned(ns, os, pending),
        wf_list(os),
        0 <= i < os.len(),
        contains_node(os[i], c),
        forall|q: Seq<char>|
            #![trigger in_pending(pending, q)]
            in_pending(pending, q) <==> in_tree(c, q),
        forall|j: int, q: Seq<char>|
            0 <= j < os.len() && j != i ==> ((#[trigger] in_tree(os[j], q)) ==> !in_tree(c, q)),
        forall|q: Seq<char>| #[trigger] count_in_tree(os[i], q) <= 1,
    ensures
        sum_folder_sizes(ns) == sum_folder_sizes(os) - c.size,
        forall|q: Seq<char>|
            (exists|k: int| 0 <= k < ns.len() && in_tree(#[trigger] ns[k], q)) <==> ((exists|
                k: int,
            |
                0 <= k < os.len() && in_tree(#[trigger] os[k], q)) && !in_tree(c, q)),
    decreases os,
{
    assert(in_tree(c, c.path@));
    if i == os.len() - 1 {
        if os[i] == c {
            // The selected folder itself: its path is staged, so the whole
            // subtree is dropped from the list.
            assert(in_pending(pending, os.last().path@));
            assert(subs_pruned(ns, os.drop_last(), pending));
            assert forall|k: int|
                0 <= k < os.drop_last().len() implies forall|q: Seq<char>|
                in_tree(#[trigger] os.drop_last()[k], q) ==> !in_pending(pending, q) by {
                assert(os.drop_last()[k] == os[k]);
                assert forall|q: Seq<char>|
                    in_tree(os[k], q) implies !in_pending(pending, q) by {
                    assert(in_tree(os[k], q) ==> !in_tree(c, q));
                }
            }
            lemma_subs_pruned_noop(ns, os.drop_last(), pending, c);
            assert forall|q: Seq<char>|
                (exists|k: int| 0 <= k < ns.len() && in_tree(#[trigger] ns[k], q)) <==> ((exists|
                    k: int,
                |
                    0 <= k < os.len() && in_tree(#[trigger] os[k], q)) && !in_tree(c, q)) by {
                if exists|k: int| 0 <= k < ns.len() && in_tree(#[trigger] ns[k], q) {
                    let k = choose|k: int| 0 <= k < ns.len() && in_tree(#[trigger] ns[k], q);
                    assert(in_tree(os.drop_last()[k], q));
                    assert(os.drop_last()[k] == os[k]);
                    assert(in_tree(os[k], q));
                    assert(!in_tree(c, q));
                }
                if (exists|k: int| 0 <= k < os.len() && in_tree(#[trigger] os[k], q))
                    && !in_tree(c, q) {
                    let k = choose|k: int| 0 <= k < os.len() && in_tree(#[trigger] os[k], q);
                    assert(k != i);
                    assert(os.drop_last()[k] == os[k]);
                    assert(in_tree(ns[k], q));
                }
            }
        } else {
            // c stands strictly below the last entry, whose own path is
            // therefore not staged: the entry is kept and pruned inside.
            let ii = choose|m: int|
                0 <= m < os[i].subfolders@.len() && contains_node(
                    #[trigger] os[i].subfolders@[m],
                    c,
                );
            assert(!in_pending(pending, os.last().path@)) by {
                if in_pending(pending, os.last().path@) {
                    let p = os.last().path@;
                    assert(in_tree(c, p));
                    lemma_in_tree_count(c, p);
                    lemma_count_mono_contains(os[i].subfolders@[ii], c, p);
                    lemma_count_subs_index(os[i].subfolders@, ii, p);
                    lemma_count_in_files_nonneg(os[i].files@, p);
                    assert(count_in_tree(os[i], p) >= 2);
                }
            }
            assert(ns.len() > 0);
            assert(pruned_from(ns.last(), os.last(), pending));
            lemma_wf_list_index(os, i);
            lemma_selection_deletion_round_trip(ns.last(), os.last(), pending, c);
            assert forall|k: int|
                0 <= k < os.drop_last().len() implies forall|q: Seq<char>|
                in_tree(#[trigger] os.drop_last()[k], q) ==> !in_pending(pending, q) by {
                assert(os.drop_last()[k] == os[k]);
                assert forall|q: Seq<char>|
                    in_tree(os[k], q) implies !in_pending(pending, q) by {
                    assert(in_tree(os[k], q) ==> !in_tree(c, q));
                }
            }
            lemma_subs_pruned_noop(ns.drop_last(), os.drop_last(), pending, c);
            assert forall|q: Seq<char>|
                (exists|k: int| 0 <= k < ns.len() && in_tree(#[trigger] ns[k], q)) <==> ((exists|
                    k: int,
                |
                    0 <= k < os.len() && in_tree(#[trigger] os[k], q)) && !in_tree(c, q)) by {
                if exists|k: int| 0 <= k < ns.len() && in_tree(#[trigger] ns[k], q) {
                    let k = choose|k: int| 0 <= k < ns.len() && in_tree(#[trigger] ns[k], q);
                    if k < ns.len() - 1 {
                        assert(ns.drop_last()[k] == ns[k]);
                        assert(os.drop_last()[k] == os[k]);
                        assert(in_tree(ns.drop_last()[k], q));
                        assert(in_tree(os.drop_last()[k], q));
                        assert(in_tree(os[k], q));
                        assert(!in_tree(c, q));
                    } else {
                        assert(ns[k] == ns.last());
                        assert(in_tree(ns.last(), q));
                        assert(in_tree(os[i], q));
                        assert(!in_tree(c, q));
                    }
                }
                if (exists|k: int| 0 <= k < os.len() && in_tree(#[trigger] os[k], q))
                    && !in_tree(c, q) {
                    let k = choose|k: int| 0 <= k < os.len() && in_tree(#[trigger] os[k], q);
                    if k < os.len() - 1 {
                        assert(os.drop_last()[k] == os[k]);
                        assert(ns.drop_last()[k] == ns[k]);
                        assert(in_tree(os.drop_last()[k], q));
                        assert(in_tree(ns.drop_last()[k], q));
                        assert(in_tree(ns[k], q));
                    } else {
                        assert(os[k] == os.last());
                        assert(in_tree(ns.last(), q));
                        assert(in_tree(ns[ns.len() - 1], q));
                    }
                }
            }
        }
    } else {
        // The last entry shares no path with c's subtree; it is kept
        // unchanged and the rest of the list carries the removal.
        assert(in_tree(os[os.len() - 1], os.last().path@));
        assert(!in_tree(c, os.last().path@));
        assert(!in_pending(pending, os.last().path@));
        assert(ns.len() > 0);
        assert(pruned_from(ns.last(), os.last(), pending));
        lemma_wf_list_index(os, os.len() - 1);
        assert forall|q: Seq<char>|
            in_tree(os.last(), q) implies !in_pending(pending, q) by {
            assert(in_tree(os[os.len() - 1], q));
        }
        lemma_prune_noop(ns.last(), os.last(), pending);
        assert(os.drop_last()[i] == os[i]);
        assert forall|j: int, q: Seq<char>|
            0 <= j < os.drop_last().len() && j != i implies ((#[trigger] in_tree(
            os.drop_last()[j],
            q,
        )) ==> !in_tree(c, q)) by {
            assert(os.drop_last()[j] == os[j]);
        }
        lemma_p4_subs(ns.drop_last(), os.drop_last(), pending, c, i);
        assert forall|q: Seq<char>|
            (exists|k: int| 0 <= k < ns.len() && in_tree(#[trigger] ns[k], q)) <==> ((exists|
                k: int,
            |
                0 <= k < os.len() && in_tree(#[trigger] os[k], q)) && !in_tree(c, q)) by {
            if exists|k: int| 0 <= k < ns.len() && in_tree(#[trigger] ns[k], q) {
                let k = choose|k: int| 0 <= k < ns.len() && in_tree(#[trigger] ns[k], q);
                if k < ns.len() - 1 {
                    assert(in_tree(ns.drop_last()[k], q));
                    assert(exists|m: int|
                        0 <= m < os.drop_last().len() && in_tree(
                            #[trigger] os.drop_last()[m],
                            q,
                        ));
                    let m = choose|m: int|
                        0 <= m < os.drop_last().len() && in_tree(#[trigger] os.drop_last()[m], q);
                    assert(in_tree(os[m], q));
                } else {
                    assert(in_tree(os.last(), q));
                    assert(in_tree(os[os.len() - 1], q));
                    assert(!in_tree(c, q));
                }
            }
            if (exists|k: int| 0 <= k < os.len() && in_tree(#[trigger] os[k], q)) && !in_tree(
                c,
                q,
            ) {
                let k = choose|k: int| 0 <= k < os.len() && in_tree(#[trigger] os[k], q);
                if k < os.len() - 1 {
                    assert(in_tree(os.drop_last()[k], q));
                    assert(exists|m: int|
                        0 <= m < os.drop_last().len() && in_tree(
                            #[trigger] os.drop_last()[m],
                            q,
                        ) && !in_tree(c, q));
                    let m = choose|m: int|
                        0 <= m < ns.drop_last().len() && in_tree(#[trigger] ns.drop_last()[m], q);
                    assert(in_tree(ns[m], q));
                } else {
                    assert(in_tree(ns.last(), q));
                    assert(in_tree(ns[ns.len() - 1], q));
                }
            }
        }
    }
}

} // verus!
