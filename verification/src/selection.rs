//! The selection model: which rows of the current listing are selected,
//! which row was selected last, and the flags the widget layer mirrors.
//! All of the widget callbacks' decisions live here, on an explicitly owned
//! state instead of a process-wide lock.

use crate::types::FileItem;
use vstd::prelude::*;

verus! {

/// Whether an index is among the selected rows.
pub open spec fn spec_has_idx(s: Seq<(i32, FileItem)>, i: i32) -> bool {
    exists|k: int| 0 <= k < s.len() && s[k].0 == i
}

/// Whether a row/file pair is among the selected rows.
pub open spec fn spec_has_pair(s: Seq<(i32, FileItem)>, i: i32, f: FileItem) -> bool {
    exists|k: int| 0 <= k < s.len() && s[k] == (i, f)
}

/// No index occurs twice.
pub open spec fn spec_distinct_idx(s: Seq<(i32, FileItem)>) -> bool {
    forall|k1: int, k2: int| 0 <= k1 < s.len() && 0 <= k2 < s.len() && k1 != k2 ==> s[k1].0 != s[k2].0
}

/// The selection and the listing it points into.
pub struct SelectionState {
    files: Vec<FileItem>,
    selected: Vec<(i32, FileItem)>,
    single_selected_index: i32,
    is_single_selected: bool,
}

impl SelectionState {
    /// The selected (index, file) pairs, in insertion order.
    pub closed spec fn sel(self) -> Seq<(i32, FileItem)> {
        self.selected@
    }

    /// The current listing.
    pub closed spec fn listing(self) -> Seq<FileItem> {
        self.files@
    }

    pub closed spec fn spec_single_selected_index(self) -> i32 {
        self.single_selected_index
    }

    pub closed spec fn spec_is_single_selected(self) -> bool {
        self.is_single_selected
    }

    pub open spec fn wf(self) -> bool {
        spec_distinct_idx(self.sel())
    }

    /// An empty selection over a listing.
    pub fn new(files: Vec<FileItem>) -> (r: SelectionState)
        ensures
            r.wf(),
            r.sel().len() == 0,
            r.listing() == files@,
    {
        SelectionState { files, selected: Vec::new(), single_selected_index: 0, is_single_selected: false }
    }

    /// The selected pairs, for reading.
    pub fn selected_files_read(&self) -> (r: &Vec<(i32, FileItem)>)
        ensures
            r@ == self.sel(),
    {
        &self.selected
    }

    /// Replaces the selected pairs wholesale; meant for test setups.
    pub fn selected_files_write_tests(&mut self, entries: Vec<(i32, FileItem)>)
        requires
            spec_distinct_idx(entries@),
        ensures
            final(self).wf(),
            final(self).sel() == entries@,
            final(self).listing() == old(self).listing(),
    {
        self.selected = entries;
    }

    /// The selected files, copied out in order.
    pub fn selected_files_clone(&self) -> (r: Vec<FileItem>)
        ensures
            r@.len() == self.sel().len(),
            forall|k: int| 0 <= k < r@.len() ==> r@[k] == self.sel()[k].1,
    {
        let mut r: Vec<FileItem> = Vec::new();
        let mut k: usize = 0;
        while k < self.selected.len()
            invariant
                k <= self.selected.len(),
                r@.len() == k,
                forall|j: int| 0 <= j < k ==> r@[j] == self.sel()[j].1,
            decreases self.selected.len() - k,
        {
            r.push(self.selected[k].1.duplicate());
            k = k + 1;
        }
        r
    }

    /// The selected file, if exactly one is selected.
    pub fn get_selected_file(&self) -> (r: Option<FileItem>)
        ensures
            self.sel().len() == 1 ==> r == Some(self.sel()[0].1),
            self.sel().len() != 1 ==> r is None,
    {
        if self.selected.len() != 1 {
            None
        } else {
            Some(self.selected[0].1.duplicate())
        }
    }

    /// Whether that particular row is selected.
    pub fn is_index_selected(&self, i: i32) -> (r: bool)
        ensures
            r == spec_has_idx(self.sel(), i),
    {
        let mut k: usize = 0;
        while k < self.selected.len()
            invariant
                k <= self.selected.len(),
                forall|j: int| 0 <= j < k ==> self.sel()[j].0 != i,
            decreases self.selected.len() - k,
        {
            if self.selected[k].0 == i {
                return true;
            }
            k = k + 1;
        }
        false
    }

    /// Clears the selection, both the map and the listing's visual flags.
    pub fn clear_selection(&mut self)
        requires
            old(self).listing().len() <= i32::MAX,
        ensures
            final(self).wf(),
            final(self).sel().len() == 0,
            !final(self).spec_is_single_selected(),
            final(self).listing().len() == old(self).listing().len(),
            forall|k: int|
                0 <= k < final(self).listing().len() ==> final(self).listing()[k]
                    == (FileItem { selected: false, ..old(self).listing()[k] }),
    {
        self.selected = Vec::new();
        self.is_single_selected = false;
        let mut k: usize = 0;
        while k < self.files.len()
            invariant
                k <= self.files@.len(),
                self.files@.len() == old(self).listing().len(),
                self.files@.len() <= i32::MAX,
                self.selected@.len() == 0,
                self.is_single_selected == false,
                forall|j: int|
                    0 <= j < k ==> self.files@[j] == (FileItem {
                        selected: false,
                        ..old(self).listing()[j]
                    }),
                forall|j: int|
                    k <= j < self.files@.len() ==> self.files@[j] == old(self).listing()[j],
            decreases self.files.len() - k,
        {
            let ghost before = self.files@;
            self.set_selected_visual(k as i32, false);
            proof {
                assert(self.files@ == before.update(k as int, (FileItem {
                    selected: false,
                    ..before[k as int]
                })));
                assert(before[k as int] == old(self).listing()[k as int]);
            }
            k = k + 1;
        }
    }

    /// Mirrors one row's selected flag into the listing.
    pub fn set_selected_visual(&mut self, i: i32, val: bool)
        ensures
            final(self).sel() == old(self).sel(),
            final(self).spec_is_single_selected() == old(self).spec_is_single_selected(),
            final(self).spec_single_selected_index() == old(self).spec_single_selected_index(),
            final(self).listing().len() == old(self).listing().len(),
            0 <= i < old(self).listing().len() ==> final(self).listing() == old(
                self,
            ).listing().update(i as int, (FileItem { selected: val, ..old(self).listing()[i as int] })),
            !(0 <= i < old(self).listing().len()) ==> final(self).listing() == old(self).listing(),
    {
        if i >= 0 && (i as usize) < self.files.len() {
            let idx = i as usize;
            let item = FileItem {
                path: self.files[idx].path.clone(),
                file_name: self.files[idx].file_name.clone(),
                is_dir: self.files[idx].is_dir,
                size: self.files[idx].size,
                date: self.files[idx].date,
                file_type: self.files[idx].file_type.clone(),
                is_link: self.files[idx].is_link,
                extension: self.files[idx].extension.clone(),
                selected: val,
            };
            vstd::pervasive::VecAdditionalExecFns::set(&mut self.files, idx, item);
        }
    }

    fn remove_idx(&mut self, i: i32)
        requires
            old(self).wf(),
        ensures
            final(self).wf(),
            !spec_has_idx(final(self).sel(), i),
            final(self).sel().len() <= old(self).sel().len(),
            forall|j: i32| j != i ==> spec_has_idx(final(self).sel(), j) == spec_has_idx(old(self).sel(), j),
            forall|j: i32, f: FileItem|
                j != i ==> spec_has_pair(final(self).sel(), j, f) == spec_has_pair(
                    old(self).sel(),
                    j,
                    f,
                ),
            final(self).listing() == old(self).listing(),
            final(self).spec_is_single_selected() == old(self).spec_is_single_selected(),
            final(self).spec_single_selected_index() == old(self).spec_single_selected_index(),
    {
        let mut k: usize = 0;
        while k < self.selected.len()
            invariant
                old(self).wf(),
                k <= self.selected@.len(),
                spec_distinct_idx(self.sel()),
                self.files == old(self).files,
                self.is_single_selected == old(self).is_single_selected,
                self.single_selected_index == old(self).single_selected_index,
                self.sel().len() <= old(self).sel().len(),
                forall|j: int| 0 <= j < k ==> self.sel()[j].0 != i,
                forall|j: i32|
                    j != i ==> spec_has_idx(self.sel(), j) == spec_has_idx(old(self).sel(), j),
                forall|j: i32, f: FileItem|
                    j != i ==> spec_has_pair(self.sel(), j, f) == spec_has_pair(
                        old(self).sel(),
                        j,
                        f,
                    ),
                spec_has_idx(self.sel(), i) ==> spec_has_idx(old(self).sel(), i),
            decreases self.selected.len() - k,
        {
            if self.selected[k].0 == i {
                let ghost pre = self.sel();
                self.selected.remove(k);
                proof {
                    assert(forall|j: int|
                        0 <= j < self.sel().len() ==> self.sel()[j] == (if j < k {
                            pre[j]
                        } else {
                            pre[j + 1]
                        }));
                    assert forall|j: i32|
                        spec_has_idx(self.sel(), j) implies spec_has_idx(pre, j) by {
                        let w = choose|w: int| 0 <= w < self.sel().len() && self.sel()[w].0 == j;
                    }
                    assert forall|j: i32|
                        j != i && spec_has_idx(pre, j) implies spec_has_idx(self.sel(), j) by {
                        let w = choose|w: int| 0 <= w < pre.len() && pre[w].0 == j;
                        if w < k {
                            assert(self.sel()[w].0 == j);
                        } else if w > k {
                            assert(self.sel()[w - 1].0 == j);
                        }
                    }
                    assert forall|j: i32, f: FileItem|
                        spec_has_pair(self.sel(), j, f) implies spec_has_pair(pre, j, f) by {
                        let w = choose|w: int| 0 <= w < self.sel().len() && self.sel()[w] == (j, f);
                    }
                    assert forall|j: i32, f: FileItem|
                        j != i && spec_has_pair(pre, j, f) implies spec_has_pair(
                        self.sel(),
                        j,
                        f,
                    ) by {
                        let w = choose|w: int| 0 <= w < pre.len() && pre[w] == (j, f);
                        if w < k {
                            assert(self.sel()[w] == (j, f));
                        } else if w > k {
                            assert(self.sel()[w - 1] == (j, f));
                        }
                    }
                    assert forall|w: int|
                        0 <= w < self.sel().len() implies self.sel()[w].0 != i by {
                        if w < k {
                        } else {
                            assert(self.sel()[w] == pre[w + 1]);
                        }
                    }
                }
                return ;
            }
            k = k + 1;
        }
        proof {
            assert(!spec_has_idx(self.sel(), i));
        }
    }

    /// Adds one row to the selection, keeping what was selected before; the
    /// row becomes the single-selection anchor, and the single-selection
    /// flag reflects whether it is now alone.
    pub fn add_to_selected(&mut self, i: i32, file: FileItem)
        requires
            old(self).wf(),
        ensures
            final(self).wf(),
            spec_has_idx(final(self).sel(), i),
            spec_has_pair(final(self).sel(), i, file),
            forall|j: i32|
                j != i ==> spec_has_idx(final(self).sel(), j) == spec_has_idx(old(self).sel(), j),
            forall|j: i32, f: FileItem|
                j != i ==> spec_has_pair(final(self).sel(), j, f) == spec_has_pair(
                    old(self).sel(),
                    j,
                    f,
                ),
            final(self).spec_single_selected_index() == i,
            final(self).sel().last() == (i, file),
            0 <= i < old(self).listing().len() ==> final(self).listing() == old(
                self,
            ).listing().update(
                i as int,
                (FileItem { selected: true, ..old(self).listing()[i as int] }),
            ),
            !(0 <= i < old(self).listing().len()) ==> final(self).listing() == old(self).listing(),
            final(self).sel().len() == 1 ==> final(self).spec_is_single_selected(),
            final(self).sel().len() == 2 ==> !final(self).spec_is_single_selected(),
            final(self).sel().len() <= old(self).sel().len() + 1,
            final(self).sel().len() >= 1,
            old(self).sel().len() == 0 ==> final(self).sel().len() == 1
                && final(self).spec_is_single_selected(),
            final(self).listing().len() == old(self).listing().len(),
    {
        self.remove_idx(i);
        let ghost pre = self.sel();
        self.selected.push((i, file));
        proof {
            assert(self.sel() =~= pre.push((i, self.sel().last().1)));
            assert(self.sel()[pre.len() as int].0 == i);
            assert(spec_has_idx(self.sel(), i));
            assert forall|j: i32|
                j != i implies spec_has_idx(self.sel(), j) == spec_has_idx(pre, j) by {
                if spec_has_idx(self.sel(), j) {
                    let w = choose|w: int| 0 <= w < self.sel().len() && self.sel()[w].0 == j;
                    assert(w < pre.len());
                    assert(pre[w].0 == j);
                }
                if spec_has_idx(pre, j) {
                    let w = choose|w: int| 0 <= w < pre.len() && pre[w].0 == j;
                    assert(self.sel()[w].0 == j);
                }
            }
            assert(spec_has_pair(self.sel(), i, self.sel().last().1)) by {
                assert(self.sel()[self.sel().len() - 1] == (i, self.sel().last().1));
            }
            assert forall|j: i32, f: FileItem|
                j != i implies spec_has_pair(self.sel(), j, f) == spec_has_pair(pre, j, f) by {
                if spec_has_pair(self.sel(), j, f) {
                    let w = choose|w: int| 0 <= w < self.sel().len() && self.sel()[w] == (j, f);
                    assert(w < pre.len());
                    assert(pre[w] == (j, f));
                }
                if spec_has_pair(pre, j, f) {
                    let w = choose|w: int| 0 <= w < pre.len() && pre[w] == (j, f);
                    assert(self.sel()[w] == (j, f));
                }
            }
            assert(spec_distinct_idx(self.sel())) by {
                assert(forall|w: int| 0 <= w < pre.len() ==> self.sel()[w] == pre[w]);
                assert(forall|w: int| 0 <= w < pre.len() ==> pre[w].0 != i);
            }
        }
        // keep the visual flag and the anchor in line with the insertion
        self.set_selected_visual(i, true);
        let len = self.selected.len();
        if len == 2 {
            self.is_single_selected = false;
        } else if len == 1 {
            self.is_single_selected = true;
        }
        self.single_selected_index = i;
    }

    /// Removes one row from the selection.
    pub fn remove_from_selected(&mut self, i: i32)
        requires
            old(self).wf(),
        ensures
            final(self).wf(),
            !spec_has_idx(final(self).sel(), i),
            forall|j: i32|
                j != i ==> spec_has_idx(final(self).sel(), j) == spec_has_idx(old(self).sel(), j),
            final(self).listing().len() == old(self).listing().len(),
            final(self).sel().len() <= old(self).sel().len(),
    {
        if self.selected.len() > 1 {
            self.is_single_selected = false;
        }
        self.remove_idx(i);
        self.set_selected_visual(i, false);
    }

    /// Makes the row the only selected one.
    pub fn set_single_selected(&mut self, i: i32, file: FileItem)
        requires
            old(self).wf(),
            old(self).listing().len() <= i32::MAX,
        ensures
            final(self).wf(),
            spec_has_idx(final(self).sel(), i),
            final(self).sel().len() == 1,
            final(self).sel()[0] == (i, file),
            final(self).spec_is_single_selected(),
            final(self).spec_single_selected_index() == i,
            final(self).listing().len() == old(self).listing().len(),
            forall|k: int|
                0 <= k < final(self).listing().len() && k != i ==> final(self).listing()[k]
                    == (FileItem { selected: false, ..old(self).listing()[k] }),
            0 <= i < old(self).listing().len() ==> final(self).listing()[i as int] == (FileItem {
                selected: true,
                ..old(self).listing()[i as int]
            }),
    {
        self.clear_selection();
        self.add_to_selected(i, file);
    }

    /// Whether nothing is selected.
    pub fn is_nothing_selected(&self) -> (r: bool)
        ensures
            r == (self.sel().len() == 0),
    {
        self.selected.len() == 0
    }

    /// Whether exactly one row is selected.
    pub fn only_one_selected(&self) -> (r: bool)
        ensures
            r == (self.sel().len() == 1),
    {
        self.selected.len() == 1
    }

    /// Selects every row of the listing.
    pub fn select_all(&mut self)
        requires
            old(self).wf(),
            old(self).listing().len() <= i32::MAX,
        ensures
            final(self).wf(),
            forall|k: int|
                0 <= k < old(self).listing().len() && k <= i32::MAX ==> #[trigger] spec_has_idx(
                    final(self).sel(),
                    k as i32,
                ),
            forall|k: int|
                0 <= k < old(self).listing().len() && k <= i32::MAX ==> #[trigger] spec_has_pair(
                    final(self).sel(),
                    k as i32,
                    old(self).listing()[k],
                ),
    {
        let mut k: usize = 0;
        while k < self.files.len()
            invariant
                self.wf(),
                k <= self.files@.len(),
                self.files@.len() <= i32::MAX,
                forall|j: int|
                    0 <= j < k && j <= i32::MAX ==> #[trigger] spec_has_idx(self.sel(), j as i32),
                forall|j: int|
                    0 <= j < k && j <= i32::MAX ==> #[trigger] spec_has_pair(
                        self.sel(),
                        j as i32,
                        old(self).listing()[j],
                    ),
                self.files@.len() == old(self).listing().len(),
                forall|j: int| k <= j < self.files@.len() ==> self.files@[j] == old(self).listing()[j],
            decreases self.files.len() - k,
        {
            if k <= i32::MAX as usize {
                let item = self.files[k].duplicate();
                proof {
                    assert(item == old(self).listing()[k as int]);
                }
                let ghost pre_sel = self.sel();
                let ghost files_pre = self.files@;
                self.add_to_selected(k as i32, item);
                proof {
                    assert forall|j: int|
                        0 <= j < k && j <= i32::MAX implies #[trigger] spec_has_idx(
                        self.sel(),
                        j as i32,
                    ) by {
                        assert(spec_has_idx(pre_sel, j as i32));
                    }
                    assert forall|j: int|
                        0 <= j < k + 1 && j <= i32::MAX implies #[trigger] spec_has_pair(
                        self.sel(),
                        j as i32,
                        old(self).listing()[j],
                    ) by {
                        if j < k {
                            assert(spec_has_pair(pre_sel, j as i32, old(self).listing()[j]));
                        } else {
                            assert(self.sel().last() == (k as i32, item));
                        }
                    }
                    assert(self.files@ == files_pre.update(k as int, (FileItem {
                        selected: true,
                        ..files_pre[k as int]
                    })));
                }
            }
            k = k + 1;
        }
        let len = self.selected.len();
        if len > 1 {
            self.is_single_selected = false;
        } else if len == 1 {
            self.is_single_selected = true;
            self.single_selected_index = 0;
        }
    }

    /// Whether exactly one row is selected and it is a directory.
    pub fn is_single_selected_directory(&self) -> (r: bool)
        ensures
            r == (self.sel().len() == 1 && self.sel()[0].1.is_dir),
    {
        self.selected.len() == 1 && self.selected[0].1.is_dir
    }

    /// If every selected entry is a plain file and they all share one
    /// extension, that extension; `None` otherwise. Used to open several
    /// files with one program.
    pub fn get_common_extension(&self) -> (r: Option<String>)
        ensures
            r is Some <==> (self.sel().len() > 0 && (forall|k: int|
                0 <= k < self.sel().len() ==> !(#[trigger] self.sel()[k]).1.is_dir) && (forall|
                k: int,
            |
                0 <= k < self.sel().len() ==> (#[trigger] self.sel()[k]).1.extension@
                    == self.sel()[0].1.extension@)),
            r is Some ==> r->0@ == self.sel()[0].1.extension@,
    {
        if self.selected.len() == 0 {
            return None;
        }
        if self.selected[0].1.is_dir {
            return None;
        }
        let mut k: usize = 1;
        while k < self.selected.len()
            invariant
                1 <= k <= self.sel().len(),
                self.sel().len() > 0,
                !self.sel()[0].1.is_dir,
                forall|j: int| 0 <= j < k ==> !(#[trigger] self.sel()[j]).1.is_dir,
                forall|j: int|
                    0 <= j < k ==> (#[trigger] self.sel()[j]).1.extension@
                        == self.sel()[0].1.extension@,
            decreases self.selected.len() - k,
        {
            if self.selected[k].1.is_dir {
                return None;
            }
            if !(self.selected[k].1.extension == self.selected[0].1.extension) {
                return None;
            }
            k = k + 1;
        }
        Some(self.selected[0].1.extension.clone())
    }

    /// The directory an action like "create file here" should use: the
    /// current directory when nothing is selected, the selected directory
    /// when exactly one directory is selected, and nothing otherwise.
    pub fn get_selected_path(&self, current_dir: Option<String>) -> (r: Option<String>)
        ensures
            self.sel().len() == 0 ==> r == current_dir,
            self.sel().len() == 1 && self.sel()[0].1.is_dir ==> (r is Some && r->0@
                == self.sel()[0].1.path@),
            self.sel().len() == 1 && !self.sel()[0].1.is_dir ==> r is None,
            self.sel().len() > 1 ==> r is None,
    {
        if self.selected.len() == 0 {
            current_dir
        } else if self.selected.len() == 1 {
            if self.selected[0].1.is_dir {
                Some(self.selected[0].1.path.clone())
            } else {
                None
            }
        } else {
            None
        }
    }

    /// Moves the selection one row down: from nothing to the first row,
    /// otherwise from the anchor to the next row, stopping at the end.
    /// `discard_previous` makes it a single selection; otherwise the step
    /// extends or shrinks the selection the way shift-selection does.
    pub fn select_down(&mut self, discard_previous: bool)
        requires
            old(self).wf(),
            old(self).listing().len() <= i32::MAX,
        ensures
            final(self).wf(),
    {
        let current_i = self.single_selected_index;
        let files_len = self.files.len() as i32;
        let i: i32;
        if self.selected.len() == 0 {
            i = 0;
        } else {
            if current_i >= files_len - 1 {
                return ;
            }
            i = current_i + 1;
        }
        if discard_previous {
            self.clear_selection();
            if i >= 0 && (i as usize) < self.files.len() {
                let item = self.files[i as usize].duplicate();
                self.add_to_selected(i, item);
            }
        } else {
            if self.is_index_selected(i) {
                self.remove_from_selected(current_i);
            } else {
                if i >= 0 && (i as usize) < self.files.len() {
                    let item = self.files[i as usize].duplicate();
                    self.add_to_selected(i, item);
                }
            }
            self.single_selected_index = i;
            self.is_single_selected = self.selected.len() == 1;
        }
    }

    /// Moves the selection one row up, mirroring [`Self::select_down`].
    pub fn select_up(&mut self, discard_previous: bool)
        requires
            old(self).wf(),
            old(self).listing().len() <= i32::MAX,
        ensures
            final(self).wf(),
    {
        let current_i = self.single_selected_index;
        let files_len = self.files.len() as i32;
        let i: i32;
        if self.selected.len() == 0 {
            if files_len == 0 {
                return ;
            }
            i = files_len - 1;
        } else {
            if current_i <= 0 {
                return ;
            }
            i = current_i - 1;
        }
        if discard_previous {
            self.clear_selection();
            if i >= 0 && (i as usize) < self.files.len() {
                let item = self.files[i as usize].duplicate();
                self.add_to_selected(i, item);
            }
        } else {
            if self.is_index_selected(i) {
                self.remove_from_selected(current_i);
            } else {
                if i >= 0 && (i as usize) < self.files.len() {
                    let item = self.files[i as usize].duplicate();
                    self.add_to_selected(i, item);
                }
            }
            self.single_selected_index = i;
            self.is_single_selected = self.selected.len() == 1;
        }
    }

    /// Shift-click selection: extends or shrinks the selection over the
    /// whole range between the anchor and the clicked row — every listed
    /// row of the range gets selected when the clicked row was unselected,
    /// and the range past the clicked row is unselected otherwise — and the
    /// anchor moves to the clicked row.
    pub fn shift_select(&mut self, i: i32)
        requires
            old(self).wf(),
            old(self).listing().len() <= i32::MAX,
        ensures
            final(self).wf(),
            final(self).spec_single_selected_index() == i,
            !final(self).spec_is_single_selected(),
            (!spec_has_idx(old(self).sel(), i) && i < old(self).spec_single_selected_index())
                ==> forall|j: i32|
                i <= j <= old(self).spec_single_selected_index() && 0 <= j && (j as int) < old(
                    self,
                ).listing().len() ==> spec_has_idx(final(self).sel(), j),
            (!spec_has_idx(old(self).sel(), i) && i >= old(self).spec_single_selected_index())
                ==> forall|j: i32|
                old(self).spec_single_selected_index() <= j <= i && 0 <= j && (j as int) < old(
                    self,
                ).listing().len() ==> spec_has_idx(final(self).sel(), j),
            (spec_has_idx(old(self).sel(), i) && i < old(self).spec_single_selected_index())
                ==> forall|j: i32|
                i < j <= old(self).spec_single_selected_index() ==> !spec_has_idx(
                    final(self).sel(),
                    j,
                ),
            (spec_has_idx(old(self).sel(), i) && i >= old(self).spec_single_selected_index() && i
                < i32::MAX) ==> forall|j: i32|
                old(self).spec_single_selected_index() <= j <= i + 1 ==> !spec_has_idx(
                    final(self).sel(),
                    j,
                ),
    {
        let last = self.single_selected_index;
        let was_selected = self.is_index_selected(i);
        let lo: i32;
        let hi: i32;
        if i < last && !was_selected {
            lo = i;
            hi = last;
        } else if i > last && !was_selected {
            lo = last;
            hi = i;
        } else if i < last {
            lo = if i < i32::MAX { i + 1 } else { i };
            hi = last;
        } else {
            lo = last;
            hi = if i < i32::MAX { i + 1 } else { i };
        }
        let mut j: i64 = lo as i64;
        while j <= hi as i64
            invariant
                self.wf(),
                lo as i64 <= j <= hi as i64 + 1,
                self.files@.len() == old(self).listing().len(),
                old(self).listing().len() <= i32::MAX,
                !was_selected ==> forall|j2: i64|
                    lo as i64 <= j2 < j && 0 <= j2 && j2 < old(self).listing().len()
                        ==> #[trigger] spec_has_idx(self.sel(), j2 as i32),
                was_selected ==> forall|j2: i64|
                    lo as i64 <= j2 < j ==> !(#[trigger] spec_has_idx(self.sel(), j2 as i32)),
            decreases hi as i64 + 1 - j,
        {
            if !was_selected {
                if j >= 0 && (j as usize) < self.files.len() {
                    let item = self.files[j as usize].duplicate();
                    let ghost pre_sel = self.sel();
                    self.add_to_selected(j as i32, item);
                    proof {
                        assert forall|j2: i64|
                            lo as i64 <= j2 < j + 1 && 0 <= j2 && j2 < old(self).listing().len()
                                implies #[trigger] spec_has_idx(self.sel(), j2 as i32) by {
                            if j2 < j {
                                assert(spec_has_idx(pre_sel, j2 as i32));
                                assert(j2 as i32 != j as i32);
                            }
                        }
                    }
                }
            } else {
                let ghost pre_sel = self.sel();
                self.remove_from_selected(j as i32);
                proof {
                    assert forall|j2: i64|
                        lo as i64 <= j2 < j + 1 implies !(#[trigger] spec_has_idx(
                        self.sel(),
                        j2 as i32,
                    )) by {
                        if j2 < j {
                            if spec_has_idx(self.sel(), j2 as i32) {
                                assert(j2 as i32 != j as i32) by {
                                    assert(lo as i64 <= j2 < j <= hi as i64);
                                }
                                assert(spec_has_idx(pre_sel, j2 as i32));
                            }
                        }
                    }
                }
            }
            j = j + 1;
        }
        proof {
            if !was_selected {
                assert forall|jj: i32|
                    lo <= jj <= hi && 0 <= jj && (jj as int) < old(self).listing().len() implies
                    spec_has_idx(self.sel(), jj) by {
                    assert(lo as i64 <= (jj as i64) && (jj as i64) < j);
                    assert(spec_has_idx(self.sel(), (jj as i64) as i32));
                }
            } else {
                assert forall|jj: i32| lo <= jj <= hi implies !spec_has_idx(self.sel(), jj) by {
                    assert(lo as i64 <= (jj as i64) && (jj as i64) < j);
                    assert(!spec_has_idx(self.sel(), (jj as i64) as i32));
                }
            }
        }
        self.is_single_selected = false;
        self.single_selected_index = i;
    }
}

} // verus!
