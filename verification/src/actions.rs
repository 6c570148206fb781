//! The context-menu actions, decoupled from the menu widgets: building the
//! commands that open files, staging the clipboard operations, and creating
//! new entries, each as a decision over explicit state.

use crate::clipboard::{copy_file as clipboard_copy_file, cut_file as clipboard_cut_file,
    path_components, ClipboardState};
use crate::clipboard::spec_path_components;
use crate::fs::{find, has_path, path_join, Fs, FsNodeV, PathV};
use crate::paste::spec_parent_ok_in;
use crate::selection::SelectionState;
use crate::types::{is_valid_filename, spec_valid_filename, FileItem};
use crate::ui_model::{spec_callback_id, ContextCallback};
use vstd::prelude::*;

verus! {

/// One "open with" program: the name shown in the menu and the command run.
pub struct Mapping {
    pub display_name: String,
    pub command: String,
}

/// One row of a context menu, as the engine sees it.
pub struct ContextItem {
    pub display: String,
    pub callback_id: i32,
    pub shortcut: String,
    pub has_separator: bool,
    pub click_on_hover: bool,
    pub internal_id: i32,
}

/// The first mapping shown under the given name, if any.
pub fn find_mapping(quick: &Vec<Mapping>, name: &String) -> (r: Option<usize>)
    ensures
        match r {
            Some(i) => i < quick@.len() && quick@[i as int].display_name@ == name@ && (forall|
                j: int,
            | 0 <= j < i ==> quick@[j].display_name@ != name@),
            None => forall|j: int| 0 <= j < quick@.len() ==> quick@[j].display_name@ != name@,
        },
{
    let mut i: usize = 0;
    while i < quick.len()
        invariant
            i <= quick@.len(),
            forall|j: int| 0 <= j < i ==> quick@[j].display_name@ != name@,
        decreases quick.len() - i,
    {
        if crate::clipboard::str_eq(quick[i].display_name.as_str(), name.as_str()) {
            return Some(i);
        }
        i = i + 1;
    }
    None
}

/// One shell command per file: the program followed by the file's path.
pub fn build_commands(command: &String, files: &Vec<FileItem>) -> (r: Vec<String>)
    ensures
        r@.len() == files@.len(),
        forall|k: int|
            0 <= k < r@.len() ==> r@[k]@ == command@ + seq![' '] + files@[k].path@,
{
    proof {
        reveal_strlit(" ");
        assert(" "@ =~= seq![' ']);
    }
    let mut r: Vec<String> = Vec::new();
    let mut k: usize = 0;
    while k < files.len()
        invariant
            k <= files@.len(),
            r@.len() == k,
            forall|j: int| 0 <= j < k ==> r@[j]@ == command@ + seq![' '] + files@[j].path@,
        decreases files.len() - k,
    {
        proof {
            reveal_strlit(" ");
            assert(" "@ =~= seq![' ']);
        }
        let mut cmd = command.clone();
        cmd.append(" ");
        cmd.append(files[k].path.as_str());
        proof {
            assert(cmd@ =~= command@ + seq![' '] + files@[k as int].path@);
        }
        r.push(cmd);
        k = k + 1;
    }
    r
}

/// The commands that open the files with the default program configured for
/// their extension: one per file when such a mapping exists, none
/// otherwise. Running them is the caller's side of the split.
pub fn open_with_default(
    files: &Vec<FileItem>,
    default_name: Option<&String>,
    quick: &Vec<Mapping>,
) -> (r: Vec<String>)
    ensures
        match default_name {
            Some(_) => true,
            None => r@.len() == 0,
        },
        (default_name is Some && (forall|j: int|
            0 <= j < quick@.len() ==> quick@[j].display_name@ != default_name->0@)) ==> r@.len()
            == 0,
        forall|i: int|
            {
                &&& default_name is Some
                &&& 0 <= i < quick@.len()
                &&& quick@[i].display_name@ == default_name->0@
                &&& (forall|j: int| 0 <= j < i ==> quick@[j].display_name@ != default_name->0@)
            } ==> r@.len() == files@.len() && (forall|k: int|
                0 <= k < r@.len() ==> r@[k]@ == quick@[i].command@ + seq![' ']
                    + files@[k].path@),
{
    match default_name {
        Some(name) => {
            match find_mapping(quick, name) {
                Some(i) => build_commands(&quick[i].command, files),
                None => Vec::new(),
            }
        },
        None => Vec::new(),
    }
}

/// The commands for one chosen "open with" entry, applied to every file.
pub fn open_with_quick(files: &Vec<FileItem>, quick: &Vec<Mapping>, internal_id: usize) -> (r:
    Vec<String>)
    requires
        internal_id < quick@.len(),
    ensures
        r@.len() == files@.len(),
        forall|k: int|
            0 <= k < r@.len() ==> r@[k]@ == quick@[internal_id as int].command@ + seq![' ']
                + files@[k].path@,
{
    build_commands(&quick[internal_id].command, files)
}

/// The row of the menu that anchors the "open with" submenu.
pub fn get_index(items: &Vec<ContextItem>) -> (r: Option<usize>)
    ensures
        match r {
            Some(i) => i < items@.len() && items@[i as int].callback_id == spec_callback_id(
                ContextCallback::OpenWith,
            ),
            None => forall|j: int|
                0 <= j < items@.len() ==> items@[j].callback_id != spec_callback_id(
                    ContextCallback::OpenWith,
                ),
        },
{
    let id = crate::ui_model::context_callback_id(ContextCallback::OpenWith);
    let mut i: usize = 0;
    while i < items.len()
        invariant
            i <= items@.len(),
            id == spec_callback_id(ContextCallback::OpenWith),
            forall|j: int| 0 <= j < i ==> items@[j].callback_id != id,
        decreases items.len() - i,
    {
        if items[i].callback_id == id {
            return Some(i);
        }
        i = i + 1;
    }
    None
}

/// Whether hovering a row must close the open submenu: it belongs to a
/// different callback than the one the submenu hangs off.
pub fn menuitem_hover(hovered_callback_id: i32, current_hover_callback_id: i32) -> (r: bool)
    ensures
        r == (hovered_callback_id != current_hover_callback_id),
{
    hovered_callback_id != current_hover_callback_id
}

/// Copies the selected files to the clipboard (a plain copy clears any
/// pending cut).
pub fn copy(sel: &SelectionState, clip: &mut ClipboardState) -> (ok: bool)
    ensures
        final(clip).cut_paths().len() == 0,
{
    let files = sel.selected_files_clone();
    clipboard_copy_file(&files, false, clip)
}

/// Cuts the selected files: stages them for a move and refreshes the
/// clipboard payload.
pub fn cut(sel: &SelectionState, clip: &mut ClipboardState) -> (ok: bool)
    ensures
        final(clip).cut_paths().len() == sel.sel().len(),
        forall|k: int|
            0 <= k < sel.sel().len() ==> final(clip).cut_paths()[k] == sel.sel()[k].1.path@,
{
    let files = sel.selected_files_clone();
    let ghost filesv = files@;
    let r = clipboard_cut_file(files, clip);
    proof {
        assert(crate::clipboard::spec_paths_of(filesv).len() == sel.sel().len());
        assert(forall|k: int|
            0 <= k < sel.sel().len() ==> crate::clipboard::spec_paths_of(filesv)[k]
                == sel.sel()[k].1.path@);
    }
    r
}

/// Where a paste lands: into the single selected directory — pasting
/// anywhere else needs exactly one directory selected.
pub fn paste(sel: &SelectionState) -> (r: Option<Vec<String>>)
    ensures
        r is Some <==> (sel.sel().len() == 1 && sel.sel()[0].1.is_dir),
        r is Some ==> r->0.deep_view() == spec_path_components(sel.sel()[0].1.path@),
{
    match sel.get_selected_file() {
        Some(f) => {
            if f.is_dir {
                Some(path_components(f.path.as_str()))
            } else {
                None
            }
        },
        None => None,
    }
}

/// What a delete acts on: the selected paths, as component lists for the
/// delete engine.
pub fn delete(sel: &SelectionState) -> (r: Vec<Vec<String>>)
    ensures
        r@.len() <= sel.sel().len(),
{
    let files = sel.selected_files_clone();
    let mut r: Vec<Vec<String>> = Vec::new();
    let mut k: usize = 0;
    while k < files.len()
        invariant
            k <= files@.len(),
            r@.len() <= k,
        decreases files.len() - k,
    {
        let comps = path_components(files[k].path.as_str());
        if comps.len() > 0 {
            r.push(comps);
        }
        k = k + 1;
    }
    r
}

/// Creates an empty file named `name` in the directory, after the same
/// checks the dialog makes: a valid name that does not exist yet.
pub fn create_new_file(fs: &mut Fs, dir: &Vec<String>, name: &String) -> (r: Result<(), ()>)
    requires
        old(fs).wf(),
    ensures
        final(fs).wf(),
        r is Ok <==> (spec_valid_filename(name@) && name@.len() > 0 && !has_path(
            old(fs).model(),
            dir.deep_view().push(name@),
        ) && spec_parent_ok_in(old(fs).model(), dir.deep_view().push(name@))),
        r is Err ==> *final(fs) == *old(fs),
        r is Ok ==> {
            &&& find(final(fs).model(), dir.deep_view().push(name@)) == Some(
                FsNodeV::File { data: Seq::<u8>::empty(), readable: true },
            )
            &&& forall|q: PathV|
                q != dir.deep_view().push(name@) ==> find(final(fs).model(), q) == find(
                    old(fs).model(),
                    q,
                )
        },
{
    let child = path_join(dir, name);
    if name.unicode_len() == 0 || !is_valid_filename(name.as_str()) {
        return Err(());
    }
    if fs.exists_path(&child) {
        return Err(());
    }
    let empty: Vec<u8> = Vec::new();
    proof {
        assert(empty@ =~= Seq::<u8>::empty());
        assert(child@.len() == child.deep_view().len());
    }
    if fs.write_file(&child, empty, true) {
        Ok(())
    } else {
        Err(())
    }
}

/// Creates a directory named `name` in the directory, after the same
/// checks.
pub fn create_new_dir(fs: &mut Fs, dir: &Vec<String>, name: &String) -> (r: Result<(), ()>)
    requires
        old(fs).wf(),
    ensures
        final(fs).wf(),
        r is Ok <==> (spec_valid_filename(name@) && name@.len() > 0 && !has_path(
            old(fs).model(),
            dir.deep_view().push(name@),
        ) && spec_parent_ok_in(old(fs).model(), dir.deep_view().push(name@))),
        r is Err ==> *final(fs) == *old(fs),
        r is Ok ==> {
            &&& find(final(fs).model(), dir.deep_view().push(name@)) == Some(FsNodeV::Dir)
            &&& forall|q: PathV|
                q != dir.deep_view().push(name@) ==> find(final(fs).model(), q) == find(
                    old(fs).model(),
                    q,
                )
        },
{
    let child = path_join(dir, name);
    if name.unicode_len() == 0 || !is_valid_filename(name.as_str()) {
        return Err(());
    }
    proof {
        assert(child@.len() == child.deep_view().len());
    }
    if fs.create_dir(&child) {
        Ok(())
    } else {
        Err(())
    }
}

/// Creates a symbolic link named `name` in the directory, pointing at
/// `target`, after the same checks.
pub fn create_new_link(fs: &mut Fs, dir: &Vec<String>, name: &String, target: String) -> (r:
    Result<(), ()>)
    requires
        old(fs).wf(),
    ensures
        final(fs).wf(),
        r is Ok <==> (spec_valid_filename(name@) && name@.len() > 0 && !has_path(
            old(fs).model(),
            dir.deep_view().push(name@),
        ) && spec_parent_ok_in(old(fs).model(), dir.deep_view().push(name@))),
        r is Err ==> *final(fs) == *old(fs),
        r is Ok ==> {
            &&& find(final(fs).model(), dir.deep_view().push(name@)) == Some(
                FsNodeV::Symlink { target: target@ },
            )
            &&& forall|q: PathV|
                q != dir.deep_view().push(name@) ==> find(final(fs).model(), q) == find(
                    old(fs).model(),
                    q,
                )
        },
{
    let child = path_join(dir, name);
    if name.unicode_len() == 0 || !is_valid_filename(name.as_str()) {
        return Err(());
    }
    proof {
        assert(child@.len() == child.deep_view().len());
    }
    if fs.create_symlink(&child, target) {
        Ok(())
    } else {
        Err(())
    }
}

/// The create-new dialog's starting state: the target directory filled in,
/// everything else blank.
pub struct CreateNewState {
    pub path_to_directory: String,
    pub warning: String,
    pub link_target: String,
    pub name: String,
}

/// Prepares the create-new dialog for a directory.
pub fn prepare_create_new(path: &String) -> (r: CreateNewState)
    ensures
        r.path_to_directory@ == path@,
        r.warning@.len() == 0,
        r.link_target@.len() == 0,
        r.name@.len() == 0,
{
    proof {
        reveal_strlit("");
        assert(""@.len() == 0);
    }
    CreateNewState {
        path_to_directory: path.clone(),
        warning: "".to_owned(),
        link_target: "".to_owned(),
        name: "".to_owned(),
    }
}

} // verus!
