//! The decisions the widget callbacks make, separated from the widget
//! toolkit: the messages the engine sends the UI thread, the context-menu
//! dispatch table, keybinding dispatch, and the navigation actions of the
//! sidebar, breadcrumbs and double clicks.

use crate::history::NavHistory;
use crate::types::{FileItem, TabItem};
use vstd::prelude::*;

verus! {

/// A fire-and-forget message to the UI thread.
pub enum UIMessage {
    /// Redraw the current listing.
    Refresh,
    /// Navigate to a location; the flag says whether the step is recorded
    /// for the breadcrumbs and history.
    SetCurrentTabFile(TabItem, bool),
    /// Close the open context menu.
    HideContextMenu,
}

/// What a context-menu row does when clicked.
#[derive(Clone, Copy, Debug, PartialEq, Eq, Structural)]
pub enum ContextCallback {
    OpenWithDefault,
    OpenWith,
    OpenWithQuick,
    ManageQuick,
    ShowProperties,
    Cut,
    Copy,
    PasteIntoSelected,
    PasteHere,
    Delete,
}

/// The numeric id a context-menu row carries for its callback.
pub open spec fn spec_callback_id(c: ContextCallback) -> i32 {
    match c {
        ContextCallback::OpenWithDefault => 0,
        ContextCallback::OpenWith => 1,
        ContextCallback::OpenWithQuick => 2,
        ContextCallback::ManageQuick => 3,
        ContextCallback::ShowProperties => 4,
        ContextCallback::Cut => 5,
        ContextCallback::Copy => 6,
        ContextCallback::PasteIntoSelected => 7,
        ContextCallback::PasteHere => 8,
        ContextCallback::Delete => 9,
    }
}

/// The numeric id a context-menu row carries for its callback.
pub fn context_callback_id(c: ContextCallback) -> (r: i32)
    ensures
        r == spec_callback_id(c),
{
    match c {
        ContextCallback::OpenWithDefault => 0,
        ContextCallback::OpenWith => 1,
        ContextCallback::OpenWithQuick => 2,
        ContextCallback::ManageQuick => 3,
        ContextCallback::ShowProperties => 4,
        ContextCallback::Cut => 5,
        ContextCallback::Copy => 6,
        ContextCallback::PasteIntoSelected => 7,
        ContextCallback::PasteHere => 8,
        ContextCallback::Delete => 9,
    }
}

/// Dispatches one clicked context-menu row back to its callback: the
/// inverse of [`context_callback_id`], `None` for an unknown id.
pub fn menuitem_click(callback_id: i32) -> (r: Option<ContextCallback>)
    ensures
        forall|c: ContextCallback| callback_id == spec_callback_id(c) ==> r == Some(c),
        (forall|c: ContextCallback| callback_id != spec_callback_id(c)) ==> r is None,
{
    proof {
        assert(spec_callback_id(ContextCallback::OpenWithDefault) == 0);
        assert(spec_callback_id(ContextCallback::OpenWith) == 1);
        assert(spec_callback_id(ContextCallback::OpenWithQuick) == 2);
        assert(spec_callback_id(ContextCallback::ManageQuick) == 3);
        assert(spec_callback_id(ContextCallback::ShowProperties) == 4);
        assert(spec_callback_id(ContextCallback::Cut) == 5);
        assert(spec_callback_id(ContextCallback::Copy) == 6);
        assert(spec_callback_id(ContextCallback::PasteIntoSelected) == 7);
        assert(spec_callback_id(ContextCallback::PasteHere) == 8);
        assert(spec_callback_id(ContextCallback::Delete) == 9);
    }
    let r = if callback_id == 0 {
        Some(ContextCallback::OpenWithDefault)
    } else if callback_id == 1 {
        Some(ContextCallback::OpenWith)
    } else if callback_id == 2 {
        Some(ContextCallback::OpenWithQuick)
    } else if callback_id == 3 {
        Some(ContextCallback::ManageQuick)
    } else if callback_id == 4 {
        Some(ContextCallback::ShowProperties)
    } else if callback_id == 5 {
        Some(ContextCallback::Cut)
    } else if callback_id == 6 {
        Some(ContextCallback::Copy)
    } else if callback_id == 7 {
        Some(ContextCallback::PasteIntoSelected)
    } else if callback_id == 8 {
        Some(ContextCallback::PasteHere)
    } else if callback_id == 9 {
        Some(ContextCallback::Delete)
    } else {
        None
    };
    r
}

/// A sidebar entry: a mount point or bookmark the user can jump to.
pub struct SidebarItem {
    pub internal_path: String,
    pub text: String,
}

/// A clicked sidebar entry navigates to its location, recorded in the
/// breadcrumbs.
pub fn sidebar_item_clicked(item: SidebarItem) -> (r: UIMessage)
    ensures
        match r {
            UIMessage::SetCurrentTabFile(t, remember) => t.internal_path@ == item.internal_path@
                && t.text@ == item.text@ && t.selected && remember,
            _ => false,
        },
{
    let text_length = if item.text.as_bytes_vec().len() <= i32::MAX as usize {
        item.text.as_bytes_vec().len() as i32
    } else {
        i32::MAX
    };
    UIMessage::SetCurrentTabFile(
        TabItem { internal_path: item.internal_path, text: item.text, text_length, selected: true },
        true,
    )
}

/// A clicked breadcrumb navigates to the location it names.
pub fn breadcrumb_clicked(item: TabItem) -> (r: UIMessage)
    ensures
        r == UIMessage::SetCurrentTabFile(item, true),
{
    UIMessage::SetCurrentTabFile(item, true)
}

/// The back arrow: steps to the previous location, if there is one.
pub fn left_arrow_clicked(hist: &mut NavHistory, current: TabItem) -> (r: Option<UIMessage>)
    ensures
        old(hist).lhist().len() == 0 ==> r is None,
        old(hist).lhist().len() > 0 ==> r == Some(
            UIMessage::SetCurrentTabFile(old(hist).lhist().last(), false),
        ),
{
    match hist.get_prev_history(current) {
        Some(t) => Some(UIMessage::SetCurrentTabFile(t, false)),
        None => None,
    }
}

/// The forward arrow: steps to the next location, if there is one.
pub fn right_arrow_clicked(hist: &mut NavHistory, current: TabItem) -> (r: Option<UIMessage>)
    ensures
        old(hist).rhist().len() == 0 ==> r is None,
        old(hist).rhist().len() > 0 ==> r == Some(
            UIMessage::SetCurrentTabFile(old(hist).rhist().last(), false),
        ),
{
    match hist.get_next_history(current) {
        Some(t) => Some(UIMessage::SetCurrentTabFile(t, false)),
        None => None,
    }
}

/// What a double click on a listing row does.
pub enum DoubleClickAction {
    /// Move into the directory.
    Navigate(UIMessage),
    /// Open the file with its default program.
    OpenWithDefault,
    /// Nothing: the file has no default program.
    Nothing,
}

/// A double-clicked directory is entered; a double-clicked file opens with
/// its default program, when one is configured for its extension.
pub fn fileitem_doubleclicked(item: FileItem, has_default_mapping: bool) -> (r: DoubleClickAction)
    ensures
        item.is_dir ==> match r {
            DoubleClickAction::Navigate(m) => match m {
                UIMessage::SetCurrentTabFile(t, remember) => t.internal_path@ == item.path@
                    && t.text@ == item.file_name@ && remember,
                _ => false,
            },
            _ => false,
        },
        !item.is_dir && has_default_mapping ==> r is OpenWithDefault,
        !item.is_dir && !has_default_mapping ==> r is Nothing,
{
    if item.is_dir {
        let text_length = if item.file_name.as_bytes_vec().len() <= i32::MAX as usize {
            item.file_name.as_bytes_vec().len() as i32
        } else {
            i32::MAX
        };
        DoubleClickAction::Navigate(
            UIMessage::SetCurrentTabFile(
                TabItem {
                    internal_path: item.path,
                    text: item.file_name,
                    text_length,
                    selected: true,
                },
                true,
            ),
        )
    } else if has_default_mapping {
        DoubleClickAction::OpenWithDefault
    } else {
        DoubleClickAction::Nothing
    }
}

/// What a keybinding does.
#[derive(Clone, Copy, Debug, PartialEq, Eq, Structural)]
pub enum KeybindAction {
    SelectAll,
    SelectDown,
    SelectUp,
    ShiftSelectDown,
    ShiftSelectUp,
    Enter,
    /// The configured name matches no feature: log and do nothing.
    Invalid,
}

/// Maps a configured feature name to the action it triggers; an unknown
/// name is invalid and only logged.
pub fn call_keybind_callback(name: &str) -> (r: KeybindAction)
    ensures
        name@ == "select_all"@ ==> r == KeybindAction::SelectAll,
        name@ == "select_down"@ ==> r == KeybindAction::SelectDown,
        name@ == "select_up"@ ==> r == KeybindAction::SelectUp,
        name@ == "shift_select_down"@ ==> r == KeybindAction::ShiftSelectDown,
        name@ == "shift_select_up"@ ==> r == KeybindAction::ShiftSelectUp,
        name@ == "enter"@ ==> r == KeybindAction::Enter,
{
    proof {
        reveal_strlit("select_all");
        reveal_strlit("select_down");
        reveal_strlit("select_up");
        reveal_strlit("shift_select_down");
        reveal_strlit("shift_select_up");
        reveal_strlit("enter");
        assert("select_all"@.len() == 10);
        assert("select_down"@.len() == 11);
        assert("select_up"@.len() == 9);
        assert("shift_select_down"@.len() == 17);
        assert("shift_select_up"@.len() == 15);
        assert("enter"@.len() == 5);
    }
    if crate::clipboard::str_eq(name, "select_all") {
        KeybindAction::SelectAll
    } else if crate::clipboard::str_eq(name, "select_down") {
        KeybindAction::SelectDown
    } else if crate::clipboard::str_eq(name, "select_up") {
        KeybindAction::SelectUp
    } else if crate::clipboard::str_eq(name, "shift_select_down") {
        KeybindAction::ShiftSelectDown
    } else if crate::clipboard::str_eq(name, "shift_select_up") {
        KeybindAction::ShiftSelectUp
    } else if crate::clipboard::str_eq(name, "enter") {
        KeybindAction::Enter
    } else {
        KeybindAction::Invalid
    }
}

/// The tab bar's model: the open tabs and which one is current.
pub struct TabsState {
    tabs: Vec<Tab>,
    current: usize,
}

/// One open tab.
#[derive(Clone)]
pub struct Tab {
    pub path: String,
}

impl TabsState {
    pub closed spec fn tabs(self) -> Seq<Tab> {
        self.tabs@
    }

    pub closed spec fn current_idx(self) -> int {
        self.current as int
    }

    pub open spec fn wf(self) -> bool {
        self.tabs().len() > 0 && 0 <= self.current_idx() < self.tabs().len()
    }

    /// One tab, open at the given path.
    pub fn new(path: String) -> (r: TabsState)
        ensures
            r.wf(),
            r.tabs().len() == 1,
            r.tabs()[0].path == path,
            r.current_idx() == 0,
    {
        let mut tabs: Vec<Tab> = Vec::new();
        tabs.push(Tab { path });
        TabsState { tabs, current: 0 }
    }

    /// A copy of the tab at the index.
    pub fn get_readonly_tab(&self, i: usize) -> (r: Tab)
        requires
            i < self.tabs().len(),
        ensures
            r.path == self.tabs()[i as int].path,
    {
        Tab { path: self.tabs[i].path.clone() }
    }

    /// The index of the current tab.
    pub fn get_current_tab_idx(&self) -> (r: usize)
        ensures
            r == self.current_idx(),
    {
        self.current
    }
}

} // verus!
