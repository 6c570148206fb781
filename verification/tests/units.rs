use qdfm::conflict::{on_ignore, on_overwrite, on_rename, ConflictState, RenameOption};
use qdfm::estimator::{estimate_time_left, SpeedEstimator};
use qdfm::history::NavHistory;
use qdfm::progress::{
    format_seconds, format_size_and_filecount_progress_status, format_size_progress_status,
    ProgressReporter, ProgressSink, TransferProgress,
};
use qdfm::properties::{get_merged_bitmask, recalculate_bitmask, set_split_bitmask, PermBits};
use qdfm::selection::SelectionState;
use qdfm::types::{
    bad_file, capitalize_first, check_for_dclick, empty_file, empty_file_with_path, format_date,
    format_drive_name, format_size, i32_to_i64, i64_to_i32, is_hidden, is_valid_filename,
    u64_to_string, verify_file, DoubleClickState, FileItem, TabItem,
};
use qdfm::ui_model::{
    breadcrumb_clicked, call_keybind_callback, context_callback_id, fileitem_doubleclicked,
    left_arrow_clicked, menuitem_click, right_arrow_clicked, sidebar_item_clicked,
    ContextCallback, DoubleClickAction, KeybindAction, SidebarItem, TabsState, UIMessage,
};

fn item(path: &str, name: &str, is_dir: bool, ext: &str) -> FileItem {
    FileItem {
        path: path.to_string(),
        file_name: name.to_string(),
        is_dir,
        size: 0,
        date: 0,
        file_type: String::new(),
        is_link: false,
        extension: ext.to_string(),
        selected: false,
    }
}

#[test]
pub fn test_int_converts() {
    assert_eq!(0, i32_to_i64(i64_to_i32(0)));
    assert_eq!(
        0x7FFFFFFFFFFFFFFF,
        i32_to_i64(i64_to_i32(0x7FFFFFFFFFFFFFFF))
    );
    assert_eq!(-1, i32_to_i64(i64_to_i32(-1)));
    assert_eq!(
        -0x7FFFFFFFFFFFFFFF,
        i32_to_i64(i64_to_i32(-0x7FFFFFFFFFFFFFFF))
    );
    assert_eq!(564456456465, i32_to_i64(i64_to_i32(564456456465)));
    assert_eq!(-95135745, i32_to_i64(i64_to_i32(-95135745)));
}

#[test]
fn test_format_size_exact() {
    assert_eq!(format_size(0, false), "0.00 B");
    assert_eq!(format_size(1023, false), "1023.00 B");
    assert_eq!(format_size(1024, false), "1.00 KiB");
    assert_eq!(format_size(1536, false), "1.50 KiB");
    assert_eq!(format_size(1048576, false), "1.00 MiB");
    assert_eq!(format_size(1073741824, false), "1.00 GiB");
    assert_eq!(format_size(1099511627776, false), "1.00 TiB");
    assert_eq!(format_size(2048, true), "2.00 KiB - 2,048 Bytes");
    assert_eq!(format_size(999, true), "999.00 B - 999 Bytes");
}

#[test]
fn test_u64_to_string() {
    assert_eq!(u64_to_string(0), "0");
    assert_eq!(u64_to_string(7), "7");
    assert_eq!(u64_to_string(1048576), "1048576");
}

#[test]
fn test_progress_status_strings() {
    assert_eq!(format_size_progress_status(0, -1), "Calculating...");
    assert_eq!(format_size_progress_status(100, 200), "100.00 B / 200.00 B");
    assert_eq!(
        format_size_and_filecount_progress_status(0, 0, 0, 0),
        "Calculating..."
    );
    assert_eq!(
        format_size_and_filecount_progress_status(100, 400, 1, 3),
        "100.00 B / 400.00 B | 1 / 3 files."
    );
}

#[test]
fn test_format_seconds() {
    assert_eq!(format_seconds(5), "ETA 5s");
    assert_eq!(format_seconds(125), "ETA 2m 5s");
    assert_eq!(format_seconds(3725), "ETA 1h 2m 5s");
}

#[test]
fn test_estimator_convergence_constant_speed() {
    // feeding a constant speed for longer than the window capacity keeps
    // the smoothed average exactly at that speed
    let mut est = SpeedEstimator::with_capacity(5);
    for _ in 0..12 {
        est.update(100);
    }
    assert_eq!(est.len(), 5);
    assert_eq!(est.average_speed(), 100);
}

#[test]
fn test_estimator_smoothing() {
    let mut est = SpeedEstimator::with_capacity(2);
    est.update(100);
    est.update(100);
    // window full: the next sample is smoothed 3/5 against the average
    est.update(200);
    // (3*200 + 2*100) / 5 = 160; window now [100, 160]
    assert_eq!(est.average_speed(), 130);
}

#[test]
fn test_estimate_time_left() {
    // 4_000_000 bytes at 2 bytes per millisecond is 2000 seconds
    assert_eq!(estimate_time_left(2, 4_000_000), 2000);
    assert_eq!(estimate_time_left(1000, 500), 0);
}

#[test]
fn test_conflict_sticky_overwrite_applies_to_all() {
    // choosing Overwrite with "apply to all" leaves no further prompts
    let mut st = ConflictState::new();
    assert!(st.sticky_decision().is_none());
    st.note_response(&on_overwrite(true));
    let mut prompts = 0;
    for _ in 0..9 {
        match st.sticky_decision() {
            Some(RenameOption::Overwrite) => {}
            _ => {
                prompts += 1;
            }
        }
    }
    assert_eq!(prompts, 0);
}

#[test]
fn test_conflict_rename_never_sticks() {
    // choosing Rename with "apply to all" still prompts every time
    let mut st = ConflictState::new();
    let mut prompts = 0;
    for _ in 0..5 {
        if st.sticky_decision().is_none() {
            prompts += 1;
            st.note_response(&on_rename("new_filename".to_string(), true));
        }
    }
    assert_eq!(prompts, 5);
}

#[test]
fn test_conflict_sticky_ignore() {
    let mut st = ConflictState::new();
    st.note_response(&on_ignore(true));
    assert_eq!(st.sticky_decision(), Some(RenameOption::Ignore));
    // an answer without "apply to all" clears the sticky state
    st.note_response(&on_overwrite(false));
    assert!(st.sticky_decision().is_none());
}

#[test]
fn test_reporter_throttles_and_forces() {
    let msg = |force: bool| TransferProgress {
        current: 1,
        total: 2,
        status: "s".to_string(),
        eta_seconds: -1,
        force,
    };
    let mut rep = ProgressReporter::new(100, 1000);
    // within the interval, a plain message is coalesced
    assert!(rep.on_message(msg(false), 1050).is_none());
    // after the interval, the pending message goes out
    assert!(rep.on_timeout(1200).is_some());
    assert!(rep.on_timeout(1400).is_none());
    // a forced message goes out at once
    assert!(rep.on_message(msg(true), 1401).is_some());
}

#[test]
fn test_progress_sink_disconnect() {
    let mut sink = ProgressSink::new();
    let m = TransferProgress {
        current: 0,
        total: 1,
        status: String::new(),
        eta_seconds: -1,
        force: false,
    };
    assert!(sink.send(m).is_ok());
    assert_eq!(sink.sent_count(), 1);
    sink.disconnect();
    let m2 = TransferProgress {
        current: 1,
        total: 1,
        status: String::new(),
        eta_seconds: -1,
        force: false,
    };
    assert!(sink.send(m2).is_err());
    assert_eq!(sink.sent_count(), 1);
}

#[test]
fn test_bitmask_merge_split() {
    let all = PermBits {
        a_x: true,
        a_w: true,
        a_r: true,
        g_x: true,
        g_w: true,
        g_r: true,
        o_x: true,
        o_w: true,
        o_r: true,
    };
    assert_eq!(get_merged_bitmask(&all), 511);
    let b = set_split_bitmask(5);
    assert!(b.a_x && !b.a_w && b.a_r);
    assert_eq!(get_merged_bitmask(&b), 5);
    let eight = set_split_bitmask(8);
    assert_eq!(recalculate_bitmask(&eight), "10");
    assert_eq!(recalculate_bitmask(&all), "777");
}

#[test]
fn test_filename_checks() {
    assert!(is_valid_filename("notes.txt"));
    assert!(!is_valid_filename("a/b"));
    assert!(!is_valid_filename("a\0b"));
    assert!(verify_file("", false).is_some());
    assert!(verify_file("a/b", false).is_some());
    assert!(verify_file("ok.txt", true).is_some());
    assert!(verify_file("ok.txt", false).is_none());
}

#[test]
fn test_file_placeholders() {
    let b = bad_file();
    assert_eq!(b.date, -1);
    assert_eq!(b.path, "???");
    let e = empty_file();
    assert_eq!(e.path, "");
    assert_eq!(e.date, 0);
    let w = empty_file_with_path("/tmp/x");
    assert_eq!(w.path, "/tmp/x");
}

#[test]
fn test_capitalize_and_drive_name() {
    assert_eq!(capitalize_first("storage"), "Storage");
    assert_eq!(capitalize_first(""), "");
    assert_eq!(capitalize_first("9lives"), "9lives");
    assert_eq!(format_drive_name("/"), "/");
    assert_eq!(format_drive_name("/mnt/storage"), "Storage");
    assert_eq!(format_drive_name("no_slash"), "No_slash");
    assert!(is_hidden("/boot"));
    assert!(!is_hidden("/home"));
}

#[test]
fn test_check_for_dclick() {
    let mut st = DoubleClickState {
        last_click_ms: 0,
        last_index: -1,
    };
    // first click on a row never completes a double click
    assert!(!check_for_dclick(&mut st, 3, 1000));
    // a second click on the same row within the delay does
    assert!(check_for_dclick(&mut st, 3, 1400));
    // a click on a different row starts over
    assert!(!check_for_dclick(&mut st, 4, 1450));
    // too late
    assert!(!check_for_dclick(&mut st, 4, 2451));
}

#[test]
fn test_format_date_shape() {
    // the exact text depends on the machine's time zone; the shape does not
    let d = format_date(0);
    assert!(d == "ERR" || d.contains("-"));
    let far = format_date(i64::MAX);
    assert_eq!(far, "ERR");
}

#[test]
fn test_selection_basics() {
    let files = vec![
        item("/d/a.txt", "a.txt", false, "txt"),
        item("/d/b.txt", "b.txt", false, "txt"),
        item("/d/sub", "sub", true, ""),
    ];
    let mut sel = SelectionState::new(files);
    assert!(sel.is_nothing_selected());
    sel.add_to_selected(0, item("/d/a.txt", "a.txt", false, "txt"));
    assert!(sel.only_one_selected());
    assert!(sel.is_index_selected(0));
    assert!(!sel.is_index_selected(1));
    assert_eq!(sel.get_selected_file().unwrap().path, "/d/a.txt");
    sel.add_to_selected(1, item("/d/b.txt", "b.txt", false, "txt"));
    assert!(!sel.only_one_selected());
    assert_eq!(sel.get_common_extension().unwrap(), "txt");
    sel.add_to_selected(2, item("/d/sub", "sub", true, ""));
    assert!(sel.get_common_extension().is_none());
    assert!(!sel.is_single_selected_directory());
    sel.set_single_selected(2, item("/d/sub", "sub", true, ""));
    assert!(sel.is_single_selected_directory());
    assert_eq!(sel.get_selected_path(None).unwrap(), "/d/sub");
    sel.clear_selection();
    assert!(sel.is_nothing_selected());
    assert_eq!(
        sel.get_selected_path(Some("/d".to_string())).unwrap(),
        "/d"
    );
    let cloned = sel.selected_files_clone();
    assert_eq!(cloned.len(), 0);
}

#[test]
fn test_selection_keyboard() {
    let files = vec![
        item("/d/a", "a", false, ""),
        item("/d/b", "b", false, ""),
        item("/d/c", "c", false, ""),
    ];
    let mut sel = SelectionState::new(files);
    sel.select_down(true);
    assert!(sel.is_index_selected(0));
    sel.select_down(true);
    assert!(sel.is_index_selected(1));
    assert!(!sel.is_index_selected(0));
    sel.select_up(true);
    assert!(sel.is_index_selected(0));
    sel.select_all();
    assert!(sel.is_index_selected(0) && sel.is_index_selected(1) && sel.is_index_selected(2));
    let mut sel2 = SelectionState::new(vec![
        item("/d/a", "a", false, ""),
        item("/d/b", "b", false, ""),
        item("/d/c", "c", false, ""),
    ]);
    sel2.set_single_selected(0, item("/d/a", "a", false, ""));
    sel2.shift_select(2);
    assert!(sel2.is_index_selected(0) && sel2.is_index_selected(1) && sel2.is_index_selected(2));
    // shift-clicking a selected row unselects the range past it
    sel2.shift_select(0);
    assert!(!sel2.is_index_selected(1) && !sel2.is_index_selected(2));
}

#[test]
fn test_history_navigation() {
    let tab = |p: &str| TabItem {
        internal_path: p.to_string(),
        text: p.to_string(),
        text_length: -1,
        selected: true,
    };
    let mut hist = NavHistory::new(2);
    assert!(hist.get_prev_history(tab("/now")).is_none());
    hist.add_to_history(tab("/one"));
    hist.add_to_history(tab("/two"));
    // the depth is two: a third entry drops the oldest
    hist.add_to_history(tab("/three"));
    let (l, _r) = hist.get_history();
    assert_eq!(l.len(), 2);
    let back = hist.get_prev_history(tab("/now")).unwrap();
    assert_eq!(back.internal_path, "/three");
    let fwd = hist.get_next_history(tab("/three")).unwrap();
    assert_eq!(fwd.internal_path, "/now");
}

#[test]
fn test_ui_dispatch() {
    assert_eq!(context_callback_id(ContextCallback::Copy), 6);
    assert_eq!(menuitem_click(6), Some(ContextCallback::Copy));
    assert_eq!(menuitem_click(42), None);
    assert_eq!(call_keybind_callback("enter"), KeybindAction::Enter);
    assert_eq!(call_keybind_callback("select_all"), KeybindAction::SelectAll);
    assert_eq!(call_keybind_callback("bogus"), KeybindAction::Invalid);
    let msg = sidebar_item_clicked(SidebarItem {
        internal_path: "/mnt".to_string(),
        text: "Mnt".to_string(),
    });
    match msg {
        UIMessage::SetCurrentTabFile(t, remember) => {
            assert_eq!(t.internal_path, "/mnt");
            assert!(remember);
        }
        _ => panic!("expected navigation"),
    }
    let crumb = TabItem {
        internal_path: "/a/b".to_string(),
        text: "b".to_string(),
        text_length: 1,
        selected: true,
    };
    match breadcrumb_clicked(crumb) {
        UIMessage::SetCurrentTabFile(t, remember) => {
            assert_eq!(t.internal_path, "/a/b");
            assert!(remember);
        }
        _ => panic!("expected navigation"),
    }
    match fileitem_doubleclicked(item("/d/sub", "sub", true, ""), false) {
        DoubleClickAction::Navigate(UIMessage::SetCurrentTabFile(t, _)) => {
            assert_eq!(t.internal_path, "/d/sub")
        }
        _ => panic!("expected navigation"),
    }
    assert!(matches!(
        fileitem_doubleclicked(item("/d/a.pdf", "a.pdf", false, "pdf"), true),
        DoubleClickAction::OpenWithDefault
    ));
    assert!(matches!(
        fileitem_doubleclicked(item("/d/a.pdf", "a.pdf", false, "pdf"), false),
        DoubleClickAction::Nothing
    ));
    let mut hist = NavHistory::new(4);
    let now = TabItem {
        internal_path: "/now".to_string(),
        text: "now".to_string(),
        text_length: 3,
        selected: true,
    };
    assert!(left_arrow_clicked(&mut hist, now.duplicate()).is_none());
    assert!(right_arrow_clicked(&mut hist, now.duplicate()).is_none());
    hist.add_to_history(TabItem {
        internal_path: "/old".to_string(),
        text: "old".to_string(),
        text_length: 3,
        selected: true,
    });
    match left_arrow_clicked(&mut hist, now) {
        Some(UIMessage::SetCurrentTabFile(t, remember)) => {
            assert_eq!(t.internal_path, "/old");
            assert!(!remember);
        }
        _ => panic!("expected navigation"),
    }
}

#[test]
fn test_tabs_state() {
    let tabs = TabsState::new("/home".to_string());
    assert_eq!(tabs.get_current_tab_idx(), 0);
    assert_eq!(tabs.get_readonly_tab(0).path, "/home");
}

#[test]
fn test_file_item_from_metadata() {
    let f = qdfm::types::file_item_from_metadata(
        "/d/a.txt".to_string(),
        "a.txt".to_string(),
        false,
        200,
        77,
        false,
        "txt".to_string(),
    );
    assert_eq!(f.size, 200);
    assert_eq!(f.file_type, "txt");
    let d = qdfm::types::file_item_from_metadata(
        "/d/sub".to_string(),
        "sub".to_string(),
        true,
        4096,
        77,
        false,
        "".to_string(),
    );
    // directories report size zero so they sort together
    assert_eq!(d.size, 0);
    assert_eq!(d.file_type, "N/A");
}

