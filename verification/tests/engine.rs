use qdfm::clipboard::{
    clipboard_payload, cut_file, parse_clipboard_text, resolve_paste_sources, move_file,
    rename_or_copy_file, split_lines, strip_file_scheme, str_eq, str_starts_with, ClipboardState,
};
use qdfm::conflict::{on_ignore, on_overwrite, on_rename, RenameWindowReturn};
use qdfm::delete::delete;
use qdfm::fs::{Fs, FsNode};
use qdfm::paste::{copy_single_file_operation, paste_file, PasteCtx, ResolverScript, TransferEvent};
use qdfm::progress::ProgressSink;
use qdfm::types::empty_file_with_path;

fn p(parts: &[&str]) -> Vec<String> {
    parts.iter().map(|s| s.to_string()).collect()
}

fn mkdirs(fs: &mut Fs, paths: &[&[&str]]) {
    for d in paths {
        assert!(fs.create_dir(&p(d)));
    }
}

fn file_bytes(fs: &Fs, path: &[&str]) -> Option<Vec<u8>> {
    match fs.lookup(&p(path)) {
        Some(FsNode::File { data, .. }) => Some(data),
        _ => None,
    }
}

fn is_dir(fs: &Fs, path: &[&str]) -> bool {
    matches!(fs.lookup(&p(path)), Some(FsNode::Dir))
}

fn gone(fs: &Fs, path: &[&str]) -> bool {
    fs.lookup(&p(path)).is_none()
}

/// Source `/tmp/src/{a.txt(200B), sub/b.txt(200B)}` and an empty
/// destination `/tmp/dst`.
fn scenario_fs() -> Fs {
    let mut fs = Fs::new();
    mkdirs(&mut fs, &[&["tmp"], &["tmp", "src"], &["tmp", "src", "sub"], &["tmp", "dst"]]);
    assert!(fs.write_file(&p(&["tmp", "src", "a.txt"]), vec![b'a'; 200], true));
    assert!(fs.write_file(&p(&["tmp", "src", "sub", "b.txt"]), vec![b'b'; 200], true));
    fs
}

#[test]
fn test_paste_copy_scenario() {
    // copy of /tmp/src into the empty /tmp/dst: the tree is reproduced
    // byte for byte and the source still exists
    let mut fs = scenario_fs();
    let sources = vec![p(&["tmp", "src"])];
    let report = paste_file(
        &mut fs,
        &sources,
        &p(&["tmp", "dst"]),
        false,
        ResolverScript::new(vec![]),
        ProgressSink::new(),
    );
    assert!(report.started);
    assert!(!report.canceled);
    assert!(report.all_success);
    assert!(!report.any_skipped);
    assert_eq!(report.prompts, 0);
    assert!(!report.sources_deleted);
    assert_eq!(
        file_bytes(&fs, &["tmp", "dst", "src", "a.txt"]).unwrap(),
        vec![b'a'; 200]
    );
    assert_eq!(
        file_bytes(&fs, &["tmp", "dst", "src", "sub", "b.txt"]).unwrap(),
        vec![b'b'; 200]
    );
    assert!(is_dir(&fs, &["tmp", "src"]));
    assert_eq!(file_bytes(&fs, &["tmp", "src", "a.txt"]).unwrap(), vec![b'a'; 200]);
    // the operation is far below the progress-window threshold
    assert!(!report.show_progress_window);
}

#[test]
fn test_paste_copy_twice_is_idempotent() {
    // pasting the same copy into two different empty destinations gives
    // identical trees and never touches the source
    let mut fs = scenario_fs();
    mkdirs(&mut fs, &[&["tmp", "dst2"]]);
    let sources = vec![p(&["tmp", "src"])];
    let r1 = paste_file(
        &mut fs,
        &sources,
        &p(&["tmp", "dst"]),
        false,
        ResolverScript::new(vec![]),
        ProgressSink::new(),
    );
    let r2 = paste_file(
        &mut fs,
        &sources,
        &p(&["tmp", "dst2"]),
        false,
        ResolverScript::new(vec![]),
        ProgressSink::new(),
    );
    assert!(r1.all_success && r2.all_success);
    for (a, b) in [
        (&["tmp", "dst", "src", "a.txt"][..], &["tmp", "dst2", "src", "a.txt"][..]),
        (
            &["tmp", "dst", "src", "sub", "b.txt"][..],
            &["tmp", "dst2", "src", "sub", "b.txt"][..],
        ),
    ] {
        assert_eq!(file_bytes(&fs, a).unwrap(), file_bytes(&fs, b).unwrap());
    }
    assert_eq!(file_bytes(&fs, &["tmp", "src", "a.txt"]).unwrap(), vec![b'a'; 200]);
    assert_eq!(
        file_bytes(&fs, &["tmp", "src", "sub", "b.txt"]).unwrap(),
        vec![b'b'; 200]
    );
}

#[test]
fn test_paste_cut_scenario() {
    // the same source, cut instead of copied: the destination matches and
    // the source is gone afterwards
    let mut fs = scenario_fs();
    let sources = vec![p(&["tmp", "src"])];
    let report = paste_file(
        &mut fs,
        &sources,
        &p(&["tmp", "dst"]),
        true,
        ResolverScript::new(vec![]),
        ProgressSink::new(),
    );
    assert!(report.all_success);
    assert!(report.sources_deleted);
    assert_eq!(
        file_bytes(&fs, &["tmp", "dst", "src", "a.txt"]).unwrap(),
        vec![b'a'; 200]
    );
    assert_eq!(
        file_bytes(&fs, &["tmp", "dst", "src", "sub", "b.txt"]).unwrap(),
        vec![b'b'; 200]
    );
    assert!(gone(&fs, &["tmp", "src"]));
    assert!(gone(&fs, &["tmp", "src", "a.txt"]));
    assert!(gone(&fs, &["tmp", "src", "sub"]));
}

#[test]
fn test_cut_preserves_source_on_unreadable_file() {
    // one unreadable file inside the tree: the copy is partial, so the cut
    // never deletes the originals
    let mut fs = scenario_fs();
    assert!(fs.write_file(&p(&["tmp", "src", "sub", "locked"]), vec![b'x'; 50], false));
    let sources = vec![p(&["tmp", "src"])];
    let report = paste_file(
        &mut fs,
        &sources,
        &p(&["tmp", "dst"]),
        true,
        ResolverScript::new(vec![]),
        ProgressSink::new(),
    );
    assert!(report.started);
    assert!(!report.all_success);
    assert!(!report.sources_deleted);
    // the readable remainder of the source still exists, whole
    assert_eq!(file_bytes(&fs, &["tmp", "src", "a.txt"]).unwrap(), vec![b'a'; 200]);
    assert!(is_dir(&fs, &["tmp", "src", "sub"]));
    // what could be copied was copied; the unreadable file was not
    assert_eq!(
        file_bytes(&fs, &["tmp", "dst", "src", "a.txt"]).unwrap(),
        vec![b'a'; 200]
    );
    assert!(gone(&fs, &["tmp", "dst", "src", "sub", "locked"]));
}

#[test]
fn test_paste_rename_conflict() {
    // the destination already holds a different a.txt; the resolver answers
    // Rename("a_2.txt"): the old file stays, the copy lands under the new
    // name
    let mut fs = scenario_fs();
    assert!(fs.write_file(&p(&["tmp", "dst", "a.txt"]), vec![b'z'; 10], true));
    let sources = vec![p(&["tmp", "src", "a.txt"])];
    let report = paste_file(
        &mut fs,
        &sources,
        &p(&["tmp", "dst"]),
        false,
        ResolverScript::new(vec![on_rename("a_2.txt".to_string(), false)]),
        ProgressSink::new(),
    );
    assert!(report.started);
    assert_eq!(report.prompts, 1);
    assert_eq!(file_bytes(&fs, &["tmp", "dst", "a.txt"]).unwrap(), vec![b'z'; 10]);
    assert_eq!(file_bytes(&fs, &["tmp", "dst", "a_2.txt"]).unwrap(), vec![b'a'; 200]);
}

#[test]
fn test_overwrite_apply_to_all_prompts_once() {
    // three conflicting files, Overwrite with "apply to all" on the first:
    // no further dialog for the other two
    let mut fs = Fs::new();
    mkdirs(&mut fs, &[&["s"], &["d"]]);
    for name in ["f1", "f2", "f3"] {
        assert!(fs.write_file(&p(&["s", name]), vec![b'n'; 20], true));
        assert!(fs.write_file(&p(&["d", name]), vec![b'o'; 5], true));
    }
    let sources = vec![p(&["s", "f1"]), p(&["s", "f2"]), p(&["s", "f3"])];
    let report = paste_file(
        &mut fs,
        &sources,
        &p(&["d"]),
        false,
        ResolverScript::new(vec![on_overwrite(true)]),
        ProgressSink::new(),
    );
    assert!(report.started);
    assert_eq!(report.prompts, 1);
    for name in ["f1", "f2", "f3"] {
        assert_eq!(file_bytes(&fs, &["d", name]).unwrap(), vec![b'n'; 20]);
    }
}

#[test]
fn test_rename_apply_to_all_still_prompts() {
    // three conflicting files, Rename with "apply to all" every time: every
    // file still prompts
    let mut fs = Fs::new();
    mkdirs(&mut fs, &[&["s"], &["d"]]);
    for name in ["f1", "f2", "f3"] {
        assert!(fs.write_file(&p(&["s", name]), vec![b'n'; 20], true));
        assert!(fs.write_file(&p(&["d", name]), vec![b'o'; 5], true));
    }
    let sources = vec![p(&["s", "f1"]), p(&["s", "f2"]), p(&["s", "f3"])];
    let report = paste_file(
        &mut fs,
        &sources,
        &p(&["d"]),
        false,
        ResolverScript::new(vec![
            on_rename("r1".to_string(), true),
            on_rename("r2".to_string(), true),
            on_rename("r3".to_string(), true),
        ]),
        ProgressSink::new(),
    );
    assert!(report.started);
    assert_eq!(report.prompts, 3);
    assert_eq!(file_bytes(&fs, &["d", "r1"]).unwrap(), vec![b'n'; 20]);
    assert_eq!(file_bytes(&fs, &["d", "r2"]).unwrap(), vec![b'n'; 20]);
    assert_eq!(file_bytes(&fs, &["d", "r3"]).unwrap(), vec![b'n'; 20]);
    // the originals at the destination were never overwritten
    for name in ["f1", "f2", "f3"] {
        assert_eq!(file_bytes(&fs, &["d", name]).unwrap(), vec![b'o'; 5]);
    }
}

#[test]
fn test_ignored_directory_shelters_subtree() {
    // the destination already holds a directory named sub; pasting the
    // tree's contents and resolving that directory to Ignore leaves every
    // one of its descendants untransferred
    let mut fs = scenario_fs();
    mkdirs(&mut fs, &[&["tmp", "dst", "sub"]]);
    let sources = vec![p(&["tmp", "src", "a.txt"]), p(&["tmp", "src", "sub"])];
    let report = paste_file(
        &mut fs,
        &sources,
        &p(&["tmp", "dst"]),
        false,
        ResolverScript::new(vec![on_ignore(false)]),
        ProgressSink::new(),
    );
    assert!(report.started);
    assert!(report.any_skipped);
    assert_eq!(report.prompts, 1);
    // a.txt (outside the ignored subtree) was copied
    assert_eq!(file_bytes(&fs, &["tmp", "dst", "a.txt"]).unwrap(), vec![b'a'; 200]);
    // nothing under the ignored directory was transferred
    assert!(gone(&fs, &["tmp", "dst", "sub", "b.txt"]));
    for ev in report.events.iter() {
        match ev {
            TransferEvent::FileCopied { src, .. } | TransferEvent::LinkCopied { src, .. } => {
                assert_ne!(src, &p(&["tmp", "src", "sub", "b.txt"]));
            }
            _ => {}
        }
    }
    // the overwrite decision propagates instead: the same paste answered
    // with Overwrite reaches the descendant without another prompt
    let mut fs2 = scenario_fs();
    mkdirs(&mut fs2, &[&["tmp", "dst", "sub"]]);
    let report2 = paste_file(
        &mut fs2,
        &vec![p(&["tmp", "src", "a.txt"]), p(&["tmp", "src", "sub"])],
        &p(&["tmp", "dst"]),
        false,
        ResolverScript::new(vec![on_overwrite(false)]),
        ProgressSink::new(),
    );
    assert_eq!(report2.prompts, 1);
    assert_eq!(
        file_bytes(&fs2, &["tmp", "dst", "sub", "b.txt"]).unwrap(),
        vec![b'b'; 200]
    );
}

#[test]
fn test_paste_into_own_subtree_is_rejected() {
    // pasting a tree into itself or below itself aborts before any side
    // effect
    let mut fs = scenario_fs();
    let sources = vec![p(&["tmp", "src"])];
    let report = paste_file(
        &mut fs,
        &sources,
        &p(&["tmp", "src", "sub"]),
        false,
        ResolverScript::new(vec![]),
        ProgressSink::new(),
    );
    assert!(!report.started);
    assert!(gone(&fs, &["tmp", "src", "sub", "src"]));
}

#[test]
fn test_paste_canceled_receiver() {
    // a closed progress window (disconnected receiver) means the operation
    // never starts
    let mut fs = scenario_fs();
    let mut sink = ProgressSink::new();
    sink.disconnect();
    let report = paste_file(
        &mut fs,
        &vec![p(&["tmp", "src"])],
        &p(&["tmp", "dst"]),
        false,
        ResolverScript::new(vec![]),
        sink,
    );
    assert!(!report.started);
    assert!(gone(&fs, &["tmp", "dst", "src"]));
}

#[test]
fn test_copy_single_file_operation() {
    // one 200-byte file: the transfer succeeds, the counter advances by its
    // size and a progress message goes out
    let mut fs = Fs::new();
    mkdirs(&mut fs, &[&["copy_single_file_operation"], &["t"]]);
    assert!(fs.write_file(
        &p(&["copy_single_file_operation", "file0"]),
        vec![b'f'; 200],
        true
    ));
    let mut ctx = PasteCtx::new(200, ResolverScript::new(vec![]), ProgressSink::new());
    let r = copy_single_file_operation(
        &mut fs,
        &p(&["copy_single_file_operation", "file0"]),
        &p(&["t", "test_file_copy"]),
        &mut ctx,
        1,
    );
    assert_eq!(r, Ok(true));
    assert_eq!(ctx.current, 200);
    assert!(ctx.all_success);
    assert_eq!(file_bytes(&fs, &["t", "test_file_copy"]).unwrap(), vec![b'f'; 200]);
    assert_eq!(ctx.sink.sent_count(), 1);
    assert_eq!(ctx.sink.sent_message(0).status, "200.00 B / 200.00 B");
}

#[test]
pub fn test_delete() {
    // a tree with subfolders, a symbolic link and files: deleting the root
    // removes everything under it, children before parents
    let mut fs = Fs::new();
    mkdirs(
        &mut fs,
        &[
            &["delete"],
            &["delete", "subfolder1"],
            &["delete", "subfolder2"],
            &["delete", "subfolder2", "nonempty_subfolder"],
        ],
    );
    assert!(fs.write_file(&p(&["delete", "subfolder1", "file1"]), vec![b'1'; 64], true));
    assert!(fs.write_file(
        &p(&["delete", "subfolder2", "nonempty_subfolder", "file2"]),
        vec![b'2'; 64],
        true
    ));
    assert!(fs.create_symlink(&p(&["delete", "simlink_to_a_file"]), "/delete/subfolder1/file1".to_string()));
    let report = delete(&mut fs, &vec![p(&["delete"])], ProgressSink::new());
    assert!(report.started);
    assert!(!report.canceled);
    // three non-directory entries were removed, each with its own progress
    // message after the initial forced one
    assert_eq!(report.removed, 3);
    assert_eq!(report.sink.sent_count(), 4);
    assert!(gone(&fs, &["delete"]));
    assert!(gone(&fs, &["delete", "subfolder1"]));
    assert!(gone(&fs, &["delete", "subfolder1", "file1"]));
    assert!(gone(&fs, &["delete", "simlink_to_a_file"]));
    assert!(gone(&fs, &["delete", "subfolder2", "nonempty_subfolder", "file2"]));
}

#[test]
fn test_clipboard_payload_format() {
    // the payload written for a copy: one file:// line per path, each
    // newline-terminated
    let files = vec![
        empty_file_with_path("/test1/test2/test3/test4/test5.txt"),
        empty_file_with_path("/test5/test4/test3/test2/test1.txt"),
    ];
    let text = clipboard_payload(&files);
    assert_eq!(
        text,
        "file:///test1/test2/test3/test4/test5.txt\nfile:///test5/test4/test3/test2/test1.txt\n"
    );
}

#[test]
fn test_parse_clipboard_text() {
    let text = "file:///a/b.txt\nfile:///c/d.txt\n";
    let paths = parse_clipboard_text(text).unwrap();
    assert_eq!(paths.len(), 2);
    assert_eq!(paths[0], "/a/b.txt");
    assert_eq!(paths[1], "/c/d.txt");
    // not a file payload
    assert!(parse_clipboard_text("hello").is_none());
    assert!(parse_clipboard_text("").is_none());
}

#[test]
fn test_string_helpers() {
    assert!(str_starts_with("file:///x", "file:///"));
    assert!(!str_starts_with("fil", "file://"));
    assert!(str_eq("abc", "abc"));
    assert!(!str_eq("abc", "abd"));
    assert_eq!(strip_file_scheme(&"file:///x".to_string()), "/x");
    assert_eq!(strip_file_scheme(&"/plain".to_string()), "/plain");
    let lines = split_lines("a\nb\n");
    assert_eq!(lines.len(), 3);
    assert_eq!(lines[0], "a");
    assert_eq!(lines[1], "b");
    assert_eq!(lines[2], "");
}

#[test]
fn test_cut_buffer_drains_on_paste() {
    // a cut stages the files; resolving the paste sources drains the
    // buffer, so a second paste has nothing to act on
    let mut state = ClipboardState::new();
    cut_file(vec![empty_file_with_path("/tmp/x/file")], &mut state);
    let (sources, is_cut) = resolve_paste_sources(&mut state, None);
    assert!(is_cut);
    assert_eq!(sources.len(), 1);
    assert_eq!(sources[0], vec!["tmp".to_string(), "x".to_string(), "file".to_string()]);
    let (again, is_cut2) = resolve_paste_sources(&mut state, None);
    assert!(!is_cut2);
    assert_eq!(again.len(), 0);
    // with an empty buffer, the OS clipboard text is the fallback
    let (from_clip, is_cut3) =
        resolve_paste_sources(&mut state, Some("file:///a/b\n".to_string()));
    assert!(!is_cut3);
    assert_eq!(from_clip.len(), 1);
    assert_eq!(from_clip[0], vec!["a".to_string(), "b".to_string()]);
}

#[test]
fn test_move_and_rename() {
    let mut fs = Fs::new();
    mkdirs(&mut fs, &[&["a"], &["b"]]);
    assert!(fs.write_file(&p(&["a", "f"]), vec![b'q'; 8], true));
    assert!(move_file(&mut fs, &p(&["a", "f"]), &p(&["b"])).is_ok());
    assert!(gone(&fs, &["a", "f"]));
    assert_eq!(file_bytes(&fs, &["b", "f"]).unwrap(), vec![b'q'; 8]);
    // a second drop of the same name does nothing
    assert!(fs.write_file(&p(&["a", "f"]), vec![b'r'; 4], true));
    assert!(move_file(&mut fs, &p(&["a", "f"]), &p(&["b"])).is_err());
    assert_eq!(file_bytes(&fs, &["b", "f"]).unwrap(), vec![b'q'; 8]);
    assert!(rename_or_copy_file(&mut fs, &p(&["a", "f"]), &p(&["b", "g"])).is_ok());
    assert_eq!(file_bytes(&fs, &["b", "g"]).unwrap(), vec![b'r'; 4]);
}

#[test]
fn test_file_exists_in_dir() {
    let mut fs = Fs::new();
    mkdirs(&mut fs, &[&["d"]]);
    assert!(fs.write_file(&p(&["d", "x"]), vec![1], true));
    assert_eq!(fs.file_exists_in_dir(&p(&["d"]), &"x".to_string()), Ok(true));
    assert_eq!(fs.file_exists_in_dir(&p(&["d"]), &"y".to_string()), Ok(false));
    assert!(fs.file_exists_in_dir(&p(&["nope"]), &"x".to_string()).is_err());
}

#[test]
fn test_zero_total_aborts() {
    // an empty source tree computes a zero total: the paste aborts before
    // any side effect
    let mut fs = Fs::new();
    mkdirs(&mut fs, &[&["s"], &["d"]]);
    let report = paste_file(
        &mut fs,
        &vec![p(&["s"])],
        &p(&["d"]),
        false,
        ResolverScript::new(vec![]),
        ProgressSink::new(),
    );
    assert!(!report.started);
    assert!(gone(&fs, &["d", "s"]));
}

#[test]
fn test_unresolved_conflict_skips_entry() {
    // the dialog is unreachable (no scripted answer): the conflicting entry
    // is skipped and, on a cut, the originals survive
    let mut fs = Fs::new();
    mkdirs(&mut fs, &[&["s"], &["d"]]);
    assert!(fs.write_file(&p(&["s", "f"]), vec![b'n'; 9], true));
    assert!(fs.write_file(&p(&["d", "f"]), vec![b'o'; 3], true));
    let report = paste_file(
        &mut fs,
        &vec![p(&["s", "f"])],
        &p(&["d"]),
        true,
        ResolverScript::new(vec![]),
        ProgressSink::new(),
    );
    assert!(report.started);
    assert!(report.any_skipped);
    assert!(!report.sources_deleted);
    assert_eq!(file_bytes(&fs, &["d", "f"]).unwrap(), vec![b'o'; 3]);
    assert_eq!(file_bytes(&fs, &["s", "f"]).unwrap(), vec![b'n'; 9]);
}

#[test]
fn test_symlinks_copied_as_leaves() {
    // a symbolic link is recreated at the destination, never followed
    let mut fs = Fs::new();
    mkdirs(&mut fs, &[&["s"], &["d"]]);
    assert!(fs.write_file(&p(&["s", "real"]), vec![b'r'; 30], true));
    assert!(fs.create_symlink(&p(&["s", "link"]), "/s/real".to_string()));
    let report = paste_file(
        &mut fs,
        &vec![p(&["s"])],
        &p(&["d"]),
        false,
        ResolverScript::new(vec![]),
        ProgressSink::new(),
    );
    assert!(report.started && report.all_success);
    match fs.lookup(&p(&["d", "s", "link"])) {
        Some(FsNode::Symlink { target }) => assert_eq!(target, "/s/real"),
        _ => panic!("expected a symlink"),
    }
}

#[test]
fn test_rename_window_returns() {
    let r: RenameWindowReturn = on_overwrite(true);
    assert!(r.apply_to_all && r.filename.is_none());
    let r2 = on_rename("n".to_string(), false);
    assert_eq!(r2.filename.as_deref(), Some("n"));
    let r3 = on_ignore(false);
    assert!(!r3.apply_to_all && r3.filename.is_none());
}

#[test]
fn test_paste_multi_select() {
    // a multi selection: two directories, two files and two symbolic links
    // pasted together into an empty destination
    let mut fs = Fs::new();
    mkdirs(
        &mut fs,
        &[
            &["tmp"],
            &["tmp", "paste_file1"],
            &["tmp", "paste_file2"],
            &["target"],
        ],
    );
    assert!(fs.write_file(&p(&["tmp", "paste_file1", "inner"]), vec![b'1'; 40], true));
    assert!(fs.write_file(&p(&["tmp", "paste_file2", "inner"]), vec![b'2'; 40], true));
    assert!(fs.write_file(&p(&["tmp", "file1"]), vec![b'x'; 64], true));
    assert!(fs.write_file(&p(&["tmp", "file2"]), vec![b'y'; 64], true));
    assert!(fs.create_symlink(&p(&["tmp", "link1"]), "/tmp/file1".to_string()));
    assert!(fs.create_symlink(&p(&["tmp", "link2"]), "/tmp/file2".to_string()));
    let sources = vec![
        p(&["tmp", "paste_file1"]),
        p(&["tmp", "paste_file2"]),
        p(&["tmp", "file1"]),
        p(&["tmp", "file2"]),
        p(&["tmp", "link1"]),
        p(&["tmp", "link2"]),
    ];
    let report = paste_file(
        &mut fs,
        &sources,
        &p(&["target"]),
        false,
        ResolverScript::new(vec![]),
        ProgressSink::new(),
    );
    assert!(report.started && report.all_success && !report.any_skipped);
    assert_eq!(file_bytes(&fs, &["target", "paste_file1", "inner"]).unwrap(), vec![b'1'; 40]);
    assert_eq!(file_bytes(&fs, &["target", "paste_file2", "inner"]).unwrap(), vec![b'2'; 40]);
    assert_eq!(file_bytes(&fs, &["target", "file1"]).unwrap(), vec![b'x'; 64]);
    assert_eq!(file_bytes(&fs, &["target", "file2"]).unwrap(), vec![b'y'; 64]);
    match fs.lookup(&p(&["target", "link1"])) {
        Some(FsNode::Symlink { target }) => assert_eq!(target, "/tmp/file1"),
        _ => panic!("expected a symlink"),
    }
    // the sources are untouched by a copy
    assert!(is_dir(&fs, &["tmp", "paste_file1"]));
    assert_eq!(file_bytes(&fs, &["tmp", "file1"]).unwrap(), vec![b'x'; 64]);
    // the same selection, cut: everything moves
    let mut fs2 = Fs::new();
    mkdirs(&mut fs2, &[&["tmp"], &["tmp", "paste_file1"], &["target"]]);
    assert!(fs2.write_file(&p(&["tmp", "paste_file1", "inner"]), vec![b'1'; 40], true));
    assert!(fs2.write_file(&p(&["tmp", "file1"]), vec![b'x'; 64], true));
    let report2 = paste_file(
        &mut fs2,
        &vec![p(&["tmp", "paste_file1"]), p(&["tmp", "file1"])],
        &p(&["target"]),
        true,
        ResolverScript::new(vec![]),
        ProgressSink::new(),
    );
    assert!(report2.sources_deleted);
    assert!(gone(&fs2, &["tmp", "paste_file1"]));
    assert!(gone(&fs2, &["tmp", "file1"]));
    assert_eq!(file_bytes(&fs2, &["target", "paste_file1", "inner"]).unwrap(), vec![b'1'; 40]);
    assert_eq!(file_bytes(&fs2, &["target", "file1"]).unwrap(), vec![b'x'; 64]);
}

#[test]
fn test_delete_aborts_on_empty_totals() {
    // a selection of only empty directories computes a zero size total:
    // the delete aborts before any side effect
    let mut fs = Fs::new();
    mkdirs(&mut fs, &[&["e"], &["e", "sub"]]);
    let report = delete(&mut fs, &vec![p(&["e"])], ProgressSink::new());
    assert!(!report.started);
    assert!(is_dir(&fs, &["e", "sub"]));
    // an empty selection does not start either
    let none: Vec<Vec<String>> = vec![];
    let report2 = delete(&mut fs, &none, ProgressSink::new());
    assert!(!report2.started);
    // a dead receiver does not start
    let mut dead = ProgressSink::new();
    dead.disconnect();
    assert!(fs.write_file(&p(&["e", "sub", "f"]), vec![1, 2, 3], true));
    let report3 = delete(&mut fs, &vec![p(&["e"])], dead);
    assert!(!report3.started);
    assert!(is_dir(&fs, &["e", "sub"]));
}

#[test]
fn test_rename_or_copy_failure_cases() {
    let mut fs = Fs::new();
    mkdirs(&mut fs, &[&["a"], &["b"]]);
    // a missing source fails without a trace
    assert!(rename_or_copy_file(&mut fs, &p(&["a", "ghost"]), &p(&["b", "g"])).is_err());
    // a directory is not moved by the file-level rename
    assert!(rename_or_copy_file(&mut fs, &p(&["a"]), &p(&["b", "a2"])).is_err());
    // source equal to target fails
    assert!(fs.write_file(&p(&["a", "f"]), vec![9], true));
    assert!(rename_or_copy_file(&mut fs, &p(&["a", "f"]), &p(&["a", "f"])).is_err());
    // a target whose parent is missing fails
    assert!(rename_or_copy_file(&mut fs, &p(&["a", "f"]), &p(&["nowhere", "f"])).is_err());
    assert_eq!(file_bytes(&fs, &["a", "f"]).unwrap(), vec![9]);
}

#[test]
fn test_paste_directory_rename_conflict() {
    // the destination already holds a directory of the source's name; the
    // answer Rename moves the whole subtree under the new name and leaves
    // the old directory alone
    let mut fs = scenario_fs();
    mkdirs(&mut fs, &[&["tmp", "dst", "src"]]);
    assert!(fs.write_file(&p(&["tmp", "dst", "src", "old"]), vec![b'o'; 7], true));
    let report = paste_file(
        &mut fs,
        &vec![p(&["tmp", "src"])],
        &p(&["tmp", "dst"]),
        false,
        ResolverScript::new(vec![on_rename("src_copy".to_string(), false)]),
        ProgressSink::new(),
    );
    assert!(report.started);
    assert_eq!(report.prompts, 1);
    // the conflicting directory is untouched
    assert_eq!(file_bytes(&fs, &["tmp", "dst", "src", "old"]).unwrap(), vec![b'o'; 7]);
    // the tree landed under the new name, descendants rebased under it
    assert_eq!(
        file_bytes(&fs, &["tmp", "dst", "src_copy", "a.txt"]).unwrap(),
        vec![b'a'; 200]
    );
    assert_eq!(
        file_bytes(&fs, &["tmp", "dst", "src_copy", "sub", "b.txt"]).unwrap(),
        vec![b'b'; 200]
    );
}

