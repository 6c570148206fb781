use qdfm::actions::{
    build_commands, copy, create_new_dir, create_new_file, create_new_link, cut, delete as
    delete_targets, find_mapping, get_index, menuitem_hover, open_with_default, open_with_quick,
    paste as paste_target, prepare_create_new, ContextItem, Mapping,
};
use qdfm::clipboard::ClipboardState;
use qdfm::fs::{Fs, FsNode};
use qdfm::selection::SelectionState;
use qdfm::types::{empty_file_with_path, FileItem};
use qdfm::ui_model::{context_callback_id, ContextCallback};

fn dir_item(path: &str) -> FileItem {
    FileItem {
        path: path.to_string(),
        file_name: path.rsplit('/').next().unwrap_or("").to_string(),
        is_dir: true,
        size: 0,
        date: 0,
        file_type: String::new(),
        is_link: false,
        extension: String::new(),
        selected: false,
    }
}

fn mappings() -> Vec<Mapping> {
    vec![
        Mapping {
            display_name: "Editor".to_string(),
            command: "editor".to_string(),
        },
        Mapping {
            display_name: "Viewer".to_string(),
            command: "viewer --readonly".to_string(),
        },
    ]
}

#[test]
fn test_open_with_commands() {
    let files = vec![
        empty_file_with_path("/d/a.txt"),
        empty_file_with_path("/d/b.txt"),
    ];
    let quick = mappings();
    let name = "Viewer".to_string();
    let cmds = open_with_default(&files, Some(&name), &quick);
    assert_eq!(cmds.len(), 2);
    assert_eq!(cmds[0], "viewer --readonly /d/a.txt");
    assert_eq!(cmds[1], "viewer --readonly /d/b.txt");
    // no default configured: nothing to run
    assert_eq!(open_with_default(&files, None, &quick).len(), 0);
    // an unknown default name: nothing to run
    let missing = "Player".to_string();
    assert_eq!(open_with_default(&files, Some(&missing), &quick).len(), 0);
    let quick_cmds = open_with_quick(&files, &quick, 0);
    assert_eq!(quick_cmds[0], "editor /d/a.txt");
    assert_eq!(find_mapping(&quick, &"Editor".to_string()), Some(0));
    assert_eq!(find_mapping(&quick, &"Player".to_string()), None);
    let built = build_commands(&"x".to_string(), &files);
    assert_eq!(built[1], "x /d/b.txt");
}

#[test]
fn test_menu_index_and_hover() {
    let row = |id: i32| ContextItem {
        display: String::new(),
        callback_id: id,
        shortcut: String::new(),
        has_separator: false,
        click_on_hover: false,
        internal_id: 0,
    };
    let items = vec![
        row(context_callback_id(ContextCallback::Copy)),
        row(context_callback_id(ContextCallback::OpenWith)),
    ];
    assert_eq!(get_index(&items), Some(1));
    let only_copy = vec![row(context_callback_id(ContextCallback::Copy))];
    assert_eq!(get_index(&only_copy), None);
    assert!(menuitem_hover(1, 2));
    assert!(!menuitem_hover(2, 2));
}

#[test]
fn test_copy_cut_paste_delete_actions() {
    let mut sel = SelectionState::new(vec![dir_item("/tmp/work")]);
    sel.add_to_selected(0, dir_item("/tmp/work"));
    let mut clip = ClipboardState::new();
    cut(&sel, &mut clip);
    // the cut staged exactly the selection
    let (sources, is_cut) = qdfm::clipboard::resolve_paste_sources(&mut clip, None);
    assert!(is_cut);
    assert_eq!(sources, vec![vec!["tmp".to_string(), "work".to_string()]]);
    // a plain copy clears any pending cut
    cut(&sel, &mut clip);
    copy(&sel, &mut clip);
    let (none_left, is_cut2) = qdfm::clipboard::resolve_paste_sources(&mut clip, None);
    assert!(!is_cut2);
    assert_eq!(none_left.len(), 0);
    // paste targets the single selected directory
    assert_eq!(
        paste_target(&sel),
        Some(vec!["tmp".to_string(), "work".to_string()])
    );
    let targets = delete_targets(&sel);
    assert_eq!(targets, vec![vec!["tmp".to_string(), "work".to_string()]]);
    sel.clear_selection();
    assert_eq!(paste_target(&sel), None);
}

#[test]
fn test_create_new_entries() {
    let mut fs = Fs::new();
    assert!(fs.create_dir(&vec!["home".to_string()]));
    let home = vec!["home".to_string()];
    assert!(create_new_file(&mut fs, &home, &"notes.txt".to_string()).is_ok());
    match fs.lookup(&vec!["home".to_string(), "notes.txt".to_string()]) {
        Some(FsNode::File { data, readable }) => {
            assert_eq!(data.len(), 0);
            assert!(readable);
        }
        _ => panic!("expected an empty file"),
    }
    // an existing name is refused
    assert!(create_new_file(&mut fs, &home, &"notes.txt".to_string()).is_err());
    // an invalid name is refused
    assert!(create_new_file(&mut fs, &home, &"a/b".to_string()).is_err());
    // an empty name is refused
    assert!(create_new_file(&mut fs, &home, &"".to_string()).is_err());
    assert!(create_new_dir(&mut fs, &home, &"sub".to_string()).is_ok());
    assert!(create_new_dir(&mut fs, &home, &"sub".to_string()).is_err());
    assert!(
        create_new_link(&mut fs, &home, &"ln".to_string(), "/home/notes.txt".to_string()).is_ok()
    );
    match fs.lookup(&vec!["home".to_string(), "ln".to_string()]) {
        Some(FsNode::Symlink { target }) => assert_eq!(target, "/home/notes.txt"),
        _ => panic!("expected a symlink"),
    }
    let st = prepare_create_new(&"/home".to_string());
    assert_eq!(st.path_to_directory, "/home");
    assert_eq!(st.warning, "");
    assert_eq!(st.name, "");
    assert_eq!(st.link_target, "");
}
