use sector::browse::Entry;
use sector::commands::{asks_for_address, commands, list_key, quick_place, tree_key, Command, Effect, Input, Key};
use sector::explorer::{Explorer, Focus, Job, Mode};
use sector::filetype::FileCategory;
use sector::gestures::ListKey;
use sector::listing::{FolderSize, SortKey};
use sector::menus::{folder_menu, row_menu, tree_menu, FolderAct, RowAct, TreeAct};
use sector::pane::Visit;
use sector::paths::PathStyle;
use sector::prompt::{plan_edit, undo_of, Edit, EditPlan, NamePrompt, PromptKind};
use sector::settings::Settings;
use sector::sidebar::{drive_roots, menu_more, more_note, space_query, Sidebar, TreeKey, TreeMove, MAX_CHILDREN};
use sector::status::{delete_question, drag_badge, drop_label, window_title, Footer};
use sector::time::Stamp;
use sector::transfer::{Candidate, DeleteOutcome, Failure, FileAction, FileEvent, Moved, PasteOutcome};
use sector::undo::{UndoDone, UndoEntry, UndoOp};

const UNIX: PathStyle = PathStyle::Unix;
const WIN: PathStyle = PathStyle::Windows;

fn file(name: &str, size: u64) -> Entry {
    Entry {
        name: name.into(),
        is_dir: false,
        size,
        modified: None,
        created: None,
        is_symlink: false,
        is_hidden: false,
        readonly: false,
    }
}

fn folder(name: &str) -> Entry {
    Entry { is_dir: true, ..file(name, 0) }
}

fn texts(v: &[&str]) -> Vec<String> {
    v.iter().map(|s| s.to_string()).collect()
}

fn at(secs: i64) -> Stamp {
    Stamp { secs, nanos: 0 }
}

/// An explorer in /a, which holds the folder d and the files x.txt and y.txt.
fn explorer() -> Explorer {
    let mut x = Explorer::new(UNIX, "/a");
    x.reload_entries(Ok(vec![folder("d"), file("x.txt", 3), file("y.txt", 4)]), None, Some(folder("a")));
    x
}

fn input(pressed: Vec<Key>) -> Input {
    Input { ctrl: false, shift: false, alt: false, pressed }
}

/// The roots / with a, b and .h, and /a with d.
fn tree() -> Sidebar {
    let mut s = Sidebar::new(UNIX);
    s.roots = texts(&["/"]);
    s.expand("/");
    s.fill("/", &Some(vec![folder("b"), folder("a"), file("f", 1), Entry { is_hidden: true, ..folder(".h") }]), false);
    s.fill("/a", &Some(vec![folder("d")]), false);
    s
}

#[test]
fn the_tree_shows_what_is_expanded() {
    let mut s = tree();
    assert_eq!(s.visible_nodes(), ["/", "/a", "/b"]);
    assert_eq!(s.children("/a").unwrap(), &["/a/d"]);
    s.expand("/a");
    assert_eq!(s.visible_nodes(), ["/", "/a", "/a/d", "/b"]);
    assert_eq!(s.unlisted(), None);
    s.toggle("/b");
    assert_eq!(s.unlisted().as_deref(), Some("/b"));
    s.fill("/b", &None, false);
    assert_eq!(s.unlisted(), None);
    assert!(s.children("/b").unwrap().is_empty());
    s.toggle("/b");
    assert!(!s.is_expanded("/b"));
    assert!(s.collapse("/"));
    assert!(!s.collapse("/"));
    assert_eq!(s.visible_nodes(), ["/"]);
    s.drives_open = false;
    assert!(s.visible_nodes().is_empty());
    s.forget();
    assert!(s.children("/").is_none());
}

#[test]
fn the_way_to_a_folder_is_opened() {
    let mut s = Sidebar::new(UNIX);
    s.open_way_to("/a/b/c");
    assert!(s.is_expanded("/") && s.is_expanded("/a") && s.is_expanded("/a/b"));
    assert!(!s.is_expanded("/a/b/c"));
}

#[test]
fn a_folder_keeps_its_place_under_a_new_name() {
    let mut s = tree();
    s.expand("/a");
    s.move_branch("/a", "/z");
    assert!(s.is_expanded("/z") && !s.is_expanded("/a"));
    s.move_branch("/b", "/y");
    assert!(!s.is_expanded("/y"));
}

#[test]
fn only_the_first_subfolders_are_shown() {
    let mut s = Sidebar::new(UNIX);
    s.roots = texts(&["/"]);
    s.expand("/");
    s.fill("/", &Some((0..MAX_CHILDREN + 3).map(|i| folder(&format!("{i:04}"))).collect()), false);
    assert_eq!(s.visible_nodes().len(), MAX_CHILDREN + 1);
    assert_eq!(more_note(MAX_CHILDREN + 3).as_deref(), Some("… 3 more — open in the list"));
    assert_eq!(more_note(MAX_CHILDREN), None);
    assert_eq!(menu_more(205).as_deref(), Some("… 5 more"));
    assert_eq!(menu_more(200), None);
}

#[test]
fn folders_are_pinned_once() {
    let mut s = Sidebar::new(WIN);
    s.known = texts(&[r"C:\Users\me\Desktop"]);
    s.pin(r"D:\Media");
    s.pin(r"d:\media\");
    s.pin(r"c:\users\me\desktop");
    assert!(s.is_pinned(r"D:\MEDIA"));
    assert_eq!(s.quick_access(), [r"C:\Users\me\Desktop", r"D:\Media"]);
    s.unpin(r"d:\media");
    assert!(!s.is_pinned(r"D:\Media"));
    assert_eq!(s.quick_access(), [r"C:\Users\me\Desktop"]);
}

fn goes(m: Option<TreeMove>) -> String {
    match m {
        Some(TreeMove::Go(p)) => p,
        Some(TreeMove::Stay) => "stay".to_string(),
        Some(TreeMove::Expand) => "expand".to_string(),
        Some(TreeMove::Collapse) => "collapse".to_string(),
        None => "none".to_string(),
    }
}

#[test]
fn keys_move_in_the_tree() {
    let mut s = tree();
    assert_eq!(goes(s.tree_move(TreeKey::Down, "/")), "/a");
    assert_eq!(goes(s.tree_move(TreeKey::Down, "/b")), "/b");
    assert_eq!(goes(s.tree_move(TreeKey::Down, "/elsewhere")), "/");
    assert_eq!(goes(s.tree_move(TreeKey::Up, "/b")), "/a");
    assert_eq!(goes(s.tree_move(TreeKey::Up, "/")), "stay");
    assert_eq!(goes(s.tree_move(TreeKey::Home, "/b")), "/");
    assert_eq!(goes(s.tree_move(TreeKey::End, "/")), "/b");
    assert_eq!(goes(s.tree_move(TreeKey::Right, "/a")), "expand");
    assert_eq!(goes(s.tree_move(TreeKey::Left, "/a")), "/");
    s.expand("/a");
    assert_eq!(goes(s.tree_move(TreeKey::Right, "/a")), "/a/d");
    assert_eq!(goes(s.tree_move(TreeKey::Left, "/a")), "collapse");
    assert_eq!(s.search("b", "/").as_deref(), Some("/b"));
    assert_eq!(s.search("a", "/b").as_deref(), Some("/a")); // round the end
    assert_eq!(s.search("zz", "/"), None);
    assert_eq!(goes(Sidebar::new(UNIX).tree_move(TreeKey::Down, "/")), "none");
}

#[test]
fn drives_are_read_off_their_bits() {
    assert_eq!(drive_roots(0b1100), [r"C:\", r"D:\"]);
    assert_eq!(drive_roots(1 << 25), [r"Z:\"]);
    assert!(drive_roots(1 << 26).is_empty());
    assert_eq!(space_query(WIN, r"\\nas\media"), r"\\nas\media\");
    assert_eq!(space_query(WIN, r"C:\"), r"C:\");
    assert_eq!(space_query(WIN, r"C:\Users"), r"C:\Users");
}

fn candidate(path: &str) -> Candidate {
    Candidate { path: path.to_string(), canonical: path.to_string(), is_dir: false }
}

#[test]
fn one_operation_runs_at_a_time() {
    let mut x = explorer();
    x.set_clipboard(texts(&["/b/f"]), false);
    assert!(x.can_paste());
    assert!(x.start_transfer(&vec![candidate("/b/f")], "/a", false));
    assert!(x.file_op_running() && !x.can_paste());
    assert!(matches!(x.footer(), Footer::Working { label, can_cancel: true } if label == "Copying “f”…"));
    assert!(!x.start_transfer(&vec![candidate("/b/g")], "/a", false));
    assert_eq!(x.op_error.as_deref(), Some("Wait for the current file operation to finish."));
    assert!(!x.start_delete(&texts(&["/a/x.txt"])));
    x.history.push_undo(UndoEntry::new(UndoOp::MakeDir { path: "/q".to_string() }, "new folder"));
    assert!(x.start_reversal(false).is_none());
    x.request_delete_dir("/a/d");
    assert!(x.confirm_delete.is_none());
}

#[test]
fn a_paste_can_be_undone() {
    let mut x = explorer();
    x.set_clipboard(texts(&["/b/f"]), true);
    assert!(x.start_transfer(&vec![candidate("/b/f")], "/a", true));
    let moved = Moved { from: "/b/f".to_string(), to: "/a/f".to_string() };
    assert!(x.paste_finished(PasteOutcome { done: vec![moved], error: None }));
    assert!(x.clipboard.is_none()); // a cut pastes once
    assert!(matches!(x.job, Job::Idle));
    assert!(x.pane.entries_dirty);
    assert_eq!(x.history.undo.last().unwrap().label, "move");
    assert!(matches!(x.footer(), Footer::Ready { undo: Some(u), redo: None, .. } if u == "↺ Undo move"));
    // The undo runs, and its inverse can be redone.
    assert!(matches!(x.start_reversal(false), Some(UndoOp::MoveBack { .. })));
    assert!(matches!(x.footer(), Footer::Working { label, can_cancel: false } if label == "Undoing move…"));
    let inverse = UndoOp::MoveBack { pairs: vec![Moved { from: "/a/f".to_string(), to: "/b/f".to_string() }] };
    x.reversal_finished(
        Ok(UndoDone { select: Some("/b/f".to_string()), inverse: Some(inverse) }),
        |_p: &str| true,
    );
    assert!(x.history.undo.is_empty());
    assert!(matches!(x.footer(), Footer::Ready { undo: None, redo: Some(r), .. } if r == "↻ Redo move"));
    assert!(matches!(x.start_reversal(true), Some(UndoOp::MoveBack { pairs }) if pairs[0].from == "/a/f"));
    x.reversal_finished(Err("no".to_string()), |_p: &str| true);
    assert!(matches!(x.footer(), Footer::Problem(m) if m == "⚠ no"));
}

#[test]
fn a_deletion_leaves_a_folder_that_is_gone() {
    let mut x = explorer();
    x.pane.click(1, false, false);
    x.request_delete();
    assert_eq!(x.confirm_delete.as_deref(), Some(&texts(&["/a/x.txt"])[..]));
    assert!(x.dialog_open() && !x.keyboard_free(false, false));
    let paths = x.confirm_delete.take().unwrap();
    assert!(x.start_delete(&paths));
    assert!(matches!(x.footer(), Footer::Working { label, .. } if label == "Moving to Recycle Bin…"));
    // After an error the selection stays, and so do we.
    x.delete_finished(DeleteOutcome { recycled: Vec::new(), error: Some("oh".to_string()) }, |p: &str| p == "/");
    assert_eq!((x.pane.current_dir.as_str(), x.pane.sel.len()), ("/a", 1));
    assert_eq!(x.op_error.as_deref(), Some("oh"));
    assert!(x.history.undo.is_empty());
    assert!(x.start_delete(&paths));
    x.delete_finished(DeleteOutcome { recycled: texts(&["/a"]), error: None }, |p: &str| p == "/");
    assert_eq!((x.pane.current_dir.as_str(), x.pane.sel.len()), ("/", 0));
    assert_eq!(x.history.undo.last().unwrap().label, "delete");
}

#[test]
fn names_are_planned() {
    let x = explorer();
    let plan = |kind: PromptKind, buf: &str| plan_edit(&x.pane, &NamePrompt::new(kind, buf.to_string()));
    let rename = |orig: &str| PromptKind::Rename { orig: orig.to_string() };
    let rename_dir = |dir: &str| PromptKind::RenameDir { dir: dir.to_string() };
    assert!(matches!(plan(PromptKind::NewFolder, " n "), EditPlan::Make { target, name } if target == "/a/n" && name == "n"));
    assert!(matches!(plan(PromptKind::NewFolder, "D"), EditPlan::Refused(m) if m == "An item with that name already exists."));
    assert!(matches!(plan(rename("x.txt"), "x.txt"), EditPlan::Unchanged));
    assert!(matches!(plan(rename("x.txt"), "z"), EditPlan::Rename { src, dst, check: true, .. } if src == "/a/x.txt" && dst == "/a/z"));
    assert!(matches!(plan(rename("x.txt"), "X.TXT"), EditPlan::Rename { check: false, .. }));
    assert!(matches!(plan(rename_dir("/a"), "b"), EditPlan::Rename { src, dst, .. } if src == "/a" && dst == "/b"));
    assert!(matches!(plan(rename_dir("/"), "b"), EditPlan::Refused(m) if m == "A drive root can't be renamed."));
    assert!(matches!(plan(rename_dir("/a"), ""), EditPlan::Refused(m) if m == "Name can't be empty."));
    assert_eq!(NamePrompt::new(rename("a.b.txt"), "a.b.txt".to_string()).preselect(), 3);
    assert_eq!(NamePrompt::new(rename(".git"), ".git".to_string()).preselect(), 4);
    assert_eq!(NamePrompt::new(rename_dir("/a.b"), "a.b".to_string()).preselect(), 3);
    assert_eq!(NamePrompt::new(rename_dir("/a.b"), "a.b".to_string()).title(), "Rename folder");
    assert_eq!(NamePrompt::new(PromptKind::NewFolder, String::new()).title(), "New folder");
    assert!(undo_of(&EditPlan::Unchanged).is_none());
    let made = undo_of(&plan(PromptKind::NewFolder, "n")).unwrap();
    assert!(matches!(made.op, UndoOp::RemoveDir { path } if path == "/a/n"));
}

#[test]
fn a_rename_replaces_nothing() {
    let mut x = explorer();
    x.open_rename("x.txt");
    let mut p = x.prompt.take().unwrap();
    p.buf = "z.txt".to_string();
    let mut edit = Edit::new(plan_edit(&x.pane, &p));
    assert!(matches!(edit.next(FileEvent::Begin), FileAction::IsTaken { path } if path == "/a/z.txt"));
    assert!(matches!(edit.next(FileEvent::Answer(true)), FileAction::Finished));
    x.finish_edit(p, edit);
    let again = x.prompt.take().unwrap();
    assert_eq!(again.error.as_deref(), Some("An item with that name already exists."));
    assert!(x.history.undo.is_empty());
    // Once nothing is there, the rename is made.
    let mut edit = Edit::new(plan_edit(&x.pane, &again));
    edit.next(FileEvent::Begin);
    assert!(matches!(edit.next(FileEvent::Answer(false)), FileAction::Rename { .. }));
    assert!(matches!(edit.next(FileEvent::Did(Ok(()))), FileAction::Finished));
    x.finish_edit(again, edit);
    assert!(x.prompt.is_none());
    assert_eq!(x.history.undo.last().unwrap().label, "rename");
    assert_eq!(x.pane.select_after_reload.as_ref().unwrap().name, "z.txt");
}

#[test]
fn a_refused_name_touches_no_file() {
    let mut x = explorer();
    x.open_new_folder();
    let mut p = x.prompt.take().unwrap();
    assert_eq!(p.buf, "New folder");
    p.buf = "a/b".to_string();
    let mut edit = Edit::new(plan_edit(&x.pane, &p));
    assert!(matches!(edit.next(FileEvent::Begin), FileAction::Finished));
    x.finish_edit(p, edit);
    assert!(x.prompt.as_ref().unwrap().error.is_some());
    // A folder that could not be made says why.
    let p = NamePrompt::new(PromptKind::NewFolder, "n".to_string());
    let mut edit = Edit::new(plan_edit(&x.pane, &p));
    assert!(matches!(edit.next(FileEvent::Begin), FileAction::CreateDir { .. }));
    edit.next(FileEvent::Did(Err(Failure { message: "denied".to_string(), already_exists: false })));
    x.finish_edit(p, edit);
    assert!(x.prompt.as_ref().unwrap().error.as_ref().unwrap().contains("denied"));
}

#[test]
fn a_renamed_folder_is_followed() {
    let mut x = Explorer::new(UNIX, "/a/d");
    x.pane.back_stack.push(Visit { dir: "/a/d/e".to_string(), item: None });
    x.sidebar.expand("/a");
    x.open_rename_dir_at("/a");
    let mut p = x.prompt.take().unwrap();
    p.buf = "z".to_string();
    let mut edit = Edit::new(plan_edit(&x.pane, &p));
    edit.next(FileEvent::Begin);
    edit.next(FileEvent::Answer(false));
    edit.next(FileEvent::Did(Ok(())));
    x.finish_edit(p, edit);
    assert_eq!(x.pane.current_dir, "/z/d");
    assert_eq!(x.pane.back_stack.len(), 1); // in place, not a step
    assert!(x.sidebar.is_expanded("/z"));
    assert!(x.prompt.is_none());
    x.open_rename_dir_at("/");
    assert!(x.prompt.is_none());
}

#[test]
fn keys_ask_for_commands() {
    let ask = |i: &Input| commands(i, false, false, true);
    assert_eq!(ask(&input(vec![Key::F5])), [Command::Refresh]);
    assert_eq!(ask(&input(vec![Key::Escape])), [Command::Escape]);
    assert!(commands(&input(vec![Key::Escape]), true, false, true).is_empty());
    assert_eq!(ask(&input(vec![Key::Backspace])), [Command::Up]);
    assert_eq!(ask(&input(vec![Key::Tab])), [Command::SwitchFocus]);
    assert_eq!(ask(&Input { shift: true, ..input(vec![Key::Tab]) }), [Command::SwitchFocus]);
    assert!(ask(&Input { ctrl: true, ..input(vec![Key::Tab]) }).is_empty());
    assert_eq!(ask(&Input { alt: true, ..input(vec![Key::Left]) }), [Command::Back]);
    assert_eq!(ask(&Input { ctrl: true, ..input(vec![Key::C]) }), [Command::Copy]);
    assert_eq!(ask(&Input { ctrl: true, shift: true, ..input(vec![Key::C]) }), [Command::CopyPaths]);
    assert_eq!(ask(&Input { ctrl: true, ..input(vec![Key::Z]) }), [Command::Undo]);
    assert_eq!(ask(&Input { ctrl: true, shift: true, ..input(vec![Key::Z]) }), [Command::Redo]);
    assert_eq!(ask(&Input { ctrl: true, ..input(vec![Key::Y]) }), [Command::Redo]);
    assert_eq!(ask(&Input { alt: true, ..input(vec![Key::Enter]) }), [Command::ShowDetails]);
    assert_eq!(ask(&input(vec![Key::Enter, Key::Delete])), [Command::Delete, Command::Enter]);
    assert!(asks_for_address(&input(vec![Key::F4])));
    assert!(asks_for_address(&Input { ctrl: true, ..input(vec![Key::L]) }));
    assert!(!asks_for_address(&input(vec![Key::L])));
    assert!(list_key(&input(vec![Key::Down, Key::End])) == Some(ListKey::End));
    assert!(list_key(&Input { alt: true, ..input(vec![Key::Up]) }).is_none());
    assert!(tree_key(&input(vec![Key::Down, Key::End])) == Some(TreeKey::Down));
    assert!(tree_key(&input(vec![Key::PageUp])).is_none());
}

#[test]
fn commands_are_carried_out() {
    let mut x = explorer();
    assert!(matches!(x.run(Command::SelectAll, false), Effect::Nothing));
    assert_eq!(x.pane.sel.len(), 3);
    assert!(matches!(x.run(Command::CopyPaths, false), Effect::CopyText(t) if t == "/a/d\n/a/x.txt\n/a/y.txt"));
    assert!(matches!(x.run(Command::CopyPaths, true), Effect::CopyText(t) if t == "/a"));
    assert!(matches!(x.run(Command::Cut, false), Effect::ClipFiles { paths, cut: true } if paths.len() == 3));
    assert!(x.is_cut(1));
    assert!(matches!(x.run(Command::Paste, false), Effect::PasteInto(d) if d == "/a"));
    assert!(matches!(x.run(Command::Escape, false), Effect::Nothing));
    assert!(x.pane.sel.is_empty());
    x.details = true;
    x.run(Command::Escape, false);
    assert!(!x.details);
    x.pane.click(0, false, false);
    assert!(matches!(x.run(Command::OpenMenu, false), Effect::OpenMenu(0)));
    x.run(Command::Enter, false);
    assert_eq!(x.pane.current_dir, "/a/d");
    x.run(Command::Back, false);
    x.run(Command::Up, false);
    assert_eq!(x.pane.current_dir, "/");
    x.run(Command::SwitchFocus, false);
    assert!(x.focus == Focus::Tree);
    let open = x.sidebar.is_expanded("/");
    x.run(Command::Enter, true); // in the tree it expands or collapses
    assert_eq!(x.sidebar.is_expanded("/"), !open);
    x.run(Command::Delete, true); // never a root
    assert!(x.confirm_delete.is_none());
    assert!(matches!(x.run(Command::Undo, false), Effect::Nothing));
    x.run(Command::NewFolder, false);
    assert_eq!(x.prompt.as_ref().unwrap().buf, "New folder");
}

#[test]
fn menus_offer_what_is_possible() {
    let t = tree_menu(true, true, false, true);
    assert_eq!(t.iter().filter(|m| !m.enabled).count(), 5); // copy, cut, paste, delete, rename
    assert_eq!((t[1].label, t[4].label), ("Collapse", "Unpin from Quick access"));
    assert!(tree_menu(false, false, true, false).iter().all(|m| m.enabled));
    assert_eq!(folder_menu(true).iter().map(|m| m.label).collect::<Vec<_>>(), [
        "Paste",
        "New folder…",
        "Select all",
        "Refresh",
        "Open in Explorer",
        "Properties"
    ]);
    assert!(row_menu(true, true).iter().any(|m| m.act == RowAct::Pin));
    assert!(!row_menu(false, true).iter().any(|m| m.act == RowAct::Pin));
    assert!(!row_menu(false, false)[6].enabled);
}

#[test]
fn menu_choices_are_carried_out() {
    let mut x = explorer();
    assert!(matches!(x.choose_in_row(RowAct::CopyName, 1), Effect::CopyText(t) if t == "x.txt"));
    assert!(matches!(x.choose_in_row(RowAct::Reveal, 1), Effect::Reveal { path, is_dir: false } if path == "/a/x.txt"));
    assert!(matches!(x.choose_in_row(RowAct::Open, 1), Effect::Open(v) if v == ["/a/x.txt"]));
    x.choose_in_row(RowAct::Pin, 0);
    assert!(x.sidebar.is_pinned("/a/d"));
    x.choose_in_tree(TreeAct::Unpin, "/a/d");
    assert!(!x.sidebar.is_pinned("/a/d") && x.focus == Focus::Tree);
    assert!(matches!(x.choose_in_tree(TreeAct::Copy, "/b"), Effect::ClipFiles { cut: false, .. }));
    assert!(matches!(x.choose_in_tree(TreeAct::Paste, "/q"), Effect::PasteInto(p) if p == "/q"));
    assert!(matches!(x.choose_in_folder(FolderAct::Reveal), Effect::Reveal { is_dir: true, .. }));
    assert!(x.focus == Focus::List);
    x.choose_in_folder(FolderAct::SelectAll);
    assert_eq!(x.pane.sel.len(), 3);
    x.choose_in_folder(FolderAct::Props);
    assert!(x.details && x.pane.sel.is_empty());
    assert_eq!(x.selected_properties(at(0)).unwrap()[1].value, "/"); // the folder itself
    assert!(matches!(x.choose_in_tree(TreeAct::NewFolder, "/b"), Effect::ListThenNewFolder));
    assert_eq!(x.pane.current_dir, "/b");
}

#[test]
fn the_tree_is_driven_by_keys_and_letters() {
    let mut x = explorer();
    x.sidebar = tree();
    assert!(x.press_tree_key(TreeKey::Right));
    assert!(x.sidebar.is_expanded("/a"));
    assert!(x.press_tree_key(TreeKey::Right));
    assert_eq!(x.pane.current_dir, "/a/d");
    assert!(x.type_ahead_tree("b", 10));
    assert_eq!(x.pane.current_dir, "/b");
    assert!(x.focus == Focus::Tree && x.tree_focused());
    x.jump_to_quick(0); // no quick access yet
    assert_eq!(x.pane.current_dir, "/b");
    x.sidebar.pin("/q");
    x.jump_to_quick(0);
    assert_eq!(x.pane.current_dir, "/q");
    x.pane.addr_edit = " /w ".to_string();
    x.enter_address();
    assert_eq!(x.pane.current_dir, "/w");
}

#[test]
fn hidden_files_are_shown_on_request() {
    let mut x = Explorer::new(UNIX, "/a");
    x.reload_entries(Ok(vec![Entry { is_hidden: true, ..file(".h", 1) }, file("v", 1)]), None, None);
    assert_eq!(x.pane.entries.len(), 1);
    x.set_hidden(true);
    assert_eq!(x.pane.entries.len(), 2);
    x.pane.filter = "v".to_string();
    x.apply_filter();
    assert_eq!(x.pane.entries.len(), 1);
}

#[test]
fn history_is_walked_by_several_steps() {
    let mut x = Explorer::new(UNIX, "/a");
    x.navigate_to("/b");
    x.navigate_to("/c");
    x.go_back_by(2);
    assert_eq!(x.pane.current_dir, "/a");
    x.go_forward_by(9);
    assert_eq!(x.pane.current_dir, "/c");
    x.go_up();
    assert_eq!(x.pane.current_dir, "/");
    let mut x = Explorer::new(UNIX, "/a/b/c");
    assert!(x.step_out_if_gone(|p: &str| p == "/a"));
    assert_eq!(x.pane.current_dir, "/a");
    assert!(!x.step_out_if_gone(|p: &str| p == "/a"));
}

#[test]
fn what_is_permanent_needs_a_click() {
    let one = delete_question(UNIX, &texts(&["/a/x"]), false);
    assert_eq!((one.title, one.button, one.enter_confirms), ("Move to Recycle Bin?", "Move to Recycle Bin", true));
    assert_eq!(one.text, "“x” will be moved to the Recycle Bin.");
    let two = delete_question(UNIX, &texts(&["/n/x", "/n/y"]), true);
    assert_eq!((two.title, two.button, two.enter_confirms), ("Delete from network drive?", "Delete", false));
    assert!(two.text.starts_with("⚠ 2 items won't go to the Windows Recycle Bin."));
}

#[test]
fn labels_tell_what_a_drop_does() {
    assert_eq!(drag_badge(UNIX, &texts(&["/a/x"]), false), "Move x");
    assert_eq!(drag_badge(UNIX, &texts(&["/a/x", "/a/y"]), true), "Copy 2 items");
    assert_eq!(drop_label(1, "/a"), "Drop to copy 1 item into /a");
    assert_eq!(drop_label(4, "/a"), "Drop to copy 4 items into /a");
    assert_eq!(window_title("/a"), "SECTOR — /a");
    let mut x = explorer();
    x.set_clipboard(texts(&["/a/x.txt"]), true);
    assert!(matches!(x.footer(), Footer::Ready { clip: Some(c), .. } if c == "📋 1 cut"));
    x.take_clipboard(None);
    assert!(matches!(x.footer(), Footer::Ready { clip: None, .. }));
}

#[test]
fn rows_show_what_is_known() {
    let mut x = explorer();
    let row = x.row_cells(0, at(60));
    assert_eq!((row.name.as_str(), row.kind, row.size, row.age), ("d", "Folder", None, None));
    assert!(row.category.is_none() && !row.dimmed);
    x.pane.folder_sizes = Some(vec![FolderSize { name: "d".to_string(), bytes: 2048 }]);
    assert_eq!(x.row_cells(0, at(60)).size.as_deref(), Some("2.0 KB"));
    x.pane.entries[1].modified = Some(at(0));
    x.set_clipboard(texts(&["/a/x.txt"]), true);
    let row = x.row_cells(1, at(120));
    assert_eq!((row.size.as_deref(), row.age.as_deref(), row.dimmed), (Some("3 B"), Some("2m ago"), true));
    assert_eq!((row.kind, row.category), ("Document", Some(FileCategory::Document)));
}

#[test]
fn settings_come_back() {
    let mut x = Explorer::new(WIN, r"C:\");
    x.navigate_to(r"y:\Media");
    x.show_hidden = true;
    x.pane.sort_key = SortKey::Modified;
    x.pane.sort_asc = false;
    x.city.auto_scan = false;
    x.sidebar.pin(r"D:\x");
    x.mode = Mode::City;
    let s = x.settings(12, true);
    let mut y = Explorer::new(WIN, r"C:\");
    y.restore(&s);
    assert_eq!(y.pane.current_dir, r"Y:\Media");
    assert!(y.show_hidden && !y.pane.sort_asc && !y.city.auto_scan);
    assert!(y.pane.sort_key == SortKey::Modified);
    assert_eq!(y.sidebar.pins, [r"D:\x"]);
    assert_eq!((s.threads_to_use(), s.replay_mode), (12, true));
    assert_eq!(Settings { threads: 0, ..Settings::new() }.threads_to_use(), 1);
    assert_eq!(Settings { threads: 999, ..Settings::new() }.threads_to_use(), 256);
    assert_eq!(Settings::new().current_dir, "C:\\");
}

#[test]
fn digits_ask_for_quick_access() {
    let ctrl = |keys: Vec<Key>| Input { ctrl: true, ..input(keys) };
    assert_eq!(quick_place(&ctrl(vec![Key::Num1])), Some(0));
    assert_eq!(quick_place(&ctrl(vec![Key::Num9])), Some(8));
    // Of several the smallest.
    assert_eq!(quick_place(&ctrl(vec![Key::Num7, Key::A, Key::Num3])), Some(2));
    assert_eq!(quick_place(&input(vec![Key::Num1])), None);
    assert_eq!(quick_place(&Input { shift: true, ..ctrl(vec![Key::Num1]) }), None);
    assert_eq!(quick_place(&ctrl(vec![Key::A])), None);
}

#[test]
fn escape_empties_the_filter_it_leaves() {
    let mut x = explorer();
    x.pane.filter = "y".to_string();
    x.apply_filter();
    assert_eq!(x.pane.entries.len(), 1);
    // The field keeps the keyboard, or loses it otherwise: the filter stays.
    assert!(!x.leave_filter(false, &input(vec![Key::Escape])));
    assert!(!x.leave_filter(true, &input(vec![Key::Enter])));
    assert_eq!(x.pane.filter, "y");
    assert!(x.leave_filter(true, &input(vec![Key::Escape])));
    assert_eq!(x.pane.filter, "");
    assert_eq!(x.pane.entries.len(), 3);
    // Nothing is left to empty; the key is spent all the same.
    assert!(x.leave_filter(true, &input(vec![Key::Escape])));
    assert_eq!(x.pane.entries.len(), 3);
}
