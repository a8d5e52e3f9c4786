use grus_gui::actions::{click_action, Action, Element, Grus, Key, StoreCmd};
use grus_gui::editor::{delete_previous_char, delete_selected, insert_char, CCursor, CCursorRange};
use grus_gui::ftree::{FNode, Priority};
use grus_gui::node::{Error, Record};

fn rec(id: u64, name: &str, child_ids: Vec<u64>) -> Result<Record, Error> {
    Ok(Record { id, name: name.to_string(), due_date: None, session: None, child_ids })
}

fn row(pid: u64, id: u64) -> FNode {
    FNode {
        id,
        pid,
        depth: 1,
        path: vec![0, 1],
        selected: false,
        highlighted: false,
        has_sub: false,
        priority: Priority { det: 0, total: 1 },
    }
}

fn cursor(index: usize) -> CCursor {
    CCursor { index, prefer_next_row: false }
}

#[test]
fn clicks_map_to_domain_actions() {
    let r = row(0, 4);
    assert_eq!(click_action(&r, Element::Checkbox), Action::Toggle(0, 4));
    assert_eq!(click_action(&r, Element::Label), Action::MoveInto(0, 4));
    assert_eq!(click_action(&r, Element::AddButton), Action::Add(0, 4));
    assert_eq!(click_action(&r, Element::DelButton), Action::Delete(0, 4));
    // the pass's root refers to itself: no descend, no delete
    let root = row(4, 4);
    assert_eq!(click_action(&root, Element::Label), Action::Nothing);
    assert_eq!(click_action(&root, Element::DelButton), Action::Nothing);
    assert_eq!(click_action(&root, Element::Checkbox), Action::Toggle(4, 4));
}

#[test]
fn insert_and_delete_at_the_cursor() {
    let mut text: Vec<char> = vec!['a', 'b', 'c'];
    let mut cc = cursor(1);
    insert_char(&mut cc, &mut text, 'x');
    assert_eq!(text, vec!['a', 'x', 'b', 'c']);
    assert_eq!(cc.index, 2);

    let range = CCursorRange { primary: cursor(3), secondary: cursor(1) };
    let cc2 = delete_selected(&mut text, &range);
    assert_eq!(text, vec!['a', 'c']);
    assert_eq!(cc2.index, 1);
    assert!(cc2.prefer_next_row);

    let cc3 = delete_previous_char(&mut text, cursor(1));
    assert_eq!(text, vec!['c']);
    assert_eq!(cc3.index, 0);
    let cc4 = delete_previous_char(&mut text, cursor(0));
    assert_eq!(text, vec!['c']);
    assert_eq!(cc4.index, 0);
}

#[test]
fn keyboard_chars_edit_the_line() {
    let mut g = Grus::new(vec![rec(0, "Inbox", vec![])]).unwrap();
    let (c1, a1) = g.apply_key(Key::Char('h'), None);
    assert!(c1.is_none());
    assert_eq!(a1, Action::Nothing);
    let (_, _) = g.apply_key(Key::Char('i'), None);
    assert_eq!(g.vboard_text, vec!['h', 'i']);
    // replacing a selection with one character
    let range = CCursorRange { primary: cursor(0), secondary: cursor(1) };
    let (c2, _) = g.apply_key(Key::Char('H'), Some(range));
    assert_eq!(g.vboard_text, vec!['H', 'i']);
    assert_eq!(c2.unwrap().index, 1);
}

#[test]
fn keyboard_backspace_and_capslock() {
    let mut g = Grus::new(vec![rec(0, "Inbox", vec![])]).unwrap();
    g.apply_key(Key::Char('h'), None);
    g.apply_key(Key::Char('i'), None);
    let caret = CCursorRange { primary: cursor(2), secondary: cursor(2) };
    let (c, a) = g.apply_key(Key::Backspace, Some(caret));
    assert_eq!(a, Action::Nothing);
    assert_eq!(g.vboard_text, vec!['h']);
    assert_eq!(c.unwrap().index, 1);
    assert!(!g.vboard_caps);
    g.apply_key(Key::CapsLock, None);
    assert!(g.vboard_caps);
    g.apply_key(Key::CapsLock, None);
    assert!(!g.vboard_caps);
}

#[test]
fn enter_fires_the_pending_action() {
    let mut g = Grus::new(vec![rec(0, "Inbox", vec![])]).unwrap();
    let dispatch = g.route_tree_action(Action::Add(0, 0));
    assert_eq!(dispatch, Action::Nothing);
    assert_eq!(g.todo, Action::Add(0, 0));
    assert_eq!(g.tree.highlighted, Some(0));
    let (_, fired) = g.apply_key(Key::Enter, None);
    assert_eq!(fired, Action::Add(0, 0));
    assert_eq!(g.todo, Action::Nothing);
    assert_eq!(g.tree.highlighted, None);
}

#[test]
fn route_passes_immediate_actions_through() {
    let mut g = Grus::new(vec![rec(0, "Inbox", vec![])]).unwrap();
    assert_eq!(g.route_tree_action(Action::Delete(0, 3)), Action::Delete(0, 3));
    assert_eq!(g.route_tree_action(Action::Toggle(0, 3)), Action::Toggle(0, 3));
    assert_eq!(g.route_tree_action(Action::MoveOut), Action::MoveOut);
    assert_eq!(g.route_tree_action(Action::Rename), Action::Nothing);
}

#[test]
fn perform_action_builds_store_commands() {
    let mut g = Grus::new(vec![rec(0, "Inbox", vec![1]), rec(1, "a", vec![])]).unwrap();
    g.apply_key(Key::Char('n'), None);
    match g.perform_action(Action::Add(0, 1)) {
        StoreCmd::AddChild(pid, text) => {
            assert_eq!(pid, 1);
            assert_eq!(text, vec!['n']);
        }
        _ => panic!("an add asks the store for a child"),
    }
    // the line survives until the store write is committed
    assert_eq!(g.vboard_text, vec!['n']);
    g.finish_store(Action::Add(0, 1));
    assert_eq!(g.vboard_text, Vec::<char>::new());

    match g.perform_action(Action::Delete(0, 1)) {
        StoreCmd::Delete(pid, id) => assert_eq!((pid, id), (0, 1)),
        _ => panic!("a delete asks the store for a delete"),
    }
    match g.perform_action(Action::Export) {
        StoreCmd::Export => {}
        _ => panic!("an export is handed to the platform bridge"),
    }
    match g.perform_action(Action::Nothing) {
        StoreCmd::Nothing => {}
        _ => panic!("no action, no command"),
    }
}

#[test]
fn rename_targets_every_selected_id() {
    let mut g = Grus::new(vec![
        rec(0, "Inbox", vec![1, 2]),
        rec(1, "a", vec![]),
        rec(2, "b", vec![]),
    ])
    .unwrap();
    g.perform_action(Action::Toggle(0, 1));
    g.perform_action(Action::Toggle(0, 2));
    g.apply_key(Key::Char('z'), None);
    match g.perform_action(Action::Rename) {
        StoreCmd::Rename(ids, text) => {
            assert_eq!(ids, vec![1, 2]);
            assert_eq!(text, vec!['z']);
        }
        _ => panic!("a rename asks the store for renames"),
    }
    g.end_date = 4200;
    match g.perform_action(Action::SetDueDate) {
        StoreCmd::SetDueDate(ids, d) => {
            assert_eq!(ids, vec![1, 2]);
            assert_eq!(d, 4200);
        }
        _ => panic!("a due date asks the store for due dates"),
    }
    g.start_date = 100;
    match g.perform_action(Action::AddSession) {
        StoreCmd::AddSession(ids, s) => {
            assert_eq!(ids, vec![1, 2]);
            assert_eq!(s.start, 100);
            assert_eq!(s.end, 4200);
        }
        _ => panic!("a session asks the store for sessions"),
    }
}

#[test]
fn navigation_pushes_and_pops_the_stack() {
    let mut g = Grus::new(vec![rec(0, "Inbox", vec![1]), rec(1, "a", vec![])]).unwrap();
    match g.perform_action(Action::MoveInto(0, 1)) {
        StoreCmd::Refresh => {}
        _ => panic!("a descend reloads the tree"),
    }
    assert_eq!((g.root_pid, g.root_id), (0, 1));
    assert_eq!(g.stack, vec![(0, 0)]);
    match g.perform_action(Action::MoveOut) {
        StoreCmd::Refresh => {}
        _ => panic!("an ascend reloads the tree"),
    }
    assert_eq!((g.root_pid, g.root_id), (0, 0));
    assert!(g.stack.is_empty());
    // ascending above the top is a no-op
    match g.perform_action(Action::MoveOut) {
        StoreCmd::Nothing => {}
        _ => panic!("nothing above the top"),
    }
    assert_eq!((g.root_pid, g.root_id), (0, 0));
}

#[test]
fn toggle_action_flips_membership_in_memory() {
    let mut g = Grus::new(vec![rec(0, "Inbox", vec![1]), rec(1, "a", vec![])]).unwrap();
    match g.perform_action(Action::Toggle(0, 1)) {
        StoreCmd::Nothing => {}
        _ => panic!("a toggle is purely in-memory"),
    }
    assert!(g.tree.is_selected(0, 1));
    g.perform_action(Action::Toggle(0, 1));
    assert!(!g.tree.is_selected(0, 1));
}
