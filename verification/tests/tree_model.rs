use grus_gui::node::{Error, Record, Session, Tree};

fn rec(id: u64, name: &str, child_ids: Vec<u64>) -> Result<Record, Error> {
    Ok(Record { id, name: name.to_string(), due_date: None, session: None, child_ids })
}

fn small_snapshot() -> Vec<Result<Record, Error>> {
    vec![
        rec(0, "Inbox", vec![1, 2]),
        rec(1, "groceries", vec![]),
        rec(2, "work", vec![]),
    ]
}

#[test]
fn from_store_builds_the_snapshot() {
    let tree = Tree::from_store(small_snapshot()).unwrap();
    assert!(tree.has_node(0));
    assert!(tree.has_node(1));
    assert!(tree.has_node(2));
    assert!(!tree.has_node(3));
    assert_eq!(tree.node_at(0).name, "Inbox");
    assert_eq!(tree.node_at(1).name, "groceries");
    let kids: Vec<u64> = tree.children(0).iter().map(|n| n.id).collect();
    assert_eq!(kids, vec![1, 2]);
    assert_eq!(tree.children(1).len(), 0);
}

#[test]
fn from_store_surfaces_the_first_error() {
    let snapshot = vec![
        rec(0, "Inbox", vec![]),
        Err(Error::StoreError("lost page".to_string())),
        rec(1, "late", vec![]),
    ];
    match Tree::from_store(snapshot) {
        Ok(_) => panic!("a failed read must not build a tree"),
        Err(Error::StoreError(msg)) => assert_eq!(msg, "lost page"),
    }
}

#[test]
fn rebuild_is_atomic_on_failure() {
    let mut tree = Tree::from_store(small_snapshot()).unwrap();
    let failing = vec![
        rec(7, "other", vec![8]),
        Err(Error::StoreError("torn read".to_string())),
    ];
    let r = tree.rebuild(failing);
    assert!(r.is_err());
    // the prior node and link maps are retained exactly
    assert!(tree.has_node(0) && tree.has_node(1) && tree.has_node(2));
    assert!(!tree.has_node(7));
    assert_eq!(tree.node_at(0).name, "Inbox");
    let kids: Vec<u64> = tree.children(0).iter().map(|n| n.id).collect();
    assert_eq!(kids, vec![1, 2]);
}

#[test]
fn rebuild_replaces_and_keeps_selections() {
    let mut tree = Tree::from_store(small_snapshot()).unwrap();
    tree.toggle(0, 2);
    let next = vec![rec(0, "Inbox", vec![2]), rec(2, "work", vec![])];
    tree.rebuild(next).unwrap();
    assert!(!tree.has_node(1));
    assert_eq!(tree.node_at(0).name, "Inbox");
    // membership survives a rebuild
    assert!(tree.is_selected(0, 2));
}

#[test]
fn toggle_is_its_own_inverse() {
    let mut tree = Tree::from_store(small_snapshot()).unwrap();
    assert!(!tree.is_selected(0, 1));
    tree.toggle(0, 1);
    assert!(tree.is_selected(0, 1));
    tree.toggle(0, 1);
    assert!(!tree.is_selected(0, 1));
    // the second removal of the only parent leaves no empty entry behind
    let mut ids = tree.selection_ids();
    assert_eq!(ids.next(), None);
}

#[test]
fn toggle_tracks_many_parents() {
    let mut tree = Tree::from_store(small_snapshot()).unwrap();
    tree.toggle(0, 1);
    tree.toggle(2, 1);
    assert!(tree.is_selected(0, 1));
    assert!(tree.is_selected(2, 1));
    tree.toggle(0, 1);
    assert!(!tree.is_selected(0, 1));
    assert!(tree.is_selected(2, 1));
}

#[test]
fn selections_yield_empty_without_error_on_no_selections() {
    let tree = Tree::from_store(small_snapshot()).unwrap();
    let mut sels = tree.selections();
    assert_eq!(sels.next(), None);
    assert_eq!(sels.next(), None);
    let mut ids = tree.selection_ids();
    assert_eq!(ids.next(), None);
}

#[test]
fn selections_walk_all_pairs() {
    let mut tree = Tree::from_store(small_snapshot()).unwrap();
    tree.toggle(0, 1);
    tree.toggle(2, 1);
    tree.toggle(0, 2);
    let mut sels = tree.selections();
    let mut pairs = Vec::new();
    while let Some(p) = sels.next() {
        pairs.push(p);
    }
    assert_eq!(pairs, vec![(0, 1), (2, 1), (0, 2)]);
    let mut ids_walk = tree.selection_ids();
    let mut ids = Vec::new();
    while let Some(i) = ids_walk.next() {
        ids.push(i);
    }
    assert_eq!(ids, vec![1, 2]);
}

#[test]
fn empty_tree_is_empty() {
    let tree = Tree::new();
    assert!(!tree.has_node(0));
    assert!(tree.highlighted.is_none());
}

#[test]
fn nodes_carry_due_dates_and_sessions() {
    let snapshot = vec![Ok(Record {
        id: 5,
        name: "call".to_string(),
        due_date: Some(1000),
        session: Some(Session { start: 10, end: 20 }),
        child_ids: vec![],
    })];
    let tree = Tree::from_store(snapshot).unwrap();
    let n = tree.node_at(5);
    assert_eq!(n.due_date, Some(1000));
    assert_eq!(n.session, Some(Session { start: 10, end: 20 }));
}
