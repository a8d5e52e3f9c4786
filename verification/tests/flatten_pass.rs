use grus_gui::ftree::{flatten, Geom};
use grus_gui::node::{Error, Record, Tree};
use grus_gui::paint::{divider_colors, div_segments, layout_rows, Segment};

fn rec(id: u64, name: &str, child_ids: Vec<u64>) -> Result<Record, Error> {
    Ok(Record { id, name: name.to_string(), due_date: None, session: None, child_ids })
}

fn geom(max_y: u64) -> Geom {
    Geom { start_y: 0, max_y, row_h: 10, sub_h: 6, spacing: 2 }
}

#[test]
fn single_root_gives_one_row() {
    let tree = Tree::from_store(vec![rec(0, "Inbox", vec![])]).unwrap();
    let out = flatten(&tree, 0, 0, &geom(1000));
    assert!(out.complete);
    assert_eq!(out.rows.len(), 1);
    let root = &out.rows[0];
    assert_eq!(root.id, 0);
    assert_eq!(root.pid, 0);
    assert_eq!(root.depth, 0);
    assert_eq!(root.path, vec![0]);
    assert_eq!(root.priority.det, 0);
    assert_eq!(root.priority.total, 1);
}

#[test]
fn nothing_fits_gives_empty_rows() {
    let tree = Tree::from_store(vec![rec(0, "Inbox", vec![])]).unwrap();
    // a root row takes row_h + spacing = 12 units; a bound of 11 rejects it
    let out = flatten(&tree, 0, 0, &geom(11));
    assert_eq!(out.rows.len(), 0);
    assert!(!out.complete);
    let out2 = flatten(&tree, 0, 0, &geom(12));
    assert_eq!(out2.rows.len(), 1);
}

#[test]
fn preorder_of_three_children() {
    let tree = Tree::from_store(vec![
        rec(0, "root", vec![1, 2, 3]),
        rec(1, "a", vec![]),
        rec(2, "b", vec![]),
        rec(3, "c", vec![]),
    ])
    .unwrap();
    let out = flatten(&tree, 0, 0, &geom(1000));
    assert!(out.complete);
    let ids: Vec<u64> = out.rows.iter().map(|r| r.id).collect();
    assert_eq!(ids, vec![0, 1, 2, 3]);
    let dets: Vec<u64> = out.rows.iter().map(|r| r.priority.det).collect();
    assert_eq!(dets, vec![0, 0, 1, 2]);
    let totals: Vec<u64> = out.rows.iter().map(|r| r.priority.total).collect();
    assert_eq!(totals, vec![1, 3, 3, 3]);
}

#[test]
fn children_follow_their_parent() {
    // b's own children come right after b, before c
    let tree = Tree::from_store(vec![
        rec(0, "root", vec![1, 2, 3]),
        rec(1, "a", vec![]),
        rec(2, "b", vec![4, 5]),
        rec(3, "c", vec![]),
        rec(4, "b1", vec![]),
        rec(5, "b2", vec![]),
    ])
    .unwrap();
    let out = flatten(&tree, 0, 0, &geom(1000));
    assert!(out.complete);
    let ids: Vec<u64> = out.rows.iter().map(|r| r.id).collect();
    assert_eq!(ids, vec![0, 1, 2, 4, 5, 3]);
    let depths: Vec<usize> = out.rows.iter().map(|r| r.depth).collect();
    assert_eq!(depths, vec![0, 1, 1, 2, 2, 1]);
}

#[test]
fn viewport_cuts_after_first_child() {
    let tree = Tree::from_store(vec![
        rec(0, "root", vec![1, 2]),
        rec(1, "one", vec![]),
        rec(2, "two", vec![]),
    ])
    .unwrap();
    // each row takes 12 units: a bound of 24 fits the root and one child
    let out = flatten(&tree, 0, 0, &geom(24));
    assert!(!out.complete);
    let ids: Vec<u64> = out.rows.iter().map(|r| r.id).collect();
    assert_eq!(ids, vec![0, 1]);
}

#[test]
fn rows_never_outgrow_the_viewport() {
    let tree = Tree::from_store(vec![
        rec(0, "root", vec![1, 2]),
        rec(1, "one", vec![3]),
        rec(2, "two", vec![]),
        rec(3, "deep", vec![]),
    ])
    .unwrap();
    for bound in [0u64, 11, 12, 23, 24, 30, 36, 48, 1000] {
        let out = flatten(&tree, 0, 0, &geom(bound));
        let layouts = layout_rows(&out.rows, &geom(bound));
        for l in layouts.iter() {
            assert!(l.top + l.height <= bound);
        }
    }
}

#[test]
fn selected_flags_follow_membership() {
    let mut tree = Tree::from_store(vec![
        rec(0, "root", vec![1]),
        rec(1, "a", vec![]),
    ])
    .unwrap();
    tree.toggle(0, 1);
    let out = flatten(&tree, 0, 0, &geom(1000));
    assert!(!out.rows[0].selected);
    assert!(out.rows[1].selected);
}

#[test]
fn highlight_marks_only_its_row() {
    let mut tree = Tree::from_store(vec![
        rec(0, "root", vec![1]),
        rec(1, "a", vec![]),
    ])
    .unwrap();
    tree.highlighted = Some(1);
    let out = flatten(&tree, 0, 0, &geom(1000));
    assert!(!out.rows[0].highlighted);
    assert!(out.rows[1].highlighted);
}

#[test]
fn dual_parent_node_gets_two_rows_and_a_distinct_color() {
    // node 9 stands in the child lists of both 1 and 2
    let tree = Tree::from_store(vec![
        rec(0, "root", vec![1, 2]),
        rec(1, "p1", vec![9]),
        rec(2, "p2", vec![9]),
        rec(9, "shared", vec![]),
    ])
    .unwrap();
    let out = flatten(&tree, 0, 0, &geom(1000));
    assert!(out.complete);
    let shared: Vec<&grus_gui::ftree::FNode> =
        out.rows.iter().filter(|r| r.id == 9).collect();
    assert_eq!(shared.len(), 2);
    assert!(shared[0].pid != shared[1].pid);
    let colors = divider_colors(&out.rows);
    let c9 = *colors.get(9).unwrap();
    assert!(!(c9.r == 255 && c9.g == 255 && c9.b == 255));
    // a node that occurs once keeps the neutral default
    let c1 = *colors.get(1).unwrap();
    assert!(c1.r == 255 && c1.g == 255 && c1.b == 255);
}

#[test]
fn sub_rows_extend_a_rows_height() {
    let snapshot = vec![
        rec(0, "root", vec![1]),
        Ok(Record {
            id: 1,
            name: "due".to_string(),
            due_date: Some(100),
            session: None,
            child_ids: vec![],
        }),
    ];
    let tree = Tree::from_store(snapshot).unwrap();
    let out = flatten(&tree, 0, 0, &geom(1000));
    assert!(!out.rows[0].has_sub);
    assert!(out.rows[1].has_sub);
    let layouts = layout_rows(&out.rows, &geom(1000));
    assert_eq!(layouts[0].height, 12);
    assert_eq!(layouts[1].height, 20);
    assert_eq!(layouts[0].top, 0);
    assert_eq!(layouts[1].top, 12);
    assert_eq!(layouts[1].sub_top, Some(12 + 12));
    assert_eq!(layouts[0].sub_top, None);
    // the root row never shows a delete affordance
    assert!(!layouts[0].del);
    assert!(layouts[1].del);
    assert_eq!(layouts[0].center, 0 + (12 - 2) / 2);
}

#[test]
fn divider_lines_of_a_single_child() {
    let tree = Tree::from_store(vec![rec(0, "root", vec![1]), rec(1, "a", vec![])]).unwrap();
    let out = flatten(&tree, 0, 0, &geom(1000));
    let segs = div_segments(&out.rows, &geom(1000), 0);
    // the child is the last sibling: a half-height elbow plus the stub
    assert_eq!(
        segs,
        vec![
            Segment { x0: 7, y0: 12, x1: 7, y1: 17 },
            Segment { x0: 7, y0: 17, x1: 14, y1: 17 },
        ]
    );
}

#[test]
fn divider_lines_of_two_siblings() {
    let tree = Tree::from_store(vec![
        rec(0, "root", vec![1, 2]),
        rec(1, "a", vec![]),
        rec(2, "b", vec![]),
    ])
    .unwrap();
    let out = flatten(&tree, 0, 0, &geom(1000));
    let segs = div_segments(&out.rows, &geom(1000), 0);
    // walked bottom to top: b (last sibling, elbow) first, then a (full line)
    assert_eq!(
        segs,
        vec![
            Segment { x0: 7, y0: 24, x1: 7, y1: 29 },
            Segment { x0: 7, y0: 29, x1: 14, y1: 29 },
            Segment { x0: 7, y0: 12, x1: 7, y1: 24 },
            Segment { x0: 7, y0: 17, x1: 14, y1: 17 },
        ]
    );
}
