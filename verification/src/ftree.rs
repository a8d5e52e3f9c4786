//! The flattening engine: viewport-bounded breadth-first expansion of the
//! displayed tree into an ordered sequence of rows.
//!
//! Rows are discovered through a queue of per-parent child iterators, so the
//! discovery order interleaves siblings of different parents; a final sort by
//! hierarchical path restores document (pre-)order. The expansion stops the
//! moment the next row would fall outside the viewport, keeping per-frame
//! cost proportional to what is visible.

use vstd::prelude::*;
use crate::node::Tree;
use vstd::multiset::Multiset;
use std::collections::VecDeque;

verus! {

broadcast use vstd::seq_lib::group_to_multiset_ensures;

/// A row's rank among its siblings: `det` of `total`, zero-indexed.
pub struct Priority {
    pub det: u64,
    pub total: u64,
}

impl Priority {
    /// Whether this row is the last sibling at its depth; the last sibling
    /// gets the short connector elbow instead of a full vertical line.
    pub fn is_least(&self) -> (b: bool)
        ensures
            b == (self.det + 1 == self.total),
    {
        self.total > 0 && self.det == self.total - 1
    }
}

/// One visual row, derived fresh each pass from a node id plus traversal
/// context. A node id may produce several rows in one pass when it is
/// reachable along several branches; that is intentional.
pub struct FNode {
    /// The underlying node.
    pub id: u64,
    /// The parent id used to reach this row in this traversal.
    pub pid: u64,
    /// Nesting depth; the root row has depth zero.
    pub depth: usize,
    /// Discovery indices from the root to this row; used only to restore
    /// document order after out-of-order discovery.
    pub path: Vec<usize>,
    /// Whether this node is currently a member (selected) under `pid`.
    pub selected: bool,
    /// Whether this node carries the transient highlight.
    pub highlighted: bool,
    /// Whether the row carries a second sub-row (a due-date or a session).
    pub has_sub: bool,
    /// Rank among siblings.
    pub priority: Priority,
}

/// Vertical geometry of a pass, in integer display units.
#[derive(Clone, Copy)]
pub struct Geom {
    /// Where the first row starts.
    pub start_y: u64,
    /// The viewport bound: no placement may end below this line.
    pub max_y: u64,
    /// Height of a primary row.
    pub row_h: u64,
    /// Height of a due-date/session sub-row.
    pub sub_h: u64,
    /// Vertical spacing after each (sub-)row.
    pub spacing: u64,
}

impl Geom {
    /// Rows must have positive height, else a pass could go on forever.
    pub open spec fn wf(&self) -> bool {
        self.row_h >= 1
    }
}

/// The vertical extent one row adds: its primary height plus spacing, and
/// the same again for the sub-row when the node has a due-date or session.
pub open spec fn spec_height(has_sub: bool, g: Geom) -> int {
    if has_sub {
        g.row_h + g.spacing + g.sub_h + g.spacing
    } else {
        g.row_h + g.spacing
    }
}

/// The vertical extent of a whole row sequence.
pub open spec fn rows_height(rows: Seq<FNode>, g: Geom) -> int
    decreases rows.len(),
{
    if rows.len() == 0 {
        0
    } else {
        rows_height(rows.drop_last(), g) + spec_height(rows.last().has_sub, g)
    }
}

/// Splitting a row sequence splits its height.
proof fn lemma_rows_height_remove(rows: Seq<FNode>, i: int, g: Geom)
    requires
        0 <= i < rows.len(),
    ensures
        rows_height(rows, g) == rows_height(rows.remove(i), g) + spec_height(rows[i].has_sub, g),
    decreases rows.len(),
{
    if i == rows.len() - 1 {
        assert(rows.remove(i) =~= rows.drop_last());
    } else {
        lemma_rows_height_remove(rows.drop_last(), i, g);
        assert(rows.remove(i).drop_last() =~= rows.drop_last().remove(i));
        assert(rows.remove(i).last() == rows.last());
    }
}

/// Inserting a row into a sequence adds its height.
proof fn lemma_rows_height_insert(rows: Seq<FNode>, i: int, x: FNode, g: Geom)
    requires
        0 <= i <= rows.len(),
    ensures
        rows_height(rows.insert(i, x), g) == rows_height(rows, g) + spec_height(x.has_sub, g),
{
    assert(rows.insert(i, x).remove(i) =~= rows);
    assert(rows.insert(i, x)[i] == x);
    lemma_rows_height_remove(rows.insert(i, x), i, g);
}

/// Appending a row adds its height.
proof fn lemma_rows_height_push(rows: Seq<FNode>, x: FNode, g: Geom)
    ensures
        rows_height(rows.push(x), g) == rows_height(rows, g) + spec_height(x.has_sub, g),
{
    assert(rows.push(x).drop_last() =~= rows);
}

/// Strict lexicographic order on paths.
pub open spec fn lex_lt(a: Seq<usize>, b: Seq<usize>) -> bool
    decreases a.len(),
{
    if b.len() == 0 {
        false
    } else if a.len() == 0 {
        true
    } else if a[0] < b[0] {
        true
    } else if a[0] > b[0] {
        false
    } else {
        lex_lt(a.drop_first(), b.drop_first())
    }
}

/// The path order is total: two paths are equal or one is less.
pub proof fn lemma_lex_total(a: Seq<usize>, b: Seq<usize>)
    ensures
        a == b || lex_lt(a, b) || lex_lt(b, a),
    decreases a.len(),
{
    if b.len() == 0 {
        if a.len() == 0 {
            assert(a =~= b);
        }
    } else if a.len() == 0 {
    } else if a[0] < b[0] {
    } else if a[0] > b[0] {
    } else {
        lemma_lex_total(a.drop_first(), b.drop_first());
        if a.drop_first() == b.drop_first() {
            assert(a =~= b) by {
                assert(a.drop_first().len() == a.len() - 1);
                assert(b.drop_first().len() == b.len() - 1);
                assert(a.len() == b.len());
                assert forall|i: int| 0 <= i < a.len() implies a[i] == b[i] by {
                    if i > 0 {
                        assert(a.drop_first()[i - 1] == b.drop_first()[i - 1]);
                    }
                }
            }
        }
    }
}

/// The path order is transitive.
pub proof fn lemma_lex_trans(a: Seq<usize>, b: Seq<usize>, c: Seq<usize>)
    requires
        lex_lt(a, b),
        lex_lt(b, c),
    ensures
        lex_lt(a, c),
    decreases a.len(),
{
    if a.len() == 0 {
    } else {
        if a[0] == b[0] && b[0] == c[0] {
            lemma_lex_trans(a.drop_first(), b.drop_first(), c.drop_first());
        }
    }
}

/// The path order is irreflexive.
pub proof fn lemma_lex_irrefl(a: Seq<usize>)
    ensures
        !lex_lt(a, a),
    decreases a.len(),
{
    if a.len() > 0 {
        lemma_lex_irrefl(a.drop_first());
    }
}

/// Compare two paths lexicographically.
fn path_lt(a: &Vec<usize>, b: &Vec<usize>) -> (r: bool)
    ensures
        r == lex_lt(a@, b@),
{
    let mut i: usize = 0;
    let alen = a.len();
    let blen = b.len();
    proof {
        assert(a@.skip(0) =~= a@);
        assert(b@.skip(0) =~= b@);
    }
    while i < alen && i < blen
        invariant
            alen == a@.len(),
            blen == b@.len(),
            i <= alen,
            i <= blen,
            lex_lt(a@, b@) == lex_lt(a@.skip(i as int), b@.skip(i as int)),
        decreases alen - i,
    {
        let x = a[i];
        let y = b[i];
        proof {
            assert(a@.skip(i as int)[0] == a@[i as int]);
            assert(b@.skip(i as int)[0] == b@[i as int]);
        }
        if x < y {
            return true;
        }
        if x > y {
            return false;
        }
        proof {
            assert(a@.skip(i as int).drop_first() =~= a@.skip(i + 1));
            assert(b@.skip(i as int).drop_first() =~= b@.skip(i + 1));
        }
        i += 1;
    }
    proof {
        if i == alen {
            assert(a@.skip(i as int) =~= Seq::<usize>::empty());
        } else {
            assert(b@.skip(i as int) =~= Seq::<usize>::empty());
            assert(a@.skip(i as int).len() > 0);
        }
    }
    alen < blen
}

/// All paths of a row sequence are pairwise distinct.
pub open spec fn paths_distinct(rows: Seq<FNode>) -> bool {
    forall|k1: int, k2: int|
        0 <= k1 < rows.len() && 0 <= k2 < rows.len() && k1 != k2 ==> (#[trigger] rows[k1].path@)
            != (#[trigger] rows[k2].path@)
}

/// No path of `a` occurs among the paths of `b`.
spec fn paths_disjoint(a: Seq<FNode>, b: Seq<FNode>) -> bool {
    forall|k: int, l: int|
        0 <= k < a.len() && 0 <= l < b.len() ==> (#[trigger] a[k].path@) != (#[trigger] b[l].path@)
}

/// Sort rows by their path. The result holds exactly the input rows, in
/// strictly increasing path order.
fn sort_rows(input: Vec<FNode>) -> (out: Vec<FNode>)
    requires
        paths_distinct(input@),
    ensures
        out@.len() == input@.len(),
        out@.to_multiset() == input@.to_multiset(),
        paths_distinct(out@),
        forall|k1: int, k2: int|
            0 <= k1 < k2 < out@.len() ==> lex_lt(out@[k1].path@, out@[k2].path@),
        forall|g: Geom| #[trigger] rows_height(out@, g) == rows_height(input@, g),
{
    let ghost input0 = input@;
    let mut rest = input;
    let mut sorted: Vec<FNode> = Vec::new();
    proof {
        assert(sorted@.to_multiset().add(rest@.to_multiset()) =~= input0.to_multiset());
        assert(forall|g: Geom| #[trigger] rows_height(sorted@, g) == 0);
    }
    while rest.len() > 0
        invariant
            sorted@.to_multiset().add(rest@.to_multiset()) == input0.to_multiset(),
            sorted@.len() + rest@.len() == input0.len(),
            paths_distinct(sorted@),
            paths_distinct(rest@),
            paths_disjoint(sorted@, rest@),
            forall|k1: int, k2: int|
                0 <= k1 < k2 < sorted@.len() ==> lex_lt(sorted@[k1].path@, sorted@[k2].path@),
            forall|g: Geom|
                #[trigger] rows_height(sorted@, g) + rows_height(rest@, g) == rows_height(
                    input0,
                    g,
                ),
        decreases rest@.len(),
    {
        let ghost rest0 = rest@;
        let ghost sorted0 = sorted@;
        let x = rest.remove(0);
        proof {
            assert(rest@ =~= rest0.remove(0));
            assert forall|g: Geom|
                #[trigger] rows_height(sorted@, g) + rows_height(rest@, g) + spec_height(
                    x.has_sub,
                    g,
                ) == rows_height(input0, g) by {
                lemma_rows_height_remove(rest0, 0, g);
            }
        }
        let mut pos: usize = 0;
        let mut scanning = true;
        while scanning
            invariant
                pos <= sorted@.len(),
                forall|k: int| 0 <= k < pos ==> lex_lt(sorted@[k].path@, x.path@),
                !scanning ==> pos == sorted@.len() || !lex_lt(sorted@[pos as int].path@, x.path@),
            decreases sorted@.len() - pos + (if scanning { 1int } else { 0int }),
        {
            if pos >= sorted.len() {
                scanning = false;
            } else if !path_lt(&sorted[pos].path, &x.path) {
                scanning = false;
            } else {
                pos += 1;
            }
        }
        proof {
            if pos < sorted@.len() {
                lemma_lex_total(sorted@[pos as int].path@, x.path@);
                assert(sorted@[pos as int].path@ != x.path@) by {
                    assert(rest0[0] == x);
                }
                assert(lex_lt(x.path@, sorted@[pos as int].path@));
            }
        }
        sorted.insert(pos, x);
        proof {
            assert(sorted@ =~= sorted0.insert(pos as int, x));
            // the inserted element is ordered against everything around it
            assert forall|k1: int, k2: int| 0 <= k1 < k2 < sorted@.len() implies lex_lt(
                sorted@[k1].path@,
                sorted@[k2].path@,
            ) by {
                let a1 = if k1 < pos {
                    k1
                } else {
                    k1 - 1
                };
                let a2 = if k2 <= pos {
                    k2 - 1
                } else {
                    k2 - 1
                };
                if k1 < pos && k2 > pos {
                    assert(sorted@[k1] == sorted0[k1]);
                    assert(sorted@[k2] == sorted0[k2 - 1]);
                    if pos < sorted0.len() {
                        if k2 - 1 > pos {
                            lemma_lex_trans(
                                x.path@,
                                sorted0[pos as int].path@,
                                sorted0[k2 - 1].path@,
                            );
                        }
                        lemma_lex_trans(sorted0[k1].path@, x.path@, sorted0[k2 - 1].path@);
                    } else {
                        assert(false);
                    }
                } else if k1 == pos {
                    assert(sorted@[k1] == x);
                    assert(sorted@[k2] == sorted0[k2 - 1]);
                    if k2 - 1 > pos {
                        lemma_lex_trans(x.path@, sorted0[pos as int].path@, sorted0[k2 - 1].path@);
                    }
                } else if k2 == pos {
                    assert(sorted@[k2] == x);
                    assert(sorted@[k1] == sorted0[k1]);
                } else if k2 < pos {
                    assert(sorted@[k1] == sorted0[k1]);
                    assert(sorted@[k2] == sorted0[k2]);
                } else {
                    // pos < k1 < k2
                    assert(sorted@[k1] == sorted0[k1 - 1]);
                    assert(sorted@[k2] == sorted0[k2 - 1]);
                }
            }
            // distinctness and disjointness after the move
            assert forall|k1: int, k2: int|
                0 <= k1 < sorted@.len() && 0 <= k2 < sorted@.len() && k1 != k2 implies (
            #[trigger] sorted@[k1].path@) != (#[trigger] sorted@[k2].path@) by {
                let b1 = if k1 < pos {
                    k1
                } else if k1 == pos {
                    -1
                } else {
                    k1 - 1
                };
                let b2 = if k2 < pos {
                    k2
                } else if k2 == pos {
                    -1
                } else {
                    k2 - 1
                };
                if b1 >= 0 {
                    assert(sorted@[k1] == sorted0[b1]);
                } else {
                    assert(sorted@[k1] == x);
                    assert(x == rest0[0]);
                }
                if b2 >= 0 {
                    assert(sorted@[k2] == sorted0[b2]);
                } else {
                    assert(sorted@[k2] == x);
                    assert(x == rest0[0]);
                }
            }
            assert forall|k: int, l: int|
                0 <= k < sorted@.len() && 0 <= l < rest@.len() implies (#[trigger] sorted@[k].path@)
                != (#[trigger] rest@[l].path@) by {
                assert(rest@[l] == rest0[l + 1]);
                if k < pos {
                    assert(sorted@[k] == sorted0[k]);
                } else if k == pos {
                    assert(sorted@[k] == x);
                    assert(x == rest0[0]);
                } else {
                    assert(sorted@[k] == sorted0[k - 1]);
                }
            }
            assert forall|k1: int, k2: int|
                0 <= k1 < rest@.len() && 0 <= k2 < rest@.len() && k1 != k2 implies (
            #[trigger] rest@[k1].path@) != (#[trigger] rest@[k2].path@) by {
                assert(rest@[k1] == rest0[k1 + 1]);
                assert(rest@[k2] == rest0[k2 + 1]);
            }
            // multiset and height bookkeeping
            assert(sorted@.to_multiset() =~= sorted0.to_multiset().insert(x)) by {
                assert(sorted@.remove(pos as int) =~= sorted0);
                assert(sorted@.to_multiset().remove(x) =~= sorted0.to_multiset());
                assert(sorted@.to_multiset().count(x) > 0) by {
                    assert(sorted@[pos as int] == x);
                    assert(sorted@.contains(x));
                }
                assert forall|z: FNode| true implies sorted@.to_multiset().count(z)
                    == sorted0.to_multiset().insert(x).count(z) by {
                    if z == x {
                        assert(sorted@.to_multiset().remove(x).count(x) == sorted@.to_multiset().count(x) - 1);
                    } else {
                        assert(sorted@.to_multiset().remove(x).count(z) == sorted@.to_multiset().count(z));
                    }
                }
            }
            assert(rest0.to_multiset() =~= rest@.to_multiset().insert(x)) by {
                assert(rest0.remove(0) =~= rest@);
                assert(rest0.to_multiset().remove(rest0[0]) =~= rest@.to_multiset());
                assert(rest0.to_multiset().count(x) > 0) by {
                    assert(rest0.contains(x));
                }
                assert forall|z: FNode| true implies rest0.to_multiset().count(z)
                    == rest@.to_multiset().insert(x).count(z) by {
                    if z == x {
                        assert(rest0.to_multiset().remove(x).count(x) == rest0.to_multiset().count(x) - 1);
                    } else {
                        assert(rest0.to_multiset().remove(x).count(z) == rest0.to_multiset().count(z));
                    }
                }
            }
            assert(sorted@.to_multiset().add(rest@.to_multiset()) =~= input0.to_multiset()) by {
                assert(sorted0.to_multiset().add(rest0.to_multiset()) == input0.to_multiset());
            }
            assert forall|g: Geom|
                #[trigger] rows_height(sorted@, g) + rows_height(rest@, g) == rows_height(
                    input0,
                    g,
                ) by {
                lemma_rows_height_insert(sorted0, pos as int, x, g);
            }
        }
    }
    proof {
        assert(rest@ =~= Seq::<FNode>::empty());
        assert(rest@.to_multiset() =~= Multiset::<FNode>::empty());
        assert(sorted@.to_multiset() =~= input0.to_multiset());
        assert forall|g: Geom| #[trigger] rows_height(sorted@, g) == rows_height(input0, g) by {
            assert(rows_height(rest@, g) == 0);
        }
    }
    sorted
}

/// The node for `id` carries a due-date or a session, so its row gets a
/// second sub-row.
pub open spec fn node_has_sub(t: Tree, id: u64) -> bool {
    t.node_map()[id].due_date is Some || t.node_map()[id].session is Some
}

/// Value-level facts tying a row to the tree it was derived from.
pub open spec fn flags_ok(t: Tree, r: FNode) -> bool {
    &&& t.node_map().contains_key(r.id)
    &&& r.has_sub == node_has_sub(t, r.id)
    &&& r.highlighted == (t.highlight() == Some(r.id))
    &&& r.selected == (t.sel_map().contains_key(r.id) && t.sel_map()[r.id].contains(r.pid))
}

/// The root row of a pass: depth zero, path `[0]`, rank 0 of 1.
pub open spec fn is_root_row(t: Tree, pid: u64, id: u64, r: FNode) -> bool {
    &&& flags_ok(t, r)
    &&& r.id == id
    &&& r.pid == pid
    &&& r.depth == 0
    &&& r.path@ == seq![0usize]
    &&& r.priority.det == 0
    &&& r.priority.total == 1
}

/// `c`'s path goes one step below `p`'s.
pub open spec fn extends_path(c: FNode, p: FNode) -> bool {
    c.path@.len() == p.path@.len() + 1 && c.path@.subrange(0, p.path@.len() as int) == p.path@
}

/// A placed row `c` is the child of row `p` at child index `idx`.
pub open spec fn child_of(t: Tree, p: FNode, c: FNode, idx: int) -> bool {
    &&& flags_ok(t, c)
    &&& c.pid == p.id
    &&& c.depth == p.depth + 1
    &&& t.link_map().contains_key(p.id)
    &&& 0 <= idx < t.link_map()[p.id]@.len()
    &&& c.priority.det as int == idx
    &&& c.priority.total as int == t.link_map()[p.id]@.len()
    &&& c.id == t.link_map()[p.id]@[idx]
    &&& extends_path(c, p)
}

/// A queued (not yet placed) child: like `child_of`, but its path has not
/// been extended with a discovery index yet.
pub open spec fn queued_child_of(t: Tree, p: FNode, c: FNode, idx: int) -> bool {
    &&& flags_ok(t, c)
    &&& c.pid == p.id
    &&& c.depth == p.depth + 1
    &&& c.path@ == p.path@
    &&& t.link_map().contains_key(p.id)
    &&& 0 <= idx < t.link_map()[p.id]@.len()
    &&& c.priority.det as int == idx
    &&& c.priority.total as int == t.link_map()[p.id]@.len()
    &&& c.id == t.link_map()[p.id]@[idx]
}

/// Some row of `rows` is the placed child of row `p` at child index `idx`.
pub open spec fn placed_for(rows: Seq<FNode>, p: FNode, idx: int) -> bool {
    exists|k: int|
        0 <= k < rows.len() && (#[trigger] rows[k]).pid == p.id && rows[k].priority.det as int
            == idx && extends_path(rows[k], p)
}

/// Every structural child of row `p` has been placed.
pub open spec fn covered_fully(t: Tree, rows: Seq<FNode>, p: FNode) -> bool {
    &&& t.link_map().contains_key(p.id)
    &&& forall|c: int| 0 <= c < t.link_map()[p.id]@.len() ==> placed_for(rows, p, c)
}

/// A row is either the pass's root row, or the child of some row beside it.
pub open spec fn row_ok(t: Tree, pid: u64, id: u64, rows: Seq<FNode>, r: FNode) -> bool {
    ||| is_root_row(t, pid, id, r)
    ||| exists|j: int|
        0 <= j < rows.len() && child_of(t, #[trigger] rows[j], r, r.priority.det as int)
}

/// Every structural child of every row has a row of its own: nothing visible
/// was left out.
pub open spec fn rows_complete(t: Tree, rows: Seq<FNode>) -> bool {
    forall|j: int, c: int|
        0 <= j < rows.len() && t.link_map().contains_key(rows[j].id) && 0 <= c
            < t.link_map()[rows[j].id]@.len() ==> #[trigger] placed_for(rows, rows[j], c)
}

/// Some reached row has an unplaced child whose placement would have crossed
/// the viewport bound: the reason a pass stopped early.
pub open spec fn overflow_witness(t: Tree, rows: Seq<FNode>, g: Geom) -> bool {
    exists|j: int, c: int|
        0 <= j < rows.len() && t.link_map().contains_key(rows[j].id) && 0 <= c
            < t.link_map()[rows[j].id]@.len() && !(#[trigger] placed_for(rows, rows[j], c))
            && g.start_y + rows_height(rows, g) + spec_height(
            node_has_sub(t, t.link_map()[rows[j].id]@[c]),
            g,
        ) > g.max_y
}

/// Shape facts of a placed non-root row at index `k`, in discovery order:
/// its path ends in its own discovery index and goes one step below the path
/// of an earlier row, its parent.
spec fn row_shape(t: Tree, rows: Seq<FNode>, k: int) -> bool {
    &&& rows[k].path@.len() >= 2
    &&& rows[k].path@[0] == 0
    &&& rows[k].path@.last() as int == k
    &&& rows[k].depth == rows[k].path@.len() - 1
    &&& forall|e: int| 0 <= e < rows[k].path@.len() ==> (#[trigger] rows[k].path@[e]) as int <= k
    &&& exists|j: int|
        0 <= j < k && child_of(t, #[trigger] rows[j], rows[k], rows[k].priority.det as int)
            && rows[k].path@ == rows[j].path@.push(rows[k].path@.last())
}

/// A lazily drained list of the child rows of one placed parent row.
struct FChildIter {
    children: Vec<FNode>,
    parent: Ghost<FNode>,
}

/// The invariant of a queued child iterator: its parent is a placed row
/// (before index `bound`), the rows placed so far hold exactly the children
/// it has already yielded, and nothing deeper.
/// The index just past the children this iterator has already yielded.
spec fn iter_consumed(t: Tree, it: FChildIter) -> int {
    t.link_map()[it.parent@.id]@.len() - it.children@.len()
}

spec fn iter_ok(t: Tree, it: FChildIter, rows: Seq<FNode>, bound: int) -> bool {
    &&& t.link_map().contains_key(it.parent@.id)
    &&& exists|j: int| 0 <= j < bound && bound <= rows.len() && rows[j] == it.parent@
    &&& it.children@.len() <= t.link_map()[it.parent@.id]@.len()
    &&& forall|c: int|
        0 <= c < it.children@.len() ==> queued_child_of(
            t,
            it.parent@,
            #[trigger] it.children@[c],
            iter_consumed(t, it) + c,
        )
    &&& forall|c: int| 0 <= c < iter_consumed(t, it) ==> placed_for(rows, it.parent@, c)
    &&& forall|k: int|
        0 <= k < rows.len() && extends_path(#[trigger] rows[k], it.parent@)
            ==> (rows[k].priority.det as int) < iter_consumed(t, it)
}

/// Whether some iterator of the queue belongs to parent row `p`.
spec fn in_queue(q: Seq<FChildIter>, p: FNode) -> bool {
    exists|qi: int| 0 <= qi < q.len() && (#[trigger] q[qi]).parent@ == p
}

/// Queue iterators belong to pairwise different parent rows.
spec fn queue_parents_distinct(q: Seq<FChildIter>) -> bool {
    forall|qi1: int, qi2: int|
        0 <= qi1 < q.len() && 0 <= qi2 < q.len() && qi1 != qi2 ==> (
        #[trigger] q[qi1]).parent@.path@ != (#[trigger] q[qi2]).parent@.path@
}

/// No placed row goes below a row whose children have not been opened yet
/// (the rows at positions `start` and beyond).
spec fn unopened_fresh(rows: Seq<FNode>, start: int) -> bool {
    forall|i2: int, k: int|
        start <= i2 < rows.len() && 0 <= k < rows.len() ==> !extends_path(
            #[trigger] rows[k],
            #[trigger] rows[i2],
        )
}

impl FChildIter {
    /// Yield the next child row, if one is left.
    fn next(&mut self) -> (r: Option<FNode>)
        ensures
            final(self).parent@ == old(self).parent@,
            old(self).children@.len() == 0 ==> r is None && final(self).children@ == old(self).children@,
            old(self).children@.len() > 0 ==> r == Some(old(self).children@[0]) && final(self).children@ == old(self).children@.drop_first(),
    {
        if self.children.len() > 0 {
            let c = self.children.remove(0);
            proof {
                assert(self.children@ =~= old(self).children@.drop_first());
            }
            Some(c)
        } else {
            None
        }
    }
}

/// Copy a path vector.
fn copy_path(p: &Vec<usize>) -> (r: Vec<usize>)
    ensures
        r@ == p@,
{
    let mut r: Vec<usize> = Vec::new();
    let mut i: usize = 0;
    while i < p.len()
        invariant
            i <= p@.len(),
            r@ =~= p@.take(i as int),
        decreases p@.len() - i,
    {
        r.push(p[i]);
        proof {
            assert(r@ =~= p@.take(i + 1));
        }
        i += 1;
    }
    proof {
        assert(p@.take(p@.len() as int) =~= p@);
    }
    r
}

/// Build the child iterator of a placed row: one queued child row per
/// structural child, in sibling order, with rank `i` of `n`.
fn child_iter(tree: &Tree, parent: &FNode) -> (it: FChildIter)
    requires
        tree.wf(),
        tree.links_closed(),
        tree.node_map().contains_key(parent.id),
        parent.path@.len() >= 1,
        parent.depth == parent.path@.len() - 1,
    ensures
        it.parent@ == *parent,
        tree.link_map().contains_key(parent.id),
        it.children@.len() == tree.link_map()[parent.id]@.len(),
        forall|c: int|
            0 <= c < it.children@.len() ==> queued_child_of(
                *tree,
                *parent,
                #[trigger] it.children@[c],
                c,
            ),
{
    proof {
        assert(tree.link_map().dom() == tree.node_map().dom());
        assert(tree.link_map().contains_key(parent.id));
    }
    let kids = tree.children(parent.id);
    let total_usize: usize = kids.len();
    let total64: u64 = total_usize as u64;
    let hl = tree.get_highlighted();
    let child_depth: usize = parent.path.len();
    let mut children: Vec<FNode> = Vec::new();
    let mut i: usize = 0;
    while i < total_usize
        invariant
            tree.wf(),
            tree.links_closed(),
            tree.node_map().contains_key(parent.id),
            tree.link_map().contains_key(parent.id),
            parent.path@.len() >= 1,
            parent.depth == parent.path@.len() - 1,
            child_depth == parent.path@.len(),
            total_usize == tree.link_map()[parent.id]@.len(),
            total64 == total_usize as u64,
            kids@.len() == total_usize,
            forall|c: int|
                0 <= c < kids@.len() ==> *(#[trigger] kids@[c]) == tree.node_map()[tree.link_map()[parent.id]@[c]],
            hl == tree.highlight(),
            i <= total_usize,
            children@.len() == i,
            forall|c: int|
                0 <= c < i ==> queued_child_of(*tree, *parent, #[trigger] children@[c], c),
        decreases total_usize - i,
    {
        let n = kids[i];
        proof {
            assert(tree.node_map().contains_key(tree.link_map()[parent.id]@[i as int]));
            assert(tree.node_map()[tree.link_map()[parent.id]@[i as int]].id == tree.link_map()[parent.id]@[i as int]);
        }
        let det64: u64 = i as u64;
        let child = FNode {
            id: n.id,
            pid: parent.id,
            depth: child_depth,
            path: copy_path(&parent.path),
            selected: tree.is_selected(parent.id, n.id),
            highlighted: match hl {
                Some(h) => h == n.id,
                None => false,
            },
            has_sub: n.due_date.is_some() || n.session.is_some(),
            priority: Priority { det: det64, total: total64 },
        };
        children.push(child);
        i += 1;
    }
    let ghost gp = *parent;
    FChildIter { children, parent: Ghost(gp) }
}

/// Advance a vertical position by one row's extent; `None` means the sum
/// does not even fit the coordinate space, which certainly crosses any bound.
fn add_height(y: u64, has_sub: bool, g: &Geom) -> (r: Option<u64>)
    ensures
        match r {
            Some(v) => v == y + spec_height(has_sub, *g),
            None => y + spec_height(has_sub, *g) > u64::MAX,
        },
{
    let s1 = match y.checked_add(g.row_h) {
        Some(v) => v,
        None => {
            return None;
        },
    };
    let s2 = match s1.checked_add(g.spacing) {
        Some(v) => v,
        None => {
            return None;
        },
    };
    if !has_sub {
        return Some(s2);
    }
    let s3 = match s2.checked_add(g.sub_h) {
        Some(v) => v,
        None => {
            return None;
        },
    };
    match s3.checked_add(g.spacing) {
        Some(v) => Some(v),
        None => None,
    }
}

/// The result of one flattening pass.
pub struct Flattened {
    /// The placed rows, in document (path) order.
    pub rows: Vec<FNode>,
    /// Whether the whole visible subtree fit; `false` means the pass stopped
    /// at the viewport bound and dropped what was left.
    pub complete: bool,
}

/// The discovery-order invariant of a pass: one root row up front, and every
/// later row shaped as the child of an earlier row.
spec fn disc_ok(t: Tree, pid: u64, id: u64, rows: Seq<FNode>) -> bool {
    &&& rows.len() >= 1
    &&& is_root_row(t, pid, id, rows[0])
    &&& forall|k: int| 1 <= k < rows.len() ==> row_shape(t, rows, k)
}

/// In discovery order, all paths are pairwise distinct: the root's path is
/// the only one of length one, and any other row's path ends in its own
/// discovery index.
proof fn lemma_rows_paths_distinct(t: Tree, pid: u64, id: u64, rows: Seq<FNode>)
    requires
        disc_ok(t, pid, id, rows),
    ensures
        paths_distinct(rows),
        forall|j1: int, j2: int|
            0 <= j1 < rows.len() && 0 <= j2 < rows.len() && (#[trigger] rows[j1].path@) == (
            #[trigger] rows[j2].path@) ==> j1 == j2,
{
    assert forall|j1: int, j2: int|
        0 <= j1 < rows.len() && 0 <= j2 < rows.len() && (#[trigger] rows[j1].path@) == (
        #[trigger] rows[j2].path@) implies j1 == j2 by {
        if j1 >= 1 {
            assert(row_shape(t, rows, j1));
        }
        if j2 >= 1 {
            assert(row_shape(t, rows, j2));
        }
        if j1 == 0 && j2 >= 1 {
            assert(rows[j1].path@.len() == 1);
            assert(rows[j2].path@.len() >= 2);
        } else if j1 >= 1 && j2 == 0 {
            assert(rows[j1].path@.len() >= 2);
            assert(rows[j2].path@.len() == 1);
        } else if j1 >= 1 && j2 >= 1 {
            assert(rows[j1].path@.last() as int == j1);
            assert(rows[j2].path@.last() as int == j2);
        }
    }
    assert forall|k1: int, k2: int|
        0 <= k1 < rows.len() && 0 <= k2 < rows.len() && k1 != k2 implies (
    #[trigger] rows[k1].path@) != (#[trigger] rows[k2].path@) by {}
}

/// Flatten the displayed tree under `(pid, id)` into the ordered row list of
/// one pass, stopping the moment a row would cross the viewport bound.
///
/// The rows come back sorted by path, which is document order: the root
/// first, every child after its parent, siblings by rank. `complete` says
/// whether the whole visible subtree fit; when it did not, some reached row
/// has an unplaced child whose placement would have crossed the bound, and
/// everything already placed is kept.
pub fn flatten(tree: &Tree, pid: u64, id: u64, g: &Geom) -> (out: Flattened)
    requires
        tree.wf(),
        tree.links_closed(),
        tree.node_map().contains_key(id),
        g.wf(),
    ensures
        out.rows@.len() == 0 <==> g.start_y + spec_height(node_has_sub(*tree, id), *g) > g.max_y,
        out.rows@.len() > 0 ==> g.start_y + rows_height(out.rows@, *g) <= g.max_y,
        out.rows@.len() > 0 ==> is_root_row(*tree, pid, id, out.rows@[0]),
        forall|k: int|
            0 <= k < out.rows@.len() ==> row_ok(*tree, pid, id, out.rows@, #[trigger] out.rows@[k]),
        paths_distinct(out.rows@),
        forall|k1: int, k2: int|
            0 <= k1 < k2 < out.rows@.len() ==> lex_lt(out.rows@[k1].path@, out.rows@[k2].path@),
        out.complete ==> rows_complete(*tree, out.rows@),
        !out.complete ==> out.rows@.len() == 0 || overflow_witness(*tree, out.rows@, *g),
        out.rows@.len() == 0 ==> !out.complete,
{
    let root_node = tree.node_at(id);
    let root_has_sub = root_node.due_date.is_some() || root_node.session.is_some();
    let hl = tree.get_highlighted();
    let mut path0: Vec<usize> = Vec::new();
    path0.push(0);
    let sel0 = tree.is_selected(pid, id);
    let root = FNode {
        id,
        pid,
        depth: 0,
        path: path0,
        selected: sel0,
        highlighted: match hl {
            Some(h) => h == id,
            None => false,
        },
        has_sub: root_has_sub,
        priority: Priority { det: 0, total: 1 },
    };
    let ghost groot = root;
    proof {
        assert(groot.path@ =~= seq![0usize]);
        assert(is_root_row(*tree, pid, id, groot));
    }
    let y0 = match add_height(g.start_y, root.has_sub, g) {
        Some(v) => v,
        None => {
            return Flattened { rows: Vec::new(), complete: false };
        },
    };
    if y0 > g.max_y {
        return Flattened { rows: Vec::new(), complete: false };
    }
    let mut rows: Vec<FNode> = Vec::new();
    rows.push(root);
    let mut y: u64 = y0;
    proof {
        assert(rows@ =~= Seq::<FNode>::empty().push(groot));
        lemma_rows_height_push(Seq::<FNode>::empty(), groot, *g);
    }
    let mut queue: VecDeque<FChildIter> = VecDeque::new();
    let mut start: usize = 0;
    let mut broke = false;
    let mut progressed = true;
    while !broke && progressed
        invariant
            tree.wf(),
            tree.links_closed(),
            g.wf(),
            disc_ok(*tree, pid, id, rows@),
            y == g.start_y + rows_height(rows@, *g),
            y <= g.max_y,
            start <= rows@.len(),
            !broke ==> queue@.len() == 0,
            !broke ==> forall|j: int|
                0 <= j < start ==> covered_fully(*tree, rows@, #[trigger] rows@[j]),
            unopened_fresh(rows@, start as int),
            broke ==> overflow_witness(*tree, rows@, *g),
            !progressed ==> start == rows@.len(),
        decreases (if broke {
            0int
        } else {
            1int
        }), g.max_y - y, (if progressed {
            1int
        } else {
            0int
        }),
    {
        let ghost start0 = start as int;
        let ghost y_wave = y;
        let wave_end: usize = rows.len();
        let mut i: usize = start;
        while i < wave_end
            invariant
                tree.wf(),
                tree.links_closed(),
                g.wf(),
                disc_ok(*tree, pid, id, rows@),
                start <= i <= wave_end,
                wave_end == rows@.len(),
                queue@.len() == i - start,
                forall|qi: int|
                    0 <= qi < queue@.len() ==> (#[trigger] queue@[qi]).parent@ == rows@[start
                        + qi],
                forall|qi: int|
                    0 <= qi < queue@.len() ==> iter_ok(
                        *tree,
                        #[trigger] queue@[qi],
                        rows@,
                        wave_end as int,
                    ),
                unopened_fresh(rows@, start as int),
            decreases wave_end - i,
        {
            proof {
                if i >= 1 {
                    assert(row_shape(*tree, rows@, i as int));
                } else {
                    assert(is_root_row(*tree, pid, id, rows@[0]));
                    assert(rows@[0].path@.len() == 1);
                }
                assert(flags_ok(*tree, rows@[i as int]));
            }
            let it = child_iter(tree, &rows[i]);
            queue.push_back(it);
            proof {
                let ip = it.parent@;
                assert(ip == rows@[i as int]);
                assert(iter_consumed(*tree, it) == 0);
                assert(iter_ok(*tree, it, rows@, wave_end as int)) by {
                    assert(0 <= i < wave_end as int && wave_end as int <= rows@.len()
                        && rows@[i as int] == ip);
                    assert forall|k: int|
                        0 <= k < rows@.len() && extends_path(#[trigger] rows@[k], ip) implies (
                    rows@[k].priority.det as int) < 0 by {
                        assert(!extends_path(rows@[k], rows@[i as int]));
                    }
                }
            }
            i += 1;
        }
        start = wave_end;
        proof {
            assert forall|j: int| 0 <= j < start implies covered_fully(
                *tree,
                rows@,
                #[trigger] rows@[j],
            ) || in_queue(queue@, rows@[j]) by {
                if j >= start0 {
                    assert(queue@[j - start0].parent@ == rows@[j]);
                    assert(in_queue(queue@, rows@[j]));
                }
            }
            lemma_rows_paths_distinct(*tree, pid, id, rows@);
            assert(queue_parents_distinct(queue@)) by {
                assert forall|qi1: int, qi2: int|
                    0 <= qi1 < queue@.len() && 0 <= qi2 < queue@.len() && qi1 != qi2 implies (
                #[trigger] queue@[qi1]).parent@.path@ != (#[trigger] queue@[qi2]).parent@.path@ by {
                    assert(queue@[qi1].parent@ == rows@[start as int - queue@.len() + qi1]);
                    assert(queue@[qi2].parent@ == rows@[start as int - queue@.len() + qi2]);
                }
            }
        }
        let mut draining = true;
        while draining && !broke
            invariant
                tree.wf(),
                tree.links_closed(),
                g.wf(),
                disc_ok(*tree, pid, id, rows@),
                y == g.start_y + rows_height(rows@, *g),
                y <= g.max_y,
                start <= rows@.len(),
                forall|qi: int|
                    0 <= qi < queue@.len() ==> iter_ok(
                        *tree,
                        #[trigger] queue@[qi],
                        rows@,
                        start as int,
                    ),
                queue_parents_distinct(queue@),
                !broke ==> forall|j: int|
                    0 <= j < start ==> covered_fully(*tree, rows@, #[trigger] rows@[j]) || in_queue(
                        queue@,
                        rows@[j],
                    ),
                unopened_fresh(rows@, start as int),
                broke ==> overflow_witness(*tree, rows@, *g),
                !draining ==> queue@.len() == 0,
                y - y_wave >= rows@.len() - start,
            decreases (if broke {
                0int
            } else {
                1int
            }), g.max_y - y, queue@.len(), (if draining {
                1int
            } else {
                0int
            }),
        {
            if queue.len() == 0 {
                draining = false;
            } else {
                let ghost queue0 = queue@;
                let mut it = queue.pop_front().unwrap();
                let ghost it0 = it;
                proof {
                    assert(it0 == queue0[0]);
                    assert(queue@ =~= queue0.subrange(1, queue0.len() as int));
                    assert(iter_ok(*tree, it0, rows@, start as int));
                    // the remaining iterators are still fine, and none shares
                    // the popped iterator's parent
                    assert forall|qi: int| 0 <= qi < queue@.len() implies iter_ok(
                        *tree,
                        #[trigger] queue@[qi],
                        rows@,
                        start as int,
                    ) by {
                        assert(queue@[qi] == queue0[qi + 1]);
                    }
                    assert forall|qi: int| 0 <= qi < queue@.len() implies (
                    #[trigger] queue@[qi]).parent@.path@ != it0.parent@.path@ by {
                        assert(queue@[qi] == queue0[qi + 1]);
                    }
                    assert(queue_parents_distinct(queue@)) by {
                        assert forall|qi1: int, qi2: int|
                            0 <= qi1 < queue@.len() && 0 <= qi2 < queue@.len() && qi1 != qi2
                            implies (#[trigger] queue@[qi1]).parent@.path@ != (
                        #[trigger] queue@[qi2]).parent@.path@ by {
                            assert(queue@[qi1] == queue0[qi1 + 1]);
                            assert(queue@[qi2] == queue0[qi2 + 1]);
                        }
                    }
                }
                let nxt = it.next();
                match nxt {
                    None => {
                        proof {
                            let p = it0.parent@;
                            assert(it0.children@.len() == 0);
                            assert(iter_consumed(*tree, it0) == tree.link_map()[p.id]@.len());
                            assert(covered_fully(*tree, rows@, p));
                            assert forall|j: int| 0 <= j < start implies covered_fully(
                                *tree,
                                rows@,
                                #[trigger] rows@[j],
                            ) || in_queue(queue@, rows@[j]) by {
                                if !covered_fully(*tree, rows@, rows@[j]) {
                                    if in_queue(queue0, rows@[j]) {
                                        let qi = choose|qi: int|
                                            0 <= qi < queue0.len() && (
                                            #[trigger] queue0[qi]).parent@ == rows@[j];
                                        if qi == 0 {
                                            assert(rows@[j] == p);
                                            assert(false);
                                        } else {
                                            assert(queue@[qi - 1] == queue0[qi]);
                                            assert(in_queue(queue@, rows@[j]));
                                        }
                                    }
                                }
                            }
                        }
                    },
                    Some(child0) => {
                        let mut child = child0;
                        let n: usize = rows.len();
                        child.path.push(n);
                        let ghost idx = iter_consumed(*tree, it0);
                        proof {
                            assert(queued_child_of(*tree, it0.parent@, child0, idx)) by {
                                assert(it0.children@[0] == child0);
                            }
                            assert(child.path@ == it0.parent@.path@.push(n));
                        }
                        let fits = match add_height(y, child.has_sub, g) {
                            Some(y2) => if y2 <= g.max_y {
                                Some(y2)
                            } else {
                                None
                            },
                            None => None,
                        };
                        match fits {
                            None => {
                                broke = true;
                                proof {
                                    let p = it0.parent@;
                                    let j = choose|j: int|
                                        0 <= j < start as int && start as int <= rows@.len()
                                            && rows@[j] == p;
                                    let cc = idx;
                                    assert(0 <= cc < tree.link_map()[p.id]@.len());
                                    assert(!placed_for(rows@, p, cc)) by {
                                        if placed_for(rows@, p, cc) {
                                            let k = choose|k: int|
                                                0 <= k < rows@.len() && (#[trigger] rows@[k]).pid
                                                    == p.id && rows@[k].priority.det as int == cc
                                                    && extends_path(rows@[k], p);
                                            assert((rows@[k].priority.det as int) < idx);
                                        }
                                    }
                                    assert(child0.has_sub == node_has_sub(
                                        *tree,
                                        tree.link_map()[p.id]@[cc],
                                    ));
                                    assert(g.start_y + rows_height(rows@, *g) + spec_height(
                                        node_has_sub(*tree, tree.link_map()[p.id]@[cc]),
                                        *g,
                                    ) > g.max_y);
                                    assert(overflow_witness(*tree, rows@, *g)) by {
                                        assert(!placed_for(rows@, rows@[j], cc));
                                        assert(0 <= j < rows@.len() && tree.link_map().contains_key(
                                            rows@[j].id,
                                        ) && 0 <= cc < tree.link_map()[rows@[j].id]@.len() && !(
                                        placed_for(rows@, rows@[j], cc)) && g.start_y + rows_height(
                                            rows@,
                                            *g,
                                        ) + spec_height(
                                            node_has_sub(*tree, tree.link_map()[rows@[j].id]@[cc]),
                                            *g,
                                        ) > g.max_y);
                                    }
                                }
                            },
                            Some(y2) => {
                                let ghost rows_b = rows@;
                                let ghost queue_b = queue@;
                                let ghost gchild = child;
                                y = y2;
                                queue.push_back(it);
                                rows.push(child);
                                proof {
                                    let p = it0.parent@;
                                    assert(iter_ok(*tree, it0, rows_b, start as int));
                                    assert(exists|j: int|
                                        0 <= j < start as int && start as int <= rows_b.len()
                                            && rows_b[j] == p);
                                    let jp = choose|j: int|
                                        0 <= j < start as int && start as int <= rows_b.len()
                                            && rows_b[j] == p;
                                    assert(0 <= jp < start as int && rows_b[jp] == p);
                                    assert(rows@ =~= rows_b.push(gchild));
                                    assert(queue@ =~= queue_b.push(it));
                                    lemma_rows_height_push(rows_b, gchild, *g);
                                    lemma_rows_paths_distinct(*tree, pid, id, rows_b);
                                    // the parent's own shape facts
                                    assert(p.path@.len() >= 1 && p.depth == p.path@.len() - 1
                                        && p.path@[0] == 0) by {
                                        if jp == 0 {
                                            assert(is_root_row(*tree, pid, id, rows_b[0]));
                                            assert(p.path@ == seq![0usize]);
                                            assert(p.path@[0] == 0usize);
                                        } else {
                                            assert(row_shape(*tree, rows_b, jp));
                                        }
                                    }
                                    assert forall|e: int| 0 <= e < p.path@.len() implies (
                                    #[trigger] p.path@[e]) as int <= jp by {
                                        if jp == 0 {
                                            assert(p.path@ == seq![0usize]);
                                            assert(p.path@[0] == 0usize);
                                        } else {
                                            assert(row_shape(*tree, rows_b, jp));
                                            assert(rows_b[jp].path@[e] == p.path@[e]);
                                            assert((rows_b[jp].path@[e] as int) <= jp);
                                        }
                                    }
                                    // the new row is shaped as p's child at index idx
                                    assert(extends_path(gchild, p)) by {
                                        assert(gchild.path@.subrange(0, p.path@.len() as int)
                                            =~= p.path@);
                                    }
                                    assert(flags_ok(*tree, gchild));
                                    assert(child_of(*tree, p, gchild, idx));
                                    assert(row_shape(*tree, rows@, n as int)) by {
                                        assert(rows@[n as int] == gchild);
                                        assert(rows@[jp] == p);
                                        assert(gchild.path@.last() == n);
                                        assert(jp < n as int);
                                        assert(gchild.path@[0] == 0) by {
                                            assert(gchild.path@[0] == p.path@[0]);
                                        }
                                        assert forall|e: int|
                                            0 <= e < gchild.path@.len() implies (
                                        #[trigger] gchild.path@[e]) as int <= n as int by {
                                            if e < p.path@.len() {
                                                assert(gchild.path@[e] == p.path@[e]);
                                                assert((p.path@[e] as int) <= jp);
                                            }
                                        }
                                        assert(0 <= jp < n as int && child_of(
                                            *tree,
                                            rows@[jp],
                                            rows@[n as int],
                                            rows@[n as int].priority.det as int,
                                        ) && rows@[n as int].path@ == rows@[jp].path@.push(
                                            rows@[n as int].path@.last(),
                                        ));
                                    }
                                    assert(disc_ok(*tree, pid, id, rows@)) by {
                                        assert forall|k: int| 1 <= k < rows@.len() implies
                                            row_shape(*tree, rows@, k) by {
                                            if k < n as int {
                                                assert(row_shape(*tree, rows_b, k));
                                                let j0 = choose|j0: int|
                                                    0 <= j0 < k && child_of(
                                                        *tree,
                                                        #[trigger] rows_b[j0],
                                                        rows_b[k],
                                                        rows_b[k].priority.det as int,
                                                    ) && rows_b[k].path@ == rows_b[j0].path@.push(
                                                        rows_b[k].path@.last(),
                                                    );
                                                assert(rows@[j0] == rows_b[j0]);
                                                assert(rows@[k] == rows_b[k]);
                                                assert forall|e: int|
                                                    0 <= e < rows@[k].path@.len() implies (
                                                #[trigger] rows@[k].path@[e]) as int <= k by {
                                                    assert(rows@[k].path@[e]
                                                        == rows_b[k].path@[e]);
                                                    assert((rows_b[k].path@[e] as int) <= k);
                                                }
                                            }
                                        }
                                    }
                                    // the re-pushed iterator is consistent again
                                    assert(iter_consumed(*tree, it) == idx + 1);
                                    assert(iter_ok(*tree, it, rows@, start as int)) by {
                                        assert(rows@[jp] == p);
                                        assert forall|c: int|
                                            0 <= c < it.children@.len() implies queued_child_of(
                                            *tree,
                                            it.parent@,
                                            #[trigger] it.children@[c],
                                            idx + 1 + c,
                                        ) by {
                                            assert(it.children@[c] == it0.children@[c + 1]);
                                        }
                                        assert forall|c: int| 0 <= c < idx + 1 implies placed_for(
                                            rows@,
                                            p,
                                            c,
                                        ) by {
                                            if c < idx {
                                                assert(placed_for(rows_b, p, c));
                                                let k = choose|k: int|
                                                    0 <= k < rows_b.len() && (
                                                    #[trigger] rows_b[k]).pid == p.id
                                                        && rows_b[k].priority.det as int == c
                                                        && extends_path(rows_b[k], p);
                                                assert(rows@[k] == rows_b[k]);
                                            } else {
                                                assert(rows@[n as int] == gchild);
                                                assert(gchild.pid == p.id
                                                    && gchild.priority.det as int == idx
                                                    && extends_path(gchild, p));
                                            }
                                        }
                                        assert forall|k: int|
                                            0 <= k < rows@.len() && extends_path(
                                                #[trigger] rows@[k],
                                                p,
                                            ) implies (rows@[k].priority.det as int) < idx + 1 by {
                                            if k < n as int {
                                                assert(rows@[k] == rows_b[k]);
                                            }
                                        }
                                    }
                                    // the other iterators never yielded below the new row
                                    assert forall|qi: int| 0 <= qi < queue@.len() implies iter_ok(
                                        *tree,
                                        #[trigger] queue@[qi],
                                        rows@,
                                        start as int,
                                    ) by {
                                        if qi < queue_b.len() {
                                            assert(queue@[qi] == queue_b[qi]);
                                            let q2 = queue_b[qi];
                                            assert(iter_ok(*tree, q2, rows_b, start as int));
                                            let j2 = choose|j: int|
                                                0 <= j < start as int && start as int
                                                    <= rows_b.len() && rows_b[j] == q2.parent@;
                                            assert(rows@[j2] == q2.parent@);
                                            assert forall|c: int|
                                                0 <= c < iter_consumed(*tree, q2) implies
                                                placed_for(rows@, q2.parent@, c) by {
                                                assert(placed_for(rows_b, q2.parent@, c));
                                                let k = choose|k: int|
                                                    0 <= k < rows_b.len() && (
                                                    #[trigger] rows_b[k]).pid == q2.parent@.id
                                                        && rows_b[k].priority.det as int == c
                                                        && extends_path(rows_b[k], q2.parent@);
                                                assert(rows@[k] == rows_b[k]);
                                            }
                                            assert forall|k: int|
                                                0 <= k < rows@.len() && extends_path(
                                                    #[trigger] rows@[k],
                                                    q2.parent@,
                                                ) implies (rows@[k].priority.det as int)
                                                < iter_consumed(*tree, q2) by {
                                                if k < n as int {
                                                    assert(rows@[k] == rows_b[k]);
                                                } else {
                                                    assert(rows@[k] == gchild);
                                                    assert(gchild.path@.len() == p.path@.len() + 1);
                                                    assert(q2.parent@.path@.len()
                                                        == p.path@.len()) by {
                                                        assert(extends_path(gchild, q2.parent@));
                                                    }
                                                    assert(gchild.path@.subrange(
                                                        0,
                                                        p.path@.len() as int,
                                                    ) == q2.parent@.path@);
                                                    assert(q2.parent@.path@ == p.path@);
                                                    assert(q2.parent@.path@ != p.path@);
                                                }
                                            }
                                        } else {
                                            assert(queue@[qi] == it);
                                        }
                                    }
                                    assert(queue_parents_distinct(queue@)) by {
                                        assert forall|qi1: int, qi2: int|
                                            0 <= qi1 < queue@.len() && 0 <= qi2 < queue@.len()
                                                && qi1 != qi2 implies (
                                        #[trigger] queue@[qi1]).parent@.path@ != (
                                        #[trigger] queue@[qi2]).parent@.path@ by {
                                            if qi1 < queue_b.len() && qi2 < queue_b.len() {
                                                assert(queue@[qi1] == queue_b[qi1]);
                                                assert(queue@[qi2] == queue_b[qi2]);
                                            } else if qi1 < queue_b.len() {
                                                assert(queue@[qi1] == queue_b[qi1]);
                                                assert(queue@[qi2] == it);
                                            } else {
                                                assert(queue@[qi1] == it);
                                                assert(queue@[qi2] == queue_b[qi2]);
                                            }
                                        }
                                    }
                                    // coverage: the parent is back in the queue, and every
                                    // other witness still stands
                                    assert forall|j: int| 0 <= j < start implies covered_fully(
                                        *tree,
                                        rows@,
                                        #[trigger] rows@[j],
                                    ) || in_queue(queue@, rows@[j]) by {
                                        assert(rows@[j] == rows_b[j]);
                                        if covered_fully(*tree, rows_b, rows_b[j]) {
                                            assert forall|c: int|
                                                0 <= c < tree.link_map()[rows_b[j].id]@.len()
                                                implies placed_for(rows@, rows_b[j], c) by {
                                                assert(placed_for(rows_b, rows_b[j], c));
                                                let k = choose|k: int|
                                                    0 <= k < rows_b.len() && (
                                                    #[trigger] rows_b[k]).pid == rows_b[j].id
                                                        && rows_b[k].priority.det as int == c
                                                        && extends_path(rows_b[k], rows_b[j]);
                                                assert(rows@[k] == rows_b[k]);
                                            }
                                            assert(covered_fully(*tree, rows@, rows@[j]));
                                        } else if in_queue(queue0, rows_b[j]) {
                                            let qi = choose|qi: int|
                                                0 <= qi < queue0.len() && (
                                                #[trigger] queue0[qi]).parent@ == rows_b[j];
                                            if qi == 0 {
                                                assert(queue@[queue@.len() - 1] == it);
                                                assert(it.parent@ == p);
                                                assert(in_queue(queue@, rows@[j]));
                                            } else {
                                                assert(queue_b[qi - 1] == queue0[qi]);
                                                assert(queue@[qi - 1] == queue_b[qi - 1]);
                                                assert(in_queue(queue@, rows@[j]));
                                            }
                                        }
                                    }
                                    // no placed row goes below a still-unopened row
                                    assert(unopened_fresh(rows@, start as int)) by {
                                        assert forall|i2: int, k: int|
                                            start as int <= i2 < rows@.len() && 0 <= k
                                                < rows@.len() implies !extends_path(
                                            #[trigger] rows@[k],
                                            #[trigger] rows@[i2],
                                        ) by {
                                            if i2 < n as int && k < n as int {
                                                assert(rows@[i2] == rows_b[i2]);
                                                assert(rows@[k] == rows_b[k]);
                                            } else if i2 < n as int && k == n as int {
                                                // the new row extends only its parent's path
                                                if extends_path(gchild, rows_b[i2]) {
                                                    assert(rows_b[i2].path@.len()
                                                        == p.path@.len());
                                                    assert(gchild.path@.subrange(
                                                        0,
                                                        p.path@.len() as int,
                                                    ) == rows_b[i2].path@);
                                                    assert(rows_b[i2].path@ == p.path@);
                                                    assert(i2 == jp);
                                                    assert(false);
                                                }
                                            } else {
                                                // nothing can extend the brand-new row: its
                                                // last element is today's discovery index
                                                assert(i2 == n as int);
                                                assert(rows@[i2] == gchild);
                                                if extends_path(rows@[k], gchild) {
                                                    let ll = p.path@.len() as int;
                                                    assert(rows@[k].path@.len() == ll + 2);
                                                    assert(rows@[k].path@.subrange(0, ll + 1)
                                                        == gchild.path@);
                                                    assert(rows@[k].path@[ll]
                                                        == gchild.path@[ll]) by {
                                                        assert(rows@[k].path@.subrange(
                                                            0,
                                                            ll + 1,
                                                        )[ll] == rows@[k].path@[ll]);
                                                    }
                                                    assert(gchild.path@[ll] == n);
                                                    if k < n as int {
                                                        assert(rows@[k] == rows_b[k]);
                                                        if k == 0 {
                                                            assert(rows_b[k].path@.len() == 1);
                                                            assert(false);
                                                        } else {
                                                            assert(row_shape(*tree, rows_b, k));
                                                            assert(ll < rows_b[k].path@.len());
                                                            assert((rows_b[k].path@[ll] as int)
                                                                <= k);
                                                            assert(false);
                                                        }
                                                    } else {
                                                        assert(rows@[k] == gchild);
                                                        assert(gchild.path@.len() == ll + 1);
                                                        assert(false);
                                                    }
                                                }
                                            }
                                        }
                                    }
                                }
                            },
                        }
                    },
                }
            }
        }
        progressed = rows.len() > start;
    }
    let ghost pre = rows@;
    proof {
        lemma_rows_paths_distinct(*tree, pid, id, pre);
    }
    let rows_sorted = sort_rows(rows);
    let complete = !broke;
    proof {
        let post = rows_sorted@;
        assert forall|x: FNode| post.contains(x) <==> pre.contains(x) by {
            assert(post.to_multiset() == pre.to_multiset());
            assert(post.contains(x) <==> post.to_multiset().count(x) > 0);
            assert(pre.contains(x) <==> pre.to_multiset().count(x) > 0);
        }
        // every sorted row is the root row or some sorted row's child
        assert forall|k: int| 0 <= k < post.len() implies row_ok(
            *tree,
            pid,
            id,
            post,
            #[trigger] post[k],
        ) by {
            assert(post.contains(post[k]));
            assert(pre.contains(post[k]));
            let k0 = choose|k0: int| 0 <= k0 < pre.len() && pre[k0] == post[k];
            if k0 == 0 {
                assert(is_root_row(*tree, pid, id, post[k]));
            } else {
                assert(row_shape(*tree, pre, k0));
                let j0 = choose|j0: int|
                    0 <= j0 < k0 && child_of(
                        *tree,
                        #[trigger] pre[j0],
                        pre[k0],
                        pre[k0].priority.det as int,
                    ) && pre[k0].path@ == pre[j0].path@.push(pre[k0].path@.last());
                assert(pre.contains(pre[j0]));
                assert(post.contains(pre[j0]));
                let j = choose|j: int| 0 <= j < post.len() && post[j] == pre[j0];
                assert(child_of(*tree, post[j], post[k], post[k].priority.det as int));
            }
        }
        // the root row sorts first
        if post.len() > 0 {
            assert(pre.contains(pre[0]));
            assert(post.contains(pre[0]));
            let jr = choose|jr: int| 0 <= jr < post.len() && post[jr] == pre[0];
            if jr != 0 {
                let k0 = choose|k0: int| 0 <= k0 < pre.len() && pre[k0] == post[0];
                assert(pre.contains(post[0]));
                if k0 == 0 {
                    assert(post[0] == pre[0]);
                    assert(post[0].path@ == post[jr].path@);
                    assert(lex_lt(post[0].path@, post[jr].path@));
                    lemma_lex_irrefl(post[0].path@);
                    assert(false);
                } else {
                    assert(row_shape(*tree, pre, k0));
                    assert(post[0].path@.len() >= 2);
                    assert(post[0].path@[0] == 0);
                    assert(pre[0].path@ == seq![0usize]);
                    assert(lex_lt(pre[0].path@, post[0].path@)) by {
                        assert(pre[0].path@[0] == 0usize);
                        assert(pre[0].path@.drop_first() =~= Seq::<usize>::empty());
                        assert(post[0].path@.drop_first().len() >= 1);
                        assert(lex_lt(pre[0].path@.drop_first(), post[0].path@.drop_first()));
                    }
                    assert(lex_lt(post[0].path@, post[jr].path@));
                    lemma_lex_trans(pre[0].path@, post[0].path@, post[jr].path@);
                    assert(post[jr].path@ == pre[0].path@);
                    lemma_lex_irrefl(pre[0].path@);
                    assert(false);
                }
            }
            assert(post[0] == pre[0]);
            assert(is_root_row(*tree, pid, id, post[0]));
        }
        // completeness or the overflow witness survive the reordering
        if !broke {
            assert forall|j: int, c: int|
                0 <= j < post.len() && tree.link_map().contains_key(post[j].id) && 0 <= c
                    < tree.link_map()[post[j].id]@.len() implies #[trigger] placed_for(
                post,
                post[j],
                c,
            ) by {
                assert(post.contains(post[j]));
                assert(pre.contains(post[j]));
                let j0 = choose|j0: int| 0 <= j0 < pre.len() && pre[j0] == post[j];
                assert(covered_fully(*tree, pre, pre[j0]));
                assert(placed_for(pre, pre[j0], c));
                let k0 = choose|k0: int|
                    0 <= k0 < pre.len() && (#[trigger] pre[k0]).pid == pre[j0].id
                        && pre[k0].priority.det as int == c && extends_path(pre[k0], pre[j0]);
                assert(pre.contains(pre[k0]));
                assert(post.contains(pre[k0]));
                let k = choose|k: int| 0 <= k < post.len() && post[k] == pre[k0];
                assert(post[k].pid == post[j].id && post[k].priority.det as int == c
                    && extends_path(post[k], post[j]));
            }
        } else {
            assert(overflow_witness(*tree, pre, *g));
            let (j0, c0) = choose|j0: int, c0: int|
                0 <= j0 < pre.len() && tree.link_map().contains_key(pre[j0].id) && 0 <= c0
                    < tree.link_map()[pre[j0].id]@.len() && !(#[trigger] placed_for(
                    pre,
                    pre[j0],
                    c0,
                )) && g.start_y + rows_height(pre, *g) + spec_height(
                    node_has_sub(*tree, tree.link_map()[pre[j0].id]@[c0]),
                    *g,
                ) > g.max_y;
            assert(pre.contains(pre[j0]));
            assert(post.contains(pre[j0]));
            let j = choose|j: int| 0 <= j < post.len() && post[j] == pre[j0];
            assert(!placed_for(post, post[j], c0)) by {
                if placed_for(post, post[j], c0) {
                    let k = choose|k: int|
                        0 <= k < post.len() && (#[trigger] post[k]).pid == post[j].id
                            && post[k].priority.det as int == c0 && extends_path(post[k], post[j]);
                    assert(post.contains(post[k]));
                    assert(pre.contains(post[k]));
                    let k0 = choose|k0: int| 0 <= k0 < pre.len() && pre[k0] == post[k];
                    assert(placed_for(pre, pre[j0], c0)) by {
                        assert((#[trigger] pre[k0]).pid == pre[j0].id && pre[k0].priority.det as int
                            == c0 && extends_path(pre[k0], pre[j0]));
                    }
                }
            }
            assert(overflow_witness(*tree, post, *g)) by {
                assert(0 <= j < post.len() && tree.link_map().contains_key(post[j].id) && 0 <= c0
                    < tree.link_map()[post[j].id]@.len() && !(placed_for(post, post[j], c0))
                    && g.start_y + rows_height(post, *g) + spec_height(
                    node_has_sub(*tree, tree.link_map()[post[j].id]@[c0]),
                    *g,
                ) > g.max_y);
            }
        }
    }
    Flattened { rows: rows_sorted, complete }
}

} // verus!
