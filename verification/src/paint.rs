//! The layout engine: vertical placement of each row's widgets, connector
//! line geometry between rows, and the per-id divider colors.
//!
//! Everything here is integer geometry derived from the flattened row list;
//! actual drawing is left to the caller.

use vstd::prelude::*;
use crate::ftree::{FNode, Geom, child_of, extends_path, is_root_row, paths_distinct, placed_for, row_ok, rows_complete, rows_height, spec_height};
use crate::node::Tree;

verus! {

/// How far each nesting level is indented, in display units.
pub const INDENT_SPACING: u64 = 14;

/// An RGB color.
#[derive(Clone, Copy, PartialEq, Eq, Structural, Debug)]
pub struct Color {
    pub r: u8,
    pub g: u8,
    pub b: u8,
}

/// The neutral default color of connector lines.
pub open spec fn white() -> Color {
    Color { r: 255, g: 255, b: 255 }
}

/// The color derived for a node id that occurs on more than one row: a bit
/// mix of the id, nudged away from the neutral default.
pub open spec fn spec_divider_color(id: u64) -> Color {
    let x1 = id ^ (id >> 30);
    let x2 = x1 ^ (x1 >> 27);
    let x3 = x2 ^ (x2 >> 31);
    let r = (x3 & 0xff) as u8;
    let g = ((x3 >> 8) & 0xff) as u8;
    let b = ((x3 >> 16) & 0xff) as u8;
    if r == 255 && g == 255 && b == 255 {
        Color { r, g, b: 254 }
    } else {
        Color { r, g, b }
    }
}

/// Derive the distinct color for a repeated node id. The result never equals
/// the neutral default, so repeated ids stay distinguishable from unrelated
/// nodes.
pub fn divider_color(id: u64) -> (c: Color)
    ensures
        c == spec_divider_color(id),
        c != white(),
{
    let x1 = id ^ (id >> 30);
    let x2 = x1 ^ (x1 >> 27);
    let x3 = x2 ^ (x2 >> 31);
    let r = (x3 & 0xff) as u8;
    let g = ((x3 >> 8) & 0xff) as u8;
    let b = ((x3 >> 16) & 0xff) as u8;
    proof {
        assert(x3 & 0xff <= 0xff) by (bit_vector);
        assert((x3 >> 8) & 0xff <= 0xff) by (bit_vector);
        assert((x3 >> 16) & 0xff <= 0xff) by (bit_vector);
    }
    if r == 255 && g == 255 && b == 255 {
        Color { r, g, b: 254 }
    } else {
        Color { r, g, b }
    }
}

/// The id occurs on at least two distinct rows of the pass.
pub open spec fn repeated(rows: Seq<FNode>, id: u64) -> bool {
    exists|k1: int, k2: int|
        0 <= k1 < k2 < rows.len() && (#[trigger] rows[k1]).id == id && (#[trigger] rows[k2]).id
            == id
}

/// Some row carries this id.
pub open spec fn appears(rows: Seq<FNode>, id: u64) -> bool {
    exists|k: int| 0 <= k < rows.len() && (#[trigger] rows[k]).id == id
}

/// Assign each id of the pass its connector color: the neutral default, or
/// the derived color once the id is seen on a second row.
pub fn divider_colors(rows: &Vec<FNode>) -> (m: crate::idmap::IdMap<Color>)
    ensures
        m.wf(),
        forall|id: u64| #[trigger] m.m().contains_key(id) <==> appears(rows@, id),
        forall|id: u64|
            #[trigger] m.m().contains_key(id) ==> m.m()[id] == (if repeated(rows@, id) {
                spec_divider_color(id)
            } else {
                white()
            }),
{
    let mut m = crate::idmap::IdMap::<Color>::new();
    let n = rows.len();
    let mut i: usize = 0;
    while i < n
        invariant
            n == rows@.len(),
            i <= n,
            m.wf(),
            forall|id: u64| #[trigger] m.m().contains_key(id) <==> appears(rows@.take(i as int), id),
            forall|id: u64|
                #[trigger] m.m().contains_key(id) ==> m.m()[id] == (if repeated(
                    rows@.take(i as int),
                    id,
                ) {
                    spec_divider_color(id)
                } else {
                    white()
                }),
        decreases n - i,
    {
        let id = rows[i].id;
        let ghost pre = rows@.take(i as int);
        let ghost cur = rows@.take(i + 1);
        proof {
            assert(cur[i as int] == rows@[i as int]);
            assert forall|id2: u64| appears(cur, id2) implies appears(pre, id2) || id2 == id by {
                let k = choose|k: int| 0 <= k < cur.len() && cur[k].id == id2;
                if k < i {
                    assert(pre[k] == cur[k]);
                }
            }
            assert forall|id2: u64| appears(pre, id2) implies appears(cur, id2) by {
                let k = choose|k: int| 0 <= k < pre.len() && pre[k].id == id2;
                assert(cur[k] == pre[k]);
            }
            assert forall|id2: u64| id2 != id implies repeated(cur, id2) == repeated(pre, id2) by {
                if repeated(cur, id2) {
                    let (k1, k2) = choose|k1: int, k2: int|
                        0 <= k1 < k2 < cur.len() && (#[trigger] cur[k1]).id == id2 && (
                        #[trigger] cur[k2]).id == id2;
                    assert(k2 < i as int);
                    assert(pre[k1] == cur[k1] && pre[k2] == cur[k2]);
                }
                if repeated(pre, id2) {
                    let (k1, k2) = choose|k1: int, k2: int|
                        0 <= k1 < k2 < pre.len() && (#[trigger] pre[k1]).id == id2 && (
                        #[trigger] pre[k2]).id == id2;
                    assert(cur[k1] == pre[k1] && cur[k2] == pre[k2]);
                }
            }
            assert(repeated(cur, id) == (appears(pre, id) || repeated(pre, id))) by {
                if appears(pre, id) {
                    let k = choose|k: int| 0 <= k < pre.len() && pre[k].id == id;
                    assert(cur[k] == pre[k]);
                    assert(cur[k].id == id && cur[i as int].id == id);
                }
                if repeated(pre, id) {
                    let (k1, k2) = choose|k1: int, k2: int|
                        0 <= k1 < k2 < pre.len() && (#[trigger] pre[k1]).id == id && (
                        #[trigger] pre[k2]).id == id;
                    assert(cur[k1] == pre[k1] && cur[k2] == pre[k2]);
                }
                if repeated(cur, id) {
                    let (k1, k2) = choose|k1: int, k2: int|
                        0 <= k1 < k2 < cur.len() && (#[trigger] cur[k1]).id == id && (
                        #[trigger] cur[k2]).id == id;
                    if k2 < i as int {
                        assert(pre[k1] == cur[k1] && pre[k2] == cur[k2]);
                    } else {
                        assert(pre[k1] == cur[k1]);
                        assert(appears(pre, id));
                    }
                }
            }
        }
        let existing = match m.get(id) {
            Some(c) => Some(*c),
            None => None,
        };
        match existing {
            Some(c) => {
                if c.r == 255 && c.g == 255 && c.b == 255 {
                    let derived = divider_color(id);
                    m.insert(id, derived);
                    proof {
                        assert(c == white());
                        assert(!repeated(pre, id));
                        assert(appears(pre, id));
                        assert(repeated(cur, id));
                    }
                } else {
                    proof {
                        assert(c != white());
                        assert(repeated(pre, id));
                        assert(repeated(cur, id));
                        assert(m.m() =~= m.m());
                    }
                }
            },
            None => {
                m.insert(
                    id,
                    Color { r: 255, g: 255, b: 255 },
                );
                proof {
                    assert(!appears(pre, id));
                    assert(!repeated(cur, id)) by {
                        if repeated(cur, id) {
                            let (k1, k2) = choose|k1: int, k2: int|
                                0 <= k1 < k2 < cur.len() && (#[trigger] cur[k1]).id == id && (
                                #[trigger] cur[k2]).id == id;
                            assert(pre[k1] == cur[k1]);
                            assert(appears(pre, id));
                        }
                    }
                    assert(Color { r: 255, g: 255, b: 255 } == white());
                }
            },
        }
        i += 1;
    }
    proof {
        assert(rows@.take(n as int) =~= rows@);
    }
    m
}

/// The vertical placement of one row's widgets.
pub struct RowLayout {
    /// Top of the row's primary line.
    pub top: u64,
    /// Vertical center of the row, where the checkbox and buttons sit.
    pub center: u64,
    /// Top of the due-date/session sub-row, when the node has one.
    pub sub_top: Option<u64>,
    /// The row's whole vertical extent, trailing spacing included.
    pub height: u64,
    /// Whether a delete affordance is shown (never on the pass's root row,
    /// which is its own parent position).
    pub del: bool,
}

/// A prefix never outgrows the whole sequence's height.
pub proof fn lemma_rows_height_prefix(rows: Seq<FNode>, k: int, g: Geom)
    requires
        0 <= k <= rows.len(),
    ensures
        rows_height(rows.take(k), g) <= rows_height(rows, g),
        rows_height(rows.take(k), g) >= 0,
    decreases rows.len() - k,
{
    lemma_rows_height_nonneg(rows.take(k));
    if k == rows.len() {
        assert(rows.take(k) =~= rows);
    } else {
        lemma_rows_height_prefix(rows, k + 1, g);
        assert(rows.take(k + 1).drop_last() =~= rows.take(k));
        assert(spec_height(rows.take(k + 1).last().has_sub, g) >= 0);
    }
}

/// Heights are never negative.
pub proof fn lemma_rows_height_nonneg(rows: Seq<FNode>)
    ensures
        forall|g: Geom| #[trigger] rows_height(rows, g) >= 0,
    decreases rows.len(),
{
    if rows.len() > 0 {
        lemma_rows_height_nonneg(rows.drop_last());
        assert forall|g: Geom| #[trigger] rows_height(rows, g) >= 0 by {
            assert(rows_height(rows.drop_last(), g) >= 0);
            assert(spec_height(rows.last().has_sub, g) >= 0);
        }
    }
}

/// Place every row of a pass at its vertical offset: tops are running sums
/// of the heights above, the checkbox/button center sits mid-row, and the
/// sub-row starts right below the primary line. When the whole pass fits the
/// viewport, so does every single row.
pub fn layout_rows(rows: &Vec<FNode>, g: &Geom) -> (out: Vec<RowLayout>)
    requires
        g.start_y + rows_height(rows@, *g) <= u64::MAX,
    ensures
        out@.len() == rows@.len(),
        forall|k: int|
            0 <= k < out@.len() ==> (#[trigger] out@[k]).top == g.start_y + rows_height(
                rows@.take(k),
                *g,
            ),
        forall|k: int|
            0 <= k < out@.len() ==> (#[trigger] out@[k]).height == spec_height(
                rows@[k].has_sub,
                *g,
            ),
        forall|k: int|
            0 <= k < out@.len() ==> (#[trigger] out@[k]).center == out@[k].top + (spec_height(
                rows@[k].has_sub,
                *g,
            ) - g.spacing) / 2,
        forall|k: int|
            0 <= k < out@.len() ==> (#[trigger] out@[k]).sub_top == (if rows@[k].has_sub {
                Some((g.start_y + rows_height(rows@.take(k), *g) + g.row_h + g.spacing) as u64)
            } else {
                Option::<u64>::None
            }),
        forall|k: int|
            0 <= k < out@.len() ==> (#[trigger] out@[k]).del == (rows@[k].pid != rows@[k].id),
        g.start_y + rows_height(rows@, *g) <= g.max_y ==> forall|k: int|
            0 <= k < out@.len() ==> (#[trigger] out@[k]).top + out@[k].height <= g.max_y,
{
    let n = rows.len();
    let mut out: Vec<RowLayout> = Vec::new();
    let mut h: u64 = g.start_y;
    let mut i: usize = 0;
    proof {
        assert(rows@.take(0) =~= Seq::<FNode>::empty());
    }
    while i < n
        invariant
            n == rows@.len(),
            i <= n,
            out@.len() == i,
            g.start_y + rows_height(rows@, *g) <= u64::MAX,
            h == g.start_y + rows_height(rows@.take(i as int), *g),
            forall|k: int|
                0 <= k < i ==> (#[trigger] out@[k]).top == g.start_y + rows_height(
                    rows@.take(k),
                    *g,
                ),
            forall|k: int|
                0 <= k < i ==> (#[trigger] out@[k]).height == spec_height(rows@[k].has_sub, *g),
            forall|k: int|
                0 <= k < i ==> (#[trigger] out@[k]).center == out@[k].top + (spec_height(
                    rows@[k].has_sub,
                    *g,
                ) - g.spacing) / 2,
            forall|k: int|
                0 <= k < i ==> (#[trigger] out@[k]).sub_top == (if rows@[k].has_sub {
                    Some(
                        (g.start_y + rows_height(rows@.take(k), *g) + g.row_h + g.spacing) as u64,
                    )
                } else {
                    Option::<u64>::None
                }),
            forall|k: int|
                0 <= k < i ==> (#[trigger] out@[k]).del == (rows@[k].pid != rows@[k].id),
        decreases n - i,
    {
        proof {
            lemma_rows_height_prefix(rows@, i + 1, *g);
            assert(rows@.take(i + 1).drop_last() =~= rows@.take(i as int));
            assert(rows@.take(i + 1).last() == rows@[i as int]);
            lemma_rows_height_prefix(rows@, i as int, *g);
        }
        let has_sub = rows[i].has_sub;
        let height1: u64 = if has_sub {
            g.row_h + g.spacing + g.sub_h + g.spacing
        } else {
            g.row_h + g.spacing
        };
        let center: u64 = h + (height1 - g.spacing) / 2;
        let sub_top: Option<u64> = if has_sub {
            Some(h + g.row_h + g.spacing)
        } else {
            None
        };
        let del = rows[i].pid != rows[i].id;
        out.push(RowLayout { top: h, center, sub_top, height: height1, del });
        h = h + height1;
        i += 1;
    }
    proof {
        assert(rows@.take(n as int) =~= rows@);
        if g.start_y + rows_height(rows@, *g) <= g.max_y {
            assert forall|k: int| 0 <= k < out@.len() implies (#[trigger] out@[k]).top
                + out@[k].height <= g.max_y by {
                lemma_rows_height_prefix(rows@, k + 1, *g);
                assert(rows@.take(k + 1).drop_last() =~= rows@.take(k));
                assert(rows@.take(k + 1).last() == rows@[k]);
            }
        }
    }
    out
}

/// One straight connector-line segment, in display units.
#[derive(Clone, Copy, PartialEq, Eq, Structural, Debug)]
pub struct Segment {
    pub x0: u64,
    pub y0: u64,
    pub x1: u64,
    pub y1: u64,
}

/// The x position of the vertical connector at nesting level `pos`.
pub open spec fn vert_x(bx: u64, pos: usize) -> u64 {
    (bx + 7 + (pos - 1) * INDENT_SPACING) as u64
}

/// One step of the bracket walk, bottom to top: a shallower row closes the
/// current bracket; an equally deep row continues it; a deeper row opens a
/// new one.
pub open spec fn stack_step(st: Seq<usize>, d: usize) -> Seq<usize> {
    if st.len() > 0 && (d as int) < (st.last() as int) {
        if st.drop_last().len() > 0 && st.drop_last().last() == d {
            st.drop_last()
        } else {
            st.drop_last().push(d)
        }
    } else if st.len() > 0 && d == st.last() {
        st
    } else {
        st.push(d)
    }
}

/// The open-bracket stack after the walk has processed rows `len-1` down to
/// `k`.
pub open spec fn stack_at(rows: Seq<FNode>, k: int) -> Seq<usize>
    decreases rows.len() - k,
{
    if k < 1 || k >= rows.len() {
        Seq::empty()
    } else {
        stack_step(stack_at(rows, k + 1), rows[k].depth)
    }
}

/// The top of row `k`.
pub open spec fn top_of(rows: Seq<FNode>, g: Geom, k: int) -> int {
    g.start_y + rows_height(rows.take(k), g)
}

/// The connector segments one row contributes: a full vertical line for each
/// enclosing open bracket, a vertical line at the row's own level (halved
/// when the row is the last sibling), and the horizontal stub to its label.
pub open spec fn segs_for(st: Seq<usize>, r: FNode, top: int, g: Geom, bx: u64) -> Seq<Segment> {
    let height = spec_height(r.has_sub, g);
    let half = top + (height - g.spacing) / 2;
    let endpos = st.last();
    stack_verts(st.drop_last(), top, height, bx) + seq![
        if r.priority.det + 1 == r.priority.total {
            Segment {
                x0: vert_x(bx, endpos),
                y0: top as u64,
                x1: vert_x(bx, endpos),
                y1: half as u64,
            }
        } else {
            Segment {
                x0: vert_x(bx, endpos),
                y0: top as u64,
                x1: vert_x(bx, endpos),
                y1: (top + height) as u64,
            }
        },
        Segment {
            x0: vert_x(bx, endpos),
            y0: half as u64,
            x1: (bx + endpos * INDENT_SPACING) as u64,
            y1: half as u64,
        },
    ]
}

/// Full-height vertical lines for the enclosing open brackets.
pub open spec fn stack_verts(st: Seq<usize>, top: int, height: int, bx: u64) -> Seq<Segment> {
    st.map_values(
        |pos: usize|
            Segment {
                x0: vert_x(bx, pos),
                y0: top as u64,
                x1: vert_x(bx, pos),
                y1: (top + height) as u64,
            },
    )
}

/// The segments emitted for rows `len-1` down to `k`, in emission order.
pub open spec fn div_segs_below(rows: Seq<FNode>, g: Geom, bx: u64, k: int) -> Seq<Segment>
    decreases rows.len() - k,
{
    if k < 1 || k >= rows.len() {
        Seq::empty()
    } else {
        div_segs_below(rows, g, bx, k + 1) + segs_for(
            stack_at(rows, k),
            rows[k],
            top_of(rows, g, k),
            g,
            bx,
        )
    }
}

/// The connector lines of a whole pass: the walk starts below the last row
/// and never draws anything for the root row.
pub open spec fn spec_div_segments(rows: Seq<FNode>, g: Geom, bx: u64) -> Seq<Segment> {
    div_segs_below(rows, g, bx, 1)
}

/// Every open-bracket level is the depth of some row at or below the walk's
/// position.
spec fn stack_levels_ok(rows: Seq<FNode>, st: Seq<usize>, k: int) -> bool {
    forall|si: int|
        0 <= si < st.len() ==> exists|k2: int|
            k <= k2 < rows.len() && rows[k2].depth == #[trigger] st[si]
}

/// Walk the placed rows bottom to top and emit the connector-line segments
/// between rows that share tree structure, exactly as the bracket walk says.
#[verifier::rlimit(100)]
pub fn div_segments(rows: &Vec<FNode>, g: &Geom, bx: u64) -> (segs: Vec<Segment>)
    requires
        g.start_y + rows_height(rows@, *g) <= u64::MAX,
        forall|k: int| 1 <= k < rows@.len() ==> (#[trigger] rows@[k].depth) >= 1,
        forall|k: int|
            1 <= k < rows@.len() ==> bx + 7 + INDENT_SPACING * ((#[trigger] rows@[k].depth) as int)
                <= u64::MAX,
    ensures
        segs@ == spec_div_segments(rows@, *g, bx),
{
    let n = rows.len();
    let mut segs: Vec<Segment> = Vec::new();
    if n <= 1 {
        proof {
            assert(segs@ =~= spec_div_segments(rows@, *g, bx));
        }
        return segs;
    }
    // the walk starts just below the last row
    let mut h: u64 = g.start_y;
    let mut i: usize = 0;
    proof {
        assert(rows@.take(0) =~= Seq::<FNode>::empty());
    }
    while i < n
        invariant
            n == rows@.len(),
            i <= n,
            g.start_y + rows_height(rows@, *g) <= u64::MAX,
            h == g.start_y + rows_height(rows@.take(i as int), *g),
        decreases n - i,
    {
        proof {
            lemma_rows_height_prefix(rows@, i + 1, *g);
            assert(rows@.take(i + 1).drop_last() =~= rows@.take(i as int));
            assert(rows@.take(i + 1).last() == rows@[i as int]);
        }
        let height1: u64 = if rows[i].has_sub {
            g.row_h + g.spacing + g.sub_h + g.spacing
        } else {
            g.row_h + g.spacing
        };
        h = h + height1;
        i += 1;
    }
    proof {
        assert(rows@.take(n as int) =~= rows@);
    }
    let mut stack: Vec<usize> = Vec::new();
    let mut k: usize = n - 1;
    proof {
        assert(stack@ =~= stack_at(rows@, n as int));
        assert(segs@ =~= div_segs_below(rows@, *g, bx, n as int));
    }
    while k >= 1
        invariant
            n == rows@.len(),
            n >= 2,
            1 <= k + 1 <= n,
            g.start_y + rows_height(rows@, *g) <= u64::MAX,
            forall|k2: int| 1 <= k2 < rows@.len() ==> (#[trigger] rows@[k2].depth) >= 1,
            forall|k2: int|
                1 <= k2 < rows@.len() ==> bx + 7 + INDENT_SPACING * ((
                #[trigger] rows@[k2].depth) as int) <= u64::MAX,
            h == g.start_y + rows_height(rows@.take(k + 1), *g),
            stack@ == stack_at(rows@, k + 1),
            stack_levels_ok(rows@, stack@, k + 1),
            segs@ == div_segs_below(rows@, *g, bx, k + 1),
        decreases k,
    {
        proof {
            lemma_rows_height_prefix(rows@, k + 1, *g);
            lemma_rows_height_prefix(rows@, k as int, *g);
            assert(rows@.take(k + 1).drop_last() =~= rows@.take(k as int));
            assert(rows@.take(k + 1).last() == rows@[k as int]);
        }
        let height1: u64 = if rows[k].has_sub {
            g.row_h + g.spacing + g.sub_h + g.spacing
        } else {
            g.row_h + g.spacing
        };
        h = h - height1;
        let d: usize = rows[k].depth;
        let ghost st0 = stack@;
        let slen = stack.len();
        if slen > 0 && d < stack[slen - 1] {
            let _ = stack.pop();
            let slen2 = stack.len();
            if slen2 > 0 && stack[slen2 - 1] == d {
            } else {
                stack.push(d);
            }
        } else if slen > 0 && d == stack[slen - 1] {
        } else {
            stack.push(d);
        }
        proof {
            assert(st0.drop_last() =~= st0.subrange(0, st0.len() as int - 1));
            assert(stack@ =~= stack_step(st0, d));
            assert(stack@ == stack_at(rows@, k as int));
            assert(stack_levels_ok(rows@, stack@, k as int)) by {
                assert forall|si: int| 0 <= si < stack@.len() implies exists|k2: int|
                    k as int <= k2 < rows@.len() && rows@[k2].depth == #[trigger] stack@[si] by {
                    if si < st0.len() && stack@[si] == st0[si] {
                        let k3 = choose|k3: int|
                            k + 1 <= k3 < rows@.len() && rows@[k3].depth == st0[si];
                        assert(k as int <= k3 < rows@.len() && rows@[k3].depth == stack@[si]);
                    } else {
                        assert(stack@[si] == d);
                        assert(rows@[k as int].depth == d);
                    }
                }
            }
            // the row's own level and every enclosing level are real depths,
            // so all the x coordinates below stay in range
            assert forall|si: int| 0 <= si < stack@.len() implies 1 <= (#[trigger] stack@[si])
                && bx + 7 + INDENT_SPACING * (stack@[si] as int) <= u64::MAX by {
                let k2 = choose|k2: int|
                    k as int <= k2 < rows@.len() && rows@[k2].depth == stack@[si];
            }
        }
        // full vertical lines for the enclosing brackets
        let send = stack.len() - 1;
        let mut si: usize = 0;
        proof {
            assert(stack@.drop_last().len() == send as int);
            assert(segs@ + stack_verts(stack@.drop_last(), h as int, spec_height(
                rows@[k as int].has_sub,
                *g,
            ), bx).take(0) =~= segs@);
        }
        while si < send
            invariant
                n == rows@.len(),
                send == stack@.len() - 1,
                si <= send,
                k < n,
                forall|si2: int|
                    0 <= si2 < stack@.len() ==> 1 <= (#[trigger] stack@[si2]) && bx + 7
                        + INDENT_SPACING * (stack@[si2] as int) <= u64::MAX,
                h + spec_height(rows@[k as int].has_sub, *g) <= u64::MAX,
                segs@ == div_segs_below(rows@, *g, bx, k + 1) + stack_verts(
                    stack@.drop_last(),
                    h as int,
                    spec_height(rows@[k as int].has_sub, *g),
                    bx,
                ).take(si as int),
            decreases send - si,
        {
            let pos = stack[si];
            let x: u64 = bx + 7 + (pos as u64 - 1) * INDENT_SPACING;
            let bot: u64 = h + if rows[k].has_sub {
                g.row_h + g.spacing + g.sub_h + g.spacing
            } else {
                g.row_h + g.spacing
            };
            segs.push(Segment { x0: x, y0: h, x1: x, y1: bot });
            proof {
                let vs = stack_verts(
                    stack@.drop_last(),
                    h as int,
                    spec_height(rows@[k as int].has_sub, *g),
                    bx,
                );
                assert(stack@.drop_last()[si as int] == stack@[si as int]);
                assert(vs[si as int] == Segment { x0: x, y0: h, x1: x, y1: bot });
                assert(vs.take(si + 1) =~= vs.take(si as int).push(vs[si as int]));
            }
            si += 1;
        }
        // the row's own level: a half line for the last sibling, a full one
        // otherwise, then the stub over to the label
        let endpos = stack[send];
        let xe: u64 = bx + 7 + (endpos as u64 - 1) * INDENT_SPACING;
        let half: u64 = h + (height1 - g.spacing) / 2;
        let bot: u64 = h + height1;
        if rows[k].priority.is_least() {
            segs.push(Segment { x0: xe, y0: h, x1: xe, y1: half });
        } else {
            segs.push(Segment { x0: xe, y0: h, x1: xe, y1: bot });
        }
        segs.push(Segment { x0: xe, y0: half, x1: bx + (endpos as u64) * INDENT_SPACING, y1: half });
        proof {
            let st = stack@;
            let r = rows@[k as int];
            let top = h as int;
            let vs = stack_verts(st.drop_last(), top, spec_height(r.has_sub, *g), bx);
            assert(vs.take(send as int) =~= vs);
            assert(segs@ =~= div_segs_below(rows@, *g, bx, k + 1) + segs_for(
                st,
                r,
                top,
                *g,
                bx,
            ));
            assert(segs@ == div_segs_below(rows@, *g, bx, k as int));
        }
        k -= 1;
    }
    proof {
        assert(segs@ == div_segs_below(rows@, *g, bx, 1));
    }
    segs
}

/// In a complete pass, a node that stands in the child lists of two
/// different reached parents gets two distinct rows, so its id is repeated
/// and the color assignment gives it the derived color instead of the
/// neutral default.
pub proof fn lemma_dual_parent_rows(
    t: Tree,
    pid: u64,
    id: u64,
    rows: Seq<FNode>,
    j1: int,
    j2: int,
    c1: int,
    c2: int,
    x: u64,
)
    requires
        paths_distinct(rows),
        forall|k: int| 0 <= k < rows.len() ==> row_ok(t, pid, id, rows, #[trigger] rows[k]),
        rows_complete(t, rows),
        0 <= j1 < rows.len(),
        0 <= j2 < rows.len(),
        t.link_map().contains_key(rows[j1].id),
        t.link_map().contains_key(rows[j2].id),
        0 <= c1 < t.link_map()[rows[j1].id]@.len(),
        0 <= c2 < t.link_map()[rows[j2].id]@.len(),
        t.link_map()[rows[j1].id]@[c1] == x,
        t.link_map()[rows[j2].id]@[c2] == x,
        rows[j1].id != rows[j2].id,
    ensures
        repeated(rows, x),
{
    assert(placed_for(rows, rows[j1], c1));
    let k1 = choose|k: int|
        0 <= k < rows.len() && (#[trigger] rows[k]).pid == rows[j1].id && rows[k].priority.det
            as int == c1 && extends_path(rows[k], rows[j1]);
    assert(placed_for(rows, rows[j2], c2));
    let k2 = choose|k: int|
        0 <= k < rows.len() && (#[trigger] rows[k]).pid == rows[j2].id && rows[k].priority.det
            as int == c2 && extends_path(rows[k], rows[j2]);
    assert(rows[k1].id == x) by {
        lemma_placed_row_id(t, pid, id, rows, j1, c1, k1);
    }
    assert(rows[k2].id == x) by {
        lemma_placed_row_id(t, pid, id, rows, j2, c2, k2);
    }
    assert(k1 != k2) by {
        if k1 == k2 {
            assert(rows[k1].pid == rows[j1].id && rows[k2].pid == rows[j2].id);
        }
    }
    if k1 < k2 {
        assert(0 <= k1 < k2 < rows.len() && rows[k1].id == x && rows[k2].id == x);
    } else {
        assert(0 <= k2 < k1 < rows.len() && rows[k2].id == x && rows[k1].id == x);
    }
}

/// The row placed for child index `c` of parent row `j` carries the id that
/// stands at that index of the parent's child list: paths are distinct, so
/// the placed row's own parent row is the one it extends.
proof fn lemma_placed_row_id(
    t: Tree,
    pid: u64,
    id: u64,
    rows: Seq<FNode>,
    j: int,
    c: int,
    k: int,
)
    requires
        paths_distinct(rows),
        forall|k2: int| 0 <= k2 < rows.len() ==> row_ok(t, pid, id, rows, #[trigger] rows[k2]),
        0 <= j < rows.len(),
        t.link_map().contains_key(rows[j].id),
        0 <= c < t.link_map()[rows[j].id]@.len(),
        0 <= k < rows.len(),
        rows[k].pid == rows[j].id,
        rows[k].priority.det as int == c,
        extends_path(rows[k], rows[j]),
    ensures
        rows[k].id == t.link_map()[rows[j].id]@[c],
{
    assert(row_ok(t, pid, id, rows, rows[k]));
    assert(rows[k].path@.len() >= 2);
    if is_root_row(t, pid, id, rows[k]) {
        assert(rows[k].path@ == seq![0usize]);
        assert(false);
    }
    let jj = choose|jj: int|
        0 <= jj < rows.len() && child_of(t, #[trigger] rows[jj], rows[k], rows[k].priority.det as int);
    assert(rows[jj].path@.len() == rows[j].path@.len()) by {
        assert(extends_path(rows[k], rows[jj]));
    }
    assert(rows[jj].path@ == rows[j].path@) by {
        assert(rows[k].path@.subrange(0, rows[jj].path@.len() as int) == rows[jj].path@);
        assert(rows[k].path@.subrange(0, rows[j].path@.len() as int) == rows[j].path@);
    }
    assert(jj == j) by {
        if jj != j {
            assert(rows[jj].path@ != rows[j].path@);
        }
    }
}

/// No row of a pass that fits the viewport is placed past the bound: every
/// row's top is a prefix sum of the heights above it, so its whole extent
/// stays at or above the bound the flattening was given.
pub proof fn lemma_rows_within_viewport(rows: Seq<FNode>, g: Geom)
    requires
        g.start_y + rows_height(rows, g) <= g.max_y,
    ensures
        forall|k: int|
            0 <= k < rows.len() ==> top_of(rows, g, k) + spec_height(rows[k].has_sub, g)
                <= g.max_y,
{
    assert forall|k: int|
        0 <= k < rows.len() implies top_of(rows, g, k) + spec_height(rows[k].has_sub, g)
        <= g.max_y by {
        lemma_rows_height_prefix(rows, k + 1, g);
        assert(rows.take(k + 1).drop_last() =~= rows.take(k));
        assert(rows.take(k + 1).last() == rows[k]);
    }
}

} // verus!

