use vstd::prelude::*;

verus! {

/// Target frame rate of the driving loop; the core only exports it.
pub const FPS: i32 = 30;

/// Board width in cells.
pub const BOARD_W: usize = 20;

/// Board height in cells.
pub const BOARD_H: usize = 10;

/// Number of distinct tile colors.
pub const COLORS_COUNT: i32 = 5;

/// One tile slot of the board. A slot that holds no tile has `exist == false`,
/// and its `color` and `component_id` are then never read by any consumer.
/// `component_id == -1` marks a cell the labeler has not assigned yet.
#[derive(Debug, Clone, Copy)]
pub struct Cell {
    pub exist: bool,
    pub color: i32,
    pub component_id: i32,
}

/// Total number of cells of the board.
pub open spec fn board_size() -> int {
    BOARD_W * BOARD_H
}

/// Whether (x, y) lies on the board.
pub open spec fn sp_valid_xy(x: int, y: int) -> bool {
    0 <= x < BOARD_W && 0 <= y < BOARD_H
}

/// Index of (x, y) in the flat, column-major cell sequence.
pub open spec fn cell_idx(x: int, y: int) -> int {
    x * BOARD_H + y
}

/// The cell at (x, y) of a flat board sequence.
pub open spec fn cell_at(b: Seq<Cell>, x: int, y: int) -> Cell {
    b[cell_idx(x, y)]
}

/// Whether two board positions are 4-adjacent (von Neumann neighborhood).
pub open spec fn sp_adjacent(x1: int, y1: int, x2: int, y2: int) -> bool {
    &&& sp_valid_xy(x1, y1)
    &&& sp_valid_xy(x2, y2)
    &&& ((x1 == x2 && (y2 == y1 + 1 || y1 == y2 + 1)) || (y1 == y2 && (x2 == x1 + 1 || x1 == x2
        + 1)))
}

/// A path across the board: successive positions are 4-adjacent, and every
/// position holds an existing tile of the one color `col`.
pub open spec fn sp_path(b: Seq<Cell>, p: Seq<(int, int)>, col: int) -> bool {
    &&& p.len() >= 1
    &&& forall|k: int| 0 <= k < p.len() ==> cell_at(b, (#[trigger] p[k]).0, p[k].1).exist
    &&& forall|k: int| 0 <= k < p.len() ==> cell_at(b, (#[trigger] p[k]).0, p[k].1).color == col
    &&& forall|k: int|
        0 <= k < p.len() - 1 ==> sp_adjacent((#[trigger] p[k]).0, p[k].1, p[k + 1].0, p[k + 1].1)
    &&& sp_valid_xy(p[0].0, p[0].1)
}

/// Whether a same-colored, 4-connected path of existing tiles joins the two
/// positions.
#[verifier::opaque]
pub open spec fn connected_cells(b: Seq<Cell>, x1: int, y1: int, x2: int, y2: int) -> bool {
    exists|p: Seq<(int, int)>|
        sp_path(b, p, cell_at(b, x1, y1).color as int) && p.first() == (x1, y1) && p.last() == (
        x2,
        y2,
        )
}

/// A tile reaches itself by the one-step path.
pub proof fn lemma_connected_refl(b: Seq<Cell>, x: int, y: int)
    requires
        sp_valid_xy(x, y),
        cell_at(b, x, y).exist,
    ensures
        connected_cells(b, x, y, x, y),
{
    reveal(connected_cells);
    let p = seq![(x, y)];
    assert(p[0] == (x, y));
    assert(p.first() == (x, y));
    assert(p.last() == (x, y));
    assert(sp_path(b, p, cell_at(b, x, y).color as int));
}

/// A path extends by one 4-adjacent tile of the same color.
pub proof fn lemma_connected_step(
    b: Seq<Cell>,
    x1: int,
    y1: int,
    x2: int,
    y2: int,
    x3: int,
    y3: int,
)
    requires
        connected_cells(b, x1, y1, x2, y2),
        sp_adjacent(x2, y2, x3, y3),
        cell_at(b, x3, y3).exist,
        cell_at(b, x3, y3).color == cell_at(b, x1, y1).color,
    ensures
        connected_cells(b, x1, y1, x3, y3),
{
    reveal(connected_cells);
    let col = cell_at(b, x1, y1).color as int;
    let p = choose|p: Seq<(int, int)>|
        sp_path(b, p, col) && p.first() == (x1, y1) && p.last() == (x2, y2);
    let q = p.push((x3, y3));
    assert forall|k: int| 0 <= k < q.len() implies cell_at(b, (#[trigger] q[k]).0, q[k].1).exist
        && cell_at(b, q[k].0, q[k].1).color == col by {
        if k < p.len() {
            assert(q[k] == p[k]);
        } else {
            assert(q[k] == (x3, y3));
        }
    }
    assert forall|k: int|
        0 <= k < q.len() - 1 implies sp_adjacent((#[trigger] q[k]).0, q[k].1, q[k + 1].0, q[k
        + 1].1) by {
        if k < p.len() - 1 {
            assert(q[k] == p[k] && q[k + 1] == p[k + 1]);
        } else {
            assert(q[k] == p.last() && q[k + 1] == (x3, y3));
        }
    }
    assert(q[0] == p[0]);
    assert(sp_path(b, q, col));
    assert(q.first() == (x1, y1) && q.last() == (x3, y3));
}

/// Connectivity runs both ways: the reversed path serves.
pub proof fn lemma_connected_sym(b: Seq<Cell>, x1: int, y1: int, x2: int, y2: int)
    requires
        connected_cells(b, x1, y1, x2, y2),
    ensures
        connected_cells(b, x2, y2, x1, y1),
{
    reveal(connected_cells);
    let col = cell_at(b, x1, y1).color as int;
    let p = choose|p: Seq<(int, int)>|
        sp_path(b, p, col) && p.first() == (x1, y1) && p.last() == (x2, y2);
    let q = p.reverse();
    assert forall|k: int| 0 <= k < q.len() implies cell_at(b, (#[trigger] q[k]).0, q[k].1).exist
        && cell_at(b, q[k].0, q[k].1).color == col by {
        assert(q[k] == p[p.len() - 1 - k]);
    }
    assert forall|k: int|
        0 <= k < q.len() - 1 implies sp_adjacent((#[trigger] q[k]).0, q[k].1, q[k + 1].0, q[k
        + 1].1) by {
        assert(q[k] == p[p.len() - 1 - k]);
        assert(q[k + 1] == p[p.len() - 2 - k]);
        assert(sp_adjacent(p[p.len() - 2 - k].0, p[p.len() - 2 - k].1, p[p.len() - 1 - k].0, p[
            p.len() - 1 - k
        ].1));
    }
    assert(q[0] == p[p.len() - 1]);
    assert(cell_at(b, x2, y2).color == col);
    assert(sp_path(b, q, cell_at(b, x2, y2).color as int));
    assert(q.first() == (x2, y2) && q.last() == (x1, y1));
}

/// Connectivity chains: a path to a midpoint continues to the far cell.
pub proof fn lemma_connected_trans(
    b: Seq<Cell>,
    x1: int,
    y1: int,
    x2: int,
    y2: int,
    x3: int,
    y3: int,
)
    requires
        connected_cells(b, x1, y1, x2, y2),
        connected_cells(b, x2, y2, x3, y3),
    ensures
        connected_cells(b, x1, y1, x3, y3),
{
    reveal(connected_cells);
    let col = cell_at(b, x1, y1).color as int;
    let p = choose|p: Seq<(int, int)>|
        sp_path(b, p, col) && p.first() == (x1, y1) && p.last() == (x2, y2);
    assert(cell_at(b, x2, y2).color == col);
    let col2 = cell_at(b, x2, y2).color as int;
    let r = choose|r: Seq<(int, int)>|
        sp_path(b, r, col2) && r.first() == (x2, y2) && r.last() == (x3, y3);
    let q = p + r.drop_first();
    assert forall|k: int| 0 <= k < q.len() implies cell_at(b, (#[trigger] q[k]).0, q[k].1).exist
        && cell_at(b, q[k].0, q[k].1).color == col by {
        if k < p.len() {
            assert(q[k] == p[k]);
        } else {
            assert(q[k] == r[k - p.len() + 1]);
        }
    }
    assert forall|k: int|
        0 <= k < q.len() - 1 implies sp_adjacent((#[trigger] q[k]).0, q[k].1, q[k + 1].0, q[k
        + 1].1) by {
        if k < p.len() - 1 {
            assert(q[k] == p[k] && q[k + 1] == p[k + 1]);
        } else if k == p.len() - 1 {
            if r.len() >= 2 {
                assert(q[k] == p.last() && q[k + 1] == r[1]);
                assert(p.last() == r[0]);
                assert(sp_adjacent(r[0].0, r[0].1, r[1].0, r[1].1));
            }
        } else {
            assert(q[k] == r[k - p.len() + 1] && q[k + 1] == r[k - p.len() + 2]);
        }
    }
    assert(q[0] == p[0]);
    assert(sp_path(b, q, col));
    assert(q.first() == (x1, y1));
    assert(q.last() == (x3, y3)) by {
        if r.len() >= 2 {
            assert(q[q.len() - 1] == r[r.len() - 1]);
        } else {
            assert(q =~= p);
        }
    }
}

/// Paths care only about which tiles exist and their colors, so they carry
/// over between boards of one shape.
pub proof fn lemma_connected_same_shape(
    b1: Seq<Cell>,
    b2: Seq<Cell>,
    x1: int,
    y1: int,
    x2: int,
    y2: int,
)
    requires
        same_shape(b1, b2),
        b1.len() == board_size(),
        sp_valid_xy(x1, y1),
        connected_cells(b1, x1, y1, x2, y2),
    ensures
        connected_cells(b2, x1, y1, x2, y2),
{
    reveal(connected_cells);
    let col = cell_at(b1, x1, y1).color as int;
    let p = choose|p: Seq<(int, int)>|
        sp_path(b1, p, col) && p.first() == (x1, y1) && p.last() == (x2, y2);
    assert forall|k: int| 0 <= k < p.len() implies cell_at(b2, (#[trigger] p[k]).0, p[k].1).exist
        && cell_at(b2, p[k].0, p[k].1).color == col by {
        if k < p.len() - 1 {
            assert(sp_adjacent(p[k].0, p[k].1, p[k + 1].0, p[k + 1].1));
        }
        if k > 0 {
            assert(sp_adjacent(p[k - 1].0, p[k - 1].1, p[k].0, p[k].1));
        }
        assert(sp_valid_xy(p[k].0, p[k].1));
        let j = cell_idx(p[k].0, p[k].1);
        assert(cell_at(b1, p[k].0, p[k].1) == b1[j]);
        assert(cell_at(b2, p[k].0, p[k].1) == b2[j]);
        assert(b2[j].exist == b1[j].exist && b2[j].color == b1[j].color);
    }
    assert(cell_at(b2, x1, y1).color == cell_at(b1, x1, y1).color) by {
        let j = cell_idx(x1, y1);
        assert(cell_at(b1, x1, y1) == b1[j]);
        assert(cell_at(b2, x1, y1) == b2[j]);
    }
    assert(sp_path(b2, p, cell_at(b2, x1, y1).color as int));
}

/// Column x of the board as its own sequence, top to bottom.
pub open spec fn col_seq(b: Seq<Cell>, x: int) -> Seq<Cell> {
    b.subrange(x * BOARD_H, (x + 1) * BOARD_H)
}

/// Whether column x holds no tile at all.
pub open spec fn col_empty(b: Seq<Cell>, x: int) -> bool {
    forall|y: int| 0 <= y < BOARD_H ==> !cell_at(b, x, y).exist
}

/// Within column x, tiles rest at the bottom: below an existing cell every
/// cell exists as well.
pub open spec fn col_sorted(b: Seq<Cell>, x: int) -> bool {
    forall|y1: int, y2: int|
        0 <= y1 < y2 < BOARD_H && cell_at(b, x, y1).exist ==> cell_at(b, x, y2).exist
}

/// Gravity has settled every column.
pub open spec fn gravity_ok(b: Seq<Cell>) -> bool {
    forall|x: int| 0 <= x < BOARD_W ==> col_sorted(b, x)
}

/// Columns are packed to the left: an empty column never sits left of a
/// non-empty one.
pub open spec fn compact_ok(b: Seq<Cell>) -> bool {
    forall|x1: int, x2: int| 0 <= x1 < x2 < BOARD_W && col_empty(b, x1) ==> col_empty(b, x2)
}

/// Two boards of equal size whose cells agree on `exist` and `color`
/// everywhere; they may differ in component ids.
pub open spec fn same_shape(b1: Seq<Cell>, b2: Seq<Cell>) -> bool {
    &&& b1.len() == b2.len()
    &&& forall|j: int|
        0 <= j < b1.len() ==> (#[trigger] b2[j]).exist == b1[j].exist && b2[j].color == b1[j].color
}

/// Whether a cell is counted by `mark_count(_, col)`: it must exist, and
/// `col == -1` accepts every color while any other value selects one color.
pub open spec fn marked(c: Cell, col: int) -> bool {
    c.exist && (col == -1 || c.color == col)
}

/// Number of existing cells of a sequence whose color matches `col`
/// (`col == -1`: all existing cells).
pub open spec fn mark_count(s: Seq<Cell>, col: int) -> int
    decreases s.len(),
{
    if s.len() == 0 {
        0
    } else {
        (if marked(s.first(), col) {
            1int
        } else {
            0int
        }) + mark_count(s.drop_first(), col)
    }
}

/// Number of cells of a sequence that carry the component id `id`.
pub open spec fn id_count(s: Seq<Cell>, id: int) -> int
    decreases s.len(),
{
    if s.len() == 0 {
        0
    } else {
        (if s.first().component_id == id {
            1int
        } else {
            0int
        }) + id_count(s.drop_first(), id)
    }
}

pub proof fn lemma_mark_count_bounds(s: Seq<Cell>, col: int)
    ensures
        0 <= mark_count(s, col) <= s.len(),
    decreases s.len(),
{
    if s.len() > 0 {
        lemma_mark_count_bounds(s.drop_first(), col);
    }
}

pub proof fn lemma_id_count_bounds(s: Seq<Cell>, id: int)
    ensures
        0 <= id_count(s, id) <= s.len(),
    decreases s.len(),
{
    if s.len() > 0 {
        lemma_id_count_bounds(s.drop_first(), id);
    }
}

pub proof fn lemma_mark_count_concat(a: Seq<Cell>, b: Seq<Cell>, col: int)
    ensures
        mark_count(a + b, col) == mark_count(a, col) + mark_count(b, col),
    decreases a.len(),
{
    if a.len() == 0 {
        assert(a + b =~= b);
    } else {
        assert((a + b).drop_first() =~= a.drop_first() + b);
        lemma_mark_count_concat(a.drop_first(), b, col);
    }
}

pub proof fn lemma_id_count_concat(a: Seq<Cell>, b: Seq<Cell>, id: int)
    ensures
        id_count(a + b, id) == id_count(a, id) + id_count(b, id),
    decreases a.len(),
{
    if a.len() == 0 {
        assert(a + b =~= b);
    } else {
        assert((a + b).drop_first() =~= a.drop_first() + b);
        lemma_id_count_concat(a.drop_first(), b, id);
    }
}

pub proof fn lemma_mark_count_update(s: Seq<Cell>, i: int, c: Cell, col: int)
    requires
        0 <= i < s.len(),
    ensures
        mark_count(s.update(i, c), col) == mark_count(s, col) - (if marked(s[i], col) {
            1int
        } else {
            0int
        }) + (if marked(c, col) {
            1int
        } else {
            0int
        }),
    decreases s.len(),
{
    if i == 0 {
        assert(s.update(i, c).drop_first() =~= s.drop_first());
    } else {
        assert(s.update(i, c).drop_first() =~= s.drop_first().update(i - 1, c));
        lemma_mark_count_update(s.drop_first(), i - 1, c, col);
    }
}

pub proof fn lemma_id_count_update(s: Seq<Cell>, i: int, c: Cell, id: int)
    requires
        0 <= i < s.len(),
    ensures
        id_count(s.update(i, c), id) == id_count(s, id) - (if s[i].component_id == id {
            1int
        } else {
            0int
        }) + (if c.component_id == id {
            1int
        } else {
            0int
        }),
    decreases s.len(),
{
    if i == 0 {
        assert(s.update(i, c).drop_first() =~= s.drop_first());
    } else {
        assert(s.update(i, c).drop_first() =~= s.drop_first().update(i - 1, c));
        lemma_id_count_update(s.drop_first(), i - 1, c, id);
    }
}

/// Boards whose cells agree pointwise on `exist` and `color` have the same
/// mark counts.
pub proof fn lemma_mark_count_pointwise(s1: Seq<Cell>, s2: Seq<Cell>, col: int)
    requires
        s1.len() == s2.len(),
        forall|j: int|
            0 <= j < s1.len() ==> s1[j].exist == s2[j].exist && s1[j].color == s2[j].color,
    ensures
        mark_count(s1, col) == mark_count(s2, col),
    decreases s1.len(),
{
    if s1.len() > 0 {
        assert(forall|j: int|
            0 <= j < s1.drop_first().len() ==> s1.drop_first()[j].exist == s2.drop_first()[j].exist
                && s1.drop_first()[j].color == s2.drop_first()[j].color);
        lemma_mark_count_pointwise(s1.drop_first(), s2.drop_first(), col);
    }
}

/// A sequence without any existing cell marks nothing.
pub proof fn lemma_mark_count_zero(s: Seq<Cell>, col: int)
    requires
        forall|j: int| 0 <= j < s.len() ==> !s[j].exist,
    ensures
        mark_count(s, col) == 0,
    decreases s.len(),
{
    if s.len() > 0 {
        lemma_mark_count_zero(s.drop_first(), col);
    }
}

/// A sequence of existing cells only has live count equal to its length.
pub proof fn lemma_mark_count_full(s: Seq<Cell>)
    requires
        forall|j: int| 0 <= j < s.len() ==> s[j].exist,
    ensures
        mark_count(s, -1) == s.len(),
    decreases s.len(),
{
    if s.len() > 0 {
        lemma_mark_count_full(s.drop_first());
    }
}

/// If every cell that carries `id` exists, at most all existing cells carry it.
pub proof fn lemma_id_count_le_live(s: Seq<Cell>, id: int)
    requires
        forall|j: int| 0 <= j < s.len() && s[j].component_id == id ==> s[j].exist,
    ensures
        id_count(s, id) <= mark_count(s, -1),
    decreases s.len(),
{
    if s.len() > 0 {
        assert(forall|j: int|
            0 <= j < s.drop_first().len() && s.drop_first()[j].component_id == id
                ==> s.drop_first()[j].exist);
        lemma_id_count_le_live(s.drop_first(), id);
    }
}

/// An id carried by no cell has count zero.
pub proof fn lemma_id_count_none(s: Seq<Cell>, id: int)
    requires
        forall|j: int| 0 <= j < s.len() ==> s[j].component_id != id,
    ensures
        id_count(s, id) == 0,
    decreases s.len(),
{
    if s.len() > 0 {
        lemma_id_count_none(s.drop_first(), id);
    }
}

/// Clearing `exist` on exactly the cells of component `id` — all of which
/// existed and bore the color `ccol` — lowers the count of every matching
/// mark by the size of that component and no other count.
pub proof fn lemma_mark_count_remove(s1: Seq<Cell>, s2: Seq<Cell>, id: int, ccol: int, col: int)
    requires
        s1.len() == s2.len(),
        forall|j: int|
            0 <= j < s1.len() ==> s2[j].color == s1[j].color && s2[j].component_id == s1[
                j
            ].component_id,
        forall|j: int|
            0 <= j < s1.len() ==> s2[j].exist == (s1[j].exist && s1[j].component_id != id),
        forall|j: int|
            0 <= j < s1.len() && s1[j].component_id == id ==> s1[j].exist && s1[j].color == ccol,
    ensures
        mark_count(s2, col) == mark_count(s1, col) - (if col == -1 || col == ccol {
            id_count(s1, id)
        } else {
            0int
        }),
    decreases s1.len(),
{
    if s1.len() > 0 {
        assert(forall|j: int|
            0 <= j < s1.drop_first().len() ==> s2.drop_first()[j].color == s1.drop_first()[j].color
                && s2.drop_first()[j].component_id == s1.drop_first()[j].component_id);
        assert(forall|j: int|
            0 <= j < s1.drop_first().len() ==> s2.drop_first()[j].exist == (s1.drop_first()[
                j
            ].exist && s1.drop_first()[j].component_id != id));
        assert(forall|j: int|
            0 <= j < s1.drop_first().len() && s1.drop_first()[j].component_id == id
                ==> s1.drop_first()[j].exist && s1.drop_first()[j].color == ccol);
        lemma_mark_count_remove(s1.drop_first(), s2.drop_first(), id, ccol, col);
    }
}

/// One existing cell makes the live count positive.
pub proof fn lemma_mark_count_pos(s: Seq<Cell>, j: int)
    requires
        0 <= j < s.len(),
        s[j].exist,
    ensures
        mark_count(s, -1) >= 1,
    decreases s.len(),
{
    lemma_mark_count_bounds(s.drop_first(), -1);
    if j > 0 {
        lemma_mark_count_pos(s.drop_first(), j - 1);
    }
}

/// A change confined to the index range [lo, hi) moves every mark count by
/// what it moves inside that range.
pub proof fn lemma_mark_count_replace_segment(
    s1: Seq<Cell>,
    s2: Seq<Cell>,
    lo: int,
    hi: int,
    col: int,
)
    requires
        s1.len() == s2.len(),
        0 <= lo <= hi <= s1.len(),
        forall|j: int| 0 <= j < s1.len() && !(lo <= j < hi) ==> s2[j] == s1[j],
    ensures
        mark_count(s2, col) - mark_count(s1, col) == mark_count(s2.subrange(lo, hi), col)
            - mark_count(s1.subrange(lo, hi), col),
{
    let n = s1.len() as int;
    assert(s1 =~= s1.subrange(0, lo) + s1.subrange(lo, hi) + s1.subrange(hi, n));
    assert(s2 =~= s2.subrange(0, lo) + s2.subrange(lo, hi) + s2.subrange(hi, n));
    assert(s2.subrange(0, lo) =~= s1.subrange(0, lo));
    assert(s2.subrange(hi, n) =~= s1.subrange(hi, n));
    lemma_mark_count_concat(s1.subrange(0, lo) + s1.subrange(lo, hi), s1.subrange(hi, n), col);
    lemma_mark_count_concat(s1.subrange(0, lo), s1.subrange(lo, hi), col);
    lemma_mark_count_concat(s1.subrange(0, lo) + s2.subrange(lo, hi), s1.subrange(hi, n), col);
    lemma_mark_count_concat(s1.subrange(0, lo), s2.subrange(lo, hi), col);
}

} // verus!
