use vstd::prelude::*;

use crate::game::Game;
use crate::grid::cell_at;
use crate::grid::cell_idx;
use crate::grid::connected_cells;
use crate::grid::id_count;
use crate::grid::sp_adjacent;
use crate::grid::sp_path;

verus! {

/// Labeling soundness at neighbor range: two existing, 4-adjacent cells
/// share a component id exactly when their colors are equal. A component
/// therefore swallows every same-colored neighbor of its cells and never
/// absorbs a differently colored one.
pub proof fn lemma_adjacent_same_component_iff_same_color(
    g: Game,
    x1: int,
    y1: int,
    x2: int,
    y2: int,
)
    requires
        g.wf(),
        sp_adjacent(x1, y1, x2, y2),
        cell_at(g.board@, x1, y1).exist,
        cell_at(g.board@, x2, y2).exist,
    ensures
        cell_at(g.board@, x1, y1).component_id == cell_at(g.board@, x2, y2).component_id
            <==> cell_at(g.board@, x1, y1).color == cell_at(g.board@, x2, y2).color,
{
    let b = g.board@;
    let j1 = cell_idx(x1, y1);
    let j2 = cell_idx(x2, y2);
    assert(cell_at(b, x1, y1) == b[j1]);
    assert(cell_at(b, x2, y2) == b[j2]);
    assert(0 <= j1 < b.len());
    assert(0 <= j2 < b.len());
    assert(b[j1].component_id >= 0);
    assert(b[j2].component_id >= 0);
}

/// One direction of labeling soundness: any two cells joined by a path of
/// existing, same-colored, 4-adjacent cells carry one component id.
pub proof fn lemma_connected_cells_share_component(g: Game, p: Seq<(int, int)>, col: int)
    requires
        g.wf(),
        sp_path(g.board@, p, col),
    ensures
        cell_at(g.board@, p.first().0, p.first().1).component_id == cell_at(
            g.board@,
            p.last().0,
            p.last().1,
        ).component_id,
    decreases p.len(),
{
    if p.len() >= 2 {
        let q = p.drop_first();
        assert forall|k: int| 0 <= k < q.len() implies q[k] == p[k + 1] by {}
        assert(sp_path(g.board@, q, col));
        lemma_connected_cells_share_component(g, q, col);
        assert(q.last() == p.last());
        lemma_adjacent_same_component_iff_same_color(g, p[0].0, p[0].1, p[1].0, p[1].1);
    }
}

/// Labeling soundness, both ways: two existing cells carry one component id
/// exactly when a path of existing, same-colored, 4-adjacent cells joins
/// them.
pub proof fn lemma_labeling_soundness(g: Game, x1: int, y1: int, x2: int, y2: int)
    requires
        g.wf(),
        crate::grid::sp_valid_xy(x1, y1),
        crate::grid::sp_valid_xy(x2, y2),
        cell_at(g.board@, x1, y1).exist,
        cell_at(g.board@, x2, y2).exist,
    ensures
        cell_at(g.board@, x1, y1).component_id == cell_at(g.board@, x2, y2).component_id
            <==> connected_cells(g.board@, x1, y1, x2, y2),
{
    let j1 = cell_idx(x1, y1);
    let j2 = cell_idx(x2, y2);
    assert(cell_at(g.board@, x1, y1) == g.board@[j1]);
    assert(cell_at(g.board@, x2, y2) == g.board@[j2]);
    assert(g.board@[j1].component_id >= 0);
    if connected_cells(g.board@, x1, y1, x2, y2) {
        reveal(connected_cells);
        let col = cell_at(g.board@, x1, y1).color as int;
        let p = choose|p: Seq<(int, int)>|
            sp_path(g.board@, p, col) && p.first() == (x1, y1) && p.last() == (x2, y2);
        lemma_connected_cells_share_component(g, p, col);
    }
}

/// Two cells that carry one component id are both existing tiles and have
/// the same color. This is the per-pair face of labeling soundness: a
/// component never captures an empty slot and never mixes colors.
pub proof fn lemma_component_cells_same_color(g: Game, j1: int, j2: int)
    requires
        g.wf(),
        0 <= j1 < g.board@.len(),
        0 <= j2 < g.board@.len(),
        g.board@[j1].component_id >= 0,
        g.board@[j1].component_id == g.board@[j2].component_id,
    ensures
        g.board@[j1].exist,
        g.board@[j2].exist,
        g.board@[j1].color == g.board@[j2].color,
{
}

/// Count consistency: every component id present in the map counts exactly
/// the cells that carry it, and every component has at least one member;
/// conversely, every existing cell's id is present in the map.
pub proof fn lemma_count_consistency(g: Game, id: i32, j: int)
    requires
        g.wf(),
        0 <= j < g.board@.len(),
    ensures
        g.connected_counts@.contains_key(id) ==> g.connected_counts@[id] == id_count(
            g.board@,
            id as int,
        ) && g.connected_counts@[id] >= 1,
        g.board@[j].exist ==> g.connected_counts@.contains_key(g.board@[j].component_id),
{
}

} // verus!
