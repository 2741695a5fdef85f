use vstd::prelude::*;

use vstd::pervasive::VecAdditionalExecFns;

use crate::game::components_closed;
use crate::game::components_connected;
use crate::game::lab_inv;
use crate::game::labeled;
use crate::game::scalars_fixed;
use crate::game::Game;
use crate::grid::board_size;
use crate::grid::cell_at;
use crate::grid::connected_cells;
use crate::grid::lemma_connected_refl;
use crate::grid::lemma_connected_same_shape;
use crate::grid::lemma_connected_step;
use crate::grid::lemma_connected_sym;
use crate::grid::lemma_connected_trans;
use crate::grid::sp_valid_xy;
use crate::grid::cell_idx;
use crate::grid::id_count;
use crate::grid::lemma_id_count_bounds;
use crate::grid::lemma_id_count_none;
use crate::grid::lemma_id_count_update;
use crate::grid::same_shape;
use crate::grid::sp_adjacent;
use crate::grid::BOARD_H;
use crate::grid::BOARD_W;

verus! {

broadcast use vstd::std_specs::hash::group_hash_axioms;

proof fn lemma_contains_after_push(s: Seq<(usize, usize)>, e: (usize, usize), f: (usize, usize))
    requires
        s.contains(e),
    ensures
        s.push(f).contains(e),
{
    let k = choose|k: int| 0 <= k < s.len() && s[k] == e;
    assert(s.push(f)[k] == e);
}

impl Game {
    /// Labels the whole connected group of same-colored, existing tiles
    /// around (x, y) with the fresh id `component_id` and records the group's
    /// size, using an explicit work list in place of recursion. A cell that
    /// is already labeled, or holds no tile, is left alone, and then the id
    /// stays unused. Two cells join the same group only if both exist and
    /// their colors match.
    #[verifier::rlimit(100)]
    pub fn set_component_id(&mut self, x: usize, y: usize, component_id: i32)
        requires
            old(self).board@.len() == board_size(),
            x < BOARD_W,
            y < BOARD_H,
            component_id >= 0,
            lab_inv(old(self).board@, old(self).connected_counts@),
            components_closed(old(self).board@),
            forall|id: i32| #[trigger]
                old(self).connected_counts@.contains_key(id) ==> id < component_id,
            forall|j: int|
                0 <= j < board_size() ==> (#[trigger] old(self).board@[j]).component_id
                    < component_id,
        ensures
            final(self).board@.len() == board_size(),
            same_shape(old(self).board@, final(self).board@),
            lab_inv(final(self).board@, final(self).connected_counts@),
            components_closed(final(self).board@),
            forall|xj: int, yj: int|
                #![trigger cell_at(final(self).board@, xj, yj)]
                sp_valid_xy(xj, yj) && cell_at(final(self).board@, xj, yj).component_id
                    == component_id ==> connected_cells(
                    old(self).board@,
                    x as int,
                    y as int,
                    xj,
                    yj,
                ),
            scalars_fixed(*old(self), *final(self)),
            forall|j: int|
                0 <= j < board_size() && (#[trigger] old(self).board@[j]).component_id >= 0
                    ==> final(self).board@[j].component_id == old(self).board@[j].component_id,
            forall|j: int|
                0 <= j < board_size() ==> (#[trigger] final(self).board@[j]).component_id
                    == old(self).board@[j].component_id || (old(self).board@[j].component_id == -1
                    && final(self).board@[j].component_id == component_id),
            old(self).board@[cell_idx(x as int, y as int)].exist ==> final(self).board@[cell_idx(
                x as int,
                y as int,
            )].component_id >= 0,
            forall|id: i32| #[trigger]
                final(self).connected_counts@.contains_key(id) ==> id <= component_id,
            forall|id: i32|
                id != component_id ==> (#[trigger] final(self).connected_counts@.contains_key(id)
                    == old(self).connected_counts@.contains_key(id)),
            forall|id: i32|
                id != component_id && #[trigger] old(self).connected_counts@.contains_key(id)
                    ==> final(self).connected_counts@[id] == old(self).connected_counts@[id],
    {
        let ghost b0 = self.board@;
        let ghost m0 = self.connected_counts@;
        let i0 = x * BOARD_H + y;
        if self.board[i0].component_id != -1 {
            return ;
        }
        if !self.board[i0].exist {
            return ;
        }
        let color = self.board[i0].color;
        let mut stack: Vec<(usize, usize)> = Vec::new();
        stack.push((x, y));
        proof {
            assert(stack@[0] == (x, y));
            assert(stack@.contains((x, y)));
        }
        while stack.len() > 0
            invariant
                self.board@.len() == board_size(),
                component_id >= 0,
                b0.len() == board_size(),
                b0[i0 as int].exist,
                b0[i0 as int].color == color,
                i0 == cell_idx(x as int, y as int),
                x < BOARD_W,
                y < BOARD_H,
                forall|k: int|
                    0 <= k < stack@.len() ==> (#[trigger] stack@[k]).0 < BOARD_W && stack@[k].1
                        < BOARD_H,
                same_shape(b0, self.board@),
                lab_inv(self.board@, self.connected_counts@),
                forall|j: int|
                    0 <= j < board_size() && (#[trigger] b0[j]).component_id >= 0
                        ==> self.board@[j].component_id == b0[j].component_id,
                forall|j: int|
                    0 <= j < board_size() ==> (#[trigger] self.board@[j]).component_id == b0[
                        j
                    ].component_id || (b0[j].component_id == -1 && self.board@[j].component_id
                        == component_id),
                forall|j: int|
                    0 <= j < board_size() && (#[trigger] self.board@[j]).component_id
                        == component_id ==> self.board@[j].color == color,
                components_closed(b0),
                forall|x1: int, y1: int, x2: int, y2: int|
                    #![trigger cell_at(self.board@, x1, y1), cell_at(self.board@, x2, y2)]
                    sp_adjacent(x1, y1, x2, y2) && cell_at(self.board@, x1, y1).exist && cell_at(
                        self.board@,
                        x2,
                        y2,
                    ).exist && cell_at(self.board@, x1, y1).color == cell_at(
                        self.board@,
                        x2,
                        y2,
                    ).color && cell_at(self.board@, x1, y1).component_id >= 0 && cell_at(
                        self.board@,
                        x2,
                        y2,
                    ).component_id >= 0 ==> cell_at(self.board@, x2, y2).component_id == cell_at(
                        self.board@,
                        x1,
                        y1,
                    ).component_id,
                forall|x1: int, y1: int, x2: int, y2: int|
                    #![trigger cell_at(self.board@, x1, y1), cell_at(self.board@, x2, y2)]
                    sp_adjacent(x1, y1, x2, y2) && cell_at(self.board@, x1, y1).exist && cell_at(
                        self.board@,
                        x2,
                        y2,
                    ).exist && cell_at(self.board@, x1, y1).color == cell_at(
                        self.board@,
                        x2,
                        y2,
                    ).color && cell_at(self.board@, x1, y1).component_id >= 0 && cell_at(
                        self.board@,
                        x2,
                        y2,
                    ).component_id == -1 ==> stack@.contains(((x2 as usize, y2 as usize))),
                self.board@[i0 as int].component_id >= 0 || stack@.contains((x, y)),
                forall|xj: int, yj: int|
                    #![trigger cell_at(self.board@, xj, yj)]
                    sp_valid_xy(xj, yj) && cell_at(self.board@, xj, yj).component_id
                        == component_id ==> connected_cells(b0, x as int, y as int, xj, yj),
                forall|k: int|
                    0 <= k < stack@.len() ==> (#[trigger] stack@[k]) == (x, y) || exists|
                        xa: int,
                        ya: int,
                    |
                        sp_valid_xy(xa, ya) && cell_at(self.board@, xa, ya).component_id
                            == component_id && sp_adjacent(
                            xa,
                            ya,
                            stack@[k].0 as int,
                            stack@[k].1 as int,
                        ),
                forall|id: i32| #[trigger]
                    self.connected_counts@.contains_key(id) ==> id <= component_id,
                forall|id: i32|
                    id != component_id ==> (#[trigger] self.connected_counts@.contains_key(id)
                        == m0.contains_key(id)),
                forall|id: i32|
                    id != component_id && #[trigger] m0.contains_key(id)
                        ==> self.connected_counts@[id] == m0[id],
                forall|j: int|
                    0 <= j < board_size() ==> (#[trigger] b0[j]).component_id < component_id,
                scalars_fixed(*old(self), *self),
                self.seed == old(self).seed,
                self.rng == old(self).rng,
            decreases id_count(self.board@, -1), stack@.len(),
        {
            let ghost s_pre = stack@;
            let ghost b_entry = self.board@;
            let cur = stack.pop().unwrap();
            let cx = cur.0;
            let cy = cur.1;
            let ci = cx * BOARD_H + cy;
            assert(ci < board_size());
            if self.board[ci].component_id == -1 && self.board[ci].exist && self.board[ci].color
                == color {
                let ghost b_pre = self.board@;
                let ghost m_pre = self.connected_counts@;
                let mut c = self.board[ci];
                c.component_id = component_id;
                self.board.set(ci, c);
                proof {
                    assert forall|id: int| true implies id_count(self.board@, id) == id_count(
                        b_pre,
                        id,
                    ) - (if b_pre[ci as int].component_id == id {
                        1int
                    } else {
                        0int
                    }) + (if component_id == id {
                        1int
                    } else {
                        0int
                    }) by {
                        lemma_id_count_update(b_pre, ci as int, c, id);
                    }
                }
                let n: i32 = if self.connected_counts.contains_key(&component_id) {
                    let k = self.count_of(component_id);
                    proof {
                        lemma_id_count_bounds(b_pre, component_id as int);
                    }
                    k
                } else {
                    proof {
                        assert(forall|j: int|
                            0 <= j < b_pre.len() ==> (#[trigger] b_pre[j]).component_id
                                != component_id);
                        lemma_id_count_none(b_pre, component_id as int);
                    }
                    0
                };
                self.connected_counts.insert(component_id, n + 1);
                if cx >= 1 {
                    stack.push((cx - 1, cy));
                    proof {
                        assert(stack@.last() == (((cx - 1) as usize, cy)));
                        assert(stack@.contains((((cx - 1) as usize, cy))));
                    }
                }
                if cx + 1 < BOARD_W {
                    let ghost sp = stack@;
                    stack.push((cx + 1, cy));
                    proof {
                        assert(stack@.last() == (((cx + 1) as usize, cy)));
                        assert(stack@.contains((((cx + 1) as usize, cy))));
                        if cx >= 1 {
                            lemma_contains_after_push(sp, ((cx - 1) as usize, cy), ((cx + 1) as usize, cy));
                            assert(stack@.contains((((cx - 1) as usize, cy))));
                        }
                    }
                }
                if cy >= 1 {
                    let ghost sp = stack@;
                    stack.push((cx, cy - 1));
                    proof {
                        assert(stack@.last() == ((cx, (cy - 1) as usize)));
                        assert(stack@.contains(((cx, (cy - 1) as usize))));
                        if cx >= 1 {
                            lemma_contains_after_push(sp, ((cx - 1) as usize, cy), (cx, (cy - 1) as usize));
                            assert(stack@.contains((((cx - 1) as usize, cy))));
                        }
                        if cx + 1 < BOARD_W {
                            lemma_contains_after_push(sp, ((cx + 1) as usize, cy), (cx, (cy - 1) as usize));
                            assert(stack@.contains((((cx + 1) as usize, cy))));
                        }
                    }
                }
                if cy + 1 < BOARD_H {
                    let ghost sp = stack@;
                    stack.push((cx, cy + 1));
                    proof {
                        assert(stack@.last() == ((cx, (cy + 1) as usize)));
                        assert(stack@.contains(((cx, (cy + 1) as usize))));
                        if cx >= 1 {
                            lemma_contains_after_push(sp, ((cx - 1) as usize, cy), (cx, (cy + 1) as usize));
                            assert(stack@.contains((((cx - 1) as usize, cy))));
                        }
                        if cx + 1 < BOARD_W {
                            lemma_contains_after_push(sp, ((cx + 1) as usize, cy), (cx, (cy + 1) as usize));
                            assert(stack@.contains((((cx + 1) as usize, cy))));
                        }
                        if cy >= 1 {
                            lemma_contains_after_push(sp, (cx, (cy - 1) as usize), (cx, (cy + 1) as usize));
                            assert(stack@.contains(((cx, (cy - 1) as usize))));
                        }
                    }
                }
                proof {
                    assert(id_count(self.board@, -1) == id_count(b_pre, -1) - 1);
                    lemma_id_count_bounds(self.board@, -1);
                    let bnow = self.board@;
                    let cxi = cx as int;
                    let cyi = cy as int;
                    // the freshly labeled cell is joined to the seed
                    if cur == (x, y) {
                        assert(cell_at(b0, x as int, y as int).exist);
                        lemma_connected_refl(b0, x as int, y as int);
                        assert(connected_cells(b0, x as int, y as int, cxi, cyi));
                    } else {
                        assert(s_pre[s_pre.len() - 1] == cur);
                        assert(exists|xa: int, ya: int|
                            sp_valid_xy(xa, ya) && cell_at(b_entry, xa, ya).component_id
                                == component_id && sp_adjacent(xa, ya, cxi, cyi));
                        let (xa, ya) = choose|xa: int, ya: int|
                            sp_valid_xy(xa, ya) && cell_at(b_entry, xa, ya).component_id
                                == component_id && sp_adjacent(xa, ya, cxi, cyi);
                        assert(connected_cells(b0, x as int, y as int, xa, ya));
                        assert(cell_at(b0, cxi, cyi).exist) by {
                            assert(b_entry[ci as int].exist == b0[ci as int].exist);
                        }
                        assert(cell_at(b0, cxi, cyi).color == cell_at(
                            b0,
                            x as int,
                            y as int,
                        ).color) by {
                            assert(b_entry[ci as int].color == b0[ci as int].color);
                            assert(b0[i0 as int].color == color);
                        }
                        lemma_connected_step(b0, x as int, y as int, xa, ya, cxi, cyi);
                    }
                    assert(connected_cells(b0, x as int, y as int, cxi, cyi));
                    // every cell of the fresh component stays joined to the seed
                    assert forall|xj: int, yj: int|
                        #![trigger cell_at(bnow, xj, yj)]
                        sp_valid_xy(xj, yj) && cell_at(bnow, xj, yj).component_id == component_id
                        implies connected_cells(b0, x as int, y as int, xj, yj) by {
                        let j = cell_idx(xj, yj);
                        assert(cell_at(bnow, xj, yj) == bnow[j]);
                        if j == ci {
                            assert(xj == cxi && yj == cyi);
                        } else {
                            assert(bnow[j] == b_pre[j]);
                            assert(cell_at(b_entry, xj, yj) == b_pre[j]);
                        }
                    }
                    // every pending position has a labeled neighbor or is the seed
                    assert forall|k: int|
                        0 <= k < stack@.len() implies (#[trigger] stack@[k]) == (x, y) || exists|
                        xa: int,
                        ya: int,
                    |
                        sp_valid_xy(xa, ya) && cell_at(bnow, xa, ya).component_id == component_id
                            && sp_adjacent(xa, ya, stack@[k].0 as int, stack@[k].1 as int) by {
                        if k < s_pre.len() - 1 {
                            assert(stack@[k] == s_pre[k]);
                            if s_pre[k] != (x, y) {
                                let (xa, ya) = choose|xa: int, ya: int|
                                    sp_valid_xy(xa, ya) && cell_at(b_entry, xa, ya).component_id
                                        == component_id && sp_adjacent(
                                        xa,
                                        ya,
                                        s_pre[k].0 as int,
                                        s_pre[k].1 as int,
                                    );
                                let ja = cell_idx(xa, ya);
                                assert(cell_at(b_entry, xa, ya) == b_pre[ja]);
                                assert(ja != ci);
                                assert(cell_at(bnow, xa, ya) == bnow[ja]);
                                assert(bnow[ja] == b_pre[ja]);
                            }
                        } else {
                            // one of the four neighbors pushed this round
                            assert(cell_at(bnow, cxi, cyi).component_id == component_id);
                            assert(sp_valid_xy(cxi, cyi));
                            if cx >= 1 && stack@[k] == ((cx - 1) as usize, cy) {
                                assert(sp_adjacent(
                                    cxi,
                                    cyi,
                                    stack@[k].0 as int,
                                    stack@[k].1 as int,
                                ));
                            } else if cx + 1 < BOARD_W && stack@[k] == ((cx + 1) as usize, cy) {
                                assert(sp_adjacent(
                                    cxi,
                                    cyi,
                                    stack@[k].0 as int,
                                    stack@[k].1 as int,
                                ));
                            } else if cy >= 1 && stack@[k] == (cx, (cy - 1) as usize) {
                                assert(sp_adjacent(
                                    cxi,
                                    cyi,
                                    stack@[k].0 as int,
                                    stack@[k].1 as int,
                                ));
                            } else {
                                assert(cy + 1 < BOARD_H && stack@[k] == (cx, (cy + 1) as usize));
                                assert(sp_adjacent(
                                    cxi,
                                    cyi,
                                    stack@[k].0 as int,
                                    stack@[k].1 as int,
                                ));
                            }
                        }
                    }
                    assert(cell_at(bnow, cxi, cyi).component_id == component_id);
                    assert(b0[ci as int].component_id == -1);
                    // both-labeled closure
                    assert forall|x1: int, y1: int, x2: int, y2: int|
                        #![trigger cell_at(bnow, x1, y1), cell_at(bnow, x2, y2)]
                        sp_adjacent(x1, y1, x2, y2) && cell_at(bnow, x1, y1).exist && cell_at(
                        bnow,
                        x2,
                        y2,
                    ).exist && cell_at(bnow, x1, y1).color == cell_at(bnow, x2, y2).color
                        && cell_at(bnow, x1, y1).component_id >= 0 && cell_at(
                        bnow,
                        x2,
                        y2,
                    ).component_id >= 0 implies cell_at(bnow, x2, y2).component_id == cell_at(
                        bnow,
                        x1,
                        y1,
                    ).component_id by {
                        let j1 = cell_idx(x1, y1);
                        let j2 = cell_idx(x2, y2);
                        assert(cell_at(bnow, x1, y1) == bnow[j1]);
                        assert(cell_at(bnow, x2, y2) == bnow[j2]);
                        if j1 != ci && j2 != ci {
                            assert(cell_at(b_pre, x1, y1) == b_pre[j1]);
                            assert(cell_at(b_pre, x2, y2) == b_pre[j2]);
                            assert(bnow[j1] == b_pre[j1]);
                            assert(bnow[j2] == b_pre[j2]);
                        } else {
                            if j1 == ci && j2 != ci {
                                if bnow[j2].component_id != component_id {
                                    assert(bnow[j2].component_id == b0[j2].component_id);
                                    assert(cell_at(b0, x2, y2).component_id >= 0);
                                    assert(cell_at(b0, x1, y1).component_id == -1);
                                    assert(cell_at(b0, x2, y2).exist && cell_at(b0, x1, y1).exist);
                                    assert(cell_at(b0, x2, y2).color == cell_at(b0, x1, y1).color);
                                    assert(false);
                                }
                            }
                            if j2 == ci && j1 != ci {
                                if bnow[j1].component_id != component_id {
                                    assert(bnow[j1].component_id == b0[j1].component_id);
                                    assert(cell_at(b0, x1, y1).component_id >= 0);
                                    assert(cell_at(b0, x2, y2).component_id == -1);
                                    assert(false);
                                }
                            }
                        }
                    }
                    // unlabeled neighbors of labeled cells are pending
                    assert forall|x1: int, y1: int, x2: int, y2: int|
                        #![trigger cell_at(bnow, x1, y1), cell_at(bnow, x2, y2)]
                        sp_adjacent(x1, y1, x2, y2) && cell_at(bnow, x1, y1).exist && cell_at(
                        bnow,
                        x2,
                        y2,
                    ).exist && cell_at(bnow, x1, y1).color == cell_at(bnow, x2, y2).color
                        && cell_at(bnow, x1, y1).component_id >= 0 && cell_at(
                        bnow,
                        x2,
                        y2,
                    ).component_id == -1 implies stack@.contains(
                        ((x2 as usize, y2 as usize)),
                    ) by {
                        let j1 = cell_idx(x1, y1);
                        let j2 = cell_idx(x2, y2);
                        assert(cell_at(bnow, x1, y1) == bnow[j1]);
                        assert(cell_at(bnow, x2, y2) == bnow[j2]);
                        assert(j2 != ci);
                        assert(bnow[j2] == b_pre[j2]);
                        if j1 == ci {
                            assert(x1 == cxi && y1 == cyi);
                            if x2 == cxi - 1 {
                                assert(cx >= 1);
                                assert((x2 as usize, y2 as usize) == (((cx - 1) as usize, cy)));
                                assert(stack@.contains((((cx - 1) as usize, cy))));
                            } else if x2 == cxi + 1 {
                                assert(cx + 1 < BOARD_W);
                                assert(stack@.contains((((cx + 1) as usize, cy))));
                            } else if y2 == cyi - 1 {
                                assert(cy >= 1);
                                assert(stack@.contains(((cx, (cy - 1) as usize))));
                            } else {
                                assert(y2 == cyi + 1);
                                assert(cy + 1 < BOARD_H);
                                assert(stack@.contains(((cx, (cy + 1) as usize))));
                            }
                        } else {
                            assert(bnow[j1] == b_pre[j1]);
                            assert(cell_at(b_entry, x1, y1) == b_pre[j1]);
                            assert(cell_at(b_entry, x2, y2) == b_pre[j2]);
                            assert(s_pre.contains(((x2 as usize, y2 as usize))));
                            let k = choose|k: int|
                                0 <= k < s_pre.len() && s_pre[k] == (x2 as usize, y2 as usize);
                            if k < s_pre.len() - 1 {
                                assert(stack@[k] == s_pre[k]);
                                assert(stack@.contains(((x2 as usize, y2 as usize))));
                            } else {
                                assert(cur == (x2 as usize, y2 as usize));
                                assert(ci == j2);
                                assert(false);
                            }
                        }
                    }
                }
            }
            proof {
                if self.board@ == b_entry {
                    // nothing was labeled this round: the popped cell was
                    // already labeled, missing, or of another color
                    let bnow = self.board@;
                    assert forall|k: int|
                        0 <= k < stack@.len() implies (#[trigger] stack@[k]) == (x, y) || exists|
                        xa: int,
                        ya: int,
                    |
                        sp_valid_xy(xa, ya) && cell_at(bnow, xa, ya).component_id == component_id
                            && sp_adjacent(xa, ya, stack@[k].0 as int, stack@[k].1 as int) by {
                        assert(stack@[k] == s_pre[k]);
                    }
                    assert forall|x1: int, y1: int, x2: int, y2: int|
                        #![trigger cell_at(bnow, x1, y1), cell_at(bnow, x2, y2)]
                        sp_adjacent(x1, y1, x2, y2) && cell_at(bnow, x1, y1).exist && cell_at(
                        bnow,
                        x2,
                        y2,
                    ).exist && cell_at(bnow, x1, y1).color == cell_at(bnow, x2, y2).color
                        && cell_at(bnow, x1, y1).component_id >= 0 && cell_at(
                        bnow,
                        x2,
                        y2,
                    ).component_id == -1 implies stack@.contains(
                        ((x2 as usize, y2 as usize)),
                    ) by {
                        let j1 = cell_idx(x1, y1);
                        let j2 = cell_idx(x2, y2);
                        assert(cell_at(bnow, x1, y1) == bnow[j1]);
                        assert(cell_at(bnow, x2, y2) == bnow[j2]);
                        assert(s_pre.contains(((x2 as usize, y2 as usize))));
                        let k = choose|k: int|
                            0 <= k < s_pre.len() && s_pre[k] == (x2 as usize, y2 as usize);
                        if k < s_pre.len() - 1 {
                            assert(stack@[k] == s_pre[k]);
                            assert(stack@.contains(((x2 as usize, y2 as usize))));
                        } else {
                            // the popped cell itself: it was unlabeled, alive
                            // and same-colored, so the branch would have
                            // labeled it
                            assert(cur == (x2 as usize, y2 as usize));
                            assert(ci == j2);
                            assert(bnow[j2].component_id == -1);
                            assert(bnow[j2].exist);
                            if bnow[j1].component_id == component_id {
                                assert(bnow[j1].color == color);
                                assert(bnow[j2].color == color);
                                assert(false);
                            } else {
                                assert(bnow[j1].component_id == b0[j1].component_id);
                                assert(cell_at(b0, x1, y1).component_id >= 0);
                                assert(cell_at(b0, x2, y2).component_id == b0[j2].component_id);
                                assert(b0[j2].component_id == -1);
                                assert(false);
                            }
                        }
                    }
                }
                if self.board@[i0 as int].component_id < 0 {
                    assert(b_entry[i0 as int].component_id < 0);
                    assert(s_pre.contains((x, y)));
                    let k = choose|k: int| 0 <= k < s_pre.len() && s_pre[k] == (x, y);
                    if k == s_pre.len() - 1 {
                        assert(cur == (x, y));
                        assert(ci == i0);
                        assert(b_entry[i0 as int].exist);
                        assert(b_entry[i0 as int].color == color);
                        assert(self.board@[i0 as int].component_id == component_id);
                        assert(false);
                    } else {
                        assert(stack@[k] == (x, y));
                        assert(stack@.contains((x, y)));
                    }
                }
            }
        }
    }

    /// Rebuilds the component labeling and the component map from scratch:
    /// every cell's id is reset, then each cell in turn seeds a flood fill
    /// with a fresh id. Afterwards every existing cell carries an id and the
    /// map gives each id's exact member count.
    pub fn update_components(&mut self)
        requires
            old(self).board@.len() == board_size(),
        ensures
            final(self).board@.len() == board_size(),
            same_shape(old(self).board@, final(self).board@),
            labeled(final(self).board@, final(self).connected_counts@),
            scalars_fixed(*old(self), *final(self)),
    {
        self.connected_counts = std::collections::HashMap::new();
        let mut i: usize = 0;
        while i < BOARD_W * BOARD_H
            invariant
                i <= board_size(),
                self.board@.len() == board_size(),
                old(self).board@.len() == board_size(),
                same_shape(old(self).board@, self.board@),
                forall|j: int| 0 <= j < i ==> (#[trigger] self.board@[j]).component_id == -1,
                forall|j: int|
                    i <= j < board_size() ==> (#[trigger] self.board@[j]).component_id
                        == old(self).board@[j].component_id,
                self.connected_counts@ == Map::<i32, i32>::empty(),
                scalars_fixed(*old(self), *self),
                self.seed == old(self).seed,
                self.rng == old(self).rng,
            decreases board_size() - i,
        {
            let mut c = self.board[i];
            c.component_id = -1;
            self.board.set(i, c);
            i += 1;
        }
        let ghost b1 = self.board@;
        proof {
            assert forall|x1: int, y1: int, x2: int, y2: int|
                #![trigger cell_at(b1, x1, y1), cell_at(b1, x2, y2)]
                sp_adjacent(x1, y1, x2, y2) implies cell_at(b1, x1, y1).component_id == -1 by {
                assert(cell_at(b1, x1, y1) == b1[cell_idx(x1, y1)]);
            }
            assert(components_closed(b1));
            assert(components_connected(b1));
        }
        let mut component_id: i32 = 0;
        let mut sx: usize = 0;
        while sx < BOARD_W
            invariant
                sx <= BOARD_W,
                component_id as int == sx * BOARD_H,
                self.board@.len() == board_size(),
                old(self).board@.len() == board_size(),
                same_shape(old(self).board@, self.board@),
                lab_inv(self.board@, self.connected_counts@),
                components_closed(self.board@),
                components_connected(self.board@),
                forall|id: i32| #[trigger]
                    self.connected_counts@.contains_key(id) ==> id < component_id,
                forall|j: int|
                    0 <= j < board_size() ==> (#[trigger] self.board@[j]).component_id
                        < component_id,
                forall|j: int|
                    0 <= j < component_id && (#[trigger] self.board@[j]).exist
                        ==> self.board@[j].component_id >= 0,
                scalars_fixed(*old(self), *self),
                self.seed == old(self).seed,
                self.rng == old(self).rng,
            decreases BOARD_W - sx,
        {
            let mut sy: usize = 0;
            while sy < BOARD_H
                invariant
                    sx < BOARD_W,
                    sy <= BOARD_H,
                    component_id as int == sx * BOARD_H + sy,
                    self.board@.len() == board_size(),
                    old(self).board@.len() == board_size(),
                    same_shape(old(self).board@, self.board@),
                    lab_inv(self.board@, self.connected_counts@),
                    components_closed(self.board@),
                    components_connected(self.board@),
                    forall|id: i32| #[trigger]
                        self.connected_counts@.contains_key(id) ==> id < component_id,
                    forall|j: int|
                        0 <= j < board_size() ==> (#[trigger] self.board@[j]).component_id
                            < component_id,
                    forall|j: int|
                        0 <= j < component_id && (#[trigger] self.board@[j]).exist
                            ==> self.board@[j].component_id >= 0,
                    scalars_fixed(*old(self), *self),
                    self.seed == old(self).seed,
                    self.rng == old(self).rng,
                decreases BOARD_H - sy,
            {
                let ghost b_call = self.board@;
                self.set_component_id(sx, sy, component_id);
                proof {
                    let b_now = self.board@;
                    assert forall|x1: int, y1: int, x2: int, y2: int|
                        #![trigger cell_at(b_now, x1, y1), cell_at(b_now, x2, y2)]
                        crate::grid::sp_valid_xy(x1, y1) && crate::grid::sp_valid_xy(x2, y2)
                            && cell_at(b_now, x1, y1).component_id >= 0 && cell_at(
                        b_now,
                        x1,
                        y1,
                    ).component_id == cell_at(b_now, x2, y2).component_id implies connected_cells(
                        b_now,
                        x1,
                        y1,
                        x2,
                        y2,
                    ) by {
                        let j1 = cell_idx(x1, y1);
                        let j2 = cell_idx(x2, y2);
                        assert(cell_at(b_now, x1, y1) == b_now[j1]);
                        assert(cell_at(b_now, x2, y2) == b_now[j2]);
                        if cell_at(b_now, x1, y1).component_id == component_id {
                            assert(connected_cells(b_call, sx as int, sy as int, x1, y1));
                            assert(connected_cells(b_call, sx as int, sy as int, x2, y2));
                            lemma_connected_sym(b_call, sx as int, sy as int, x1, y1);
                            lemma_connected_trans(b_call, x1, y1, sx as int, sy as int, x2, y2);
                            lemma_connected_same_shape(b_call, b_now, x1, y1, x2, y2);
                        } else {
                            assert(b_now[j1].component_id == b_call[j1].component_id);
                            assert(b_now[j2].component_id == b_call[j2].component_id);
                            assert(cell_at(b_call, x1, y1) == b_call[j1]);
                            assert(cell_at(b_call, x2, y2) == b_call[j2]);
                            assert(connected_cells(b_call, x1, y1, x2, y2));
                            lemma_connected_same_shape(b_call, b_now, x1, y1, x2, y2);
                        }
                    }
                }
                component_id = component_id + 1;
                sy += 1;
            }
            sx += 1;
        }
    }
}

} // verus!
