use vstd::prelude::*;

use vstd::pervasive::VecAdditionalExecFns;

use crate::game::Game;
use crate::grid::board_size;
use crate::grid::cell_at;
use crate::grid::cell_idx;
use crate::grid::col_empty;
use crate::grid::col_seq;
use crate::grid::col_sorted;
use crate::grid::lemma_mark_count_bounds;
use crate::grid::lemma_mark_count_concat;
use crate::grid::lemma_mark_count_replace_segment;
use crate::grid::lemma_mark_count_zero;
use crate::grid::mark_count;
use crate::grid::marked;
use crate::grid::Cell;
use crate::grid::BOARD_H;
use crate::grid::BOARD_W;
use crate::grid::COLORS_COUNT;

verus! {

/// The existing cells of a column, in their top-to-bottom order.
pub open spec fn live_cells(s: Seq<Cell>) -> Seq<Cell>
    decreases s.len(),
{
    if s.len() == 0 {
        Seq::empty()
    } else if s.first().exist {
        seq![s.first()] + live_cells(s.drop_first())
    } else {
        live_cells(s.drop_first())
    }
}

pub proof fn lemma_live_cells_push(s: Seq<Cell>, c: Cell)
    ensures
        live_cells(s.push(c)) == if c.exist {
            live_cells(s).push(c)
        } else {
            live_cells(s)
        },
    decreases s.len(),
{
    if s.len() == 0 {
        let p = s.push(c);
        assert(p.first() == c);
        assert(p.drop_first() =~= Seq::<Cell>::empty());
        assert(live_cells(Seq::<Cell>::empty()) == Seq::<Cell>::empty());
        if c.exist {
            assert(seq![c] + Seq::<Cell>::empty() =~= seq![c]);
            assert(live_cells(s).push(c) =~= seq![c]);
        }
    } else {
        assert(s.push(c).drop_first() =~= s.drop_first().push(c));
        lemma_live_cells_push(s.drop_first(), c);
        if c.exist {
            assert(seq![s.first()] + live_cells(s.drop_first()).push(c) =~= (seq![s.first()]
                + live_cells(s.drop_first())).push(c));
        }
    }
}

/// The survivors all exist, their colors come from the column, and there are
/// exactly `mark_count(s, -1)` of them, with every per-color count kept.
pub proof fn lemma_live_cells_facts(s: Seq<Cell>)
    ensures
        live_cells(s).len() == mark_count(s, -1),
        forall|i: int| 0 <= i < live_cells(s).len() ==> (#[trigger] live_cells(s)[i]).exist,
        forall|col: int| mark_count(live_cells(s), col) == mark_count(s, col),
    decreases s.len(),
{
    if s.len() == 0 {
        assert forall|col: int| mark_count(live_cells(s), col) == mark_count(s, col) by {
            assert(live_cells(s) == Seq::<Cell>::empty());
            assert(mark_count(Seq::<Cell>::empty(), col) == 0);
        }
    } else {
        lemma_live_cells_facts(s.drop_first());
        if !s.first().exist {
            assert forall|col: int| mark_count(live_cells(s), col) == mark_count(s, col) by {
                assert(live_cells(s) == live_cells(s.drop_first()));
                assert(mark_count(live_cells(s.drop_first()), col) == mark_count(
                    s.drop_first(),
                    col,
                ));
                assert(mark_count(s, col) == mark_count(s.drop_first(), col));
            }
        }
        if s.first().exist {
            assert forall|col: int| mark_count(live_cells(s), col) == mark_count(s, col) by {
                assert(live_cells(s) == seq![s.first()] + live_cells(s.drop_first()));
                lemma_mark_count_concat(seq![s.first()], live_cells(s.drop_first()), col);
                assert(seq![s.first()].drop_first() =~= Seq::<Cell>::empty());
                assert(mark_count(Seq::<Cell>::empty(), col) == 0);
                assert(seq![s.first()].first() == s.first());
                assert(mark_count(seq![s.first()], col) == if marked(s.first(), col) {
                    1int
                } else {
                    0int
                });
                assert(mark_count(live_cells(s.drop_first()), col) == mark_count(
                    s.drop_first(),
                    col,
                ));
            }
            assert forall|i: int|
                0 <= i < live_cells(s).len() implies (#[trigger] live_cells(s)[i]).exist by {
                if i > 0 {
                    assert(live_cells(s)[i] == live_cells(s.drop_first())[i - 1]);
                }
            }
        }
    }
}

impl Game {
    /// Whether column x holds no tile.
    pub fn is_empty_column(&self, x: usize) -> (r: bool)
        requires
            self.board@.len() == board_size(),
            x < BOARD_W,
        ensures
            r == col_empty(self.board@, x as int),
    {
        let base = x * BOARD_H;
        let mut y: usize = 0;
        while y < BOARD_H
            invariant
                y <= BOARD_H,
                x < BOARD_W,
                base == x * BOARD_H,
                self.board@.len() == board_size(),
                forall|y2: int| 0 <= y2 < y ==> !cell_at(self.board@, x as int, y2).exist,
            decreases BOARD_H - y,
        {
            if self.board[base + y].exist {
                proof {
                    assert(cell_at(self.board@, x as int, y as int).exist);
                }
                return false;
            }
            y += 1;
        }
        true
    }

    /// Copies the full contents of column src_x over column dest_x.
    pub fn copy_column(&mut self, src_x: usize, dest_x: usize)
        requires
            old(self).board@.len() == board_size(),
            src_x < BOARD_W,
            dest_x < BOARD_W,
        ensures
            final(self).board@.len() == board_size(),
            forall|j: int|
                0 <= j < board_size() && !(dest_x * BOARD_H <= j < (dest_x + 1) * BOARD_H)
                    ==> final(self).board@[j] == old(self).board@[j],
            forall|y: int|
                0 <= y < BOARD_H ==> cell_at(final(self).board@, dest_x as int, y) == cell_at(
                    old(self).board@,
                    src_x as int,
                    y,
                ),
            final(self).connected_counts == old(self).connected_counts,
            final(self).score == old(self).score,
            final(self).rng == old(self).rng,
            final(self).seed == old(self).seed,
            final(self).is_over == old(self).is_over,
            final(self).is_clear == old(self).is_clear,
            final(self).hover_score == old(self).hover_score,
            final(self).hover_connected_count == old(self).hover_connected_count,
            final(self).hover_component_id == old(self).hover_component_id,
    {
        let src = src_x * BOARD_H;
        let dest = dest_x * BOARD_H;
        let mut y: usize = 0;
        while y < BOARD_H
            invariant
                y <= BOARD_H,
                src_x < BOARD_W,
                dest_x < BOARD_W,
                src == src_x * BOARD_H,
                dest == dest_x * BOARD_H,
                self.board@.len() == board_size(),
                forall|j: int|
                    0 <= j < board_size() && !(dest <= j < dest + BOARD_H) ==> self.board@[j]
                        == old(self).board@[j],
                forall|y2: int|
                    0 <= y2 < y ==> cell_at(self.board@, dest_x as int, y2) == cell_at(
                        old(self).board@,
                        src_x as int,
                        y2,
                    ),
                forall|y2: int|
                    y <= y2 < BOARD_H ==> cell_at(self.board@, dest_x as int, y2) == cell_at(
                        old(self).board@,
                        dest_x as int,
                        y2,
                    ),
                self.connected_counts == old(self).connected_counts,
                self.score == old(self).score,
                self.rng == old(self).rng,
                self.seed == old(self).seed,
                self.is_over == old(self).is_over,
                self.is_clear == old(self).is_clear,
                self.hover_score == old(self).hover_score,
                self.hover_connected_count == old(self).hover_connected_count,
                self.hover_component_id == old(self).hover_component_id,
            decreases BOARD_H - y,
        {
            let ghost b_pre = self.board@;
            let c = self.board[src + y];
            self.board.set(dest + y, c);
            proof {
                assert(c == cell_at(b_pre, src_x as int, y as int));
                assert(cell_at(self.board@, dest_x as int, y as int) == c);
                assert(forall|y2: int|
                    0 <= y2 < BOARD_H && y2 != y ==> cell_at(self.board@, dest_x as int, y2)
                        == cell_at(b_pre, dest_x as int, y2));
            }
            y += 1;
        }
    }

    /// Gravity for one column: the surviving tiles settle onto the bottom
    /// rows in their original relative order, and the vacated rows above
    /// lose their tiles.
    pub(crate) fn drop_column(&mut self, x: usize)
        requires
            old(self).board@.len() == board_size(),
            x < BOARD_W,
            forall|j: int|
                0 <= j < board_size() ==> 0 <= (#[trigger] old(self).board@[j]).color
                    < COLORS_COUNT,
        ensures
            final(self).board@.len() == board_size(),
            forall|j: int|
                0 <= j < board_size() && !(x * BOARD_H <= j < (x + 1) * BOARD_H)
                    ==> final(self).board@[j] == old(self).board@[j],
            forall|j: int|
                0 <= j < board_size() ==> 0 <= (#[trigger] final(self).board@[j]).color
                    < COLORS_COUNT,
            forall|y: int|
                0 <= y < BOARD_H - mark_count(col_seq(old(self).board@, x as int), -1)
                    ==> !cell_at(final(self).board@, x as int, y).exist,
            forall|y: int|
                BOARD_H - mark_count(col_seq(old(self).board@, x as int), -1) <= y < BOARD_H
                    ==> cell_at(final(self).board@, x as int, y) == live_cells(
                    col_seq(old(self).board@, x as int),
                )[y - (BOARD_H - mark_count(col_seq(old(self).board@, x as int), -1))],
            col_sorted(final(self).board@, x as int),
            forall|col: int|
                #[trigger] mark_count(final(self).board@, col) == mark_count(
                    old(self).board@,
                    col,
                ),
            final(self).connected_counts == old(self).connected_counts,
            crate::game::scalars_fixed(*old(self), *final(self)),
    {
        let base = x * BOARD_H;
        let ghost b0 = self.board@;
        let ghost oldcol = col_seq(b0, x as int);
        let mut surv: Vec<Cell> = Vec::new();
        let mut y: usize = 0;
        while y < BOARD_H
            invariant
                y <= BOARD_H,
                x < BOARD_W,
                base == x * BOARD_H,
                self.board@ == b0,
                b0.len() == board_size(),
                surv@ == live_cells(b0.subrange(base as int, base as int + y as int)),
                forall|k: int|
                    0 <= k < surv@.len() ==> 0 <= (#[trigger] surv@[k]).color < COLORS_COUNT,
                forall|j: int|
                    0 <= j < board_size() ==> 0 <= (#[trigger] b0[j]).color < COLORS_COUNT,
            decreases BOARD_H - y,
        {
            let c = self.board[base + y];
            proof {
                assert(b0.subrange(base as int, base as int + y as int + 1) =~= b0.subrange(
                    base as int,
                    base as int + y as int,
                ).push(c));
                lemma_live_cells_push(b0.subrange(base as int, base as int + y as int), c);
            }
            if c.exist {
                surv.push(c);
            }
            y += 1;
        }
        proof {
            assert(b0.subrange(base as int, base as int + BOARD_H as int) =~= oldcol);
            lemma_live_cells_facts(oldcol);
            lemma_mark_count_bounds(oldcol, -1);
        }
        let n = surv.len();
        let blanks = BOARD_H - n;
        let mut newcol: Vec<Cell> = Vec::new();
        let mut yy: usize = 0;
        while yy < blanks
            invariant
                yy <= blanks,
                blanks == BOARD_H - n,
                n == surv@.len(),
                n <= BOARD_H,
                x < BOARD_W,
                base == x * BOARD_H,
                self.board@ == b0,
                b0.len() == board_size(),
                newcol@.len() == yy,
                forall|k: int|
                    0 <= k < yy ==> !(#[trigger] newcol@[k]).exist && newcol@[k].color == cell_at(
                        b0,
                        x as int,
                        k,
                    ).color,
            decreases blanks - yy,
        {
            let mut c = self.board[base + yy];
            c.exist = false;
            newcol.push(c);
            proof {
                assert(newcol@[yy as int] == c);
                assert(c.color == cell_at(b0, x as int, yy as int).color);
            }
            yy += 1;
        }
        let mut k: usize = 0;
        while k < n
            invariant
                k <= n,
                blanks == BOARD_H - n,
                n == surv@.len(),
                n <= BOARD_H,
                x < BOARD_W,
                base == x * BOARD_H,
                self.board@ == b0,
                b0.len() == board_size(),
                newcol@.len() == blanks + k,
                forall|k2: int|
                    0 <= k2 < blanks ==> !(#[trigger] newcol@[k2]).exist && newcol@[k2].color
                        == cell_at(b0, x as int, k2).color,
                forall|k2: int|
                    blanks <= k2 < blanks + k ==> (#[trigger] newcol@[k2]) == surv@[k2 - blanks],
                forall|k2: int|
                    0 <= k2 < surv@.len() ==> 0 <= (#[trigger] surv@[k2]).color < COLORS_COUNT,
            decreases n - k,
        {
            let c = surv[k];
            newcol.push(c);
            proof {
                assert(newcol@[blanks + k as int] == c);
            }
            k += 1;
        }
        let mut y2: usize = 0;
        while y2 < BOARD_H
            invariant
                y2 <= BOARD_H,
                blanks == BOARD_H - n,
                n == surv@.len(),
                n <= BOARD_H,
                x < BOARD_W,
                base == x * BOARD_H,
                b0 == old(self).board@,
                oldcol == col_seq(b0, x as int),
                surv@ == live_cells(oldcol),
                newcol@.len() == BOARD_H,
                forall|k2: int|
                    0 <= k2 < blanks ==> !(#[trigger] newcol@[k2]).exist && newcol@[k2].color
                        == cell_at(b0, x as int, k2).color,
                forall|k2: int|
                    blanks <= k2 < BOARD_H ==> (#[trigger] newcol@[k2]) == surv@[k2 - blanks],
                forall|k2: int|
                    0 <= k2 < surv@.len() ==> 0 <= (#[trigger] surv@[k2]).color < COLORS_COUNT,
                self.board@.len() == board_size(),
                forall|j: int|
                    0 <= j < board_size() && !(base <= j < base + BOARD_H) ==> self.board@[j] == b0[
                        j
                    ],
                forall|yy2: int|
                    0 <= yy2 < y2 ==> cell_at(self.board@, x as int, yy2) == newcol@[yy2],
                forall|yy2: int|
                    y2 <= yy2 < BOARD_H ==> cell_at(self.board@, x as int, yy2) == cell_at(
                        b0,
                        x as int,
                        yy2,
                    ),
                forall|j: int|
                    0 <= j < board_size() ==> 0 <= (#[trigger] b0[j]).color < COLORS_COUNT,
                self.connected_counts == old(self).connected_counts,
                crate::game::scalars_fixed(*old(self), *self),
            decreases BOARD_H - y2,
        {
            let ghost b_pre = self.board@;
            let c = newcol[y2];
            self.board.set(base + y2, c);
            proof {
                assert(cell_at(self.board@, x as int, y2 as int) == c);
                assert(forall|yy2: int|
                    0 <= yy2 < BOARD_H && yy2 != y2 ==> cell_at(self.board@, x as int, yy2)
                        == cell_at(b_pre, x as int, yy2));
            }
            y2 += 1;
        }
        proof {
            let bf = self.board@;
            lemma_live_cells_facts(oldcol);
            assert(n == mark_count(oldcol, -1));
            assert forall|yy2: int|
                0 <= yy2 < BOARD_H implies cell_at(bf, x as int, yy2) == newcol@[yy2] by {}
            assert forall|col: int| #[trigger]
                mark_count(bf, col) == mark_count(b0, col) by {
                lemma_mark_count_replace_segment(
                    b0,
                    bf,
                    base as int,
                    base as int + BOARD_H as int,
                    col,
                );
                let newseg = bf.subrange(base as int, base as int + BOARD_H as int);
                let blankseg = newseg.subrange(0, blanks as int);
                let survseg = newseg.subrange(blanks as int, BOARD_H as int);
                assert(newseg =~= blankseg + survseg);
                lemma_mark_count_concat(blankseg, survseg, col);
                assert forall|k2: int|
                    0 <= k2 < blankseg.len() implies !(#[trigger] blankseg[k2]).exist by {
                    assert(blankseg[k2] == bf[base + k2]);
                    assert(bf[base + k2] == cell_at(bf, x as int, k2));
                    assert(cell_at(bf, x as int, k2) == newcol@[k2]);
                }
                lemma_mark_count_zero(blankseg, col);
                assert forall|k2: int|
                    0 <= k2 < survseg.len() implies (#[trigger] survseg[k2]) == live_cells(
                    oldcol,
                )[k2] by {
                    assert(survseg[k2] == bf[base + blanks + k2]);
                    assert(bf[base + blanks + k2] == cell_at(bf, x as int, blanks + k2));
                    assert(cell_at(bf, x as int, blanks + k2) == newcol@[blanks + k2]);
                    assert(newcol@[blanks + k2] == surv@[k2]);
                }
                assert(survseg =~= live_cells(oldcol));
                assert(b0.subrange(base as int, base as int + BOARD_H as int) =~= oldcol);
            }
            assert forall|y1: int, y3: int|
                0 <= y1 < y3 < BOARD_H && cell_at(bf, x as int, y1).exist implies cell_at(
                bf,
                x as int,
                y3,
            ).exist by {
                assert(cell_at(bf, x as int, y1) == newcol@[y1]);
                assert(cell_at(bf, x as int, y3) == newcol@[y3]);
                if y1 >= blanks {
                    assert(newcol@[y3] == surv@[y3 - blanks]);
                    assert(surv@[y3 - blanks] == live_cells(oldcol)[y3 - blanks]);
                    assert(live_cells(oldcol)[y3 - blanks].exist);
                }
            }
            assert forall|j: int|
                0 <= j < board_size() implies 0 <= (#[trigger] bf[j]).color < COLORS_COUNT by {
                if base <= j < base + BOARD_H {
                    let yy2 = j - base;
                    assert(bf[j] == cell_at(bf, x as int, yy2));
                    assert(cell_at(bf, x as int, yy2) == newcol@[yy2]);
                    if yy2 < blanks {
                        assert(newcol@[yy2].color == cell_at(b0, x as int, yy2).color);
                        assert(cell_at(b0, x as int, yy2) == b0[j]);
                    } else {
                        assert(newcol@[yy2] == surv@[yy2 - blanks]);
                        assert(0 <= surv@[yy2 - blanks].color < COLORS_COUNT);
                    }
                } else {
                    assert(bf[j] == b0[j]);
                }
            }
        }
    }

    /// Clears a whole column: every cell of it loses its tile.
    pub fn set_column_not_exist(&mut self, x: usize)
        requires
            old(self).board@.len() == board_size(),
            x < BOARD_W,
        ensures
            final(self).board@.len() == board_size(),
            forall|j: int|
                0 <= j < board_size() && !(x * BOARD_H <= j < (x + 1) * BOARD_H)
                    ==> final(self).board@[j] == old(self).board@[j],
            forall|y: int|
                0 <= y < BOARD_H ==> !cell_at(final(self).board@, x as int, y).exist && cell_at(
                    final(self).board@,
                    x as int,
                    y,
                ).color == cell_at(old(self).board@, x as int, y).color,
            final(self).connected_counts == old(self).connected_counts,
            final(self).score == old(self).score,
            final(self).rng == old(self).rng,
            final(self).seed == old(self).seed,
            final(self).is_over == old(self).is_over,
            final(self).is_clear == old(self).is_clear,
            final(self).hover_score == old(self).hover_score,
            final(self).hover_connected_count == old(self).hover_connected_count,
            final(self).hover_component_id == old(self).hover_component_id,
    {
        let base = x * BOARD_H;
        let mut y: usize = 0;
        while y < BOARD_H
            invariant
                y <= BOARD_H,
                x < BOARD_W,
                base == x * BOARD_H,
                self.board@.len() == board_size(),
                forall|j: int|
                    0 <= j < board_size() && !(base <= j < base + BOARD_H) ==> self.board@[j]
                        == old(self).board@[j],
                forall|y2: int|
                    0 <= y2 < y ==> !cell_at(self.board@, x as int, y2).exist && cell_at(
                        self.board@,
                        x as int,
                        y2,
                    ).color == cell_at(old(self).board@, x as int, y2).color && cell_at(
                        self.board@,
                        x as int,
                        y2,
                    ).component_id == cell_at(old(self).board@, x as int, y2).component_id,
                forall|y2: int|
                    y <= y2 < BOARD_H ==> cell_at(self.board@, x as int, y2) == cell_at(
                        old(self).board@,
                        x as int,
                        y2,
                    ),
                self.connected_counts == old(self).connected_counts,
                self.score == old(self).score,
                self.rng == old(self).rng,
                self.seed == old(self).seed,
                self.is_over == old(self).is_over,
                self.is_clear == old(self).is_clear,
                self.hover_score == old(self).hover_score,
                self.hover_connected_count == old(self).hover_connected_count,
                self.hover_component_id == old(self).hover_component_id,
            decreases BOARD_H - y,
        {
            let ghost b_pre = self.board@;
            let mut c = self.board[base + y];
            c.exist = false;
            self.board.set(base + y, c);
            proof {
                assert(cell_at(self.board@, x as int, y as int) == c);
                assert(!c.exist && c.color == cell_at(b_pre, x as int, y as int).color
                    && c.component_id == cell_at(b_pre, x as int, y as int).component_id);
                assert forall|y2: int|
                    0 <= y2 < y + 1 implies !cell_at(self.board@, x as int, y2).exist && cell_at(
                    self.board@,
                    x as int,
                    y2,
                ).color == cell_at(old(self).board@, x as int, y2).color && cell_at(
                    self.board@,
                    x as int,
                    y2,
                ).component_id == cell_at(old(self).board@, x as int, y2).component_id by {
                    if y2 < y {
                        assert(cell_at(self.board@, x as int, y2) == cell_at(b_pre, x as int, y2));
                        assert(!cell_at(b_pre, x as int, y2).exist);
                    } else {
                        assert(y2 == y);
                        assert(cell_at(b_pre, x as int, y as int) == cell_at(
                            old(self).board@,
                            x as int,
                            y as int,
                        ));
                    }
                }
            }
            y += 1;
        }
    }
}

/// The indices of the non-empty columns among the first `upto` columns, in
/// left-to-right order.
pub open spec fn live_col_idxs(b: Seq<Cell>, upto: int) -> Seq<int>
    decreases upto,
{
    if upto <= 0 {
        Seq::empty()
    } else if col_empty(b, upto - 1) {
        live_col_idxs(b, upto - 1)
    } else {
        live_col_idxs(b, upto - 1).push(upto - 1)
    }
}

/// Sum over the listed columns of the cells matching `col`.
pub open spec fn src_marks(b: Seq<Cell>, idxs: Seq<int>, col: int) -> int
    decreases idxs.len(),
{
    if idxs.len() == 0 {
        0
    } else {
        mark_count(col_seq(b, idxs.first()), col) + src_marks(b, idxs.drop_first(), col)
    }
}

pub proof fn lemma_src_marks_push(b: Seq<Cell>, idxs: Seq<int>, e: int, col: int)
    ensures
        src_marks(b, idxs.push(e), col) == src_marks(b, idxs, col) + mark_count(
            col_seq(b, e),
            col,
        ),
    decreases idxs.len(),
{
    if idxs.len() == 0 {
        assert(idxs.push(e).first() == e);
        assert(idxs.push(e).drop_first() =~= Seq::<int>::empty());
        assert(src_marks(b, Seq::<int>::empty(), col) == 0);
    } else {
        assert(idxs.push(e).first() == idxs.first());
        assert(idxs.push(e).drop_first() =~= idxs.drop_first().push(e));
        lemma_src_marks_push(b, idxs.drop_first(), e, col);
    }
}

pub proof fn lemma_live_col_idxs_facts(b: Seq<Cell>, upto: int)
    requires
        0 <= upto,
    ensures
        live_col_idxs(b, upto).len() <= upto,
        forall|t: int|
            0 <= t < live_col_idxs(b, upto).len() ==> 0 <= #[trigger] live_col_idxs(b, upto)[t]
                < upto,
    decreases upto,
{
    if upto > 0 {
        lemma_live_col_idxs_facts(b, upto - 1);
    }
}

/// The marks of a board prefix are the sum of the marks of its non-empty
/// columns: an empty column contributes nothing.
pub proof fn lemma_src_marks_total(b: Seq<Cell>, upto: int, col: int)
    requires
        b.len() == board_size(),
        0 <= upto <= BOARD_W,
    ensures
        src_marks(b, live_col_idxs(b, upto), col) == mark_count(b.subrange(0, upto * BOARD_H), col),
    decreases upto,
{
    if upto == 0 {
        assert(b.subrange(0, 0) =~= Seq::<Cell>::empty());
    } else {
        lemma_src_marks_total(b, upto - 1, col);
        assert(b.subrange(0, upto * BOARD_H) =~= b.subrange(0, (upto - 1) * BOARD_H) + col_seq(
            b,
            upto - 1,
        ));
        lemma_mark_count_concat(b.subrange(0, (upto - 1) * BOARD_H), col_seq(b, upto - 1), col);
        if col_empty(b, upto - 1) {
            assert forall|k: int|
                0 <= k < col_seq(b, upto - 1).len() implies !(#[trigger] col_seq(b, upto - 1)[
                k
            ]).exist by {
                assert(col_seq(b, upto - 1)[k] == cell_at(b, upto - 1, k));
            }
            lemma_mark_count_zero(col_seq(b, upto - 1), col);
        } else {
            lemma_src_marks_push(b, live_col_idxs(b, upto - 1), upto - 1, col);
        }
    }
}

impl Game {
    /// Marks every cell of the component `cid` as removed; nothing else of
    /// any cell changes.
    fn remove_component(&mut self, cid: i32)
        requires
            old(self).board@.len() == board_size(),
        ensures
            final(self).board@.len() == board_size(),
            forall|j: int|
                0 <= j < board_size() ==> (#[trigger] final(self).board@[j]).color == old(
                    self,
                ).board@[j].color && final(self).board@[j].component_id == old(self).board@[
                    j
                ].component_id,
            forall|j: int|
                0 <= j < board_size() ==> (#[trigger] final(self).board@[j]).exist == (old(
                    self,
                ).board@[j].exist && old(self).board@[j].component_id != cid),
            final(self).connected_counts == old(self).connected_counts,
            crate::game::scalars_fixed(*old(self), *final(self)),
    {
        let mut i: usize = 0;
        while i < BOARD_W * BOARD_H
            invariant
                i <= board_size(),
                self.board@.len() == board_size(),
                old(self).board@.len() == board_size(),
                forall|j: int|
                    0 <= j < board_size() ==> (#[trigger] self.board@[j]).color == old(
                        self,
                    ).board@[j].color && self.board@[j].component_id == old(self).board@[
                        j
                    ].component_id,
                forall|j: int|
                    0 <= j < i ==> (#[trigger] self.board@[j]).exist == (old(self).board@[j].exist
                        && old(self).board@[j].component_id != cid),
                forall|j: int|
                    i <= j < board_size() ==> (#[trigger] self.board@[j]).exist == old(
                        self,
                    ).board@[j].exist,
                self.connected_counts == old(self).connected_counts,
                crate::game::scalars_fixed(*old(self), *self),
            decreases board_size() - i,
        {
            if self.board[i].component_id == cid {
                let mut c = self.board[i];
                c.exist = false;
                self.board.set(i, c);
            }
            i += 1;
        }
    }

    /// Gravity over the whole board: every column settles.
    fn apply_gravity(&mut self)
        requires
            old(self).board@.len() == board_size(),
            forall|j: int|
                0 <= j < board_size() ==> 0 <= (#[trigger] old(self).board@[j]).color
                    < COLORS_COUNT,
        ensures
            final(self).board@.len() == board_size(),
            forall|j: int|
                0 <= j < board_size() ==> 0 <= (#[trigger] final(self).board@[j]).color
                    < COLORS_COUNT,
            forall|col: int|
                #[trigger] mark_count(final(self).board@, col) == mark_count(
                    old(self).board@,
                    col,
                ),
            crate::grid::gravity_ok(final(self).board@),
            final(self).connected_counts == old(self).connected_counts,
            crate::game::scalars_fixed(*old(self), *final(self)),
    {
        let mut gx: usize = 0;
        while gx < BOARD_W
            invariant
                gx <= BOARD_W,
                self.board@.len() == board_size(),
                forall|j: int|
                    0 <= j < board_size() ==> 0 <= (#[trigger] self.board@[j]).color
                        < COLORS_COUNT,
                forall|col: int|
                    #[trigger] mark_count(self.board@, col) == mark_count(old(self).board@, col),
                forall|xx: int| 0 <= xx < gx ==> col_sorted(self.board@, xx),
                self.connected_counts == old(self).connected_counts,
                crate::game::scalars_fixed(*old(self), *self),
            decreases BOARD_W - gx,
        {
            let ghost b_pre = self.board@;
            self.drop_column(gx);
            proof {
                assert forall|xx: int| 0 <= xx < gx + 1 implies col_sorted(self.board@, xx) by {
                    if xx < gx {
                        assert(col_sorted(b_pre, xx));
                        assert forall|y1: int, y3: int|
                            0 <= y1 < y3 < BOARD_H && cell_at(self.board@, xx, y1).exist implies
                            cell_at(self.board@, xx, y3).exist by {
                            assert(self.board@[xx * BOARD_H + y1] == b_pre[xx * BOARD_H + y1]);
                            assert(self.board@[xx * BOARD_H + y3] == b_pre[xx * BOARD_H + y3]);
                            assert(cell_at(b_pre, xx, y1).exist);
                            assert(cell_at(b_pre, xx, y3).exist);
                        }
                    }
                }
            }
            gx += 1;
        }
    }

    /// Compaction: non-empty columns move left, keeping their order; the
    /// columns after them are cleared.
    fn compact_columns(&mut self)
        requires
            old(self).board@.len() == board_size(),
            forall|j: int|
                0 <= j < board_size() ==> 0 <= (#[trigger] old(self).board@[j]).color
                    < COLORS_COUNT,
            crate::grid::gravity_ok(old(self).board@),
        ensures
            final(self).board@.len() == board_size(),
            forall|j: int|
                0 <= j < board_size() ==> 0 <= (#[trigger] final(self).board@[j]).color
                    < COLORS_COUNT,
            forall|col: int|
                #[trigger] mark_count(final(self).board@, col) == mark_count(
                    old(self).board@,
                    col,
                ),
            crate::grid::gravity_ok(final(self).board@),
            crate::grid::compact_ok(final(self).board@),
            final(self).connected_counts == old(self).connected_counts,
            crate::game::scalars_fixed(*old(self), *final(self)),
    {
        let ghost bg = old(self).board@;
        proof {
            assert(bg.subrange(0, board_size()) =~= bg);
            assert(live_col_idxs(bg, 0) == Seq::<int>::empty());
            assert forall|col: int|
                mark_count(self.board@, col) == src_marks(bg, live_col_idxs(bg, 0), col)
                    + mark_count(bg.subrange(0, board_size()), col) by {
                assert(src_marks(bg, Seq::<int>::empty(), col) == 0);
            }
        }
        let mut x3: usize = 0;
        let mut x2: usize = 0;
        while x2 < BOARD_W
            invariant
                x2 <= BOARD_W,
                x2 <= x3 <= BOARD_W,
                bg == old(self).board@,
                bg.len() == board_size(),
                self.board@.len() == board_size(),
                forall|j: int| x2 * BOARD_H <= j < board_size() ==> self.board@[j] == bg[j],
                live_col_idxs(bg, x3 as int).len() == x2 || (x3 == BOARD_W && live_col_idxs(
                    bg,
                    BOARD_W as int,
                ).len() <= x2),
                forall|col: int|
                    #[trigger] mark_count(self.board@, col) == src_marks(
                        bg,
                        live_col_idxs(bg, x3 as int),
                        col,
                    ) + mark_count(bg.subrange(x2 * BOARD_H, board_size()), col),
                forall|xx: int|
                    0 <= xx < x2 ==> (!col_empty(self.board@, xx) <==> xx < live_col_idxs(
                        bg,
                        x3 as int,
                    ).len()),
                forall|xx: int| 0 <= xx < BOARD_W ==> col_sorted(bg, xx),
                forall|xx: int| 0 <= xx < x2 ==> col_sorted(self.board@, xx),
                forall|j: int|
                    0 <= j < board_size() ==> 0 <= (#[trigger] self.board@[j]).color
                        < COLORS_COUNT,
                forall|j: int| 0 <= j < board_size() ==> 0 <= (#[trigger] bg[j]).color
                    < COLORS_COUNT,
                self.connected_counts == old(self).connected_counts,
                crate::game::scalars_fixed(*old(self), *self),
            decreases BOARD_W - x2,
        {
            let ghost consumed0 = live_col_idxs(bg, x3 as int);
            while x3 < BOARD_W && self.is_empty_column(x3)
                invariant
                    x2 < BOARD_W,
                    x2 <= x3 <= BOARD_W,
                    bg == old(self).board@,
                    bg.len() == board_size(),
                    self.board@.len() == board_size(),
                    forall|j: int| x2 * BOARD_H <= j < board_size() ==> self.board@[j] == bg[j],
                    live_col_idxs(bg, x3 as int) == consumed0,
                    live_col_idxs(bg, x3 as int).len() == x2 || (x3 == BOARD_W && live_col_idxs(
                        bg,
                        BOARD_W as int,
                    ).len() <= x2),
                decreases BOARD_W - x3,
            {
                proof {
                    assert forall|yv: int|
                        0 <= yv < BOARD_H implies !cell_at(bg, x3 as int, yv).exist by {
                        assert(self.board@[x3 * BOARD_H + yv] == bg[x3 * BOARD_H + yv]);
                        assert(!cell_at(self.board@, x3 as int, yv).exist);
                    }
                    assert(col_empty(bg, x3 as int));
                    assert(live_col_idxs(bg, x3 as int + 1) == live_col_idxs(bg, x3 as int));
                }
                x3 += 1;
            }
            let ghost b_pre = self.board@;
            let ghost consumed = live_col_idxs(bg, x3 as int);
            proof {
                assert(consumed == consumed0);
            }
            if x3 < BOARD_W {
                proof {
                    lemma_live_col_idxs_facts(bg, x3 as int);
                    assert(consumed.len() == x2);
                    assert forall|yv: int|
                        0 <= yv < BOARD_H implies cell_at(bg, x3 as int, yv) == cell_at(
                        b_pre,
                        x3 as int,
                        yv,
                    ) by {
                        assert(self.board@[x3 * BOARD_H + yv] == bg[x3 * BOARD_H + yv]);
                    }
                    assert(!col_empty(bg, x3 as int));
                    assert(live_col_idxs(bg, x3 as int + 1) == consumed.push(x3 as int));
                }
                self.copy_column(x3, x2);
                proof {
                    assert forall|col: int| #[trigger]
                        mark_count(self.board@, col) == src_marks(
                        bg,
                        live_col_idxs(bg, x3 as int + 1),
                        col,
                    ) + mark_count(bg.subrange((x2 + 1) * BOARD_H, board_size()), col) by {
                        lemma_mark_count_replace_segment(
                            b_pre,
                            self.board@,
                            x2 * BOARD_H,
                            (x2 + 1) * BOARD_H,
                            col,
                        );
                        let oldseg = b_pre.subrange(x2 * BOARD_H, (x2 + 1) * BOARD_H);
                        let newseg = self.board@.subrange(x2 * BOARD_H, (x2 + 1) * BOARD_H);
                        assert(oldseg =~= col_seq(bg, x2 as int));
                        assert forall|yv: int|
                            0 <= yv < BOARD_H implies newseg[yv] == col_seq(bg, x3 as int)[
                            yv
                        ] by {
                            assert(newseg[yv] == cell_at(self.board@, x2 as int, yv));
                            assert(cell_at(self.board@, x2 as int, yv) == cell_at(
                                b_pre,
                                x3 as int,
                                yv,
                            ));
                            assert(cell_at(b_pre, x3 as int, yv) == cell_at(bg, x3 as int, yv));
                        }
                        assert(newseg =~= col_seq(bg, x3 as int));
                        lemma_src_marks_push(bg, consumed, x3 as int, col);
                        assert(bg.subrange(x2 * BOARD_H, board_size()) =~= col_seq(bg, x2 as int)
                            + bg.subrange((x2 + 1) * BOARD_H, board_size()));
                        lemma_mark_count_concat(
                            col_seq(bg, x2 as int),
                            bg.subrange((x2 + 1) * BOARD_H, board_size()),
                            col,
                        );
                        assert(mark_count(self.board@, col) - mark_count(b_pre, col) == mark_count(
                            newseg,
                            col,
                        ) - mark_count(oldseg, col));
                        assert(mark_count(newseg, col) == mark_count(
                            col_seq(bg, x3 as int),
                            col,
                        ));
                        assert(mark_count(oldseg, col) == mark_count(
                            col_seq(bg, x2 as int),
                            col,
                        ));
                        assert(mark_count(b_pre, col) == src_marks(bg, consumed, col)
                            + mark_count(bg.subrange(x2 * BOARD_H, board_size()), col));
                        assert(mark_count(bg.subrange(x2 * BOARD_H, board_size()), col)
                            == mark_count(col_seq(bg, x2 as int), col) + mark_count(
                            bg.subrange((x2 + 1) * BOARD_H, board_size()),
                            col,
                        ));
                        assert(src_marks(bg, live_col_idxs(bg, x3 as int + 1), col) == src_marks(
                            bg,
                            consumed,
                            col,
                        ) + mark_count(col_seq(bg, x3 as int), col));
                    }
                    assert forall|yv: int|
                        0 <= yv < BOARD_H implies cell_at(self.board@, x2 as int, yv) == cell_at(
                        bg,
                        x3 as int,
                        yv,
                    ) by {
                        assert(cell_at(self.board@, x2 as int, yv) == cell_at(
                            b_pre,
                            x3 as int,
                            yv,
                        ));
                        assert(b_pre[x3 * BOARD_H + yv] == bg[x3 * BOARD_H + yv]);
                    }
                    assert(!col_empty(bg, x3 as int));
                    assert(!col_empty(self.board@, x2 as int));
                    assert(col_sorted(self.board@, x2 as int)) by {
                        assert(col_sorted(bg, x3 as int));
                        assert(forall|yv: int|
                            0 <= yv < BOARD_H ==> cell_at(self.board@, x2 as int, yv) == cell_at(
                                bg,
                                x3 as int,
                                yv,
                            ));
                    };
                    assert forall|xx: int| 0 <= xx < x2 implies (!col_empty(self.board@, xx)
                        <==> xx < live_col_idxs(bg, x3 as int + 1).len()) by {
                        assert forall|yv: int|
                            0 <= yv < BOARD_H implies cell_at(self.board@, xx, yv) == cell_at(
                            b_pre,
                            xx,
                            yv,
                        ) by {
                            assert(self.board@[xx * BOARD_H + yv] == b_pre[xx * BOARD_H + yv]);
                        }
                        if col_empty(b_pre, xx) {
                            assert forall|yv: int|
                                0 <= yv < BOARD_H implies !cell_at(self.board@, xx, yv).exist by {
                                assert(!cell_at(b_pre, xx, yv).exist);
                            }
                        }
                        if col_empty(self.board@, xx) {
                            assert forall|yv: int|
                                0 <= yv < BOARD_H implies !cell_at(b_pre, xx, yv).exist by {
                                assert(!cell_at(self.board@, xx, yv).exist);
                            }
                        }
                        assert(col_empty(self.board@, xx) <==> col_empty(b_pre, xx));
                    }
                    assert forall|xx: int| 0 <= xx < x2 implies col_sorted(self.board@, xx) by {
                        assert(col_sorted(b_pre, xx));
                        assert forall|y1: int, y3v: int|
                            0 <= y1 < y3v < BOARD_H && cell_at(self.board@, xx, y1).exist implies
                            cell_at(self.board@, xx, y3v).exist by {
                            assert(self.board@[xx * BOARD_H + y1] == b_pre[xx * BOARD_H + y1]);
                            assert(self.board@[xx * BOARD_H + y3v] == b_pre[xx * BOARD_H + y3v]);
                            assert(cell_at(b_pre, xx, y1).exist);
                            assert(cell_at(b_pre, xx, y3v).exist);
                        }
                    }
                    assert forall|j: int|
                        0 <= j < board_size() implies 0 <= (#[trigger] self.board@[j]).color
                        < COLORS_COUNT by {
                        if x2 * BOARD_H <= j < (x2 + 1) * BOARD_H {
                            let yv = j - x2 * BOARD_H;
                            assert(self.board@[j] == cell_at(self.board@, x2 as int, yv));
                            assert(cell_at(self.board@, x2 as int, yv) == cell_at(
                                bg,
                                x3 as int,
                                yv,
                            ));
                            assert(cell_at(bg, x3 as int, yv) == bg[x3 * BOARD_H + yv]);
                        } else {
                            assert(self.board@[j] == b_pre[j]);
                        }
                    }
                }
                x3 += 1;
            } else {
                proof {
                    lemma_live_col_idxs_facts(bg, BOARD_W as int);
                }
                self.set_column_not_exist(x2);
                proof {
                    assert forall|col: int| #[trigger]
                        mark_count(self.board@, col) == src_marks(bg, consumed, col) + mark_count(
                        bg.subrange((x2 + 1) * BOARD_H, board_size()),
                        col,
                    ) by {
                        lemma_mark_count_replace_segment(
                            b_pre,
                            self.board@,
                            x2 * BOARD_H,
                            (x2 + 1) * BOARD_H,
                            col,
                        );
                        let oldseg = b_pre.subrange(x2 * BOARD_H, (x2 + 1) * BOARD_H);
                        let newseg = self.board@.subrange(x2 * BOARD_H, (x2 + 1) * BOARD_H);
                        assert(oldseg =~= col_seq(bg, x2 as int));
                        assert forall|yv: int|
                            0 <= yv < BOARD_H implies !(#[trigger] newseg[yv]).exist by {
                            assert(newseg[yv] == cell_at(self.board@, x2 as int, yv));
                        }
                        lemma_mark_count_zero(newseg, col);
                        assert(bg.subrange(x2 * BOARD_H, board_size()) =~= col_seq(bg, x2 as int)
                            + bg.subrange((x2 + 1) * BOARD_H, board_size()));
                        lemma_mark_count_concat(
                            col_seq(bg, x2 as int),
                            bg.subrange((x2 + 1) * BOARD_H, board_size()),
                            col,
                        );
                    }
                    assert(col_empty(self.board@, x2 as int));
                    assert(col_sorted(self.board@, x2 as int)) by {
                        assert(forall|yv: int|
                            0 <= yv < BOARD_H ==> !cell_at(self.board@, x2 as int, yv).exist);
                    };
                    assert forall|xx: int| 0 <= xx < x2 implies (!col_empty(self.board@, xx)
                        <==> xx < consumed.len()) by {
                        assert forall|yv: int|
                            0 <= yv < BOARD_H implies cell_at(self.board@, xx, yv) == cell_at(
                            b_pre,
                            xx,
                            yv,
                        ) by {
                            assert(self.board@[xx * BOARD_H + yv] == b_pre[xx * BOARD_H + yv]);
                        }
                        if col_empty(b_pre, xx) {
                            assert forall|yv: int|
                                0 <= yv < BOARD_H implies !cell_at(self.board@, xx, yv).exist by {
                                assert(!cell_at(b_pre, xx, yv).exist);
                            }
                        }
                        if col_empty(self.board@, xx) {
                            assert forall|yv: int|
                                0 <= yv < BOARD_H implies !cell_at(b_pre, xx, yv).exist by {
                                assert(!cell_at(self.board@, xx, yv).exist);
                            }
                        }
                        assert(col_empty(self.board@, xx) <==> col_empty(b_pre, xx));
                    }
                    assert forall|xx: int| 0 <= xx < x2 implies col_sorted(self.board@, xx) by {
                        assert(col_sorted(b_pre, xx));
                        assert forall|y1: int, y3v: int|
                            0 <= y1 < y3v < BOARD_H && cell_at(self.board@, xx, y1).exist implies
                            cell_at(self.board@, xx, y3v).exist by {
                            assert(self.board@[xx * BOARD_H + y1] == b_pre[xx * BOARD_H + y1]);
                            assert(self.board@[xx * BOARD_H + y3v] == b_pre[xx * BOARD_H + y3v]);
                            assert(cell_at(b_pre, xx, y1).exist);
                            assert(cell_at(b_pre, xx, y3v).exist);
                        }
                    }
                    assert forall|j: int|
                        0 <= j < board_size() implies 0 <= (#[trigger] self.board@[j]).color
                        < COLORS_COUNT by {
                        if x2 * BOARD_H <= j < (x2 + 1) * BOARD_H {
                            let yv = j - x2 * BOARD_H;
                            assert(self.board@[j] == cell_at(self.board@, x2 as int, yv));
                            assert(cell_at(self.board@, x2 as int, yv).color == cell_at(
                                b_pre,
                                x2 as int,
                                yv,
                            ).color);
                            assert(cell_at(b_pre, x2 as int, yv) == b_pre[j]);
                        } else {
                            assert(self.board@[j] == b_pre[j]);
                        }
                    }
                }
            }
            x2 += 1;
        }
        proof {
            lemma_live_col_idxs_facts(bg, x3 as int);
            assert(x3 == BOARD_W);
            let total = live_col_idxs(bg, BOARD_W as int);
            assert forall|col: int| #[trigger]
                mark_count(self.board@, col) == mark_count(bg, col) by {
                lemma_src_marks_total(bg, BOARD_W as int, col);
                assert(bg.subrange(0, BOARD_W * BOARD_H) =~= bg);
                assert(bg.subrange((BOARD_W * BOARD_H) as int, board_size()) =~= Seq::<
                    Cell,
                >::empty());
                assert(mark_count(Seq::<Cell>::empty(), col) == 0);
            }
            assert forall|x1: int, x2v: int|
                0 <= x1 < x2v < BOARD_W && col_empty(self.board@, x1) implies col_empty(
                self.board@,
                x2v,
            ) by {
                assert(!col_empty(self.board@, x1) <==> x1 < total.len());
                assert(!col_empty(self.board@, x2v) <==> x2v < total.len());
            }
        }
    }
}

impl Game {
    /// Whether no tile is left on the board.
    fn board_empty(&self) -> (r: bool)
        requires
            self.board@.len() == board_size(),
        ensures
            r == (mark_count(self.board@, -1) == 0),
    {
        let mut i: usize = 0;
        while i < BOARD_W * BOARD_H
            invariant
                i <= board_size(),
                self.board@.len() == board_size(),
                forall|j: int| 0 <= j < i ==> !(#[trigger] self.board@[j]).exist,
            decreases board_size() - i,
        {
            if self.board[i].exist {
                proof {
                    crate::grid::lemma_mark_count_pos(self.board@, i as int);
                }
                return false;
            }
            i += 1;
        }
        proof {
            lemma_mark_count_zero(self.board@, -1);
        }
        true
    }

    /// Whether some existing cell still belongs to a removable group.
    fn any_move(&self) -> (r: bool)
        requires
            self.board@.len() == board_size(),
            crate::game::labeled(self.board@, self.connected_counts@),
        ensures
            r == crate::game::has_move(self.board@, self.connected_counts@),
    {
        let mut i: usize = 0;
        while i < BOARD_W * BOARD_H
            invariant
                i <= board_size(),
                self.board@.len() == board_size(),
                crate::game::labeled(self.board@, self.connected_counts@),
                forall|j: int|
                    0 <= j < i ==> !((#[trigger] self.board@[j]).exist
                        && self.connected_counts@.contains_key(self.board@[j].component_id)
                        && self.connected_counts@[self.board@[j].component_id] >= 2),
            decreases board_size() - i,
        {
            if self.board[i].exist {
                let id = self.board[i].component_id;
                proof {
                    assert(self.board@[i as int].component_id >= 0);
                }
                let cnt = self.count_of(id);
                if cnt >= 2 {
                    proof {
                        assert(self.board@[i as int].exist);
                        assert(crate::game::has_move(self.board@, self.connected_counts@));
                    }
                    return true;
                }
            }
            i += 1;
        }
        false
    }

    /// A click at (x, y). An empty slot or a singleton group is a no-op.
    /// Otherwise the clicked group's score is banked, its tiles vanish,
    /// gravity and leftward compaction settle the board, the components are
    /// relabeled and the terminal flags are re-evaluated.
    pub fn click(&mut self, x: usize, y: usize)
        requires
            old(self).wf(),
            x < BOARD_W,
            y < BOARD_H,
        ensures
            final(self).wf(),
            crate::game::click_post(*old(self), *final(self), x as int, y as int),
    {
        let c0 = self.cell_at(x, y);
        if !c0.exist {
            return ;
        }
        proof {
            assert(self.board@[cell_idx(x as int, y as int)].component_id >= 0);
        }
        let component_id = c0.component_id;
        let connected_count = self.count_of(component_id);
        if connected_count <= 1 {
            return ;
        }
        let score = self.calc_point(x, y);
        let ghost b0 = self.board@;
        let ghost n = self.connected_counts@[component_id] as int;
        let ghost ccol = c0.color as int;
        let ghost live0 = mark_count(b0, -1);
        proof {
            crate::grid::lemma_id_count_bounds(b0, component_id as int);
            assert forall|j: int|
                0 <= j < b0.len() && b0[j].component_id == component_id implies b0[j].exist && b0[
                j
            ].color == ccol by {
                assert(b0[j].exist);
                assert(b0[cell_idx(x as int, y as int)].component_id == component_id);
                assert(b0[j].color == b0[cell_idx(x as int, y as int)].color);
            }
            crate::grid::lemma_id_count_le_live(b0, component_id as int);
            crate::grid::lemma_mark_count_bounds(b0, -1);
            assert(n == crate::grid::id_count(b0, component_id as int));
            assert(2 <= n <= 200);
            assert(n <= live0);
            assert(score == (n - 2) * (n - 2));
            assert((n - 2) * (n - 2) <= 198 * n) by (nonlinear_arith)
                requires
                    2 <= n <= 200,
            ;
        }
        self.remove_component(component_id);
        proof {
            assert forall|col: int| #[trigger]
                mark_count(self.board@, col) == mark_count(b0, col) - (if col == -1 || col == ccol {
                n
            } else {
                0int
            }) by {
                crate::grid::lemma_mark_count_remove(
                    b0,
                    self.board@,
                    component_id as int,
                    ccol,
                    col,
                );
            }
        }
        self.apply_gravity();
        self.compact_columns();
        let ghost b3 = self.board@;
        self.update_components();
        proof {
            assert forall|col: int| #[trigger]
                mark_count(self.board@, col) == mark_count(b3, col) by {
                crate::grid::lemma_mark_count_pointwise(b3, self.board@, col);
            }
            assert forall|xv: int| 0 <= xv < BOARD_W implies col_sorted(self.board@, xv) by {
                assert(col_sorted(b3, xv));
                assert forall|y1: int, y3v: int|
                    0 <= y1 < y3v < BOARD_H && cell_at(self.board@, xv, y1).exist implies cell_at(
                    self.board@,
                    xv,
                    y3v,
                ).exist by {
                    assert(self.board@[xv * BOARD_H + y1].exist == b3[xv * BOARD_H + y1].exist);
                    assert(self.board@[xv * BOARD_H + y3v].exist == b3[xv * BOARD_H + y3v].exist);
                    assert(cell_at(b3, xv, y1).exist);
                    assert(cell_at(b3, xv, y3v).exist);
                }
            }
            assert forall|xv: int|
                0 <= xv < BOARD_W implies (col_empty(self.board@, xv) <==> col_empty(
                b3,
                xv,
            )) by {
                if col_empty(b3, xv) {
                    assert forall|yv: int|
                        0 <= yv < BOARD_H implies !cell_at(self.board@, xv, yv).exist by {
                        assert(self.board@[xv * BOARD_H + yv].exist == b3[xv * BOARD_H
                            + yv].exist);
                        assert(!cell_at(b3, xv, yv).exist);
                    }
                }
                if col_empty(self.board@, xv) {
                    assert forall|yv: int|
                        0 <= yv < BOARD_H implies !cell_at(b3, xv, yv).exist by {
                        assert(self.board@[xv * BOARD_H + yv].exist == b3[xv * BOARD_H
                            + yv].exist);
                        assert(!cell_at(self.board@, xv, yv).exist);
                    }
                }
            }
            assert(crate::grid::gravity_ok(self.board@));
            assert forall|x1: int, x2v: int|
                0 <= x1 < x2v < BOARD_W && col_empty(self.board@, x1) implies col_empty(
                self.board@,
                x2v,
            ) by {
                assert(col_empty(b3, x1));
                assert(col_empty(b3, x2v));
            }
            assert(crate::grid::compact_ok(self.board@));
            assert(mark_count(self.board@, -1) == live0 - n);
        }
        self.score = self.score + score;
        let cleared = self.board_empty();
        let mv = self.any_move();
        self.is_clear = cleared;
        self.is_over = !cleared && !mv;
    }
}

} // verus!
