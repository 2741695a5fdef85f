use vstd::prelude::*;

use std::collections::HashMap;

use crate::grid::board_size;
use crate::grid::cell_at;
use crate::grid::cell_idx;
use crate::grid::compact_ok;
use crate::grid::connected_cells;
use crate::grid::gravity_ok;
use crate::grid::id_count;
use crate::grid::lemma_id_count_bounds;
use crate::grid::lemma_mark_count_full;
use crate::grid::mark_count;
use crate::grid::sp_valid_xy;
use crate::grid::Cell;
use crate::grid::BOARD_H;
use crate::grid::BOARD_W;
use crate::grid::COLORS_COUNT;
use crate::rng::random_color;
use crate::rng::rng_from_seed;
use crate::Command;

verus! {

broadcast use vstd::std_specs::hash::group_hash_axioms;

/// The whole game state: the board, the component map rebuilt after every
/// mutation, the accumulated score, the last hover preview, the terminal
/// flags, and the session's random generator together with its seed.
pub struct Game {
    pub is_over: bool,
    pub is_clear: bool,
    pub rng: rand::rngs::StdRng,
    pub seed: u64,
    pub score: i32,
    pub hover_score: i32,
    pub hover_connected_count: i32,
    pub board: Vec<Cell>,
    pub connected_counts: HashMap<i32, i32>,
    pub hover_component_id: i32,
}

/// What the component map guarantees at any point of the labeling pass:
/// only existing cells carry ids, every key of the map is a used id whose
/// count is exactly the number of cells carrying it, and cells sharing an
/// id share a color.
pub open spec fn lab_inv(b: Seq<Cell>, m: Map<i32, i32>) -> bool {
    &&& forall|j: int| 0 <= j < b.len() ==> (#[trigger] b[j]).component_id >= -1
    &&& forall|j: int| 0 <= j < b.len() && !(#[trigger] b[j]).exist ==> b[j].component_id == -1
    &&& forall|j: int| 0 <= j < b.len() && (#[trigger] b[j]).component_id >= 0 ==> b[j].exist
    &&& forall|id: i32|
        #[trigger] m.contains_key(id) ==> id >= 0 && m[id] == id_count(b, id as int) && m[id] >= 1
    &&& forall|j: int|
        0 <= j < b.len() && (#[trigger] b[j]).component_id >= 0 ==> m.contains_key(
            b[j].component_id,
        )
    &&& forall|j1: int, j2: int|
        #![trigger b[j1].component_id, b[j2].component_id]
        0 <= j1 < b.len() && 0 <= j2 < b.len() && b[j1].component_id >= 0 && b[j1].component_id
            == b[j2].component_id ==> b[j1].color == b[j2].color
}

/// All fields that a relabeling pass leaves alone.
pub open spec fn scalars_fixed(g0: Game, g1: Game) -> bool {
    &&& g1.score == g0.score
    &&& g1.rng == g0.rng
    &&& g1.seed == g0.seed
    &&& g1.is_over == g0.is_over
    &&& g1.is_clear == g0.is_clear
    &&& g1.hover_score == g0.hover_score
    &&& g1.hover_connected_count == g0.hover_connected_count
    &&& g1.hover_component_id == g0.hover_component_id
}

/// Components are closed under same-colored adjacency: two 4-adjacent
/// existing cells of one color always carry the same component id.
pub open spec fn components_closed(b: Seq<Cell>) -> bool {
    forall|x1: int, y1: int, x2: int, y2: int|
        #![trigger cell_at(b, x1, y1), cell_at(b, x2, y2)]
        crate::grid::sp_adjacent(x1, y1, x2, y2) && cell_at(b, x1, y1).exist && cell_at(
            b,
            x2,
            y2,
        ).exist && cell_at(b, x1, y1).color == cell_at(b, x2, y2).color && cell_at(
            b,
            x1,
            y1,
        ).component_id >= 0 ==> cell_at(b, x2, y2).component_id == cell_at(b, x1, y1).component_id
}

/// Every component is one connected region: two cells that carry one id are
/// joined by a path of existing, same-colored, 4-adjacent tiles.
pub open spec fn components_connected(b: Seq<Cell>) -> bool {
    forall|x1: int, y1: int, x2: int, y2: int|
        #![trigger cell_at(b, x1, y1), cell_at(b, x2, y2)]
        sp_valid_xy(x1, y1) && sp_valid_xy(x2, y2) && cell_at(b, x1, y1).component_id >= 0
            && cell_at(b, x1, y1).component_id == cell_at(b, x2, y2).component_id
            ==> connected_cells(b, x1, y1, x2, y2)
}

/// A fully labeled board: the labeling invariant, every existing cell has
/// received an id, components swallow all their same-colored neighbors, and
/// each component is one connected region.
pub open spec fn labeled(b: Seq<Cell>, m: Map<i32, i32>) -> bool {
    &&& lab_inv(b, m)
    &&& forall|j: int| 0 <= j < b.len() && (#[trigger] b[j]).exist ==> b[j].component_id >= 0
    &&& components_closed(b)
    &&& components_connected(b)
}

impl Game {
    /// The board has its fixed size and every color is one of the palette.
    pub open spec fn board_ok(self) -> bool {
        &&& self.board@.len() == board_size()
        &&& forall|j: int|
            0 <= j < self.board@.len() ==> 0 <= (#[trigger] self.board@[j]).color < COLORS_COUNT
    }

    /// Score potential. A click on a group of n tiles adds (n - 2)^2 points
    /// and frees n cells, and (n - 2)^2 <= 198 * n for n <= 200, so the sum
    /// below never grows. A full fresh board starts it at 198 * 200 = 39600,
    /// which keeps the score well inside i32.
    pub open spec fn score_ok(self) -> bool {
        &&& 0 <= self.score
        &&& self.score + 198 * mark_count(self.board@, -1) <= 39600
    }

    /// Everything the engine keeps true between two commands.
    pub open spec fn wf(self) -> bool {
        &&& self.board_ok()
        &&& labeled(self.board@, self.connected_counts@)
        &&& self.score_ok()
    }

    /// The cell at (x, y).
    pub open spec fn sp_cell(self, x: int, y: int) -> Cell {
        cell_at(self.board@, x, y)
    }

    /// The recorded size of the component of the cell at (x, y).
    pub open spec fn sp_count(self, x: int, y: int) -> int {
        self.connected_counts@[self.sp_cell(x, y).component_id] as int
    }

    /// The score a click at (x, y) would yield right now: -1 flags a probe
    /// on an empty slot, a group of n >= 2 tiles is worth (n - 2)^2 points,
    /// and a singleton is worth nothing.
    pub open spec fn sp_point(self, x: int, y: int) -> int {
        if !self.sp_cell(x, y).exist {
            -1
        } else if self.sp_count(x, y) >= 2 {
            (self.sp_count(x, y) - 2) * (self.sp_count(x, y) - 2)
        } else {
            0
        }
    }

    /// Whether (x, y) addresses a cell of the board. Callers of `update`
    /// validate coordinates through this gate.
    pub fn is_valid_cell(&self, x: usize, y: usize) -> (r: bool)
        ensures
            r == sp_valid_xy(x as int, y as int),
    {
        x < BOARD_W && y < BOARD_H
    }

    /// Read access to one cell, for the presentation layer.
    pub fn cell_at(&self, x: usize, y: usize) -> (c: Cell)
        requires
            self.board@.len() == board_size(),
            x < BOARD_W,
            y < BOARD_H,
        ensures
            c == self.sp_cell(x as int, y as int),
    {
        self.board[x * BOARD_H + y]
    }

    /// The map's count for a component id that is known to be present.
    pub(crate) fn count_of(&self, id: i32) -> (n: i32)
        requires
            self.connected_counts@.contains_key(id),
        ensures
            n == self.connected_counts@[id],
    {
        *self.connected_counts.get(&id).unwrap()
    }

    /// The score a click at (x, y) would yield, per `sp_point`. A probe on
    /// an empty slot answers the "no selection" marker -1 and is never added
    /// to the cumulative score.
    pub fn calc_point(&self, x: usize, y: usize) -> (p: i32)
        requires
            self.wf(),
            x < BOARD_W,
            y < BOARD_H,
        ensures
            p == self.sp_point(x as int, y as int),
    {
        let c = self.cell_at(x, y);
        if c.exist {
            proof {
                assert(self.board@[cell_idx(x as int, y as int)].component_id >= 0);
            }
            let n = self.count_of(c.component_id);
            if n >= 2 {
                proof {
                    lemma_id_count_bounds(self.board@, c.component_id as int);
                }
                assert((n - 2) * (n - 2) <= 39204) by (nonlinear_arith)
                    requires
                        2 <= n <= 200,
                ;
                (n - 2) * (n - 2)
            } else {
                0
            }
        } else {
            -1
        }
    }
}

/// What a hover command does: every field but the three preview fields is
/// left alone, and the preview describes the cell under the cursor.
pub open spec fn hover_post(g0: Game, g1: Game, x: int, y: int) -> bool {
    &&& g1.board == g0.board
    &&& g1.connected_counts == g0.connected_counts
    &&& g1.score == g0.score
    &&& g1.rng == g0.rng
    &&& g1.seed == g0.seed
    &&& g1.is_over == g0.is_over
    &&& g1.is_clear == g0.is_clear
    &&& (!cell_at(g0.board@, x, y).exist ==> g1.hover_connected_count == 0 && g1.hover_score == -1
        && g1.hover_component_id == -1)
    &&& (cell_at(g0.board@, x, y).exist ==> g1.hover_connected_count == g0.connected_counts@[
        cell_at(g0.board@, x, y).component_id
    ] && g1.hover_score == g0.sp_point(x, y) && g1.hover_component_id == cell_at(
        g0.board@,
        x,
        y,
    ).component_id)
}

/// Whether any removable group is left: some existing cell belongs to a
/// component of two or more tiles.
pub open spec fn has_move(b: Seq<Cell>, m: Map<i32, i32>) -> bool {
    exists|j: int|
        0 <= j < b.len() && (#[trigger] b[j]).exist && m.contains_key(b[j].component_id) && m[b[
            j
        ].component_id] >= 2
}

/// What a click does. A click on an empty slot or on a singleton group is a
/// no-op. Otherwise the clicked group of n tiles is worth (n - 2)^2 points;
/// exactly its n tiles of the clicked color vanish and no other tile does;
/// gravity and compaction have settled the board; the terminal flags are
/// re-evaluated; and the preview fields and the generator are untouched.
pub open spec fn click_post(g0: Game, g1: Game, x: int, y: int) -> bool {
    if !cell_at(g0.board@, x, y).exist || g0.connected_counts@[cell_at(
        g0.board@,
        x,
        y,
    ).component_id] <= 1 {
        g1 == g0
    } else {
        let n = g0.connected_counts@[cell_at(g0.board@, x, y).component_id] as int;
        let ccol = cell_at(g0.board@, x, y).color as int;
        &&& g1.score == g0.score + (n - 2) * (n - 2)
        &&& forall|col: int|
            #[trigger] mark_count(g1.board@, col) == mark_count(g0.board@, col) - (if col == -1
                || col == ccol {
                n
            } else {
                0int
            })
        &&& gravity_ok(g1.board@)
        &&& compact_ok(g1.board@)
        &&& g1.is_clear == (mark_count(g1.board@, -1) == 0)
        &&& g1.is_over == (!g1.is_clear && !has_move(g1.board@, g1.connected_counts@))
        &&& g1.hover_score == g0.hover_score
        &&& g1.hover_connected_count == g0.hover_connected_count
        &&& g1.hover_component_id == g0.hover_component_id
        &&& g1.rng == g0.rng
        &&& g1.seed == g0.seed
    }
}

impl Game {
    /// A fresh, fully populated board: every cell holds a tile with a color
    /// drawn from the session generator built from `seed`; the score and the
    /// preview are cleared, the game is running, and the whole board is
    /// labeled. The caller picks the seed (the presentation layer uses the
    /// wall clock) and it stays readable for reproducibility.
    pub fn new(seed: u64) -> (g: Game)
        ensures
            g.wf(),
            g.seed == seed,
            g.score == 0,
            !g.is_over,
            !g.is_clear,
            g.hover_score == 0,
            g.hover_connected_count == 0,
            g.hover_component_id == -1,
            forall|j: int| 0 <= j < board_size() ==> (#[trigger] g.board@[j]).exist,
    {
        let mut rng = rng_from_seed(seed);
        let mut board: Vec<Cell> = Vec::new();
        let mut i: usize = 0;
        while i < BOARD_W * BOARD_H
            invariant
                i <= board_size(),
                board@.len() == i,
                forall|j: int|
                    0 <= j < i ==> (#[trigger] board@[j]).exist && 0 <= board@[j].color
                        < COLORS_COUNT && board@[j].component_id == -1,
            decreases board_size() - i,
        {
            let color = random_color(&mut rng);
            board.push(Cell { exist: true, color: color, component_id: -1 });
            i += 1;
        }
        let mut game = Game {
            is_over: false,
            is_clear: false,
            rng: rng,
            seed: seed,
            score: 0,
            hover_score: 0,
            hover_connected_count: 0,
            board: board,
            connected_counts: HashMap::new(),
            hover_component_id: -1,
        };
        game.update_components();
        proof {
            lemma_mark_count_full(game.board@);
        }
        game
    }
}

impl Game {
    /// One step of the game's state machine. In a terminal state every
    /// command is accepted and ignored. While playing, `Idle` does nothing,
    /// `Hover` refreshes the preview and `Click` resolves a move; the caller
    /// validates coordinates through `is_valid_cell` first.
    pub fn update(&mut self, command: Command)
        requires
            old(self).wf(),
            match command {
                Command::Idle => true,
                Command::Hover(x, y) => x < BOARD_W && y < BOARD_H,
                Command::Click(x, y) => x < BOARD_W && y < BOARD_H,
            },
        ensures
            final(self).wf(),
            old(self).is_over || old(self).is_clear ==> *final(self) == *old(self),
            !(old(self).is_over || old(self).is_clear) ==> match command {
                Command::Idle => *final(self) == *old(self),
                Command::Hover(x, y) => hover_post(*old(self), *final(self), x as int, y as int),
                Command::Click(x, y) => click_post(*old(self), *final(self), x as int, y as int),
            },
    {
        if self.is_over || self.is_clear {
            return ;
        }
        match command {
            Command::Idle => {},
            Command::Click(x, y) => {
                self.click(x, y);
            },
            Command::Hover(x, y) => {
                self.hover(x, y);
            },
        }
    }

    /// The hover preview: records what a click at (x, y) would yield without
    /// touching the board, the component map or the score.
    pub fn hover(&mut self, x: usize, y: usize)
        requires
            old(self).wf(),
            x < BOARD_W,
            y < BOARD_H,
        ensures
            final(self).wf(),
            hover_post(*old(self), *final(self), x as int, y as int),
    {
        let c = self.cell_at(x, y);
        if !c.exist {
            self.hover_connected_count = 0;
            self.hover_score = -1;
            self.hover_component_id = -1;
        } else {
            proof {
                assert(self.board@[cell_idx(x as int, y as int)].component_id >= 0);
            }
            self.hover_connected_count = self.count_of(c.component_id);
            self.hover_score = self.calc_point(x, y);
            self.hover_component_id = c.component_id;
        }
    }
}

} // verus!
