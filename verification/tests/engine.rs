use rand::SeedableRng;
use samegame::Cell;
use samegame::Command;
use samegame::Game;
use samegame::BOARD_H;
use samegame::BOARD_W;
use samegame::COLORS_COUNT;

/// Builds a game from a row-major picture of the board: an entry of -1 is an
/// empty slot, any other value is the color of a tile there.
fn game_from(rows: &[[i32; 20]; 10]) -> Game {
    let mut board: Vec<Cell> = Vec::new();
    for x in 0..BOARD_W {
        for y in 0..BOARD_H {
            let v = rows[y][x];
            board.push(Cell {
                exist: v >= 0,
                color: if v >= 0 { v } else { 0 },
                component_id: -1,
            });
        }
    }
    let mut g = Game {
        is_over: false,
        is_clear: false,
        rng: rand::rngs::StdRng::seed_from_u64(0),
        seed: 0,
        score: 0,
        hover_score: 0,
        hover_connected_count: 0,
        board,
        connected_counts: std::collections::HashMap::new(),
        hover_component_id: -1,
    };
    g.update_components();
    g
}

fn empty_rows() -> [[i32; 20]; 10] {
    [[-1; 20]; 10]
}

fn board_snapshot(g: &Game) -> Vec<(bool, i32)> {
    let mut v = Vec::new();
    for x in 0..BOARD_W {
        for y in 0..BOARD_H {
            let c = g.cell_at(x, y);
            v.push((c.exist, if c.exist { c.color } else { -1 }));
        }
    }
    v
}

#[test]
fn scoring_formula() {
    let mut rows = empty_rows();
    // a group of three of color 1
    rows[9][0] = 1;
    rows[9][1] = 1;
    rows[9][2] = 1;
    // a group of five of color 2
    for y in 5..10 {
        rows[y][5] = 2;
    }
    // a pair of color 3
    rows[9][8] = 3;
    rows[9][9] = 3;
    // a singleton of color 4
    rows[9][12] = 4;
    let g = game_from(&rows);
    assert_eq!(g.calc_point(0, 9), 1); // (3 - 2)^2
    assert_eq!(g.calc_point(5, 9), 9); // (5 - 2)^2
    assert_eq!(g.calc_point(8, 9), 0); // (2 - 2)^2
    assert_eq!(g.calc_point(12, 9), 0); // singleton scores nothing
    assert_eq!(g.calc_point(15, 5), -1); // probe on an empty slot
}

#[test]
fn hover_preview() {
    let mut rows = empty_rows();
    rows[9][0] = 1;
    rows[9][1] = 1;
    rows[9][2] = 1;
    let mut g = game_from(&rows);
    let before = board_snapshot(&g);
    g.hover(1, 9);
    assert_eq!(g.hover_connected_count, 3);
    assert_eq!(g.hover_score, 1);
    assert!(g.hover_component_id >= 0);
    g.hover(10, 3);
    assert_eq!(g.hover_connected_count, 0);
    assert_eq!(g.hover_score, -1);
    assert_eq!(g.hover_component_id, -1);
    assert_eq!(board_snapshot(&g), before);
    assert_eq!(g.score, 0);
}

#[test]
fn singleton_click_is_noop() {
    let mut rows = empty_rows();
    rows[9][12] = 4;
    rows[9][3] = 1;
    rows[9][4] = 1;
    let mut g = game_from(&rows);
    let before = board_snapshot(&g);
    let counts_before = g.connected_counts.clone();
    g.click(12, 9);
    assert_eq!(board_snapshot(&g), before);
    assert_eq!(g.connected_counts, counts_before);
    assert_eq!(g.score, 0);
}

#[test]
fn empty_cell_click_is_noop() {
    let mut rows = empty_rows();
    rows[9][3] = 1;
    rows[9][4] = 1;
    let mut g = game_from(&rows);
    let before = board_snapshot(&g);
    g.click(10, 2);
    assert_eq!(board_snapshot(&g), before);
    assert_eq!(g.score, 0);
}

#[test]
fn full_clear_scenario() {
    let mut rows = empty_rows();
    rows[8][3] = 0;
    rows[8][4] = 0;
    rows[9][3] = 0;
    rows[9][4] = 0;
    let mut g = game_from(&rows);
    g.hover(3, 9);
    assert_eq!(g.hover_connected_count, 4);
    g.click(3, 9);
    assert_eq!(g.score, 4); // (4 - 2)^2
    for x in 0..BOARD_W {
        for y in 0..BOARD_H {
            assert!(!g.cell_at(x, y).exist);
        }
    }
    assert!(g.is_clear);
    assert!(!g.is_over);
}

#[test]
fn gravity_settles_columns() {
    let mut rows = empty_rows();
    // column 0 carries a stack; a horizontal pair at its middle vanishes
    rows[7][0] = 1;
    rows[8][0] = 2;
    rows[9][0] = 1;
    rows[8][1] = 2;
    let mut g = game_from(&rows);
    g.click(0, 8); // removes the pair of color 2
    assert_eq!(g.score, 0); // (2 - 2)^2
    for x in 0..BOARD_W {
        for y1 in 0..BOARD_H {
            for y2 in (y1 + 1)..BOARD_H {
                if g.cell_at(x, y1).exist {
                    assert!(g.cell_at(x, y2).exist);
                }
            }
        }
    }
    // the two color-1 tiles of column 0 are now stacked at the bottom
    assert!(g.cell_at(0, 9).exist && g.cell_at(0, 9).color == 1);
    assert!(g.cell_at(0, 8).exist && g.cell_at(0, 8).color == 1);
    assert!(!g.cell_at(0, 7).exist);
}

#[test]
fn compaction_closes_column_gaps() {
    let mut rows = empty_rows();
    rows[9][0] = 0;
    rows[8][3] = 2;
    rows[9][3] = 2;
    rows[9][6] = 1;
    let mut g = game_from(&rows);
    g.click(3, 9); // column 3 empties entirely
    // no empty column may sit left of a non-empty one
    let mut seen_empty = false;
    for x in 0..BOARD_W {
        let mut empty = true;
        for y in 0..BOARD_H {
            if g.cell_at(x, y).exist {
                empty = false;
            }
        }
        if empty {
            seen_empty = true;
        } else {
            assert!(!seen_empty);
        }
    }
    assert!(g.cell_at(0, 9).exist && g.cell_at(0, 9).color == 0);
    assert!(g.cell_at(1, 9).exist && g.cell_at(1, 9).color == 1);
    assert!(!g.cell_at(6, 9).exist);
}

#[test]
fn labeling_twice_keeps_counts() {
    let mut g = Game::new(123);
    let mut sizes1: Vec<i32> = g.connected_counts.values().cloned().collect();
    sizes1.sort();
    g.update_components();
    let mut sizes2: Vec<i32> = g.connected_counts.values().cloned().collect();
    sizes2.sort();
    assert_eq!(sizes1, sizes2);
}

#[test]
fn counts_match_cells() {
    let g = Game::new(99);
    // every existing cell's id is a key, and each key counts its cells
    let mut tally: std::collections::HashMap<i32, i32> = std::collections::HashMap::new();
    for x in 0..BOARD_W {
        for y in 0..BOARD_H {
            let c = g.cell_at(x, y);
            assert!(c.exist);
            assert!(c.component_id >= 0);
            *tally.entry(c.component_id).or_insert(0) += 1;
        }
    }
    assert_eq!(tally, g.connected_counts);
}

#[test]
fn components_are_same_colored_neighbors() {
    let g = Game::new(7);
    // two 4-adjacent cells share an id exactly when their colors match
    for x in 0..BOARD_W {
        for y in 0..BOARD_H {
            let c = g.cell_at(x, y);
            if x + 1 < BOARD_W {
                let r = g.cell_at(x + 1, y);
                assert_eq!(c.component_id == r.component_id, c.color == r.color);
            }
            if y + 1 < BOARD_H {
                let d = g.cell_at(x, y + 1);
                assert_eq!(c.component_id == d.component_id, c.color == d.color);
            }
        }
    }
}

#[test]
fn new_board_is_populated() {
    let g = Game::new(7);
    assert_eq!(g.seed, 7);
    assert_eq!(g.score, 0);
    assert!(!g.is_over);
    assert!(!g.is_clear);
    assert_eq!(g.hover_score, 0);
    assert_eq!(g.hover_component_id, -1);
    for x in 0..BOARD_W {
        for y in 0..BOARD_H {
            let c = g.cell_at(x, y);
            assert!(c.exist);
            assert!(c.color >= 0 && c.color < COLORS_COUNT);
        }
    }
}

#[test]
fn same_seed_same_board() {
    let g1 = Game::new(42);
    let g2 = Game::new(42);
    assert_eq!(board_snapshot(&g1), board_snapshot(&g2));
}

#[test]
fn terminal_states_ignore_commands() {
    let mut rows = empty_rows();
    rows[9][0] = 1;
    rows[9][1] = 1;
    let mut g = game_from(&rows);
    g.is_over = true;
    let before = board_snapshot(&g);
    g.update(Command::Click(0, 9));
    assert_eq!(board_snapshot(&g), before);
    assert_eq!(g.score, 0);
    g.is_over = false;
    g.update(Command::Idle);
    assert_eq!(board_snapshot(&g), before);
    g.update(Command::Click(0, 9));
    assert_eq!(g.score, 0); // (2 - 2)^2
    assert!(g.is_clear);
}

#[test]
fn game_over_when_only_singletons_remain() {
    let mut rows = empty_rows();
    rows[9][0] = 0;
    rows[9][2] = 1; // separated singletons of different colors stay
    rows[8][5] = 2;
    rows[9][5] = 2;
    let mut g = game_from(&rows);
    g.update(Command::Click(5, 9));
    assert!(g.is_over);
    assert!(!g.is_clear);
}

#[test]
fn is_valid_cell_bounds() {
    let g = Game::new(1);
    assert!(g.is_valid_cell(0, 0));
    assert!(g.is_valid_cell(BOARD_W - 1, BOARD_H - 1));
    assert!(!g.is_valid_cell(BOARD_W, 0));
    assert!(!g.is_valid_cell(0, BOARD_H));
}

#[test]
fn column_helpers() {
    let mut rows = empty_rows();
    rows[9][4] = 3;
    let mut g = game_from(&rows);
    assert!(g.is_empty_column(0));
    assert!(!g.is_empty_column(4));
    g.copy_column(4, 0);
    assert!(g.cell_at(0, 9).exist && g.cell_at(0, 9).color == 3);
    g.set_column_not_exist(4);
    assert!(g.is_empty_column(4));
}

#[test]
fn cleared_state_ignores_hover() {
    let mut rows = empty_rows();
    rows[9][0] = 1;
    rows[9][1] = 1;
    let mut g = game_from(&rows);
    g.is_clear = true;
    g.update(Command::Hover(0, 9));
    assert_eq!(g.hover_connected_count, 0);
    assert_eq!(g.hover_score, 0);
}

#[test]
fn unlabeled_slots_keep_sentinel() {
    let mut rows = empty_rows();
    rows[9][0] = 1;
    rows[9][1] = 1;
    let g = game_from(&rows);
    for x in 0..BOARD_W {
        for y in 0..BOARD_H {
            let c = g.cell_at(x, y);
            if !c.exist {
                assert_eq!(c.component_id, -1);
            }
        }
    }
}

#[test]
fn score_accumulates_over_moves() {
    let mut rows = empty_rows();
    // a group of three of color 1 and, above it, a group of three of color 2
    rows[9][0] = 1;
    rows[9][1] = 1;
    rows[9][2] = 1;
    rows[8][0] = 2;
    rows[8][1] = 2;
    rows[8][2] = 2;
    let mut g = game_from(&rows);
    g.click(0, 8); // removes the color-2 group: +1
    assert_eq!(g.score, 1);
    g.click(0, 9); // removes the color-1 group, now settled: +1
    assert_eq!(g.score, 2);
    assert!(g.is_clear);
}
