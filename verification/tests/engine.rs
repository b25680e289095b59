use game_of_life::cells::{Cell, Cells};
use game_of_life::components::{Dimensions, Score};
use game_of_life::universe::{Entity, Universe};

fn as_pairs(universe: &Universe) -> Vec<(i32, i32)> {
    universe
        .entities()
        .iter()
        .map(|e| (e.line, e.column))
        .collect()
}

#[test]
fn tick_on_empty_universe_stays_empty() {
    let mut universe = Universe::empty();
    universe.tick();
    assert_eq!(0, universe.len());
    let mut parsed = Universe::new("");
    assert_eq!(0, parsed.len());
    parsed.tick();
    parsed.tick();
    assert_eq!(0, parsed.len());
}

#[test]
fn equal_patterns_ticked_alike_stay_equal() {
    let text = "010\n001\n111";
    let mut first = Universe::new(text);
    let mut second = Universe::new(text);
    assert_eq!(first, second);
    for _ in 0..4 {
        first.tick();
        second.tick();
        assert_eq!(first, second);
    }
}

#[test]
fn iteration_stays_in_ascending_order() {
    let mut universe = Universe::new("0101\n1010\n0011");
    for _ in 0..3 {
        universe.tick();
        let pairs = as_pairs(&universe);
        for window in pairs.windows(2) {
            assert!(window[0] < window[1]);
        }
    }
}

#[test]
fn insert_then_remove_restores_prior_state() {
    let universe = universe_of(&[(0, 0), (2, 3), (5, -1)]);
    let mut edited = universe_of(&[(0, 0), (2, 3), (5, -1)]);
    let probe = Entity { line: 1, column: 1 };
    edited.insert(probe);
    assert_ne!(universe, edited);
    assert!(edited.remove(probe));
    assert_eq!(universe, edited);
    // removing an absent cell reports that nothing happened
    assert!(!edited.remove(probe));
    assert_eq!(universe, edited);
}

#[test]
fn insert_is_idempotent() {
    let mut universe = Universe::empty();
    universe.insert(Entity { line: 4, column: 7 });
    universe.insert(Entity { line: 4, column: 7 });
    assert_eq!(1, universe.len());
}

#[test]
fn clear_empties_the_universe() {
    let mut universe = Universe::new("111\n111");
    assert_eq!(6, universe.len());
    universe.clear();
    assert_eq!(0, universe.len());
}

#[test]
fn lone_cell_dies() {
    let mut universe = universe_of(&[(3, 3)]);
    universe.tick();
    assert_eq!(0, universe.len());
}

#[test]
fn l_tromino_becomes_a_block() {
    // three mutually adjacent cells gain a fourth and then stand still
    let mut universe = universe_of(&[(0, 0), (0, 1), (1, 0)]);
    universe.tick();
    assert_eq!(vec![(0, 0), (0, 1), (1, 0), (1, 1)], as_pairs(&universe));
    universe.tick();
    assert_eq!(vec![(0, 0), (0, 1), (1, 0), (1, 1)], as_pairs(&universe));
}

#[test]
fn blinker_oscillates() {
    let mut universe = Universe::new("111");
    universe.tick();
    assert_eq!(vec![(-1, 1), (0, 1), (1, 1)], as_pairs(&universe));
    universe.tick();
    assert_eq!(vec![(0, 0), (0, 1), (0, 2)], as_pairs(&universe));
}

#[test]
fn parser_reads_ones_and_ignores_other_characters() {
    let universe = Universe::new("1x1\n.1.");
    assert_eq!(vec![(0, 0), (0, 2), (1, 1)], as_pairs(&universe));
}

#[test]
fn parser_trims_surrounding_whitespace() {
    let universe = Universe::new("  \t\n  11\n  ");
    // the trimmed block starts at its own first character
    assert_eq!(vec![(0, 0), (0, 1)], as_pairs(&universe));
}

#[test]
fn parser_trims_unicode_whitespace() {
    // a vertical tab, a no-break space and an ideographic space are all
    // stripped before the block is indexed
    let universe = Universe::new("\u{000B}1");
    assert_eq!(vec![(0, 0)], as_pairs(&universe));
    let universe = Universe::new("\u{00A0}\u{3000}11\u{2028}");
    assert_eq!(vec![(0, 0), (0, 1)], as_pairs(&universe));
}

#[test]
fn parser_accepts_ragged_rows() {
    let universe = Universe::new("1\n011");
    assert_eq!(vec![(0, 0), (1, 1), (1, 2)], as_pairs(&universe));
}

#[test]
fn parser_handles_carriage_returns() {
    let universe = Universe::new("11\r\n11");
    assert_eq!(vec![(0, 0), (0, 1), (1, 0), (1, 1)], as_pairs(&universe));
}

#[test]
fn parser_of_blank_text_gives_empty_universe() {
    assert_eq!(0, Universe::new("   \n\t\n ").len());
}

#[test]
fn boundaries_report_the_coordinate_extremes() {
    let universe = universe_of(&[(0, 1), (1, 2), (2, 0)]);
    let b = universe.boundaries();
    assert_eq!(0, b.line_min);
    assert_eq!(2, b.line_max);
    assert_eq!(0, b.column_min);
    assert_eq!(2, b.column_max);
}

#[test]
fn number_of_neighbors_counts_the_moore_neighborhood() {
    let universe = universe_of(&[(0, 0), (0, 1), (1, 0)]);
    assert_eq!(3, universe.number_of_neighbors(1, 1));
    assert_eq!(2, universe.number_of_neighbors(0, 0));
    assert_eq!(0, universe.number_of_neighbors(-5, -5));
    // the cell itself does not count as its own neighbor
    assert_eq!(2, universe.number_of_neighbors(0, 1));
}

#[test]
fn visibility_follows_the_pixel_mapping() {
    let viewport = Dimensions {
        width: 100,
        height: 60,
    };
    assert!(Entity { line: 0, column: 0 }.is_visible(&viewport));
    assert!(Entity { line: 3, column: 5 }.is_visible(&viewport));
    // 20 pixels per cell: line 3 maps to 60, exactly on the edge
    assert!(Entity { line: 3, column: 0 }.is_visible(&viewport));
    assert!(!Entity { line: 4, column: 0 }.is_visible(&viewport));
    assert!(!Entity { line: 0, column: 6 }.is_visible(&viewport));
    assert!(!Entity {
        line: -1,
        column: 0
    }
    .is_visible(&viewport));
    assert!(!Entity {
        line: 0,
        column: -1
    }
    .is_visible(&viewport));
}

#[test]
fn score_counts_elements_and_visible_cells() {
    let universe = universe_of(&[(0, 0), (1, 1), (10, 10), (-3, 0)]);
    let score = Score::new(Box::new(universe));
    assert_eq!(4, score.elements());
    let viewport = Dimensions {
        width: 40,
        height: 40,
    };
    // (0,0) and (1,1) map inside 40x40 pixels; (10,10) is far outside
    // and a negative line is never visible
    assert_eq!(2, score.visible(&viewport));
}

#[test]
fn cells_update_matches_the_rule() {
    let mut cells = Cells::empty();
    cells.insert(Cell { line: 0, column: 0 });
    cells.insert(Cell { line: 0, column: 1 });
    cells.insert(Cell { line: 1, column: 0 });
    cells.update();
    let got: Vec<(i64, i64)> = cells.cells().iter().map(|c| (c.line, c.column)).collect();
    assert_eq!(vec![(0, 0), (0, 1), (1, 0), (1, 1)], got);
    // a lone cell dies
    let mut lone = Cells::empty();
    lone.insert(Cell { line: 9, column: 9 });
    lone.update();
    assert_eq!(0, lone.len());
    // an empty universe stays empty
    let mut empty = Cells::empty();
    empty.update();
    assert_eq!(0, empty.len());
}

fn universe_of(pairs: &[(i32, i32)]) -> Universe {
    let mut universe = Universe::empty();
    for &(line, column) in pairs {
        universe.insert(Entity { line, column });
    }
    universe
}
