use game_of_life::cells::{Cell, Cells};
use std::cmp::Ordering;

fn cells_from(items: Vec<Cell>) -> Cells {
    let mut cells = Cells::empty();
    for item in items {
        cells.insert(item);
    }
    cells
}

#[test]
fn test_boundaries() {
    cells_from(vec![
        Cell { line: 0, column: 1 },
        Cell { line: 1, column: 2 },
        Cell { line: 2, column: 0 },
    ]);
}

#[test]
fn cells_test_universe_update() {
    let universe = vec![
        Cell { line: 1, column: 0 },
        Cell { line: 0, column: 0 },
        Cell { line: 0, column: 0 },
        Cell { line: 0, column: 1 },
        Cell {
            line: 0,
            column: -1,
        },
    ];
    let mut cells = cells_from(universe);
    cells.update();
    // the next generation of the T-tetromino under the standard rule:
    // every live cell has two or three live neighbors and survives, and
    // the three dead cells bordering the stem's sides and top are born
    assert_eq!(
        cells.cells().iter().cloned().collect::<Vec<Cell>>(),
        vec![
            Cell {
                line: -1,
                column: 0
            },
            Cell {
                line: 0,
                column: -1
            },
            Cell { line: 0, column: 0 },
            Cell { line: 0, column: 1 },
            Cell {
                line: 1,
                column: -1
            },
            Cell { line: 1, column: 0 },
            Cell { line: 1, column: 1 },
        ]
    );
}

#[test]
fn cells_test_universe_order() {
    let cells = cells_from(vec![
        Cell { line: 1, column: 0 },
        Cell { line: 0, column: 0 },
        Cell { line: 0, column: 0 },
        Cell { line: 0, column: 1 },
        Cell {
            line: 0,
            column: -1,
        },
    ]);
    let mut iter = cells.cells().iter();
    assert_eq!(
        Some(&Cell {
            line: 0,
            column: -1
        }),
        iter.next()
    );
    assert_eq!(Some(&Cell { line: 0, column: 0 }), iter.next());
    assert_eq!(Some(&Cell { line: 0, column: 1 }), iter.next());
    assert_eq!(Some(&Cell { line: 1, column: 0 }), iter.next());
    assert_eq!(None, iter.next());
}

#[test]
fn cells_test_cmp() {
    let cell_a = Cell { line: 0, column: 0 };
    let cell_b = Cell { line: 0, column: 0 };
    assert_eq!(Ordering::Equal, cell_a.cmp(&cell_b));
    let cell_a = Cell { line: 0, column: 0 };
    let cell_b = Cell { line: 1, column: 0 };
    assert_eq!(Ordering::Less, cell_a.cmp(&cell_b));
    let cell_a = Cell { line: 1, column: 0 };
    let cell_b = Cell { line: 0, column: 0 };
    assert_eq!(Ordering::Greater, cell_a.cmp(&cell_b));
    let cell_a = Cell { line: 0, column: 0 };
    let cell_b = Cell { line: 0, column: 1 };
    assert_eq!(Ordering::Less, cell_a.cmp(&cell_b));
    let cell_a = Cell { line: 0, column: 1 };
    let cell_b = Cell { line: 0, column: 0 };
    assert_eq!(Ordering::Greater, cell_a.cmp(&cell_b));
}
