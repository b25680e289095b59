use game_of_life::universe::{Entity, Universe};
use std::cmp::Ordering;

fn universe_from(items: Vec<Entity>) -> Universe {
    let mut universe = Universe::empty();
    for item in items {
        universe.insert(item);
    }
    universe
}

#[test]
fn universe_test_universe_update() {
    let mut universe = Universe::new(
        r#"
010
001
111
        "#,
    );
    universe.tick();
    assert_eq!(
        Universe::new(
            r#"
000
101
011
010
        "#
        ),
        universe
    );
    universe.tick();
    assert_eq!(
        Universe::new(
            r#"
000
001
101
011
        "#
        ),
        universe
    );
    universe.tick();
    assert_eq!(
        Universe::new(
            r#"
0000
0100
0011
0110
        "#
        ),
        universe
    );
    universe.tick();
    assert_eq!(
        Universe::new(
            r#"
0000
0010
0001
0111
        "#
        ),
        universe
    );
}

#[test]
fn universe_test_universe_order() {
    let universe = universe_from(vec![
        Entity { line: 1, column: 0 },
        Entity { line: 0, column: 0 },
        Entity { line: 0, column: 0 },
        Entity { line: 0, column: 1 },
        Entity {
            line: 0,
            column: -1,
        },
    ]);
    let mut iter = universe.entities().iter();
    assert_eq!(
        Some(&Entity {
            line: 0,
            column: -1
        }),
        iter.next()
    );
    assert_eq!(Some(&Entity { line: 0, column: 0 }), iter.next());
    assert_eq!(Some(&Entity { line: 0, column: 1 }), iter.next());
    assert_eq!(Some(&Entity { line: 1, column: 0 }), iter.next());
    assert_eq!(None, iter.next());
}

#[test]
fn universe_test_cmp() {
    let cell_a = Entity { line: 0, column: 0 };
    let cell_b = Entity { line: 0, column: 0 };
    assert_eq!(Ordering::Equal, cell_a.cmp(&cell_b));
    let cell_a = Entity { line: 0, column: 0 };
    let cell_b = Entity { line: 1, column: 0 };
    assert_eq!(Ordering::Less, cell_a.cmp(&cell_b));
    let cell_a = Entity { line: 1, column: 0 };
    let cell_b = Entity { line: 0, column: 0 };
    assert_eq!(Ordering::Greater, cell_a.cmp(&cell_b));
    let cell_a = Entity { line: 0, column: 0 };
    let cell_b = Entity { line: 0, column: 1 };
    assert_eq!(Ordering::Less, cell_a.cmp(&cell_b));
    let cell_a = Entity { line: 0, column: 1 };
    let cell_b = Entity { line: 0, column: 0 };
    assert_eq!(Ordering::Greater, cell_a.cmp(&cell_b));
}
