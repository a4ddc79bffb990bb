use graphmat::{Direction, GraphMat};

fn filled_block() -> GraphMat {
    let mut matrix = GraphMat::new();
    for x in -3..4 {
        for y in -3..4 {
            for z in -3..4 {
                matrix.set((x, y, z), 100 * x + 10 * y + z);
            }
        }
    }
    matrix
}

#[test]
fn fixed_direction_scenario() {
    let mut matrix = GraphMat::new();
    matrix.set((4, 3, 6), 40);
    matrix.set((4, 2, 6), 39);
    matrix.set((4, 1, 6), 38);
    matrix.set((4, 0, 6), 37);
    matrix.set((4, 3, 5), 13);
    matrix.set((4, 2, 5), 21);
    matrix.set((4, 1, 5), 22);
    matrix.set((4, 0, 5), 23);

    let mut it = matrix.iter(Direction::dakshin, (4, 3, 6));
    assert_eq!(it.next(), Some(((4, 3, 6), &40)));
    assert_eq!(it.next(), Some(((4, 2, 6), &39)));
    assert_eq!(it.next(), Some(((4, 1, 6), &38)));
    assert_eq!(it.next(), Some(((4, 0, 6), &37)));
    assert_eq!(it.next(), None);
}

#[test]
fn changing_direction_bends_the_path() {
    let mut matrix = GraphMat::new();
    matrix.set((4, 3, 6), 40);
    matrix.set((4, 2, 6), 39);
    matrix.set((4, 3, 5), 13);
    matrix.set((4, 2, 5), 21);
    matrix.set((4, 1, 5), 22);
    matrix.set((4, 0, 5), 23);

    let mut it = matrix.iter_all_dir((4, 3, 6), Direction::adharastha);
    assert_eq!(it.next(), Some(((4, 3, 6), &40)));
    assert_eq!(it.set_direction(Direction::dakshin), Direction::adharastha);
    assert_eq!(it.next(), Some(((4, 3, 5), &13)));
    assert_eq!(it.set_direction(Direction::dakshin), Direction::dakshin);
    assert_eq!(it.next(), Some(((4, 2, 5), &21)));
    assert_eq!(it.next(), Some(((4, 1, 5), &22)));
    assert_eq!(it.next(), Some(((4, 0, 5), &23)));
    assert_eq!(it.next(), None);
}

#[test]
fn set_direction_applies_to_the_next_step_only() {
    let matrix = filled_block();
    let mut it = matrix.iter_all_dir((0, 0, 0), Direction::purva);
    assert_eq!(it.curr_pos(), (0, 0, 0));
    assert_eq!(it.set_direction(Direction::uttar), Direction::purva);
    // the cursor has not moved
    assert_eq!(it.curr_pos(), (0, 0, 0));
    assert_eq!(it.next(), Some(((0, 0, 0), &0)));
    assert_eq!(it.curr_pos(), (0, 1, 0));
    assert_eq!(it.set_direction(Direction::urdhwa), Direction::uttar);
    assert_eq!(it.next(), Some(((0, 1, 0), &10)));
    assert_eq!(it.curr_pos(), (0, 1, 1));
}

#[test]
fn every_direction_steps_by_its_delta() {
    let matrix = filled_block();
    let runs = [
        (Direction::uttar, (0, 1, 0)),
        (Direction::purva, (1, 0, 0)),
        (Direction::paschim, (-1, 0, 0)),
        (Direction::dakshin, (0, -1, 0)),
        (Direction::vayavya, (-1, 1, 0)),
        (Direction::ishanya, (1, 1, 0)),
        (Direction::nairutya, (-1, -1, 0)),
        (Direction::agneya, (1, -1, 0)),
        (Direction::urdhwa, (0, 0, 1)),
        (Direction::adharastha, (0, 0, -1)),
    ];
    for (dir, delta) in runs {
        assert_eq!(dir.delta(), delta);
        for start in [(0, 0, 0), (1, 1, 1), (-1, 0, 1), (0, -1, -1)] {
            let mut it = matrix.iter(dir, start);
            let mut at = start;
            let mut steps = 0;
            while let Some((coord, value)) = it.next() {
                assert_eq!(coord, at);
                assert_eq!(*value, 100 * at.0 + 10 * at.1 + at.2);
                at = (at.0 + delta.0, at.1 + delta.1, at.2 + delta.2);
                steps += 1;
            }
            // the run ends one step outside the block
            assert!(at.0.abs() == 4 || at.1.abs() == 4 || at.2.abs() == 4);
            assert!(steps >= 3 && steps <= 5);
            assert_eq!(it.curr_pos(), (at.0 + delta.0, at.1 + delta.1, at.2 + delta.2));
        }
    }
}

#[test]
fn a_run_ends_at_the_first_gap() {
    let mut matrix = GraphMat::new();
    matrix.set((0, 0, 0), 1);
    matrix.set((1, 0, 0), 2);
    matrix.set((3, 0, 0), 4);
    let mut it = matrix.iter(Direction::purva, (0, 0, 0));
    assert_eq!(it.next(), Some(((0, 0, 0), &1)));
    assert_eq!(it.next(), Some(((1, 0, 0), &2)));
    assert_eq!(it.next(), None);
    // the cursor is a plain cursor: it stepped over the gap
    assert_eq!(it.curr_pos(), (3, 0, 0));
    assert_eq!(it.next(), Some(((3, 0, 0), &4)));
    assert_eq!(it.next(), None);
}

#[test]
fn a_run_ends_on_a_placeholder() {
    let mut matrix = GraphMat::new();
    matrix.set((0, 0, 0), 1);
    matrix.set((0, 1, 1), 2);
    // (0, 1, 0) is a placeholder on the way to (0, 1, 1)
    let mut it = matrix.iter(Direction::uttar, (0, 0, 0));
    assert_eq!(it.next(), Some(((0, 0, 0), &1)));
    assert_eq!(it.next(), None);
    let mut up = matrix.iter(Direction::urdhwa, (0, 1, 0));
    assert_eq!(up.next(), None);
    assert_eq!(up.next(), Some(((0, 1, 1), &2)));
}

#[test]
fn a_cursor_on_an_empty_store_yields_nothing() {
    let matrix = GraphMat::new();
    let mut it = matrix.iter(Direction::ishanya, (5, 5, 5));
    assert_eq!(it.next(), None);
    assert_eq!(it.curr_pos(), (6, 6, 5));
    let mut free = matrix.iter_all_dir((5, 5, 5), Direction::nairutya);
    assert_eq!(free.next(), None);
    assert_eq!(free.curr_pos(), (4, 4, 5));
}

#[test]
fn links_and_lookups_agree_across_cubes() {
    // east from x = 0 to x = 5 crosses three cubes: the step from an even x
    // follows a link, the step from an odd x is looked up
    let mut matrix = GraphMat::new();
    for x in 0..6 {
        matrix.set((x, 1, 1), x);
    }
    let mut it = matrix.iter(Direction::purva, (0, 1, 1));
    for x in 0..6 {
        assert_eq!(it.next(), Some(((x, 1, 1), &x)));
    }
    assert_eq!(it.next(), None);
    // up from z = 0 to z = 3, on a corner whose chain takes all three links
    for z in 0..4 {
        matrix.set((1, 1, z), 10 + z);
    }
    let mut up = matrix.iter(Direction::urdhwa, (1, 1, 0));
    for z in 0..4 {
        assert_eq!(up.next(), Some(((1, 1, z), &(10 + z))));
    }
    assert_eq!(up.next(), None);
}

#[test]
fn a_cursor_at_the_edge_of_the_grid_stays_where_nothing_is() {
    let mut matrix = GraphMat::new();
    matrix.set((i32::MAX - 1, 0, 0), 1);
    let mut it = matrix.iter(Direction::purva, (i32::MAX - 1, 0, 0));
    assert_eq!(it.next(), Some(((i32::MAX - 1, 0, 0), &1)));
    assert_eq!(it.curr_pos(), (i32::MAX, 0, 0));
    // nothing is stored on the edge, and there is nowhere further east
    assert_eq!(it.next(), None);
    assert_eq!(it.curr_pos(), (i32::MAX, 0, 0));
    assert_eq!(it.next(), None);
    assert_eq!(it.curr_pos(), (i32::MAX, 0, 0));
    let mut down = matrix.iter_all_dir((0, 0, i32::MIN), Direction::adharastha);
    assert_eq!(down.next(), None);
    assert_eq!(down.curr_pos(), (0, 0, i32::MIN));
    // turned round, it moves again
    down.set_direction(Direction::urdhwa);
    assert_eq!(down.next(), None);
    assert_eq!(down.curr_pos(), (0, 0, i32::MIN + 1));
}
