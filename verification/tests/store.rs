use graphmat::{Direction, GraphMat};

#[test]
fn main_test() {
    let mut matrix = GraphMat::new();

    matrix.get((1, 2, 3));
    matrix.set((2, 3, 4), 150);
    matrix.get_mut((2, 3, 4));

    println!("{:?}, {:?}", matrix.get((1, 2, 3)), matrix.get((2, 3, 4)));

    matrix.set((4, 3, 6), 40);
    matrix.set((4, 2, 6), 39);
    matrix.set((4, 1, 6), 38);
    matrix.set((4, 0, 6), 37);

    matrix.set((4, 3, 5), 13);
    matrix.set((4, 2, 5), 21);
    matrix.set((4, 1, 5), 22);
    matrix.set((4, 0, 5), 23);

    let mut it = matrix.iter(Direction::dakshin, (4, 3, 6));

    // Runs until it.next() is None
    while let Some((coord, node)) = it.next() {
        println!("Iterating in loop1: {:?} => {}", coord, node);
    }

    let mut it2 = matrix.iter_all_dir((4, 3, 6), Direction::adharastha);

    // Runs until it2.next() is None
    while let Some((coord, node)) = it2.next() {
        println!("Iterating in loop2: {:?} => {}", coord, node);

        it2.set_direction(Direction::dakshin);
    }

    // Conditionally free some nodes
    matrix.free_pos((2, 3, 4));
    matrix.free_all(|n| n == &0);
}

#[test]
fn matrix_set_n() {
    let mut matrix = GraphMat::new();

    for i in 0..99 {
        for j in 0..99 {
            for k in 0..99 {
                matrix.set((i, j, k), i + j + k);
            }
        }
    }
}

#[test]
fn matrix_set_n_get() {
    let mut matrix = GraphMat::new();
    matrix.reserve(1000000);

    for i in 0..99 {
        for j in 0..99 {
            for k in 0..99 {
                matrix.set((i, j, k), i + j + k);
            }
        }
    }

    for i in 0..99 {
        for j in 0..99 {
            for k in 0..99 {
                let node = matrix.get((i, j, k));
                assert!(node.is_some());
                assert_eq!(node.unwrap().clone(), i + j + k);
            }
        }
    }

    println!("len: {}, capacity: {}", matrix.len(), matrix.capacity());
}

#[test]
fn matrix_iterator() {
    let mut matrix = GraphMat::new();
    matrix.reserve(1000000);

    for i in 0..99 {
        for j in 0..99 {
            for k in 0..99 {
                matrix.set((i, j, k), i + j + k);
            }
        }
    }

    for j in 0..99 {
        for k in 0..99 {
            let mut it = matrix.iter(Direction::purva, (0, j, k));

            let mut i = 0;
            while let Some((coord, val)) = it.next() {
                i += 1;
                assert_eq!(*val, coord.0 + coord.1 + coord.2);
            }
            assert_eq!(i, 99);
        }
    }
}

#[test]
fn simple_matrix_init() {
    // A dense matrix of the same extent, for comparison
    let mut matrix = Vec::new();

    for i in 0..99 {
        matrix.push(Vec::new());
        for j in 0..99 {
            matrix[i].push(Vec::new());
            for k in 0..99 {
                matrix[i][j].push(i + j + k);
            }
        }
    }

    for i in 0..99 {
        for j in 0..99 {
            for k in 0..99 {
                assert_ne!(matrix[i][j][k], 99999);
                assert_eq!(matrix[i][j][k], i + j + k);
            }
        }
    }
}

#[test]
fn new_store_is_empty() {
    let matrix = GraphMat::new();
    assert_eq!(matrix.len(), 0);
    assert_eq!(matrix.get((0, 0, 0)), None);
    assert_eq!(matrix.get((1, 2, 3)), None);
    assert_eq!(matrix.get((-7, 5, -2)), None);
    assert_eq!(matrix.find(&0), None);
}

#[test]
fn read_after_write_on_every_corner() {
    let mut value = 0;
    for dx in 0..2 {
        for dy in 0..2 {
            for dz in 0..2 {
                let mut matrix = GraphMat::new();
                let coord = (10 + dx, -6 + dy, 2 + dz);
                value += 1;
                matrix.set(coord, value);
                assert_eq!(matrix.get(coord), Some(&value));
                matrix.set(coord, value + 100);
                assert_eq!(matrix.get(coord), Some(&(value + 100)));
            }
        }
    }
}

#[test]
fn read_after_write_at_the_edges_of_the_grid() {
    let mut matrix = GraphMat::new();
    let low = (i32::MIN, i32::MIN, i32::MIN);
    let high = (i32::MAX, i32::MAX, i32::MAX);
    let mixed = (i32::MIN + 1, i32::MAX - 1, -1);
    matrix.set(low, 1);
    matrix.set(high, 2);
    matrix.set(mixed, 3);
    assert_eq!(matrix.get(low), Some(&1));
    assert_eq!(matrix.get(high), Some(&2));
    assert_eq!(matrix.get(mixed), Some(&3));
    assert_eq!(matrix.get((i32::MAX - 1, i32::MAX - 1, i32::MAX - 1)), None);
}

#[test]
fn untouched_coordinates_read_empty() {
    let mut matrix = GraphMat::new();
    matrix.set((1, 1, 1), 5);
    // the way to (1, 1, 1) runs over placeholders: none of them holds anything
    assert_eq!(matrix.get((0, 0, 0)), None);
    assert_eq!(matrix.get((0, 1, 0)), None);
    assert_eq!(matrix.get((1, 1, 0)), None);
    assert_eq!(matrix.get((1, 0, 0)), None);
    assert_eq!(matrix.get((0, 0, 1)), None);
    assert_eq!(matrix.get((1, 0, 1)), None);
    assert_eq!(matrix.get((0, 1, 1)), None);
    assert_eq!(matrix.get((2, 2, 2)), None);
    assert_eq!(matrix.get((-1, -1, -1)), None);
    assert_eq!(matrix.get((1, 1, 1)), Some(&5));
}

#[test]
fn cubes_do_not_disturb_each_other() {
    let mut matrix = GraphMat::new();
    matrix.set((1, 1, 1), 1);
    matrix.set((3, 1, 1), 2);
    matrix.set((-1, -1, -1), 3);
    matrix.set((1, 3, 1), 4);
    matrix.set((2, 0, 0), 5);
    matrix.set((2, 0, 1), 6);
    assert_eq!(matrix.get((1, 1, 1)), Some(&1));
    assert_eq!(matrix.get((3, 1, 1)), Some(&2));
    assert_eq!(matrix.get((-1, -1, -1)), Some(&3));
    assert_eq!(matrix.get((1, 3, 1)), Some(&4));
    assert_eq!(matrix.get((2, 0, 0)), Some(&5));
    assert_eq!(matrix.get((2, 0, 1)), Some(&6));
    // storing at a corner that others are reached through disturbs none of them
    matrix.set((2, 1, 0), 7);
    assert_eq!(matrix.get((3, 1, 1)), Some(&2));
    assert_eq!(matrix.get((1, 1, 1)), Some(&1));
    assert_eq!(matrix.get((-1, -1, -1)), Some(&3));
    assert_eq!(matrix.get((1, 3, 1)), Some(&4));
    matrix.free_pos((2, 0, 0));
    assert_eq!(matrix.get((2, 0, 0)), None);
    assert_eq!(matrix.get((2, 0, 1)), None);
    assert_eq!(matrix.get((2, 1, 0)), None);
    assert_eq!(matrix.get((1, 1, 1)), Some(&1));
    assert_eq!(matrix.get((-1, -1, -1)), Some(&3));
    assert_eq!(matrix.get((1, 3, 1)), Some(&4));
}

#[test]
fn leader_keeps_its_corners_when_overwritten() {
    let mut matrix = GraphMat::new();
    matrix.set((1, 1, 1), 7);
    matrix.set((1, 0, 0), 8);
    matrix.set((0, 0, 0), 9);
    matrix.set((0, 0, 0), 10);
    assert_eq!(matrix.get((0, 0, 0)), Some(&10));
    assert_eq!(matrix.get((1, 1, 1)), Some(&7));
    assert_eq!(matrix.get((1, 0, 0)), Some(&8));
}

#[test]
fn storing_at_a_corner_keeps_the_corners_behind_it() {
    let mut matrix = GraphMat::new();
    matrix.set((1, 1, 0), 5);
    matrix.set((1, 1, 1), 6);
    matrix.set((0, 1, 1), 4);
    matrix.set((1, 0, 1), 3);
    matrix.set((0, 0, 1), 2);
    // north is the first hop of (1,1,0), (1,1,1) and (0,1,1)
    matrix.set((0, 1, 0), 7);
    assert_eq!(matrix.get((0, 1, 0)), Some(&7));
    assert_eq!(matrix.get((1, 1, 0)), Some(&5));
    assert_eq!(matrix.get((1, 1, 1)), Some(&6));
    assert_eq!(matrix.get((0, 1, 1)), Some(&4));
    assert_eq!(matrix.get((1, 0, 1)), Some(&3));
    assert_eq!(matrix.get((0, 0, 1)), Some(&2));
    // east is the first hop of (1,0,1)
    matrix.set((1, 0, 0), 8);
    assert_eq!(matrix.get((1, 0, 0)), Some(&8));
    assert_eq!(matrix.get((1, 0, 1)), Some(&3));
    // and over again, on corners that hold something
    matrix.set((0, 1, 0), 17);
    matrix.set((1, 1, 0), 15);
    matrix.set((1, 0, 0), 18);
    assert_eq!(matrix.get((0, 1, 0)), Some(&17));
    assert_eq!(matrix.get((1, 1, 0)), Some(&15));
    assert_eq!(matrix.get((1, 1, 1)), Some(&6));
    assert_eq!(matrix.get((0, 1, 1)), Some(&4));
    assert_eq!(matrix.get((1, 0, 0)), Some(&18));
    assert_eq!(matrix.get((1, 0, 1)), Some(&3));
    assert_eq!(matrix.get((0, 0, 1)), Some(&2));
    assert_eq!(matrix.get((0, 0, 0)), None);
    // seven corners and the leader's placeholder; nothing is left over
    assert_eq!(matrix.len(), 8);
}

#[test]
fn two_writes_on_one_hop_chain() {
    let mut matrix = GraphMat::new();
    matrix.set((1, 1, 0), 1);
    matrix.set((0, 1, 0), 2);
    assert_eq!(matrix.get((0, 1, 0)), Some(&2));
    assert_eq!(matrix.get((1, 1, 0)), Some(&1));
    assert_eq!(matrix.get((0, 0, 0)), None);
    assert_eq!(matrix.len(), 3);
}

#[test]
fn writes_in_every_order_read_back() {
    let corners = [
        (0, 0, 0),
        (1, 0, 0),
        (0, 1, 0),
        (1, 1, 0),
        (0, 0, 1),
        (1, 0, 1),
        (0, 1, 1),
        (1, 1, 1),
    ];
    // every corner first, then every other corner after it, in both orders
    for a in 0..8 {
        for b in 0..8 {
            let mut matrix = GraphMat::new();
            matrix.set(corners[a], 10 + a as i32);
            matrix.set(corners[b], 20 + b as i32);
            for c in (0..8).rev() {
                if c != a && c != b {
                    matrix.set(corners[c], 30 + c as i32);
                }
            }
            for c in 0..8 {
                let expected = if c == b {
                    20 + c as i32
                } else if c == a {
                    10 + c as i32
                } else {
                    30 + c as i32
                };
                assert_eq!(matrix.get(corners[c]), Some(&expected));
                assert_eq!(matrix.find(&expected), Some(corners[c]));
            }
            assert_eq!(matrix.len(), 8);
        }
    }
}

#[test]
fn storing_over_a_corner_replaces_its_node() {
    let mut matrix = GraphMat::new();
    matrix.set((1, 0, 0), 1);
    assert_eq!(matrix.len(), 2);
    matrix.set((1, 0, 0), 2);
    assert_eq!(matrix.len(), 2);
    assert_eq!(matrix.get((1, 0, 0)), Some(&2));
    assert_eq!(matrix.find(&1), None);
    assert_eq!(matrix.find(&2), Some((1, 0, 0)));
}

#[test]
fn placeholders_are_made_on_the_way() {
    let mut matrix = GraphMat::new();
    matrix.set((1, 1, 1), 5);
    // leader, north, north-east, and the node itself
    assert_eq!(matrix.len(), 4);
    matrix.set((1, 1, 0), 6);
    assert_eq!(matrix.len(), 4);
    assert_eq!(matrix.get((1, 1, 0)), Some(&6));
    assert_eq!(matrix.get((1, 1, 1)), Some(&5));
    matrix.set((0, 0, 0), 1);
    assert_eq!(matrix.len(), 4);
}

#[test]
fn get_mut_writes_through() {
    let mut matrix = GraphMat::new();
    matrix.set((3, 3, 3), 1);
    matrix.set((2, 2, 2), 2);
    if let Some(payload) = matrix.get_mut((3, 3, 3)) {
        *payload += 41;
    }
    *matrix.get_mut((2, 2, 2)).unwrap() = -2;
    assert_eq!(matrix.get((3, 3, 3)), Some(&42));
    assert_eq!(matrix.get((2, 2, 2)), Some(&-2));
    assert!(matrix.get_mut((2, 3, 2)).is_none());
    assert!(matrix.get_mut((9, 9, 9)).is_none());
}

#[test]
fn free_pos_empties_the_leader() {
    let mut matrix = GraphMat::new();
    matrix.set((4, 4, 4), 1);
    matrix.set((6, 4, 4), 2);
    assert_eq!(matrix.len(), 2);
    matrix.free_pos((4, 4, 4));
    assert_eq!(matrix.get((4, 4, 4)), None);
    assert_eq!(matrix.get((6, 4, 4)), Some(&2));
    assert_eq!(matrix.len(), 1);
    assert_eq!(matrix.find(&1), None);
}

#[test]
fn free_pos_leaves_the_other_corners_behind() {
    let mut matrix = GraphMat::new();
    matrix.set((0, 0, 0), 1);
    matrix.set((1, 0, 0), 5);
    matrix.free_pos((0, 0, 0));
    // the whole cube reads as empty
    assert_eq!(matrix.get((0, 0, 0)), None);
    assert_eq!(matrix.get((1, 0, 0)), None);
    // but the corner's node is still in the arena, and a scan comes across it
    assert_eq!(matrix.len(), 1);
    assert_eq!(matrix.find(&5), Some((1, 0, 0)));
    assert_eq!(matrix.find(&1), None);
    // storing into the cube again starts it afresh
    matrix.set((1, 0, 0), 6);
    assert_eq!(matrix.get((1, 0, 0)), Some(&6));
    assert_eq!(matrix.get((0, 0, 0)), None);
}

#[test]
fn free_pos_on_other_coordinates_changes_nothing() {
    let mut matrix = GraphMat::new();
    matrix.set((0, 0, 0), 1);
    matrix.set((1, 0, 0), 5);
    matrix.free_pos((1, 0, 0));
    matrix.free_pos((2, 0, 0));
    assert_eq!(matrix.get((0, 0, 0)), Some(&1));
    assert_eq!(matrix.get((1, 0, 0)), Some(&5));
    assert_eq!(matrix.len(), 2);
}

#[test]
fn free_all_tests_the_leaders_only() {
    let mut matrix = GraphMat::new();
    matrix.set((0, 0, 0), 0);
    matrix.set((1, 0, 0), 3);
    matrix.set((2, 0, 0), 1);
    matrix.set((3, 0, 0), 0);
    matrix.set((5, 0, 0), 0);
    matrix.set((6, 0, 0), 0);
    matrix.free_all(|n| n == &0);
    // led by a zero: the whole cube goes
    assert_eq!(matrix.get((0, 0, 0)), None);
    assert_eq!(matrix.get((1, 0, 0)), None);
    assert_eq!(matrix.get((6, 0, 0)), None);
    // led by a one: the cube stays, whatever its corners hold
    assert_eq!(matrix.get((2, 0, 0)), Some(&1));
    assert_eq!(matrix.get((3, 0, 0)), Some(&0));
    // led by a placeholder: the cube stays
    assert_eq!(matrix.get((5, 0, 0)), Some(&0));
}

#[test]
fn free_all_with_nothing_to_free() {
    let mut matrix = GraphMat::new();
    matrix.free_all(|_| true);
    matrix.set((2, 2, 2), 4);
    matrix.free_all(|n| *n > 4);
    assert_eq!(matrix.get((2, 2, 2)), Some(&4));
    matrix.free_all(|n| *n == 4);
    assert_eq!(matrix.get((2, 2, 2)), None);
    assert_eq!(matrix.len(), 0);
}

#[test]
fn find_returns_a_coordinate_that_holds_the_value() {
    let mut matrix = GraphMat::new();
    matrix.set((1, 1, 1), 11);
    matrix.set((-3, 4, 8), 12);
    matrix.set((6, 6, 6), 13);
    for value in [11, 12, 13] {
        let found = matrix.find(&value).unwrap();
        assert_eq!(matrix.get(found), Some(&value));
    }
    assert_eq!(matrix.find(&11), Some((1, 1, 1)));
    assert_eq!(matrix.find(&12), Some((-3, 4, 8)));
    assert_eq!(matrix.find(&13), Some((6, 6, 6)));
    assert_eq!(matrix.find(&14), None);
}

#[test]
fn find_returns_the_first_in_arena_order() {
    let mut matrix = GraphMat::new();
    matrix.set((0, 0, 0), 5);
    matrix.set((8, 8, 8), 5);
    matrix.set((-8, -8, -8), 5);
    assert_eq!(matrix.find(&5), Some((0, 0, 0)));
    matrix.free_pos((0, 0, 0));
    assert_eq!(matrix.find(&5), Some((8, 8, 8)));
    // the freed slot is the next to be taken, and it comes first in the arena
    matrix.set((2, 2, 2), 5);
    assert_eq!(matrix.find(&5), Some((2, 2, 2)));
}

#[test]
fn find_agrees_with_get_after_writes_along_a_hop_chain() {
    let mut matrix = GraphMat::new();
    matrix.set((1, 1, 0), 5);
    matrix.set((0, 1, 0), 6);
    assert_eq!(matrix.find(&5), Some((1, 1, 0)));
    assert_eq!(matrix.get((1, 1, 0)), Some(&5));
    assert_eq!(matrix.find_if(|n| *n == 5), Some((1, 1, 0)));
    assert_eq!(matrix.find(&6), Some((0, 1, 0)));
    assert_eq!(matrix.get((0, 1, 0)), Some(&6));
    matrix.set((0, 1, 0), 7);
    assert_eq!(matrix.find(&6), None);
    assert_eq!(matrix.find(&5), Some((1, 1, 0)));
}

#[test]
fn find_passes_over_placeholders() {
    let mut matrix = GraphMat::new();
    matrix.set((1, 1, 1), 0);
    // the placeholders at (0,0,0), (0,1,0) and (1,1,0) hold nothing, not zero
    assert_eq!(matrix.find(&0), Some((1, 1, 1)));
    assert_eq!(matrix.find_if(|_| true), Some((1, 1, 1)));
}

#[test]
fn find_if_tests_payloads() {
    let mut matrix = GraphMat::new();
    matrix.set((2, 0, 0), 3);
    matrix.set((4, 0, 0), 8);
    matrix.set((6, 0, 1), 9);
    assert_eq!(matrix.find_if(|n| n % 2 == 0), Some((4, 0, 0)));
    assert_eq!(matrix.find_if(|n| *n > 8), Some((6, 0, 1)));
    assert_eq!(matrix.find_if(|n| *n > 2), Some((2, 0, 0)));
    assert_eq!(matrix.find_if(|n| *n > 9), None);
    assert_eq!(GraphMat::new().find_if(|_| true), None);
}

#[test]
fn reserve_adds_slots_and_changes_nothing_else() {
    let mut matrix = GraphMat::new();
    matrix.set((1, 2, 3), 4);
    let len = matrix.len();
    let slots = matrix.capacity();
    matrix.reserve(100);
    assert_eq!(matrix.len(), len);
    assert_eq!(matrix.capacity(), slots + (100 - len));
    assert_eq!(matrix.get((1, 2, 3)), Some(&4));
    assert_eq!(matrix.find(&4), Some((1, 2, 3)));
}

#[test]
fn reserve_below_the_current_size_asks_for_nothing() {
    let mut matrix = GraphMat::new();
    for x in 0..20 {
        matrix.set((2 * x, 0, 0), x);
    }
    let slots = matrix.capacity();
    matrix.reserve(0);
    matrix.reserve(5);
    matrix.reserve(20);
    assert_eq!(matrix.capacity(), slots);
    assert_eq!(matrix.len(), 20);
    for x in 0..20 {
        assert_eq!(matrix.get((2 * x, 0, 0)), Some(&x));
    }
}

#[test]
fn reserve_then_fill_reads_back() {
    let mut matrix = GraphMat::new();
    matrix.reserve(64);
    let mut n = 0;
    for x in 0..4 {
        for y in 0..4 {
            for z in 0..4 {
                matrix.set((x, y, z), n);
                n += 1;
            }
        }
    }
    // going on past the reserved capacity is no different
    for x in 4..8 {
        matrix.set((x, 0, 0), 1000 + x);
    }
    let mut n = 0;
    for x in 0..4 {
        for y in 0..4 {
            for z in 0..4 {
                assert_eq!(matrix.get((x, y, z)), Some(&n));
                n += 1;
            }
        }
    }
    for x in 4..8 {
        assert_eq!(matrix.get((x, 0, 0)), Some(&(1000 + x)));
    }
}

#[test]
fn removed_slots_are_not_seen_through_old_links() {
    let mut matrix = GraphMat::new();
    matrix.set((1, 0, 0), 1);
    matrix.free_pos((0, 0, 0));
    // the leader's slot is free again; the next node takes it
    matrix.set((10, 10, 10), 2);
    assert_eq!(matrix.get((0, 0, 0)), None);
    assert_eq!(matrix.get((1, 0, 0)), None);
    assert_eq!(matrix.get((10, 10, 10)), Some(&2));
}

#[test]
fn nodes_carry_their_coordinates() {
    let mut matrix = GraphMat::new();
    matrix.set((1, 1, 1), 9);
    for coord in [(0, 0, 0), (0, 1, 0), (1, 1, 0), (1, 1, 1)] {
        let idx = matrix.get_node_index(coord).unwrap();
        let node = matrix.node(idx).unwrap();
        assert_eq!(node.coord, coord);
        assert_eq!(node.get(), matrix.get(coord));
    }
    assert!(matrix.get_node_index((1, 0, 0)).is_none());
    assert!(matrix.get_node_index((0, 0, 1)).is_none());
    assert!(matrix.get_node_index((2, 0, 0)).is_none());
    // the node that is stored over leaves the arena
    let before = matrix.get_node_index((1, 1, 1)).unwrap();
    matrix.set((1, 1, 1), 10);
    let after = matrix.get_node_index((1, 1, 1)).unwrap();
    assert_ne!(before, after);
    assert!(matrix.node(before).is_none());
    assert_eq!(matrix.node(after).unwrap().get(), Some(&10));
    // a leader is written in place
    let leader = matrix.get_node_index((0, 0, 0)).unwrap();
    matrix.set((0, 0, 0), 1);
    assert_eq!(matrix.get_node_index((0, 0, 0)), Some(leader));
}

#[test]
fn reserve_of_exactly_what_is_held_leaves_the_store_usable() {
    let mut matrix = GraphMat::new();
    for x in 0..20 {
        matrix.set((2 * x, 0, 0), x);
    }
    assert_eq!(matrix.len(), 20);
    let slots = matrix.capacity();
    matrix.reserve(20);
    assert_eq!(matrix.capacity(), slots);
    // fill every slot there is, and go on past them
    for x in 20..(slots as i32 + 8) {
        matrix.set((2 * x, 0, 0), x);
        assert_eq!(matrix.get((2 * x, 0, 0)), Some(&x));
    }
    for x in 0..(slots as i32 + 8) {
        assert_eq!(matrix.get((2 * x, 0, 0)), Some(&x));
    }
}

#[test]
fn reserve_on_an_empty_store_of_nothing() {
    let mut matrix = GraphMat::new();
    matrix.reserve(0);
    for x in 0..10 {
        matrix.set((x, x, x), x);
    }
    for x in 0..10 {
        assert_eq!(matrix.get((x, x, x)), Some(&x));
    }
}

#[test]
fn free_all_takes_the_leaders_out_of_index_and_arena() {
    let mut matrix = GraphMat::new();
    matrix.set((0, 0, 0), 0);
    matrix.set((1, 1, 0), 7);
    matrix.set((2, 0, 0), 1);
    matrix.set((4, 0, 0), 0);
    assert_eq!(matrix.len(), 5);
    let freed = [
        matrix.get_node_index((0, 0, 0)).unwrap(),
        matrix.get_node_index((4, 0, 0)).unwrap(),
    ];
    let kept = matrix.get_node_index((2, 0, 0)).unwrap();
    matrix.free_all(|n| *n == 0);
    // no coordinate of a freed cube has a node any more
    for coord in [(0, 0, 0), (0, 1, 0), (1, 1, 0), (4, 0, 0), (5, 1, 1)] {
        assert!(matrix.get_node_index(coord).is_none());
    }
    // the leaders' nodes have left the arena; the other two of their cube stay
    for idx in freed {
        assert!(matrix.node(idx).is_none());
    }
    assert_eq!(matrix.len(), 3);
    assert_eq!(matrix.get_node_index((2, 0, 0)), Some(kept));
    assert_eq!(matrix.get((2, 0, 0)), Some(&1));
    // a freed cube starts afresh
    matrix.set((0, 0, 0), 5);
    assert_eq!(matrix.get((0, 0, 0)), Some(&5));
    assert_eq!(matrix.get((1, 1, 0)), None);
}
