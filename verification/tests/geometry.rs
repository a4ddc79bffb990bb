use graphmat::coord::{cube_key, inc_coord, leader, offset, step_fits};
use graphmat::hops::hop_chain;
use graphmat::iterators::link_for;
use graphmat::node::{Link, Node};
use graphmat::Direction;

#[test]
fn leader_arithmetic() {
    assert_eq!(leader((5, 5, 5)), (4, 4, 4));
    assert_eq!(leader((4, 4, 4)), (4, 4, 4));
    assert_eq!(leader((-1, 0, 0)), (-2, 0, 0));
}

#[test]
fn leader_floors_towards_negative_infinity() {
    assert_eq!(leader((-1, -2, -3)), (-2, -2, -4));
    assert_eq!(leader((1, 2, 3)), (0, 2, 2));
    assert_eq!(leader((0, 0, 0)), (0, 0, 0));
    assert_eq!(leader((i32::MIN, i32::MIN + 1, i32::MAX)), (i32::MIN, i32::MIN, i32::MAX - 1));
}

#[test]
fn offset_is_the_distance_from_the_leader() {
    assert_eq!(offset((5, 4, 5)), (1, 0, 1));
    assert_eq!(offset((-1, -2, -3)), (1, 0, 1));
    assert_eq!(offset((4, 4, 4)), (0, 0, 0));
    assert_eq!(offset((i32::MAX, i32::MIN, -1)), (1, 0, 1));
    for x in -4..5 {
        for y in -4..5 {
            for z in -4..5 {
                let l = leader((x, y, z));
                let d = offset((x, y, z));
                assert_eq!((l.0 + d.0, l.1 + d.1, l.2 + d.2), (x, y, z));
                assert!(l.0 % 2 == 0 && l.1 % 2 == 0 && l.2 % 2 == 0);
                assert!(d.0 >= 0 && d.0 < 2 && d.1 >= 0 && d.1 < 2 && d.2 >= 0 && d.2 < 2);
            }
        }
    }
}

#[test]
fn inc_coord_adds_componentwise() {
    assert_eq!(inc_coord((1, 2, 3), (0, -1, 0)), (1, 1, 3));
    assert_eq!(inc_coord((-5, 0, 7), (1, 1, 0)), (-4, 1, 7));
    assert_eq!(inc_coord((i32::MAX - 1, i32::MIN + 1, 0), (1, -1, 0)), (i32::MAX, i32::MIN, 0));
}

#[test]
fn cube_keys_lay_the_components_side_by_side() {
    let bias: u128 = 1 << 31;
    assert_eq!(cube_key((0, 0, 0)), (bias << 64) + (bias << 32) + bias);
    assert_eq!(cube_key((i32::MIN, i32::MIN, i32::MIN)), 0);
    assert_eq!(cube_key((i32::MAX, i32::MAX, i32::MAX)), (1u128 << 96) - 1);
    assert_eq!(cube_key((2, -2, 4)), ((bias + 2) << 64) + ((bias - 2) << 32) + bias + 4);
    assert_eq!(cube_key((0, 0, 1)), cube_key((0, 0, 0)) + 1);
    assert_eq!(cube_key((0, 1, 0)), cube_key((0, 0, 0)) + (1 << 32));
    assert_eq!(cube_key((1, 0, 0)), cube_key((0, 0, 0)) + (1 << 64));
}

#[test]
fn hop_table_has_seven_chains() {
    let chain = |d| hop_chain(d).map(|c| c.links());
    assert_eq!(chain((1, 0, 0)), Some(vec![Link::East]));
    assert_eq!(chain((0, 1, 0)), Some(vec![Link::North]));
    assert_eq!(chain((0, 0, 1)), Some(vec![Link::Sky]));
    assert_eq!(chain((0, 1, 1)), Some(vec![Link::North, Link::Sky]));
    assert_eq!(chain((1, 0, 1)), Some(vec![Link::East, Link::Sky]));
    assert_eq!(chain((1, 1, 0)), Some(vec![Link::North, Link::East]));
    assert_eq!(chain((1, 1, 1)), Some(vec![Link::North, Link::East, Link::Sky]));
    let mut chains = 0;
    for x in -2..3 {
        for y in -2..3 {
            for z in -2..3 {
                if hop_chain((x, y, z)).is_some() {
                    chains += 1;
                }
            }
        }
    }
    assert_eq!(chains, 7);
}

#[test]
fn hop_table_has_no_chain_for_other_offsets() {
    assert!(hop_chain((0, 0, 0)).is_none());
    assert!(hop_chain((2, 0, 0)).is_none());
    assert!(hop_chain((-1, 0, 0)).is_none());
    assert!(hop_chain((1, 1, 2)).is_none());
    assert!(hop_chain((0, -1, 1)).is_none());
}

#[test]
fn directions_have_their_deltas() {
    assert_eq!(Direction::uttar.delta(), (0, 1, 0));
    assert_eq!(Direction::purva.delta(), (1, 0, 0));
    assert_eq!(Direction::paschim.delta(), (-1, 0, 0));
    assert_eq!(Direction::dakshin.delta(), (0, -1, 0));
    assert_eq!(Direction::vayavya.delta(), (-1, 1, 0));
    assert_eq!(Direction::ishanya.delta(), (1, 1, 0));
    assert_eq!(Direction::nairutya.delta(), (-1, -1, 0));
    assert_eq!(Direction::agneya.delta(), (1, -1, 0));
    assert_eq!(Direction::urdhwa.delta(), (0, 0, 1));
    assert_eq!(Direction::adharastha.delta(), (0, 0, -1));
}

#[test]
fn links_are_followed_only_along_hop_chains() {
    assert_eq!(link_for(Direction::uttar, (0, 0, 0)), Some(Link::North));
    assert_eq!(link_for(Direction::uttar, (1, 0, 0)), None);
    assert_eq!(link_for(Direction::uttar, (0, 0, 1)), None);
    assert_eq!(link_for(Direction::uttar, (0, 1, 0)), None);
    assert_eq!(link_for(Direction::purva, (0, 0, 0)), Some(Link::East));
    assert_eq!(link_for(Direction::purva, (0, 1, 0)), Some(Link::East));
    assert_eq!(link_for(Direction::purva, (0, 1, 1)), None);
    assert_eq!(link_for(Direction::purva, (1, 0, 0)), None);
    assert_eq!(link_for(Direction::urdhwa, (0, 0, 0)), Some(Link::Sky));
    assert_eq!(link_for(Direction::urdhwa, (1, 1, 0)), Some(Link::Sky));
    assert_eq!(link_for(Direction::urdhwa, (1, 1, 1)), None);
    assert_eq!(link_for(Direction::dakshin, (0, 0, 0)), None);
    assert_eq!(link_for(Direction::ishanya, (0, 0, 0)), None);
    assert_eq!(link_for(Direction::adharastha, (0, 0, 1)), None);
}

#[test]
fn node_holds_a_payload_or_none() {
    let mut node = Node::new(None, (1, 2, 3));
    assert_eq!(node.coord, (1, 2, 3));
    assert_eq!(node.get(), None);
    assert!(node.get_mut().is_none());
    assert!(node.link(Link::North).is_none());
    assert!(node.link(Link::East).is_none());
    assert!(node.link(Link::Sky).is_none());
    node.set(7);
    assert_eq!(node.get(), Some(&7));
    *node.get_mut().unwrap() = 8;
    assert_eq!(node.get(), Some(&8));
    node.set(9);
    assert_eq!(node.get(), Some(&9));
    assert_eq!(node.coord, (1, 2, 3));
    let other = Node::new(Some(4), (0, 0, 0));
    assert_eq!(other.get(), Some(&4));
}

#[test]
fn step_fits_inside_the_range_of_coordinates() {
    assert!(step_fits((0, 0, 0), (1, -1, 1)));
    assert!(step_fits((i32::MAX - 1, i32::MIN + 1, 0), (1, -1, 0)));
    assert!(step_fits((i32::MAX, i32::MIN, i32::MAX), (-1, 1, 0)));
    assert!(!step_fits((i32::MAX, 0, 0), (1, 0, 0)));
    assert!(!step_fits((0, i32::MIN, 0), (0, -1, 0)));
    assert!(!step_fits((0, 0, i32::MAX), (0, 0, 1)));
    assert!(!step_fits((0, 0, i32::MIN), (1, 1, -1)));
}
