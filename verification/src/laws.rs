//! What holds of the store's operations taken together, stated over the
//! models that their contracts use.
use crate::coord::{is_leader, same_cube, spec_offset, Coord};
use crate::hops::spec_hop_chain;
use crate::model::{on_way, spec_find, spec_free};
use crate::node::Node;
use vstd::prelude::*;

verus! {

/// What a store holds after the writes in `writes` were made, in order, to
/// an empty store.
pub open spec fn spec_set_all(writes: Seq<(Coord, i32)>) -> Map<Coord, i32>
    decreases writes.len(),
{
    if writes.len() == 0 {
        Map::empty()
    } else {
        spec_set_all(writes.drop_last()).insert(writes.last().0, writes.last().1)
    }
}

/// A value that was stored at a coordinate is read back from it.
pub proof fn law_read_after_write(m: Map<Coord, i32>, c: Coord, v: i32)
    ensures
        m.insert(c, v).contains_key(c),
        m.insert(c, v)[c] == v,
{
}

/// A write changes what is read at no other coordinate: not in another
/// cube, and not at the corners of its own cube that lie behind it.
pub proof fn law_write_changes_one(m: Map<Coord, i32>, c: Coord, v: i32, x: Coord)
    requires
        x != c,
    ensures
        m.insert(c, v).contains_key(x) == m.contains_key(x),
        m.contains_key(x) ==> m.insert(c, v)[x] == m[x],
{
}

/// A coordinate that no write was made to reads as empty, whatever was
/// written elsewhere.
pub proof fn law_untouched_read(writes: Seq<(Coord, i32)>, c: Coord)
    requires
        forall|i: int| 0 <= i < writes.len() ==> (#[trigger] writes[i]).0 != c,
    ensures
        !spec_set_all(writes).contains_key(c),
    decreases writes.len(),
{
    if writes.len() > 0 {
        assert(writes.last() == writes[writes.len() - 1]);
        assert forall|i: int| 0 <= i < writes.drop_last().len() implies (
        #[trigger] writes.drop_last()[i]).0 != c by {
            assert(writes.drop_last()[i] == writes[i]);
        }
        law_untouched_read(writes.drop_last(), c);
    }
}

/// The last value written to a coordinate is what is read from it,
/// whatever was written elsewhere before and after.
pub proof fn law_last_write_is_read(writes: Seq<(Coord, i32)>, i: int)
    requires
        0 <= i < writes.len(),
        forall|j: int| i < j < writes.len() ==> (#[trigger] writes[j]).0 != writes[i].0,
    ensures
        spec_set_all(writes).contains_key(writes[i].0),
        spec_set_all(writes)[writes[i].0] == writes[i].1,
    decreases writes.len(),
{
    assert(writes.last() == writes[writes.len() - 1]);
    if i < writes.len() - 1 {
        assert(writes.drop_last()[i] == writes[i]);
        assert forall|j: int| i < j < writes.drop_last().len() implies (
        #[trigger] writes.drop_last()[j]).0 != writes.drop_last()[i].0 by {
            assert(writes.drop_last()[j] == writes[j]);
        }
        law_last_write_is_read(writes.drop_last(), i);
    }
}

/// A write to one cube changes nothing that is read from another.
pub proof fn law_cube_isolation(m: Map<Coord, i32>, c: Coord, v: i32, x: Coord)
    requires
        !same_cube(c, x),
    ensures
        m.insert(c, v).contains_key(x) == m.contains_key(x),
        m.contains_key(x) ==> m.insert(c, v)[x] == m[x],
{
}

/// Of two writes to different cubes, each is read back as written.
pub proof fn law_writes_across_cubes(m: Map<Coord, i32>, a: Coord, va: i32, b: Coord, vb: i32)
    requires
        !same_cube(a, b),
    ensures
        m.insert(a, va).insert(b, vb).contains_key(a),
        m.insert(a, va).insert(b, vb)[a] == va,
        m.insert(a, va).insert(b, vb).contains_key(b),
        m.insert(a, va).insert(b, vb)[b] == vb,
{
}

/// After the cube that a leader leads was freed, the leader reads as empty,
/// and so does every other corner of the cube; other cubes keep what they
/// had.
pub proof fn law_removal(m: Map<Coord, i32>, c: Coord, x: Coord)
    requires
        is_leader(c),
    ensures
        !spec_free(m, c).contains_key(c),
        same_cube(x, c) ==> !spec_free(m, c).contains_key(x),
        !same_cube(x, c) ==> spec_free(m, c).contains_key(x) == m.contains_key(x),
        !same_cube(x, c) && m.contains_key(x) ==> spec_free(m, c)[x] == m[x],
{
}

/// The corners that the walk to `c` comes by are the leader of its cube
/// and the corners whose hop chain begins the hop chain of `c`.
pub proof fn law_way_along_hop_chains(w: Coord, c: Coord)
    ensures
        on_way(w, c) <==> same_cube(w, c) && (is_leader(w) || (match (
            spec_hop_chain(spec_offset(w)),
            spec_hop_chain(spec_offset(c)),
        ) {
            (Some(to_w), Some(to_c)) => to_w@.is_prefix_of(to_c@),
            _ => false,
        })),
{
    if same_cube(w, c) && !is_leader(w) {
        match (spec_hop_chain(spec_offset(w)), spec_hop_chain(spec_offset(c))) {
            (Some(to_w), Some(to_c)) => {
                if to_w@.is_prefix_of(to_c@) {
                    assert(to_w@[0] == to_c@[0]);
                    if to_w@.len() > 1 {
                        assert(to_w@[1] == to_c@[1]);
                    }
                    if to_w@.len() > 2 {
                        assert(to_w@[2] == to_c@[2]);
                    }
                }
            },
            _ => {},
        }
    }
}

/// What a scan for `value` returns is the coordinate of a node that holds
/// `value`, never that of a placeholder, and of the first such node; it
/// returns nothing exactly when no node holds `value`.
pub proof fn law_find_holder(stored: Seq<Node>, value: i32)
    ensures
        match spec_find(stored, value) {
            Some(c) => exists|i: int|
                0 <= i < stored.len() && (#[trigger] stored[i]).coord == c && stored[i].data
                    == Some(value) && forall|j: int|
                    0 <= j < i ==> (#[trigger] stored[j]).data != Some(value),
            None => forall|j: int|
                0 <= j < stored.len() ==> (#[trigger] stored[j]).data != Some(value),
        },
    decreases stored.len(),
{
    if stored.len() > 0 && stored[0].data != Some(value) {
        let rest = stored.drop_first();
        law_find_holder(rest, value);
        match spec_find(rest, value) {
            Some(c) => {
                let i = choose|i: int|
                    0 <= i < rest.len() && (#[trigger] rest[i]).coord == c && rest[i].data == Some(
                        value,
                    ) && forall|j: int| 0 <= j < i ==> (#[trigger] rest[j]).data != Some(value);
                assert(stored[i + 1] == rest[i]);
                assert forall|j: int| 0 <= j < i + 1 implies (#[trigger] stored[j]).data != Some(
                    value,
                ) by {
                    if j > 0 {
                        assert(stored[j] == rest[j - 1]);
                    }
                }
            },
            None => {
                assert forall|j: int| 0 <= j < stored.len() implies (#[trigger] stored[j]).data
                    != Some(value) by {
                    if j > 0 {
                        assert(stored[j] == rest[j - 1]);
                    }
                }
            },
        }
    } else if stored.len() > 0 {
        assert(stored[0].coord == spec_find(stored, value).unwrap());
    }
}

} // verus!
