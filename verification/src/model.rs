//! What the store's operations do, said of what a caller can observe: the
//! payloads that can be read, the payloads that were left behind, and the
//! nodes that a scan of the arena meets.
use crate::coord::{is_leader, spec_leader, Coord};
use crate::node::Node;
use vstd::prelude::*;

verus! {

/// The corners passed on the walk to `c` after the leader: the one that has
/// `c`'s step north, and the one that has its step east as well. Either can
/// coincide with the corner before it, or with `c`.
pub open spec fn waypoints(c: Coord) -> (Coord, Coord) {
    let l = spec_leader(c);
    ((l.0, c.1, l.2), (c.0, c.1, l.2))
}

/// Whether the walk to `c` comes by `w`: `w` is the leader of `c`'s cube,
/// one of the corners passed after it, or `c` itself.
pub open spec fn on_way(w: Coord, c: Coord) -> bool {
    w == spec_leader(c) || w == waypoints(c).0 || w == waypoints(c).1 || w == c
}

/// What a store holds after the cube led by `c` was freed: nothing in that
/// cube, if `c` is a leader, and everything else as before.
pub open spec fn spec_free(m: Map<Coord, i32>, c: Coord) -> Map<Coord, i32> {
    Map::new(
        |x: Coord| m.contains_key(x) && !(is_leader(c) && spec_leader(x) == c),
        |x: Coord| m[x],
    )
}

/// The entries that freeing the cube led by `c` leaves behind: what the
/// cube's other corners held.
pub open spec fn freed_entries(m: Map<Coord, i32>, c: Coord) -> Set<(Coord, i32)> {
    Set::new(
        |entry: (Coord, i32)|
            m.contains_key(entry.0) && m[entry.0] == entry.1 && is_leader(c) && spec_leader(
                entry.0,
            ) == c && entry.0 != c,
    )
}

/// The entries of `before` at coordinates that are not leaders and hold
/// nothing in `after`.
pub open spec fn lost_entries(before: Map<Coord, i32>, after: Map<Coord, i32>) -> Set<
    (Coord, i32),
> {
    Set::new(
        |entry: (Coord, i32)|
            before.contains_key(entry.0) && before[entry.0] == entry.1 && !after.contains_key(
                entry.0,
            ) && !is_leader(entry.0),
    )
}

/// Whether the cube of `x` was freed between `before` and `after`: its
/// leader held a payload before and holds none after.
pub open spec fn cube_freed(before: Map<Coord, i32>, after: Map<Coord, i32>, x: Coord) -> bool {
    before.contains_key(spec_leader(x)) && !after.contains_key(spec_leader(x))
}

/// The leaders that held a payload in `before` and hold none in `after`.
pub open spec fn freed_leaders(before: Map<Coord, i32>, after: Map<Coord, i32>) -> Set<Coord> {
    Set::new(|l: Coord| is_leader(l) && before.contains_key(l) && !after.contains_key(l))
}

/// A count of removals, held at `u64::MAX` where it would go beyond.
pub open spec fn spec_capped(n: nat) -> nat {
    if n <= u64::MAX {
        n
    } else {
        u64::MAX as nat
    }
}

/// Freeing one more cube, led by `led`, after some were freed already: what
/// that adds to the leaders freed, to the cubes freed and to the entries
/// lost.
pub proof fn lemma_one_more_freed(before: Map<Coord, i32>, now: Map<Coord, i32>, led: Coord)
    requires
        is_leader(led),
        now.contains_key(led),
        forall|x: Coord| #[trigger]
            now.contains_key(x) ==> before.contains_key(x) && now[x] == before[x],
        freed_leaders(before, now).finite(),
    ensures
        !freed_leaders(before, now).contains(led),
        freed_leaders(before, spec_free(now, led)) == freed_leaders(before, now).insert(led),
        freed_leaders(before, spec_free(now, led)).finite(),
        freed_leaders(before, spec_free(now, led)).len() == freed_leaders(before, now).len() + 1,
        forall|x: Coord| #[trigger]
            cube_freed(before, spec_free(now, led), x) == (cube_freed(before, now, x)
                || spec_leader(x) == led),
        lost_entries(before, spec_free(now, led)) == lost_entries(before, now).union(
            freed_entries(now, led),
        ),
{
    let after = spec_free(now, led);
    assert forall|l: Coord| is_leader(l) implies spec_leader(l) == l by {}
    assert forall|x: Coord| is_leader(#[trigger] spec_leader(x)) by {}
    assert(freed_leaders(before, after) =~= freed_leaders(before, now).insert(led));
    assert(lost_entries(before, after) =~= lost_entries(before, now).union(
        freed_entries(now, led),
    ));
}

/// Whether `node` holds a payload that `pred` can say yes to.
pub open spec fn accepted<F: Fn(&i32) -> bool>(pred: F, node: Node) -> bool {
    node.data matches Some(v) && call_ensures(pred, (&v,), true)
}

/// Whether `node` holds no payload, or one that `pred` can say no to.
pub open spec fn rejected<F: Fn(&i32) -> bool>(pred: F, node: Node) -> bool {
    node.data matches Some(v) ==> call_ensures(pred, (&v,), false)
}

/// The coordinate of the first node in `stored` that holds `value`.
pub open spec fn spec_find(stored: Seq<Node>, value: i32) -> Option<Coord>
    decreases stored.len(),
{
    if stored.len() == 0 {
        None
    } else if stored[0].data == Some(value) {
        Some(stored[0].coord)
    } else {
        spec_find(stored.drop_first(), value)
    }
}

/// The slots that `reserve` adds for a wanted `capacity`, given the nodes
/// held and the slots there are.
pub open spec fn spec_new_slots(capacity: usize, held: nat, slots: nat) -> nat {
    if capacity > held && capacity - held + slots <= usize::MAX {
        (capacity - held) as nat
    } else {
        0
    }
}

} // verus!
