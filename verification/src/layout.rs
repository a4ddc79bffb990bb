//! The mathematical model of the store: which node stands for which
//! coordinate, given what the arena holds and what the cube index says.
use crate::coord::{
    is_leader, lemma_cube_key_injective, spec_cube_key, spec_leader, spec_offset, Coord,
};
use crate::hops::spec_hop_chain;
use crate::model::on_way;
use crate::node::{Link, Node};
use generational_arena::Index;
use vstd::prelude::*;

verus! {

/// A corner of a cube: whether it lies one step east (`+x`), north (`+y`) and
/// up (`+z`) of the leader.
pub type Corner = (bool, bool, bool);

/// The key under which the cube of `c` is filed.
#[verifier::opaque]
pub open spec fn cube(c: Coord) -> u128 {
    spec_cube_key(spec_leader(c))
}

/// The corner of its cube at which `c` lies.
#[verifier::opaque]
pub open spec fn corner(c: Coord) -> Corner {
    (spec_offset(c).0 == 1, spec_offset(c).1 == 1, spec_offset(c).2 == 1)
}

/// The link to take, or none, for one axis of a corner.
pub open spec fn along(take: bool, link: Link) -> Option<Link> {
    if take {
        Some(link)
    } else {
        None
    }
}

/// Follows `link` out of the node at `from`. Without a link to follow the
/// walk stays where it is; a walk that has already failed stays failed.
pub open spec fn follow(nodes: Map<Index, Node>, from: Option<Index>, link: Option<Link>) -> Option<
    Index,
> {
    match (from, link) {
        (Some(i), Some(l)) => if nodes.contains_key(i) {
            nodes[i].spec_link(l)
        } else {
            None
        },
        (Some(i), None) => Some(i),
        (None, _) => None,
    }
}

/// The walk from the node at `root` to the corner `k`: north first, then
/// east, then up, each only where the corner asks for it.
pub open spec fn walk(nodes: Map<Index, Node>, root: Option<Index>, k: Corner) -> Option<Index> {
    follow(
        nodes,
        follow(nodes, follow(nodes, root, along(k.1, Link::North)), along(k.0, Link::East)),
        along(k.2, Link::Sky),
    )
}

/// The leader node of the cube filed under `key`.
pub open spec fn root(cubes: Map<u128, Index>, key: u128) -> Option<Index> {
    if cubes.contains_key(key) {
        Some(cubes[key])
    } else {
        None
    }
}

/// The index of the node that stands for `c`: the leader of its cube, found
/// in the cube index, and from there the walk to `c`'s corner.
pub open spec fn locate(nodes: Map<Index, Node>, cubes: Map<u128, Index>, c: Coord) -> Option<
    Index,
> {
    walk(nodes, root(cubes, cube(c)), corner(c))
}

/// The payload stored for `c`, if its node can be reached and holds one.
pub open spec fn payload_at(nodes: Map<Index, Node>, cubes: Map<u128, Index>, c: Coord) -> Option<
    i32,
> {
    match locate(nodes, cubes, c) {
        Some(i) => if nodes.contains_key(i) {
            nodes[i].data
        } else {
            None
        },
        None => None,
    }
}

/// Whether `at`, if it names a node, names a live one whose coordinate is
/// the corner `k` of the cube filed under `key`.
pub open spec fn stands_for(nodes: Map<Index, Node>, at: Option<Index>, key: u128, k: Corner)
    -> bool {
    at matches Some(i) ==> nodes.contains_key(i) && cube(nodes[i].coord) == key && corner(
        nodes[i].coord,
    ) == k
}

/// Whether the walk from `root` to the corner `k` ends, if it ends at a
/// node, at a live one of the right coordinate.
pub open spec fn corner_ok(nodes: Map<Index, Node>, root: Index, key: u128, k: Corner) -> bool {
    stands_for(nodes, walk(nodes, Some(root), k), key, k)
}

/// Whether every walk from `root` ends, if it ends at a node, at a live one
/// of the right coordinate.
pub open spec fn cube_ok(nodes: Map<Index, Node>, root: Index, key: u128) -> bool {
    &&& corner_ok(nodes, root, key, (false, false, false))
    &&& corner_ok(nodes, root, key, (true, false, false))
    &&& corner_ok(nodes, root, key, (false, true, false))
    &&& corner_ok(nodes, root, key, (true, true, false))
    &&& corner_ok(nodes, root, key, (false, false, true))
    &&& corner_ok(nodes, root, key, (true, false, true))
    &&& corner_ok(nodes, root, key, (false, true, true))
    &&& corner_ok(nodes, root, key, (true, true, true))
}

/// The invariant that ties the cube index to the arena: every entry of the
/// index names a live node that stands for the leader of the cube it is
/// filed under, and every link that a walk from a leader can take ends at a
/// live node of the right coordinate.
pub open spec fn consistent(nodes: Map<Index, Node>, cubes: Map<u128, Index>) -> bool {
    forall|key: u128| #[trigger] cubes.contains_key(key) ==> cube_ok(nodes, cubes[key], key)
}

/// A node without neighbours.
pub open spec fn leaf(data: Option<i32>, coord: Coord) -> Node {
    Node { data, coord, north: None, east: None, sky: None }
}

/// The last link on the walk to a corner other than the leader.
pub open spec fn last_link(k: Corner) -> Link {
    if k.2 {
        Link::Sky
    } else if k.0 {
        Link::East
    } else {
        Link::North
    }
}

/// The corner from which the last link on the walk to `k` is taken.
pub open spec fn corner_before(k: Corner) -> Corner {
    if k.2 {
        (k.0, k.1, false)
    } else if k.0 {
        (false, k.1, false)
    } else {
        (false, false, false)
    }
}

/// Whether the walk to the corner `x` comes by the corner `k`.
pub open spec fn comes_by(x: Corner, k: Corner) -> bool {
    k == (false, false, false) || k == (false, x.1, false) || k == (x.0, x.1, false) || k == x
}

/// Whether no walk from `root` ends at `o`.
pub open spec fn cube_avoids(nodes: Map<Index, Node>, root: Index, o: Index) -> bool {
    &&& walk(nodes, Some(root), (false, false, false)) != Some(o)
    &&& walk(nodes, Some(root), (true, false, false)) != Some(o)
    &&& walk(nodes, Some(root), (false, true, false)) != Some(o)
    &&& walk(nodes, Some(root), (true, true, false)) != Some(o)
    &&& walk(nodes, Some(root), (false, false, true)) != Some(o)
    &&& walk(nodes, Some(root), (true, false, true)) != Some(o)
    &&& walk(nodes, Some(root), (false, true, true)) != Some(o)
    &&& walk(nodes, Some(root), (true, true, true)) != Some(o)
}

/// Whether no walk from any leader comes by `o`.
pub open spec fn unreferenced(nodes: Map<Index, Node>, cubes: Map<u128, Index>, o: Index) -> bool {
    forall|key: u128| #[trigger] cubes.contains_key(key) ==> cube_avoids(nodes, cubes[key], o)
}

/// The node that takes the place of the one under `at`: it has `data`, and
/// the coordinate and the links of the node it replaces. Where there is
/// none to replace it is a leaf at `q`.
pub open spec fn successor(
    nodes: Map<Index, Node>,
    at: Option<Index>,
    data: Option<i32>,
    q: Coord,
) -> Node {
    match at {
        Some(o) => if nodes.contains_key(o) {
            nodes[o].spec_with_data(data)
        } else {
            leaf(data, q)
        },
        None => leaf(data, q),
    }
}

/// The arena after a new node for the coordinate `q` was stored under `j`
/// and hung on the node `p` that stands for the corner before `q`, in place
/// of the node that stood for `q`, whose links it has.
pub open spec fn grafted(
    nodes: Map<Index, Node>,
    cubes: Map<u128, Index>,
    q: Coord,
    p: Index,
    j: Index,
    data: Option<i32>,
) -> Map<Index, Node> {
    nodes.insert(p, nodes[p].spec_with_link(last_link(corner(q)), Some(j))).insert(
        j,
        successor(nodes, locate(nodes, cubes, q), data, q),
    )
}

/// The coordinate one step along `link` from `at`.
pub open spec fn spec_step(at: Coord, link: Link) -> Coord {
    match link {
        Link::North => (at.0, (at.1 + 1) as i32, at.2),
        Link::East => ((at.0 + 1) as i32, at.1, at.2),
        Link::Sky => (at.0, at.1, (at.2 + 1) as i32),
    }
}

/// Whether the node under `i` holds a payload that cannot be read at the
/// node's coordinate: the walk to that coordinate fails or ends elsewhere.
pub open spec fn is_stale(nodes: Map<Index, Node>, cubes: Map<u128, Index>, i: Index) -> bool {
    nodes.contains_key(i) && nodes[i].data is Some && locate(nodes, cubes, nodes[i].coord)
        != Some(i)
}

/// Whether the stale node under `i`, which is not `except`, holds `entry`.
pub open spec fn holds_stale(
    nodes: Map<Index, Node>,
    cubes: Map<u128, Index>,
    except: Option<Index>,
    i: Index,
    entry: (Coord, i32),
) -> bool {
    is_stale(nodes, cubes, i) && Some(i) != except && nodes[i].coord == entry.0 && nodes[i].data
        == Some(entry.1)
}

/// The coordinates and payloads of the stale nodes, but for `except`.
pub open spec fn stale_entries(
    nodes: Map<Index, Node>,
    cubes: Map<u128, Index>,
    except: Option<Index>,
) -> Set<(Coord, i32)> {
    Set::new(
        |entry: (Coord, i32)|
            exists|i: Index| #[trigger] holds_stale(nodes, cubes, except, i, entry),
    )
}

/// How the stale entries change over a step: the stale nodes stay stale,
/// and the nodes that become stale hold the entries in `added`.
pub proof fn lemma_stale_entries(
    nodes: Map<Index, Node>,
    cubes: Map<u128, Index>,
    except: Option<Index>,
    nodes2: Map<Index, Node>,
    cubes2: Map<u128, Index>,
    except2: Option<Index>,
    added: Set<(Coord, i32)>,
)
    requires
        forall|i: Index, entry: (Coord, i32)| #[trigger]
            holds_stale(nodes, cubes, except, i, entry) ==> holds_stale(
                nodes2,
                cubes2,
                except2,
                i,
                entry,
            ),
        forall|i: Index, entry: (Coord, i32)| #[trigger]
            holds_stale(nodes2, cubes2, except2, i, entry) ==> holds_stale(
                nodes,
                cubes,
                except,
                i,
                entry,
            ) || added.contains(entry),
        forall|entry: (Coord, i32)| #[trigger]
            added.contains(entry) ==> exists|i: Index| #[trigger]
                holds_stale(nodes2, cubes2, except2, i, entry),
    ensures
        stale_entries(nodes2, cubes2, except2) == stale_entries(nodes, cubes, except).union(added),
{
    assert forall|entry: (Coord, i32)|
        stale_entries(nodes2, cubes2, except2).contains(entry) <==> stale_entries(
            nodes,
            cubes,
            except,
        ).union(added).contains(entry) by {
        if stale_entries(nodes2, cubes2, except2).contains(entry) {
            let i = choose|i: Index| #[trigger] holds_stale(nodes2, cubes2, except2, i, entry);
            assert(holds_stale(nodes, cubes, except, i, entry) || added.contains(entry));
        }
        if stale_entries(nodes, cubes, except).contains(entry) {
            let i = choose|i: Index| #[trigger] holds_stale(nodes, cubes, except, i, entry);
            assert(holds_stale(nodes2, cubes2, except2, i, entry));
        }
    }
    assert(stale_entries(nodes2, cubes2, except2) =~= stale_entries(nodes, cubes, except).union(
        added,
    ));
}

/// Over a step that lets no node become stale, the stale entries stay as
/// they are.
pub proof fn lemma_stale_entries_kept(
    nodes: Map<Index, Node>,
    cubes: Map<u128, Index>,
    except: Option<Index>,
    nodes2: Map<Index, Node>,
    cubes2: Map<u128, Index>,
    except2: Option<Index>,
)
    requires
        forall|i: Index, entry: (Coord, i32)| #[trigger]
            holds_stale(nodes, cubes, except, i, entry) <==> holds_stale(
                nodes2,
                cubes2,
                except2,
                i,
                entry,
            ),
    ensures
        stale_entries(nodes2, cubes2, except2) == stale_entries(nodes, cubes, except),
{
    lemma_stale_entries(nodes, cubes, except, nodes2, cubes2, except2, Set::empty());
    assert(stale_entries(nodes, cubes, except).union(Set::empty()) =~= stale_entries(
        nodes,
        cubes,
        except,
    ));
}

/// A coordinate is told by its cube and its corner.
pub proof fn lemma_cube_and_corner(a: Coord, b: Coord)
    ensures
        cube(a) == cube(b) && corner(a) == corner(b) <==> a == b,
{
    reveal(cube);
    reveal(corner);
    lemma_cube_key_injective(spec_leader(a), spec_leader(b));
}

/// What cube and corner say of a leader and of the cube's other corners.
pub proof fn lemma_leader_corner(c: Coord)
    ensures
        is_leader(c) <==> corner(c) == (false, false, false),
        cube(spec_leader(c)) == cube(c),
        corner(spec_leader(c)) == (false, false, false),
        cube(c) == spec_cube_key(spec_leader(c)),
        spec_offset(c) == (
            if corner(c).0 { 1i32 } else { 0i32 },
            if corner(c).1 { 1i32 } else { 0i32 },
            if corner(c).2 { 1i32 } else { 0i32 },
        ),
{
    reveal(cube);
    reveal(corner);
}

/// `on_way`, said of cubes and corners.
pub proof fn lemma_on_way(w: Coord, c: Coord)
    ensures
        on_way(w, c) <==> cube(w) == cube(c) && comes_by(corner(c), corner(w)),
        spec_leader(w) == spec_leader(c) <==> cube(w) == cube(c),
{
    reveal(cube);
    reveal(corner);
    lemma_cube_key_injective(spec_leader(w), spec_leader(c));
}

/// One step inside a cube, along a link that the corner has not yet taken
/// and that comes after the ones it has taken, leads to the corner that has
/// taken it too.
pub proof fn lemma_step(at: Coord, link: Link)
    requires
        !corner(at).2,
        link == Link::East ==> !corner(at).0,
        link == Link::North ==> corner(at) == (false, false, false),
    ensures
        link == Link::North ==> at.1 < i32::MAX,
        link == Link::East ==> at.0 < i32::MAX,
        link == Link::Sky ==> at.2 < i32::MAX,
        cube(spec_step(at, link)) == cube(at),
        corner(spec_step(at, link)) == (match link {
            Link::North => (false, true, false),
            Link::East => (true, corner(at).1, false),
            Link::Sky => (corner(at).0, corner(at).1, true),
        }),
        corner_before(corner(spec_step(at, link))) == corner(at),
        last_link(corner(spec_step(at, link))) == link,
{
    reveal(cube);
    reveal(corner);
}

/// The walk to a coordinate takes the links that the hop table lists for its
/// offset, in the table's order.
pub proof fn lemma_walk_is_hop_chain(nodes: Map<Index, Node>, cubes: Map<u128, Index>, c: Coord)
    ensures
        cube(c) == spec_cube_key(spec_leader(c)),
        locate(nodes, cubes, c) == (match spec_hop_chain(spec_offset(c)) {
            None => root(cubes, cube(c)),
            Some(chain) => follow(
                nodes,
                follow(
                    nodes,
                    follow(nodes, root(cubes, cube(c)), Some(chain.first)),
                    chain.second,
                ),
                chain.third,
            ),
        }),
{
    reveal(cube);
    reveal(corner);
}

/// Filing a new leader, without neighbours, for a cube that had none.
pub proof fn lemma_add_leader(
    nodes: Map<Index, Node>,
    cubes: Map<u128, Index>,
    l: Coord,
    j: Index,
    data: Option<i32>,
)
    requires
        consistent(nodes, cubes),
        corner(l) == (false, false, false),
        !cubes.contains_key(cube(l)),
        !nodes.contains_key(j),
    ensures
        consistent(nodes.insert(j, leaf(data, l)), cubes.insert(cube(l), j)),
        forall|x: Coord| #[trigger]
            locate(nodes.insert(j, leaf(data, l)), cubes.insert(cube(l), j), x) == (if x == l {
                Some(j)
            } else {
                locate(nodes, cubes, x)
            }),
        forall|x: Coord| #[trigger]
            payload_at(nodes.insert(j, leaf(data, l)), cubes.insert(cube(l), j), x) == (if x
                == l {
                data
            } else {
                payload_at(nodes, cubes, x)
            }),
{
    let grown = nodes.insert(j, leaf(data, l));
    let filed = cubes.insert(cube(l), j);
    assert forall|key: u128| #[trigger] filed.contains_key(key) implies cube_ok(
        grown,
        filed[key],
        key,
    ) by {
        if key != cube(l) {
            assert(cubes.contains_key(key));
            assert(cube_ok(nodes, cubes[key], key));
        }
    }
    assert forall|x: Coord|
        locate(grown, filed, x) == (if x == l {
            Some(j)
        } else {
            locate(nodes, cubes, x)
        }) && payload_at(grown, filed, x) == (if x == l {
            data
        } else {
            payload_at(nodes, cubes, x)
        }) by {
        lemma_cube_and_corner(x, l);
        if cubes.contains_key(cube(x)) {
            assert(cube_ok(nodes, cubes[cube(x)], cube(x)));
        }
    }
}

/// Changing the payload of a node changes what is stored at the coordinate
/// that the node stands for, if it stands for one, and nothing else: no walk
/// looks at payloads.
pub proof fn lemma_overwrite(
    nodes: Map<Index, Node>,
    cubes: Map<u128, Index>,
    i: Index,
    data: Option<i32>,
)
    requires
        consistent(nodes, cubes),
        nodes.contains_key(i),
    ensures
        consistent(nodes.insert(i, nodes[i].spec_with_data(data)), cubes),
        forall|x: Coord| #[trigger]
            locate(nodes.insert(i, nodes[i].spec_with_data(data)), cubes, x) == locate(
                nodes,
                cubes,
                x,
            ),
        forall|x: Coord| #[trigger]
            payload_at(nodes.insert(i, nodes[i].spec_with_data(data)), cubes, x) == (if locate(
                nodes,
                cubes,
                x,
            ) == Some(i) {
                data
            } else {
                payload_at(nodes, cubes, x)
            }),
{
    let changed = nodes.insert(i, nodes[i].spec_with_data(data));
    assert forall|key: u128| #[trigger] cubes.contains_key(key) implies cube_ok(
        changed,
        cubes[key],
        key,
    ) && (forall|k: Corner|
        walk(changed, Some(cubes[key]), k) == walk(nodes, Some(cubes[key]), k)) by {
        assert(cube_ok(nodes, cubes[key], key));
    }
    assert forall|x: Coord|
        locate(changed, cubes, x) == locate(nodes, cubes, x) && payload_at(changed, cubes, x) == (
        if locate(nodes, cubes, x) == Some(i) {
            data
        } else {
            payload_at(nodes, cubes, x)
        }) by {
        if cubes.contains_key(cube(x)) {
            assert(cube_ok(nodes, cubes[cube(x)], cube(x)));
        }
    }
}

/// The node that stands for a coordinate stands for no other.
pub proof fn lemma_stands_for_one(
    nodes: Map<Index, Node>,
    cubes: Map<u128, Index>,
    a: Coord,
    b: Coord,
)
    requires
        consistent(nodes, cubes),
        locate(nodes, cubes, a) is Some,
        locate(nodes, cubes, a) == locate(nodes, cubes, b),
    ensures
        a == b,
        nodes.contains_key(locate(nodes, cubes, a).unwrap()),
        nodes[locate(nodes, cubes, a).unwrap()].coord == a,
{
    assert(cube_ok(nodes, cubes[cube(a)], cube(a)));
    assert(cube_ok(nodes, cubes[cube(b)], cube(b)));
    let i = locate(nodes, cubes, a).unwrap();
    lemma_cube_and_corner(nodes[i].coord, a);
    lemma_cube_and_corner(nodes[i].coord, b);
}

/// Hanging a new node for the coordinate `q` on the node before it, with
/// the links of the node it replaces: `q` now has the new node's payload,
/// and every other coordinate keeps its node and what it held. The node
/// that stood for `q` before, if there was one, is no longer on any walk.
pub proof fn lemma_graft(
    nodes: Map<Index, Node>,
    cubes: Map<u128, Index>,
    q: Coord,
    p: Index,
    j: Index,
    data: Option<i32>,
)
    requires
        consistent(nodes, cubes),
        corner(q) != (false, false, false),
        walk(nodes, root(cubes, cube(q)), corner_before(corner(q))) == Some(p),
        !nodes.contains_key(j),
    ensures
        consistent(grafted(nodes, cubes, q, p, j, data), cubes),
        forall|x: Coord| #[trigger]
            locate(grafted(nodes, cubes, q, p, j, data), cubes, x) == (if x == q {
                Some(j)
            } else {
                locate(nodes, cubes, x)
            }),
        forall|x: Coord| #[trigger]
            payload_at(grafted(nodes, cubes, q, p, j, data), cubes, x) == (if x == q {
                data
            } else {
                payload_at(nodes, cubes, x)
            }),
        locate(nodes, cubes, q) matches Some(o) ==> o != j && o != p && nodes.contains_key(o)
            && unreferenced(grafted(nodes, cubes, q, p, j, data), cubes, o),
{
    let grown = grafted(nodes, cubes, q, p, j, data);
    let home = cube(q);
    assert(cubes.contains_key(home));
    assert(cube_ok(nodes, cubes[home], home));
    assert forall|key: u128| #[trigger] cubes.contains_key(key) implies cube_ok(
        grown,
        cubes[key],
        key,
    ) && (locate(nodes, cubes, q) matches Some(o) ==> cube_avoids(grown, cubes[key], o)) && (key
        != home ==> forall|k: Corner|
        walk(grown, Some(cubes[key]), k) == walk(nodes, Some(cubes[key]), k)) by {
        assert(cube_ok(nodes, cubes[key], key));
    }
    assert forall|x: Coord|
        locate(grown, cubes, x) == (if x == q {
            Some(j)
        } else {
            locate(nodes, cubes, x)
        }) && payload_at(grown, cubes, x) == (if x == q {
            data
        } else {
            payload_at(nodes, cubes, x)
        }) by {
        lemma_cube_and_corner(x, q);
        if cubes.contains_key(cube(x)) {
            assert(cube_ok(nodes, cubes[cube(x)], cube(x)));
            assert(cube_ok(grown, cubes[cube(x)], cube(x)));
        }
    }
}

/// Taking a node that no walk comes by out of the arena changes nothing
/// that can be reached.
pub proof fn lemma_prune(nodes: Map<Index, Node>, cubes: Map<u128, Index>, o: Index)
    requires
        consistent(nodes, cubes),
        unreferenced(nodes, cubes, o),
    ensures
        consistent(nodes.remove(o), cubes),
        forall|x: Coord| #[trigger] locate(nodes.remove(o), cubes, x) == locate(nodes, cubes, x),
        forall|x: Coord| #[trigger]
            payload_at(nodes.remove(o), cubes, x) == payload_at(nodes, cubes, x),
{
    let pruned = nodes.remove(o);
    assert forall|key: u128| #[trigger] cubes.contains_key(key) implies cube_ok(
        pruned,
        cubes[key],
        key,
    ) && (forall|k: Corner|
        walk(pruned, Some(cubes[key]), k) == walk(nodes, Some(cubes[key]), k)) by {
        assert(cube_ok(nodes, cubes[key], key));
        assert(cube_avoids(nodes, cubes[key], o));
    }
    assert forall|x: Coord|
        locate(pruned, cubes, x) == locate(nodes, cubes, x) && payload_at(pruned, cubes, x)
            == payload_at(nodes, cubes, x) by {
        if cubes.contains_key(cube(x)) {
            assert(cube_ok(nodes, cubes[cube(x)], cube(x)));
            assert(cube_avoids(nodes, cubes[cube(x)], o));
        }
    }
}

/// Striking a cube from the index cuts off all of its corners and leaves its
/// leader on no walk.
pub proof fn lemma_drop_cube(nodes: Map<Index, Node>, cubes: Map<u128, Index>, key: u128)
    requires
        consistent(nodes, cubes),
        cubes.contains_key(key),
    ensures
        consistent(nodes, cubes.remove(key)),
        unreferenced(nodes, cubes.remove(key), cubes[key]),
        forall|x: Coord| #[trigger]
            locate(nodes, cubes.remove(key), x) == (if cube(x) == key {
                None
            } else {
                locate(nodes, cubes, x)
            }),
        forall|x: Coord| #[trigger]
            payload_at(nodes, cubes.remove(key), x) == (if cube(x) == key {
                None
            } else {
                payload_at(nodes, cubes, x)
            }),
{
    let rest = cubes.remove(key);
    let gone = cubes[key];
    assert(cube_ok(nodes, gone, key));
    assert forall|other: u128| #[trigger] rest.contains_key(other) implies cube_ok(
        nodes,
        rest[other],
        other,
    ) && cube_avoids(nodes, rest[other], gone) by {
        assert(cubes.contains_key(other));
        assert(cube_ok(nodes, cubes[other], other));
    }
}

/// What striking the key of `coord` from the index does, said of
/// coordinates. Only a leader has its key in the index; where `coord` is
/// not one, or leads no cube, nothing is struck and nothing changes.
pub proof fn lemma_free_cube(nodes: Map<Index, Node>, cubes: Map<u128, Index>, coord: Coord)
    requires
        consistent(nodes, cubes),
    ensures
        forall|x: Coord| #[trigger]
            locate(nodes, cubes.remove(spec_cube_key(coord)), x) == (if is_leader(coord)
                && spec_leader(x) == coord {
                None
            } else {
                locate(nodes, cubes, x)
            }),
        forall|x: Coord| #[trigger]
            payload_at(nodes, cubes.remove(spec_cube_key(coord)), x) == (if is_leader(coord)
                && spec_leader(x) == coord {
                None
            } else {
                payload_at(nodes, cubes, x)
            }),
        cubes.contains_key(spec_cube_key(coord)) ==> {
            &&& is_leader(coord)
            &&& locate(nodes, cubes, coord) == Some(cubes[spec_cube_key(coord)])
            &&& nodes.contains_key(cubes[spec_cube_key(coord)])
            &&& consistent(nodes, cubes.remove(spec_cube_key(coord)))
            &&& unreferenced(
                nodes,
                cubes.remove(spec_cube_key(coord)),
                cubes[spec_cube_key(coord)],
            )
        },
        !cubes.contains_key(spec_cube_key(coord)) ==> cubes.remove(spec_cube_key(coord)) == cubes,
{
    let key = spec_cube_key(coord);
    lemma_leader_corner(coord);
    if cubes.contains_key(key) {
        let l = nodes[cubes[key]].coord;
        assert(cube_ok(nodes, cubes[key], key));
        lemma_leader_corner(l);
        lemma_cube_key_injective(coord, l);
        lemma_drop_cube(nodes, cubes, key);
    } else {
        assert(cubes.remove(key) =~= cubes);
    }
    assert forall|x: Coord|
        locate(nodes, cubes.remove(key), x) == (if is_leader(coord) && spec_leader(x) == coord {
            None
        } else {
            locate(nodes, cubes, x)
        }) && payload_at(nodes, cubes.remove(key), x) == (if is_leader(coord) && spec_leader(x)
            == coord {
            None
        } else {
            payload_at(nodes, cubes, x)
        }) by {
        lemma_leader_corner(x);
        lemma_cube_key_injective(spec_leader(x), coord);
    }
}

} // verus!
