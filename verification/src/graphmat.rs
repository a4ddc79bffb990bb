//! The store itself.
use crate::arena::{
    arena_capacity, arena_generation, arena_get, arena_get_mut, arena_indices, arena_insert,
    arena_len, arena_new, arena_nodes, arena_order, arena_remove, arena_reserve, arena_slots,
};
use crate::coord::{
    cube_key, is_leader, leader, lemma_cube_key_injective, offset, spec_cube_key, spec_leader,
    Coord,
};
use crate::direction::Direction;
use crate::hops::hop_chain;
use crate::iterators::{GraphMatFreeIterator, GraphMatIterator};
use crate::layout::{
    comes_by, consistent, corner, corner_before, cube, cube_avoids, cube_ok, follow, grafted,
    holds_stale,
    is_stale, last_link, lemma_add_leader, lemma_cube_and_corner, lemma_on_way, lemma_free_cube,
    lemma_graft, lemma_leader_corner, lemma_overwrite, lemma_prune, lemma_stale_entries,
    lemma_stale_entries_kept, lemma_stands_for_one, lemma_step, lemma_walk_is_hop_chain, locate,
    payload_at, root, spec_step, stale_entries, unreferenced, walk,
};
use crate::model::{
    accepted, cube_freed, freed_entries, freed_leaders, lemma_one_more_freed, lost_entries,
    on_way, rejected, spec_capped, spec_find, spec_free, spec_new_slots, waypoints,
};
use crate::node::{Link, Node};
use generational_arena::{Arena, Index};
use std::collections::HashMap;
use vstd::prelude::*;
use vstd::std_specs::hash::spec_keys_iter;
use vstd::std_specs::iter::IteratorSpec;

verus! {

broadcast use vstd::std_specs::hash::group_hash_axioms;

/// A sparse store of `i32` payloads keyed by 3D coordinates. Space is cut
/// into 2x2x2 cubes; the cube index knows one node per cube, its leader, and
/// the other corners hang off the leader by forward links.
pub struct GraphMat {
    arena: Arena<Node>,
    map: HashMap<u128, Index>,
    removed: u64,
}

impl View for GraphMat {
    type V = Map<Coord, i32>;

    /// What the store holds: the coordinates that have a payload, each with
    /// its payload.
    closed spec fn view(&self) -> Map<Coord, i32> {
        Map::new(
            |c: Coord| payload_at(self.nodes(), self.cubes(), c) is Some,
            |c: Coord| payload_at(self.nodes(), self.cubes(), c).unwrap(),
        )
    }
}

impl GraphMat {
    /// The nodes in the arena.
    pub closed spec fn nodes(&self) -> Map<Index, Node> {
        arena_nodes(self.arena)
    }

    /// The cube index.
    pub closed spec fn cubes(&self) -> Map<u128, Index> {
        self.map@
    }

    /// The index of the node that stands for `coord`, if the walk to it
    /// succeeds.
    pub open spec fn node_at(&self, coord: Coord) -> Option<Index> {
        locate(self.nodes(), self.cubes(), coord)
    }

    /// The invariant of the store: the cube index and the arena agree, and
    /// the store has counted the removals that the arena has seen.
    pub closed spec fn wf(&self) -> bool {
        &&& consistent(self.nodes(), self.cubes())
        &&& self.nodes().dom().finite()
        &&& arena_generation(self.arena) == self.removed
    }

    /// How many nodes the arena has given back so far. The arena counts
    /// them in a `u64`; once the count has reached `u64::MAX` the store
    /// gives no node back any more, and empties it instead.
    pub closed spec fn removals(&self) -> nat {
        self.removed as nat
    }

    /// The nodes that were ever put into the arena: those it holds and those
    /// it has given back.
    pub open spec fn nodes_ever(&self) -> nat {
        self.node_count() + self.removals()
    }

    /// Whether the node under `idx` has left the arena, or stays in it
    /// without a payload.
    pub open spec fn cleared(&self, idx: Index) -> bool {
        !self.nodes().contains_key(idx) || self.nodes()[idx].data is None
    }

    /// One where no node stands for `coord`, zero where one does.
    pub open spec fn missing(&self, coord: Coord) -> nat {
        if self.node_at(coord) is None {
            1
        } else {
            0
        }
    }

    /// How many nodes a `set` at `coord` puts into the arena: one for `coord`
    /// itself, unless it is a leader that has its node, and a placeholder
    /// for each corner on the way that has none.
    pub open spec fn nodes_made(&self, coord: Coord) -> nat {
        let l = spec_leader(coord);
        let (a, b) = waypoints(coord);
        if is_leader(coord) {
            self.missing(coord)
        } else {
            1 + self.missing(l) + (if a != l && a != coord {
                self.missing(a)
            } else {
                0
            }) + (if b != a && b != coord {
                self.missing(b)
            } else {
                0
            })
        }
    }

    /// One where the arena gives back the node that stands for `coord`,
    /// zero where no node does or the arena gives none back any more.
    pub open spec fn gives_back(&self, coord: Coord) -> nat {
        if self.node_at(coord) is Some && self.removals() < u64::MAX {
            1
        } else {
            0
        }
    }

    /// The payloads that are in the arena and cannot be read: each with the
    /// coordinate it was stored at. A node is left behind when its cube is
    /// freed and it is not the leader. A scan of the arena still comes
    /// across it.
    pub closed spec fn left_behind(&self) -> Set<(Coord, i32)> {
        stale_entries(self.nodes(), self.cubes(), None)
    }

    /// The view holds, for each coordinate, the payload of the node that
    /// stands for it.
    pub proof fn lemma_view(&self, coord: Coord)
        ensures
            self@.contains_key(coord) <==> payload_at(self.nodes(), self.cubes(), coord) is Some,
            self@.contains_key(coord) ==> Some(self@[coord]) == payload_at(
                self.nodes(),
                self.cubes(),
                coord,
            ),
    {
    }

    /// A leader has a node exactly when its cube is filed in the index, and
    /// that node is the one the index names.
    pub proof fn lemma_filed(&self, l: Coord)
        requires
            is_leader(l),
        ensures
            self.cubes().contains_key(spec_cube_key(l)) <==> self.node_at(l) is Some,
            self.node_at(l) is Some ==> self.node_at(l) == Some(self.cubes()[spec_cube_key(l)]),
    {
        lemma_leader_corner(l);
    }

    /// Only leaders are filed in the index: no other corner of a cube has a
    /// key there.
    pub proof fn lemma_keys_are_leaders(&self, c: Coord)
        requires
            self.wf(),
        ensures
            self.cubes().contains_key(spec_cube_key(c)) ==> is_leader(c),
    {
        lemma_free_cube(self.nodes(), self.cubes(), c);
    }

    /// A node that a walk ends at is in the arena and carries the
    /// coordinate that the walk was for.
    pub proof fn lemma_node_at(&self, coord: Coord)
        requires
            self.wf(),
        ensures
            self.node_at(coord) matches Some(i) ==> self.nodes().contains_key(i)
                && self.nodes()[i].coord == coord,
    {
        if self.cubes().contains_key(cube(coord)) {
            assert(cube_ok(self.nodes(), self.cubes()[cube(coord)], cube(coord)));
            if let Some(i) = self.node_at(coord) {
                lemma_cube_and_corner(self.nodes()[i].coord, coord);
            }
        }
    }

    /// An empty store.
    pub fn new() -> (store: GraphMat)
        ensures
            store.wf(),
            store@ == Map::<Coord, i32>::empty(),
            store.left_behind() == Set::<(Coord, i32)>::empty(),
            store.node_count() == 0,
            store.removals() == 0,
            forall|c: Coord| #[trigger] store.node_at(c) is None,
    {
        let store = GraphMat { arena: arena_new(), map: HashMap::new(), removed: 0 };
        assert(store@ =~= Map::<Coord, i32>::empty());
        assert(store.left_behind() =~= Set::<(Coord, i32)>::empty());
        store
    }

    /// One step of a walk: follows `link` out of the node at `from`.
    fn hop(&self, from: Option<Index>, link: Option<Link>) -> (to: Option<Index>)
        ensures
            to == follow(self.nodes(), from, link),
    {
        match (from, link) {
            (Some(idx), Some(l)) => match arena_get(&self.arena, idx) {
                Some(node) => node.link(l),
                None => None,
            },
            (Some(idx), None) => Some(idx),
            (None, _) => None,
        }
    }

    /// Walks to the node that stands for `coord`: looks the leader of its
    /// cube up in the index and follows the hop chain of its offset.
    pub fn get_node_index(&self, coord: Coord) -> (found: Option<Index>)
        requires
            self.wf(),
        ensures
            found == self.node_at(coord),
            found matches Some(i) ==> self.nodes().contains_key(i) && self.nodes()[i].coord
                == coord,
    {
        let leader_coord = leader(coord);
        let key = cube_key(leader_coord);
        proof {
            lemma_walk_is_hop_chain(self.nodes(), self.cubes(), coord);
            self.lemma_node_at(coord);
        }
        let leader_idx = match self.map.get(&key) {
            None => {
                return None;
            },
            Some(idx) => *idx,
        };
        match hop_chain(offset(coord)) {
            None => Some(leader_idx),
            Some(chain) => {
                let first = self.hop(Some(leader_idx), Some(chain.first));
                let second = self.hop(first, chain.second);
                self.hop(second, chain.third)
            },
        }
    }

    /// The payload stored at `coord`, or `None` when there is none.
    pub fn get(&self, coord: Coord) -> (payload: Option<&i32>)
        requires
            self.wf(),
        ensures
            payload == (if self@.contains_key(coord) {
                Some(&self@[coord])
            } else {
                None
            }),
    {
        match self.get_node_index(coord) {
            None => None,
            Some(idx) => match arena_get(&self.arena, idx) {
                Some(node) => node.get(),
                None => None,
            },
        }
    }

    /// The payload stored at `coord`, for writing, or `None` when there is
    /// none. What the caller leaves in it is what the store holds at `coord`
    /// afterwards.
    pub fn get_mut(&mut self, coord: Coord) -> (payload: Option<&mut i32>)
        requires
            old(self).wf(),
        ensures
            final(self).wf(),
            final(self).left_behind() == old(self).left_behind(),
            forall|x: Coord| #[trigger] final(self).node_at(x) == old(self).node_at(x),
            final(self).node_count() == old(self).node_count(),
            final(self).slot_count() == old(self).slot_count(),
            final(self).removals() == old(self).removals(),
            match payload {
                Some(p) => old(self)@.contains_key(coord) && *p == old(self)@[coord]
                    && final(self)@ == old(self)@.insert(coord, *final(p)),
                None => !old(self)@.contains_key(coord) && *final(self) == *old(self),
            },
    {
        let idx = match self.get_node_index(coord) {
            None => {
                return None;
            },
            Some(idx) => idx,
        };
        let holds = match arena_get(&self.arena, idx) {
            Some(node) => node.get().is_some(),
            None => false,
        };
        if !holds {
            return None;
        }
        let ghost nodes = self.nodes();
        let ghost cubes = self.cubes();
        match arena_get_mut(&mut self.arena, idx) {
            None => None,
            Some(node) => {
                let payload = node.get_mut();
                proof {
                    let p = payload.unwrap();
                    Self::lemma_payload_changed(nodes, cubes, coord, idx, *final(p));
                }
                payload
            },
        }
    }

    /// Changing the payload of the node that stands for `coord` changes
    /// what is read at `coord` and nothing else.
    proof fn lemma_payload_changed(
        nodes: Map<Index, Node>,
        cubes: Map<u128, Index>,
        coord: Coord,
        idx: Index,
        data: i32,
    )
        requires
            consistent(nodes, cubes),
            locate(nodes, cubes, coord) == Some(idx),
        ensures
            nodes.contains_key(idx),
            nodes[idx].coord == coord,
            consistent(nodes.insert(idx, nodes[idx].spec_with_data(Some(data))), cubes),
            forall|x: Coord| #[trigger]
                locate(nodes.insert(idx, nodes[idx].spec_with_data(Some(data))), cubes, x)
                    == locate(nodes, cubes, x),
            forall|x: Coord| #[trigger]
                payload_at(nodes.insert(idx, nodes[idx].spec_with_data(Some(data))), cubes, x)
                    == (if x == coord {
                    Some(data)
                } else {
                    payload_at(nodes, cubes, x)
                }),
            stale_entries(nodes.insert(idx, nodes[idx].spec_with_data(Some(data))), cubes, None)
                == stale_entries(nodes, cubes, None),
    {
        let changed = nodes.insert(idx, nodes[idx].spec_with_data(Some(data)));
        lemma_stands_for_one(nodes, cubes, coord, coord);
        lemma_overwrite(nodes, cubes, idx, Some(data));
        assert forall|x: Coord| locate(nodes, cubes, x) == Some(idx) implies x == coord by {
            lemma_stands_for_one(nodes, cubes, coord, x);
        }
        lemma_stale_entries_kept(nodes, cubes, None, changed, cubes, None);
    }

    /// Takes a node that no walk comes by out of the arena. Where the arena
    /// has used up its generations the node stays, out of reach, and only
    /// its payload goes.
    fn discard(&mut self, idx: Index)
        requires
            old(self).wf(),
            old(self).nodes().contains_key(idx),
            unreferenced(old(self).nodes(), old(self).cubes(), idx),
        ensures
            final(self).wf(),
            final(self).cubes() == old(self).cubes(),
            final(self)@ == old(self)@,
            final(self).removals() == old(self).removals() + (if old(self).removals()
                < u64::MAX {
                1nat
            } else {
                0nat
            }),
            final(self).nodes_ever() == old(self).nodes_ever(),
            final(self).slot_count() == old(self).slot_count(),
            final(self).left_behind() == stale_entries(
                old(self).nodes(),
                old(self).cubes(),
                Some(idx),
            ),
            forall|c: Coord| #[trigger] final(self).node_at(c) == old(self).node_at(c),
            final(self).cleared(idx),
            forall|i: Index| old(self).cleared(i) ==> #[trigger] final(self).cleared(i),
    {
        let ghost nodes = self.nodes();
        let ghost cubes = self.cubes();
        proof {
            lemma_prune(nodes, cubes, idx);
            if nodes.contains_key(idx) {
                lemma_overwrite(nodes, cubes, idx, None);
            }
            assert forall|x: Coord| locate(nodes, cubes, x) != Some(idx) by {
                if cubes.contains_key(cube(x)) {
                    assert(cube_avoids(nodes, cubes[cube(x)], idx));
                }
            }
        }
        if self.removed < u64::MAX {
            let node = arena_remove(&mut self.arena, idx);
            if node.is_some() {
                self.removed = self.removed + 1;
            }
        } else {
            match arena_get_mut(&mut self.arena, idx) {
                Some(node) => {
                    node.data = None;
                },
                None => {},
            }
            assert(nodes.contains_key(idx) ==> self.nodes() =~= nodes.insert(
                idx,
                nodes[idx].spec_with_data(None),
            ));
        }
        proof {
            assert(self@ =~= old(self)@);
            lemma_stale_entries_kept(nodes, cubes, Some(idx), self.nodes(), cubes, None);
        }
    }

    /// Returns the leader node of the cube that `leader_coord` leads, after
    /// filing a placeholder for it if the cube had none.
    fn leader_slot(&mut self, leader_coord: Coord) -> (idx: Index)
        requires
            old(self).wf(),
            is_leader(leader_coord),
        ensures
            final(self).wf(),
            final(self)@ == old(self)@,
            final(self).left_behind() == old(self).left_behind(),
            root(final(self).cubes(), cube(leader_coord)) == Some(idx),
            final(self).nodes().contains_key(idx),
            final(self).node_at(leader_coord) == Some(idx),
            forall|x: Coord|
                x != leader_coord ==> #[trigger] final(self).node_at(x) == old(self).node_at(x),
            old(self).node_at(leader_coord) is Some ==> *final(self) == *old(self),
            forall|i: Index| #[trigger]
                old(self).nodes().contains_key(i) ==> final(self).nodes().contains_key(i),
            final(self).cubes().dom() == old(self).cubes().dom().insert(
                spec_cube_key(leader_coord),
            ),
            forall|k: u128| #[trigger]
                old(self).cubes().contains_key(k) ==> final(self).cubes()[k]
                    == old(self).cubes()[k],
            final(self).node_count() == old(self).node_count() + old(self).missing(leader_coord),
            final(self).slot_count() >= old(self).slot_count(),
            final(self).removals() == old(self).removals(),
    {
        let key = cube_key(leader_coord);
        proof {
            lemma_leader_corner(leader_coord);
        }
        match self.map.get(&key) {
            Some(idx) => {
                let idx = *idx;
                assert(cube_ok(self.nodes(), self.cubes()[key], key));
                idx
            },
            None => {
                let ghost nodes = self.nodes();
                let ghost cubes = self.cubes();
                let idx = arena_insert(&mut self.arena, Node::new(None, leader_coord));
                self.map.insert(key, idx);
                proof {
                    lemma_add_leader(nodes, cubes, leader_coord, idx, None);
                    assert(cube_ok(self.nodes(), self.cubes()[key], key));
                    lemma_stale_entries_kept(nodes, cubes, None, self.nodes(), self.cubes(), None);
                }
                idx
            },
        }
    }

    /// Returns the node one `link` beyond `parent`, on the way to a deeper
    /// corner, after hanging a placeholder there if the link led nowhere.
    fn descend(&mut self, parent: Index, link: Link, child_coord: Coord) -> (child: Index)
        requires
            old(self).wf(),
            corner(child_coord) != (false, false, false),
            link == last_link(corner(child_coord)),
            walk(
                old(self).nodes(),
                root(old(self).cubes(), cube(child_coord)),
                corner_before(corner(child_coord)),
            ) == Some(parent),
        ensures
            final(self).wf(),
            final(self)@ == old(self)@,
            final(self).left_behind() == old(self).left_behind(),
            final(self).cubes() == old(self).cubes(),
            final(self).node_at(child_coord) == Some(child),
            forall|x: Coord|
                x != child_coord ==> #[trigger] final(self).node_at(x) == old(self).node_at(x),
            forall|i: Index| #[trigger]
                old(self).nodes().contains_key(i) ==> final(self).nodes().contains_key(i),
            final(self).node_count() == old(self).node_count() + old(self).missing(child_coord),
            final(self).slot_count() >= old(self).slot_count(),
            final(self).removals() == old(self).removals(),
            old(self).node_at(child_coord) is Some ==> *final(self) == *old(self),
    {
        let ghost nodes = self.nodes();
        let ghost cubes = self.cubes();
        assert(cubes.contains_key(cube(child_coord)));
        assert(cube_ok(nodes, cubes[cube(child_coord)], cube(child_coord)));
        let existing = match arena_get(&self.arena, parent) {
            Some(node) => node.link(link),
            None => None,
        };
        match existing {
            Some(child) => child,
            None => {
                let child = arena_insert(&mut self.arena, Node::new(None, child_coord));
                match arena_get_mut(&mut self.arena, parent) {
                    Some(node) => {
                        node.replace_link(link, child);
                    },
                    None => {},
                }
                proof {
                    lemma_graft(nodes, cubes, child_coord, parent, child, None);
                    assert(self.nodes() =~= grafted(
                        nodes,
                        cubes,
                        child_coord,
                        parent,
                        child,
                        None,
                    ));
                    assert(self@ =~= old(self)@);
                    lemma_stale_entries_kept(nodes, cubes, None, self.nodes(), cubes, None);
                }
                child
            },
        }
    }

    /// Hangs a new node with `data` for `coord` on `parent`, in place of
    /// whatever stood for `coord` before, and discards what it replaced. The
    /// new node takes over the links of the one it replaces, so that the
    /// corners behind it stay where they are.
    fn attach(&mut self, parent: Index, link: Link, coord: Coord, data: i32)
        requires
            old(self).wf(),
            corner(coord) != (false, false, false),
            link == last_link(corner(coord)),
            walk(
                old(self).nodes(),
                root(old(self).cubes(), cube(coord)),
                corner_before(corner(coord)),
            ) == Some(parent),
        ensures
            final(self).wf(),
            final(self)@ == old(self)@.insert(coord, data),
            final(self).left_behind() == old(self).left_behind(),
            final(self).cubes() == old(self).cubes(),
            final(self).node_at(coord) matches Some(j) && !old(self).nodes().contains_key(j),
            forall|x: Coord|
                x != coord ==> #[trigger] final(self).node_at(x) == old(self).node_at(x),
            old(self).node_at(coord) matches Some(o) ==> final(self).cleared(o),
            final(self).removals() == old(self).removals() + old(self).gives_back(coord),
            final(self).node_count() + old(self).gives_back(coord) == old(self).node_count() + 1,
            final(self).slot_count() >= old(self).slot_count(),
    {
        let ghost nodes = self.nodes();
        let ghost cubes = self.cubes();
        assert(cubes.contains_key(cube(coord)));
        assert(cube_ok(nodes, cubes[cube(coord)], cube(coord)));
        let replaced = match arena_get(&self.arena, parent) {
            Some(node) => node.link(link),
            None => None,
        };
        assert(replaced == locate(nodes, cubes, coord));
        let mut node = Node::new(None, coord);
        if let Some(stale) = replaced {
            if let Some(before) = arena_get(&self.arena, stale) {
                node = *before;
            }
        }
        node.set(data);
        let fresh = arena_insert(&mut self.arena, node);
        match arena_get_mut(&mut self.arena, parent) {
            Some(at) => {
                at.replace_link(link, fresh);
            },
            None => {},
        }
        proof {
            lemma_graft(nodes, cubes, coord, parent, fresh, Some(data));
            assert(self.nodes() =~= grafted(nodes, cubes, coord, parent, fresh, Some(data)));
            assert(self@ =~= old(self)@.insert(coord, data));
            assert forall|i: Index, entry: (Coord, i32)| #[trigger]
                holds_stale(nodes, cubes, None, i, entry) <==> holds_stale(
                    self.nodes(),
                    cubes,
                    replaced,
                    i,
                    entry,
                ) by {
                if replaced == Some(i) {
                    lemma_stands_for_one(nodes, cubes, coord, coord);
                }
            }
            lemma_stale_entries_kept(nodes, cubes, None, self.nodes(), cubes, replaced);
        }
        if let Some(stale) = replaced {
            self.discard(stale);
        }
    }

    /// Stores `data` at `coord`, over any payload that was there, and
    /// changes what is read at no other coordinate. A leader is written in
    /// place. Any other corner gets a new node, which takes the place and
    /// the links of the node that stood for it; that node leaves the arena.
    /// Corners on the way that had no node get a placeholder.
    pub fn set(&mut self, coord: Coord, data: i32)
        requires
            old(self).wf(),
        ensures
            final(self).wf(),
            final(self)@ == old(self)@.insert(coord, data),
            final(self).left_behind() == old(self).left_behind(),
            forall|x: Coord|
                !on_way(x, coord) ==> #[trigger] final(self).node_at(x) == old(self).node_at(x),
            forall|x: Coord|
                x != coord && old(self).node_at(x) is Some ==> #[trigger] final(self).node_at(x)
                    == old(self).node_at(x),
            forall|w: Coord| on_way(w, coord) ==> #[trigger] final(self).node_at(w) is Some,
            is_leader(coord) && old(self).node_at(coord) is Some ==> final(self).node_at(coord)
                == old(self).node_at(coord),
            !is_leader(coord) ==> !old(self).nodes().contains_key(
                final(self).node_at(coord).unwrap(),
            ),
            !is_leader(coord) && old(self).node_at(coord) is Some ==> final(self).cleared(
                old(self).node_at(coord).unwrap(),
            ),
            final(self).cubes().dom() == old(self).cubes().dom().insert(
                spec_cube_key(spec_leader(coord)),
            ),
            forall|k: u128| #[trigger]
                old(self).cubes().contains_key(k) ==> final(self).cubes()[k]
                    == old(self).cubes()[k],
            final(self).removals() == old(self).removals() + (if is_leader(coord) {
                0
            } else {
                old(self).gives_back(coord)
            }),
            final(self).nodes_ever() == old(self).nodes_ever() + old(self).nodes_made(coord),
            final(self).slot_count() >= old(self).slot_count(),
    {
        let leader_coord = leader(coord);
        let key = cube_key(leader_coord);
        proof {
            lemma_leader_corner(coord);
            lemma_leader_corner(leader_coord);
        }
        if coord.0 == leader_coord.0 && coord.1 == leader_coord.1 && coord.2 == leader_coord.2 {
            let ghost nodes = self.nodes();
            let ghost cubes = self.cubes();
            match self.map.get(&key) {
                None => {
                    let index = arena_insert(&mut self.arena, Node::new(Some(data), leader_coord));
                    self.map.insert(key, index);
                    proof {
                        lemma_add_leader(nodes, cubes, coord, index, Some(data));
                        lemma_stale_entries_kept(
                            nodes,
                            cubes,
                            None,
                            self.nodes(),
                            self.cubes(),
                            None,
                        );
                    }
                },
                Some(idx) => {
                    let idx = *idx;
                    match arena_get_mut(&mut self.arena, idx) {
                        Some(node) => {
                            node.set(data);
                        },
                        None => {},
                    }
                    proof {
                        assert(cube_ok(nodes, cubes[key], key));
                        Self::lemma_payload_changed(nodes, cubes, coord, idx, data);
                        assert(self.nodes() =~= nodes.insert(
                            idx,
                            nodes[idx].spec_with_data(Some(data)),
                        ));
                    }
                },
            }
            proof {
                assert(self@ =~= old(self)@.insert(coord, data));
                assert(self.cubes().dom() =~= cubes.dom().insert(key));
            }
            return ;
        }
        let leader_idx = self.leader_slot(leader_coord);
        let chain = match hop_chain(offset(coord)) {
            Some(chain) => chain,
            None => {
                return ;
            },
        };
        proof {
            lemma_cube_and_corner(coord, leader_coord);
            assert forall|w: Coord| #[trigger]
                on_way(w, coord) <==> cube(w) == cube(coord) && comes_by(
                    corner(coord),
                    corner(w),
                ) by {
                lemma_on_way(w, coord);
            }
        }
        match (chain.second, chain.third) {
            (None, _) => {
                self.attach(leader_idx, chain.first, coord, data);
            },
            (Some(second), None) => {
                let mid_coord = step(leader_coord, chain.first);
                let mid = self.descend(leader_idx, chain.first, mid_coord);
                proof {
                    lemma_step(mid_coord, second);
                }
                self.attach(mid, second, coord, data);
            },
            (Some(second), Some(third)) => {
                let first_coord = step(leader_coord, chain.first);
                let first = self.descend(leader_idx, chain.first, first_coord);
                proof {
                    lemma_step(first_coord, second);
                }
                let second_coord = step(first_coord, second);
                let mid = self.descend(first, second, second_coord);
                proof {
                    lemma_step(second_coord, third);
                }
                self.attach(mid, third, coord, data);
            },
        }
    }

    /// Frees the cube that `coord` leads: its leader leaves the index and the
    /// arena. The nodes of the cube's other corners stay in the arena, out of
    /// reach: every coordinate of the cube reads as empty afterwards, and a
    /// scan with `find` can still come across what those nodes hold. Where
    /// `coord` is not a leader, or leads no cube, nothing changes.
    pub fn free_pos(&mut self, coord: Coord)
        requires
            old(self).wf(),
        ensures
            final(self).wf(),
            final(self)@ == spec_free(old(self)@, coord),
            final(self).left_behind() == old(self).left_behind().union(
                freed_entries(old(self)@, coord),
            ),
            final(self).cubes() == old(self).cubes().remove(spec_cube_key(coord)),
            !is_leader(coord) || old(self).node_at(coord) is None ==> *final(self) == *old(self),
            forall|i: Index| old(self).cleared(i) ==> #[trigger] final(self).cleared(i),
            forall|x: Coord| #[trigger]
                final(self).node_at(x) == (if is_leader(coord) && spec_leader(x) == coord {
                    None
                } else {
                    old(self).node_at(x)
                }),
            is_leader(coord) && old(self).node_at(coord) is Some ==> final(self).cleared(
                old(self).node_at(coord).unwrap(),
            ),
            final(self).removals() == old(self).removals() + (if is_leader(coord) {
                old(self).gives_back(coord)
            } else {
                0
            }),
            final(self).nodes_ever() == old(self).nodes_ever(),
            final(self).slot_count() == old(self).slot_count(),
    {
        let key = cube_key(coord);
        let ghost nodes = self.nodes();
        let ghost cubes = self.cubes();
        let ghost rest = cubes.remove(key);
        let found = match self.map.get(&key) {
            Some(idx) => Some(*idx),
            None => None,
        };
        proof {
            lemma_leader_corner(coord);
            lemma_free_cube(nodes, cubes, coord);
        }
        if let Some(idx) = found {
            self.map.remove(&key);
            assert(self.cubes() == rest);
            assert(self@ =~= spec_free(old(self)@, coord));
            proof {
                let added = freed_entries(old(self)@, coord);
                assert forall|entry: (Coord, i32)| #[trigger] added.contains(entry) implies exists|
                    i: Index,
                | #[trigger] holds_stale(nodes, rest, Some(idx), i, entry) by {
                    lemma_stands_for_one(nodes, cubes, entry.0, entry.0);
                    let i = locate(nodes, cubes, entry.0).unwrap();
                    if i == idx {
                        lemma_stands_for_one(nodes, cubes, entry.0, coord);
                    }
                    assert(holds_stale(nodes, rest, Some(idx), i, entry));
                }
                assert forall|i: Index, entry: (Coord, i32)| #[trigger]
                    holds_stale(nodes, rest, Some(idx), i, entry) implies holds_stale(
                    nodes,
                    cubes,
                    None,
                    i,
                    entry,
                ) || added.contains(entry) by {
                    if locate(nodes, cubes, entry.0) == Some(i) {
                        assert(old(self)@.contains_key(entry.0));
                    }
                }
                lemma_stale_entries(nodes, cubes, None, nodes, rest, Some(idx), added);
            }
            self.discard(idx);
        } else {
            assert(self@ =~= spec_free(old(self)@, coord));
            assert(freed_entries(old(self)@, coord) =~= Set::empty());
            assert(self.left_behind().union(Set::empty()) =~= self.left_behind());
        }
    }

    /// Frees every cube whose leader holds a payload that `predicate`
    /// accepts, as `free_pos` does: the leader leaves the index and the
    /// arena, and every coordinate of the cube has no node afterwards. Only
    /// the leaders' own payloads are tested: what the other corners of a
    /// cube hold decides nothing.
    #[verifier::rlimit(40)]
    pub fn free_all<F: Fn(&i32) -> bool>(&mut self, predicate: F)
        requires
            old(self).wf(),
            forall|l: Coord|
                is_leader(l) && #[trigger] old(self)@.contains_key(l) ==> call_requires(
                    predicate,
                    (&old(self)@[l],),
                ),
        ensures
            final(self).wf(),
            forall|x: Coord| #[trigger]
                final(self)@.contains_key(x) ==> old(self)@.contains_key(x) && final(self)@[x]
                    == old(self)@[x],
            forall|x: Coord|
                #![trigger old(self)@.contains_key(x)]
                #![trigger final(self)@.contains_key(x)]
                old(self)@.contains_key(x) ==> (if final(self)@.contains_key(x) {
                    old(self)@.contains_key(spec_leader(x)) ==> call_ensures(
                        predicate,
                        (&old(self)@[spec_leader(x)],),
                        false,
                    )
                } else {
                    old(self)@.contains_key(spec_leader(x)) && call_ensures(
                        predicate,
                        (&old(self)@[spec_leader(x)],),
                        true,
                    )
                }),
            final(self).left_behind() == old(self).left_behind().union(
                lost_entries(old(self)@, final(self)@),
            ),
            forall|x: Coord| #[trigger]
                final(self).node_at(x) == (if cube_freed(old(self)@, final(self)@, x) {
                    None
                } else {
                    old(self).node_at(x)
                }),
            forall|k: u128| #[trigger]
                final(self).cubes().contains_key(k) ==> old(self).cubes().contains_key(k)
                    && final(self).cubes()[k] == old(self).cubes()[k],
            forall|l: Coord|
                is_leader(l) ==> (#[trigger] final(self).cubes().contains_key(spec_cube_key(l))
                    <==> old(self).cubes().contains_key(spec_cube_key(l)) && !cube_freed(
                    old(self)@,
                    final(self)@,
                    l,
                )),
            forall|l: Coord|
                is_leader(l) && #[trigger] cube_freed(old(self)@, final(self)@, l)
                    ==> old(self).node_at(l) is Some && final(self).cleared(
                    old(self).node_at(l).unwrap(),
                ),
            freed_leaders(old(self)@, final(self)@).finite(),
            final(self).removals() == spec_capped(
                old(self).removals() + freed_leaders(old(self)@, final(self)@).len(),
            ),
            final(self).nodes_ever() == old(self).nodes_ever(),
            final(self).slot_count() == old(self).slot_count(),
    {
        let keys = self.cube_keys();
        let ghost before = self@;
        let mut i: usize = 0;
        assert(self.left_behind().union(lost_entries(before, before)) =~= self.left_behind());
        assert(freed_leaders(before, before) =~= Set::empty());
        while i < keys.len()
            invariant
                0 <= i <= keys.len(),
                self.wf(),
                before == old(self)@,
                self.left_behind() == old(self).left_behind().union(lost_entries(before, self@)),
                forall|x: Coord| #[trigger]
                    self.node_at(x) == (if cube_freed(before, self@, x) {
                        None
                    } else {
                        old(self).node_at(x)
                    }),
                forall|k: u128| #[trigger]
                    self.cubes().contains_key(k) ==> old(self).cubes().contains_key(k)
                        && self.cubes()[k] == old(self).cubes()[k],
                forall|l: Coord|
                    is_leader(l) ==> (#[trigger] self.cubes().contains_key(spec_cube_key(l))
                        <==> old(self).cubes().contains_key(spec_cube_key(l)) && !cube_freed(
                        before,
                        self@,
                        l,
                    )),
                forall|l: Coord|
                    is_leader(l) && #[trigger] cube_freed(before, self@, l)
                        ==> old(self).node_at(l) is Some && self.cleared(
                        old(self).node_at(l).unwrap(),
                    ),
                freed_leaders(before, self@).finite(),
                self.removals() == spec_capped(
                    old(self).removals() + freed_leaders(before, self@).len(),
                ),
                self.nodes_ever() == old(self).nodes_ever(),
                self.slot_count() == old(self).slot_count(),
                keys@.no_duplicates(),
                forall|k: u128| keys@.contains(k) <==> old(self).cubes().contains_key(k),
                forall|l: Coord|
                    is_leader(l) && #[trigger] before.contains_key(l) ==> call_requires(
                        predicate,
                        (&before[l],),
                    ),
                forall|x: Coord| #[trigger]
                    self@.contains_key(x) ==> before.contains_key(x) && self@[x] == before[x],
                forall|x: Coord|
                    #[trigger] before.contains_key(x) && !self@.contains_key(x)
                        ==> before.contains_key(spec_leader(x)) && call_ensures(
                        predicate,
                        (&before[spec_leader(x)],),
                        true,
                    ),
                forall|x: Coord|
                    #[trigger] self@.contains_key(x) && before.contains_key(spec_leader(x)) && (
                    exists|j: int| 0 <= j < i && keys@[j] == cube(x)) ==> call_ensures(
                        predicate,
                        (&before[spec_leader(x)],),
                        false,
                    ),
                forall|x: Coord|
                    #[trigger] before.contains_key(x) && !(exists|j: int|
                        0 <= j < i && keys@[j] == cube(x)) ==> self@.contains_key(x),
            decreases keys.len() - i,
        {
            let key = keys[i];
            let ghost now = self@;
            let ghost nodes = self.nodes();
            let ghost cubes = self.cubes();
            let leader_idx = match self.map.get(&key) {
                Some(idx) => Some(*idx),
                None => None,
            };
            let mut freed = false;
            let ghost led: Coord = (0, 0, 0);
            if let Some(idx) = leader_idx {
                assert(cube_ok(nodes, cubes[key], key));
                let node = match arena_get(&self.arena, idx) {
                    Some(node) => *node,
                    None => Node::new(None, (0, 0, 0)),
                };
                proof {
                    led = node.coord;
                    lemma_leader_corner(led);
                    assert(payload_at(nodes, cubes, led) == node.data);
                }
                if let Some(held) = node.data {
                    assert(now.contains_key(led) && now[led] == held);
                    if predicate(&held) {
                        self.free_pos(node.coord);
                        freed = true;
                        proof {
                            lemma_one_more_freed(before, now, led);
                            assert forall|l: Coord| is_leader(l) implies (spec_cube_key(l)
                                == spec_cube_key(led) <==> l == led) by {
                                lemma_cube_key_injective(l, led);
                            }
                            assert(old(self).left_behind().union(lost_entries(before, now)).union(
                                freed_entries(now, led),
                            ) =~= old(self).left_behind().union(
                                lost_entries(before, now).union(freed_entries(now, led)),
                            ));
                        }
                    }
                }
            }
            proof {
                assert forall|x: Coord| cube(x) == key implies (if freed {
                    !self@.contains_key(x) && spec_leader(x) == led && before.contains_key(led)
                        && call_ensures(predicate, (&before[led],), true)
                } else {
                    self@ == now && (now.contains_key(x) && before.contains_key(spec_leader(x))
                        ==> call_ensures(predicate, (&before[spec_leader(x)],), false))
                }) by {
                    lemma_leader_corner(x);
                    if leader_idx is Some {
                        lemma_cube_key_injective(spec_leader(x), led);
                        if !freed && now.contains_key(x) && before.contains_key(spec_leader(x)) {
                            assert(!(exists|j: int| 0 <= j < i && keys@[j] == cube(led))) by {
                                if exists|j: int| 0 <= j < i && keys@[j] == cube(led) {
                                    let j = choose|j: int| 0 <= j < i && keys@[j] == cube(led);
                                    assert(keys@[j] == keys@[i as int]);
                                }
                            }
                        }
                    }
                }
                assert forall|x: Coord| cube(x) != key && freed implies self@.contains_key(x)
                    == now.contains_key(x) by {
                    lemma_leader_corner(x);
                    lemma_cube_key_injective(spec_leader(x), led);
                }
            }
            i = i + 1;
        }
        proof {
            assert forall|x: Coord| #[trigger]
                before.contains_key(x) implies exists|j: int|
                0 <= j < keys@.len() && keys@[j] == cube(x) by {
                assert(old(self).cubes().contains_key(cube(x)));
                assert(keys@.contains(cube(x)));
            }
        }
    }

    /// The keys of the cube index, each once, in no particular order.
    fn cube_keys(&self) -> (keys: Vec<u128>)
        ensures
            keys@.no_duplicates(),
            forall|k: u128| keys@.contains(k) <==> self.cubes().contains_key(k),
    {
        let mut keys: Vec<u128> = Vec::new();
        let ghost all = spec_keys_iter(&self.map).remaining();
        for key in it: self.map.keys()
            invariant
                it.seq() == all,
                keys@.len() == it.index(),
                forall|j: int| 0 <= j < keys@.len() ==> keys@[j] == *all[j],
        {
            keys.push(*key);
        }
        proof {
            assert(keys@ =~= all.unref());
            assert forall|a: int, b: int|
                0 <= a < keys@.len() && 0 <= b < keys@.len() && a != b implies keys@[a]
                != keys@[b] by {
                assert(all[a] != all[b]);
            }
            assert forall|k: u128| keys@.contains(k) <==> self.cubes().contains_key(k) by {
                assert(all.unref().to_set().contains(k) <==> self.cubes().contains_key(k));
            }
        }
        keys
    }

    /// The node held under `idx`, if there is one.
    pub fn node(&self, idx: Index) -> (node: Option<&Node>)
        ensures
            node == (if self.nodes().contains_key(idx) {
                Some(&self.nodes()[idx])
            } else {
                None
            }),
    {
        arena_get(&self.arena, idx)
    }

    /// A cursor that starts on `starting_coord` and travels in `direction`,
    /// which stays fixed. Where the direction has to change on the way, use
    /// `iter_all_dir`.
    pub fn iter<'a>(&'a self, direction: Direction, starting_coord: Coord) -> (cursor:
        GraphMatIterator<'a>)
        requires
            self.wf(),
        ensures
            cursor.wf(),
            cursor.store() == *self,
            cursor.position() == starting_coord,
            cursor.direction() == direction,
    {
        GraphMatIterator::new(self, direction, starting_coord)
    }

    /// A cursor that starts on `starting_coord` and sets out in
    /// `starting_dir`, which can be changed between steps.
    pub fn iter_all_dir<'a>(&'a self, starting_coord: Coord, starting_dir: Direction) -> (cursor:
        GraphMatFreeIterator<'a>)
        requires
            self.wf(),
        ensures
            cursor.wf(),
            cursor.store() == *self,
            cursor.position() == starting_coord,
            cursor.direction() == starting_dir,
    {
        GraphMatFreeIterator::new(self, starting_coord, starting_dir)
    }

    /// The nodes in the arena, in the arena's own order: those that stand
    /// for a coordinate, and those that were left behind when a cube was
    /// freed.
    pub closed spec fn stored(&self) -> Seq<Node> {
        Seq::new(arena_order(self.arena).len(), |i: int| self.nodes()[arena_order(self.arena)[i]])
    }

    /// Scans the arena for a node that holds `value` and returns the
    /// coordinate of the first one found: first in the arena's order, not
    /// smallest by coordinate. A value that can be read at some coordinate
    /// is always found. The coordinate returned is one at which `value` can
    /// be read, unless the scan came across a node that was left behind
    /// first.
    pub fn find(&self, value: &i32) -> (found: Option<Coord>)
        ensures
            found == spec_find(self.stored(), *value),
            self.wf() ==> (found matches Some(c) ==> (self@.contains_key(c) && self@[c] == *value)
                || self.left_behind().contains((c, *value))),
            self.wf() ==> forall|c: Coord|
                #[trigger] self@.contains_key(c) && self@[c] == *value ==> found is Some,
            self.wf() ==> forall|c: Coord| #[trigger]
                self.left_behind().contains((c, *value)) ==> found is Some,
    {
        let indices = arena_indices(&self.arena);
        let mut i: usize = 0;
        assert(self.stored().skip(0) =~= self.stored());
        while i < indices.len()
            invariant
                0 <= i <= indices.len(),
                indices@ == arena_order(self.arena),
                forall|j: Index| indices@.contains(j) <==> self.nodes().contains_key(j),
                forall|j: int| 0 <= j < i ==> (#[trigger] self.stored()[j]).data != Some(*value),
                spec_find(self.stored(), *value) == spec_find(
                    self.stored().skip(i as int),
                    *value,
                ),
            decreases indices.len() - i,
        {
            assert(indices@.contains(indices@[i as int]));
            assert(self.stored().skip(i as int).drop_first() =~= self.stored().skip(i + 1));
            match arena_get(&self.arena, indices[i]) {
                Some(node) => {
                    if let Some(held) = node.get() {
                        if *held == *value {
                            proof {
                                let at = indices@[i as int];
                                if !is_stale(self.nodes(), self.cubes(), at) {
                                    assert(payload_at(self.nodes(), self.cubes(), node.coord)
                                        == Some(*value));
                                } else {
                                    assert(holds_stale(
                                        self.nodes(),
                                        self.cubes(),
                                        None,
                                        at,
                                        (node.coord, *value),
                                    ));
                                }
                            }
                            return Some(node.coord);
                        }
                    }
                },
                None => {},
            }
            i = i + 1;
        }
        proof {
            assert forall|at: Index|
                self.nodes().contains_key(at) implies self.nodes()[at].data != Some(*value) by {
                assert(indices@.contains(at));
                let j = choose|j: int| 0 <= j < indices@.len() && indices@[j] == at;
                assert(self.stored()[j] == self.nodes()[at]);
            }
            if self.wf() {
                assert forall|c: Coord| #[trigger]
                    self@.contains_key(c) implies self@[c] != *value by {
                    self.lemma_node_at(c);
                }
                assert forall|c: Coord| !(#[trigger] self.left_behind().contains((c, *value))) by {
                    if self.left_behind().contains((c, *value)) {
                        let at = choose|at: Index| #[trigger]
                            holds_stale(self.nodes(), self.cubes(), None, at, (c, *value));
                        assert(self.nodes().contains_key(at));
                    }
                }
            }
        }
        None
    }

    /// Scans the arena for a node whose payload `pred` accepts and returns
    /// the coordinate of the first one found, in the arena's order.
    /// Placeholders hold nothing to test and are passed over. As with
    /// `find`, the payload that was accepted can be read at the coordinate
    /// returned, unless it is one that was left behind.
    pub fn find_if<F: Fn(&i32) -> bool>(&self, pred: F) -> (found: Option<Coord>)
        requires
            forall|i: int|
                0 <= i < self.stored().len() ==> (#[trigger] self.stored()[i].data matches Some(v)
                    ==> call_requires(pred, (&v,))),
        ensures
            match found {
                Some(c) => exists|i: int|
                    0 <= i < self.stored().len() && self.stored()[i].coord == c && accepted(
                        pred,
                        #[trigger] self.stored()[i],
                    ) && forall|j: int| 0 <= j < i ==> rejected(pred, #[trigger] self.stored()[j]),
                None => forall|j: int|
                    0 <= j < self.stored().len() ==> rejected(pred, #[trigger] self.stored()[j]),
            },
            self.wf() ==> (found matches Some(c) ==> exists|v: i32| #[trigger]
                call_ensures(pred, (&v,), true) && ((self@.contains_key(c) && self@[c] == v)
                    || self.left_behind().contains((c, v)))),
            self.wf() && found is None ==> forall|c: Coord| #[trigger]
                self@.contains_key(c) ==> call_ensures(pred, (&self@[c],), false),
            self.wf() && found is None ==> forall|c: Coord, v: i32| #[trigger]
                self.left_behind().contains((c, v)) ==> call_ensures(pred, (&v,), false),
    {
        let indices = arena_indices(&self.arena);
        let mut i: usize = 0;
        while i < indices.len()
            invariant
                0 <= i <= indices.len(),
                indices@ == arena_order(self.arena),
                forall|j: Index| indices@.contains(j) <==> self.nodes().contains_key(j),
                forall|j: int| 0 <= j < i ==> rejected(pred, #[trigger] self.stored()[j]),
                forall|j: int|
                    0 <= j < self.stored().len() ==> (#[trigger] self.stored()[j].data matches Some(
                        v,
                    ) ==> call_requires(pred, (&v,))),
            decreases indices.len() - i,
        {
            assert(indices@.contains(indices@[i as int]));
            assert(self.stored()[i as int] == self.nodes()[indices@[i as int]]);
            match arena_get(&self.arena, indices[i]) {
                Some(node) => {
                    if let Some(held) = node.get() {
                        if pred(held) {
                            proof {
                                let at = indices@[i as int];
                                assert(accepted(pred, self.stored()[i as int]));
                                if !is_stale(self.nodes(), self.cubes(), at) {
                                    assert(payload_at(self.nodes(), self.cubes(), node.coord)
                                        == Some(*held));
                                } else {
                                    assert(holds_stale(
                                        self.nodes(),
                                        self.cubes(),
                                        None,
                                        at,
                                        (node.coord, *held),
                                    ));
                                    assert(self.left_behind().contains((node.coord, *held)));
                                }
                            }
                            return Some(node.coord);
                        }
                    }
                },
                None => {},
            }
            i = i + 1;
        }
        proof {
            assert forall|at: Index| self.nodes().contains_key(at) implies rejected(
                pred,
                self.nodes()[at],
            ) by {
                assert(indices@.contains(at));
                let j = choose|j: int| 0 <= j < indices@.len() && indices@[j] == at;
                assert(self.stored()[j] == self.nodes()[at]);
            }
            if self.wf() {
                assert forall|c: Coord| #[trigger] self@.contains_key(c) implies call_ensures(
                    pred,
                    (&self@[c],),
                    false,
                ) by {
                    self.lemma_node_at(c);
                    assert(rejected(pred, self.nodes()[self.node_at(c).unwrap()]));
                }
                assert forall|c: Coord, v: i32| #[trigger]
                    self.left_behind().contains((c, v)) implies call_ensures(
                    pred,
                    (&v,),
                    false,
                ) by {
                    let at = choose|at: Index| #[trigger]
                        holds_stale(self.nodes(), self.cubes(), None, at, (c, v));
                    assert(rejected(pred, self.nodes()[at]));
                }
            }
        }
        None
    }

    /// The number of nodes in the arena.
    pub closed spec fn node_count(&self) -> nat {
        self.nodes().dom().len()
    }

    /// The number of slots the arena has, free and taken.
    pub closed spec fn slot_count(&self) -> nat {
        arena_slots(self.arena)
    }

    /// Returns the number of nodes in the arena.
    pub fn len(&self) -> (count: usize)
        ensures
            count == self.node_count(),
    {
        arena_len(&self.arena)
    }

    /// Returns the number of slots the arena has, free and taken.
    pub fn capacity(&self) -> (slots: usize)
        ensures
            slots == self.slot_count(),
    {
        arena_capacity(&self.arena)
    }

    /// Makes room for a store of `capacity` coordinates: the arena gets
    /// `capacity` less the nodes it holds in new slots, and the cube index is
    /// told to expect an eighth of `capacity` less the cubes it knows. A
    /// `capacity` below what is already there asks for nothing, and so does
    /// one that the arena's slot count could not hold. What the store holds
    /// does not change.
    pub fn reserve(&mut self, capacity: usize)
        requires
            old(self).wf(),
        ensures
            final(self).wf(),
            final(self)@ == old(self)@,
            final(self).left_behind() == old(self).left_behind(),
            final(self).nodes() == old(self).nodes(),
            final(self).cubes() == old(self).cubes(),
            final(self).removals() == old(self).removals(),
            final(self).stored() == old(self).stored(),
            final(self).node_count() == old(self).node_count(),
            final(self).slot_count() == old(self).slot_count() + spec_new_slots(
                capacity,
                old(self).node_count(),
                old(self).slot_count(),
            ),
    {
        let known = self.map.len();
        let more_cubes = if capacity > known {
            (capacity - known) / 8
        } else {
            0
        };
        self.map.reserve(more_cubes);
        let held = arena_len(&self.arena);
        let slots = arena_capacity(&self.arena);
        if capacity > held && capacity - held <= usize::MAX - slots {
            arena_reserve(&mut self.arena, capacity - held);
        }
        assert(self@ =~= old(self)@);
    }
}

/// Moves `at` one step along `link`, inside its cube.
fn step(at: Coord, link: Link) -> (to: Coord)
    requires
        !corner(at).2,
        link == Link::East ==> !corner(at).0,
        link == Link::North ==> corner(at) == (false, false, false),
    ensures
        to == spec_step(at, link),
        cube(to) == cube(at),
        corner_before(corner(to)) == corner(at),
        last_link(corner(to)) == link,
        corner(to) != (false, false, false),
{
    proof {
        lemma_step(at, link);
    }
    match link {
        Link::North => (at.0, at.1 + 1, at.2),
        Link::East => (at.0 + 1, at.1, at.2),
        Link::Sky => (at.0, at.1, at.2 + 1),
    }
}

} // verus!
