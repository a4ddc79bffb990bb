//! Cursors that travel through a store in a straight line, or along a path
//! that the caller bends between steps.
use crate::coord::{inc_coord, offset, spec_step_or_stay, step_fits, sum_fits, Coord};
use crate::direction::Direction;
use crate::graphmat::GraphMat;
use crate::layout::{lemma_leader_corner, lemma_step};
use crate::node::{Link, Node};
use generational_arena::Index;
use vstd::prelude::*;

verus! {

/// The forward link that one step in `dir` from a corner at `offset` follows,
/// if that step stays on the hop chains of the cube: north from a leader,
/// east from a corner in the leader's column of the plane, up from any
/// corner of the lower plane. Every other step leaves the node's own links
/// and has to be looked up from the cube index.
pub open spec fn spec_link_for(dir: Direction, offset: Coord) -> Option<Link> {
    match dir {
        Direction::uttar => if offset == (0i32, 0i32, 0i32) {
            Some(Link::North)
        } else {
            None
        },
        Direction::purva => if offset.0 == 0 && offset.2 == 0 {
            Some(Link::East)
        } else {
            None
        },
        Direction::urdhwa => if offset.2 == 0 {
            Some(Link::Sky)
        } else {
            None
        },
        _ => None,
    }
}

/// Picks the forward link, if any, that one step in `dir` from a corner at
/// `offset` follows.
pub fn link_for(dir: Direction, offset: Coord) -> (link: Option<Link>)
    ensures
        link == spec_link_for(dir, offset),
{
    match dir {
        Direction::uttar => if offset.0 == 0 && offset.1 == 0 && offset.2 == 0 {
            Some(Link::North)
        } else {
            None
        },
        Direction::purva => if offset.0 == 0 && offset.2 == 0 {
            Some(Link::East)
        } else {
            None
        },
        Direction::urdhwa => if offset.2 == 0 {
            Some(Link::Sky)
        } else {
            None
        },
        _ => None,
    }
}

/// What one advance of a cursor yields: the coordinate it stood on with the
/// payload there, if there is one, and where it stands afterwards.
pub(crate) struct Advance<'a> {
    pub(crate) item: Option<(Coord, &'a i32)>,
    pub(crate) pos: Coord,
    pub(crate) node_idx: Option<Index>,
}

/// One advance of a cursor over `store` that stands on `pos`, at the node
/// `at`, and travels in `dir`. The next node is taken from the current
/// node's own link where the step follows one, and from the cube index
/// otherwise.
pub(crate) fn advance<'a>(
    store: &'a GraphMat,
    pos: Coord,
    at: Option<Index>,
    dir: Direction,
) -> (next: Advance<'a>)
    requires
        store.wf(),
        at == store.node_at(pos),
        store@.contains_key(pos) ==> sum_fits(pos, dir.spec_delta()),
    ensures
        next.item == (if store@.contains_key(pos) {
            Some((pos, &store@[pos]))
        } else {
            None
        }),
        next.pos == spec_step_or_stay(pos, dir.spec_delta()),
        next.node_idx == store.node_at(next.pos),
{
    let node: Option<&Node> = match at {
        Some(idx) => store.node(idx),
        None => None,
    };
    proof {
        store.lemma_view(pos);
        store.lemma_node_at(pos);
        lemma_leader_corner(pos);
    }
    let item = match node {
        Some(n) => match n.get() {
            Some(payload) => Some((pos, payload)),
            None => None,
        },
        None => None,
    };
    if !step_fits(pos, dir.delta()) {
        return Advance { item, pos, node_idx: at };
    }
    let next_pos = inc_coord(pos, dir.delta());
    let node_idx = match (link_for(dir, offset(pos)), node) {
        (Some(link), Some(n)) => {
            proof {
                lemma_step(pos, link);
            }
            n.link(link)
        },
        _ => store.get_node_index(next_pos),
    };
    Advance { item, pos: next_pos, node_idx }
}

/// A cursor whose direction is fixed when it is made.
pub struct GraphMatIterator<'a> {
    graphmat: &'a GraphMat,
    curr_node_idx: Option<Index>,
    curr_pos: Coord,
    dir: Direction,
}

impl<'a> GraphMatIterator<'a> {
    /// The store the cursor travels through.
    pub closed spec fn store(&self) -> GraphMat {
        *self.graphmat
    }

    /// The coordinate the cursor stands on.
    pub closed spec fn position(&self) -> Coord {
        self.curr_pos
    }

    /// The direction the cursor travels in.
    pub closed spec fn direction(&self) -> Direction {
        self.dir
    }

    /// The invariant of the cursor: its store is well formed, and the node
    /// it remembers is the one that stands for its position.
    pub closed spec fn wf(&self) -> bool {
        &&& self.graphmat.wf()
        &&& self.curr_node_idx == self.graphmat.node_at(self.curr_pos)
    }

    /// A cursor over `graphmat` that stands on `start` and travels in `dir`.
    pub fn new(graphmat: &'a GraphMat, dir: Direction, start: Coord) -> (cursor: Self)
        requires
            graphmat.wf(),
        ensures
            cursor.wf(),
            cursor.store() == *graphmat,
            cursor.position() == start,
            cursor.direction() == dir,
    {
        GraphMatIterator {
            graphmat,
            curr_node_idx: graphmat.get_node_index(start),
            curr_pos: start,
            dir,
        }
    }

    /// Returns the coordinate the cursor stands on.
    pub fn curr_pos(&self) -> (pos: Coord)
        ensures
            pos == self.position(),
    {
        self.curr_pos
    }

    /// Advances the cursor by one step of its direction and returns the
    /// coordinate it stood on with the payload there. A coordinate without
    /// a payload yields `None`: that is how a run ends. At the edge of the
    /// grid, where the step would leave the range of the coordinates, a
    /// cursor on a coordinate without a payload stays where it is.
    pub fn next(&mut self) -> (item: Option<(Coord, &'a i32)>)
        requires
            old(self).wf(),
            old(self).store()@.contains_key(old(self).position()) ==> sum_fits(
                old(self).position(),
                old(self).direction().spec_delta(),
            ),
        ensures
            final(self).wf(),
            final(self).store() == old(self).store(),
            final(self).direction() == old(self).direction(),
            final(self).position() == spec_step_or_stay(
                old(self).position(),
                old(self).direction().spec_delta(),
            ),
            item == (if old(self).store()@.contains_key(old(self).position()) {
                Some((old(self).position(), &old(self).store()@[old(self).position()]))
            } else {
                None
            }),
    {
        let next = advance(self.graphmat, self.curr_pos, self.curr_node_idx, self.dir);
        self.curr_pos = next.pos;
        self.curr_node_idx = next.node_idx;
        next.item
    }
}

/// A cursor whose direction can be changed between steps.
pub struct GraphMatFreeIterator<'a> {
    graphmat: &'a GraphMat,
    curr_pos: Coord,
    curr_node_idx: Option<Index>,
    curr_dir: Direction,
}

impl<'a> GraphMatFreeIterator<'a> {
    /// The store the cursor travels through.
    pub closed spec fn store(&self) -> GraphMat {
        *self.graphmat
    }

    /// The coordinate the cursor stands on.
    pub closed spec fn position(&self) -> Coord {
        self.curr_pos
    }

    /// The direction the next step will take.
    pub closed spec fn direction(&self) -> Direction {
        self.curr_dir
    }

    /// The invariant of the cursor: its store is well formed, and the node
    /// it remembers is the one that stands for its position.
    pub closed spec fn wf(&self) -> bool {
        &&& self.graphmat.wf()
        &&& self.curr_node_idx == self.graphmat.node_at(self.curr_pos)
    }

    /// A cursor over `graphmat` that stands on `start` and sets out in `dir`.
    pub fn new(graphmat: &'a GraphMat, start: Coord, dir: Direction) -> (cursor: Self)
        requires
            graphmat.wf(),
        ensures
            cursor.wf(),
            cursor.store() == *graphmat,
            cursor.position() == start,
            cursor.direction() == dir,
    {
        GraphMatFreeIterator {
            graphmat,
            curr_pos: start,
            curr_node_idx: graphmat.get_node_index(start),
            curr_dir: dir,
        }
    }

    /// Returns the coordinate the cursor stands on.
    pub fn curr_pos(&self) -> (pos: Coord)
        ensures
            pos == self.position(),
    {
        self.curr_pos
    }

    /// Returns the direction the next step will take.
    pub fn curr_dir(&self) -> (dir: Direction)
        ensures
            dir == self.direction(),
    {
        self.curr_dir
    }

    /// Changes the direction of the steps to come and returns the direction
    /// that was set before. The cursor does not move.
    pub fn set_direction(&mut self, dir: Direction) -> (previous: Direction)
        ensures
            previous == old(self).direction(),
            final(self).direction() == dir,
            final(self).position() == old(self).position(),
            final(self).store() == old(self).store(),
            old(self).wf() ==> final(self).wf(),
    {
        let old_dir = self.curr_dir;
        self.curr_dir = dir;
        old_dir
    }

    /// Advances the cursor by one step of its current direction and returns
    /// the coordinate it stood on with the payload there. A coordinate
    /// without a payload yields `None`: that is how a run ends. At the edge
    /// of the grid, where the step would leave the range of the
    /// coordinates, a cursor on a coordinate without a payload stays where
    /// it is.
    pub fn next(&mut self) -> (item: Option<(Coord, &'a i32)>)
        requires
            old(self).wf(),
            old(self).store()@.contains_key(old(self).position()) ==> sum_fits(
                old(self).position(),
                old(self).direction().spec_delta(),
            ),
        ensures
            final(self).wf(),
            final(self).store() == old(self).store(),
            final(self).direction() == old(self).direction(),
            final(self).position() == spec_step_or_stay(
                old(self).position(),
                old(self).direction().spec_delta(),
            ),
            item == (if old(self).store()@.contains_key(old(self).position()) {
                Some((old(self).position(), &old(self).store()@[old(self).position()]))
            } else {
                None
            }),
    {
        let next = advance(self.graphmat, self.curr_pos, self.curr_node_idx, self.curr_dir);
        self.curr_pos = next.pos;
        self.curr_node_idx = next.node_idx;
        next.item
    }
}

} // verus!
