//! One vertex of the graph that the arena holds.
use crate::coord::Coord;
use generational_arena::Index;
use vstd::prelude::*;

verus! {

/// The three forward links a node can have.
#[derive(PartialEq, Eq, Structural, Clone, Copy, Debug)]
pub enum Link {
    /// Towards `+y`.
    North,
    /// Towards `+x`.
    East,
    /// Towards `+z`.
    Sky,
}

impl Link {
    /// The unit step that following this link makes.
    pub open spec fn spec_delta(self) -> Coord {
        match self {
            Link::North => (0, 1, 0),
            Link::East => (1, 0, 0),
            Link::Sky => (0, 0, 1),
        }
    }
}

/// A graph vertex: a payload, if one was stored here, the coordinate the
/// vertex stands for, and the forward links to its neighbours in the arena.
/// A node without a payload is a placeholder on the way to a deeper corner.
#[derive(Clone, Copy, Debug)]
pub struct Node {
    pub data: Option<i32>,
    pub coord: Coord,
    pub north: Option<Index>,
    pub east: Option<Index>,
    pub sky: Option<Index>,
}

impl Node {
    /// The neighbour that `link` leads to.
    pub open spec fn spec_link(self, link: Link) -> Option<Index> {
        match link {
            Link::North => self.north,
            Link::East => self.east,
            Link::Sky => self.sky,
        }
    }

    /// This node with `link` pointing at `target`.
    pub open spec fn spec_with_link(self, link: Link, target: Option<Index>) -> Node {
        match link {
            Link::North => Node { north: target, ..self },
            Link::East => Node { east: target, ..self },
            Link::Sky => Node { sky: target, ..self },
        }
    }

    /// This node with `data` as its payload.
    pub open spec fn spec_with_data(self, data: Option<i32>) -> Node {
        Node { data, coord: self.coord, north: self.north, east: self.east, sky: self.sky }
    }

    /// A node at `coord` with no neighbours.
    pub fn new(data: Option<i32>, coord: Coord) -> (node: Node)
        ensures
            node == (Node { data, coord, north: None, east: None, sky: None }),
    {
        Node { data, coord, north: None, east: None, sky: None }
    }

    /// The payload, if there is one.
    pub fn get(&self) -> (payload: Option<&i32>)
        ensures
            payload == (match self.data {
                Some(v) => Some(&v),
                None => None,
            }),
    {
        self.data.as_ref()
    }

    /// The payload, if there is one, for writing.
    pub fn get_mut(&mut self) -> (payload: Option<&mut i32>)
        ensures
            match payload {
                Some(p) => old(self).data == Some(*p) && *final(self) == (Node {
                    data: Some(*final(p)),
                    ..*old(self)
                }),
                None => old(self).data is None && *final(self) == *old(self),
            },
    {
        self.data.as_mut()
    }

    /// Stores `data` as the payload, over any earlier one.
    pub fn set(&mut self, data: i32)
        ensures
            *final(self) == (Node { data: Some(data), ..*old(self) }),
    {
        self.data = Some(data);
    }

    /// Returns the neighbour that `link` leads to.
    pub fn link(&self, link: Link) -> (target: Option<Index>)
        ensures
            target == self.spec_link(link),
    {
        match link {
            Link::North => self.north,
            Link::East => self.east,
            Link::Sky => self.sky,
        }
    }

    /// Points `link` at `target` and returns what it pointed at before.
    pub fn replace_link(&mut self, link: Link, target: Index) -> (previous: Option<Index>)
        ensures
            previous == old(self).spec_link(link),
            *final(self) == old(self).spec_with_link(link, Some(target)),
    {
        match link {
            Link::North => {
                let previous = self.north;
                self.north = Some(target);
                previous
            },
            Link::East => {
                let previous = self.east;
                self.east = Some(target);
                previous
            },
            Link::Sky => {
                let previous = self.sky;
                self.sky = Some(target);
                previous
            },
        }
    }
}

} // verus!
