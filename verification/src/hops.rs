//! The hop table: which links lead from a cube's leader to each of its corners.
use crate::coord::{is_offset, Coord};
use crate::node::Link;
use vstd::prelude::*;

verus! {

/// The links to follow, in order, from a leader to one of the seven other
/// corners of its cube. Corners that share a prefix of their chains share the
/// nodes along it. A chain has a third link only where it has a second.
#[derive(Clone, Copy, Debug)]
pub struct HopChain {
    pub first: Link,
    pub second: Option<Link>,
    pub third: Option<Link>,
}

impl View for HopChain {
    type V = Seq<Link>;

    /// The chain as a sequence of one, two or three links.
    open spec fn view(&self) -> Seq<Link> {
        match (self.second, self.third) {
            (Some(b), Some(c)) => seq![self.first, b, c],
            (Some(b), None) => seq![self.first, b],
            (None, Some(c)) => seq![self.first, c],
            (None, None) => seq![self.first],
        }
    }
}

/// The hop table. An offset that is not one of the seven non-zero corners
/// has no chain.
pub open spec fn spec_hop_chain(offset: Coord) -> Option<HopChain> {
    if offset == (1i32, 0i32, 0i32) {
        Some(HopChain { first: Link::East, second: None, third: None })
    } else if offset == (0i32, 1i32, 0i32) {
        Some(HopChain { first: Link::North, second: None, third: None })
    } else if offset == (0i32, 0i32, 1i32) {
        Some(HopChain { first: Link::Sky, second: None, third: None })
    } else if offset == (0i32, 1i32, 1i32) {
        Some(HopChain { first: Link::North, second: Some(Link::Sky), third: None })
    } else if offset == (1i32, 0i32, 1i32) {
        Some(HopChain { first: Link::East, second: Some(Link::Sky), third: None })
    } else if offset == (1i32, 1i32, 0i32) {
        Some(HopChain { first: Link::North, second: Some(Link::East), third: None })
    } else if offset == (1i32, 1i32, 1i32) {
        Some(HopChain { first: Link::North, second: Some(Link::East), third: Some(Link::Sky) })
    } else {
        None
    }
}

/// Looks `offset` up in the hop table.
pub fn hop_chain(offset: Coord) -> (chain: Option<HopChain>)
    ensures
        chain == spec_hop_chain(offset),
        chain is Some <==> is_offset(offset) && offset != (0i32, 0i32, 0i32),
{
    match offset {
        (1, 0, 0) => Some(HopChain { first: Link::East, second: None, third: None }),
        (0, 1, 0) => Some(HopChain { first: Link::North, second: None, third: None }),
        (0, 0, 1) => Some(HopChain { first: Link::Sky, second: None, third: None }),
        (0, 1, 1) => Some(HopChain { first: Link::North, second: Some(Link::Sky), third: None }),
        (1, 0, 1) => Some(HopChain { first: Link::East, second: Some(Link::Sky), third: None }),
        (1, 1, 0) => Some(HopChain { first: Link::North, second: Some(Link::East), third: None }),
        (1, 1, 1) => Some(
            HopChain { first: Link::North, second: Some(Link::East), third: Some(Link::Sky) },
        ),
        _ => None,
    }
}

impl HopChain {
    /// The links of the chain, in order.
    pub fn links(&self) -> (links: Vec<Link>)
        ensures
            links@ == self@,
    {
        let mut links: Vec<Link> = Vec::new();
        links.push(self.first);
        if let Some(b) = self.second {
            links.push(b);
        }
        if let Some(c) = self.third {
            links.push(c);
        }
        links
    }
}

} // verus!
