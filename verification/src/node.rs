use vstd::prelude::*;

use egui::Vec2;

use crate::connection::ConnectionKey;
use crate::space::{zero_vec2, zero_vector};
use crate::thought::Thought;

verus! {

/// The key under which a node stands on the map.
#[derive(Copy, Clone, Debug, PartialEq, Eq, Hash, Structural)]
pub struct NodeKey(pub u32);

/// A thought placed on the map, with the connections that touch it and its
/// place and speed.
#[derive(Clone)]
pub struct Node {
    pub connections: Vec<ConnectionKey>,
    pub thought: Thought,
    pub position: Vec2,
    pub velocity: Vec2,
}

/// What a node holds, with its list of connections as a sequence.
pub struct NodeView {
    pub connections: Seq<ConnectionKey>,
    pub thought: Thought,
    pub position: Vec2,
    pub velocity: Vec2,
}

impl View for Node {
    type V = NodeView;

    open spec fn view(&self) -> NodeView {
        NodeView {
            connections: self.connections@,
            thought: self.thought,
            position: self.position,
            velocity: self.velocity,
        }
    }
}

impl Node {
    /// A node at `position` that holds `thought`, touches no connection and
    /// stands still.
    pub fn new(position: Vec2, thought: Thought) -> (n: Self)
        ensures
            n.connections@ == Seq::<ConnectionKey>::empty(),
            n.thought == thought,
            n.position == position,
            n.velocity == zero_vector(),
    {
        Self { connections: Vec::new(), thought, position, velocity: zero_vec2() }
    }
}

} // verus!
