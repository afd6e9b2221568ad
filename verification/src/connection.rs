use vstd::prelude::*;

use crate::app::Highlight;
use crate::node::NodeKey;

verus! {

/// The key under which a connection stands.
#[derive(Copy, Clone, Debug, PartialEq, Eq, Hash, Structural)]
pub struct ConnectionKey(pub u32);

/// A link between two nodes.
pub struct Connection {
    pub from: NodeKey,
    pub to: NodeKey,
}

impl Connection {
    /// The end of the connection that `key` is not: `to` when `key` is
    /// `from`, else `from`.
    pub open spec fn spec_other(self, key: NodeKey) -> NodeKey {
        if self.from == key { self.to } else { self.from }
    }

    /// The node at the far end of the connection, seen from `key`.
    pub fn other(&self, key: &NodeKey) -> (r: NodeKey)
        ensures
            r == self.spec_other(*key),
    {
        if self.from == *key {
            self.to
        } else {
            self.from
        }
    }

    /// How the connection is drawn, with `hovered` the node under the
    /// pointer: lit when that node is one of its ends.
    pub fn highlight(&self, hovered: Option<NodeKey>) -> (r: Highlight)
        ensures
            r == (match hovered {
                Some(h) => if self.from == h || self.to == h {
                    Highlight::Hovered
                } else {
                    Highlight::Plain
                },
                None => Highlight::Plain,
            }),
    {
        match hovered {
            Some(h) => if self.from == h || self.to == h {
                Highlight::Hovered
            } else {
                Highlight::Plain
            },
            None => Highlight::Plain,
        }
    }
}

/// Seen from one end, the far end of a connection is the other end; seen
/// from there, it is the first end again.
pub proof fn law_other_end(c: Connection, k: NodeKey)
    requires
        k == c.from || k == c.to,
    ensures
        c.spec_other(c.from) == c.to,
        c.spec_other(c.to) == c.from,
        c.spec_other(c.spec_other(k)) == k,
{
}

} // verus!
