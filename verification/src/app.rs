use vstd::prelude::*;

use std::collections::HashMap;

use egui::{Pos2, Vec2};

use crate::action::Actions;
use crate::connection::{Connection, ConnectionKey};
use crate::mode::Mode;
use crate::node::{Node, NodeKey, NodeView};
use crate::space::zero_vector;
use crate::seqs::{lemma_filter_all, lemma_filter_contains, lemma_filter_push, lemma_filter_twice};
use crate::thought::{Thought, ThoughtView};

verus! {

broadcast use vstd::std_specs::hash::group_hash_axioms;

/// The state of a thought map, as mathematical values.
pub struct AppView {
    /// The nodes on the map, by the number of their key.
    pub nodes: Map<u32, NodeView>,
    /// The number the next node will be given.
    pub next_node: u32,
    /// The connections, by the number of their key.
    pub connections: Map<u32, Connection>,
    /// The number the next connection will be given.
    pub next_connection: u32,
    pub actions: Actions,
    pub selected: Option<NodeKey>,
    /// Thoughts written but not yet placed on the map.
    pub inbox: Seq<Thought>,
    /// Thoughts being written, one window each.
    pub new_thoughts: Seq<Thought>,
    pub mode: Mode,
}

/// The predicate that keeps every connection key but `key`.
pub open spec fn other_than(key: ConnectionKey) -> spec_fn(ConnectionKey) -> bool {
    |c: ConnectionKey| c != key
}

/// The predicate that keeps the connection keys that `gone` does not hold.
pub open spec fn not_in(gone: Seq<ConnectionKey>) -> spec_fn(ConnectionKey) -> bool {
    |c: ConnectionKey| !gone.contains(c)
}

/// Two nodes that differ at most in their connections.
pub open spec fn same_but_connections(a: NodeView, b: NodeView) -> bool {
    &&& a.thought == b.thought
    &&& a.position == b.position
    &&& a.velocity == b.velocity
}

impl AppView {
    /// The connection under `c` exists and has node `k` at one of its ends.
    pub open spec fn touches(self, k: u32, c: ConnectionKey) -> bool {
        &&& self.connections.contains_key(c.0)
        &&& (self.connections[c.0].from == NodeKey(k) || self.connections[c.0].to == NodeKey(k))
    }

    /// Both ends of connection `c` are nodes that list `c`.
    pub open spec fn linked(self, c: u32) -> bool {
        let conn = self.connections[c];
        &&& self.nodes.contains_key(conn.from.0)
        &&& self.nodes.contains_key(conn.to.0)
        &&& self.nodes[conn.from.0].connections.contains(ConnectionKey(c))
        &&& self.nodes[conn.to.0].connections.contains(ConnectionKey(c))
    }

    /// The map is well formed: keys were handed out in order from 1, every
    /// connection joins two nodes that list it, and every connection a node
    /// lists exists and ends at that node.
    pub open spec fn wf(self) -> bool {
        &&& 1 <= self.next_node
        &&& forall|k: u32| #[trigger] self.nodes.contains_key(k) ==> 1 <= k < self.next_node
        &&& forall|c: u32| #[trigger] self.connections.contains_key(c) ==> c < self.next_connection
        &&& forall|c: u32| #[trigger] self.connections.contains_key(c) ==> self.linked(c)
        &&& forall|k: u32, i: int|
            #![trigger self.nodes[k].connections[i]]
            self.nodes.contains_key(k) && 0 <= i < self.nodes[k].connections.len() ==> self.touches(
                k,
                self.nodes[k].connections[i],
            )
    }

    /// `post` is `self` with a node added under the next node key, at
    /// `position`, holding `thought`, touching no connection and standing
    /// still.
    pub open spec fn node_added(self, post: AppView, key: NodeKey, position: Vec2, thought: Thought) -> bool {
        &&& key.0 == self.next_node
        &&& post.next_node == self.next_node + 1
        &&& post.nodes == self.nodes.insert(key.0, post.nodes[key.0])
        &&& post.nodes[key.0].connections == Seq::<ConnectionKey>::empty()
        &&& post.nodes[key.0].thought == thought
        &&& post.nodes[key.0].position == position
        &&& post.nodes[key.0].velocity == zero_vector()
        &&& post == AppView { nodes: post.nodes, next_node: post.next_node, ..self }
    }

    /// `post` is `self` with a connection from `from` to `to` added under the
    /// next connection key, and that key listed by `from`, then by `to`.
    pub open spec fn connection_added(self, post: AppView, from: NodeKey, to: NodeKey) -> bool {
        let ck = ConnectionKey(self.next_connection);
        &&& post.next_connection == self.next_connection + 1
        &&& post.connections == self.connections.insert(
            self.next_connection,
            Connection { from, to },
        )
        &&& post.nodes.dom() == self.nodes.dom()
        &&& forall|k: u32|
            #[trigger] self.nodes.contains_key(k) ==> {
                &&& same_but_connections(post.nodes[k], self.nodes[k])
                &&& post.nodes[k].connections == self.nodes[k].connections + (if k == from.0 {
                    seq![ck]
                } else {
                    Seq::empty()
                }) + (if k == to.0 {
                    seq![ck]
                } else {
                    Seq::empty()
                })
            }
        &&& post == AppView {
            nodes: post.nodes,
            connections: post.connections,
            next_connection: post.next_connection,
            ..self
        }
    }

    /// `post` is `self` without the connection under `key`, and no node
    /// lists `key` any more.
    pub open spec fn connection_removed(self, post: AppView, key: ConnectionKey) -> bool {
        &&& post.connections == self.connections.remove(key.0)
        &&& post.nodes.dom() == self.nodes.dom()
        &&& forall|k: u32|
            #[trigger] self.nodes.contains_key(k) ==> {
                &&& same_but_connections(post.nodes[k], self.nodes[k])
                &&& post.nodes[k].connections == self.nodes[k].connections.filter(other_than(key))
            }
        &&& post == AppView { nodes: post.nodes, connections: post.connections, ..self }
    }

    /// `post` is `self` without the node under `key` and without every
    /// connection that it listed.
    pub open spec fn node_removed(self, post: AppView, key: NodeKey) -> bool {
        let gone = self.nodes[key.0].connections;
        &&& post.nodes.dom() == self.nodes.dom().remove(key.0)
        &&& post.connections == self.connections.remove_keys(
            Set::new(|c: u32| gone.contains(ConnectionKey(c))),
        )
        &&& forall|k: u32|
            #[trigger] post.nodes.contains_key(k) ==> {
                &&& same_but_connections(post.nodes[k], self.nodes[k])
                &&& post.nodes[k].connections == self.nodes[k].connections.filter(not_in(gone))
            }
        &&& post == AppView { nodes: post.nodes, connections: post.connections, ..self }
    }
}

/// The views of the nodes of a map of nodes.
pub open spec fn node_views(m: Map<u32, Node>) -> Map<u32, NodeView> {
    m.map_values(|n: Node| n@)
}

proof fn lemma_node_views_insert(m: Map<u32, Node>, k: u32, n: Node)
    ensures
        node_views(m.insert(k, n)) == node_views(m).insert(k, n@),
{
    assert(node_views(m.insert(k, n)) =~= node_views(m).insert(k, n@));
}

proof fn lemma_node_views_remove(m: Map<u32, Node>, k: u32)
    ensures
        node_views(m.remove(k)) == node_views(m).remove(k),
{
    assert(node_views(m.remove(k)) =~= node_views(m).remove(k));
}

/// The thought map: the nodes and connections on it, the inbox, the
/// thoughts being written, and what the pointer is doing.
pub struct App {
    nodes: HashMap<u32, Node>,
    new_node_key: NodeKey,
    connections: HashMap<u32, Connection>,
    new_connection_key: ConnectionKey,
    actions: Actions,
    selected: Option<NodeKey>,
    inbox: Vec<Thought>,
    new_thoughts: Vec<Thought>,
    mode: Mode,
}

impl View for App {
    type V = AppView;

    closed spec fn view(&self) -> AppView {
        AppView {
            nodes: node_views(self.nodes@),
            next_node: self.new_node_key.0,
            connections: self.connections@,
            next_connection: self.new_connection_key.0,
            actions: self.actions,
            selected: self.selected,
            inbox: self.inbox@,
            new_thoughts: self.new_thoughts@,
            mode: self.mode,
        }
    }
}

impl Default for App {
    /// An empty map in normal mode, with an empty inbox, nothing selected or
    /// dragged, and keys to be handed out from 1.
    fn default() -> (r: Self)
        ensures
            r@.wf(),
            r@.nodes == Map::<u32, NodeView>::empty(),
            r@.connections == Map::<u32, Connection>::empty(),
            r@.next_node == 1,
            r@.next_connection == 1,
            r@.actions.start_drag is None,
            r@.actions.thought_drag is None,
            r@.selected is None,
            r@.inbox == Seq::<Thought>::empty(),
            r@.new_thoughts == Seq::<Thought>::empty(),
            r@.mode is Normal,
    {
        let r = Self {
            nodes: HashMap::new(),
            new_node_key: NodeKey(1),
            connections: HashMap::new(),
            new_connection_key: ConnectionKey(1),
            actions: Actions::default(),
            selected: None,
            inbox: Vec::new(),
            new_thoughts: Vec::new(),
            mode: Mode::Normal,
        };
        assert(r@.nodes =~= Map::<u32, NodeView>::empty());
        r
    }
}

impl App {
    /// The node under `key`, if there is one.
    pub fn get_node(&self, key: &NodeKey) -> (r: Option<&Node>)
        ensures
            match r {
                Some(n) => self@.nodes.contains_key(key.0) && n@ == self@.nodes[key.0],
                None => !self@.nodes.contains_key(key.0),
            },
    {
        self.nodes.get(&key.0)
    }

    /// Places a node that holds `thought` at `position` under a new key, and
    /// returns the key.
    pub fn create_node(&mut self, position: Vec2, thought: Thought) -> (key: NodeKey)
        requires
            old(self)@.wf(),
            old(self)@.next_node < u32::MAX,
        ensures
            final(self)@.wf(),
            old(self)@.node_added(final(self)@, key, position, thought),
            !old(self)@.nodes.contains_key(key.0),
            final(self)@.nodes[key.0].velocity == zero_vector(),
    {
        let key = self.new_node_key;
        let node = Node::new(position, thought);
        self.nodes.insert(key.0, node);
        self.new_node_key = NodeKey(key.0 + 1);
        proof {
            lemma_node_views_insert(old(self).nodes@, key.0, node);
            let pre = old(self)@;
            let post = self@;
            assert(post.nodes =~= pre.nodes.insert(key.0, post.nodes[key.0]));
            assert(!pre.nodes.contains_key(key.0));
            assert forall|k: u32| #[trigger] post.nodes.contains_key(k) implies 1 <= k < post.next_node by {
                if k != key.0 {
                    assert(pre.nodes.contains_key(k));
                }
            }
            assert forall|c: u32| #[trigger] post.connections.contains_key(c) implies post.linked(c) by {
                assert(pre.linked(c));
                let conn = pre.connections[c];
                assert(pre.nodes.contains_key(conn.from.0));
                assert(pre.nodes.contains_key(conn.to.0));
                assert(post.nodes[conn.from.0] == pre.nodes[conn.from.0]);
                assert(post.nodes[conn.to.0] == pre.nodes[conn.to.0]);
            }
            assert forall|k: u32, i: int|
                post.nodes.contains_key(k) && 0 <= i < post.nodes[k].connections.len() implies post.touches(
                k,
                #[trigger] post.nodes[k].connections[i],
            ) by {
                if k != key.0 {
                    assert(post.nodes[k] == pre.nodes[k]);
                }
            }
        }
        key
    }

    /// Joins `from` and `to` with a connection under a new key, which both
    /// nodes then list (`from` first, then `to`).
    pub fn create_connection(&mut self, from: &NodeKey, to: &NodeKey)
        requires
            old(self)@.wf(),
            old(self)@.nodes.contains_key(from.0),
            old(self)@.nodes.contains_key(to.0),
            old(self)@.next_connection < u32::MAX,
        ensures
            final(self)@.wf(),
            old(self)@.connection_added(final(self)@, *from, *to),
    {
        let ghost pre = self@;
        let ck = self.new_connection_key;
        self.connections.insert(ck.0, Connection { from: *from, to: *to });
        let ghost m0 = self.nodes@;
        let mut a = self.nodes.remove(&from.0).unwrap();
        a.connections.push(ck);
        self.nodes.insert(from.0, a);
        proof {
            lemma_node_views_insert(m0.remove(from.0), from.0, a);
            lemma_node_views_remove(m0, from.0);
        }
        let ghost m1 = self.nodes@;
        let mut b = self.nodes.remove(&to.0).unwrap();
        b.connections.push(ck);
        self.nodes.insert(to.0, b);
        proof {
            lemma_node_views_insert(m1.remove(to.0), to.0, b);
            lemma_node_views_remove(m1, to.0);
        }
        self.new_connection_key = ConnectionKey(ck.0 + 1);
        proof {
            let post = self@;
            assert(post.nodes.dom() =~= pre.nodes.dom());
            assert forall|k: u32| #[trigger] pre.nodes.contains_key(k) implies {
                &&& same_but_connections(post.nodes[k], pre.nodes[k])
                &&& post.nodes[k].connections == pre.nodes[k].connections + (if k == from.0 {
                    seq![ck]
                } else {
                    Seq::empty()
                }) + (if k == to.0 {
                    seq![ck]
                } else {
                    Seq::empty()
                })
            } by {
                let s = pre.nodes[k].connections;
                if k == from.0 && k == to.0 {
                    assert(post.nodes[k].connections =~= s + seq![ck] + seq![ck]);
                } else if k == from.0 {
                    assert(post.nodes[k].connections =~= s + seq![ck] + Seq::empty());
                } else if k == to.0 {
                    assert(post.nodes[k].connections =~= s + Seq::empty() + seq![ck]);
                } else {
                    assert(post.nodes[k].connections =~= s + Seq::empty() + Seq::empty());
                }
            }
            assert(pre.connection_added(post, *from, *to));
            self.lemma_connection_added_wf(pre, *from, *to);
        }
    }

    proof fn lemma_connection_added_wf(&self, pre: AppView, from: NodeKey, to: NodeKey)
        requires
            pre.wf(),
            pre.nodes.contains_key(from.0),
            pre.nodes.contains_key(to.0),
            pre.connection_added(self@, from, to),
        ensures
            self@.wf(),
    {
        let post = self@;
        let ck = ConnectionKey(pre.next_connection);
        assert(!pre.connections.contains_key(ck.0));
        assert forall|k: u32, i: int|
            #![trigger pre.nodes[k].connections[i]]
            pre.nodes.contains_key(k) && 0 <= i < pre.nodes[k].connections.len() implies post.nodes[k].connections[i]
            == pre.nodes[k].connections[i] by {
            assert(pre.nodes.contains_key(k));
        }
        assert forall|c: u32| #[trigger] post.connections.contains_key(c) implies post.linked(c) by {
            let conn = post.connections[c];
            if c == ck.0 {
                assert(pre.nodes.contains_key(conn.from.0));
                assert(pre.nodes.contains_key(conn.to.0));
                let sf = post.nodes[from.0].connections;
                let st = post.nodes[to.0].connections;
                if from == to {
                    assert(sf[sf.len() - 1] == ck);
                } else {
                    assert(sf[sf.len() - 1] == ck);
                    assert(st[st.len() - 1] == ck);
                }
            } else {
                assert(pre.linked(c));
                let f = conn.from.0;
                let t = conn.to.0;
                assert(pre.nodes.contains_key(f));
                assert(pre.nodes.contains_key(t));
                let i = choose|i: int|
                    0 <= i < pre.nodes[f].connections.len() && pre.nodes[f].connections[i]
                        == ConnectionKey(c);
                assert(post.nodes[f].connections[i] == ConnectionKey(c));
                let j = choose|j: int|
                    0 <= j < pre.nodes[t].connections.len() && pre.nodes[t].connections[j]
                        == ConnectionKey(c);
                assert(post.nodes[t].connections[j] == ConnectionKey(c));
            }
        }
        assert forall|k: u32, i: int|
            post.nodes.contains_key(k) && 0 <= i < post.nodes[k].connections.len() implies post.touches(
            k,
            #[trigger] post.nodes[k].connections[i],
        ) by {
            assert(pre.nodes.contains_key(k));
            let s = pre.nodes[k].connections;
            if i < s.len() {
                assert(pre.touches(k, s[i]));
                assert(s[i] != ck);
            } else {
                assert(post.nodes[k].connections[i] == ck);
            }
        }
        assert forall|k: u32| #[trigger] post.nodes.contains_key(k) implies 1 <= k < post.next_node by {
            assert(pre.nodes.contains_key(k));
        }
        assert forall|c: u32| #[trigger] post.connections.contains_key(c) implies c < post.next_connection by {
            if c != ck.0 {
                assert(pre.connections.contains_key(c));
            }
        }
    }

    /// Removes the connection under `key`, and `key` from the list of every
    /// node.
    pub fn remove_connection(&mut self, key: &ConnectionKey)
        requires
            old(self)@.wf(),
        ensures
            final(self)@.wf(),
            old(self)@.connection_removed(final(self)@, *key),
    {
        let ghost pre = self@;
        self.connections.remove(&key.0);
        let keys = keys_of(&self.nodes);
        let mut i: usize = 0;
        while i < keys.len()
            invariant
                0 <= i <= keys@.len(),
                keys@.to_set() == pre.nodes.dom(),
                keys@.no_duplicates(),
                self@.connections == pre.connections.remove(key.0),
                self@.nodes.dom() == pre.nodes.dom(),
                forall|k: u32| #[trigger] pre.nodes.contains_key(k) ==> {
                    &&& same_but_connections(self@.nodes[k], pre.nodes[k])
                    &&& self@.nodes[k].connections == if keys@.take(i as int).contains(k) {
                        pre.nodes[k].connections.filter(other_than(*key))
                    } else {
                        pre.nodes[k].connections
                    }
                },
                self@ == (AppView { nodes: self@.nodes, connections: self@.connections, ..pre }),
            decreases keys@.len() - i,
        {
            let k = keys[i];
            let ghost m0 = self.nodes@;
            proof {
                assert(keys@.to_set().contains(k));
            }
            let mut n = self.nodes.remove(&k).unwrap();
            n.connections = without_connection(&n.connections, *key);
            self.nodes.insert(k, n);
            proof {
                lemma_node_views_insert(m0.remove(k), k, n);
                lemma_node_views_remove(m0, k);
                assert(self@.nodes.dom() =~= pre.nodes.dom());
                assert forall|j: u32| #[trigger] pre.nodes.contains_key(j) implies {
                    &&& same_but_connections(self@.nodes[j], pre.nodes[j])
                    &&& self@.nodes[j].connections == if keys@.take(i + 1).contains(j) {
                        pre.nodes[j].connections.filter(other_than(*key))
                    } else {
                        pre.nodes[j].connections
                    }
                } by {
                    assert(keys@.take(i + 1) =~= keys@.take(i as int).push(k));
                    if j == k {
                        assert(keys@.take(i + 1)[i as int] == k);
                        if keys@.take(i as int).contains(k) {
                            let t = choose|t: int| 0 <= t < i && #[trigger] keys@.take(i as int)[t] == k;
                            assert(keys@[t] == keys@[i as int]);
                        }
                    } else {
                        if keys@.take(i + 1).contains(j) {
                            let t = choose|t: int| 0 <= t < i + 1 && #[trigger] keys@.take(i + 1)[t] == j;
                            assert(keys@.take(i as int)[t] == j);
                        }
                    }
                }
            }
            i = i + 1;
        }
        proof {
            let post = self@;
            assert(keys@.take(keys@.len() as int) =~= keys@);
            assert forall|k: u32| #[trigger] pre.nodes.contains_key(k) implies keys@.contains(k) by {
                assert(keys@.to_set().contains(k));
            }
            assert(pre.connection_removed(post, *key));
            lemma_connection_removed_wf(pre, post, *key);
        }
    }
}

impl App {
    /// Removes every connection that the node under `key` lists, then the
    /// node itself.
    pub fn remove_node(&mut self, key: NodeKey)
        requires
            old(self)@.wf(),
            old(self)@.nodes.contains_key(key.0),
        ensures
            final(self)@.wf(),
            old(self)@.node_removed(final(self)@, key),
    {
        let ghost pre = self@;
        let gone = self.nodes.get(&key.0).unwrap().connections.clone();
        assert(gone@ =~= pre.nodes[key.0].connections);
        assert forall|k: u32| #[trigger] pre.nodes.contains_key(k) implies pre.nodes[k].connections.filter(
            not_in(gone@.take(0)),
        ) == pre.nodes[k].connections by {
            lemma_filter_all(pre.nodes[k].connections, not_in(gone@.take(0)));
        }
        assert(pre.connections.remove_keys(
            Set::new(|c: u32| gone@.take(0).contains(ConnectionKey(c))),
        ) =~= pre.connections);
        let mut i: usize = 0;
        while i < gone.len()
            invariant
                0 <= i <= gone@.len(),
                pre.nodes.contains_key(key.0),
                gone@ == pre.nodes[key.0].connections,
                pre.wf(),
                self@.wf(),
                self@.nodes.dom() == pre.nodes.dom(),
                self@.connections == pre.connections.remove_keys(
                    Set::new(|c: u32| gone@.take(i as int).contains(ConnectionKey(c))),
                ),
                forall|k: u32| #[trigger] pre.nodes.contains_key(k) ==> {
                    &&& same_but_connections(self@.nodes[k], pre.nodes[k])
                    &&& self@.nodes[k].connections == pre.nodes[k].connections.filter(
                        not_in(gone@.take(i as int)),
                    )
                },
                self@ == (AppView { nodes: self@.nodes, connections: self@.connections, ..pre }),
            decreases gone@.len() - i,
        {
            let ghost mid = self@;
            let ck = gone[i];
            self.remove_connection(&ck);
            proof {
                let post = self@;
                let before = gone@.take(i as int);
                let after = gone@.take(i + 1);
                assert(after =~= before.push(ck));
                assert forall|x: ConnectionKey| #[trigger] not_in(after)(x) == (not_in(before)(x)
                    && other_than(ck)(x)) by {
                    if before.contains(x) {
                        let t = choose|t: int| 0 <= t < before.len() && before[t] == x;
                        assert(after[t] == x);
                    }
                    if x == ck {
                        assert(after[i as int] == x);
                    }
                    if after.contains(x) {
                        let t = choose|t: int| 0 <= t < after.len() && after[t] == x;
                        if t < i {
                            assert(before[t] == x);
                        }
                    }
                }
                assert forall|k: u32| #[trigger] pre.nodes.contains_key(k) implies {
                    &&& same_but_connections(post.nodes[k], pre.nodes[k])
                    &&& post.nodes[k].connections == pre.nodes[k].connections.filter(not_in(after))
                } by {
                    lemma_filter_twice(
                        pre.nodes[k].connections,
                        not_in(before),
                        other_than(ck),
                        not_in(after),
                    );
                }
                assert forall|c: u32| #![auto] after.contains(ConnectionKey(c)) == (before.contains(
                    ConnectionKey(c),
                ) || c == ck.0) by {
                    assert(not_in(after)(ConnectionKey(c)) == (not_in(before)(ConnectionKey(c))
                        && other_than(ck)(ConnectionKey(c))));
                }
                assert(post.connections =~= pre.connections.remove_keys(
                    Set::new(|c: u32| after.contains(ConnectionKey(c))),
                ));
            }
            i = i + 1;
        }
        let ghost mid = self@;
        let ghost m0 = self.nodes@;
        self.nodes.remove(&key.0);
        proof {
            lemma_node_views_remove(m0, key.0);
            assert(gone@.take(gone@.len() as int) =~= gone@);
            let post = self@;
            assert(post.nodes.dom() =~= pre.nodes.dom().remove(key.0));
            assert(post.connections =~= mid.connections);
            // No connection left touches the removed node.
            assert forall|c: u32| #[trigger] mid.connections.contains_key(c) implies mid.connections[c].from
                != key && mid.connections[c].to != key by {
                assert(pre.connections.contains_key(c));
                assert(!gone@.contains(ConnectionKey(c)));
                assert(pre.linked(c));
            }
            assert forall|c: u32| #[trigger] post.connections.contains_key(c) implies post.linked(c) by {
                assert(mid.linked(c));
            }
            assert forall|k: u32, j: int|
                post.nodes.contains_key(k) && 0 <= j < post.nodes[k].connections.len() implies post.touches(
                k,
                #[trigger] post.nodes[k].connections[j],
            ) by {
                assert(mid.nodes.contains_key(k));
                assert(mid.touches(k, mid.nodes[k].connections[j]));
            }
            assert forall|k: u32| #[trigger] post.nodes.contains_key(k) implies 1 <= k < post.next_node by {
                assert(mid.nodes.contains_key(k));
            }
            assert forall|c: u32| #[trigger] post.connections.contains_key(c) implies c < post.next_connection by {
                assert(mid.connections.contains_key(c));
            }
            assert(pre.node_removed(post, key));
        }
    }
}

/// What moves one node in one step of the layout.
pub struct NodeForces {
    pub key: NodeKey,
    /// The node at the far end of each connection that the node lists, in
    /// the order of the list; each pulls the node toward it.
    pub pulled_by: Vec<NodeKey>,
    /// Every other node, each once; each pushes the node away when near.
    pub pushed_by: Vec<NodeKey>,
    /// Whether the node takes its step: all do but the selected one.
    pub moves: bool,
}

impl AppView {
    /// `f` tells the forces on the node under `f.key` in this state.
    pub open spec fn forces_on(self, f: NodeForces) -> bool {
        let k = f.key.0;
        let list = self.nodes[k].connections;
        &&& self.nodes.contains_key(k)
        &&& f.pulled_by@.len() == list.len()
        &&& forall|j: int|
            0 <= j < list.len() ==> #[trigger] f.pulled_by@[j] == self.connections[list[j].0].spec_other(
                f.key,
            )
        &&& forall|m: NodeKey| #[trigger]
            f.pushed_by@.contains(m) <==> (self.nodes.contains_key(m.0) && m != f.key)
        &&& f.pushed_by@.no_duplicates()
        &&& f.moves == (f.key != self.selected.unwrap_or(NodeKey(0)))
    }
}

impl App {
    /// For each node on the map, once each, what pulls and pushes it and
    /// whether it moves: the decisions of one step of the layout.
    pub fn node_physics(&self) -> (r: Vec<NodeForces>)
        requires
            self@.wf(),
        ensures
            forall|i: int| 0 <= i < r@.len() ==> self@.forces_on(#[trigger] r@[i]),
            forall|i: int, j: int| 0 <= i < j < r@.len() ==> r@[i].key != r@[j].key,
            forall|k: u32|
                #[trigger] self@.nodes.contains_key(k) ==> exists|i: int|
                    0 <= i < r@.len() && #[trigger] r@[i].key == NodeKey(k),
            forall|i: int, j: int|
                0 <= i < r@.len() && 0 <= j < r@[i].pulled_by@.len() ==> self@.nodes.contains_key(
                    #[trigger] r@[i].pulled_by@[j].0,
                ),
    {
        let keys = keys_of(&self.nodes);
        let ghost v = self@;
        let mut r: Vec<NodeForces> = Vec::new();
        let mut i: usize = 0;
        while i < keys.len()
            invariant
                0 <= i <= keys@.len(),
                v == self@,
                v.wf(),
                keys@.to_set() == v.nodes.dom(),
                keys@.no_duplicates(),
                r@.len() == i,
                forall|p: int| 0 <= p < i ==> #[trigger] r@[p].key == NodeKey(keys@[p]),
                forall|p: int| 0 <= p < i ==> v.forces_on(#[trigger] r@[p]),
            decreases keys@.len() - i,
        {
            let k = keys[i];
            proof {
                assert(keys@.to_set().contains(k));
            }
            let node = self.nodes.get(&k).unwrap();
            let mut pulled: Vec<NodeKey> = Vec::new();
            let mut j: usize = 0;
            while j < node.connections.len()
                invariant
                    0 <= j <= node.connections@.len(),
                    v == self@,
                    v.wf(),
                    v.nodes.contains_key(k),
                    node@ == v.nodes[k],
                    pulled@.len() == j,
                    forall|q: int|
                        0 <= q < j ==> #[trigger] pulled@[q] == v.connections[node.connections@[q].0].spec_other(
                            NodeKey(k),
                        ),
                decreases node.connections@.len() - j,
            {
                let ck = node.connections[j];
                proof {
                    assert(v.touches(k, v.nodes[k].connections[j as int]));
                }
                let conn = self.connections.get(&ck.0).unwrap();
                pulled.push(conn.other(&NodeKey(k)));
                j = j + 1;
            }
            let mut pushed: Vec<NodeKey> = Vec::new();
            let mut t: usize = 0;
            while t < keys.len()
                invariant
                    0 <= t <= keys@.len(),
                    keys@.no_duplicates(),
                    pushed@.no_duplicates(),
                    forall|p: int|
                        0 <= p < pushed@.len() ==> keys@.take(t as int).contains(#[trigger] pushed@[p].0)
                            && pushed@[p].0 != k,
                    forall|s: int|
                        0 <= s < t && keys@[s] != k ==> pushed@.contains(NodeKey(#[trigger] keys@[s])),
                decreases keys@.len() - t,
            {
                let x = keys[t];
                let ghost before = pushed@;
                proof {
                    assert(keys@.take(t + 1) =~= keys@.take(t as int).push(x));
                    if keys@.take(t as int).contains(x) {
                        let q = choose|q: int| 0 <= q < t && #[trigger] keys@.take(t as int)[q] == x;
                        assert(keys@[q] == keys@[t as int]);
                    }
                    assert(!keys@.take(t as int).contains(x));
                    assert forall|p: int| 0 <= p < before.len() implies before[p] != NodeKey(x) by {
                        assert(keys@.take(t as int).contains(before[p].0));
                    }
                }
                if x != k {
                    pushed.push(NodeKey(x));
                    proof {
                        let n = pushed@.len() - 1;
                        assert(pushed@[n] == NodeKey(x));
                    }
                }
                proof {
                    assert forall|p: int|
                        0 <= p < pushed@.len() implies keys@.take(t + 1).contains(
                        #[trigger] pushed@[p].0,
                    ) && pushed@[p].0 != k by {
                        if p < before.len() {
                            let w = pushed@[p].0;
                            let q = choose|q: int| 0 <= q < t && #[trigger] keys@.take(t as int)[q] == w;
                            assert(keys@.take(t + 1)[q] == w);
                        } else {
                            assert(keys@.take(t + 1)[t as int] == x);
                        }
                    }
                    assert forall|s: int| 0 <= s < t + 1 && keys@[s] != k implies pushed@.contains(
                        NodeKey(#[trigger] keys@[s]),
                    ) by {
                        if s == t {
                            assert(pushed@[pushed@.len() - 1] == NodeKey(x));
                        } else {
                            assert(before.contains(NodeKey(keys@[s])));
                            let q = choose|q: int|
                                0 <= q < before.len() && before[q] == NodeKey(keys@[s]);
                            assert(pushed@[q] == before[q]);
                        }
                    }
                }
                t = t + 1;
            }
            let moves = NodeKey(k) != self.selected.unwrap_or(NodeKey(0));
            let f = NodeForces { key: NodeKey(k), pulled_by: pulled, pushed_by: pushed, moves };
            proof {
                assert(keys@.take(keys@.len() as int) =~= keys@);
                assert forall|m: NodeKey| #[trigger]
                    f.pushed_by@.contains(m) <==> (v.nodes.contains_key(m.0) && m != f.key) by {
                    if f.pushed_by@.contains(m) {
                        let p = choose|p: int| 0 <= p < f.pushed_by@.len() && f.pushed_by@[p] == m;
                        assert(keys@.contains(f.pushed_by@[p].0));
                        assert(keys@.to_set().contains(m.0));
                    }
                    if v.nodes.contains_key(m.0) && m != f.key {
                        assert(keys@.to_set().contains(m.0));
                        let s = choose|s: int| 0 <= s < keys@.len() && keys@[s] == m.0;
                        assert(keys@[s] != k);
                    }
                }
            }
            r.push(f);
            proof {
                assert(r@[i as int].key == NodeKey(keys@[i as int]));
            }
            i = i + 1;
        }
        proof {
            assert forall|a: int, b: int| 0 <= a < b < r@.len() implies r@[a].key != r@[b].key by {
                assert(r@[a].key == NodeKey(keys@[a]));
                assert(r@[b].key == NodeKey(keys@[b]));
            }
            assert forall|k: u32| #[trigger] v.nodes.contains_key(k) implies exists|p: int|
                0 <= p < r@.len() && #[trigger] r@[p].key == NodeKey(k) by {
                assert(keys@.to_set().contains(k));
                let s = choose|s: int| 0 <= s < keys@.len() && keys@[s] == k;
                assert(r@[s].key == NodeKey(k));
            }
            assert forall|a: int, b: int|
                0 <= a < r@.len() && 0 <= b < r@[a].pulled_by@.len() implies v.nodes.contains_key(
                #[trigger] r@[a].pulled_by@[b].0,
            ) by {
                let f = r@[a];
                let kk = f.key.0;
                assert(v.forces_on(f));
                let ck = v.nodes[kk].connections[b];
                assert(v.touches(kk, ck));
                assert(v.linked(ck.0));
            }
        }
        r
    }
}

/// How a node or a connection is drawn.
pub enum Highlight {
    /// The selected node.
    Selected,
    /// Under the pointer, or touching the node under it.
    Hovered,
    Plain,
}

/// What the map panel reads of the pointer in one frame.
pub struct PointerInput {
    /// The pointer has a position over the window.
    pub hover: bool,
    /// The primary button is held down.
    pub primary_down: bool,
    /// A button was clicked.
    pub any_click: bool,
    /// A button was pressed.
    pub any_pressed: bool,
    /// The pointer is inside the map panel.
    pub in_map: bool,
}

/// The selection after a click on node `h`: a click on the selected node
/// clears the selection, a click on any other node selects it.
pub open spec fn toggled(selected: Option<NodeKey>, h: NodeKey) -> Option<NodeKey> {
    match selected {
        Some(s) => if s == h {
            None
        } else {
            Some(h)
        },
        None => Some(h),
    }
}

impl AppView {
    /// The state after the pointer acts on the map panel over `hovered`.
    pub open spec fn pointer_selection(self, hovered: Option<NodeKey>, pointer: PointerInput) -> Option<NodeKey> {
        match self.mode {
            Mode::Normal => match hovered {
                Some(h) => if pointer.any_click && pointer.in_map {
                    toggled(self.selected, h)
                } else {
                    self.selected
                },
                None => self.selected,
            },
            Mode::Connect => match (self.selected, hovered) {
                (None, Some(h)) => if pointer.any_pressed && pointer.in_map {
                    Some(h)
                } else {
                    None
                },
                _ => self.selected,
            },
        }
    }

    /// The node that the pointer drags this frame, if any.
    pub open spec fn pointer_drag(self, hovered: Option<NodeKey>, pointer: PointerInput) -> Option<NodeKey> {
        match (self.mode, hovered) {
            (Mode::Normal, Some(h)) => if pointer.primary_down && pointer.in_map
                && self.nodes.contains_key(h.0) {
                Some(h)
            } else {
                None
            },
            _ => None,
        }
    }

    /// `post` follows from `self` as the drag on `thought` in the inbox goes
    /// on, `moved_far` telling whether the pointer is far from where the drag
    /// started: the first time it is, the thought is carried and the entry
    /// where the drag started leaves the inbox.
    pub open spec fn inbox_drag_moved(self, post: AppView, thought: Thought, moved_far: bool) -> bool {
        match self.actions.start_drag {
            Some((d, start, ended)) => if moved_far && !ended {
                post == (AppView {
                    actions: Actions {
                        start_drag: Some((d, start, true)),
                        thought_drag: Some(thought),
                    },
                    inbox: self.inbox.remove(d as int),
                    ..self
                })
            } else {
                post == self
            },
            None => post == self,
        }
    }

    /// `post` follows from `self` as the carried thought, if any, is let go
    /// over the inbox: it goes to the end of the inbox.
    pub open spec fn dropped_in_inbox(self, post: AppView) -> bool {
        match self.actions.thought_drag {
            Some(t) => post == (AppView {
                actions: Actions { thought_drag: None, ..self.actions },
                inbox: self.inbox.push(t),
                ..self
            }),
            None => post == self,
        }
    }

    /// The state once the dragged thought, if any, is let go over the map:
    /// nothing is dragged any more.
    pub open spec fn without_thought_drag(self) -> AppView {
        AppView { actions: Actions { thought_drag: None, ..self.actions }, ..self }
    }
}

impl App {
    /// The selected node, if any.
    pub fn selected(&self) -> (r: Option<NodeKey>)
        ensures
            r == self@.selected,
    {
        self.selected
    }

    /// The mode of the map panel.
    pub fn mode(&self) -> (r: &Mode)
        ensures
            *r == self@.mode,
    {
        &self.mode
    }

    /// The thoughts in the inbox, in order.
    pub fn inbox(&self) -> (r: &Vec<Thought>)
        ensures
            r@ == self@.inbox,
    {
        &self.inbox
    }

    /// The thoughts being written, one window each.
    pub fn new_thoughts(&self) -> (r: &Vec<Thought>)
        ensures
            r@ == self@.new_thoughts,
    {
        &self.new_thoughts
    }

    /// What the pointer is dragging.
    pub fn actions(&self) -> (r: &Actions)
        ensures
            *r == self@.actions,
    {
        &self.actions
    }

    /// The key the next node will be given.
    pub fn next_node_key(&self) -> (r: NodeKey)
        ensures
            r.0 == self@.next_node,
    {
        self.new_node_key
    }

    /// The key the next connection will be given.
    pub fn next_connection_key(&self) -> (r: ConnectionKey)
        ensures
            r.0 == self@.next_connection,
    {
        self.new_connection_key
    }

    /// The keys of all nodes, each once.
    pub fn node_keys(&self) -> (r: Vec<NodeKey>)
        ensures
            forall|i: int| 0 <= i < r@.len() ==> self@.nodes.contains_key(#[trigger] r@[i].0),
            forall|k: u32|
                #[trigger] self@.nodes.contains_key(k) ==> r@.contains(NodeKey(k)),
            r@.no_duplicates(),
    {
        let keys = keys_of(&self.nodes);
        let mut r: Vec<NodeKey> = Vec::new();
        let mut i: usize = 0;
        while i < keys.len()
            invariant
                0 <= i <= keys@.len(),
                keys@.to_set() == self@.nodes.dom(),
                keys@.no_duplicates(),
                r@.len() == i,
                forall|p: int| 0 <= p < i ==> #[trigger] r@[p] == NodeKey(keys@[p]),
            decreases keys@.len() - i,
        {
            r.push(NodeKey(keys[i]));
            i = i + 1;
        }
        proof {
            assert forall|p: int| 0 <= p < r@.len() implies self@.nodes.contains_key(
                #[trigger] r@[p].0,
            ) by {
                assert(r@[p] == NodeKey(keys@[p]));
                assert(keys@.contains(keys@[p]));
            }
            assert forall|k: u32| #[trigger] self@.nodes.contains_key(k) implies r@.contains(
                NodeKey(k),
            ) by {
                assert(keys@.to_set().contains(k));
                let p = choose|p: int| 0 <= p < keys@.len() && keys@[p] == k;
                assert(r@[p] == NodeKey(k));
            }
            assert forall|a: int, b: int| 0 <= a < r@.len() && 0 <= b < r@.len() && a != b implies r@[a]
                != r@[b] by {
                assert(r@[a] == NodeKey(keys@[a]));
                assert(r@[b] == NodeKey(keys@[b]));
            }
        }
        r
    }

    /// The ends of every connection, each connection once.
    pub fn connection_list(&self) -> (r: Vec<Connection>)
        ensures
            forall|i: int| 0 <= i < r@.len() ==> self@.connections.contains_value(#[trigger] r@[i]),
            forall|c: u32|
                #[trigger] self@.connections.contains_key(c) ==> r@.contains(self@.connections[c]),
            r@.len() == self@.connections.dom().len(),
    {
        let keys = keys_of(&self.connections);
        let mut r: Vec<Connection> = Vec::new();
        let mut i: usize = 0;
        while i < keys.len()
            invariant
                0 <= i <= keys@.len(),
                keys@.to_set() == self@.connections.dom(),
                keys@.no_duplicates(),
                r@.len() == i,
                forall|p: int| 0 <= p < i ==> #[trigger] r@[p] == self@.connections[keys@[p]],
            decreases keys@.len() - i,
        {
            proof {
                assert(keys@.to_set().contains(keys@[i as int]));
            }
            let conn = self.connections.get(&keys[i]).unwrap();
            r.push(Connection { from: conn.from, to: conn.to });
            i = i + 1;
        }
        proof {
            assert forall|p: int| 0 <= p < r@.len() implies self@.connections.contains_value(
                #[trigger] r@[p],
            ) by {
                assert(keys@.to_set().contains(keys@[p]));
                assert(self@.connections[keys@[p]] == r@[p]);
            }
            assert forall|c: u32| #[trigger] self@.connections.contains_key(c) implies r@.contains(
                self@.connections[c],
            ) by {
                assert(keys@.to_set().contains(c));
                let p = choose|p: int| 0 <= p < keys@.len() && keys@[p] == c;
                assert(r@[p] == self@.connections[c]);
            }
            keys@.unique_seq_to_set();
        }
        r
    }

    /// Sets where the node under `key` stands and how it moves; nothing
    /// happens when there is no such node.
    pub fn move_node(&mut self, key: NodeKey, position: Vec2, velocity: Vec2)
        requires
            old(self)@.wf(),
        ensures
            final(self)@.wf(),
            old(self)@.nodes.contains_key(key.0) ==> final(self)@ == (AppView {
                nodes: old(self)@.nodes.insert(
                    key.0,
                    NodeView { position, velocity, ..old(self)@.nodes[key.0] },
                ),
                ..old(self)@
            }),
            !old(self)@.nodes.contains_key(key.0) ==> final(self)@ == old(self)@,
    {
        let ghost pre = self@;
        let ghost m0 = self.nodes@;
        if let Some(mut n) = self.nodes.remove(&key.0) {
            n.position = position;
            n.velocity = velocity;
            self.nodes.insert(key.0, n);
            proof {
                lemma_node_views_insert(m0.remove(key.0), key.0, n);
                lemma_node_views_remove(m0, key.0);
                let post = self@;
                assert(post.nodes =~= pre.nodes.insert(
                    key.0,
                    NodeView { position, velocity, ..pre.nodes[key.0] },
                ));
                assert forall|c: u32| #[trigger] post.connections.contains_key(c) implies post.linked(c) by {
                    assert(pre.linked(c));
                }
                assert forall|k: u32, i: int|
                    post.nodes.contains_key(k) && 0 <= i < post.nodes[k].connections.len() implies post.touches(
                    k,
                    #[trigger] post.nodes[k].connections[i],
                ) by {
                    assert(pre.touches(k, pre.nodes[k].connections[i]));
                }
                assert forall|k: u32| #[trigger] post.nodes.contains_key(k) implies 1 <= k < post.next_node by {
                    assert(pre.nodes.contains_key(k));
                }
            }
        } else {
            proof {
                assert(self.nodes@ =~= m0);
            }
        }
    }

    /// The "New Thought" button: a click on it, or Enter while no thought is
    /// being written, opens a window for a new, empty thought.
    pub fn new_thought_requested(&mut self, button_clicked: bool, enter_pressed: bool)
        ensures
            (button_clicked || (enter_pressed && old(self)@.new_thoughts.len() == 0)) ==> {
                &&& final(self)@.new_thoughts.len() == old(self)@.new_thoughts.len() + 1
                &&& final(self)@.new_thoughts.drop_last() == old(self)@.new_thoughts
                &&& final(self)@.new_thoughts.last()@ == (ThoughtView {
                    contents: Seq::empty(),
                    title: Seq::empty(),
                })
                &&& final(self)@ == (AppView {
                    new_thoughts: final(self)@.new_thoughts,
                    ..old(self)@
                })
            },
            !(button_clicked || (enter_pressed && old(self)@.new_thoughts.len() == 0))
                ==> final(self)@ == old(self)@,
    {
        if button_clicked || (enter_pressed && self.new_thoughts.len() == 0) {
            self.new_thoughts.push(Thought::new(String::new()));
            assert(self@.new_thoughts.drop_last() =~= old(self)@.new_thoughts);
        }
    }

    /// The mode button: switches the mode and clears the selection.
    pub fn switch_mode(&mut self)
        ensures
            final(self)@ == (AppView {
                mode: old(self)@.mode.spec_next(),
                selected: None,
                ..old(self)@
            }),
    {
        self.mode = self.mode.next();
        self.selected = None;
    }

    /// The pointer over the map panel, with `hovered` the node under it: in
    /// normal mode a click selects or unselects that node, and the node that
    /// the primary button holds is returned to be dragged; in connect mode a
    /// press picks the node that a connection starts from.
    pub fn pointer_on_map(&mut self, hovered: Option<NodeKey>, pointer: PointerInput) -> (drag:
        Option<NodeKey>)
        requires
            old(self)@.mode is Connect && pointer.hover ==> match old(self)@.selected {
                Some(s) => old(self)@.nodes.contains_key(s.0),
                None => true,
            },
        ensures
            drag == old(self)@.pointer_drag(hovered, pointer),
            final(self)@ == (AppView {
                selected: old(self)@.pointer_selection(hovered, pointer),
                ..old(self)@
            }),
            old(self)@.mode is Normal && pointer.primary_down && pointer.in_map ==> match hovered {
                Some(h) => old(self)@.nodes.contains_key(h.0) ==> drag == Some(h),
                None => drag is None,
            },
            old(self)@.mode is Normal && !pointer.any_click ==> final(self)@.selected == old(self)@.selected,
    {
        if self.mode.is_normal() {
            let mut drag: Option<NodeKey> = None;
            if let Some(h) = hovered {
                if pointer.primary_down && pointer.in_map && self.nodes.contains_key(&h.0) {
                    drag = Some(h);
                }
                if pointer.any_click && pointer.in_map {
                    self.selected = match self.selected {
                        Some(s) => {
                            if s == h {
                                None
                            } else {
                                Some(h)
                            }
                        },
                        None => Some(h),
                    };
                }
            }
            drag
        } else {
            if self.selected.is_none() {
                if let Some(h) = hovered {
                    if pointer.any_pressed && pointer.in_map {
                        self.selected = Some(h);
                    }
                }
            }
            None
        }
    }

    /// How the node under `key` is drawn, with `hovered` the node under the
    /// pointer.
    pub fn node_highlight(&self, key: &NodeKey, hovered: Option<NodeKey>) -> (r: Highlight)
        ensures
            r == (if self@.selected == Some(*key) {
                Highlight::Selected
            } else if hovered == Some(*key) {
                Highlight::Hovered
            } else {
                Highlight::Plain
            }),
    {
        match self.selected {
            Some(s) => if s == *key {
                return Highlight::Selected;
            },
            None => {},
        }
        match hovered {
            Some(h) => if h == *key {
                Highlight::Hovered
            } else {
                Highlight::Plain
            },
            None => Highlight::Plain,
        }
    }

    /// Puts `contents` in the thought being written in window `index`.
    pub fn set_new_thought_contents(&mut self, index: usize, contents: String)
        requires
            index < old(self)@.new_thoughts.len(),
        ensures
            final(self)@.new_thoughts.len() == old(self)@.new_thoughts.len(),
            final(self)@.new_thoughts[index as int].contents@ == contents@,
            final(self)@.new_thoughts[index as int].title@ == old(self)@.new_thoughts[index as int].title@,
            forall|i: int|
                0 <= i < old(self)@.new_thoughts.len() && i != index ==> #[trigger] final(self)@.new_thoughts[i] == old(self)@.new_thoughts[i],
            final(self)@ == (AppView { new_thoughts: final(self)@.new_thoughts, ..old(self)@ }),
    {
        let title = self.new_thoughts[index].title.clone();
        self.new_thoughts.set(index, Thought { contents, title });
    }

    /// Closes the window of thought `index`: submitted with something written
    /// in it, the thought goes to the end of the inbox; else it is dropped.
    pub fn close_new_thought(&mut self, index: usize, submitted: bool)
        requires
            index < old(self)@.new_thoughts.len(),
        ensures
            final(self)@.new_thoughts == old(self)@.new_thoughts.remove(index as int),
            final(self)@.inbox == if submitted && old(self)@.new_thoughts[index as int].contents@.len()
                > 0 {
                old(self)@.inbox.push(old(self)@.new_thoughts[index as int])
            } else {
                old(self)@.inbox
            },
            final(self)@ == (AppView {
                new_thoughts: final(self)@.new_thoughts,
                inbox: final(self)@.inbox,
                ..old(self)@
            }),
    {
        if submitted && !self.new_thoughts[index].contents.as_str().is_empty() {
            let t = self.new_thoughts[index].clone();
            self.inbox.push(t);
        }
        self.new_thoughts.remove(index);
    }

    /// The thought being dragged, if any, let go over the map: it becomes a
    /// node at `position`, whose key is returned.
    pub fn drop_thought_on_map(&mut self, position: Vec2) -> (r: Option<NodeKey>)
        requires
            old(self)@.wf(),
            old(self)@.actions.thought_drag is Some ==> old(self)@.next_node < u32::MAX,
        ensures
            final(self)@.wf(),
            match old(self)@.actions.thought_drag {
                Some(t) => {
                    &&& r == Some(NodeKey(old(self)@.next_node))
                    &&& old(self)@.without_thought_drag().node_added(
                        final(self)@,
                        NodeKey(old(self)@.next_node),
                        position,
                        t,
                    )
                },
                None => r is None && final(self)@ == old(self)@,
            },
            final(self)@.inbox == old(self)@.inbox,
            final(self)@.actions.thought_drag is None,
            old(self)@.actions.thought_drag matches Some(t) ==> {
                &&& final(self)@.nodes.contains_key(old(self)@.next_node)
                &&& final(self)@.nodes[old(self)@.next_node as u32].thought == t
                &&& final(self)@.nodes[old(self)@.next_node as u32].position == position
                &&& final(self)@.nodes[old(self)@.next_node as u32].velocity == zero_vector()
            },
    {
        let dragged = self.actions.thought_drag.take();
        match dragged {
            Some(t) => {
                assert(self@ == old(self)@.without_thought_drag());
                Some(self.create_node(position, t))
            },
            None => None,
        }
    }

    /// A double click on thought `index` of the inbox removes it.
    pub fn remove_from_inbox(&mut self, index: usize)
        requires
            index < old(self)@.inbox.len(),
        ensures
            final(self)@ == (AppView { inbox: old(self)@.inbox.remove(index as int), ..old(self)@ }),
    {
        self.inbox.remove(index);
    }

    /// A drag starts on thought `index` of the inbox, at `pos`.
    pub fn inbox_drag_started(&mut self, index: usize, pos: Pos2)
        ensures
            final(self)@ == (AppView {
                actions: Actions { start_drag: Some((index, pos, false)), ..old(self)@.actions },
                ..old(self)@
            }),
    {
        self.actions.start_drag = Some((index, pos, false));
    }

    /// The drag on `thought` in the inbox goes on; `moved_far` tells whether
    /// the pointer is now far from where the drag started. The first time it
    /// is, the thought is picked up: the drag is marked as having left, the
    /// thought is carried, and the entry where the drag started leaves the
    /// inbox.
    pub fn inbox_drag_moved(&mut self, thought: &Thought, moved_far: bool)
        requires
            match old(self)@.actions.start_drag {
                Some((d, _, ended)) => moved_far && !ended ==> d < old(self)@.inbox.len(),
                None => true,
            },
        ensures
            old(self)@.inbox_drag_moved(final(self)@, *thought, moved_far),
            !moved_far ==> final(self)@ == old(self)@,
            final(self)@.actions.thought_drag != old(self)@.actions.thought_drag ==> {
                &&& final(self)@.actions.thought_drag == Some(*thought)
                &&& final(self)@.inbox.len() + 1 == old(self)@.inbox.len()
            },
    {
        if let Some((drag_index, start, ended)) = self.actions.start_drag {
            if moved_far && !ended {
                self.actions.start_drag = Some((drag_index, start, true));
                self.actions.thought_drag = Some(thought.clone());
                self.inbox.remove(drag_index);
            }
        }
    }

    /// The drag in the inbox ends.
    pub fn inbox_drag_released(&mut self)
        ensures
            final(self)@ == (AppView {
                actions: Actions { start_drag: None, ..old(self)@.actions },
                ..old(self)@
            }),
    {
        self.actions.start_drag = None;
    }

    /// The thought being dragged, if any, let go over the inbox: it goes back
    /// to the end of the inbox.
    pub fn drop_thought_in_inbox(&mut self)
        ensures
            old(self)@.dropped_in_inbox(final(self)@),
    {
        if let Some(t) = self.actions.thought_drag.take() {
            self.inbox.push(t);
        }
    }
}

/// The numbers of the keys of a map, each once.
fn keys_of<V>(m: &HashMap<u32, V>) -> (r: Vec<u32>)
    ensures
        r@.to_set() == m@.dom(),
        r@.no_duplicates(),
{
    let mut r: Vec<u32> = Vec::new();
    for k in it: m.keys()
        invariant
            r@.len() == it.index(),
            forall|i: int| 0 <= i < it.index() ==> r@[i] == *it.seq()[i],
            it.seq().unref().to_set() == m@.dom(),
            it.seq().no_duplicates(),
            it.index() == it.seq().len() ==> r@ =~= it.seq().unref(),
    {
        r.push(*k);
    }
    r
}

/// `list` without `key`, the rest in the same order.
fn without_connection(list: &Vec<ConnectionKey>, key: ConnectionKey) -> (r: Vec<ConnectionKey>)
    ensures
        r@ == list@.filter(other_than(key)),
{
    let mut r: Vec<ConnectionKey> = Vec::new();
    let mut i: usize = 0;
    while i < list.len()
        invariant
            0 <= i <= list@.len(),
            r@ == list@.take(i as int).filter(other_than(key)),
        decreases list@.len() - i,
    {
        proof {
            assert(list@.take(i + 1) =~= list@.take(i as int).push(list@[i as int]));
            lemma_filter_push(list@.take(i as int), list@[i as int], other_than(key));
        }
        if list[i] != key {
            r.push(list[i]);
        }
        i = i + 1;
    }
    assert(list@.take(list@.len() as int) =~= list@);
    r
}

/// Removing a connection keeps the map well formed.
proof fn lemma_connection_removed_wf(pre: AppView, post: AppView, key: ConnectionKey)
    requires
        pre.wf(),
        pre.connection_removed(post, key),
    ensures
        post.wf(),
{
    assert forall|c: u32| #[trigger] post.connections.contains_key(c) implies post.linked(c) by {
        assert(pre.linked(c));
        let conn = pre.connections[c];
        lemma_filter_contains(pre.nodes[conn.from.0].connections, other_than(key), ConnectionKey(c));
        lemma_filter_contains(pre.nodes[conn.to.0].connections, other_than(key), ConnectionKey(c));
    }
    assert forall|k: u32, i: int|
        post.nodes.contains_key(k) && 0 <= i < post.nodes[k].connections.len() implies post.touches(
        k,
        #[trigger] post.nodes[k].connections[i],
    ) by {
        let e = post.nodes[k].connections[i];
        let s = pre.nodes[k].connections;
        assert(post.nodes[k].connections.contains(e));
        lemma_filter_contains(s, other_than(key), e);
        let j = choose|j: int| 0 <= j < s.len() && s[j] == e;
        assert(pre.touches(k, s[j]));
    }
    assert forall|k: u32| #[trigger] post.nodes.contains_key(k) implies 1 <= k < post.next_node by {
        assert(pre.nodes.contains_key(k));
    }
    assert forall|c: u32| #[trigger] post.connections.contains_key(c) implies c < post.next_connection by {
        assert(pre.connections.contains_key(c));
    }
}

} // verus!
