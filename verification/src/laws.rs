use vstd::prelude::*;

use egui::Vec2;

use crate::app::{other_than, not_in, toggled, AppView, PointerInput};
use crate::space::zero_vector;
use crate::connection::ConnectionKey;
use crate::node::NodeKey;
use crate::seqs::{lemma_filter_all, lemma_filter_push};
use crate::thought::Thought;

verus! {

/// Removing the connection that was just created gives back the map as it
/// was: the same nodes, each listing the same connections, and the same
/// connections; only the next connection key has moved on.
pub proof fn law_remove_undoes_create_connection(
    pre: AppView,
    mid: AppView,
    post: AppView,
    from: NodeKey,
    to: NodeKey,
)
    requires
        pre.wf(),
        pre.connection_added(mid, from, to),
        mid.connection_removed(post, ConnectionKey(pre.next_connection)),
    ensures
        post.nodes == pre.nodes,
        post.connections == pre.connections,
        post == (AppView { next_connection: (pre.next_connection + 1) as u32, ..pre }),
{
    let ck = ConnectionKey(pre.next_connection);
    assert forall|k: u32| #[trigger] pre.nodes.contains_key(k) implies post.nodes[k] == pre.nodes[k] by {
        let s = pre.nodes[k].connections;
        assert forall|i: int| 0 <= i < s.len() implies other_than(ck)(#[trigger] s[i]) by {
            assert(pre.touches(k, s[i]));
        }
        lemma_filter_all(s, other_than(ck));
        lemma_filter_push(Seq::<ConnectionKey>::empty(), ck, other_than(ck));
        reveal(Seq::filter);
        assert(Seq::<ConnectionKey>::empty().filter(other_than(ck)) =~= Seq::<ConnectionKey>::empty());
        assert(Seq::<ConnectionKey>::empty().push(ck) =~= seq![ck]);
        let a = if k == from.0 { seq![ck] } else { Seq::<ConnectionKey>::empty() };
        let b = if k == to.0 { seq![ck] } else { Seq::<ConnectionKey>::empty() };
        assert(a.filter(other_than(ck)) =~= Seq::<ConnectionKey>::empty());
        assert(b.filter(other_than(ck)) =~= Seq::<ConnectionKey>::empty());
        Seq::<ConnectionKey>::filter_distributes_over_add(s, a, other_than(ck));
        Seq::<ConnectionKey>::filter_distributes_over_add(s + a, b, other_than(ck));
        assert(post.nodes[k].connections =~= s);
    }
    assert(post.nodes =~= pre.nodes);
    assert(post.connections =~= pre.connections);
}

/// Removing the node that was just created gives back the map as it was:
/// the same nodes and the same connections; only the next node key has
/// moved on.
pub proof fn law_remove_undoes_create_node(
    pre: AppView,
    mid: AppView,
    post: AppView,
    key: NodeKey,
    position: Vec2,
    thought: Thought,
)
    requires
        pre.wf(),
        pre.node_added(mid, key, position, thought),
        mid.node_removed(post, key),
    ensures
        post.nodes == pre.nodes,
        post.connections == pre.connections,
        post == (AppView { next_node: (pre.next_node + 1) as u32, ..pre }),
{
    let gone = mid.nodes[key.0].connections;
    assert(!pre.nodes.contains_key(key.0));
    assert forall|k: u32| #[trigger] pre.nodes.contains_key(k) implies post.nodes[k] == pre.nodes[k] by {
        assert(mid.nodes[k] == pre.nodes[k]);
        assert(post.nodes.contains_key(k));
        assert forall|i: int| 0 <= i < pre.nodes[k].connections.len() implies not_in(gone)(
            #[trigger] pre.nodes[k].connections[i],
        ) by {
            assert(gone.len() == 0);
        }
        lemma_filter_all(pre.nodes[k].connections, not_in(gone));
        assert(post.nodes[k].connections =~= pre.nodes[k].connections);
    }
    assert(post.nodes.dom() =~= pre.nodes.dom());
    assert(post.nodes =~= pre.nodes);
    assert(post.connections =~= pre.connections);
}

/// Once a node is removed, no connection has it at either end.
pub proof fn law_removed_node_is_unlinked(pre: AppView, post: AppView, key: NodeKey)
    requires
        pre.wf(),
        pre.nodes.contains_key(key.0),
        pre.node_removed(post, key),
    ensures
        !post.nodes.contains_key(key.0),
        forall|c: u32|
            #[trigger] post.connections.contains_key(c) ==> post.connections[c].from != key
                && post.connections[c].to != key,
{
    let gone = pre.nodes[key.0].connections;
    assert forall|c: u32| #[trigger] post.connections.contains_key(c) implies post.connections[c].from
        != key && post.connections[c].to != key by {
        assert(pre.linked(c));
        assert(!gone.contains(ConnectionKey(c)));
    }
}

/// A click on a node selects it, unless it was the selected node, which
/// the click unselects.
pub proof fn law_click_toggles(selected: Option<NodeKey>, h: NodeKey)
    ensures
        toggled(selected, h) == Some(h) <==> selected != Some(h),
        toggled(selected, h) is None <==> selected == Some(h),
{
}

/// A thought dragged out of the inbox and let go over the inbox again is
/// not lost: it comes back at the end of the inbox, the others keep their
/// order, and nothing is carried any more.
pub proof fn law_drag_back_to_inbox(
    pre: AppView,
    mid: AppView,
    post: AppView,
    d: usize,
    start: egui::Pos2,
)
    requires
        pre.actions.start_drag == Some((d, start, false)),
        d < pre.inbox.len(),
        pre.inbox_drag_moved(mid, pre.inbox[d as int], true),
        mid.dropped_in_inbox(post),
    ensures
        post.inbox.len() == pre.inbox.len(),
        post.inbox == pre.inbox.remove(d as int).push(pre.inbox[d as int]),
        post.inbox.to_multiset() == pre.inbox.to_multiset(),
        post.actions.thought_drag is None,
{
    let s = pre.inbox;
    let x = s[d as int];
    s.to_multiset_ensures();
    s.remove(d as int).to_multiset_ensures();
    assert(s.contains(x));
    assert(s.to_multiset().count(x) > 0);
    assert(s.to_multiset().remove(x).insert(x) =~= s.to_multiset());
}

/// A carried thought let go over the map becomes the new node and only
/// that: the inbox is left as it was, nothing is carried any more, and the
/// map gains exactly the one node, which holds the thought where it was let
/// go.
pub proof fn law_drop_on_map_keeps_inbox(
    pre: AppView,
    post: AppView,
    key: NodeKey,
    position: Vec2,
    t: Thought,
)
    requires
        pre.actions.thought_drag == Some(t),
        pre.without_thought_drag().node_added(post, key, position, t),
    ensures
        post.inbox == pre.inbox,
        post.actions.thought_drag is None,
        post.actions.start_drag == pre.actions.start_drag,
        post.nodes.dom() == pre.nodes.dom().insert(key.0),
        post.nodes[key.0].thought == t,
        post.nodes[key.0].position == position,
        forall|k: u32| #[trigger] pre.nodes.contains_key(k) && k != key.0 ==> post.nodes[k] == pre.nodes[k],
        post.connections == pre.connections,
{
    assert(post.nodes.dom() =~= pre.nodes.dom().insert(key.0));
}

/// A new node stands still: every node ever added gets the same velocity,
/// the zero vector, whatever its place, its thought or the map it joins.
pub proof fn law_new_node_stands_still(
    pre1: AppView,
    post1: AppView,
    key1: NodeKey,
    position1: Vec2,
    t1: Thought,
    pre2: AppView,
    post2: AppView,
    key2: NodeKey,
    position2: Vec2,
    t2: Thought,
)
    requires
        pre1.node_added(post1, key1, position1, t1),
        pre2.node_added(post2, key2, position2, t2),
    ensures
        post1.nodes[key1.0].velocity == zero_vector(),
        post1.nodes[key1.0].velocity == post2.nodes[key2.0].velocity,
{
}

/// In normal mode, the primary button held inside the map drags the node
/// under the pointer, whether or not it is selected; with no node under
/// the pointer nothing is dragged.
pub proof fn law_held_button_drags_hovered_node(
    pre: AppView,
    hovered: Option<NodeKey>,
    pointer: PointerInput,
)
    requires
        pre.mode is Normal,
        pointer.primary_down,
        pointer.in_map,
    ensures
        match hovered {
            Some(h) => pre.nodes.contains_key(h.0) ==> pre.pointer_drag(hovered, pointer) == Some(h),
            None => pre.pointer_drag(hovered, pointer) is None,
        },
        forall|s: Option<NodeKey>|
            #[trigger] (AppView { selected: s, ..pre }).pointer_drag(hovered, pointer)
                == pre.pointer_drag(hovered, pointer),
{
}

/// In normal mode only a click inside the map changes the selection: a
/// press, a held button or a click outside the map leave it as it was; a
/// click on node `h` selects `h`, or unselects it if it was selected.
pub proof fn law_only_clicks_select(pre: AppView, hovered: Option<NodeKey>, pointer: PointerInput)
    requires
        pre.mode is Normal,
    ensures
        !(pointer.any_click && pointer.in_map) ==> pre.pointer_selection(hovered, pointer)
            == pre.selected,
        hovered is None ==> pre.pointer_selection(hovered, pointer) == pre.selected,
        pointer.any_click && pointer.in_map ==> match hovered {
            Some(h) => pre.pointer_selection(hovered, pointer) == if pre.selected == Some(h) {
                None
            } else {
                Some(h)
            },
            None => true,
        },
{
}

/// While the pointer stays near where the drag in the inbox started,
/// nothing changes: no thought is carried and the inbox keeps every entry.
pub proof fn law_short_drag_changes_nothing(pre: AppView, post: AppView, thought: Thought)
    requires
        pre.inbox_drag_moved(post, thought, false),
    ensures
        post == pre,
{
}

/// A thought is picked up from the inbox only together with the removal of
/// the entry where the drag started, only once per drag, and only once the
/// pointer has gone far.
pub proof fn law_pick_up_takes_the_entry(
    pre: AppView,
    post: AppView,
    thought: Thought,
    moved_far: bool,
)
    requires
        pre.inbox_drag_moved(post, thought, moved_far),
        post.actions.thought_drag != pre.actions.thought_drag,
    ensures
        moved_far,
        post.actions.thought_drag == Some(thought),
        match pre.actions.start_drag {
            Some((d, start, ended)) => {
                &&& !ended
                &&& post.inbox == pre.inbox.remove(d as int)
                &&& post.actions.start_drag == Some((d, start, true))
            },
            None => false,
        },
{
}

} // verus!
