use egui::{pos2, vec2};

use thought_map::action::Actions;
use thought_map::app::{App, Highlight, PointerInput};
use thought_map::connection::{Connection, ConnectionKey};
use thought_map::mode::Mode;
use thought_map::node::{Node, NodeKey};
use thought_map::thought::Thought;

fn thought(text: &str) -> Thought {
    let mut t = Thought::new(String::new());
    t.contents = text.to_string();
    t
}

fn pointer(primary_down: bool, any_click: bool, any_pressed: bool, in_map: bool) -> PointerInput {
    PointerInput { hover: true, primary_down, any_click, any_pressed, in_map }
}

fn sorted(mut v: Vec<NodeKey>) -> Vec<u32> {
    let mut r: Vec<u32> = v.drain(..).map(|k| k.0).collect();
    r.sort();
    r
}

#[test]
fn thought_new_keeps_title_and_is_empty() {
    let t = Thought::new("Plan".to_string());
    assert_eq!(t.title, "Plan");
    assert_eq!(t.contents, "");
}

#[test]
fn thought_clone_is_equal() {
    let mut t = Thought::new("a".to_string());
    t.contents = "b".to_string();
    let c = t.clone();
    assert_eq!(c.title, "a");
    assert_eq!(c.contents, "b");
}

#[test]
fn node_new_starts_still_without_connections() {
    let n = Node::new(vec2(3.0, 4.0), thought("x"));
    assert!(n.connections.is_empty());
    assert_eq!(n.position, vec2(3.0, 4.0));
    assert_eq!(n.velocity, vec2(0.0, 0.0));
    assert_eq!(n.thought.contents, "x");
}

#[test]
fn node_clone_keeps_everything() {
    let mut n = Node::new(vec2(1.0, 2.0), thought("x"));
    n.connections.push(ConnectionKey(7));
    n.velocity = vec2(5.0, 6.0);
    let c = n.clone();
    assert_eq!(c.connections, vec![ConnectionKey(7)]);
    assert_eq!(c.position, vec2(1.0, 2.0));
    assert_eq!(c.velocity, vec2(5.0, 6.0));
}

#[test]
fn mode_next_twice_returns() {
    assert!(matches!(Mode::Normal.next(), Mode::Connect));
    assert!(matches!(Mode::Connect.next(), Mode::Normal));
    assert!(matches!(Mode::Normal.next().next(), Mode::Normal));
}

#[test]
fn mode_text_and_is_normal() {
    assert_eq!(Mode::Normal.text(), "Normal");
    assert_eq!(Mode::Connect.text(), "Connect");
    assert!(Mode::Normal.is_normal());
    assert!(!Mode::Connect.is_normal());
}

#[test]
fn connection_other_end() {
    let c = Connection { from: NodeKey(1), to: NodeKey(2) };
    assert!(c.other(&NodeKey(1)) == NodeKey(2));
    assert!(c.other(&NodeKey(2)) == NodeKey(1));
    assert!(c.other(&c.other(&NodeKey(2))) == NodeKey(2));
    let loop_ = Connection { from: NodeKey(3), to: NodeKey(3) };
    assert!(loop_.other(&NodeKey(3)) == NodeKey(3));
}

#[test]
fn connection_highlight_when_an_end_is_hovered() {
    let c = Connection { from: NodeKey(1), to: NodeKey(2) };
    assert!(matches!(c.highlight(Some(NodeKey(2))), Highlight::Hovered));
    assert!(matches!(c.highlight(Some(NodeKey(3))), Highlight::Plain));
    assert!(matches!(c.highlight(None), Highlight::Plain));
}

#[test]
fn actions_default_is_idle() {
    let a = Actions::default();
    assert!(a.start_drag.is_none());
    assert!(a.thought_drag.is_none());
}

#[test]
fn app_default_is_empty() {
    let app = App::default();
    assert!(app.node_keys().is_empty());
    assert!(app.connection_list().is_empty());
    assert!(app.selected().is_none());
    assert!(app.inbox().is_empty());
    assert!(app.new_thoughts().is_empty());
    assert!(app.mode().is_normal());
    assert!(app.next_node_key() == NodeKey(1));
    assert!(app.next_connection_key() == ConnectionKey(1));
}

#[test]
fn create_node_hands_out_keys_in_order() {
    let mut app = App::default();
    let a = app.create_node(vec2(1.0, 2.0), thought("a"));
    let b = app.create_node(vec2(3.0, 4.0), thought("b"));
    assert!(a == NodeKey(1));
    assert!(b == NodeKey(2));
    assert!(app.next_node_key() == NodeKey(3));
    let n = app.get_node(&b).unwrap();
    assert_eq!(n.thought.contents, "b");
    assert_eq!(n.position, vec2(3.0, 4.0));
    assert!(n.connections.is_empty());
    assert!(app.get_node(&NodeKey(9)).is_none());
    assert_eq!(sorted(app.node_keys()), vec![1, 2]);
}

#[test]
fn create_connection_is_listed_by_both_ends() {
    let mut app = App::default();
    let a = app.create_node(vec2(0.0, 0.0), thought("a"));
    let b = app.create_node(vec2(1.0, 0.0), thought("b"));
    app.create_connection(&a, &b);
    assert_eq!(app.get_node(&a).unwrap().connections, vec![ConnectionKey(1)]);
    assert_eq!(app.get_node(&b).unwrap().connections, vec![ConnectionKey(1)]);
    let list = app.connection_list();
    assert_eq!(list.len(), 1);
    assert!(list[0].from == a && list[0].to == b);
    assert!(app.next_connection_key() == ConnectionKey(2));
}

#[test]
fn connection_to_itself_is_listed_twice() {
    let mut app = App::default();
    let a = app.create_node(vec2(0.0, 0.0), thought("a"));
    app.create_connection(&a, &a);
    assert_eq!(app.get_node(&a).unwrap().connections, vec![ConnectionKey(1), ConnectionKey(1)]);
    app.remove_connection(&ConnectionKey(1));
    assert!(app.get_node(&a).unwrap().connections.is_empty());
    assert!(app.connection_list().is_empty());
}

#[test]
fn remove_connection_undoes_create_connection() {
    let mut app = App::default();
    let a = app.create_node(vec2(0.0, 0.0), thought("a"));
    let b = app.create_node(vec2(1.0, 0.0), thought("b"));
    let c = app.create_node(vec2(2.0, 0.0), thought("c"));
    app.create_connection(&a, &b);
    app.create_connection(&b, &c);
    app.remove_connection(&ConnectionKey(2));
    assert_eq!(app.get_node(&a).unwrap().connections, vec![ConnectionKey(1)]);
    assert_eq!(app.get_node(&b).unwrap().connections, vec![ConnectionKey(1)]);
    assert!(app.get_node(&c).unwrap().connections.is_empty());
    assert_eq!(app.connection_list().len(), 1);
    assert!(app.next_connection_key() == ConnectionKey(3));
}

#[test]
fn remove_unknown_connection_changes_nothing() {
    let mut app = App::default();
    let a = app.create_node(vec2(0.0, 0.0), thought("a"));
    let b = app.create_node(vec2(1.0, 0.0), thought("b"));
    app.create_connection(&a, &b);
    app.remove_connection(&ConnectionKey(5));
    assert_eq!(app.get_node(&a).unwrap().connections, vec![ConnectionKey(1)]);
    assert_eq!(app.connection_list().len(), 1);
}

#[test]
fn remove_node_takes_its_connections_along() {
    let mut app = App::default();
    let a = app.create_node(vec2(0.0, 0.0), thought("a"));
    let b = app.create_node(vec2(1.0, 0.0), thought("b"));
    let c = app.create_node(vec2(2.0, 0.0), thought("c"));
    app.create_connection(&a, &b);
    app.create_connection(&b, &c);
    app.create_connection(&a, &c);
    app.remove_node(b);
    assert!(app.get_node(&b).is_none());
    assert_eq!(sorted(app.node_keys()), vec![1, 3]);
    assert_eq!(app.get_node(&a).unwrap().connections, vec![ConnectionKey(3)]);
    assert_eq!(app.get_node(&c).unwrap().connections, vec![ConnectionKey(3)]);
    let list = app.connection_list();
    assert_eq!(list.len(), 1);
    assert!(list[0].from == a && list[0].to == c);
}

#[test]
fn remove_node_undoes_create_node() {
    let mut app = App::default();
    let a = app.create_node(vec2(0.0, 0.0), thought("a"));
    let b = app.create_node(vec2(1.0, 0.0), thought("b"));
    app.remove_node(b);
    assert_eq!(sorted(app.node_keys()), vec![a.0]);
    assert!(app.next_node_key() == NodeKey(3));
}

#[test]
fn move_node_sets_place_and_speed() {
    let mut app = App::default();
    let a = app.create_node(vec2(0.0, 0.0), thought("a"));
    app.move_node(a, vec2(5.0, 6.0), vec2(0.5, 0.25));
    let n = app.get_node(&a).unwrap();
    assert_eq!(n.position, vec2(5.0, 6.0));
    assert_eq!(n.velocity, vec2(0.5, 0.25));
    app.move_node(NodeKey(42), vec2(9.0, 9.0), vec2(9.0, 9.0));
    assert_eq!(sorted(app.node_keys()), vec![1]);
}

#[test]
fn node_physics_lists_forces() {
    let mut app = App::default();
    let a = app.create_node(vec2(0.0, 0.0), thought("a"));
    let b = app.create_node(vec2(1.0, 0.0), thought("b"));
    let c = app.create_node(vec2(2.0, 0.0), thought("c"));
    app.create_connection(&a, &b);
    app.create_connection(&c, &a);
    let forces = app.node_physics();
    assert_eq!(forces.len(), 3);
    let fa = forces.iter().find(|f| f.key == a).unwrap();
    assert_eq!(fa.pulled_by.iter().map(|k| k.0).collect::<Vec<_>>(), vec![2, 3]);
    assert_eq!(sorted(fa.pushed_by.clone()), vec![2, 3]);
    assert!(fa.moves);
    let fb = forces.iter().find(|f| f.key == b).unwrap();
    assert_eq!(fb.pulled_by.iter().map(|k| k.0).collect::<Vec<_>>(), vec![1]);
    assert_eq!(sorted(fb.pushed_by.clone()), vec![1, 3]);
}

#[test]
fn node_physics_keeps_the_selected_node_still() {
    let mut app = App::default();
    let a = app.create_node(vec2(0.0, 0.0), thought("a"));
    let b = app.create_node(vec2(1.0, 0.0), thought("b"));
    app.pointer_on_map(Some(a), pointer(false, true, false, true));
    let forces = app.node_physics();
    assert!(!forces.iter().find(|f| f.key == a).unwrap().moves);
    assert!(forces.iter().find(|f| f.key == b).unwrap().moves);
}

#[test]
fn click_selects_and_unselects() {
    let mut app = App::default();
    let a = app.create_node(vec2(0.0, 0.0), thought("a"));
    let b = app.create_node(vec2(1.0, 0.0), thought("b"));
    app.pointer_on_map(Some(a), pointer(false, true, false, true));
    assert!(app.selected() == Some(a));
    app.pointer_on_map(Some(b), pointer(false, true, false, true));
    assert!(app.selected() == Some(b));
    app.pointer_on_map(Some(b), pointer(false, true, false, true));
    assert!(app.selected().is_none());
    app.pointer_on_map(Some(a), pointer(false, true, false, false));
    assert!(app.selected().is_none());
}

#[test]
fn primary_button_drags_the_hovered_node() {
    let mut app = App::default();
    let a = app.create_node(vec2(0.0, 0.0), thought("a"));
    assert!(app.pointer_on_map(Some(a), pointer(true, false, false, true)) == Some(a));
    assert!(app.pointer_on_map(Some(a), pointer(true, false, false, false)).is_none());
    assert!(app.pointer_on_map(Some(NodeKey(8)), pointer(true, false, false, true)).is_none());
    assert!(app.pointer_on_map(None, pointer(true, true, true, true)).is_none());
}

#[test]
fn connect_mode_press_picks_start_node() {
    let mut app = App::default();
    let a = app.create_node(vec2(0.0, 0.0), thought("a"));
    let b = app.create_node(vec2(1.0, 0.0), thought("b"));
    app.switch_mode();
    assert!(!app.mode().is_normal());
    assert!(app.pointer_on_map(Some(a), pointer(true, false, true, true)).is_none());
    assert!(app.selected() == Some(a));
    app.pointer_on_map(Some(b), pointer(false, false, true, true));
    assert!(app.selected() == Some(a));
}

#[test]
fn switch_mode_clears_selection() {
    let mut app = App::default();
    let a = app.create_node(vec2(0.0, 0.0), thought("a"));
    app.pointer_on_map(Some(a), pointer(false, true, false, true));
    app.switch_mode();
    assert!(app.selected().is_none());
    app.switch_mode();
    assert!(app.mode().is_normal());
}

#[test]
fn node_highlight_prefers_selection() {
    let mut app = App::default();
    let a = app.create_node(vec2(0.0, 0.0), thought("a"));
    let b = app.create_node(vec2(1.0, 0.0), thought("b"));
    assert!(matches!(app.node_highlight(&a, Some(a)), Highlight::Hovered));
    assert!(matches!(app.node_highlight(&a, Some(b)), Highlight::Plain));
    app.pointer_on_map(Some(a), pointer(false, true, false, true));
    assert!(matches!(app.node_highlight(&a, Some(a)), Highlight::Selected));
    assert!(matches!(app.node_highlight(&b, None), Highlight::Plain));
}

#[test]
fn new_thought_button_and_enter() {
    let mut app = App::default();
    app.new_thought_requested(false, false);
    assert_eq!(app.new_thoughts().len(), 0);
    app.new_thought_requested(false, true);
    assert_eq!(app.new_thoughts().len(), 1);
    app.new_thought_requested(false, true);
    assert_eq!(app.new_thoughts().len(), 1);
    app.new_thought_requested(true, false);
    assert_eq!(app.new_thoughts().len(), 2);
    assert_eq!(app.new_thoughts()[1].contents, "");
    assert_eq!(app.new_thoughts()[1].title, "");
}

#[test]
fn submitted_thought_goes_to_inbox() {
    let mut app = App::default();
    app.new_thought_requested(true, false);
    app.new_thought_requested(true, false);
    app.set_new_thought_contents(1, "second".to_string());
    assert_eq!(app.new_thoughts()[1].contents, "second");
    assert_eq!(app.new_thoughts()[0].contents, "");
    app.close_new_thought(1, true);
    assert_eq!(app.new_thoughts().len(), 1);
    assert_eq!(app.inbox().len(), 1);
    assert_eq!(app.inbox()[0].contents, "second");
}

#[test]
fn empty_or_cancelled_thought_is_dropped() {
    let mut app = App::default();
    app.new_thought_requested(true, false);
    app.close_new_thought(0, true);
    assert!(app.inbox().is_empty());
    assert!(app.new_thoughts().is_empty());
    app.new_thought_requested(true, false);
    app.set_new_thought_contents(0, "text".to_string());
    app.close_new_thought(0, false);
    assert!(app.inbox().is_empty());
    assert!(app.new_thoughts().is_empty());
}

fn app_with_inbox(texts: &[&str]) -> App {
    let mut app = App::default();
    for (i, t) in texts.iter().enumerate() {
        app.new_thought_requested(true, false);
        app.set_new_thought_contents(0, t.to_string());
        app.close_new_thought(0, true);
        assert_eq!(app.inbox().len(), i + 1);
    }
    app
}

#[test]
fn double_click_removes_from_inbox() {
    let mut app = app_with_inbox(&["a", "b", "c"]);
    app.remove_from_inbox(1);
    let texts: Vec<&str> = app.inbox().iter().map(|t| t.contents.as_str()).collect();
    assert_eq!(texts, vec!["a", "c"]);
}

#[test]
fn drag_out_of_inbox_and_back() {
    let mut app = app_with_inbox(&["a", "b", "c"]);
    app.inbox_drag_started(0, pos2(5.0, 5.0));
    assert!(matches!(app.actions().start_drag, Some((0, _, false))));
    let first = app.inbox()[0].clone();
    app.inbox_drag_moved(&first, false);
    assert_eq!(app.inbox().len(), 3);
    app.inbox_drag_moved(&first, true);
    assert_eq!(app.inbox().len(), 2);
    assert!(matches!(app.actions().start_drag, Some((0, _, true))));
    assert_eq!(app.actions().thought_drag.as_ref().unwrap().contents, "a");
    app.inbox_drag_moved(&first, true);
    assert_eq!(app.inbox().len(), 2);
    app.drop_thought_in_inbox();
    let texts: Vec<&str> = app.inbox().iter().map(|t| t.contents.as_str()).collect();
    assert_eq!(texts, vec!["b", "c", "a"]);
    assert!(app.actions().thought_drag.is_none());
    app.inbox_drag_released();
    assert!(app.actions().start_drag.is_none());
}

#[test]
fn drag_from_inbox_onto_map_makes_a_node() {
    let mut app = app_with_inbox(&["a", "b"]);
    app.inbox_drag_started(1, pos2(0.0, 0.0));
    let second = app.inbox()[1].clone();
    app.inbox_drag_moved(&second, true);
    let key = app.drop_thought_on_map(vec2(10.0, 20.0)).unwrap();
    assert!(key == NodeKey(1));
    let n = app.get_node(&key).unwrap();
    assert_eq!(n.thought.contents, "b");
    assert_eq!(n.position, vec2(10.0, 20.0));
    assert!(app.actions().thought_drag.is_none());
    assert!(app.drop_thought_on_map(vec2(1.0, 1.0)).is_none());
    assert_eq!(app.node_keys().len(), 1);
}

#[test]
fn drop_in_inbox_without_drag_changes_nothing() {
    let mut app = app_with_inbox(&["a"]);
    app.drop_thought_in_inbox();
    assert_eq!(app.inbox().len(), 1);
}
