//! End-to-end and component tests of the runtime, driven through the
//! public surface: the counter application, the reconciler, the attribute
//! diff and the listener lifecycle counters.

use willow::app::{self, Model, Msg};
use willow::events::{derive_message, on_click, on_enter, EventData};
use willow::html::{Attribute, EventClosureImpl, EventToMessage, Html, PropertyValue};
use willow::live::{LiveElement, LiveNode};
use willow::patch::{Mutation, RenderError};
use willow::render::{render, Renderer};
use willow::cmd::Cmd;

#[test]
fn it_works() {
    assert_eq!(2 + 2, 4);
}

#[test]
fn lib_it_works() {
    assert_eq!(2 + 2, 4);
}

fn text_tree(s: &str) -> Html<Msg, EventClosureImpl<Msg>> {
    willow::html::text(s)
}

fn div_tree(children: Vec<Html<Msg, EventClosureImpl<Msg>>>) -> Html<Msg, EventClosureImpl<Msg>> {
    willow::html::div(Vec::new(), children)
}

/// Rendering the same model twice issues zero mutations the second time.
#[test]
fn no_op_diff_issues_no_mutations() {
    let mut p = app::main();
    p.start();
    let first = p.take_commands();
    assert_eq!(first.len(), 1);
    p.render();
    let second = p.take_commands();
    assert_eq!(second.len(), 0);
}

/// A first render of a tree into an empty mount is exactly one append, and
/// the appended live node carries the tree's text content.
#[test]
fn insertion_appends_once() {
    let mut live: Vec<LiveNode> = Vec::new();
    let mut renderer = Renderer::new();
    let tree = div_tree(vec![text_tree("hello")]);
    let res = render(&mut live, tree, None, &mut renderer);
    assert!(res.is_ok());
    assert_eq!(renderer.cmds.len(), 1);
    match &renderer.cmds[0] {
        Mutation::AppendChild { parent, node } => {
            assert_eq!(parent.len(), 0);
            match node {
                LiveNode::Element(e) => {
                    assert_eq!(e.tag, "div");
                    assert_eq!(e.children.len(), 1);
                    match &e.children[0] {
                        LiveNode::Text(s) => assert_eq!(s, "hello"),
                        _ => panic!("expected a text child"),
                    }
                }
                _ => panic!("expected an element"),
            }
        }
        _ => panic!("expected an append"),
    }
    assert_eq!(live.len(), 1);
}

/// Removing the middle child of three leaves the first and last intact, at
/// their final positions.
#[test]
fn deletion_keeps_survivors_in_position() {
    let mut live: Vec<LiveNode> = Vec::new();
    let mut renderer = Renderer::new();
    let old_tree = div_tree(vec![text_tree("A"), text_tree("B"), text_tree("C")]);
    let filled = render(&mut live, old_tree, None, &mut renderer).unwrap();
    let new_tree = div_tree(vec![text_tree("A"), text_tree("C")]);
    let _filled2 = render(&mut live, new_tree, Some(filled), &mut renderer).unwrap();
    match &live[0] {
        LiveNode::Element(e) => {
            assert_eq!(e.children.len(), 2);
            match (&e.children[0], &e.children[1]) {
                (LiveNode::Text(a), LiveNode::Text(c)) => {
                    assert_eq!(a, "A");
                    assert_eq!(c, "C");
                }
                _ => panic!("expected two text children"),
            }
        }
        _ => panic!("expected an element"),
    }
}

fn prop_attr(name: &str, value: PropertyValue) -> Attribute<Msg, EventClosureImpl<Msg>> {
    Attribute::Property(name.to_string(), value)
}

/// Diffing `{class:"a", hidden:true}` against `{class:"a", title:"x"}`
/// emits exactly one removal and one addition; `class` is untouched.
#[test]
fn attribute_diff_is_minimal() {
    let mut el = LiveElement {
        tag: "div".to_string(),
        props: vec![
            ("class".to_string(), PropertyValue::String("a".to_string())),
            ("hidden".to_string(), PropertyValue::Bool(true)),
        ],
        styles: Vec::new(),
        listeners: Vec::new(),
        children: Vec::new(),
    };
    let old_attrs = vec![
        prop_attr("class", PropertyValue::String("a".to_string())),
        prop_attr("hidden", PropertyValue::Bool(true)),
    ];
    let new_attrs = vec![
        prop_attr("class", PropertyValue::String("a".to_string())),
        prop_attr("title", PropertyValue::String("x".to_string())),
    ];
    let mut renderer = Renderer::new();
    let path: Vec<usize> = Vec::new();
    let _filled = willow::render::diff_attrs(
        &mut el,
        &path,
        old_attrs,
        new_attrs,
        &mut renderer.binder,
        &mut renderer.cmds,
        &mut renderer.warnings,
    );
    assert_eq!(renderer.cmds.len(), 2);
    let mut removals = 0;
    let mut additions = 0;
    for c in &renderer.cmds {
        match c {
            Mutation::RemoveProperty { name, .. } => {
                assert_eq!(name, "hidden");
                removals += 1;
            }
            Mutation::SetProperty { name, .. } => {
                assert_eq!(name, "title");
                additions += 1;
            }
            _ => panic!("unexpected command"),
        }
    }
    assert_eq!(removals, 1);
    assert_eq!(additions, 1);
    assert_eq!(el.props.len(), 2);
}

/// An event attribute unchanged across two renders keeps its handle: one
/// bind, no unbind, across both renders.
#[test]
fn listener_transferred_not_rebound() {
    let mut p = app::main();
    p.start();
    assert_eq!(p.renderer.binder.binds, 2);
    assert_eq!(p.renderer.binder.unbinds, 0);
    p.dispatch(&Msg::Increment);
    assert_eq!(p.renderer.binder.binds, 2);
    assert_eq!(p.renderer.binder.unbinds, 0);
}

/// Changing an element's tag replaces the whole node rather than diffing
/// into it.
#[test]
fn tag_change_replaces_wholesale() {
    let mut live: Vec<LiveNode> = Vec::new();
    let mut renderer = Renderer::new();
    let old_tree = div_tree(vec![text_tree("x")]);
    let filled = render(&mut live, old_tree, None, &mut renderer).unwrap();
    let _ = p_take(&mut renderer);
    let new_tree: Html<Msg, EventClosureImpl<Msg>> =
        willow::html::span(Vec::new(), vec![text_tree("x")]);
    let _filled2 = render(&mut live, new_tree, Some(filled), &mut renderer).unwrap();
    assert_eq!(renderer.cmds.len(), 1);
    match &renderer.cmds[0] {
        Mutation::ReplaceChild { index, node, .. } => {
            assert_eq!(*index, 0);
            match node {
                LiveNode::Element(e) => assert_eq!(e.tag, "span"),
                _ => panic!("expected an element"),
            }
        }
        _ => panic!("expected a replacement"),
    }
}

fn p_take(renderer: &mut Renderer) -> Vec<Mutation> {
    std::mem::take(&mut renderer.cmds)
}

/// The full counter scenario: dispatching the increment message moves the
/// model from 4 to 5 and the only live mutation is the text node changing
/// from "4" to "5"; both button listeners stay bound without rebinding.
#[test]
fn counter_end_to_end() {
    let mut p = app::main();
    assert_eq!(p.current_model.counter, 4);
    p.start();
    let mount_cmds = p.take_commands();
    assert_eq!(mount_cmds.len(), 1);
    p.dispatch(&Msg::Increment);
    assert_eq!(p.current_model.counter, 5);
    let cmds = p.take_commands();
    assert_eq!(cmds.len(), 1);
    match &cmds[0] {
        Mutation::ReplaceChild { parent, index, node } => {
            assert_eq!(parent.as_slice(), &[0usize, 1usize]);
            assert_eq!(*index, 0);
            match node {
                LiveNode::Text(s) => assert_eq!(s, "5"),
                _ => panic!("expected a text node"),
            }
        }
        _ => panic!("expected a text replacement"),
    }
    assert_eq!(p.renderer.binder.binds, 2);
    assert_eq!(p.renderer.binder.unbinds, 0);
    match &p.live[0] {
        LiveNode::Element(e) => {
            assert_eq!(e.children.len(), 3);
        }
        _ => panic!("expected the mounted element"),
    }
}

/// A reconciliation against a live slot that holds no node fails with the
/// positional error rather than patching blindly.
#[test]
fn missing_node_is_a_fatal_error() {
    let mut live: Vec<LiveNode> = Vec::new();
    let mut renderer = Renderer::new();
    let mut pending: Vec<usize> = Vec::new();
    let path: Vec<usize> = Vec::new();
    let old_tree = div_tree(vec![]);
    let new_tree = div_tree(vec![]);
    let res = renderer.update_element(&mut live, &path, Some(new_tree), Some(old_tree), 0, &mut pending);
    match res {
        Err(RenderError::NodeNotFound { index, .. }) => assert_eq!(index, 0),
        _ => panic!("expected a missing-node error"),
    }
}

/// The Enter filter fires its message only for the Enter key code.
#[test]
fn enter_filter_gates_by_key_code() {
    let attr: Attribute<Msg, EventClosureImpl<Msg>> = on_enter(Msg::Increment);
    let policy = match attr {
        Attribute::Event(e) => e.to_message,
        _ => panic!("expected an event attribute"),
    };
    let enter = EventData { value: String::new(), key_code: 13 };
    let other = EventData { value: String::new(), key_code: 12 };
    assert!(matches!(derive_message(&policy, &enter), Some(Msg::Increment)));
    assert!(derive_message(&policy, &other).is_none());
    let click: Attribute<Msg, EventClosureImpl<Msg>> = on_click(Msg::Decrement);
    let click_policy = match click {
        Attribute::Event(e) => e.to_message,
        _ => panic!("expected an event attribute"),
    };
    assert!(matches!(derive_message(&click_policy, &other), Some(Msg::Decrement)));
}

/// An input-derived policy maps the event target's value.
#[test]
fn input_policy_maps_value() {
    let mapper = willow::html::EventClosureImpl::new(Msg::Decrement);
    let policy: EventToMessage<Msg, EventClosureImpl<Msg>> = EventToMessage::Input(mapper);
    let data = EventData { value: "anything".to_string(), key_code: 0 };
    assert!(matches!(derive_message(&policy, &data), Some(Msg::Decrement)));
}

/// Routing a firing by handle finds the right listener and dispatches.
#[test]
fn handle_event_routes_by_handle() {
    let mut p = app::main();
    p.start();
    let _ = p.take_commands();
    // The mount bound handle 0 to the increment button and handle 1 to the
    // decrement button, in attribute order.
    let data = EventData { value: String::new(), key_code: 0 };
    p.handle_event(0, &data);
    assert_eq!(p.current_model.counter, 5);
    p.handle_event(1, &data);
    assert_eq!(p.current_model.counter, 4);
    p.handle_event(99, &data);
    assert_eq!(p.current_model.counter, 4);
}

/// The decimal rendering of counters.
#[test]
fn integers_render_in_decimal() {
    assert_eq!(app::int_to_string(0), "0");
    assert_eq!(app::int_to_string(4), "4");
    assert_eq!(app::int_to_string(10), "10");
    assert_eq!(app::int_to_string(5093), "5093");
    assert_eq!(app::int_to_string(-17), "-17");
    assert_eq!(app::int_to_string(i32::MIN), "-2147483648");
}

/// Wrapping arithmetic at the ends of the counter's range.
#[test]
fn update_wraps_at_range_ends() {
    let mut m = Model { counter: i32::MAX };
    app::update(&Msg::Increment, &mut m);
    assert_eq!(m.counter, i32::MIN);
    let mut m2 = Model { counter: i32::MIN };
    app::update(&Msg::Decrement, &mut m2);
    assert_eq!(m2.counter, i32::MAX);
}

/// The do-nothing effect request succeeds.
#[test]
fn no_cmd_runs_ok() {
    assert!(willow::cmd::NoCmd.run().is_ok());
}
