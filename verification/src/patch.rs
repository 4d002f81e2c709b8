//! The mutation commands the renderer emits against the live target, the
//! warnings it logs, and the error that aborts a render pass.
//!
//! A command addresses a node by its path: the child indices leading from
//! the mount point to the node.  An embedder replays the commands, in order,
//! against the real document.

use vstd::prelude::*;

use crate::html::{AttributeView, PropertyValue, PropertyValueView};
use crate::live::{ListenerInfoView, LiveListener, LiveNode, LiveNodeView};

verus! {

broadcast use vstd::std_specs::vec::group_vec_axioms, vstd::seq::group_seq_axioms;

/// One mutation of the live document.
pub enum Mutation {
    /// Append `node`, built afresh off-tree, as the last child of `parent`.
    AppendChild { parent: Vec<usize>, node: LiveNode },
    /// Replace the child of `parent` at `index` with `node`, built afresh.
    ReplaceChild { parent: Vec<usize>, index: usize, node: LiveNode },
    /// Remove the child of `parent` at `index`.
    RemoveChild { parent: Vec<usize>, index: usize },
    /// Set a named property on the node at `node`.
    SetProperty { node: Vec<usize>, name: String, value: PropertyValue },
    /// Delete a named property.
    RemoveProperty { node: Vec<usize>, name: String },
    /// Set an inline style declaration.
    SetStyle { node: Vec<usize>, name: String, value: String },
    /// Delete an inline style declaration.
    RemoveStyle { node: Vec<usize>, name: String },
    /// Register the given listener on the node at `node`.
    AddListener { node: Vec<usize>, listener: LiveListener },
    /// Unregister the listener with handle `handle` for event type `type_`.
    RemoveListener { node: Vec<usize>, type_: String, handle: u64 },
}

/// Ghost view of a `Mutation`.
#[verifier::ext_equal]
pub enum MutationView {
    AppendChild { parent: Seq<usize>, node: LiveNodeView },
    ReplaceChild { parent: Seq<usize>, index: usize, node: LiveNodeView },
    RemoveChild { parent: Seq<usize>, index: usize },
    SetProperty { node: Seq<usize>, name: Seq<char>, value: PropertyValueView },
    RemoveProperty { node: Seq<usize>, name: Seq<char> },
    SetStyle { node: Seq<usize>, name: Seq<char>, value: Seq<char> },
    RemoveStyle { node: Seq<usize>, name: Seq<char> },
    AddListener { node: Seq<usize>, handle: u64, info: ListenerInfoView },
    RemoveListener { node: Seq<usize>, type_: Seq<char>, handle: u64 },
}

impl View for Mutation {
    type V = MutationView;

    open spec fn view(&self) -> MutationView {
        match self {
            Mutation::AppendChild { parent, node } => MutationView::AppendChild {
                parent: parent@,
                node: node@,
            },
            Mutation::ReplaceChild { parent, index, node } => MutationView::ReplaceChild {
                parent: parent@,
                index: *index,
                node: node@,
            },
            Mutation::RemoveChild { parent, index } => MutationView::RemoveChild {
                parent: parent@,
                index: *index,
            },
            Mutation::SetProperty { node, name, value } => MutationView::SetProperty {
                node: node@,
                name: name@,
                value: value@,
            },
            Mutation::RemoveProperty { node, name } => MutationView::RemoveProperty {
                node: node@,
                name: name@,
            },
            Mutation::SetStyle { node, name, value } => MutationView::SetStyle {
                node: node@,
                name: name@,
                value: value@,
            },
            Mutation::RemoveStyle { node, name } => MutationView::RemoveStyle {
                node: node@,
                name: name@,
            },
            Mutation::AddListener { node, listener } => MutationView::AddListener {
                node: node@,
                handle: listener.handle,
                info: listener@.info,
            },
            Mutation::RemoveListener { node, type_, handle } => MutationView::RemoveListener {
                node: node@,
                type_: type_@,
                handle: *handle,
            },
        }
    }
}

/// The views of a command list, in order.
pub open spec fn mutation_views(s: Seq<Mutation>) -> Seq<MutationView> {
    Seq::new(s.len(), |i: int| s[i]@)
}

/// A non-fatal oddity the renderer noticed and carried on past.
pub enum Warning {
    /// No live child at the index where a removal was scheduled.
    NodeIndexMissing { path: Vec<usize>, index: usize },
    /// An event attribute slated for unbinding held no handle.
    ListenerUnbindMissing,
    /// An event attribute about to receive a handle already held one.
    HandleAlreadyBound,
}

/// A fatal reconciliation error: the render pass is aborted.
#[derive(Debug)]
pub enum RenderError {
    /// No live node at the index where the diff expected one; `path` names
    /// the parent it searched under.
    NodeNotFound { path: Vec<usize>, index: usize },
}

impl RenderError {
    /// A short description, for a log line.
    pub fn describe(&self) -> (r: &'static str)
        ensures
            r@ =~= "could not find live node at expected index"@,
    {
        match self {
            RenderError::NodeNotFound { .. } => "could not find live node at expected index",
        }
    }
}

/// The commands that removing one attribute from the node at `path` emits:
/// one removal for a property, style or bound listener, none for a key or
/// for an event attribute that was never bound.
pub open spec fn remove_cmds_of<MV, FV>(path: Seq<usize>, a: AttributeView<MV, FV>) -> Seq<
    MutationView,
> {
    match a {
        AttributeView::Property(k, _) => seq![MutationView::RemoveProperty { node: path, name: k }],
        AttributeView::Style(k, _) => seq![MutationView::RemoveStyle { node: path, name: k }],
        AttributeView::Key(_) => Seq::empty(),
        AttributeView::Event(e) => match e.handle {
            Some(h) => seq![
                MutationView::RemoveListener { node: path, type_: e.type_, handle: h },
            ],
            None => Seq::empty(),
        },
    }
}

/// The commands that adding one (already bound) attribute to the node at
/// `path` emits.
pub open spec fn add_cmds_of<MV, FV>(path: Seq<usize>, a: AttributeView<MV, FV>) -> Seq<
    MutationView,
> {
    match a {
        AttributeView::Property(k, v) => seq![
            MutationView::SetProperty { node: path, name: k, value: v },
        ],
        AttributeView::Style(k, v) => seq![
            MutationView::SetStyle { node: path, name: k, value: v },
        ],
        AttributeView::Key(_) => Seq::empty(),
        AttributeView::Event(e) => match e.handle {
            Some(h) => seq![
                MutationView::AddListener {
                    node: path,
                    handle: h,
                    info: ListenerInfoView {
                        type_: e.type_,
                        stop_propagation: e.stop_propagation,
                        prevent_default: e.prevent_default,
                    },
                },
            ],
            None => Seq::empty(),
        },
    }
}

} // verus!
