//! The listener lifecycle manager: allocates the handles that identify
//! registered native callbacks, counts registrations and unregistrations,
//! and binds or unbinds the listener of one event attribute.
//!
//! The invariant it maintains: at most one live handle per event attribute
//! at any time, and a handle is never bound twice without an intervening
//! unbind.  On retention across a diff the handle moves to the successor
//! attribute instead of being rebound.

use vstd::prelude::*;

use crate::html::{Event, EventClosure, EventView, Message};
use crate::live::{
    LiveElement, LiveListener, assoc_map, distinct_keys, el_listeners_below, event_info,
    lemma_assoc_map_membership,
};
use crate::patch::{Mutation, MutationView, Warning, mutation_views};

verus! {

broadcast use vstd::std_specs::vec::group_vec_axioms, vstd::seq::group_seq_axioms;

/// Allocates listener handles and counts binds and unbinds.  Handles are
/// issued in increasing order, so every handle ever issued is below
/// `next_handle`.
pub struct Binder {
    pub next_handle: u64,
    pub binds: u64,
    pub unbinds: u64,
}

impl Binder {
    /// A fresh binder: no handle issued, nothing counted yet.
    pub fn new() -> (r: Binder)
        ensures
            r.next_handle == 0,
            r.binds == 0,
            r.unbinds == 0,
    {
        Binder { next_handle: 0, binds: 0, unbinds: 0 }
    }

    /// Issue a fresh handle and count the registration it identifies.
    pub fn fresh(&mut self) -> (h: u64)
        requires
            old(self).next_handle < u64::MAX,
            old(self).binds < u64::MAX,
        ensures
            h == old(self).next_handle,
            final(self).next_handle == old(self).next_handle + 1,
            final(self).binds == old(self).binds + 1,
            final(self).unbinds == old(self).unbinds,
    {
        let h = self.next_handle;
        self.next_handle = self.next_handle + 1;
        self.binds = self.binds + 1;
        h
    }
}

/// Bind a native listener for the event attribute `ev` on the live element
/// `el`: allocate a fresh handle, register the listener, emit the command
/// that tells the embedder to do the same, and store the handle in the
/// attribute's slot.  If the slot already held a handle it is overwritten
/// and a warning is recorded.
pub fn bind_event<Msg: Message, F: EventClosure<Msg>>(
    el: &mut LiveElement,
    path: &Vec<usize>,
    ev: Event<Msg, F>,
    binder: &mut Binder,
    cmds: &mut Vec<Mutation>,
    warnings: &mut Vec<Warning>,
) -> (r: Event<Msg, F>)
    requires
        old(binder).next_handle < u64::MAX,
        old(binder).binds < u64::MAX,
        distinct_keys(old(el).listener_assoc()),
        el_listeners_below(old(el)@.listeners, old(binder).next_handle),
    ensures
        r@ == (EventView { handle: Some(old(binder).next_handle), ..ev@ }),
        final(binder).next_handle == old(binder).next_handle + 1,
        final(binder).binds == old(binder).binds + 1,
        final(binder).unbinds == old(binder).unbinds,
        distinct_keys(final(el).listener_assoc()),
        el_listeners_below(final(el)@.listeners, final(binder).next_handle),
        assoc_map(final(el).listener_assoc()) == assoc_map(old(el).listener_assoc()).insert(
            old(binder).next_handle,
            event_info(ev@),
        ),
        final(el)@.tag == old(el)@.tag,
        final(el)@.props == old(el)@.props,
        final(el)@.styles == old(el)@.styles,
        final(el)@.children == old(el)@.children,
        mutation_views(final(cmds)@) == mutation_views(old(cmds)@).push(
            MutationView::AddListener {
                node: path@,
                handle: old(binder).next_handle,
                info: event_info(ev@),
            },
        ),
        final(warnings)@ == old(warnings)@ + (if ev.handle is Some {
            seq![Warning::HandleAlreadyBound]
        } else {
            Seq::empty()
        }),
{
    let h = binder.fresh();
    proof {
        lemma_assoc_map_membership(el.listener_assoc(), h);
        if assoc_map(el.listener_assoc()).contains_key(h) {
            let i = choose|i: int|
                0 <= i < el.listener_assoc().len() && (#[trigger] el.listener_assoc()[i]).0 == h;
            assert(el@.listeners[i].handle < h);
        }
    }
    let ghost cmds_before = cmds@;
    cmds.push(
        Mutation::AddListener {
            node: path.clone(),
            listener: LiveListener {
                type_: ev.type_.clone(),
                handle: h,
                stop_propagation: ev.stop_propagation,
                prevent_default: ev.prevent_default,
            },
        },
    );
    proof {
        assert(mutation_views(cmds@) =~= mutation_views(cmds_before).push(
            MutationView::AddListener { node: path@, handle: h, info: event_info(ev@) },
        ));
    }
    el.add_listener(
        LiveListener {
            type_: ev.type_.clone(),
            handle: h,
            stop_propagation: ev.stop_propagation,
            prevent_default: ev.prevent_default,
        },
    );
    if ev.handle.is_some() {
        warnings.push(Warning::HandleAlreadyBound);
    }
    Event {
        type_: ev.type_,
        to_message: ev.to_message,
        stop_propagation: ev.stop_propagation,
        prevent_default: ev.prevent_default,
        handle: Some(h),
    }
}

/// Unbind the native listener of the event attribute `ev` from `el`: take
/// the handle out of the slot, unregister the listener, and emit the
/// command that tells the embedder to do the same.  An empty slot is a
/// warning, not an error: listener bookkeeping must not abort a render.
pub fn unbind_event<Msg: Message, F: EventClosure<Msg>>(
    el: &mut LiveElement,
    path: &Vec<usize>,
    ev: &Event<Msg, F>,
    binder: &mut Binder,
    cmds: &mut Vec<Mutation>,
    warnings: &mut Vec<Warning>,
)
    requires
        old(binder).unbinds < u64::MAX,
        distinct_keys(old(el).listener_assoc()),
    ensures
        distinct_keys(final(el).listener_assoc()),
        final(el)@.tag == old(el)@.tag,
        final(el)@.props == old(el)@.props,
        final(el)@.styles == old(el)@.styles,
        final(el)@.children == old(el)@.children,
        final(binder).next_handle == old(binder).next_handle,
        final(binder).binds == old(binder).binds,
        match ev@.handle {
            Some(h) => {
                &&& assoc_map(final(el).listener_assoc()) == assoc_map(
                    old(el).listener_assoc(),
                ).remove(h)
                &&& final(binder).unbinds == old(binder).unbinds + 1
                &&& mutation_views(final(cmds)@) == mutation_views(old(cmds)@).push(
                    MutationView::RemoveListener { node: path@, type_: ev@.type_, handle: h },
                )
                &&& final(warnings)@ == old(warnings)@
            },
            None => {
                &&& final(el)@.listeners == old(el)@.listeners
                &&& final(binder).unbinds == old(binder).unbinds
                &&& final(cmds)@ == old(cmds)@
                &&& final(warnings)@ == old(warnings)@.push(Warning::ListenerUnbindMissing)
            },
        },
        forall|n: u64|
            el_listeners_below(old(el)@.listeners, n) ==> #[trigger] el_listeners_below(
                final(el)@.listeners,
                n,
            ),
{
    match &ev.handle {
        Some(h) => {
            let ghost cmds_before = cmds@;
            cmds.push(
                Mutation::RemoveListener { node: path.clone(), type_: ev.type_.clone(), handle: *h },
            );
            proof {
                assert(mutation_views(cmds@) =~= mutation_views(cmds_before).push(
                    MutationView::RemoveListener { node: path@, type_: ev@.type_, handle: *h },
                ));
            }
            el.remove_listener(*h);
            binder.unbinds = binder.unbinds + 1;
        },
        None => {
            warnings.push(Warning::ListenerUnbindMissing);
        },
    }
}

} // verus!
