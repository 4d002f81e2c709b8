//! The dispatch loop: the program owns the authoritative model and the last
//! rendered tree, folds every incoming message into the model through the
//! application's `update`, re-runs its `view`, and reconciles the result
//! against the live document model, collecting the commands the embedder
//! replays against the real document.

use vstd::prelude::*;

use crate::events::{EventData, derive_message};
use crate::html::{
    Attribute, AttributeView, EventClosure, EventToMessage, EventToMessageView, EventFilter, Html,
    HtmlView, Message,
};
use crate::live::{LiveNode, live_node_views};
use crate::patch::Mutation;
use crate::render::{Renderer, live_all_wf, opt_budget, opt_html_view, render};

verus! {

broadcast use vstd::std_specs::vec::group_vec_axioms, vstd::seq::group_seq_axioms;

/// An application: a model, a message type, an input-mapper type, a pure
/// `update` folding a message into the model and a pure `view` rendering
/// the model as a virtual tree.  Both are specified by their mathematical
/// counterparts, so that the dispatch loop's contract can speak of them.
pub trait Application: Sized {
    type Model;

    type Msg: Message;

    type Mapper: EventClosure<Self::Msg>;

    /// What `update` computes.
    spec fn update_spec(msg: <Self::Msg as DeepView>::V, model: Self::Model) -> Self::Model;

    /// What `view` renders.
    spec fn view_spec(model: Self::Model) -> HtmlView<
        <Self::Msg as DeepView>::V,
        <Self::Mapper as DeepView>::V,
    >;

    /// Fold one message into the model.
    fn update(msg: &Self::Msg, model: &mut Self::Model)
        ensures
            *final(model) == Self::update_spec(msg.deep_view(), *old(model)),
    ;

    /// Render the model as a fresh, well-formed virtual tree with every
    /// handle slot empty.
    fn view(model: &Self::Model) -> (t: Html<Self::Msg, Self::Mapper>)
        ensures
            t@ == Self::view_spec(*model),
            t@.wf(),
            t@.unbound(),
    ;
}

/// The policy of the event attribute carrying handle `h`, if the list
/// holds one.
pub open spec fn find_policy_in_attrs<MV, FV>(
    attrs: Seq<AttributeView<MV, FV>>,
    h: u64,
) -> Option<EventToMessageView<MV, FV>>
    decreases attrs,
{
    if attrs.len() == 0 {
        None
    } else {
        if attrs[0] is Event && attrs[0].event().handle == Some(h) {
            Some(attrs[0].event().to_message)
        } else {
            find_policy_in_attrs(attrs.drop_first(), h)
        }
    }
}

/// The policy of the event attribute carrying handle `h` anywhere in the
/// tree, if one does: attributes first, then children left to right.
pub open spec fn find_policy<MV, FV>(t: HtmlView<MV, FV>, h: u64) -> Option<
    EventToMessageView<MV, FV>,
>
    decreases t,
{
    match t {
        HtmlView::Text(_) => None,
        HtmlView::Tag(tag) => match find_policy_in_attrs(tag.attrs, h) {
            Some(p) => Some(p),
            None => find_policy_in_children(tag.children, h),
        },
    }
}

/// The first policy found among the trees of the sequence.
pub open spec fn find_policy_in_children<MV, FV>(s: Seq<HtmlView<MV, FV>>, h: u64) -> Option<
    EventToMessageView<MV, FV>,
>
    decreases s,
{
    if s.len() == 0 {
        None
    } else {
        match find_policy(s[0], h) {
            Some(p) => Some(p),
            None => find_policy_in_children(s.drop_first(), h),
        }
    }
}

/// Find the policy of the event attribute bound with handle `h`.
#[verifier::loop_isolation(false)]
fn find_policy_exec<'a, Msg: Message, F: EventClosure<Msg>>(t: &'a Html<Msg, F>, h: u64) -> (r:
    Option<&'a EventToMessage<Msg, F>>)
    ensures
        match r {
            Some(p) => find_policy(t@, h) == Some(p@),
            None => find_policy(t@, h) is None,
        },
    decreases *t,
{
    match t {
        Html::Text(_) => None,
        Html::Tag(tag) => {
            let ghost avs = crate::html::attr_views(tag.attrs@);
            let n = tag.attrs.len();
            let mut i: usize = 0;
            proof {
                assert(avs.skip(0) =~= avs);
            }
            while i < n
                invariant
                    n == tag.attrs@.len(),
                    i <= n,
                    find_policy_in_attrs(avs.skip(i as int), h) == find_policy_in_attrs(avs, h),
                decreases n - i,
            {
                proof {
                    assert(avs.skip(i as int)[0] == avs[i as int]);
                    assert(avs.skip(i as int).drop_first() =~= avs.skip(i + 1));
                }
                match &tag.attrs[i] {
                    Attribute::Event(e) => {
                        match &e.handle {
                            Some(hh) => {
                                if *hh == h {
                                    proof {
                                        assert(avs[i as int] is Event);
                                        assert(avs[i as int].event().handle == Some(h));
                                    }
                                    return Some(&e.to_message);
                                }
                            },
                            None => {},
                        }
                        proof {
                            assert(!(avs[i as int].event().handle == Some(h)));
                        }
                    },
                    _ => {
                        proof {
                            assert(!(avs[i as int] is Event));
                        }
                    },
                }
                i = i + 1;
            }
            proof {
                assert(avs.skip(n as int) =~= Seq::<AttributeView<Msg::V, F::V>>::empty());
                assert(find_policy_in_attrs(avs, h) is None);
            }
            let ghost cvs = crate::html::html_views(tag.children@);
            let m = tag.children.len();
            let mut j: usize = 0;
            proof {
                crate::html::lemma_html_views(tag.children@);
                assert(cvs.skip(0) =~= cvs);
            }
            while j < m
                invariant
                    m == tag.children@.len(),
                    j <= m,
                    find_policy_in_children(cvs.skip(j as int), h) == find_policy_in_children(
                        cvs,
                        h,
                    ),
                decreases m - j,
            {
                proof {
                    assert(cvs.skip(j as int)[0] == cvs[j as int]);
                    assert(cvs.skip(j as int).drop_first() =~= cvs.skip(j + 1));
                    assert(cvs[j as int] == tag.children@[j as int]@);
                }
                let sub = find_policy_exec(&tag.children[j], h);
                if sub.is_some() {
                    proof {
                        assert(find_policy(cvs[j as int], h) is Some);
                    }
                    return sub;
                }
                j = j + 1;
            }
            proof {
                assert(cvs.skip(m as int) =~= Seq::<HtmlView<Msg::V, F::V>>::empty());
                assert(find_policy_in_children(cvs, h) is None);
            }
            None
        },
    }
}

/// The program: the owner of the authoritative model, of the last rendered
/// tree, of the model of the live document under the mount point, and of
/// the renderer state.  Its single mutation entry point is `dispatch`.
pub struct Program<A: Application> {
    pub current_model: A::Model,
    pub last_tree: Option<Html<A::Msg, A::Mapper>>,
    pub live: Vec<LiveNode>,
    pub renderer: Renderer,
}

impl<A: Application> Program<A> {
    /// The program's invariant: the live document displays the last
    /// rendered tree, whose handle slots are all bound below the next
    /// fresh handle.
    pub open spec fn inv(self) -> bool {
        &&& live_all_wf(live_node_views(self.live@), self.renderer.binder.next_handle)
        &&& match self.last_tree {
            Some(t) => {
                &&& t@.wf()
                &&& t@.bound_below(self.renderer.binder.next_handle)
                &&& self.live@.len() == 1
                &&& crate::live::displays(live_node_views(self.live@)[0], t@)
            },
            None => self.live@.len() == 0,
        }
    }

    /// A program over a fresh, empty mount point, not yet rendered.
    pub fn new(initial: A::Model) -> (r: Program<A>)
        ensures
            r.inv(),
            r.current_model == initial,
            r.last_tree is None,
            r.renderer.binder.next_handle == 0,
            r.renderer.binder.binds == 0,
            r.renderer.binder.unbinds == 0,
            r.renderer.cmds@ == Seq::<Mutation>::empty(),
    {
        let r = Program {
            current_model: initial,
            last_tree: None,
            live: Vec::new(),
            renderer: Renderer::new(),
        };
        proof {
            crate::live::lemma_live_node_views(r.live@);
        }
        r
    }

    /// Re-render the current model and reconcile against the last rendered
    /// tree; the new filled tree becomes the last rendered tree.
    pub fn render(&mut self)
        requires
            old(self).inv(),
            old(self).renderer.binder.next_handle + A::view_spec(
                old(self).current_model,
            ).update_budget() <= u64::MAX,
            old(self).renderer.binder.binds + A::view_spec(
                old(self).current_model,
            ).update_budget() <= u64::MAX,
            old(self).renderer.binder.unbinds + opt_budget(
                opt_html_view(old(self).last_tree),
            ) <= u64::MAX,
        ensures
            final(self).inv(),
            final(self).current_model == old(self).current_model,
            final(self).last_tree matches Some(t) && t@.similar(
                A::view_spec(final(self).current_model),
            ),
            old(self).last_tree matches Some(t) && t@.similar(A::view_spec(old(self).current_model))
                ==> (live_node_views(final(self).live@) == live_node_views(old(self).live@)
                && final(self).renderer.binder == old(self).renderer.binder && final(self).renderer.cmds@ == old(self).renderer.cmds@),
    {
        let tree = A::view(&self.current_model);
        let ghost old_last = self.last_tree;
        let mut last = None;
        core::mem::swap(&mut last, &mut self.last_tree);
        proof {
            assert(last == old_last);
        }
        let res = render(&mut self.live, tree, last, &mut self.renderer);
        match res {
            Ok(filled) => {
                self.last_tree = Some(filled);
            },
            Err(_) => {
                proof {
                    assert(false);
                }
            },
        }
    }

    /// Perform the first mount: render with no previous tree.
    pub fn start(&mut self)
        requires
            old(self).inv(),
            old(self).renderer.binder.next_handle + A::view_spec(
                old(self).current_model,
            ).update_budget() <= u64::MAX,
            old(self).renderer.binder.binds + A::view_spec(
                old(self).current_model,
            ).update_budget() <= u64::MAX,
            old(self).renderer.binder.unbinds + opt_budget(
                opt_html_view(old(self).last_tree),
            ) <= u64::MAX,
        ensures
            final(self).inv(),
            final(self).current_model == old(self).current_model,
            final(self).last_tree matches Some(t) && t@.similar(
                A::view_spec(final(self).current_model),
            ),
    {
        self.render()
    }

    /// The single mutation entry point: fold `message` into the model,
    /// re-render, and reconcile.
    pub fn dispatch(&mut self, message: &A::Msg)
        requires
            old(self).inv(),
            old(self).renderer.binder.next_handle + A::view_spec(
                A::update_spec(message.deep_view(), old(self).current_model),
            ).update_budget() <= u64::MAX,
            old(self).renderer.binder.binds + A::view_spec(
                A::update_spec(message.deep_view(), old(self).current_model),
            ).update_budget() <= u64::MAX,
            old(self).renderer.binder.unbinds + opt_budget(
                opt_html_view(old(self).last_tree),
            ) <= u64::MAX,
        ensures
            final(self).inv(),
            final(self).current_model == A::update_spec(
                message.deep_view(),
                old(self).current_model,
            ),
            final(self).last_tree matches Some(t) && t@.similar(
                A::view_spec(final(self).current_model),
            ),
            (old(self).last_tree matches Some(t) && t@.similar(
                A::view_spec(A::update_spec(message.deep_view(), old(self).current_model)),
            )) ==> (live_node_views(final(self).live@) == live_node_views(old(self).live@)
                && final(self).renderer.binder == old(self).renderer.binder && final(self).renderer.cmds@ == old(self).renderer.cmds@),
    {
        A::update(message, &mut self.current_model);
        self.render()
    }

    /// Take the commands emitted so far, leaving the log empty: what the
    /// embedder replays against the real document after a dispatch.
    pub fn take_commands(&mut self) -> (cmds: Vec<Mutation>)
        ensures
            cmds == old(self).renderer.cmds,
            final(self).renderer.cmds@ == Seq::<Mutation>::empty(),
            final(self).renderer.binder == old(self).renderer.binder,
            final(self).renderer.warnings == old(self).renderer.warnings,
            final(self).current_model == old(self).current_model,
            final(self).last_tree == old(self).last_tree,
            final(self).live == old(self).live,
            old(self).inv() ==> final(self).inv(),
    {
        let mut out: Vec<Mutation> = Vec::new();
        core::mem::swap(&mut out, &mut self.renderer.cmds);
        out
    }

    /// Route one native event firing into the program: look up the policy
    /// of the listener bound with `handle` in the last rendered tree,
    /// derive a message from it, and dispatch the message if one fires.
    pub fn handle_event(&mut self, handle: u64, data: &EventData)
        requires
            old(self).inv(),
            forall|mv: <A::Msg as DeepView>::V|
                old(self).renderer.binder.next_handle + A::view_spec(
                    A::update_spec(mv, old(self).current_model),
                ).update_budget() <= u64::MAX,
            forall|mv: <A::Msg as DeepView>::V|
                old(self).renderer.binder.binds + A::view_spec(
                    A::update_spec(mv, old(self).current_model),
                ).update_budget() <= u64::MAX,
            old(self).renderer.binder.unbinds + opt_budget(
                opt_html_view(old(self).last_tree),
            ) <= u64::MAX,
        ensures
            final(self).inv(),
            match old(self).last_tree {
                None => *final(self) == *old(self),
                Some(t) => match find_policy(t@, handle) {
                    None => *final(self) == *old(self),
                    Some(p) => match p {
                        EventToMessageView::StaticMsg(m) => final(self).current_model
                            == A::update_spec(m, old(self).current_model),
                        EventToMessageView::Input(fv) => final(self).current_model
                            == A::update_spec(
                            A::Mapper::maps(fv, data.value@),
                            old(self).current_model,
                        ),
                        EventToMessageView::WithFilter { msg, filter } => match filter {
                            EventFilter::KeyCode(k) => if data.key_code == k {
                                final(self).current_model == A::update_spec(
                                    msg,
                                    old(self).current_model,
                                )
                            } else {
                                *final(self) == *old(self)
                            },
                        },
                    },
                },
            },
    {
        let msg_opt = match &self.last_tree {
            None => None,
            Some(t) => {
                match find_policy_exec(t, handle) {
                    None => None,
                    Some(policy) => derive_message(policy, data),
                }
            },
        };
        match msg_opt {
            Some(msg) => {
                self.dispatch(&msg);
            },
            None => {},
        }
    }
}

} // verus!
