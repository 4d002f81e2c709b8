//! The reconciler: diffs a previous virtual tree against a new one and
//! patches the live document model, node by node, position by position,
//! emitting the commands an embedder replays against the real document.
//!
//! Removal of stale children is deferred: while one level's child pairs are
//! being diffed, positions scheduled for removal are collected and executed
//! only after the whole level is done, from the highest position down, so
//! that pending positional lookups are never shifted.  (Removing eagerly
//! mid-pass is a known way to mis-index siblings.)

use vstd::prelude::*;

use itertools::{EitherOrBoth, Itertools};

use crate::html::{
    Attribute, AttributeView, Event, EventClosure, EventView, Html, HtmlTag, HtmlTagView,
    HtmlView, Message, attr_views, children_event_budget, children_sizes,
    children_update_budget, contains_match, html_views, lemma_html_views, wf_attrs,
};
use crate::listeners::{Binder, bind_event, unbind_event};
use crate::live::{
    LiveElement, LiveNode, LiveNodeView, assoc_map, attrs_bound_below, displays_attrs,
    distinct_keys, el_listeners_below, event_info, lemma_assoc_map_membership,
    lemma_live_node_views, live_handles_below, live_node_views,
    lemma_assoc_map_index, lemma_tree_listener_map_index, lemma_tree_listener_map_membership,
    lemma_tree_prop_map_index, lemma_tree_prop_map_membership, lemma_tree_style_map_index,
    lemma_tree_style_map_membership, tree_listener_map, tree_prop_map, tree_style_map,
};
use crate::patch::{
    Mutation, MutationView, RenderError, Warning, add_cmds_of, mutation_views, remove_cmds_of,
};

verus! {

broadcast use vstd::std_specs::vec::group_vec_axioms, vstd::seq::group_seq_axioms;

/// One reconciliation pass's working state: the handle allocator and
/// bind/unbind counters, the commands emitted so far, and the warnings
/// recorded so far.
pub struct Renderer {
    pub binder: Binder,
    pub cmds: Vec<Mutation>,
    pub warnings: Vec<Warning>,
}

impl Renderer {
    /// A renderer that has done nothing yet.
    pub fn new() -> (r: Renderer)
        ensures
            r.binder.next_handle == 0,
            r.binder.binds == 0,
            r.binder.unbinds == 0,
            r.cmds@ == Seq::<Mutation>::empty(),
            r.warnings@ == Seq::<Warning>::empty(),
    {
        Renderer { binder: Binder::new(), cmds: Vec::new(), warnings: Vec::new() }
    }
}

/// The names of the property attributes of `olds` that have no matching
/// attribute in `news` and are therefore removed by the diff.
pub open spec fn stale_prop_names<MV, FV>(
    olds: Seq<AttributeView<MV, FV>>,
    news: Seq<AttributeView<MV, FV>>,
) -> Set<Seq<char>> {
    Set::new(
        |k: Seq<char>|
            exists|i: int|
                0 <= i < olds.len() && (#[trigger] olds[i]) is Property && olds[i].prop_name() == k
                    && !contains_match(news, olds[i]),
    )
}

/// The names of the stale style attributes of `olds`.
pub open spec fn stale_style_names<MV, FV>(
    olds: Seq<AttributeView<MV, FV>>,
    news: Seq<AttributeView<MV, FV>>,
) -> Set<Seq<char>> {
    Set::new(
        |k: Seq<char>|
            exists|i: int|
                0 <= i < olds.len() && (#[trigger] olds[i]) is Style && olds[i].style_name() == k
                    && !contains_match(news, olds[i]),
    )
}

/// The handles of the stale bound event attributes of `olds`.
pub open spec fn stale_listener_handles<MV, FV>(
    olds: Seq<AttributeView<MV, FV>>,
    news: Seq<AttributeView<MV, FV>>,
) -> Set<u64> {
    Set::new(
        |h: u64|
            exists|i: int|
                0 <= i < olds.len() && (#[trigger] olds[i]) is Event && olds[i].event().handle
                    == Some(h) && !contains_match(news, olds[i]),
    )
}

/// The removal commands the diff emits for the stale attributes of `olds`,
/// in attribute order.
pub open spec fn stale_remove_cmds<MV, FV>(
    path: Seq<usize>,
    olds: Seq<AttributeView<MV, FV>>,
    news: Seq<AttributeView<MV, FV>>,
) -> Seq<MutationView>
    decreases olds,
{
    if olds.len() == 0 {
        Seq::empty()
    } else {
        stale_remove_cmds(path, olds.drop_last(), news) + (if contains_match(news, olds.last()) {
            Seq::empty()
        } else {
            remove_cmds_of(path, olds.last())
        })
    }
}

/// How many unbind operations the diff performs for `olds` against `news`:
/// one per stale event attribute that holds a handle.
pub open spec fn num_stale_unbinds<MV, FV>(
    olds: Seq<AttributeView<MV, FV>>,
    news: Seq<AttributeView<MV, FV>>,
) -> nat
    decreases olds,
{
    if olds.len() == 0 {
        0
    } else {
        num_stale_unbinds(olds.drop_last(), news) + (if olds.last() is Event && olds.last().event().handle is Some
            && !contains_match(news, olds.last()) {
            1nat
        } else {
            0nat
        })
    }
}

/// Every event attribute of `attrs` holds a handle.
pub open spec fn attrs_events_bound<MV, FV>(attrs: Seq<AttributeView<MV, FV>>) -> bool {
    forall|i: int|
        0 <= i < attrs.len() && (#[trigger] attrs[i]) is Event ==> attrs[i].event().handle is Some
}

/// Find the position of an attribute of `attrs` that is the same attribute
/// as `a` (diff equality, handle slots ignored), if any.
fn find_match<Msg: Message, F: EventClosure<Msg>>(
    attrs: &Vec<Attribute<Msg, F>>,
    a: &Attribute<Msg, F>,
) -> (r: Option<usize>)
    ensures
        match r {
            Some(j) => j < attrs@.len() && attrs@[j as int]@.matches(a@),
            None => !contains_match(attr_views(attrs@), a@),
        },
        r is Some <==> contains_match(attr_views(attrs@), a@),
{
    let n = attrs.len();
    let mut i: usize = 0;
    while i < n
        invariant
            n == attrs@.len(),
            i <= n,
            forall|j: int| 0 <= j < i ==> !(#[trigger] attr_views(attrs@)[j]).matches(a@),
        decreases n - i,
    {
        if attrs[i].matches_attr(a) {
            proof {
                assert(attr_views(attrs@)[i as int].matches(a@));
            }
            return Some(i);
        }
        proof {
            assert(attr_views(attrs@)[i as int] == attrs@[i as int]@);
        }
        i = i + 1;
    }
    None
}

/// Remove one attribute from the live element: delete the property or style
/// it set, or unbind the listener it bound.  A key is inert: removing it
/// touches nothing.
fn remove_attribute<Msg: Message, F: EventClosure<Msg>>(
    el: &mut LiveElement,
    path: &Vec<usize>,
    attr: &Attribute<Msg, F>,
    binder: &mut Binder,
    cmds: &mut Vec<Mutation>,
    warnings: &mut Vec<Warning>,
)
    requires
        old(binder).unbinds < u64::MAX,
        distinct_keys(old(el)@.props),
        distinct_keys(old(el)@.styles),
        distinct_keys(old(el).listener_assoc()),
    ensures
        distinct_keys(final(el)@.props),
        distinct_keys(final(el)@.styles),
        distinct_keys(final(el).listener_assoc()),
        final(el)@.tag == old(el)@.tag,
        final(el)@.children == old(el)@.children,
        assoc_map(final(el)@.props) == (match attr@ {
            AttributeView::Property(k, _) => assoc_map(old(el)@.props).remove(k),
            _ => assoc_map(old(el)@.props),
        }),
        assoc_map(final(el)@.styles) == (match attr@ {
            AttributeView::Style(k, _) => assoc_map(old(el)@.styles).remove(k),
            _ => assoc_map(old(el)@.styles),
        }),
        assoc_map(final(el).listener_assoc()) == (match attr@ {
            AttributeView::Event(e) => match e.handle {
                Some(h) => assoc_map(old(el).listener_assoc()).remove(h),
                None => assoc_map(old(el).listener_assoc()),
            },
            _ => assoc_map(old(el).listener_assoc()),
        }),
        forall|n: u64|
            el_listeners_below(old(el)@.listeners, n) ==> #[trigger] el_listeners_below(
                final(el)@.listeners,
                n,
            ),
        final(binder).next_handle == old(binder).next_handle,
        final(binder).binds == old(binder).binds,
        final(binder).unbinds == old(binder).unbinds + (if attr@ is Event
            && attr@.event().handle is Some {
            1int
        } else {
            0int
        }),
        mutation_views(final(cmds)@) == mutation_views(old(cmds)@) + remove_cmds_of(
            path@,
            attr@,
        ),
        final(warnings)@ == old(warnings)@ + (if attr@ is Event && attr@.event().handle is None {
            seq![Warning::ListenerUnbindMissing]
        } else {
            Seq::empty()
        }),
{
    match attr {
        Attribute::Property(k, _) => {
            el.remove_prop(k);
            let ghost cmds_before = cmds@;
            cmds.push(Mutation::RemoveProperty { node: path.clone(), name: k.clone() });
            proof {
                assert(mutation_views(cmds@) =~= mutation_views(cmds_before) + remove_cmds_of(
                    path@,
                    attr@,
                ));
            }
        },
        Attribute::Style(k, _) => {
            el.remove_style(k);
            let ghost cmds_before = cmds@;
            cmds.push(Mutation::RemoveStyle { node: path.clone(), name: k.clone() });
            proof {
                assert(mutation_views(cmds@) =~= mutation_views(cmds_before) + remove_cmds_of(
                    path@,
                    attr@,
                ));
            }
        },
        Attribute::Key(_) => {
            proof {
                assert(mutation_views(cmds@) =~= mutation_views(cmds@) + remove_cmds_of(
                    path@,
                    attr@,
                ));
            }
        },
        Attribute::Event(e) => {
            unbind_event(el, path, e, binder, cmds, warnings);
            proof {
                match e@.handle {
                    Some(h) => {
                        assert(mutation_views(cmds@) =~= mutation_views(old(cmds)@)
                            + remove_cmds_of(path@, attr@));
                    },
                    None => {
                        assert(mutation_views(cmds@) =~= mutation_views(old(cmds)@)
                            + remove_cmds_of(path@, attr@));
                    },
                }
            }
        },
    }
}

} // verus!

verus! {

/// How extending the processed prefix of `olds` by one attribute extends
/// the stale-attribute bookkeeping.
proof fn lemma_stale_snoc<MV, FV>(
    path: Seq<usize>,
    olds: Seq<AttributeView<MV, FV>>,
    news: Seq<AttributeView<MV, FV>>,
    i: int,
)
    requires
        0 <= i < olds.len(),
    ensures
        stale_prop_names(olds.take(i + 1), news) =~= (if olds[i] is Property && !contains_match(
            news,
            olds[i],
        ) {
            stale_prop_names(olds.take(i), news).insert(olds[i].prop_name())
        } else {
            stale_prop_names(olds.take(i), news)
        }),
        stale_style_names(olds.take(i + 1), news) =~= (if olds[i] is Style && !contains_match(
            news,
            olds[i],
        ) {
            stale_style_names(olds.take(i), news).insert(olds[i].style_name())
        } else {
            stale_style_names(olds.take(i), news)
        }),
        stale_listener_handles(olds.take(i + 1), news) =~= (if olds[i] is Event && olds[
            i].event().handle is Some && !contains_match(news, olds[i]) {
            stale_listener_handles(olds.take(i), news).insert(olds[i].event().handle->0)
        } else {
            stale_listener_handles(olds.take(i), news)
        }),
        stale_remove_cmds(path, olds.take(i + 1), news) == stale_remove_cmds(
            path,
            olds.take(i),
            news,
        ) + (if contains_match(news, olds[i]) {
            Seq::<MutationView>::empty()
        } else {
            remove_cmds_of(path, olds[i])
        }),
        num_stale_unbinds(olds.take(i + 1), news) == num_stale_unbinds(olds.take(i), news) + (
        if olds[i] is Event && olds[i].event().handle is Some && !contains_match(news, olds[i]) {
            1int
        } else {
            0int
        }),
{
    let pre = olds.take(i);
    let ext = olds.take(i + 1);
    assert(ext.drop_last() =~= pre);
    assert(ext.last() == olds[i]);
    assert forall|k: Seq<char>|
        stale_prop_names(ext, news).contains(k) implies (if olds[i] is Property
        && !contains_match(news, olds[i]) {
        stale_prop_names(pre, news).insert(olds[i].prop_name())
    } else {
        stale_prop_names(pre, news)
    }).contains(k) by {
        let j = choose|j: int|
            0 <= j < ext.len() && (#[trigger] ext[j]) is Property && ext[j].prop_name() == k
                && !contains_match(news, ext[j]);
        if j < i {
            assert(pre[j] is Property && pre[j].prop_name() == k && !contains_match(news, pre[j]));
        }
    }
    assert forall|k: Seq<char>|
        (if olds[i] is Property && !contains_match(news, olds[i]) {
            stale_prop_names(pre, news).insert(olds[i].prop_name())
        } else {
            stale_prop_names(pre, news)
        }).contains(k) implies stale_prop_names(ext, news).contains(k) by {
        if stale_prop_names(pre, news).contains(k) {
            let j = choose|j: int|
                0 <= j < pre.len() && (#[trigger] pre[j]) is Property && pre[j].prop_name() == k
                    && !contains_match(news, pre[j]);
            assert(ext[j] is Property && ext[j].prop_name() == k && !contains_match(news, ext[j]));
        } else {
            assert(ext[i] is Property && ext[i].prop_name() == k && !contains_match(news, ext[i]));
        }
    }
    assert forall|k: Seq<char>|
        stale_style_names(ext, news).contains(k) implies (if olds[i] is Style && !contains_match(
        news,
        olds[i],
    ) {
        stale_style_names(pre, news).insert(olds[i].style_name())
    } else {
        stale_style_names(pre, news)
    }).contains(k) by {
        let j = choose|j: int|
            0 <= j < ext.len() && (#[trigger] ext[j]) is Style && ext[j].style_name() == k
                && !contains_match(news, ext[j]);
        if j < i {
            assert(pre[j] is Style && pre[j].style_name() == k && !contains_match(news, pre[j]));
        }
    }
    assert forall|k: Seq<char>|
        (if olds[i] is Style && !contains_match(news, olds[i]) {
            stale_style_names(pre, news).insert(olds[i].style_name())
        } else {
            stale_style_names(pre, news)
        }).contains(k) implies stale_style_names(ext, news).contains(k) by {
        if stale_style_names(pre, news).contains(k) {
            let j = choose|j: int|
                0 <= j < pre.len() && (#[trigger] pre[j]) is Style && pre[j].style_name() == k
                    && !contains_match(news, pre[j]);
            assert(ext[j] is Style && ext[j].style_name() == k && !contains_match(news, ext[j]));
        } else {
            assert(ext[i] is Style && ext[i].style_name() == k && !contains_match(news, ext[i]));
        }
    }
    assert forall|h: u64|
        stale_listener_handles(ext, news).contains(h) implies (if olds[i] is Event && olds[
        i].event().handle is Some && !contains_match(news, olds[i]) {
        stale_listener_handles(pre, news).insert(olds[i].event().handle->0)
    } else {
        stale_listener_handles(pre, news)
    }).contains(h) by {
        let j = choose|j: int|
            0 <= j < ext.len() && (#[trigger] ext[j]) is Event && ext[j].event().handle == Some(h)
                && !contains_match(news, ext[j]);
        if j < i {
            assert(pre[j] is Event && pre[j].event().handle == Some(h) && !contains_match(
                news,
                pre[j],
            ));
        }
    }
    assert forall|h: u64|
        (if olds[i] is Event && olds[i].event().handle is Some && !contains_match(news, olds[i]) {
            stale_listener_handles(pre, news).insert(olds[i].event().handle->0)
        } else {
            stale_listener_handles(pre, news)
        }).contains(h) implies stale_listener_handles(ext, news).contains(h) by {
        if stale_listener_handles(pre, news).contains(h) {
            let j = choose|j: int|
                0 <= j < pre.len() && (#[trigger] pre[j]) is Event && pre[j].event().handle == Some(
                    h,
                ) && !contains_match(news, pre[j]);
            assert(ext[j] is Event && ext[j].event().handle == Some(h) && !contains_match(
                news,
                ext[j],
            ));
        } else {
            assert(ext[i] is Event && ext[i].event().handle == Some(h) && !contains_match(
                news,
                ext[i],
            ));
        }
    }
}

} // verus!

verus! {

/// Remove from the live element every attribute of `old_attrs` that has no
/// matching attribute in `new_attrs`: the first step of the in-place update
/// of an element whose tag is unchanged.
fn remove_stale_attrs<Msg: Message, F: EventClosure<Msg>>(
    el: &mut LiveElement,
    path: &Vec<usize>,
    old_attrs: &Vec<Attribute<Msg, F>>,
    new_attrs: &Vec<Attribute<Msg, F>>,
    binder: &mut Binder,
    cmds: &mut Vec<Mutation>,
    warnings: &mut Vec<Warning>,
)
    requires
        old(binder).unbinds + old_attrs@.len() <= u64::MAX,
        distinct_keys(old(el)@.props),
        distinct_keys(old(el)@.styles),
        distinct_keys(old(el).listener_assoc()),
    ensures
        distinct_keys(final(el)@.props),
        distinct_keys(final(el)@.styles),
        distinct_keys(final(el).listener_assoc()),
        final(el)@.tag == old(el)@.tag,
        final(el)@.children == old(el)@.children,
        assoc_map(final(el)@.props) == assoc_map(old(el)@.props).remove_keys(
            stale_prop_names(attr_views(old_attrs@), attr_views(new_attrs@)),
        ),
        assoc_map(final(el)@.styles) == assoc_map(old(el)@.styles).remove_keys(
            stale_style_names(attr_views(old_attrs@), attr_views(new_attrs@)),
        ),
        assoc_map(final(el).listener_assoc()) == assoc_map(
            old(el).listener_assoc(),
        ).remove_keys(stale_listener_handles(attr_views(old_attrs@), attr_views(new_attrs@))),
        forall|n: u64|
            el_listeners_below(old(el)@.listeners, n) ==> #[trigger] el_listeners_below(
                final(el)@.listeners,
                n,
            ),
        final(binder).next_handle == old(binder).next_handle,
        final(binder).binds == old(binder).binds,
        final(binder).unbinds == old(binder).unbinds + num_stale_unbinds(
            attr_views(old_attrs@),
            attr_views(new_attrs@),
        ),
        mutation_views(final(cmds)@) == mutation_views(old(cmds)@) + stale_remove_cmds(
            path@,
            attr_views(old_attrs@),
            attr_views(new_attrs@),
        ),
        attrs_events_bound(attr_views(old_attrs@)) ==> final(warnings)@ == old(warnings)@,
        (forall|i: int|
            0 <= i < old_attrs@.len() ==> contains_match(
                attr_views(new_attrs@),
                #[trigger] attr_views(old_attrs@)[i],
            )) ==> (*final(el) == *old(el) && *final(binder) == *old(binder) && final(cmds)@ == old(cmds)@ && final(warnings)@ == old(warnings)@),
{
    let ghost ovs = attr_views(old_attrs@);
    let ghost nvs = attr_views(new_attrs@);
    let n = old_attrs.len();
    let mut i: usize = 0;
    proof {
        assert(ovs.take(0) =~= Seq::<AttributeView<Msg::V, F::V>>::empty());
        assert(assoc_map(el@.props) =~= assoc_map(el@.props).remove_keys(
            stale_prop_names(ovs.take(0), nvs),
        ));
        assert(assoc_map(el@.styles) =~= assoc_map(el@.styles).remove_keys(
            stale_style_names(ovs.take(0), nvs),
        ));
        assert(assoc_map(el.listener_assoc()) =~= assoc_map(el.listener_assoc()).remove_keys(
            stale_listener_handles(ovs.take(0), nvs),
        ));
        assert(mutation_views(cmds@) =~= mutation_views(cmds@) + stale_remove_cmds(
            path@,
            ovs.take(0),
            nvs,
        ));
    }
    while i < n
        invariant
            n == old_attrs@.len(),
            i <= n,
            ovs == attr_views(old_attrs@),
            nvs == attr_views(new_attrs@),
            old(binder).unbinds + old_attrs@.len() <= u64::MAX,
            distinct_keys(el@.props),
            distinct_keys(el@.styles),
            distinct_keys(el.listener_assoc()),
            el@.tag == old(el)@.tag,
            el@.children == old(el)@.children,
            assoc_map(el@.props) == assoc_map(old(el)@.props).remove_keys(
                stale_prop_names(ovs.take(i as int), nvs),
            ),
            assoc_map(el@.styles) == assoc_map(old(el)@.styles).remove_keys(
                stale_style_names(ovs.take(i as int), nvs),
            ),
            assoc_map(el.listener_assoc()) == assoc_map(old(el).listener_assoc()).remove_keys(
                stale_listener_handles(ovs.take(i as int), nvs),
            ),
            forall|m: u64|
                el_listeners_below(old(el)@.listeners, m) ==> #[trigger] el_listeners_below(
                    el@.listeners,
                    m,
                ),
            binder.next_handle == old(binder).next_handle,
            binder.binds == old(binder).binds,
            binder.unbinds == old(binder).unbinds + num_stale_unbinds(ovs.take(i as int), nvs),
            num_stale_unbinds(ovs.take(i as int), nvs) <= i,
            mutation_views(cmds@) == mutation_views(old(cmds)@) + stale_remove_cmds(
                path@,
                ovs.take(i as int),
                nvs,
            ),
            attrs_events_bound(ovs) ==> warnings@ == old(warnings)@,
            (forall|k: int| 0 <= k < i ==> contains_match(nvs, #[trigger] ovs[k])) ==> (*el == *old(el) && *binder == *old(binder) && cmds@ == old(cmds)@ && warnings@ == old(warnings)@),
        decreases n - i,
    {
        proof {
            lemma_num_stale_unbinds_le(ovs.take(i as int), nvs);
            lemma_stale_snoc(path@, ovs, nvs, i as int);
            assert(ovs[i as int] == old_attrs@[i as int]@);
        }
        let matched = find_match(new_attrs, &old_attrs[i]);
        if matched.is_none() {
            let ghost props_before = assoc_map(el@.props);
            let ghost styles_before = assoc_map(el@.styles);
            let ghost listeners_before = assoc_map(el.listener_assoc());
            remove_attribute(el, path, &old_attrs[i], binder, cmds, warnings);
            proof {
                match ovs[i as int] {
                    AttributeView::Property(k, _) => {
                        assert(assoc_map(el@.props) =~= assoc_map(old(el)@.props).remove_keys(
                            stale_prop_names(ovs.take(i + 1), nvs),
                        ));
                        assert(assoc_map(el@.styles) =~= assoc_map(old(el)@.styles).remove_keys(
                            stale_style_names(ovs.take(i + 1), nvs),
                        ));
                        assert(assoc_map(el.listener_assoc()) =~= assoc_map(
                            old(el).listener_assoc(),
                        ).remove_keys(stale_listener_handles(ovs.take(i + 1), nvs)));
                    },
                    AttributeView::Style(k, _) => {
                        assert(assoc_map(el@.props) =~= assoc_map(old(el)@.props).remove_keys(
                            stale_prop_names(ovs.take(i + 1), nvs),
                        ));
                        assert(assoc_map(el@.styles) =~= assoc_map(old(el)@.styles).remove_keys(
                            stale_style_names(ovs.take(i + 1), nvs),
                        ));
                        assert(assoc_map(el.listener_assoc()) =~= assoc_map(
                            old(el).listener_assoc(),
                        ).remove_keys(stale_listener_handles(ovs.take(i + 1), nvs)));
                    },
                    AttributeView::Key(_) => {
                        assert(assoc_map(el@.props) =~= assoc_map(old(el)@.props).remove_keys(
                            stale_prop_names(ovs.take(i + 1), nvs),
                        ));
                        assert(assoc_map(el@.styles) =~= assoc_map(old(el)@.styles).remove_keys(
                            stale_style_names(ovs.take(i + 1), nvs),
                        ));
                        assert(assoc_map(el.listener_assoc()) =~= assoc_map(
                            old(el).listener_assoc(),
                        ).remove_keys(stale_listener_handles(ovs.take(i + 1), nvs)));
                    },
                    AttributeView::Event(e) => {
                        assert(assoc_map(el@.props) =~= assoc_map(old(el)@.props).remove_keys(
                            stale_prop_names(ovs.take(i + 1), nvs),
                        ));
                        assert(assoc_map(el@.styles) =~= assoc_map(old(el)@.styles).remove_keys(
                            stale_style_names(ovs.take(i + 1), nvs),
                        ));
                        match e.handle {
                            Some(h) => {
                                assert(assoc_map(el.listener_assoc()) =~= assoc_map(
                                    old(el).listener_assoc(),
                                ).remove_keys(stale_listener_handles(ovs.take(i + 1), nvs)));
                            },
                            None => {
                                assert(ovs[i as int] is Event && ovs[i as int].event().handle
                                    is None);
                                assert(assoc_map(el.listener_assoc()) =~= assoc_map(
                                    old(el).listener_assoc(),
                                ).remove_keys(stale_listener_handles(ovs.take(i + 1), nvs)));
                            },
                        }
                    },
                }
                assert(mutation_views(cmds@) =~= mutation_views(old(cmds)@) + stale_remove_cmds(
                    path@,
                    ovs.take(i + 1),
                    nvs,
                ));
            }
        } else {
            proof {
                assert(contains_match(nvs, ovs[i as int]));
                assert(stale_prop_names(ovs.take(i + 1), nvs) =~= stale_prop_names(
                    ovs.take(i as int),
                    nvs,
                ));
                assert(stale_style_names(ovs.take(i + 1), nvs) =~= stale_style_names(
                    ovs.take(i as int),
                    nvs,
                ));
                assert(stale_listener_handles(ovs.take(i + 1), nvs) =~= stale_listener_handles(
                    ovs.take(i as int),
                    nvs,
                ));
                assert(mutation_views(cmds@) =~= mutation_views(old(cmds)@) + stale_remove_cmds(
                    path@,
                    ovs.take(i + 1),
                    nvs,
                ));
            }
        }
        i = i + 1;
    }
    proof {
        assert(ovs.take(n as int) =~= ovs);
    }
}

/// No more unbinds are scheduled than there are attributes.
proof fn lemma_num_stale_unbinds_le<MV, FV>(
    olds: Seq<AttributeView<MV, FV>>,
    news: Seq<AttributeView<MV, FV>>,
)
    ensures
        num_stale_unbinds(olds, news) <= olds.len(),
    decreases olds,
{
    if olds.len() > 0 {
        lemma_num_stale_unbinds_le(olds.drop_last(), news);
    }
}

} // verus!

verus! {

/// Move the bound listener handles of retained event attributes from the
/// previous tree's attribute list into the matching attributes of the new
/// list, so that re-renders neither rebind nor leak listeners.  No unbind
/// or bind happens here: the handle is transferred.
fn transfer_handles<Msg: Message, F: EventClosure<Msg>>(
    old_attrs: &Vec<Attribute<Msg, F>>,
    new_attrs: &mut Vec<Attribute<Msg, F>>,
    warnings: &mut Vec<Warning>,
)
    requires
        wf_attrs(attr_views(old_attrs@)),
        wf_attrs(attr_views(old(new_attrs)@)),
    ensures
        final(new_attrs)@.len() == old(new_attrs)@.len(),
        forall|j: int|
            0 <= j < old(new_attrs)@.len() && !((#[trigger] attr_views(old(new_attrs)@)[j])
                is Event) ==> final(new_attrs)@[j] == old(new_attrs)@[j],
        forall|j: int|
            0 <= j < old(new_attrs)@.len() && (#[trigger] attr_views(old(new_attrs)@)[j]) is Event
                ==> attr_views(final(new_attrs)@)[j].strip_handle() == attr_views(
                old(new_attrs)@,
            )[j].strip_handle(),
        forall|j: int|
            0 <= j < old(new_attrs)@.len() && (#[trigger] attr_views(old(new_attrs)@)[j]) is Event
                && !contains_match(attr_views(old_attrs@), attr_views(old(new_attrs)@)[j])
                ==> final(new_attrs)@[j] == old(new_attrs)@[j],
        forall|j: int|
            0 <= j < old(new_attrs)@.len() && (#[trigger] attr_views(old(new_attrs)@)[j]) is Event
                && contains_match(attr_views(old_attrs@), attr_views(old(new_attrs)@)[j])
                ==> exists|i: int|
                {
                    &&& 0 <= i < old_attrs@.len()
                    &&& (#[trigger] attr_views(old_attrs@)[i]).matches(
                        attr_views(old(new_attrs)@)[j],
                    )
                    &&& attr_views(final(new_attrs)@)[j].event().handle == (
                    if attr_views(old_attrs@)[i].event().handle is Some {
                        attr_views(old_attrs@)[i].event().handle
                    } else {
                        attr_views(old(new_attrs)@)[j].event().handle
                    })
                },
        (forall|j: int|
            0 <= j < old(new_attrs)@.len() && (#[trigger] attr_views(old(new_attrs)@)[j]) is Event
                ==> attr_views(old(new_attrs)@)[j].event().handle is None) ==> final(warnings)@
            == old(warnings)@,
{
    let ghost ovs = attr_views(old_attrs@);
    let ghost nvs0 = attr_views(old(new_attrs)@);
    let n = old_attrs.len();
    let mut i: usize = 0;
    while i < n
        invariant
            n == old_attrs@.len(),
            i <= n,
            ovs == attr_views(old_attrs@),
            nvs0 == attr_views(old(new_attrs)@),
            wf_attrs(ovs),
            wf_attrs(nvs0),
            new_attrs@.len() == nvs0.len(),
            forall|j: int|
                0 <= j < nvs0.len() && !((#[trigger] nvs0[j]) is Event) ==> new_attrs@[j] == old(new_attrs)@[j],
            forall|j: int|
                0 <= j < nvs0.len() && (#[trigger] nvs0[j]) is Event ==> attr_views(
                    new_attrs@,
                )[j].strip_handle() == nvs0[j].strip_handle(),
            forall|j: int|
                0 <= j < nvs0.len() && (#[trigger] nvs0[j]) is Event && !(exists|k: int|
                    0 <= k < i && (#[trigger] ovs[k]).matches(nvs0[j])) ==> new_attrs@[j] == old(new_attrs)@[j],
            forall|j: int|
                0 <= j < nvs0.len() && (#[trigger] nvs0[j]) is Event && (exists|k: int|
                    0 <= k < i && (#[trigger] ovs[k]).matches(nvs0[j])) ==> exists|k: int|
                    {
                        &&& 0 <= k < i
                        &&& (#[trigger] ovs[k]).matches(nvs0[j])
                        &&& attr_views(new_attrs@)[j].event().handle == (
                        if ovs[k].event().handle is Some {
                            ovs[k].event().handle
                        } else {
                            nvs0[j].event().handle
                        })
                    },
            (forall|j: int|
                0 <= j < nvs0.len() && (#[trigger] nvs0[j]) is Event ==> nvs0[j].event().handle
                    is None) ==> warnings@ == old(warnings)@,
        decreases n - i,
    {
        let old_handle: Option<u64> = match &old_attrs[i] {
            Attribute::Event(e) => e.handle,
            _ => None,
        };
        if old_attrs[i].is_event() && old_handle.is_some() {
            let matched = find_match(new_attrs, &old_attrs[i]);
            if matched.is_none() {
                proof {
                    assert forall|j: int|
                        0 <= j < nvs0.len() && (#[trigger] nvs0[j]) is Event && (exists|k: int|
                            0 <= k < i + 1 && (#[trigger] ovs[k]).matches(nvs0[j])) implies exists|
                        k: int|
                        {
                            &&& 0 <= k < i + 1
                            &&& (#[trigger] ovs[k]).matches(nvs0[j])
                            &&& attr_views(new_attrs@)[j].event().handle == (
                            if ovs[k].event().handle is Some {
                                ovs[k].event().handle
                            } else {
                                nvs0[j].event().handle
                            })
                        } by {
                        let k = choose|k: int|
                            0 <= k < i + 1 && (#[trigger] ovs[k]).matches(nvs0[j]);
                        if k == i {
                            assert(nvs0[j].strip_handle() == attr_views(
                                new_attrs@,
                            )[j].strip_handle());
                            assert(attr_views(new_attrs@)[j].matches(ovs[i as int]));
                            assert(contains_match(attr_views(new_attrs@), ovs[i as int]));
                            assert(false);
                        }
                    }
                }
            }
            if let Some(j0) = matched {
                proof {
                    assert(attr_views(new_attrs@)[j0 as int].matches(ovs[i as int]));
                    assert(nvs0[j0 as int].strip_handle() == attr_views(
                        new_attrs@,
                    )[j0 as int].strip_handle());
                    assert(nvs0[j0 as int].matches(ovs[i as int]));
                    assert(nvs0[j0 as int] is Event);
                    assert(new_attrs@[j0 as int]@ is Event);
                    if exists|k: int| 0 <= k < i && (#[trigger] ovs[k]).matches(nvs0[j0 as int]) {
                        let k = choose|k: int|
                            0 <= k < i && (#[trigger] ovs[k]).matches(nvs0[j0 as int]);
                        assert(ovs[k].matches(ovs[i as int]));
                        assert(ovs[k] is Event && ovs[i as int] is Event);
                        assert(false);
                    }
                }
                let ghost before = new_attrs@;
                let a = new_attrs.remove(j0);
                match a {
                    Attribute::Event(e) => {
                        if e.handle.is_some() {
                            warnings.push(Warning::HandleAlreadyBound);
                        }
                        let filled = Attribute::Event(
                            Event {
                                type_: e.type_,
                                to_message: e.to_message,
                                stop_propagation: e.stop_propagation,
                                prevent_default: e.prevent_default,
                                handle: old_handle,
                            },
                        );
                        new_attrs.insert(j0, filled);
                    },
                    other => {
                        new_attrs.insert(j0, other);
                    },
                }
                proof {
                    assert(new_attrs@.len() == before.len());
                    assert forall|j: int| 0 <= j < nvs0.len() && j != j0 implies new_attrs@[j]
                        == before[j] by {}
                    assert(attr_views(new_attrs@)[j0 as int].strip_handle() == attr_views(
                        before,
                    )[j0 as int].strip_handle());
                    assert forall|j: int|
                        0 <= j < nvs0.len() && (#[trigger] nvs0[j]) is Event && (exists|k: int|
                            0 <= k < i + 1 && (#[trigger] ovs[k]).matches(nvs0[j])) implies exists|
                        k: int|
                        {
                            &&& 0 <= k < i + 1
                            &&& (#[trigger] ovs[k]).matches(nvs0[j])
                            &&& attr_views(new_attrs@)[j].event().handle == (
                            if ovs[k].event().handle is Some {
                                ovs[k].event().handle
                            } else {
                                nvs0[j].event().handle
                            })
                        } by {
                        if j == j0 {
                            assert(ovs[i as int].matches(nvs0[j]));
                            assert(ovs[i as int].event().handle == old_handle);
                            assert(attr_views(new_attrs@)[j].event().handle == old_handle);
                        } else {
                            let k = choose|k: int|
                                0 <= k < i + 1 && (#[trigger] ovs[k]).matches(nvs0[j]);
                            if k == i {
                                assert(ovs[i as int].matches(nvs0[j0 as int]));
                                assert(nvs0[j].matches(nvs0[j0 as int]));
                                assert(nvs0[j] is Event && nvs0[j0 as int] is Event);
                                assert(false);
                            } else {
                                assert(0 <= k < i && ovs[k].matches(nvs0[j]));
                            }
                        }
                    }
                    assert forall|j: int|
                        0 <= j < nvs0.len() && (#[trigger] nvs0[j]) is Event && !(exists|k: int|
                            0 <= k < i + 1 && (#[trigger] ovs[k]).matches(nvs0[j])) implies new_attrs@[j]
                        == old(new_attrs)@[j] by {
                        assert(j != j0);
                        assert(!(exists|k: int| 0 <= k < i && (#[trigger] ovs[k]).matches(nvs0[j])));
                    }
                }
            }
        } else {
            proof {
                if ovs[i as int] is Event {
                    assert forall|j: int|
                        0 <= j < nvs0.len() && (#[trigger] nvs0[j]) is Event && (exists|k: int|
                            0 <= k < i + 1 && (#[trigger] ovs[k]).matches(nvs0[j])) implies exists|
                        k: int|
                        {
                            &&& 0 <= k < i + 1
                            &&& (#[trigger] ovs[k]).matches(nvs0[j])
                            &&& attr_views(new_attrs@)[j].event().handle == (
                            if ovs[k].event().handle is Some {
                                ovs[k].event().handle
                            } else {
                                nvs0[j].event().handle
                            })
                        } by {
                        let k = choose|k: int|
                            0 <= k < i + 1 && (#[trigger] ovs[k]).matches(nvs0[j]);
                        if k == i {
                            assert(ovs[i as int].event().handle is None);
                            assert(new_attrs@[j] == old(new_attrs)@[j]);
                        }
                    }
                }
            }
        }
        i = i + 1;
    }
}

} // verus!

verus! {

/// The properties the diff freshly sets: those of `news` with no matching
/// attribute in `olds`, keyed by name.
pub open spec fn fresh_prop_map<MV, FV>(
    news: Seq<AttributeView<MV, FV>>,
    olds: Seq<AttributeView<MV, FV>>,
) -> Map<Seq<char>, crate::html::PropertyValueView>
    decreases news,
{
    if news.len() == 0 {
        Map::empty()
    } else {
        let rest = fresh_prop_map(news.drop_last(), olds);
        if news.last() is Property && !contains_match(olds, news.last()) {
            match news.last() {
                AttributeView::Property(k, v) => rest.insert(k, v),
                _ => rest,
            }
        } else {
            rest
        }
    }
}

/// The inline styles the diff freshly sets.
pub open spec fn fresh_style_map<MV, FV>(
    news: Seq<AttributeView<MV, FV>>,
    olds: Seq<AttributeView<MV, FV>>,
) -> Map<Seq<char>, Seq<char>>
    decreases news,
{
    if news.len() == 0 {
        Map::empty()
    } else {
        let rest = fresh_style_map(news.drop_last(), olds);
        if news.last() is Style && !contains_match(olds, news.last()) {
            match news.last() {
                AttributeView::Style(k, v) => rest.insert(k, v),
                _ => rest,
            }
        } else {
            rest
        }
    }
}

/// The listeners the diff freshly binds, keyed by the handles the filled
/// attribute list carries.
pub open spec fn fresh_listener_map<MV, FV>(
    filled: Seq<AttributeView<MV, FV>>,
    olds: Seq<AttributeView<MV, FV>>,
) -> Map<u64, crate::live::ListenerInfoView>
    decreases filled,
{
    if filled.len() == 0 {
        Map::empty()
    } else {
        let rest = fresh_listener_map(filled.drop_last(), olds);
        if filled.last() is Event && filled.last().event().handle is Some && !contains_match(
            olds,
            filled.last(),
        ) {
            rest.insert(filled.last().event().handle->0, event_info(filled.last().event()))
        } else {
            rest
        }
    }
}

/// The addition commands the diff emits for the fresh attributes of the
/// filled attribute list, in attribute order.
pub open spec fn fresh_add_cmds<MV, FV>(
    path: Seq<usize>,
    filled: Seq<AttributeView<MV, FV>>,
    olds: Seq<AttributeView<MV, FV>>,
) -> Seq<MutationView>
    decreases filled,
{
    if filled.len() == 0 {
        Seq::empty()
    } else {
        fresh_add_cmds(path, filled.drop_last(), olds) + (if contains_match(
            olds,
            filled.last(),
        ) {
            Seq::empty()
        } else {
            add_cmds_of(path, filled.last())
        })
    }
}

/// How many listeners the diff freshly binds: one per fresh event attribute.
pub open spec fn num_fresh_events<MV, FV>(
    news: Seq<AttributeView<MV, FV>>,
    olds: Seq<AttributeView<MV, FV>>,
) -> nat
    decreases news,
{
    if news.len() == 0 {
        0
    } else {
        num_fresh_events(news.drop_last(), olds) + (if news.last() is Event && !contains_match(
            olds,
            news.last(),
        ) {
            1nat
        } else {
            0nat
        })
    }
}

/// Apply one attribute to the live element: set the property or style it
/// asks for, or bind a listener for it.  A key is inert.  Returns the
/// attribute with its handle slot filled if it is an event attribute.
fn add_attribute<Msg: Message, F: EventClosure<Msg>>(
    el: &mut LiveElement,
    path: &Vec<usize>,
    attr: Attribute<Msg, F>,
    binder: &mut Binder,
    cmds: &mut Vec<Mutation>,
    warnings: &mut Vec<Warning>,
) -> (filled: Attribute<Msg, F>)
    requires
        old(binder).next_handle < u64::MAX,
        old(binder).binds < u64::MAX,
        distinct_keys(old(el)@.props),
        distinct_keys(old(el)@.styles),
        distinct_keys(old(el).listener_assoc()),
        el_listeners_below(old(el)@.listeners, old(binder).next_handle),
    ensures
        distinct_keys(final(el)@.props),
        distinct_keys(final(el)@.styles),
        distinct_keys(final(el).listener_assoc()),
        el_listeners_below(final(el)@.listeners, final(binder).next_handle),
        final(el)@.tag == old(el)@.tag,
        final(el)@.children == old(el)@.children,
        filled@.strip_handle() == attr@.strip_handle(),
        !(attr@ is Event) ==> filled == attr,
        attr@ is Event ==> filled@ == AttributeView::Event(
            EventView { handle: Some(old(binder).next_handle), ..attr@.event() },
        ),
        assoc_map(final(el)@.props) == (match attr@ {
            AttributeView::Property(k, v) => assoc_map(old(el)@.props).insert(k, v),
            _ => assoc_map(old(el)@.props),
        }),
        assoc_map(final(el)@.styles) == (match attr@ {
            AttributeView::Style(k, v) => assoc_map(old(el)@.styles).insert(k, v),
            _ => assoc_map(old(el)@.styles),
        }),
        assoc_map(final(el).listener_assoc()) == (match attr@ {
            AttributeView::Event(_) => assoc_map(old(el).listener_assoc()).insert(
                old(binder).next_handle,
                event_info(attr@.event()),
            ),
            _ => assoc_map(old(el).listener_assoc()),
        }),
        final(binder).next_handle == old(binder).next_handle + (if attr@ is Event {
            1int
        } else {
            0int
        }),
        final(binder).binds == old(binder).binds + (if attr@ is Event {
            1int
        } else {
            0int
        }),
        final(binder).unbinds == old(binder).unbinds,
        mutation_views(final(cmds)@) == mutation_views(old(cmds)@) + add_cmds_of(path@, filled@),
        final(warnings)@ == old(warnings)@ + (if attr@ is Event && attr@.event().handle is Some {
            seq![Warning::HandleAlreadyBound]
        } else {
            Seq::empty()
        }),
{
    match attr {
        Attribute::Property(k, v) => {
            let dup = v.dup();
            el.set_prop(&k, dup);
            let ghost cmds_before = cmds@;
            cmds.push(
                Mutation::SetProperty { node: path.clone(), name: k.clone(), value: v.dup() },
            );
            let filled = Attribute::Property(k, v);
            proof {
                assert(mutation_views(cmds@) =~= mutation_views(cmds_before) + add_cmds_of(
                    path@,
                    filled@,
                ));
            }
            filled
        },
        Attribute::Style(k, v) => {
            el.set_style(&k, &v);
            let ghost cmds_before = cmds@;
            cmds.push(Mutation::SetStyle { node: path.clone(), name: k.clone(), value: v.clone() });
            let filled = Attribute::Style(k, v);
            proof {
                assert(mutation_views(cmds@) =~= mutation_views(cmds_before) + add_cmds_of(
                    path@,
                    filled@,
                ));
            }
            filled
        },
        Attribute::Key(k) => {
            let filled = Attribute::Key(k);
            proof {
                assert(mutation_views(cmds@) =~= mutation_views(cmds@) + add_cmds_of(
                    path@,
                    filled@,
                ));
            }
            filled
        },
        Attribute::Event(e) => {
            let ghost ev_view = e@;
            let filled_event = bind_event(el, path, e, binder, cmds, warnings);
            let filled = Attribute::Event(filled_event);
            proof {
                assert(filled@.event().handle == Some(old(binder).next_handle));
                assert(mutation_views(cmds@) =~= mutation_views(old(cmds)@) + add_cmds_of(
                    path@,
                    filled@,
                ));
            }
            filled
        },
    }
}

} // verus!

verus! {

/// No more listeners are freshly bound than there are attributes.
proof fn lemma_num_fresh_le<MV, FV>(
    news: Seq<AttributeView<MV, FV>>,
    olds: Seq<AttributeView<MV, FV>>,
)
    ensures
        num_fresh_events(news, olds) <= news.len(),
    decreases news,
{
    if news.len() > 0 {
        lemma_num_fresh_le(news.drop_last(), olds);
    }
}

/// Apply to the live element every attribute of `new_attrs` that has no
/// matching attribute in `old_attrs`: the last step of the in-place update.
/// Consumes the attribute list and returns it with fresh event attributes'
/// handle slots filled.
fn add_fresh_attrs<Msg: Message, F: EventClosure<Msg>>(
    el: &mut LiveElement,
    path: &Vec<usize>,
    old_attrs: &Vec<Attribute<Msg, F>>,
    new_attrs: Vec<Attribute<Msg, F>>,
    binder: &mut Binder,
    cmds: &mut Vec<Mutation>,
    warnings: &mut Vec<Warning>,
) -> (filled: Vec<Attribute<Msg, F>>)
    requires
        old(binder).next_handle + new_attrs@.len() <= u64::MAX,
        old(binder).binds + new_attrs@.len() <= u64::MAX,
        distinct_keys(old(el)@.props),
        distinct_keys(old(el)@.styles),
        distinct_keys(old(el).listener_assoc()),
        el_listeners_below(old(el)@.listeners, old(binder).next_handle),
    ensures
        distinct_keys(final(el)@.props),
        distinct_keys(final(el)@.styles),
        distinct_keys(final(el).listener_assoc()),
        el_listeners_below(final(el)@.listeners, final(binder).next_handle),
        final(el)@.tag == old(el)@.tag,
        final(el)@.children == old(el)@.children,
        filled@.len() == new_attrs@.len(),
        forall|j: int|
            0 <= j < new_attrs@.len() ==> (#[trigger] attr_views(filled@)[j]).strip_handle()
                == attr_views(new_attrs@)[j].strip_handle(),
        forall|j: int|
            0 <= j < new_attrs@.len() && !((#[trigger] attr_views(new_attrs@)[j]) is Event
                && !contains_match(attr_views(old_attrs@), attr_views(new_attrs@)[j]))
                ==> filled@[j] == new_attrs@[j],
        forall|j: int|
            0 <= j < new_attrs@.len() && (#[trigger] attr_views(new_attrs@)[j]) is Event
                && !contains_match(attr_views(old_attrs@), attr_views(new_attrs@)[j]) ==> (
            attr_views(filled@)[j].event().handle is Some && old(binder).next_handle <= attr_views(
                filled@,
            )[j].event().handle->0 < final(binder).next_handle),
        assoc_map(final(el)@.props) == assoc_map(old(el)@.props).union_prefer_right(
            fresh_prop_map(attr_views(new_attrs@), attr_views(old_attrs@)),
        ),
        assoc_map(final(el)@.styles) == assoc_map(old(el)@.styles).union_prefer_right(
            fresh_style_map(attr_views(new_attrs@), attr_views(old_attrs@)),
        ),
        assoc_map(final(el).listener_assoc()) == assoc_map(
            old(el).listener_assoc(),
        ).union_prefer_right(fresh_listener_map(attr_views(filled@), attr_views(old_attrs@))),
        mutation_views(final(cmds)@) == mutation_views(old(cmds)@) + fresh_add_cmds(
            path@,
            attr_views(filled@),
            attr_views(old_attrs@),
        ),
        old(binder).next_handle <= final(binder).next_handle <= old(binder).next_handle
            + new_attrs@.len(),
        final(binder).binds == old(binder).binds + num_fresh_events(
            attr_views(new_attrs@),
            attr_views(old_attrs@),
        ),
        final(binder).unbinds == old(binder).unbinds,
        (forall|j: int|
            0 <= j < new_attrs@.len() && (#[trigger] attr_views(new_attrs@)[j]) is Event
                && !contains_match(attr_views(old_attrs@), attr_views(new_attrs@)[j])
                ==> attr_views(new_attrs@)[j].event().handle is None) ==> final(warnings)@ == old(warnings)@,
        forall|j1: int, j2: int|
            0 <= j1 < j2 < new_attrs@.len() && (#[trigger] attr_views(new_attrs@)[j1]) is Event
                && (#[trigger] attr_views(new_attrs@)[j2]) is Event && !contains_match(
                attr_views(old_attrs@),
                attr_views(new_attrs@)[j1],
            ) && !contains_match(attr_views(old_attrs@), attr_views(new_attrs@)[j2]) ==> attr_views(
                filled@,
            )[j1].event().handle->0 < attr_views(filled@)[j2].event().handle->0,
        (forall|k: int|
            0 <= k < new_attrs@.len() ==> contains_match(
                attr_views(old_attrs@),
                #[trigger] attr_views(new_attrs@)[k],
            )) ==> (*final(el) == *old(el) && *final(binder) == *old(binder) && final(cmds)@ == old(cmds)@ && final(warnings)@ == old(warnings)@),
{
    let ghost ovs = attr_views(old_attrs@);
    let ghost nvs0 = attr_views(new_attrs@);
    let ghost orig = new_attrs@;
    let n = new_attrs.len();
    let mut rest = new_attrs;
    let mut filled: Vec<Attribute<Msg, F>> = Vec::new();
    let mut i: usize = 0;
    proof {
        assert(nvs0.take(0) =~= Seq::<AttributeView<Msg::V, F::V>>::empty());
        assert(attr_views(filled@) =~= Seq::<AttributeView<Msg::V, F::V>>::empty());
        assert(assoc_map(el@.props) =~= assoc_map(el@.props).union_prefer_right(
            fresh_prop_map(nvs0.take(0), ovs),
        ));
        assert(assoc_map(el@.styles) =~= assoc_map(el@.styles).union_prefer_right(
            fresh_style_map(nvs0.take(0), ovs),
        ));
        assert(assoc_map(el.listener_assoc()) =~= assoc_map(
            el.listener_assoc(),
        ).union_prefer_right(fresh_listener_map(attr_views(filled@), ovs)));
        assert(mutation_views(cmds@) =~= mutation_views(cmds@) + fresh_add_cmds(
            path@,
            attr_views(filled@),
            ovs,
        ));
    }
    while i < n
        invariant
            n == nvs0.len(),
            i <= n,
            ovs == attr_views(old_attrs@),
            rest@.len() == n - i,
            forall|j: int| 0 <= j < rest@.len() ==> rest@[j] == orig[i + j],
            nvs0 == attr_views(orig),
            old(binder).next_handle + n <= u64::MAX,
            old(binder).binds + n <= u64::MAX,
            filled@.len() == i,
            forall|j: int|
                0 <= j < i ==> (#[trigger] attr_views(filled@)[j]).strip_handle()
                    == nvs0[j].strip_handle(),
            forall|j: int|
                0 <= j < i && !((#[trigger] nvs0[j]) is Event && !contains_match(ovs, nvs0[j]))
                    ==> filled@[j] == orig[j],
            forall|j: int|
                0 <= j < i && (#[trigger] nvs0[j]) is Event && !contains_match(ovs, nvs0[j]) ==> (
                attr_views(filled@)[j].event().handle is Some && old(binder).next_handle
                    <= attr_views(filled@)[j].event().handle->0 < binder.next_handle),
            distinct_keys(el@.props),
            distinct_keys(el@.styles),
            distinct_keys(el.listener_assoc()),
            el_listeners_below(el@.listeners, binder.next_handle),
            el@.tag == old(el)@.tag,
            el@.children == old(el)@.children,
            assoc_map(el@.props) == assoc_map(old(el)@.props).union_prefer_right(
                fresh_prop_map(nvs0.take(i as int), ovs),
            ),
            assoc_map(el@.styles) == assoc_map(old(el)@.styles).union_prefer_right(
                fresh_style_map(nvs0.take(i as int), ovs),
            ),
            assoc_map(el.listener_assoc()) == assoc_map(
                old(el).listener_assoc(),
            ).union_prefer_right(fresh_listener_map(attr_views(filled@), ovs)),
            mutation_views(cmds@) == mutation_views(old(cmds)@) + fresh_add_cmds(
                path@,
                attr_views(filled@),
                ovs,
            ),
            old(binder).next_handle <= binder.next_handle <= old(binder).next_handle + i,
            binder.binds == old(binder).binds + num_fresh_events(nvs0.take(i as int), ovs),
            binder.unbinds == old(binder).unbinds,
            (forall|j: int|
                0 <= j < n && (#[trigger] nvs0[j]) is Event && !contains_match(ovs, nvs0[j])
                    ==> nvs0[j].event().handle is None) ==> warnings@ == old(warnings)@,
            forall|j1: int, j2: int|
                0 <= j1 < j2 < i && (#[trigger] nvs0[j1]) is Event && (#[trigger] nvs0[j2])
                    is Event && !contains_match(ovs, nvs0[j1]) && !contains_match(ovs, nvs0[j2])
                    ==> attr_views(filled@)[j1].event().handle->0 < attr_views(
                    filled@,
                )[j2].event().handle->0,
            (forall|k: int| 0 <= k < i ==> contains_match(ovs, #[trigger] nvs0[k])) ==> (*el
                == *old(el) && *binder == *old(binder) && cmds@ == old(cmds)@ && warnings@ == old(warnings)@),
        decreases n - i,
    {
        proof {
            lemma_num_fresh_le(nvs0.take(i as int), ovs);
            assert(nvs0.take(i + 1).drop_last() =~= nvs0.take(i as int));
            assert(nvs0.take(i + 1).last() == nvs0[i as int]);
            assert(rest@[0] == orig[i as int]);
        }
        let a = rest.remove(0);
        proof {
            assert(a@ == nvs0[i as int]);
        }
        let matched = find_match(old_attrs, &a);
        let ghost filled_views_before = attr_views(filled@);
        if matched.is_none() {
            let fa = add_attribute(el, path, a, binder, cmds, warnings);
            filled.push(fa);
            proof {
                assert(attr_views(filled@) =~= filled_views_before.push(fa@));
                assert(attr_views(filled@).drop_last() =~= filled_views_before);
                assert(fa@.strip_handle() == nvs0[i as int].strip_handle());
                assert forall|k: int|
                    0 <= k < ovs.len() implies ((#[trigger] ovs[k]).matches(fa@) == ovs[k].matches(
                    nvs0[i as int],
                )) by {}
                assert(contains_match(ovs, fa@) == contains_match(ovs, nvs0[i as int]));
                assert(assoc_map(el@.props) =~= assoc_map(old(el)@.props).union_prefer_right(
                    fresh_prop_map(nvs0.take(i + 1), ovs),
                ));
                assert(assoc_map(el@.styles) =~= assoc_map(old(el)@.styles).union_prefer_right(
                    fresh_style_map(nvs0.take(i + 1), ovs),
                ));
                if nvs0[i as int] is Event {
                    assert(event_info(fa@.event()) =~= event_info(nvs0[i as int].event()));
                }
                assert(assoc_map(el.listener_assoc()) =~= assoc_map(
                    old(el).listener_assoc(),
                ).union_prefer_right(fresh_listener_map(attr_views(filled@), ovs)));
                assert(mutation_views(cmds@) =~= mutation_views(old(cmds)@) + fresh_add_cmds(
                    path@,
                    attr_views(filled@),
                    ovs,
                ));
            }
        } else {
            filled.push(a);
            proof {
                assert(attr_views(filled@) =~= filled_views_before.push(nvs0[i as int]));
                assert(attr_views(filled@).drop_last() =~= filled_views_before);
                assert(contains_match(ovs, nvs0[i as int]));
                assert(fresh_prop_map(nvs0.take(i + 1), ovs) =~= fresh_prop_map(
                    nvs0.take(i as int),
                    ovs,
                ));
                assert(fresh_style_map(nvs0.take(i + 1), ovs) =~= fresh_style_map(
                    nvs0.take(i as int),
                    ovs,
                ));
                assert(fresh_listener_map(attr_views(filled@), ovs) =~= fresh_listener_map(
                    filled_views_before,
                    ovs,
                ));
                assert(mutation_views(cmds@) =~= mutation_views(old(cmds)@) + fresh_add_cmds(
                    path@,
                    attr_views(filled@),
                    ovs,
                ));
            }
        }
        i = i + 1;
    }
    proof {
        assert(nvs0.take(n as int) =~= nvs0);
    }
    filled
}

} // verus!

verus! {

/// A name is in the fresh property map exactly when some fresh property
/// attribute carries it.
proof fn lemma_fresh_prop_map_membership<MV, FV>(
    news: Seq<AttributeView<MV, FV>>,
    olds: Seq<AttributeView<MV, FV>>,
    k: Seq<char>,
)
    ensures
        fresh_prop_map(news, olds).contains_key(k) <==> exists|j: int|
            0 <= j < news.len() && (#[trigger] news[j]) is Property && news[j].prop_name() == k
                && !contains_match(olds, news[j]),
    decreases news,
{
    if news.len() > 0 {
        lemma_fresh_prop_map_membership(news.drop_last(), olds, k);
        let last = news.len() - 1;
        if news[last] is Property && news[last].prop_name() == k && !contains_match(
            olds,
            news[last],
        ) {
        } else {
            if fresh_prop_map(news, olds).contains_key(k) {
                let j = choose|j: int|
                    0 <= j < news.drop_last().len() && (#[trigger] news.drop_last()[j]) is Property
                        && news.drop_last()[j].prop_name() == k && !contains_match(
                        olds,
                        news.drop_last()[j],
                    );
                assert(news[j] is Property && news[j].prop_name() == k && !contains_match(
                    olds,
                    news[j],
                ));
            }
            if exists|j: int|
                0 <= j < news.len() && (#[trigger] news[j]) is Property && news[j].prop_name() == k
                    && !contains_match(olds, news[j]) {
                let j = choose|j: int|
                    0 <= j < news.len() && (#[trigger] news[j]) is Property && news[j].prop_name()
                        == k && !contains_match(olds, news[j]);
                assert(news.drop_last()[j] is Property && news.drop_last()[j].prop_name() == k
                    && !contains_match(olds, news.drop_last()[j]));
            }
        }
    }
}

/// Under distinct property names, each fresh property attribute gives the
/// value the fresh map takes at its name.
proof fn lemma_fresh_prop_map_index<MV, FV>(
    news: Seq<AttributeView<MV, FV>>,
    olds: Seq<AttributeView<MV, FV>>,
    j: int,
)
    requires
        crate::live::distinct_prop_names(news),
        0 <= j < news.len(),
        news[j] is Property,
        !contains_match(olds, news[j]),
    ensures
        fresh_prop_map(news, olds).contains_key(news[j].prop_name()),
        news[j] matches AttributeView::Property(k, v) ==> fresh_prop_map(news, olds)[k] == v,
    decreases news,
{
    if j == news.len() - 1 {
    } else {
        assert(news.drop_last()[j] == news[j]);
        lemma_fresh_prop_map_index(news.drop_last(), olds, j);
        if news.last() is Property {
            assert(news[j].prop_name() != news[news.len() - 1].prop_name());
        }
    }
}

/// A name is in the fresh style map exactly when some fresh style
/// attribute carries it.
proof fn lemma_fresh_style_map_membership<MV, FV>(
    news: Seq<AttributeView<MV, FV>>,
    olds: Seq<AttributeView<MV, FV>>,
    k: Seq<char>,
)
    ensures
        fresh_style_map(news, olds).contains_key(k) <==> exists|j: int|
            0 <= j < news.len() && (#[trigger] news[j]) is Style && news[j].style_name() == k
                && !contains_match(olds, news[j]),
    decreases news,
{
    if news.len() > 0 {
        lemma_fresh_style_map_membership(news.drop_last(), olds, k);
        let last = news.len() - 1;
        if news[last] is Style && news[last].style_name() == k && !contains_match(
            olds,
            news[last],
        ) {
        } else {
            if fresh_style_map(news, olds).contains_key(k) {
                let j = choose|j: int|
                    0 <= j < news.drop_last().len() && (#[trigger] news.drop_last()[j]) is Style
                        && news.drop_last()[j].style_name() == k && !contains_match(
                        olds,
                        news.drop_last()[j],
                    );
                assert(news[j] is Style && news[j].style_name() == k && !contains_match(
                    olds,
                    news[j],
                ));
            }
            if exists|j: int|
                0 <= j < news.len() && (#[trigger] news[j]) is Style && news[j].style_name() == k
                    && !contains_match(olds, news[j]) {
                let j = choose|j: int|
                    0 <= j < news.len() && (#[trigger] news[j]) is Style && news[j].style_name()
                        == k && !contains_match(olds, news[j]);
                assert(news.drop_last()[j] is Style && news.drop_last()[j].style_name() == k
                    && !contains_match(olds, news.drop_last()[j]));
            }
        }
    }
}

/// Under distinct style names, each fresh style attribute gives the value
/// the fresh map takes at its name.
proof fn lemma_fresh_style_map_index<MV, FV>(
    news: Seq<AttributeView<MV, FV>>,
    olds: Seq<AttributeView<MV, FV>>,
    j: int,
)
    requires
        crate::live::distinct_style_names(news),
        0 <= j < news.len(),
        news[j] is Style,
        !contains_match(olds, news[j]),
    ensures
        fresh_style_map(news, olds).contains_key(news[j].style_name()),
        news[j] matches AttributeView::Style(k, v) ==> fresh_style_map(news, olds)[k] == v,
    decreases news,
{
    if j == news.len() - 1 {
    } else {
        assert(news.drop_last()[j] == news[j]);
        lemma_fresh_style_map_index(news.drop_last(), olds, j);
        if news.last() is Style {
            assert(news[j].style_name() != news[news.len() - 1].style_name());
        }
    }
}

/// A handle is in the fresh listener map exactly when some fresh bound
/// event attribute carries it.
proof fn lemma_fresh_listener_map_membership<MV, FV>(
    filled: Seq<AttributeView<MV, FV>>,
    olds: Seq<AttributeView<MV, FV>>,
    h: u64,
)
    ensures
        fresh_listener_map(filled, olds).contains_key(h) <==> exists|j: int|
            0 <= j < filled.len() && (#[trigger] filled[j]) is Event && filled[j].event().handle
                == Some(h) && !contains_match(olds, filled[j]),
    decreases filled,
{
    if filled.len() > 0 {
        lemma_fresh_listener_map_membership(filled.drop_last(), olds, h);
        let last = filled.len() - 1;
        if filled[last] is Event && filled[last].event().handle == Some(h) && !contains_match(
            olds,
            filled[last],
        ) {
        } else {
            if fresh_listener_map(filled, olds).contains_key(h) {
                let j = choose|j: int|
                    0 <= j < filled.drop_last().len() && (#[trigger] filled.drop_last()[j])
                        is Event && filled.drop_last()[j].event().handle == Some(h)
                        && !contains_match(olds, filled.drop_last()[j]);
                assert(filled[j] is Event && filled[j].event().handle == Some(h)
                    && !contains_match(olds, filled[j]));
            }
            if exists|j: int|
                0 <= j < filled.len() && (#[trigger] filled[j]) is Event && filled[
                j].event().handle == Some(h) && !contains_match(olds, filled[j]) {
                let j = choose|j: int|
                    0 <= j < filled.len() && (#[trigger] filled[j]) is Event && filled[
                    j].event().handle == Some(h) && !contains_match(olds, filled[j]);
                assert(filled.drop_last()[j] is Event && filled.drop_last()[j].event().handle
                    == Some(h) && !contains_match(olds, filled.drop_last()[j]));
            }
        }
    }
}

/// Under distinct handles, each fresh bound event attribute gives the
/// listener the fresh map takes at its handle.
proof fn lemma_fresh_listener_map_index<MV, FV>(
    filled: Seq<AttributeView<MV, FV>>,
    olds: Seq<AttributeView<MV, FV>>,
    j: int,
)
    requires
        crate::live::distinct_event_handles(filled),
        0 <= j < filled.len(),
        filled[j] is Event,
        filled[j].event().handle is Some,
        !contains_match(olds, filled[j]),
    ensures
        fresh_listener_map(filled, olds).contains_key(filled[j].event().handle->0),
        fresh_listener_map(filled, olds)[filled[j].event().handle->0] == event_info(
            filled[j].event(),
        ),
    decreases filled,
{
    if j == filled.len() - 1 {
    } else {
        assert(filled.drop_last()[j] == filled[j]);
        lemma_fresh_listener_map_index(filled.drop_last(), olds, j);
        if filled.last() is Event {
            assert(filled[j].event().handle != filled[filled.len() - 1].event().handle);
        }
    }
}

} // verus!

verus! {

/// No event attribute of `attrs` holds a handle.
pub open spec fn attrs_events_unbound<MV, FV>(attrs: Seq<AttributeView<MV, FV>>) -> bool {
    forall|i: int|
        0 <= i < attrs.len() && (#[trigger] attrs[i]) is Event ==> attrs[i].event().handle is None
}

/// The fresh-attribute bookkeeping of the diff depends only on attributes
/// up to handle slots.
proof fn lemma_fresh_strip_invariant<MV, FV>(
    tvs: Seq<AttributeView<MV, FV>>,
    nvs: Seq<AttributeView<MV, FV>>,
    olds: Seq<AttributeView<MV, FV>>,
)
    requires
        tvs.len() == nvs.len(),
        forall|j: int|
            0 <= j < nvs.len() ==> (#[trigger] tvs[j]).strip_handle() == nvs[j].strip_handle(),
    ensures
        num_fresh_events(tvs, olds) == num_fresh_events(nvs, olds),
        fresh_prop_map(tvs, olds) == fresh_prop_map(nvs, olds),
        fresh_style_map(tvs, olds) == fresh_style_map(nvs, olds),
    decreases tvs,
{
    if tvs.len() > 0 {
        lemma_fresh_strip_invariant(tvs.drop_last(), nvs.drop_last(), olds);
        let last = tvs.len() - 1;
        assert(tvs.drop_last().len() == nvs.drop_last().len());
        assert(tvs[last].strip_handle() == nvs[last].strip_handle());
        assert forall|k: int|
            0 <= k < olds.len() implies ((#[trigger] olds[k]).matches(tvs[last]) == olds[k].matches(
            nvs[last],
        )) by {}
        assert(contains_match(olds, tvs[last]) == contains_match(olds, nvs[last]));
        if tvs[last] is Property {
            assert(tvs[last] == nvs[last]);
        }
        if tvs[last] is Style {
            assert(tvs[last] == nvs[last]);
        }
    }
}

} // verus!

verus! {

/// The heart of the attribute diff: removing the stale attributes' effects,
/// transferring retained handles, and adding the fresh attributes' effects
/// turns an element that displayed the old attribute list into one that
/// displays the filled new attribute list.
#[verifier::rlimit(60)]
proof fn lemma_diff_attrs_display<MV, FV>(
    ovs: Seq<AttributeView<MV, FV>>,
    nvs: Seq<AttributeView<MV, FV>>,
    tvs: Seq<AttributeView<MV, FV>>,
    fvs: Seq<AttributeView<MV, FV>>,
    next0: u64,
    next1: u64,
)
    requires
        wf_attrs(ovs),
        wf_attrs(nvs),
        attrs_events_unbound(nvs),
        attrs_bound_below(ovs, next0),
        next0 <= next1,
        tvs.len() == nvs.len(),
        fvs.len() == nvs.len(),
        forall|j: int|
            0 <= j < nvs.len() ==> (#[trigger] tvs[j]).strip_handle() == nvs[j].strip_handle(),
        forall|j: int|
            0 <= j < nvs.len() ==> (#[trigger] fvs[j]).strip_handle() == nvs[j].strip_handle(),
        forall|j: int|
            0 <= j < nvs.len() && !((#[trigger] nvs[j]) is Event) ==> tvs[j] == nvs[j],
        forall|j: int|
            0 <= j < nvs.len() && (#[trigger] nvs[j]) is Event && contains_match(ovs, nvs[j])
                ==> exists|i: int|
                0 <= i < ovs.len() && (#[trigger] ovs[i]).matches(nvs[j]) && tvs[j].event().handle
                    == ovs[i].event().handle,
        forall|j: int|
            0 <= j < nvs.len() && (#[trigger] nvs[j]) is Event && !contains_match(ovs, nvs[j])
                ==> tvs[j] == nvs[j],
        forall|j: int|
            0 <= j < nvs.len() && !((#[trigger] tvs[j]) is Event && !contains_match(ovs, tvs[j]))
                ==> fvs[j] == tvs[j],
        forall|j: int|
            0 <= j < nvs.len() && (#[trigger] tvs[j]) is Event && !contains_match(ovs, tvs[j])
                ==> (fvs[j].event().handle is Some && next0 <= fvs[j].event().handle->0 < next1),
        forall|j1: int, j2: int|
            0 <= j1 < j2 < nvs.len() && (#[trigger] tvs[j1]) is Event && (#[trigger] tvs[j2])
                is Event && !contains_match(ovs, tvs[j1]) && !contains_match(ovs, tvs[j2])
                ==> fvs[j1].event().handle->0 < fvs[j2].event().handle->0,
    ensures
        tree_prop_map(ovs).remove_keys(stale_prop_names(ovs, nvs)).union_prefer_right(
            fresh_prop_map(tvs, ovs),
        ) == tree_prop_map(fvs),
        tree_style_map(ovs).remove_keys(stale_style_names(ovs, nvs)).union_prefer_right(
            fresh_style_map(tvs, ovs),
        ) == tree_style_map(fvs),
        tree_listener_map(ovs).remove_keys(stale_listener_handles(ovs, nvs)).union_prefer_right(
            fresh_listener_map(fvs, ovs),
        ) == tree_listener_map(fvs),
        attrs_bound_below(fvs, next1),
{
    // Matching ignores handle slots, so the three views agree on it.
    assert forall|i: int, j: int|
        0 <= i < ovs.len() && 0 <= j < nvs.len() implies ((#[trigger] ovs[i]).matches(
        #[trigger] nvs[j],
    ) == ovs[i].matches(tvs[j]) && ovs[i].matches(nvs[j]) == ovs[i].matches(fvs[j])) by {}
    assert forall|j: int| 0 <= j < nvs.len() implies (contains_match(ovs, #[trigger] nvs[j])
        == contains_match(ovs, tvs[j]) && contains_match(ovs, nvs[j]) == contains_match(
        ovs,
        fvs[j],
    )) by {
        assert forall|i: int|
            0 <= i < ovs.len() implies ((#[trigger] ovs[i]).matches(nvs[j]) == ovs[i].matches(
            tvs[j],
        ) && ovs[i].matches(nvs[j]) == ovs[i].matches(fvs[j])) by {}
    }
    // fvs keeps the variant structure and names of nvs.
    assert forall|j: int| 0 <= j < nvs.len() implies ((#[trigger] fvs[j]) is Property <==> nvs[j]
        is Property) && (fvs[j] is Style <==> nvs[j] is Style) && (fvs[j] is Event <==> nvs[j]
        is Event) by {}
    assert forall|j: int| 0 <= j < nvs.len() && !((#[trigger] nvs[j]) is Event) implies fvs[j]
        == nvs[j] by {}
    assert(crate::live::distinct_prop_names(fvs));
    assert(crate::live::distinct_prop_names(nvs));
    assert(crate::live::distinct_style_names(fvs));
    assert(crate::live::distinct_style_names(nvs));
    // Retained events carry the handle of their unique old counterpart.
    assert forall|j: int|
        0 <= j < nvs.len() && (#[trigger] nvs[j]) is Event && contains_match(ovs, nvs[j]) implies (
    fvs[j].event().handle is Some && fvs[j].event().handle->0 < next0) by {
        let i = choose|i: int|
            0 <= i < ovs.len() && (#[trigger] ovs[i]).matches(nvs[j]) && tvs[j].event().handle
                == ovs[i].event().handle;
        assert(ovs[i] is Event);
        assert(fvs[j] == tvs[j]);
    }
    // Every event attribute of fvs is bound below next1.
    assert forall|j: int|
        0 <= j < fvs.len() && (#[trigger] fvs[j]) is Event implies (fvs[j].event().handle is Some
            && fvs[j].event().handle->0 < next1) by {
        if contains_match(ovs, nvs[j]) {
        } else {
            assert(tvs[j] is Event && !contains_match(ovs, tvs[j]));
        }
    }
    // Handles of distinct event attributes of fvs differ.
    assert forall|j1: int, j2: int|
        0 <= j1 < j2 < fvs.len() && (#[trigger] fvs[j1]) is Event && (#[trigger] fvs[j2])
            is Event implies fvs[j1].event().handle != fvs[j2].event().handle by {
        let m1 = contains_match(ovs, nvs[j1]);
        let m2 = contains_match(ovs, nvs[j2]);
        if m1 && m2 {
            let i1 = choose|i: int|
                0 <= i < ovs.len() && (#[trigger] ovs[i]).matches(nvs[j1]) && tvs[
                j1].event().handle == ovs[i].event().handle;
            let i2 = choose|i: int|
                0 <= i < ovs.len() && (#[trigger] ovs[i]).matches(nvs[j2]) && tvs[
                j2].event().handle == ovs[i].event().handle;
            if i1 == i2 {
                assert(nvs[j1].matches(nvs[j2]));
                assert(false);
            }
            assert(ovs[i1].event().handle != ovs[i2].event().handle);
            assert(fvs[j1] == tvs[j1] && fvs[j2] == tvs[j2]);
        } else if m1 && !m2 {
            assert(fvs[j1] == tvs[j1]);
            assert(fvs[j1].event().handle->0 < next0);
            assert(tvs[j2] is Event && !contains_match(ovs, tvs[j2]));
            assert(fvs[j2].event().handle->0 >= next0);
        } else if !m1 && m2 {
            assert(fvs[j2] == tvs[j2]);
            assert(fvs[j2].event().handle->0 < next0);
            assert(tvs[j1] is Event && !contains_match(ovs, tvs[j1]));
            assert(fvs[j1].event().handle->0 >= next0);
        } else {
            assert(tvs[j1] is Event && !contains_match(ovs, tvs[j1]));
            assert(tvs[j2] is Event && !contains_match(ovs, tvs[j2]));
            assert(fvs[j1].event().handle->0 < fvs[j2].event().handle->0);
        }
    }
    assert(crate::live::distinct_event_handles(fvs));
    // Properties.
    let plhs = tree_prop_map(ovs).remove_keys(stale_prop_names(ovs, nvs)).union_prefer_right(
        fresh_prop_map(tvs, ovs),
    );
    let prhs = tree_prop_map(fvs);
    assert forall|k: Seq<char>| #[trigger] prhs.contains_key(k) implies plhs.contains_key(k)
        && plhs[k] == prhs[k] by {
        lemma_fresh_prop_map_membership(tvs, ovs, k);
        lemma_tree_prop_map_membership(fvs, k);
        lemma_tree_prop_map_membership(ovs, k);
        let j = choose|j: int|
            0 <= j < fvs.len() && (#[trigger] fvs[j]) is Property && fvs[j].prop_name() == k;
        lemma_tree_prop_map_index(fvs, j);
        assert(fvs[j] == nvs[j] && tvs[j] == nvs[j]);
        if contains_match(ovs, nvs[j]) {
            let i = choose|i: int| 0 <= i < ovs.len() && (#[trigger] ovs[i]).matches(nvs[j]);
            assert(ovs[i] == nvs[j]);
            lemma_tree_prop_map_index(ovs, i);
            assert(!stale_prop_names(ovs, nvs).contains(k)) by {
                if stale_prop_names(ovs, nvs).contains(k) {
                    let i2 = choose|i2: int|
                        0 <= i2 < ovs.len() && (#[trigger] ovs[i2]) is Property && ovs[
                        i2].prop_name() == k && !contains_match(nvs, ovs[i2]);
                    assert(false);
                }
            }
            assert(!fresh_prop_map(tvs, ovs).contains_key(k)) by {
                if fresh_prop_map(tvs, ovs).contains_key(k) {
                    let j2 = choose|j2: int|
                        0 <= j2 < tvs.len() && (#[trigger] tvs[j2]) is Property && tvs[
                        j2].prop_name() == k && !contains_match(ovs, tvs[j2]);
                    assert(nvs[j2] is Property && nvs[j2].prop_name() == k);
                    assert(j2 == j);
                    assert(false);
                }
            }
            assert(tree_prop_map(ovs).remove_keys(stale_prop_names(ovs, nvs)).contains_key(k));
            assert(plhs.contains_key(k));
            assert(plhs[k] == tree_prop_map(ovs)[k]);
        } else {
            lemma_fresh_prop_map_index(tvs, ovs, j);
            assert(fresh_prop_map(tvs, ovs).contains_key(k));
            assert(plhs[k] == fresh_prop_map(tvs, ovs)[k]);
        }
    }
    assert forall|k: Seq<char>| #[trigger] plhs.contains_key(k) implies prhs.contains_key(k) by {
        lemma_fresh_prop_map_membership(tvs, ovs, k);
        lemma_tree_prop_map_membership(fvs, k);
        lemma_tree_prop_map_membership(ovs, k);
        if fresh_prop_map(tvs, ovs).contains_key(k) {
            let j = choose|j: int|
                0 <= j < tvs.len() && (#[trigger] tvs[j]) is Property && tvs[j].prop_name() == k
                    && !contains_match(ovs, tvs[j]);
            assert(fvs[j] is Property && fvs[j].prop_name() == k);
        } else {
            assert(tree_prop_map(ovs).contains_key(k) && !stale_prop_names(ovs, nvs).contains(k));
            let i = choose|i: int|
                0 <= i < ovs.len() && (#[trigger] ovs[i]) is Property && ovs[i].prop_name() == k;
            assert(contains_match(nvs, ovs[i]));
            let j = choose|j: int| 0 <= j < nvs.len() && (#[trigger] nvs[j]).matches(ovs[i]);
            assert(nvs[j] == ovs[i]);
            assert(fvs[j] is Property && fvs[j].prop_name() == k);
        }
    }
    assert(plhs =~= prhs);
    // Styles.
    let slhs = tree_style_map(ovs).remove_keys(stale_style_names(ovs, nvs)).union_prefer_right(
        fresh_style_map(tvs, ovs),
    );
    let srhs = tree_style_map(fvs);
    assert forall|k: Seq<char>| #[trigger] srhs.contains_key(k) implies slhs.contains_key(k)
        && slhs[k] == srhs[k] by {
        lemma_fresh_style_map_membership(tvs, ovs, k);
        lemma_tree_style_map_membership(fvs, k);
        lemma_tree_style_map_membership(ovs, k);
        let j = choose|j: int|
            0 <= j < fvs.len() && (#[trigger] fvs[j]) is Style && fvs[j].style_name() == k;
        lemma_tree_style_map_index(fvs, j);
        assert(fvs[j] == nvs[j] && tvs[j] == nvs[j]);
        if contains_match(ovs, nvs[j]) {
            let i = choose|i: int| 0 <= i < ovs.len() && (#[trigger] ovs[i]).matches(nvs[j]);
            assert(ovs[i] == nvs[j]);
            lemma_tree_style_map_index(ovs, i);
            assert(!stale_style_names(ovs, nvs).contains(k)) by {
                if stale_style_names(ovs, nvs).contains(k) {
                    let i2 = choose|i2: int|
                        0 <= i2 < ovs.len() && (#[trigger] ovs[i2]) is Style && ovs[
                        i2].style_name() == k && !contains_match(nvs, ovs[i2]);
                    assert(false);
                }
            }
            assert(!fresh_style_map(tvs, ovs).contains_key(k)) by {
                if fresh_style_map(tvs, ovs).contains_key(k) {
                    let j2 = choose|j2: int|
                        0 <= j2 < tvs.len() && (#[trigger] tvs[j2]) is Style && tvs[
                        j2].style_name() == k && !contains_match(ovs, tvs[j2]);
                    assert(nvs[j2] is Style && nvs[j2].style_name() == k);
                    assert(j2 == j);
                    assert(false);
                }
            }
            assert(tree_style_map(ovs).remove_keys(stale_style_names(ovs, nvs)).contains_key(k));
            assert(slhs.contains_key(k));
            assert(slhs[k] == tree_style_map(ovs)[k]);
        } else {
            lemma_fresh_style_map_index(tvs, ovs, j);
            assert(fresh_style_map(tvs, ovs).contains_key(k));
            assert(slhs[k] == fresh_style_map(tvs, ovs)[k]);
        }
    }
    assert forall|k: Seq<char>| #[trigger] slhs.contains_key(k) implies srhs.contains_key(k) by {
        lemma_fresh_style_map_membership(tvs, ovs, k);
        lemma_tree_style_map_membership(fvs, k);
        lemma_tree_style_map_membership(ovs, k);
        if fresh_style_map(tvs, ovs).contains_key(k) {
            let j = choose|j: int|
                0 <= j < tvs.len() && (#[trigger] tvs[j]) is Style && tvs[j].style_name() == k
                    && !contains_match(ovs, tvs[j]);
            assert(fvs[j] is Style && fvs[j].style_name() == k);
        } else {
            assert(tree_style_map(ovs).contains_key(k) && !stale_style_names(ovs, nvs).contains(k));
            let i = choose|i: int|
                0 <= i < ovs.len() && (#[trigger] ovs[i]) is Style && ovs[i].style_name() == k;
            assert(contains_match(nvs, ovs[i]));
            let j = choose|j: int| 0 <= j < nvs.len() && (#[trigger] nvs[j]).matches(ovs[i]);
            assert(nvs[j] == ovs[i]);
            assert(fvs[j] is Style && fvs[j].style_name() == k);
        }
    }
    assert(slhs =~= srhs);
    // Listeners.
    let llhs = tree_listener_map(ovs).remove_keys(
        stale_listener_handles(ovs, nvs),
    ).union_prefer_right(fresh_listener_map(fvs, ovs));
    let lrhs = tree_listener_map(fvs);
    assert forall|h: u64| #[trigger] lrhs.contains_key(h) implies llhs.contains_key(h) && llhs[h]
        == lrhs[h] by {
        lemma_fresh_listener_map_membership(fvs, ovs, h);
        lemma_tree_listener_map_membership(fvs, h);
        lemma_tree_listener_map_membership(ovs, h);
        let j = choose|j: int|
            0 <= j < fvs.len() && (#[trigger] fvs[j]) is Event && fvs[j].event().handle == Some(h);
        lemma_tree_listener_map_index(fvs, j);
        if contains_match(ovs, nvs[j]) {
            let i = choose|i: int|
                0 <= i < ovs.len() && (#[trigger] ovs[i]).matches(nvs[j]) && tvs[j].event().handle
                    == ovs[i].event().handle;
            assert(fvs[j] == tvs[j]);
            assert(ovs[i] is Event && ovs[i].event().handle == Some(h));
            assert(h < next0);
            lemma_tree_listener_map_index(ovs, i);
            assert(nvs[j].matches(ovs[i]));
            assert(contains_match(nvs, ovs[i]));
            assert(!stale_listener_handles(ovs, nvs).contains(h)) by {
                if stale_listener_handles(ovs, nvs).contains(h) {
                    let i2 = choose|i2: int|
                        0 <= i2 < ovs.len() && (#[trigger] ovs[i2]) is Event && ovs[
                        i2].event().handle == Some(h) && !contains_match(nvs, ovs[i2]);
                    assert(i2 == i);
                    assert(false);
                }
            }
            assert(!fresh_listener_map(fvs, ovs).contains_key(h)) by {
                if fresh_listener_map(fvs, ovs).contains_key(h) {
                    let j2 = choose|j2: int|
                        0 <= j2 < fvs.len() && (#[trigger] fvs[j2]) is Event && fvs[
                        j2].event().handle == Some(h) && !contains_match(ovs, fvs[j2]);
                    assert(j2 == j);
                    assert(contains_match(ovs, fvs[j]));
                    assert(false);
                }
            }
            assert(llhs.contains_key(h));
            assert(llhs[h] == tree_listener_map(ovs)[h]);
            assert(ovs[i].event().strip_handle() == nvs[j].event().strip_handle());
            assert(fvs[j].event().strip_handle() == nvs[j].event().strip_handle());
            assert(event_info(ovs[i].event()) =~= event_info(fvs[j].event()));
        } else {
            assert(!contains_match(ovs, fvs[j]));
            lemma_fresh_listener_map_index(fvs, ovs, j);
            assert(fresh_listener_map(fvs, ovs).contains_key(h));
            assert(llhs[h] == fresh_listener_map(fvs, ovs)[h]);
        }
    }
    assert forall|h: u64| #[trigger] llhs.contains_key(h) implies lrhs.contains_key(h) by {
        lemma_fresh_listener_map_membership(fvs, ovs, h);
        lemma_tree_listener_map_membership(fvs, h);
        lemma_tree_listener_map_membership(ovs, h);
        if fresh_listener_map(fvs, ovs).contains_key(h) {
        } else {
            assert(tree_listener_map(ovs).contains_key(h) && !stale_listener_handles(
                ovs,
                nvs,
            ).contains(h));
            let i = choose|i: int|
                0 <= i < ovs.len() && (#[trigger] ovs[i]) is Event && ovs[i].event().handle
                    == Some(h);
            assert(contains_match(nvs, ovs[i])) by {
                if !contains_match(nvs, ovs[i]) {
                    assert(stale_listener_handles(ovs, nvs).contains(h));
                    assert(false);
                }
            }
            let j = choose|j: int| 0 <= j < nvs.len() && (#[trigger] nvs[j]).matches(ovs[i]);
            assert(nvs[j] is Event);
            assert(ovs[i].matches(nvs[j]));
            assert(contains_match(ovs, nvs[j]));
            let i2 = choose|i2: int|
                0 <= i2 < ovs.len() && (#[trigger] ovs[i2]).matches(nvs[j]) && tvs[
                j].event().handle == ovs[i2].event().handle;
            assert(ovs[i2].matches(ovs[i]));
            if i2 != i {
                assert(false);
            }
            assert(fvs[j] == tvs[j]);
            assert(fvs[j].event().handle == Some(h));
        }
    }
    assert(llhs =~= lrhs);
}

} // verus!

verus! {

/// Diff two attribute lists against the live element whose tag is
/// unchanged: remove every stale attribute, transfer the handles of
/// retained event attributes, then add every fresh attribute.  Consumes
/// both lists and returns the new one with every event attribute's handle
/// slot filled.
#[verifier::rlimit(60)]
pub fn diff_attrs<Msg: Message, F: EventClosure<Msg>>(
    el: &mut LiveElement,
    path: &Vec<usize>,
    old_attrs: Vec<Attribute<Msg, F>>,
    new_attrs: Vec<Attribute<Msg, F>>,
    binder: &mut Binder,
    cmds: &mut Vec<Mutation>,
    warnings: &mut Vec<Warning>,
) -> (filled: Vec<Attribute<Msg, F>>)
    requires
        wf_attrs(attr_views(old_attrs@)),
        wf_attrs(attr_views(new_attrs@)),
        attrs_events_unbound(attr_views(new_attrs@)),
        old(binder).next_handle + new_attrs@.len() <= u64::MAX,
        old(binder).binds + new_attrs@.len() <= u64::MAX,
        old(binder).unbinds + old_attrs@.len() <= u64::MAX,
        distinct_keys(old(el)@.props),
        distinct_keys(old(el)@.styles),
        distinct_keys(old(el).listener_assoc()),
        el_listeners_below(old(el)@.listeners, old(binder).next_handle),
    ensures
        distinct_keys(final(el)@.props),
        distinct_keys(final(el)@.styles),
        distinct_keys(final(el).listener_assoc()),
        el_listeners_below(final(el)@.listeners, final(binder).next_handle),
        final(el)@.tag == old(el)@.tag,
        final(el)@.children == old(el)@.children,
        filled@.len() == new_attrs@.len(),
        forall|j: int|
            0 <= j < new_attrs@.len() ==> (#[trigger] attr_views(filled@)[j]).strip_handle()
                == attr_views(new_attrs@)[j].strip_handle(),
        forall|j: int|
            0 <= j < new_attrs@.len() && !((#[trigger] attr_views(new_attrs@)[j]) is Event)
                ==> filled@[j] == new_attrs@[j],
        forall|j: int|
            0 <= j < new_attrs@.len() && (#[trigger] attr_views(new_attrs@)[j]) is Event
                && contains_match(attr_views(old_attrs@), attr_views(new_attrs@)[j])
                ==> exists|i: int|
                0 <= i < old_attrs@.len() && (#[trigger] attr_views(old_attrs@)[i]).matches(
                    attr_views(new_attrs@)[j],
                ) && attr_views(filled@)[j].event().handle == attr_views(
                    old_attrs@,
                )[i].event().handle,
        forall|j: int|
            0 <= j < new_attrs@.len() && (#[trigger] attr_views(new_attrs@)[j]) is Event
                && !contains_match(attr_views(old_attrs@), attr_views(new_attrs@)[j]) ==> (
            attr_views(filled@)[j].event().handle is Some && old(binder).next_handle <= attr_views(
                filled@,
            )[j].event().handle->0 < final(binder).next_handle),
        mutation_views(final(cmds)@) == mutation_views(old(cmds)@) + stale_remove_cmds(
            path@,
            attr_views(old_attrs@),
            attr_views(new_attrs@),
        ) + fresh_add_cmds(path@, attr_views(filled@), attr_views(old_attrs@)),
        final(binder).binds == old(binder).binds + num_fresh_events(
            attr_views(new_attrs@),
            attr_views(old_attrs@),
        ),
        final(binder).unbinds == old(binder).unbinds + num_stale_unbinds(
            attr_views(old_attrs@),
            attr_views(new_attrs@),
        ),
        old(binder).next_handle <= final(binder).next_handle <= old(binder).next_handle
            + new_attrs@.len(),
        (old_attrs@.len() == new_attrs@.len() && (forall|j: int|
            0 <= j < old_attrs@.len() ==> (#[trigger] attr_views(old_attrs@)[j]).matches(
                attr_views(new_attrs@)[j],
            ))) ==> (*final(el) == *old(el) && *final(binder) == *old(binder) && final(cmds)@
            == old(cmds)@ && final(warnings)@ == old(warnings)@ && attr_views(filled@)
            == attr_views(old_attrs@)),
        (displays_attrs(old(el)@, attr_views(old_attrs@)) && attrs_bound_below(
            attr_views(old_attrs@),
            old(binder).next_handle,
        )) ==> (displays_attrs(final(el)@, attr_views(filled@)) && attrs_bound_below(
            attr_views(filled@),
            final(binder).next_handle,
        ) && final(warnings)@ == old(warnings)@),
{
    let ghost ovs = attr_views(old_attrs@);
    let ghost nvs = attr_views(new_attrs@);
    let ghost el0 = *el;
    let ghost binder0 = *binder;
    let ghost cmds0 = cmds@;
    let ghost warnings0 = warnings@;
    remove_stale_attrs(el, path, &old_attrs, &new_attrs, binder, cmds, warnings);
    let ghost el1 = *el;
    let mut transferred = new_attrs;
    transfer_handles(&old_attrs, &mut transferred, warnings);
    let ghost tvs = attr_views(transferred@);
    proof {
        // The transferred list agrees with the new list up to handle slots.
        assert forall|j: int| 0 <= j < nvs.len() implies (#[trigger] tvs[j]).strip_handle()
            == nvs[j].strip_handle() by {
            if nvs[j] is Event {
            } else {
                assert(transferred@[j] == new_attrs@[j]);
            }
        }
        assert forall|j: int| 0 <= j < nvs.len() implies (contains_match(ovs, #[trigger] tvs[j])
            == contains_match(ovs, nvs[j]) && (tvs[j] is Event <==> nvs[j] is Event)) by {
            assert forall|i: int|
                0 <= i < ovs.len() implies ((#[trigger] ovs[i]).matches(tvs[j]) == ovs[i].matches(
                nvs[j],
            )) by {}
        }
        // Fresh event attributes are still unbound after the transfer.
        assert forall|j: int|
            0 <= j < tvs.len() && (#[trigger] tvs[j]) is Event && !contains_match(
                ovs,
                tvs[j],
            ) implies tvs[j].event().handle is None by {
            assert(transferred@[j] == new_attrs@[j]);
        }
        assert(wf_attrs(tvs)) by {
            assert forall|i: int, j: int|
                0 <= i < j < tvs.len() && tvs[i] is Property && tvs[j] is Property implies (
                #[trigger] tvs[i].prop_name()) != (#[trigger] tvs[j].prop_name()) by {
                assert(nvs[i].prop_name() == tvs[i].prop_name());
                assert(nvs[j].prop_name() == tvs[j].prop_name());
            }
            assert forall|i: int, j: int|
                0 <= i < j < tvs.len() && tvs[i] is Style && tvs[j] is Style implies (
                #[trigger] tvs[i].style_name()) != (#[trigger] tvs[j].style_name()) by {
                assert(nvs[i].style_name() == tvs[i].style_name());
                assert(nvs[j].style_name() == tvs[j].style_name());
            }
            assert forall|i: int, j: int|
                0 <= i < j < tvs.len() && tvs[i] is Event && tvs[j] is Event implies !(
                #[trigger] tvs[i]).matches(#[trigger] tvs[j]) by {
                assert(!nvs[i].matches(nvs[j]));
            }
        }
    }
    let filled = add_fresh_attrs(el, path, &old_attrs, transferred, binder, cmds, warnings);
    let ghost fvs = attr_views(filled@);
    proof {
        lemma_fresh_strip_invariant(tvs, nvs, ovs);
        assert forall|j: int| 0 <= j < nvs.len() implies (#[trigger] fvs[j]).strip_handle()
            == nvs[j].strip_handle() by {}
        assert forall|j: int| 0 <= j < nvs.len() implies (contains_match(ovs, #[trigger] fvs[j])
            == contains_match(ovs, nvs[j])) by {
            assert forall|i: int|
                0 <= i < ovs.len() implies ((#[trigger] ovs[i]).matches(fvs[j]) == ovs[i].matches(
                nvs[j],
            )) by {}
        }
        // Non-events come through both phases untouched.
        assert forall|j: int|
            0 <= j < nvs.len() && !((#[trigger] nvs[j]) is Event) implies filled@[j]
            == new_attrs@[j] by {
            assert(transferred@[j] == new_attrs@[j]);
            assert(tvs[j] == nvs[j]);
            assert(!(tvs[j] is Event));
            assert(filled@[j] == transferred@[j]);
        }
        // Retained events carry their old counterpart's handle.
        assert forall|j: int|
            0 <= j < nvs.len() && (#[trigger] nvs[j]) is Event && contains_match(
                ovs,
                nvs[j],
            ) implies exists|i: int|
            0 <= i < ovs.len() && (#[trigger] ovs[i]).matches(nvs[j]) && fvs[j].event().handle
                == ovs[i].event().handle by {
            let i = choose|i: int|
                {
                    &&& 0 <= i < ovs.len()
                    &&& (#[trigger] ovs[i]).matches(nvs[j])
                    &&& tvs[j].event().handle == (if ovs[i].event().handle is Some {
                        ovs[i].event().handle
                    } else {
                        nvs[j].event().handle
                    })
                };
            assert(nvs[j].event().handle is None);
            assert(tvs[j].event().handle == ovs[i].event().handle);
            assert(filled@[j] == transferred@[j]);
            assert(ovs[i].matches(nvs[j]) && fvs[j].event().handle == ovs[i].event().handle);
        }
    }
    proof {
        // The no-change case: every attribute is retained, none is fresh.
        if ovs.len() == nvs.len() && (forall|j: int|
            0 <= j < ovs.len() ==> (#[trigger] ovs[j]).matches(nvs[j])) {
            assert forall|i: int| 0 <= i < ovs.len() implies contains_match(
                nvs,
                #[trigger] ovs[i],
            ) by {
                assert(nvs[i].matches(ovs[i]));
            }
            assert forall|k: int| 0 <= k < tvs.len() implies contains_match(
                ovs,
                #[trigger] tvs[k],
            ) by {
                assert(ovs[k].matches(nvs[k]));
                assert(contains_match(ovs, nvs[k]));
            }
            assert(*el == el0);
            assert(*binder == binder0);
            assert(cmds@ == cmds0);
            assert(warnings@ == warnings0);
            assert forall|j: int| 0 <= j < nvs.len() implies #[trigger] fvs[j] == ovs[j] by {
                assert(ovs[j].matches(nvs[j]));
                if nvs[j] is Event {
                    assert(contains_match(ovs, nvs[j])) by {
                        assert(ovs[j].matches(nvs[j]));
                    }
                    let i = choose|i: int|
                        0 <= i < ovs.len() && (#[trigger] ovs[i]).matches(nvs[j])
                            && fvs[j].event().handle == ovs[i].event().handle;
                    if i != j {
                        assert(ovs[i].matches(ovs[j]));
                        assert(ovs[i] is Event && ovs[j] is Event);
                        assert(false);
                    }
                    assert(fvs[j].event().handle == ovs[j].event().handle);
                    assert(fvs[j].strip_handle() == ovs[j].strip_handle());
                    assert(fvs[j].event() =~= ovs[j].event());
                    assert(fvs[j] == ovs[j]);
                } else {
                    assert(fvs[j] == nvs[j]);
                    assert(ovs[j].strip_handle() == nvs[j].strip_handle());
                    assert(ovs[j] == nvs[j]);
                }
            }
            assert(fvs =~= ovs);
        }
        // The display case: a consistent element ends up displaying the
        // filled attribute list.
        if displays_attrs(el0@, ovs) && attrs_bound_below(ovs, binder0.next_handle) {
            assert forall|j: int|
                0 <= j < nvs.len() && (#[trigger] nvs[j]) is Event && contains_match(
                    ovs,
                    nvs[j],
                ) implies exists|i: int|
                0 <= i < ovs.len() && (#[trigger] ovs[i]).matches(nvs[j]) && tvs[j].event().handle
                    == ovs[i].event().handle by {
                let i = choose|i: int|
                    {
                        &&& 0 <= i < ovs.len()
                        &&& (#[trigger] ovs[i]).matches(nvs[j])
                        &&& tvs[j].event().handle == (if ovs[i].event().handle is Some {
                            ovs[i].event().handle
                        } else {
                            nvs[j].event().handle
                        })
                    };
                assert(nvs[j].event().handle is None);
                assert(tvs[j].event().handle == ovs[i].event().handle);
            }
            lemma_diff_attrs_display(
                ovs,
                nvs,
                tvs,
                fvs,
                binder0.next_handle,
                binder.next_handle,
            );
            assert(attrs_events_bound(ovs));
            assert(warnings@ == warnings0);
            assert(assoc_map(el@.props) == tree_prop_map(fvs));
            assert(assoc_map(el@.styles) == tree_style_map(fvs));
            assert(assoc_map(crate::live::listener_pairs(el@.listeners)) == tree_listener_map(
                fvs,
            )) by {
                assert(el.listener_assoc() == crate::live::listener_pairs(el@.listeners));
            }
        }
    }
    filled
}

} // verus!

verus! {

/// Apply one attribute while a node is being built off-tree: as
/// `add_attribute`, but no command is emitted, because the built node
/// travels whole inside the append or replace command that will insert it.
fn apply_attribute<Msg: Message, F: EventClosure<Msg>>(
    el: &mut LiveElement,
    attr: Attribute<Msg, F>,
    binder: &mut Binder,
    warnings: &mut Vec<Warning>,
) -> (filled: Attribute<Msg, F>)
    requires
        attr@ is Event ==> old(binder).next_handle < u64::MAX && old(binder).binds < u64::MAX,
        distinct_keys(old(el)@.props),
        distinct_keys(old(el)@.styles),
        distinct_keys(old(el).listener_assoc()),
        el_listeners_below(old(el)@.listeners, old(binder).next_handle),
    ensures
        distinct_keys(final(el)@.props),
        distinct_keys(final(el)@.styles),
        distinct_keys(final(el).listener_assoc()),
        el_listeners_below(final(el)@.listeners, final(binder).next_handle),
        final(el)@.tag == old(el)@.tag,
        final(el)@.children == old(el)@.children,
        filled@.strip_handle() == attr@.strip_handle(),
        !(attr@ is Event) ==> filled == attr,
        attr@ is Event ==> filled@ == AttributeView::Event(
            EventView { handle: Some(old(binder).next_handle), ..attr@.event() },
        ),
        assoc_map(final(el)@.props) == (match attr@ {
            AttributeView::Property(k, v) => assoc_map(old(el)@.props).insert(k, v),
            _ => assoc_map(old(el)@.props),
        }),
        assoc_map(final(el)@.styles) == (match attr@ {
            AttributeView::Style(k, v) => assoc_map(old(el)@.styles).insert(k, v),
            _ => assoc_map(old(el)@.styles),
        }),
        assoc_map(final(el).listener_assoc()) == (match attr@ {
            AttributeView::Event(_) => assoc_map(old(el).listener_assoc()).insert(
                old(binder).next_handle,
                event_info(attr@.event()),
            ),
            _ => assoc_map(old(el).listener_assoc()),
        }),
        final(binder).next_handle == old(binder).next_handle + (if attr@ is Event {
            1int
        } else {
            0int
        }),
        final(binder).binds == old(binder).binds + (if attr@ is Event {
            1int
        } else {
            0int
        }),
        final(binder).unbinds == old(binder).unbinds,
        final(warnings)@ == old(warnings)@ + (if attr@ is Event && attr@.event().handle is Some {
            seq![Warning::HandleAlreadyBound]
        } else {
            Seq::empty()
        }),
{
    match attr {
        Attribute::Property(k, v) => {
            let dup = v.dup();
            el.set_prop(&k, dup);
            Attribute::Property(k, v)
        },
        Attribute::Style(k, v) => {
            el.set_style(&k, &v);
            Attribute::Style(k, v)
        },
        Attribute::Key(k) => Attribute::Key(k),
        Attribute::Event(e) => {
            let h = binder.fresh();
            proof {
                lemma_assoc_map_membership(el.listener_assoc(), h);
                if assoc_map(el.listener_assoc()).contains_key(h) {
                    let i = choose|i: int|
                        0 <= i < el.listener_assoc().len() && (#[trigger] el.listener_assoc()[
                        i]).0 == h;
                    assert(el@.listeners[i].handle < h);
                }
            }
            el.add_listener(
                crate::live::LiveListener {
                    type_: e.type_.clone(),
                    handle: h,
                    stop_propagation: e.stop_propagation,
                    prevent_default: e.prevent_default,
                },
            );
            if e.handle.is_some() {
                warnings.push(Warning::HandleAlreadyBound);
            }
            Attribute::Event(
                Event {
                    type_: e.type_,
                    to_message: e.to_message,
                    stop_propagation: e.stop_propagation,
                    prevent_default: e.prevent_default,
                    handle: Some(h),
                },
            )
        },
    }
}

} // verus!

verus! {

/// Front decomposition of the event count of an attribute list.
proof fn lemma_attrs_event_count_first<MV, FV>(s: Seq<AttributeView<MV, FV>>)
    requires
        s.len() > 0,
    ensures
        crate::html::attrs_event_count(s) == (if s[0] is Event {
            1nat
        } else {
            0nat
        }) + crate::html::attrs_event_count(s.drop_first()),
    decreases s,
{
    if s.len() == 1 {
        assert(s.drop_first().len() == 0);
        assert(crate::html::attrs_event_count(s.drop_first()) == 0);
        assert(s.drop_last().len() == 0);
        assert(crate::html::attrs_event_count(s.drop_last()) == 0);
        assert(s.last() == s[0]);
    } else {
        lemma_attrs_event_count_first(s.drop_last());
        assert(s.drop_last()[0] == s[0]);
        assert(s.drop_last().drop_first() =~= s.drop_first().drop_last());
        assert(s.drop_first().last() == s.last());
        assert(crate::html::attrs_event_count(s) == crate::html::attrs_event_count(s.drop_last())
            + (if s.last() is Event { 1nat } else { 0nat }));
        assert(crate::html::attrs_event_count(s.drop_first())
            == crate::html::attrs_event_count(s.drop_first().drop_last()) + (if s.drop_first().last() is Event { 1nat } else { 0nat }));
    }
}

/// Build a live node for a virtual tree from scratch: create the element,
/// apply its attributes (binding a fresh listener for each event
/// attribute), and build and append its children, recursively.  Returns
/// the built live node and the tree with every handle slot filled.
#[verifier::loop_isolation(false)]
pub fn create_node<Msg: Message, F: EventClosure<Msg>>(
    input: Html<Msg, F>,
    binder: &mut Binder,
    warnings: &mut Vec<Warning>,
) -> (r: (LiveNode, Html<Msg, F>))
    requires
        input@.wf(),
        input@.unbound(),
        old(binder).next_handle + input@.event_budget() <= u64::MAX,
        old(binder).binds + input@.event_budget() <= u64::MAX,
    ensures
        crate::live::displays(r.0@, r.1@),
        r.0@.wf(),
        r.1@.similar(input@),
        r.1@.bound_below(final(binder).next_handle),
        live_handles_below(r.0@, final(binder).next_handle),
        final(binder).next_handle == old(binder).next_handle + input@.event_budget(),
        final(binder).binds == old(binder).binds + input@.event_budget(),
        final(binder).unbinds == old(binder).unbinds,
        final(warnings)@ == old(warnings)@,
    decreases input,
{
    let ghost input0 = input;
    match input {
        Html::Text(s) => {
            let live = LiveNode::Text(s.clone());
            let tree = Html::Text(s);
            (live, tree)
        },
        Html::Tag(t) => {
            let ghost t0 = t;
            let HtmlTag { tag, attrs, children } = t;
            let ghost avs = attr_views(attrs@);
            let ghost cvs = html_views(children@);
            let ghost children0 = children@;
            let ghost next0 = binder.next_handle;
            let ghost binds0 = binder.binds;
            proof {
                lemma_html_views(children0);
                assert(input0@ == HtmlView::Tag(
                    HtmlTagView { tag: tag@, attrs: avs, children: cvs },
                ));
            }
            let mut el = LiveElement {
                tag: tag.clone(),
                props: Vec::new(),
                styles: Vec::new(),
                listeners: Vec::new(),
                children: Vec::new(),
            };
            let n_a = attrs.len();
            let mut rest_attrs = attrs;
            let mut filled_attrs: Vec<Attribute<Msg, F>> = Vec::new();
            let ghost attrs0 = rest_attrs@;
            let mut i: usize = 0;
            proof {
                assert(avs.take(0) =~= Seq::<AttributeView<Msg::V, F::V>>::empty());
                assert(attr_views(filled_attrs@) =~= Seq::<AttributeView<Msg::V, F::V>>::empty());
                assert(assoc_map(el@.props) =~= tree_prop_map(attr_views(filled_attrs@)));
                assert(assoc_map(el@.styles) =~= tree_style_map(attr_views(filled_attrs@)));
                assert(el.listener_assoc() =~= Seq::<(u64, crate::live::ListenerInfoView)>::empty());
                assert(assoc_map(el.listener_assoc()) =~= tree_listener_map(
                    attr_views(filled_attrs@),
                ));
                assert(avs.skip(0) =~= avs);
            }
            while i < n_a
                invariant
                    n_a == avs.len(),
                    i <= n_a,
                    avs == attr_views(attrs0),
                    rest_attrs@.len() == n_a - i,
                    forall|k: int| 0 <= k < rest_attrs@.len() ==> rest_attrs@[k] == attrs0[i + k],
                    attrs_events_unbound(avs),
                    filled_attrs@.len() == i,
                    forall|j: int|
                        0 <= j < i ==> (#[trigger] attr_views(filled_attrs@)[j]).strip_handle()
                            == avs[j].strip_handle(),
                    forall|j: int|
                        0 <= j < i && (#[trigger] attr_views(filled_attrs@)[j]) is Event ==> (
                        attr_views(filled_attrs@)[j].event().handle is Some && next0 <= attr_views(
                            filled_attrs@,
                        )[j].event().handle->0 < binder.next_handle),
                    forall|j1: int, j2: int|
                        0 <= j1 < j2 < i && (#[trigger] attr_views(filled_attrs@)[j1]) is Event
                            && (#[trigger] attr_views(filled_attrs@)[j2]) is Event ==> attr_views(
                            filled_attrs@,
                        )[j1].event().handle->0 < attr_views(filled_attrs@)[j2].event().handle->0,
                    distinct_keys(el@.props),
                    distinct_keys(el@.styles),
                    distinct_keys(el.listener_assoc()),
                    el_listeners_below(el@.listeners, binder.next_handle),
                    el@.tag == tag@,
                    el@.children == Seq::<LiveNodeView>::empty(),
                    assoc_map(el@.props) == tree_prop_map(attr_views(filled_attrs@)),
                    assoc_map(el@.styles) == tree_style_map(attr_views(filled_attrs@)),
                    assoc_map(el.listener_assoc()) == tree_listener_map(attr_views(filled_attrs@)),
                    binder.next_handle == next0 + crate::html::attrs_event_count(avs.take(i as int)),
                    binder.binds == binds0 + crate::html::attrs_event_count(avs.take(i as int)),
                    binder.unbinds == old(binder).unbinds,
                    binder.next_handle + crate::html::attrs_event_count(avs.skip(i as int))
                        + children_event_budget(cvs) <= u64::MAX,
                    binder.binds + crate::html::attrs_event_count(avs.skip(i as int))
                        + children_event_budget(cvs) <= u64::MAX,
                    warnings@ == old(warnings)@,
                decreases n_a - i,
            {
                proof {
                    assert(avs.skip(i as int).len() > 0);
                    lemma_attrs_event_count_first(avs.skip(i as int));
                    assert(avs.skip(i as int)[0] == avs[i as int]);
                    assert(avs.skip(i as int).drop_first() =~= avs.skip(i + 1));
                    assert(avs.take(i + 1).drop_last() =~= avs.take(i as int));
                    assert(avs.take(i + 1).last() == avs[i as int]);
                    assert(rest_attrs@[0] == attrs0[i as int]);
                }
                let a = rest_attrs.remove(0);
                proof {
                    assert(a@ == avs[i as int]);
                }
                let ghost fvb = attr_views(filled_attrs@);
                let fa = apply_attribute(&mut el, a, binder, warnings);
                filled_attrs.push(fa);
                proof {
                    assert(attr_views(filled_attrs@) =~= fvb.push(fa@));
                    assert(attr_views(filled_attrs@).drop_last() =~= fvb);
                    assert(tree_prop_map(attr_views(filled_attrs@)) =~= (match avs[i as int] {
                        AttributeView::Property(k, v) => tree_prop_map(fvb).insert(k, v),
                        _ => tree_prop_map(fvb),
                    }));
                    assert(tree_style_map(attr_views(filled_attrs@)) =~= (match avs[i as int] {
                        AttributeView::Style(k, v) => tree_style_map(fvb).insert(k, v),
                        _ => tree_style_map(fvb),
                    }));
                    if avs[i as int] is Event {
                        assert(fa@.event().handle == Some((binder.next_handle - 1) as u64));
                        assert(event_info(fa@.event()) =~= event_info(avs[i as int].event()));
                        assert(tree_listener_map(attr_views(filled_attrs@)) =~= tree_listener_map(
                            fvb,
                        ).insert(fa@.event().handle->0, event_info(fa@.event())));
                    } else {
                        assert(tree_listener_map(attr_views(filled_attrs@)) =~= tree_listener_map(
                            fvb,
                        ));
                    }
                }
                i = i + 1;
            }
            proof {
                assert(avs.take(n_a as int) =~= avs);
                assert(avs.skip(n_a as int) =~= Seq::<AttributeView<Msg::V, F::V>>::empty());
            }
            let n_c = children.len();
            let mut rest_children = children;
            let mut filled_children: Vec<Html<Msg, F>> = Vec::new();
            let ghost next1 = binder.next_handle;
            let ghost binds1 = binder.binds;
            let mut ci: usize = 0;
            proof {
                assert(html_views(filled_children@) =~= Seq::<HtmlView<Msg::V, F::V>>::empty());
                assert(live_node_views(el.children@) =~= Seq::<LiveNodeView>::empty());
                assert(html_views(rest_children@) =~= cvs);
            }
            while ci < n_c
                invariant
                    n_c == children0.len(),
                    ci <= n_c,
                    cvs == html_views(children0),
                    cvs.len() == n_c,
                    forall|k: int| 0 <= k < cvs.len() ==> cvs[k] == children0[k]@,
                    rest_children@.len() == n_c - ci,
                    forall|k: int|
                        0 <= k < rest_children@.len() ==> rest_children@[k] == children0[ci + k],
                    filled_children@.len() == ci,
                    el.children@.len() == ci,
                    forall|j: int|
                        0 <= j < ci ==> crate::live::displays(
                            #[trigger] live_node_views(el.children@)[j],
                            html_views(filled_children@)[j],
                        ),
                    forall|j: int|
                        0 <= j < ci ==> (#[trigger] html_views(filled_children@)[j]).similar(
                            cvs[j],
                        ),
                    forall|j: int|
                        0 <= j < ci ==> (#[trigger] html_views(filled_children@)[j]).bound_below(
                            binder.next_handle,
                        ),
                    forall|j: int|
                        0 <= j < ci ==> (#[trigger] live_node_views(el.children@)[j]).wf(),
                    forall|j: int|
                        0 <= j < ci ==> live_handles_below(
                            #[trigger] live_node_views(el.children@)[j],
                            binder.next_handle,
                        ),
                    distinct_keys(el@.props),
                    distinct_keys(el@.styles),
                    distinct_keys(el.listener_assoc()),
                    el_listeners_below(el@.listeners, binder.next_handle),
                    el@.tag == tag@,
                    assoc_map(el@.props) == tree_prop_map(attr_views(filled_attrs@)),
                    assoc_map(el@.styles) == tree_style_map(attr_views(filled_attrs@)),
                    assoc_map(el.listener_assoc()) == tree_listener_map(attr_views(filled_attrs@)),
                    next1 <= binder.next_handle,
                    binder.next_handle - next1 == binder.binds - binds1,
                    binder.next_handle + children_event_budget(html_views(rest_children@))
                        <= u64::MAX,
                    binder.binds + children_event_budget(html_views(rest_children@)) <= u64::MAX,
                    binder.next_handle == next1 + (children_event_budget(cvs)
                        - children_event_budget(html_views(rest_children@))),
                    children_event_budget(html_views(rest_children@)) <= children_event_budget(
                        cvs,
                    ),
                    binder.unbinds == old(binder).unbinds,
                    warnings@ == old(warnings)@,
                    input0@ == HtmlView::Tag(
                        HtmlTagView { tag: tag@, attrs: avs, children: cvs },
                    ),
                    input0@.wf(),
                    input0@.unbound(),
                decreases n_c - ci,
            {
                proof {
                    assert(rest_children@[0] == children0[ci as int]);
                    lemma_html_views(rest_children@);
                    assert(html_views(rest_children@)[0] == children0[ci as int]@);
                    assert(html_views(rest_children@).len() > 0);
                }
                let ghost rest_views0 = html_views(rest_children@);
                let c = rest_children.remove(0);
                proof {
                    assert(c == children0[ci as int]);
                    lemma_html_views(rest_children@);
                    assert(html_views(rest_children@) =~= rest_views0.drop_first());
                    assert(rest_views0[0] == c@);
                    assert(children_event_budget(rest_views0) == rest_views0[0].event_budget()
                        + children_event_budget(rest_views0.drop_first()));
                    assert(children_event_budget(rest_views0) == c@.event_budget()
                        + children_event_budget(html_views(rest_children@)));
                    assert(cvs[ci as int] == c@);
                    assert(c@.wf() && c@.unbound()) by {
                        assert(input0@ == HtmlView::Tag(
                            HtmlTagView { tag: tag@, attrs: avs, children: cvs },
                        ));
                        assert(cvs[ci as int] == c@);
                    }
                    assert(decreases_to!(t0 => t0.children));
                    assert(decreases_to!(t0.children => t0.children@));
                    assert(t0.children@ == children0);
                    assert(decreases_to!(t0.children@ => t0.children@[ci as int]));
                    assert(t0.children@[ci as int] == c);
                }
                let ghost next_before = binder.next_handle;
                let (lc, fc) = create_node(c, binder, warnings);
                let ghost prev_children = el.children@;
                let ghost prev_filled = filled_children@;
                let ghost live_views_before = live_node_views(el.children@);
                let ghost filled_views_before = html_views(filled_children@);
                el.children.push(lc);
                filled_children.push(fc);
                proof {
                    lemma_html_views(filled_children@);
                    lemma_live_node_views(el.children@);
                    lemma_html_views(prev_filled);
                    lemma_live_node_views(prev_children);
                    assert(live_node_views(el.children@) =~= live_views_before.push(lc@));
                    assert(html_views(filled_children@) =~= filled_views_before.push(fc@));
                    assert forall|j: int|
                        0 <= j < ci + 1 implies (#[trigger] html_views(
                        filled_children@,
                    )[j]).bound_below(binder.next_handle) by {
                        if j < ci {
                            crate::html::lemma_bound_below_mono(
                                filled_views_before[j],
                                next_before,
                                binder.next_handle,
                            );
                        }
                    }
                    assert forall|j: int|
                        0 <= j < ci + 1 implies live_handles_below(
                        #[trigger] live_node_views(el.children@)[j],
                        binder.next_handle,
                    ) by {
                        if j < ci {
                            crate::live::lemma_live_handles_below_mono(
                                live_views_before[j],
                                next_before,
                                binder.next_handle,
                            );
                        }
                    }
                    assert forall|j: int|
                        0 <= j < el@.listeners.len() implies (#[trigger] el@.listeners[j]).handle
                            < binder.next_handle by {}
                }
                ci = ci + 1;
            }
            proof {
                assert(html_views(rest_children@).len() == 0);
                assert(children_event_budget(html_views(rest_children@)) == 0);
            }
            let ghost elv = el@;
            let ghost el_assoc = el.listener_assoc();
            let ghost tagv = tag@;
            let ghost favs = attr_views(filled_attrs@);
            let ghost fcvs = html_views(filled_children@);
            proof {
                // Restate the loop's outcome over captured ghost values,
                // while the exec values are still in scope.
                lemma_live_node_views(el.children@);
                lemma_html_views(filled_children@);
                lemma_html_views(children0);
                assert(elv.children == live_node_views(el.children@));
                assert(el_assoc =~= crate::live::listener_pairs(elv.listeners));
                assert(elv.tag == tagv);
                assert(assoc_map(elv.props) == tree_prop_map(favs));
                assert(assoc_map(elv.styles) == tree_style_map(favs));
                assert(assoc_map(el_assoc) == tree_listener_map(favs));
                assert(elv.children.len() == fcvs.len());
                assert forall|j: int| 0 <= j < fcvs.len() implies crate::live::displays(
                    #[trigger] elv.children[j],
                    fcvs[j],
                ) by {
                    assert(elv.children[j] == live_node_views(el.children@)[j]);
                    assert(fcvs[j] == html_views(filled_children@)[j]);
                }
            }
            let live = LiveNode::Element(el);
            let tree = Html::Tag(HtmlTag { tag, attrs: filled_attrs, children: filled_children });
            proof {
                let lv = live@;
                let tv = tree@;
                assert(lv == LiveNodeView::Element(elv));
                assert(tv == HtmlView::Tag(
                    HtmlTagView { tag: tagv, attrs: favs, children: fcvs },
                ));
                assert(crate::live::displays_attrs(lv->Element_0, favs)) by {
                    assert(lv->Element_0 == elv);
                }
                assert(crate::live::displays(lv, tv));
                assert(lv.wf()) by {
                    assert forall|a: int, b: int|
                        0 <= a < b < elv.listeners.len() implies (#[trigger] elv.listeners[
                        a]).handle != (#[trigger] elv.listeners[b]).handle by {
                        assert(el_assoc[a].0 == elv.listeners[a].handle);
                        assert(el_assoc[b].0 == elv.listeners[b].handle);
                    }
                }
                assert(tv.similar(input0@)) by {
                    assert forall|j: int| 0 <= j < avs.len() implies (#[trigger] favs[j]).matches(
                        avs[j],
                    ) by {}
                    assert forall|j: int|
                        0 <= j < cvs.len() implies (#[trigger] tv->Tag_0.children[j]).similar(
                        cvs[j],
                    ) by {
                        assert(tv->Tag_0.children[j] == fcvs[j]);
                    }
                }
                assert(tv.bound_below(binder.next_handle)) by {
                    assert forall|a: int, b: int|
                        0 <= a < b < favs.len() && crate::html::attrs_both_events(
                            favs,
                            a,
                            b,
                        ) implies #[trigger] favs[a].event().handle != (
                        #[trigger] favs[b].event().handle) by {
                        assert(favs[a] is Event);
                        assert(favs[b] is Event);
                    }
                }
                assert(el_listeners_below(elv.listeners, binder.next_handle));
                assert(live_handles_below(lv, binder.next_handle));
                assert(crate::html::attrs_event_count(avs) + children_event_budget(cvs)
                    == input0@.event_budget());
            }
            (live, tree)
        },
    }
}

} // verus!

verus! {

/// Relies on itertools' `zip_longest`: pairs the two lists elementwise, in
/// order, padding the shorter side with absent entries on the right.
#[verifier::external_body]
fn zip_longest_pairs<T>(a: Vec<T>, b: Vec<T>) -> (r: Vec<(Option<T>, Option<T>)>)
    ensures
        r@.len() == (if a@.len() >= b@.len() {
            a@.len()
        } else {
            b@.len()
        }),
        forall|i: int|
            0 <= i < r@.len() ==> #[trigger] r@[i].0 == (if i < a@.len() {
                Some(a@[i])
            } else {
                None::<T>
            }),
        forall|i: int|
            0 <= i < r@.len() ==> #[trigger] r@[i].1 == (if i < b@.len() {
                Some(b@[i])
            } else {
                None::<T>
            }),
{
    a.into_iter().zip_longest(b).map(
        |p| match p {
            EitherOrBoth::Both(x, y) => (Some(x), Some(y)),
            EitherOrBoth::Left(x) => (Some(x), None),
            EitherOrBoth::Right(y) => (None, Some(y)),
        },
    ).collect()
}

} // verus!

verus! {

/// The view of an optional tree.
pub open spec fn opt_html_view<Msg: DeepView, F: DeepView>(o: Option<Html<Msg, F>>) -> Option<
    HtmlView<Msg::V, F::V>,
> {
    match o {
        Some(t) => Some(t@),
        None => None,
    }
}

/// The reconciler's termination measure for an optional tree.
pub open spec fn opt_size<MV, FV>(o: Option<HtmlView<MV, FV>>) -> nat {
    match o {
        Some(t) => t.size(),
        None => 0,
    }
}

/// The update budget of an optional tree.
pub open spec fn opt_budget<MV, FV>(o: Option<HtmlView<MV, FV>>) -> nat {
    match o {
        Some(t) => t.update_budget(),
        None => 0,
    }
}

/// The live slot at `index` is consistent with the previous tree: where a
/// previous tree exists, the slot holds a node displaying it; where none
/// does and a new tree is to be inserted, the slot is the append position.
pub open spec fn slot_consistent<MV, FV>(
    live: Seq<LiveNodeView>,
    old: Option<HtmlView<MV, FV>>,
    new_present: bool,
    index: int,
) -> bool {
    match old {
        Some(ov) => 0 <= index < live.len() && crate::live::displays(live[index], ov),
        None => new_present ==> index == live.len(),
    }
}

/// Every node of the live list is well formed with handles below `n`.
pub open spec fn live_all_wf(live: Seq<LiveNodeView>, n: u64) -> bool {
    forall|j: int|
        0 <= j < live.len() ==> (#[trigger] live[j]).wf() && live_handles_below(live[j], n)
}

/// Whether the diff of these two trees replaces the node wholesale: the
/// tags differ, the text differs, or the node kinds differ.
pub open spec fn replaces<MV, FV>(o: HtmlView<MV, FV>, n: HtmlView<MV, FV>) -> bool {
    match o {
        HtmlView::Tag(x) => match n {
            HtmlView::Tag(y) => x.tag != y.tag,
            HtmlView::Text(_) => true,
        },
        HtmlView::Text(a) => match n {
            HtmlView::Text(b) => a != b,
            HtmlView::Tag(_) => true,
        },
    }
}

impl Renderer {
    /// Replace the live child at `index` by a node built afresh for `new`,
    /// emitting the replacement command.  Fails when no child exists at
    /// `index`.
    fn replace_child<Msg: Message, F: EventClosure<Msg>>(
        &mut self,
        live_children: &mut Vec<LiveNode>,
        path: &Vec<usize>,
        new: Html<Msg, F>,
        index: usize,
    ) -> (r: Result<Html<Msg, F>, RenderError>)
        requires
            new@.wf(),
            new@.unbound(),
            old(self).binder.next_handle + new@.event_budget() <= u64::MAX,
            old(self).binder.binds + new@.event_budget() <= u64::MAX,
        ensures
            final(live_children)@.len() == old(live_children)@.len(),
            forall|j: int|
                0 <= j < old(live_children)@.len() && j != index
                    ==> final(live_children)@[j] == old(live_children)@[j],
            index < old(live_children)@.len() ==> r is Ok,
            r is Err ==> index >= old(live_children)@.len() && *final(live_children) == *old(live_children) && *final(self) == *old(self),
            r matches Ok(f) ==> {
                &&& index < old(live_children)@.len()
                &&& f@.similar(new@)
                &&& f@.wf()
                &&& f@.bound_below(final(self).binder.next_handle)
                &&& crate::live::displays(final(live_children)@[index as int]@, f@)
                &&& final(live_children)@[index as int]@.wf()
                &&& live_handles_below(
                    final(live_children)@[index as int]@,
                    final(self).binder.next_handle,
                )
                &&& mutation_views(final(self).cmds@) == mutation_views(old(self).cmds@).push(
                    MutationView::ReplaceChild {
                        parent: path@,
                        index,
                        node: final(live_children)@[index as int]@,
                    },
                )
                &&& final(self).binder.next_handle == old(self).binder.next_handle
                    + new@.event_budget()
                &&& final(self).binder.binds == old(self).binder.binds + new@.event_budget()
                &&& final(self).binder.unbinds == old(self).binder.unbinds
                &&& final(self).warnings@ == old(self).warnings@
            },
    {
        if index >= live_children.len() {
            return Err(RenderError::NodeNotFound { path: path.clone(), index });
        }
        let (ln, ft) = create_node(new, &mut self.binder, &mut self.warnings);
        let lnd = ln.dup();
        let ghost cmds0 = self.cmds@;
        self.cmds.push(Mutation::ReplaceChild { parent: path.clone(), index, node: lnd });
        let ghost removed = live_children@.remove(index as int);
        live_children.remove(index);
        live_children.insert(index, ln);
        proof {
            crate::html::lemma_similar_wf(ft@, new@);
            assert(live_children@ =~= old(live_children)@.update(index as int, ln));
            assert(mutation_views(self.cmds@) =~= mutation_views(cmds0).push(
                MutationView::ReplaceChild {
                    parent: path@,
                    index,
                    node: live_children@[index as int]@,
                },
            ));
        }
        Ok(ft)
    }
}

} // verus!

verus! {

impl Renderer {
    /// Reconcile one position: the pair of an optional previous tree and an
    /// optional new tree at child position `index` under the live parent
    /// whose children are `live_children` and whose path is `path`.
    ///
    /// An absent previous tree inserts, an absent new tree schedules a
    /// deferred removal into `pending`, two present trees diff in place or
    /// replace wholesale.  Returns the new tree with every handle slot
    /// filled.
    #[verifier::loop_isolation(false)]
    #[verifier::rlimit(100)]
    pub fn update_element<Msg: Message, F: EventClosure<Msg>>(
        &mut self,
        live_children: &mut Vec<LiveNode>,
        path: &Vec<usize>,
        new: Option<Html<Msg, F>>,
        prev: Option<Html<Msg, F>>,
        index: usize,
        pending: &mut Vec<usize>,
    ) -> (r: Result<Option<Html<Msg, F>>, RenderError>)
        requires
            new matches Some(t) ==> t@.wf() && t@.unbound(),
            prev matches Some(t) ==> t@.wf() && t@.bound_below(old(self).binder.next_handle),
            old(self).binder.next_handle + opt_budget(opt_html_view(new)) <= u64::MAX,
            old(self).binder.binds + opt_budget(opt_html_view(new)) <= u64::MAX,
            old(self).binder.unbinds + opt_budget(opt_html_view(prev)) <= u64::MAX,
            live_all_wf(live_node_views(old(live_children)@), old(self).binder.next_handle),
        ensures
            old(self).binder.next_handle <= final(self).binder.next_handle <= old(self).binder.next_handle + opt_budget(opt_html_view(new)),
            old(self).binder.binds <= final(self).binder.binds <= old(self).binder.binds
                + opt_budget(opt_html_view(new)),
            old(self).binder.unbinds <= final(self).binder.unbinds <= old(self).binder.unbinds
                + opt_budget(opt_html_view(prev)),
            final(live_children)@.len() == old(live_children)@.len() + (
            if prev is None && new is Some {
                1int
            } else {
                0int
            }),
            forall|j: int|
                0 <= j < old(live_children)@.len() && (j != index || prev is None)
                    ==> final(live_children)@[j] == old(live_children)@[j],
            live_all_wf(live_node_views(final(live_children)@), final(self).binder.next_handle),
            (prev is Some && new is None) ==> (if index < old(live_children)@.len() {
                final(pending)@ == old(pending)@.push(index)
            } else {
                final(pending)@ == old(pending)@
            }),
            !(prev is Some && new is None) ==> final(pending)@ == old(pending)@,
            r matches Ok(f) ==> (f is Some <==> new is Some),
            r is Err ==> !slot_consistent(
                live_node_views(old(live_children)@),
                opt_html_view(prev),
                new is Some,
                index as int,
            ),
            slot_consistent(
                live_node_views(old(live_children)@),
                opt_html_view(prev),
                new is Some,
                index as int,
            ) ==> {
                &&& r is Ok
                &&& match (opt_html_view(prev), opt_html_view(new)) {
                    (Option::None, Option::None) => *final(live_children) == *old(live_children)
                        && *final(self) == *old(self) && final(pending)@ == old(pending)@,
                    (Option::None, Option::Some(t)) => {
                        &&& r matches Ok(f) && f matches Some(ft) && {
                            &&& ft@.similar(t)
                            &&& ft@.wf()
                            &&& ft@.bound_below(final(self).binder.next_handle)
                            &&& crate::live::displays(
                                final(live_children)@[old(live_children)@.len() as int]@,
                                ft@,
                            )
                            &&& mutation_views(final(self).cmds@) == mutation_views(
                                old(self).cmds@,
                            ).push(
                                MutationView::AppendChild {
                                    parent: path@,
                                    node: final(live_children)@[old(live_children)@.len() as int]@,
                                },
                            )
                            &&& final(self).binder.next_handle == old(self).binder.next_handle
                                + t.event_budget()
                            &&& final(self).binder.binds == old(self).binder.binds
                                + t.event_budget()
                            &&& final(self).binder.unbinds == old(self).binder.unbinds
                            &&& final(self).warnings@ == old(self).warnings@
                        }
                    },
                    (Option::Some(_), Option::None) => *final(live_children) == *old(live_children) && final(self).binder == old(self).binder && final(self).cmds@ == old(self).cmds@ && final(self).warnings@ == old(self).warnings@,
                    (Option::Some(o), Option::Some(t)) => {
                        &&& r matches Ok(f) && f matches Some(ft) && {
                            &&& ft@.similar(t)
                            &&& ft@.wf()
                            &&& ft@.bound_below(final(self).binder.next_handle)
                            &&& crate::live::displays(final(live_children)@[index as int]@, ft@)
                            &&& final(self).warnings@ == old(self).warnings@
                            &&& (o.similar(t) ==> (live_node_views(final(live_children)@)
                                == live_node_views(old(live_children)@) && final(self).binder
                                == old(self).binder && final(self).cmds@ == old(self).cmds@ && ft@
                                == o))
                            &&& (replaces(o, t) ==> (mutation_views(final(self).cmds@)
                                == mutation_views(old(self).cmds@).push(
                                MutationView::ReplaceChild {
                                    parent: path@,
                                    index,
                                    node: final(live_children)@[index as int]@,
                                },
                            ) && final(self).binder.next_handle == old(self).binder.next_handle
                                + t.event_budget() && final(self).binder.binds == old(self).binder.binds + t.event_budget() && final(self).binder.unbinds == old(self).binder.unbinds))
                        }
                    },
                }
            },
        decreases opt_size(opt_html_view(new)), 0nat,
    {
        let ghost new0 = new;
        let ghost old0 = prev;
        let ghost live0 = live_node_views(old(live_children)@);
        let ghost cons = slot_consistent(
            live0,
            opt_html_view(old0),
            new0 is Some,
            index as int,
        );
        proof {
            lemma_live_node_views(live_children@);
        }
        match (prev, new) {
            (Option::None, Option::None) => Ok(None),
            (Option::None, Option::Some(new_html)) => {
                proof {
                    crate::html::lemma_event_budget_le_update_budget(new_html@);
                }
                let (ln, ft) = create_node(new_html, &mut self.binder, &mut self.warnings);
                let lnd = ln.dup();
                let ghost cmds0 = self.cmds@;
                self.cmds.push(Mutation::AppendChild { parent: path.clone(), node: lnd });
                live_children.push(ln);
                proof {
                    lemma_live_node_views(live_children@);
                    crate::html::lemma_similar_wf(ft@, new_html@);
                    assert(live_node_views(live_children@) =~= live0.push(ln@));
                    assert(mutation_views(self.cmds@) =~= mutation_views(cmds0).push(
                        MutationView::AppendChild {
                            parent: path@,
                            node: live_children@[live0.len() as int]@,
                        },
                    ));
                    assert forall|j: int|
                        0 <= j < live_node_views(live_children@).len() implies (
                    #[trigger] live_node_views(live_children@)[j]).wf() && live_handles_below(
                        live_node_views(live_children@)[j],
                        self.binder.next_handle,
                    ) by {
                        if j < live0.len() {
                            assert(live0[j].wf());
                            crate::live::lemma_live_handles_below_mono(
                                live0[j],
                                old(self).binder.next_handle,
                                self.binder.next_handle,
                            );
                        }
                    }
                }
                Ok(Some(ft))
            },
            (Option::Some(removed), Option::None) => {
                if index < live_children.len() {
                    pending.push(index);
                } else {
                    self.warnings.push(
                        Warning::NodeIndexMissing { path: path.clone(), index },
                    );
                    proof {
                        assert(!cons);
                    }
                }
                Ok(None)
            },
            (Option::Some(old_html), Option::Some(new_html)) => {
                match (old_html, new_html) {
                    (Html::Text(s1), Html::Text(s2)) => {
                        if s1 == s2 {
                            proof {
                                assert(HtmlView::Text(s2@).similar(HtmlView::<Msg::V, F::V>::Text(
                                    s2@,
                                )));
                            }
                            Ok(Some(Html::Text(s2)))
                        } else {
                            proof {
                                crate::html::lemma_event_budget_le_update_budget(
                                    HtmlView::<Msg::V, F::V>::Text(s2@),
                                );
                            }
                            let r = self.replace_child(live_children, path, Html::Text(s2), index);
                            proof {
                                lemma_live_node_views(live_children@);
                                if r is Ok {
                                    assert(live_node_views(live_children@) =~= live0.update(
                                        index as int,
                                        live_children@[index as int]@,
                                    ));
                                    assert forall|j: int|
                                        0 <= j < live_node_views(live_children@).len() implies (
                                    #[trigger] live_node_views(live_children@)[j]).wf()
                                        && live_handles_below(
                                        live_node_views(live_children@)[j],
                                        self.binder.next_handle,
                                    ) by {
                                        if j != index {
                                            assert(live0[j].wf());
                                            crate::live::lemma_live_handles_below_mono(
                                                live0[j],
                                                old(self).binder.next_handle,
                                                self.binder.next_handle,
                                            );
                                        }
                                    }
                                }
                            }
                            match r {
                                Ok(f) => Ok(Some(f)),
                                Err(e) => Err(e),
                            }
                        }
                    },
                    (Html::Tag(ot), Html::Tag(nt)) => {
                        if ot.tag == nt.tag {
                            self.update_matching_element(live_children, path, ot, nt, index)
                        } else {
                            let ghost ntv = new0->Some_0@;
                            proof {
                                assert(Html::Tag(nt)@ == ntv);
                                crate::html::lemma_event_budget_le_update_budget(ntv);
                            }
                            let r = self.replace_child(
                                live_children,
                                path,
                                Html::Tag(nt),
                                index,
                            );
                            proof {
                                lemma_live_node_views(live_children@);
                                if r is Ok {
                                    assert(live_node_views(live_children@) =~= live0.update(
                                        index as int,
                                        live_children@[index as int]@,
                                    ));
                                    assert forall|j: int|
                                        0 <= j < live_node_views(live_children@).len() implies (
                                    #[trigger] live_node_views(live_children@)[j]).wf()
                                        && live_handles_below(
                                        live_node_views(live_children@)[j],
                                        self.binder.next_handle,
                                    ) by {
                                        if j != index {
                                            assert(live0[j].wf());
                                            crate::live::lemma_live_handles_below_mono(
                                                live0[j],
                                                old(self).binder.next_handle,
                                                self.binder.next_handle,
                                            );
                                        }
                                    }
                                }
                            }
                            match r {
                                Ok(f) => Ok(Some(f)),
                                Err(e) => Err(e),
                            }
                        }
                    },
                    (o, n) => {
                        let ghost ntv = n@;
                        proof {
                            assert(ntv == new0->Some_0@);
                            crate::html::lemma_event_budget_le_update_budget(ntv);
                        }
                        let r = self.replace_child(live_children, path, n, index);
                        proof {
                            lemma_live_node_views(live_children@);
                            if r is Ok {
                                assert(live_node_views(live_children@) =~= live0.update(
                                    index as int,
                                    live_children@[index as int]@,
                                ));
                                assert forall|j: int|
                                    0 <= j < live_node_views(live_children@).len() implies (
                                #[trigger] live_node_views(live_children@)[j]).wf()
                                    && live_handles_below(
                                    live_node_views(live_children@)[j],
                                    self.binder.next_handle,
                                ) by {
                                    if j != index {
                                        assert(live0[j].wf());
                                        crate::live::lemma_live_handles_below_mono(
                                            live0[j],
                                            old(self).binder.next_handle,
                                            self.binder.next_handle,
                                        );
                                    }
                                }
                            }
                        }
                        match r {
                            Ok(f) => Ok(Some(f)),
                            Err(e) => Err(e),
                        }
                    },
                }
            },
        }
    }
}

} // verus!

verus! {

/// The number of live children appended after `k` of the zipped child
/// pairs have been processed, when the previous list had `ol` children and
/// the new list has `nl`.
pub open spec fn appended_count(k: int, ol: int, nl: int) -> int {
    let lim = if k <= nl {
        k
    } else {
        nl
    };
    if lim > ol {
        lim - ol
    } else {
        0
    }
}

/// The live children display the previous trees, one per position.
pub open spec fn children_consistent<MV, FV>(
    live: Seq<LiveNodeView>,
    olds: Seq<HtmlView<MV, FV>>,
) -> bool {
    live.len() == olds.len() && forall|j: int|
        0 <= j < olds.len() ==> crate::live::displays(#[trigger] live[j], olds[j])
}

impl Renderer {
    /// Diff two child lists pairwise by position against the live children
    /// of one element, padding the shorter list with absent entries, and
    /// defer the removal of stale trailing children until every pair of
    /// this level is done, from the highest position down.  Returns the new
    /// children with every handle slot filled.
    #[verifier::loop_isolation(false)]
    #[verifier::rlimit(100)]
    fn diff_children<Msg: Message, F: EventClosure<Msg>>(
        &mut self,
        el_children: &mut Vec<LiveNode>,
        child_path: &Vec<usize>,
        ochildren: Vec<Html<Msg, F>>,
        nchildren: Vec<Html<Msg, F>>,
    ) -> (r: Result<Vec<Html<Msg, F>>, RenderError>)
        requires
            forall|j: int|
                0 <= j < nchildren@.len() ==> (#[trigger] html_views(nchildren@)[j]).wf()
                    && html_views(nchildren@)[j].unbound(),
            forall|j: int|
                0 <= j < ochildren@.len() ==> (#[trigger] html_views(ochildren@)[j]).wf()
                    && html_views(ochildren@)[j].bound_below(old(self).binder.next_handle),
            old(self).binder.next_handle + children_update_budget(html_views(nchildren@))
                <= u64::MAX,
            old(self).binder.binds + children_update_budget(html_views(nchildren@)) <= u64::MAX,
            old(self).binder.unbinds + children_update_budget(html_views(ochildren@)) <= u64::MAX,
            live_all_wf(live_node_views(old(el_children)@), old(self).binder.next_handle),
        ensures
            old(self).binder.next_handle <= final(self).binder.next_handle <= old(self).binder.next_handle + children_update_budget(html_views(nchildren@)),
            old(self).binder.binds <= final(self).binder.binds <= old(self).binder.binds
                + children_update_budget(html_views(nchildren@)),
            old(self).binder.unbinds <= final(self).binder.unbinds <= old(self).binder.unbinds
                + children_update_budget(html_views(ochildren@)),
            live_all_wf(live_node_views(final(el_children)@), final(self).binder.next_handle),
            r is Err ==> !children_consistent(
                live_node_views(old(el_children)@),
                html_views(ochildren@),
            ),
            children_consistent(live_node_views(old(el_children)@), html_views(ochildren@)) ==> {
                &&& r is Ok
                &&& r matches Ok(filled) && {
                    &&& filled@.len() == nchildren@.len()
                    &&& final(el_children)@.len() == nchildren@.len()
                    &&& forall|j: int|
                        0 <= j < nchildren@.len() ==> crate::live::displays(
                            #[trigger] live_node_views(final(el_children)@)[j],
                            html_views(filled@)[j],
                        )
                    &&& forall|j: int|
                        0 <= j < nchildren@.len() ==> (#[trigger] html_views(filled@)[j]).similar(
                            html_views(nchildren@)[j],
                        ) && html_views(filled@)[j].wf() && html_views(filled@)[j].bound_below(
                            final(self).binder.next_handle,
                        )
                    &&& final(self).warnings@ == old(self).warnings@
                    &&& ((ochildren@.len() == nchildren@.len() && (forall|j: int|
                        0 <= j < ochildren@.len() ==> (#[trigger] html_views(ochildren@)[
                        j]).similar(html_views(nchildren@)[j]))) ==> (live_node_views(final(el_children)@) == live_node_views(old(el_children)@) && final(self).binder == old(self).binder && final(self).cmds@ == old(self).cmds@ && (forall|j: int|
                        0 <= j < nchildren@.len() ==> #[trigger] html_views(filled@)[j]
                            == html_views(ochildren@)[j])))
                }
            },
        decreases children_sizes(html_views(nchildren@)), 1nat,
    {
        let ghost och = ochildren@;
        let ghost nch = nchildren@;
        let ghost ocvs = html_views(och);
        let ghost ncvs = html_views(nch);
        let ghost live0 = live_node_views(old(el_children)@);
        let ghost next0 = old(self).binder.next_handle;
        let ghost self0 = *self;
        let ghost cons = children_consistent(live0, ocvs);
        let ghost ol = och.len() as int;
        let ghost nl = nch.len() as int;
        proof {
            lemma_html_views(och);
            lemma_html_views(nch);
            lemma_live_node_views(el_children@);
            assert(ncvs.skip(0) =~= ncvs);
            assert(ocvs.skip(0) =~= ocvs);
        }
        let mut pairs = zip_longest_pairs(ochildren, nchildren);
        let ghost pairs0 = pairs@;
        let n_pairs = pairs.len();
        let mut filled_children: Vec<Html<Msg, F>> = Vec::new();
        let mut pending_child: Vec<usize> = Vec::new();
        let mut k: usize = 0;
        while k < n_pairs
            invariant
                n_pairs == pairs0.len(),
                k <= n_pairs,
                pairs0.len() == (if ol >= nl {
                    ol
                } else {
                    nl
                }),
                pairs@.len() == n_pairs - k,
                forall|m: int| 0 <= m < pairs@.len() ==> pairs@[m] == pairs0[k + m],
                filled_children@.len() == vstd::math::min(k as int, nl),
                self0.binder.next_handle <= self.binder.next_handle,
                self0.binder.binds <= self.binder.binds,
                self0.binder.unbinds <= self.binder.unbinds,
                self.binder.next_handle - self0.binder.next_handle <= children_update_budget(
                    ncvs,
                ) - children_update_budget(ncvs.skip(vstd::math::min(k as int, nl))),
                self.binder.binds - self0.binder.binds <= children_update_budget(ncvs)
                    - children_update_budget(ncvs.skip(vstd::math::min(k as int, nl))),
                self.binder.unbinds - self0.binder.unbinds <= children_update_budget(ocvs)
                    - children_update_budget(ocvs.skip(vstd::math::min(k as int, ol))),
                children_update_budget(ncvs.skip(vstd::math::min(k as int, nl)))
                    <= children_update_budget(ncvs),
                children_update_budget(ocvs.skip(vstd::math::min(k as int, ol)))
                    <= children_update_budget(ocvs),
                live_all_wf(live_node_views(el_children@), self.binder.next_handle),
                forall|p: int|
                    0 <= p < pending_child@.len() ==> (#[trigger] pending_child@[p]) < k,
                forall|p: int, q: int|
                    0 <= p < q < pending_child@.len() ==> pending_child@[p] < pending_child@[q],
                forall|p: int|
                    0 <= p < pending_child@.len() ==> (#[trigger] pending_child@[p])
                        < el_children@.len(),
                cons ==> el_children@.len() == ol + appended_count(k as int, ol, nl),
                cons ==> forall|j: int|
                    0 <= j < vstd::math::min(k as int, nl) ==> crate::live::displays(
                        #[trigger] live_node_views(el_children@)[j],
                        html_views(filled_children@)[j],
                    ),
                cons ==> forall|j: int|
                    0 <= j < vstd::math::min(k as int, nl) ==> (#[trigger] html_views(
                        filled_children@,
                    )[j]).similar(ncvs[j]) && html_views(filled_children@)[j].wf() && html_views(
                        filled_children@,
                    )[j].bound_below(self.binder.next_handle),
                cons ==> forall|j: int|
                    vstd::math::min(k as int, nl) <= j < ol
                        ==> #[trigger] live_node_views(el_children@)[j] == live0[j],
                cons ==> pending_child@.len() == (if k as int > nl && ol > nl {
                    vstd::math::min(k as int, ol) - nl
                } else {
                    0
                }),
                cons ==> forall|p: int|
                    0 <= p < pending_child@.len() ==> pending_child@[p] == nl + p,
                cons ==> self.warnings@ == self0.warnings@,
                cons && ol == nl && (forall|j: int|
                    0 <= j < ol ==> (#[trigger] ocvs[j]).similar(ncvs[j])) ==> (live_node_views(
                    el_children@,
                ) == live0 && self.binder == self0.binder && self.cmds@ == self0.cmds@
                    && pending_child@.len() == 0 && (forall|j: int|
                    0 <= j < vstd::math::min(k as int, nl) ==> #[trigger] html_views(
                        filled_children@,
                    )[j] == ocvs[j])),
            decreases n_pairs - k,
        {
            proof {
                assert(pairs@[0] == pairs0[k as int]);
                if (k as int) < nl {
                    assert(ncvs.skip(vstd::math::min(k as int, nl)).drop_first() =~= ncvs.skip(
                        vstd::math::min(k + 1, nl),
                    ));
                    assert(ncvs.skip(vstd::math::min(k as int, nl))[0] == ncvs[k as int]);
                    assert(children_update_budget(ncvs.skip(vstd::math::min(k as int, nl)))
                        == ncvs[k as int].update_budget() + children_update_budget(
                        ncvs.skip(vstd::math::min(k + 1, nl)),
                    ));
                } else {
                    assert(vstd::math::min(k as int, nl) == nl);
                    assert(vstd::math::min(k + 1, nl) == nl);
                }
                if (k as int) < ol {
                    assert(ocvs.skip(vstd::math::min(k as int, ol)).drop_first() =~= ocvs.skip(
                        vstd::math::min(k + 1, ol),
                    ));
                    assert(ocvs.skip(vstd::math::min(k as int, ol))[0] == ocvs[k as int]);
                    assert(children_update_budget(ocvs.skip(vstd::math::min(k as int, ol)))
                        == ocvs[k as int].update_budget() + children_update_budget(
                        ocvs.skip(vstd::math::min(k + 1, ol)),
                    ));
                } else {
                    assert(vstd::math::min(k as int, ol) == ol);
                    assert(vstd::math::min(k + 1, ol) == ol);
                }
            }
            let (oc, nc) = pairs.remove(0);
            proof {
                if (k as int) < nl {
                    assert(nc == Some(nch[k as int]));
                    assert(opt_html_view(nc) == Some(ncvs[k as int]));
                    assert(opt_budget(opt_html_view(nc)) == ncvs[k as int].update_budget());
                    crate::html::lemma_child_size_lt(ncvs, k as int);
                } else {
                    assert(nc is None);
                    assert(opt_budget(opt_html_view(nc)) == 0);
                }
                if (k as int) < ol {
                    assert(oc == Some(och[k as int]));
                    assert(opt_html_view(oc) == Some(ocvs[k as int]));
                    assert(opt_budget(opt_html_view(oc)) == ocvs[k as int].update_budget());
                    crate::html::lemma_bound_below_mono(
                        ocvs[k as int],
                        next0,
                        self.binder.next_handle,
                    );
                } else {
                    assert(oc is None);
                    assert(opt_budget(opt_html_view(oc)) == 0);
                }
            }
            let ghost el_before = el_children@;
            let ghost self_before = *self;
            let ghost filled_before = filled_children@;
            proof {
                if cons {
                    assert(slot_consistent(
                        live_node_views(el_before),
                        opt_html_view(oc),
                        nc is Some,
                        k as int,
                    )) by {
                        lemma_live_node_views(el_before);
                        assert(el_before.len() == ol + appended_count(k as int, ol, nl));
                        if (k as int) < ol {
                            assert(vstd::math::min(k as int, nl) <= k);
                            assert(appended_count(k as int, ol, nl) >= 0);
                            assert((k as int) < el_before.len());
                            assert(live_node_views(el_before)[k as int] == live0[k as int]);
                            assert(crate::live::displays(live0[k as int], ocvs[k as int]));
                        } else {
                            if (k as int) < nl {
                                assert(appended_count(k as int, ol, nl) == k - ol);
                                assert(el_before.len() == k);
                                assert(live_node_views(el_before).len() == k);
                            }
                        }
                    }
                }
            }
            let res = self.update_element(
                el_children,
                child_path,
                nc,
                oc,
                k,
                &mut pending_child,
            );
            match res {
                Ok(fo) => {
                    match fo {
                        Some(f) => {
                            filled_children.push(f);
                        },
                        None => {},
                    }
                    proof {
                        assert(el_children@.len() == el_before.len() + (
                        if oc is None && nc is Some {
                            1int
                        } else {
                            0int
                        }));
                        assert(forall|j2: int|
                            0 <= j2 < el_before.len() && (j2 != k as int || oc is None)
                                ==> el_children@[j2] == el_before[j2]);
                        lemma_html_views(filled_children@);
                        lemma_html_views(filled_before);
                        lemma_live_node_views(el_children@);
                        lemma_live_node_views(el_before);
                        if (k as int) < nl {
                            assert(html_views(filled_children@) =~= html_views(
                                filled_before,
                            ).push(filled_children@.last()@));
                        } else {
                            assert(filled_children@ == filled_before);
                        }
                        if cons {
                            if oc is None && nc is Some {
                                assert(appended_count(k + 1, ol, nl) == appended_count(
                                    k as int,
                                    ol,
                                    nl,
                                ) + 1);
                            } else {
                                assert(appended_count(k + 1, ol, nl) == appended_count(
                                    k as int,
                                    ol,
                                    nl,
                                ));
                            }
                            assert forall|j: int|
                                0 <= j < vstd::math::min(k + 1, nl) implies (#[trigger] html_views(
                                filled_children@,
                            )[j]).similar(ncvs[j]) && html_views(filled_children@)[j].wf()
                                && html_views(filled_children@)[j].bound_below(
                                self.binder.next_handle,
                            ) by {
                                if j < vstd::math::min(k as int, nl) {
                                    assert(html_views(filled_children@)[j] == html_views(
                                        filled_before,
                                    )[j]);
                                    crate::html::lemma_bound_below_mono(
                                        html_views(filled_before)[j],
                                        self_before.binder.next_handle,
                                        self.binder.next_handle,
                                    );
                                } else {
                                    assert(j == k && (k as int) < nl);
                                    assert(html_views(filled_children@)[j]
                                        == filled_children@.last()@);
                                }
                            }
                            assert forall|j: int|
                                0 <= j < vstd::math::min(k + 1, nl) implies crate::live::displays(
                                #[trigger] live_node_views(el_children@)[j],
                                html_views(filled_children@)[j],
                            ) by {
                                if j < vstd::math::min(k as int, nl) {
                                    assert(html_views(filled_children@)[j] == html_views(
                                        filled_before,
                                    )[j]);
                                    assert(j < el_before.len());
                                    assert(el_children@[j] == el_before[j]);
                                    assert(live_node_views(el_children@)[j] == live_node_views(
                                        el_before,
                                    )[j]);
                                    crate::html::lemma_bound_below_mono(
                                        html_views(filled_before)[j],
                                        self_before.binder.next_handle,
                                        self.binder.next_handle,
                                    );
                                } else {
                                    assert(j == k && (k as int) < nl);
                                    assert(html_views(filled_children@)[j]
                                        == filled_children@.last()@);
                                }
                            }
                            assert forall|j: int|
                                vstd::math::min(k + 1, nl) <= j < ol
                                    implies #[trigger] live_node_views(el_children@)[j] == live0[
                                j] by {
                                assert(j < el_before.len());
                                if j == k {
                                    assert(opt_html_view(oc) is Some);
                                    assert(nc is None);
                                    assert(el_children@ == el_before);
                                }
                                assert(el_children@[j] == el_before[j]);
                                assert(live_node_views(el_before)[j] == live0[j]);
                            }
                        }
                    }
                },
                Err(e) => {
                    proof {
                        if cons {
                            assert(false);
                        }
                    }
                    return Err(e);
                },
            }
            k = k + 1;
        }
        proof {
            assert(ncvs.skip(vstd::math::min(n_pairs as int, nl)) =~= Seq::<
                HtmlView<Msg::V, F::V>,
            >::empty());
            assert(ocvs.skip(vstd::math::min(n_pairs as int, ol)) =~= Seq::<
                HtmlView<Msg::V, F::V>,
            >::empty());
        }
        let ghost self2 = *self;
        let ghost elmid = el_children@;
        // Execute the deferred removals, highest position first, so that no
        // removal shifts a position that a later removal still names.
        while pending_child.len() > 0
            invariant
                forall|p: int, q: int|
                    0 <= p < q < pending_child@.len() ==> pending_child@[p] < pending_child@[q],
                forall|p: int|
                    0 <= p < pending_child@.len() ==> (#[trigger] pending_child@[p])
                        < el_children@.len(),
                live_all_wf(live_node_views(el_children@), self.binder.next_handle),
                self.binder == self2.binder,
                self.warnings@ == self2.warnings@,
                cons ==> {
                    &&& el_children@.len() == nl + pending_child@.len()
                    &&& forall|p: int|
                        0 <= p < pending_child@.len() ==> pending_child@[p] == nl + p
                    &&& forall|j: int|
                        0 <= j < nl ==> #[trigger] live_node_views(el_children@)[j]
                            == live_node_views(elmid)[j]
                },
                cons && ol == nl && (forall|j: int|
                    0 <= j < ol ==> (#[trigger] ocvs[j]).similar(ncvs[j])) ==> (live_node_views(
                    el_children@,
                ) == live0 && self.cmds@ == self2.cmds@),
            decreases pending_child@.len(),
        {
            let idx_opt = pending_child.pop();
            let idx = match idx_opt {
                Some(v) => v,
                None => {
                    proof {
                        assert(false);
                    }
                    0
                },
            };
            self.cmds.push(Mutation::RemoveChild { parent: child_path.clone(), index: idx });
            let ghost ecv = el_children@;
            el_children.remove(idx);
            proof {
                lemma_live_node_views(el_children@);
                lemma_live_node_views(ecv);
                assert(live_node_views(el_children@) =~= live_node_views(ecv).remove(idx as int));
                assert forall|j: int|
                    0 <= j < live_node_views(el_children@).len() implies (
                #[trigger] live_node_views(el_children@)[j]).wf() && live_handles_below(
                    live_node_views(el_children@)[j],
                    self.binder.next_handle,
                ) by {
                    let j0 = if j < idx {
                        j
                    } else {
                        j + 1
                    };
                    assert(live_node_views(el_children@)[j] == live_node_views(ecv)[j0]);
                }
                if cons {
                    assert(idx == nl + pending_child@.len());
                    assert forall|j: int|
                        0 <= j < nl implies #[trigger] live_node_views(el_children@)[j]
                            == live_node_views(elmid)[j] by {
                        assert(live_node_views(el_children@)[j] == live_node_views(ecv)[j]);
                    }
                }
            }
        }
        proof {
            lemma_html_views(filled_children@);
            lemma_live_node_views(el_children@);
            if cons {
                assert(el_children@.len() == nl);
                assert forall|j: int| 0 <= j < nl implies crate::live::displays(
                    #[trigger] live_node_views(el_children@)[j],
                    html_views(filled_children@)[j],
                ) by {
                    assert(live_node_views(el_children@)[j] == live_node_views(elmid)[j]);
                }
                if ol == nl && (forall|j: int|
                    0 <= j < ol ==> (#[trigger] ocvs[j]).similar(ncvs[j])) {
                    assert(live_node_views(el_children@) == live0);
                }
            }
        }
        Ok(filled_children)
    }
}

} // verus!
verus! {

impl Renderer {
    /// In-place update of the live element at `index`, whose tag is
    /// unchanged between the previous and the new tree: diff the
    /// attributes, transfer retained listener handles, then diff the
    /// children pairwise by position.
    #[verifier::rlimit(100)]
    fn update_matching_element<Msg: Message, F: EventClosure<Msg>>(
        &mut self,
        live_children: &mut Vec<LiveNode>,
        path: &Vec<usize>,
        ot: HtmlTag<Msg, F>,
        nt: HtmlTag<Msg, F>,
        index: usize,
    ) -> (r: Result<Option<Html<Msg, F>>, RenderError>)
        requires
            ot.tag@ == nt.tag@,
            HtmlView::Tag(nt@).wf(),
            HtmlView::Tag(nt@).unbound(),
            HtmlView::Tag(ot@).wf(),
            HtmlView::Tag(ot@).bound_below(old(self).binder.next_handle),
            old(self).binder.next_handle + HtmlView::Tag(nt@).update_budget() <= u64::MAX,
            old(self).binder.binds + HtmlView::Tag(nt@).update_budget() <= u64::MAX,
            old(self).binder.unbinds + HtmlView::Tag(ot@).update_budget() <= u64::MAX,
            live_all_wf(live_node_views(old(live_children)@), old(self).binder.next_handle),
        ensures
            old(self).binder.next_handle <= final(self).binder.next_handle <= old(self).binder.next_handle + HtmlView::Tag(nt@).update_budget(),
            old(self).binder.binds <= final(self).binder.binds <= old(self).binder.binds
                + HtmlView::Tag(nt@).update_budget(),
            old(self).binder.unbinds <= final(self).binder.unbinds <= old(self).binder.unbinds
                + HtmlView::Tag(ot@).update_budget(),
            final(live_children)@.len() == old(live_children)@.len(),
            forall|j: int|
                0 <= j < old(live_children)@.len() && j != index ==> final(live_children)@[j]
                    == old(live_children)@[j],
            live_all_wf(live_node_views(final(live_children)@), final(self).binder.next_handle),
            r matches Ok(f) ==> f is Some,
            r is Err ==> !(index < old(live_children)@.len() && crate::live::displays(
                live_node_views(old(live_children)@)[index as int],
                HtmlView::Tag(ot@),
            )),
            (index < old(live_children)@.len() && crate::live::displays(
                live_node_views(old(live_children)@)[index as int],
                HtmlView::Tag(ot@),
            )) ==> {
                &&& r is Ok
                &&& r matches Ok(f) && f matches Some(ft) && {
                    &&& ft@.similar(HtmlView::Tag(nt@))
                    &&& ft@.wf()
                    &&& ft@.bound_below(final(self).binder.next_handle)
                    &&& crate::live::displays(final(live_children)@[index as int]@, ft@)
                    &&& final(self).warnings@ == old(self).warnings@
                    &&& (HtmlView::Tag(ot@).similar(HtmlView::Tag(nt@)) ==> (live_node_views(
                        final(live_children)@,
                    ) == live_node_views(old(live_children)@) && final(self).binder == old(self).binder && final(self).cmds@ == old(self).cmds@ && ft@ == HtmlView::Tag(
                        ot@,
                    )))
                }
            },
        decreases children_sizes(html_views(nt.children@)), 2nat,
    {
        let ghost otv = ot@;
        let ghost ntv = nt@;
        let ghost live0 = live_node_views(old(live_children)@);
        let ghost next0 = old(self).binder.next_handle;
        let ghost self0 = *self;
        proof {
            lemma_live_node_views(live_children@);
        }
        if index >= live_children.len() {
            return Err(RenderError::NodeNotFound { path: path.clone(), index });
        }
        let ghost cons = crate::live::displays(live0[index as int], HtmlView::Tag(otv));
        let child = live_children.remove(index);
        let ghost childv = child@;
        proof {
            assert(childv == live0[index as int]);
            assert(childv.wf() && live_handles_below(childv, next0));
        }
        let mut el = match child {
            LiveNode::Text(s) => {
                live_children.insert(index, LiveNode::Text(s));
                proof {
                    assert(live_children@ =~= old(live_children)@);
                    assert(!cons);
                }
                return Err(RenderError::NodeNotFound { path: path.clone(), index });
            },
            LiveNode::Element(el) => el,
        };
        let ghost el0 = el;
        proof {
            assert(childv == LiveNodeView::Element(el@));
            assert(crate::live::distinct_keys(el@.props));
            assert(crate::live::distinct_keys(el@.styles));
            assert forall|a: int, b: int|
                0 <= a < b < el.listener_assoc().len() implies (#[trigger] el.listener_assoc()[
                a]).0 != (#[trigger] el.listener_assoc()[b]).0 by {
                assert(el.listener_assoc()[a].0 == el@.listeners[a].handle);
                assert(el.listener_assoc()[b].0 == el@.listeners[b].handle);
            }
            assert(el_listeners_below(el@.listeners, next0));
            assert forall|j: int|
                0 <= j < el@.children.len() implies (#[trigger] el@.children[j]).wf()
                    && live_handles_below(el@.children[j], next0) by {}
        }
        let HtmlTag { tag: otag, attrs: oattrs, children: ochildren } = ot;
        let HtmlTag { tag: ntag, attrs: nattrs, children: nchildren } = nt;
        let mut child_path = path.clone();
        child_path.push(index);
        let ghost na = nattrs@;
        let ghost oa = oattrs@;
        let ghost och = ochildren@;
        let ghost nch = nchildren@;
        let ghost ocvs = html_views(och);
        let ghost ncvs = html_views(nch);
        proof {
            assert(child_path@ =~= path@.push(index));
            assert(attr_views(na) == ntv.attrs);
            assert(attr_views(oa) == otv.attrs);
            assert(ntv.attrs.len() == na.len());
            assert(otv.attrs.len() == oa.len());
            lemma_html_views(och);
            lemma_html_views(nch);
            assert(ocvs == otv.children);
            assert(ncvs == ntv.children);
            crate::html::lemma_attrs_event_count_le(ntv.attrs);
            if cons {
                assert(crate::live::displays_attrs(el0@, otv.attrs));
                assert(crate::live::attrs_bound_below(otv.attrs, next0)) by {
                    assert forall|i: int, j: int|
                        0 <= i < j < otv.attrs.len() && (#[trigger] otv.attrs[i]) is Event && (
                        #[trigger] otv.attrs[j]) is Event implies otv.attrs[i].event().handle
                        != otv.attrs[j].event().handle by {
                        assert(crate::html::attrs_both_events(otv.attrs, i, j));
                    }
                }
            }
        }
        let filled_attrs = diff_attrs(
            &mut el,
            &child_path,
            oattrs,
            nattrs,
            &mut self.binder,
            &mut self.cmds,
            &mut self.warnings,
        );
        let ghost self1 = *self;
        let ghost el1 = el;
        let ghost favs = attr_views(filled_attrs@);
        proof {
            assert(el1@.children == el0@.children);
            assert(favs.len() == ntv.attrs.len());
            assert forall|j: int|
                0 <= j < favs.len() implies (#[trigger] favs[j]).strip_handle() == ntv.attrs[
                j].strip_handle() by {
                assert(attr_views(na)[j] == ntv.attrs[j]);
            }
            lemma_live_node_views(el.children@);
            assert forall|j: int|
                0 <= j < live_node_views(el.children@).len() implies (
            #[trigger] live_node_views(el.children@)[j]).wf() && live_handles_below(
                live_node_views(el.children@)[j],
                self.binder.next_handle,
            ) by {
                assert(live_node_views(el.children@)[j] == el0@.children[j]);
                crate::live::lemma_live_handles_below_mono(
                    el0@.children[j],
                    next0,
                    self.binder.next_handle,
                );
            }
            assert forall|j: int|
                0 <= j < nch.len() implies (#[trigger] html_views(nch)[j]).wf() && html_views(
                nch,
            )[j].unbound() by {
                assert(ntv.children[j] == ncvs[j]);
            }
            assert forall|j: int|
                0 <= j < och.len() implies (#[trigger] html_views(och)[j]).wf() && html_views(
                och,
            )[j].bound_below(self.binder.next_handle) by {
                assert(otv.children[j] == ocvs[j]);
                crate::html::lemma_bound_below_mono(ocvs[j], next0, self.binder.next_handle);
            }
            lemma_num_stale_unbinds_le(otv.attrs, ntv.attrs);
            lemma_num_fresh_le(ntv.attrs, otv.attrs);
            assert(self1.binder.next_handle <= next0 + ntv.attrs.len());
        }
        let res_children = self.diff_children(&mut el.children, &child_path, ochildren, nchildren);
        let filled_children = match res_children {
            Ok(fc) => fc,
            Err(e) => {
                live_children.insert(index, LiveNode::Element(el));
                proof {
                    lemma_live_node_views(live_children@);
                    assert forall|j: int|
                        0 <= j < live_node_views(live_children@).len() implies (
                    #[trigger] live_node_views(live_children@)[j]).wf() && live_handles_below(
                        live_node_views(live_children@)[j],
                        self.binder.next_handle,
                    ) by {
                        if j != index {
                            assert(live_node_views(live_children@)[j] == live0[j]);
                            crate::live::lemma_live_handles_below_mono(
                                live0[j],
                                next0,
                                self.binder.next_handle,
                            );
                        } else {
                            assert(live_node_views(live_children@)[index as int]
                                == LiveNodeView::Element(el@));
                            assert(crate::live::distinct_keys(el@.props));
                            assert(crate::live::distinct_keys(el@.styles));
                            assert forall|a: int, b: int|
                                0 <= a < b < el@.listeners.len() implies (
                            #[trigger] el@.listeners[a]).handle != (#[trigger] el@.listeners[
                                b]).handle by {
                                assert(el.listener_assoc()[a].0 == el@.listeners[a].handle);
                                assert(el.listener_assoc()[b].0 == el@.listeners[b].handle);
                            }
                            assert(el_listeners_below(el@.listeners, self.binder.next_handle));
                            lemma_live_node_views(el.children@);
                            assert(el@.children == live_node_views(el.children@));
                        }
                    }
                    if cons {
                        assert(children_consistent(
                            live_node_views(el1.children@),
                            html_views(och),
                        )) by {
                            assert(el1@.children.len() == otv.children.len());
                            assert forall|j: int| 0 <= j < och.len() implies crate::live::displays(
                                #[trigger] live_node_views(el1.children@)[j],
                                html_views(och)[j],
                            ) by {
                                assert(live_node_views(el1.children@)[j] == el0@.children[j]);
                                assert(crate::live::displays(el0@.children[j], otv.children[j]));
                            }
                        }
                        assert(false);
                    }
                }
                return Err(e);
            },
        };
        let ghost fcvs = html_views(filled_children@);
        let ghost elv = el@;
        let ghost el_assoc = el.listener_assoc();
        proof {
            lemma_live_node_views(el.children@);
            lemma_html_views(filled_children@);
            assert(elv.children == live_node_views(el.children@));
            assert(el_assoc =~= crate::live::listener_pairs(elv.listeners));
        }
        let f = Html::Tag(HtmlTag { tag: ntag, attrs: filled_attrs, children: filled_children });
        live_children.insert(index, LiveNode::Element(el));
        proof {
            lemma_live_node_views(live_children@);
            assert(live_children@ =~= old(live_children)@.update(
                index as int,
                live_children@[index as int],
            ));
            assert(live_node_views(live_children@)[index as int] == LiveNodeView::Element(elv));
            assert(f@ == HtmlView::Tag(HtmlTagView { tag: ntv.tag, attrs: favs, children: fcvs }));
            assert forall|j: int|
                0 <= j < live_node_views(live_children@).len() implies (
            #[trigger] live_node_views(live_children@)[j]).wf() && live_handles_below(
                live_node_views(live_children@)[j],
                self.binder.next_handle,
            ) by {
                if j != index {
                    assert(live_node_views(live_children@)[j] == live0[j]);
                    crate::live::lemma_live_handles_below_mono(
                        live0[j],
                        next0,
                        self.binder.next_handle,
                    );
                } else {
                    assert(crate::live::distinct_keys(elv.props));
                    assert(crate::live::distinct_keys(elv.styles));
                    assert forall|a: int, b: int|
                        0 <= a < b < elv.listeners.len() implies (#[trigger] elv.listeners[
                        a]).handle != (#[trigger] elv.listeners[b]).handle by {
                        assert(el_assoc[a].0 == elv.listeners[a].handle);
                        assert(el_assoc[b].0 == elv.listeners[b].handle);
                    }
                    assert(el_listeners_below(elv.listeners, self.binder.next_handle));
                }
            }
            if cons {
                assert(children_consistent(live_node_views(el1.children@), html_views(och))) by {
                    assert(el1@.children.len() == otv.children.len());
                    assert forall|j: int| 0 <= j < och.len() implies crate::live::displays(
                        #[trigger] live_node_views(el1.children@)[j],
                        html_views(och)[j],
                    ) by {
                        assert(live_node_views(el1.children@)[j] == el0@.children[j]);
                        assert(crate::live::displays(el0@.children[j], otv.children[j]));
                    }
                }
                assert(f@.similar(HtmlView::Tag(ntv))) by {
                    assert forall|j: int| 0 <= j < favs.len() implies (#[trigger] favs[j]).matches(
                        ntv.attrs[j],
                    ) by {}
                    assert forall|j: int| 0 <= j < ncvs.len() implies (#[trigger] fcvs[j]).similar(
                        ncvs[j],
                    ) by {
                        assert(html_views(filled_children@)[j].similar(html_views(nch)[j]));
                    }
                }
                crate::html::lemma_similar_wf(f@, HtmlView::Tag(ntv));
                assert(crate::live::displays_attrs(elv, favs));
                assert(elv.tag == otv.tag);
                assert(crate::live::displays(LiveNodeView::Element(elv), f@)) by {
                    assert forall|j: int| 0 <= j < fcvs.len() implies crate::live::displays(
                        #[trigger] elv.children[j],
                        fcvs[j],
                    ) by {
                        assert(elv.children[j] == live_node_views(el.children@)[j]);
                    }
                }
                assert(f@.bound_below(self.binder.next_handle)) by {
                    assert(crate::live::attrs_bound_below(favs, self1.binder.next_handle));
                    assert forall|i: int|
                        0 <= i < favs.len() && (#[trigger] favs[i]) is Event implies favs[
                        i].event().handle is Some && favs[i].event().handle->0
                        < self.binder.next_handle by {}
                    assert forall|a: int, b: int|
                        0 <= a < b < favs.len() && crate::html::attrs_both_events(
                            favs,
                            a,
                            b,
                        ) implies #[trigger] favs[a].event().handle != (
                        #[trigger] favs[b].event().handle) by {
                        assert(favs[a] is Event && favs[b] is Event);
                    }
                    assert forall|j: int| 0 <= j < fcvs.len() implies (
                    #[trigger] fcvs[j]).bound_below(self.binder.next_handle) by {}
                }
                if HtmlView::Tag(otv).similar(HtmlView::Tag(ntv)) {
                    assert(otv.attrs.len() == ntv.attrs.len());
                    assert forall|j: int|
                        0 <= j < otv.attrs.len() implies (#[trigger] otv.attrs[j]).matches(
                        ntv.attrs[j],
                    ) by {}
                    assert(el1 == el0 && self1.binder == self0.binder && self1.cmds@
                        == self0.cmds@ && self1.warnings@ == self0.warnings@);
                    assert(favs == otv.attrs);
                    assert(och.len() == nch.len());
                    assert forall|j: int|
                        0 <= j < och.len() implies (#[trigger] html_views(och)[j]).similar(
                        html_views(nch)[j],
                    ) by {
                        assert(otv.children[j].similar(ntv.children[j]));
                    }
                    assert(fcvs =~= ocvs);
                    assert(f@ == HtmlView::Tag(otv)) by {
                        assert(ntv.tag == otv.tag);
                        assert(HtmlView::Tag(HtmlTagView {
                            tag: ntv.tag,
                            attrs: favs,
                            children: fcvs,
                        }) =~= HtmlView::Tag(otv));
                    }
                    assert(el1 == el0);
                    assert(elv =~= el0@) by {
                        assert(elv.children == live_node_views(el.children@));
                        assert(live_node_views(el.children@) == live_node_views(el1.children@));
                        assert(el1@.children == live_node_views(el1.children@));
                    }
                    assert(live_node_views(live_children@) =~= live0) by {
                        assert forall|j: int|
                            0 <= j < live0.len() implies #[trigger] live_node_views(
                            live_children@,
                        )[j] == live0[j] by {
                            if j == index {
                                assert(live_node_views(live_children@)[j]
                                    == LiveNodeView::Element(elv));
                                assert(live0[j] == childv);
                                assert(childv == LiveNodeView::Element(el0@));
                            }
                        }
                    }
                    assert(self.binder == old(self).binder);
                    assert(self.cmds@ == old(self).cmds@);
                }
            }
        }
        Ok(Some(f))
    }
}

} // verus!

verus! {

/// One full reconciliation pass at the mount point: diff the new tree
/// against the previously rendered one and patch the mount's single child
/// in place, emitting the commands an embedder replays.  Returns the new
/// tree with every handle slot filled; it becomes the previously rendered
/// tree of the next pass.
pub fn render<Msg: Message, F: EventClosure<Msg>>(
    live: &mut Vec<LiveNode>,
    new_tree: Html<Msg, F>,
    old_tree: Option<Html<Msg, F>>,
    renderer: &mut Renderer,
) -> (r: Result<Html<Msg, F>, RenderError>)
    requires
        new_tree@.wf(),
        new_tree@.unbound(),
        old_tree matches Some(t) ==> t@.wf() && t@.bound_below(old(renderer).binder.next_handle),
        old(renderer).binder.next_handle + new_tree@.update_budget() <= u64::MAX,
        old(renderer).binder.binds + new_tree@.update_budget() <= u64::MAX,
        old(renderer).binder.unbinds + opt_budget(opt_html_view(old_tree)) <= u64::MAX,
        live_all_wf(live_node_views(old(live)@), old(renderer).binder.next_handle),
        match old_tree {
            Some(t) => old(live)@.len() == 1 && crate::live::displays(
                live_node_views(old(live)@)[0],
                t@,
            ),
            None => old(live)@.len() == 0,
        },
    ensures
        r is Ok,
        old(renderer).binder.next_handle <= final(renderer).binder.next_handle <= old(
            renderer,
        ).binder.next_handle + new_tree@.update_budget(),
        old(renderer).binder.binds <= final(renderer).binder.binds <= old(
            renderer,
        ).binder.binds + new_tree@.update_budget(),
        old(renderer).binder.unbinds <= final(renderer).binder.unbinds <= old(
            renderer,
        ).binder.unbinds + opt_budget(opt_html_view(old_tree)),
        r matches Ok(ft) ==> {
            &&& ft@.similar(new_tree@)
            &&& ft@.wf()
            &&& ft@.bound_below(final(renderer).binder.next_handle)
            &&& final(live)@.len() == 1
            &&& crate::live::displays(live_node_views(final(live)@)[0], ft@)
            &&& live_all_wf(live_node_views(final(live)@), final(renderer).binder.next_handle)
            &&& (old_tree matches Some(t) ==> (t@.similar(new_tree@) ==> (live_node_views(
                final(live)@,
            ) == live_node_views(old(live)@) && final(renderer).binder == old(renderer).binder
                && final(renderer).cmds@ == old(renderer).cmds@ && final(renderer).warnings@
                == old(renderer).warnings@ && ft@ == t@)))
            &&& (old_tree is None ==> (mutation_views(final(renderer).cmds@) == mutation_views(
                old(renderer).cmds@,
            ).push(
                MutationView::AppendChild {
                    parent: Seq::empty(),
                    node: live_node_views(final(live)@)[0],
                },
            ) && final(renderer).warnings@ == old(renderer).warnings@))
            &&& (old_tree matches Some(t) ==> final(renderer).warnings@ == old(
                renderer,
            ).warnings@)
        },
{
    let path: Vec<usize> = Vec::new();
    let mut pending: Vec<usize> = Vec::new();
    let ghost cons = slot_consistent(
        live_node_views(old(live)@),
        opt_html_view(old_tree),
        true,
        0,
    );
    proof {
        assert(path@ =~= Seq::<usize>::empty());
        lemma_live_node_views(live@);
        assert(cons);
    }
    let res = renderer.update_element(live, &path, Some(new_tree), old_tree, 0, &mut pending);
    match res {
        Ok(fo) => match fo {
            Some(f) => Ok(f),
            None => {
                proof {
                    assert(false);
                }
                Err(RenderError::NodeNotFound { path, index: 0 })
            },
        },
        Err(e) => {
            proof {
                assert(false);
            }
            Err(e)
        },
    }
}

} // verus!
