//! A model of the live target document: the mutable tree of elements and
//! text nodes that the renderer patches.  An element records its applied
//! properties, inline styles and bound listeners; `displays` relates a live
//! node to the virtual tree it currently shows.

use vstd::prelude::*;

use crate::html::{AttributeView, HtmlView, PropertyValue, PropertyValueView};

verus! {

broadcast use vstd::std_specs::vec::group_vec_axioms, vstd::seq::group_seq_axioms;

/// A listener registered on a live element: the event type listened for, the
/// handle that identifies the registered native callback, and the flags the
/// callback applies to the native event before deriving a message.
pub struct LiveListener {
    pub type_: String,
    pub handle: u64,
    pub stop_propagation: bool,
    pub prevent_default: bool,
}

/// What a listener does, apart from the handle that identifies it.
#[verifier::ext_equal]
pub struct ListenerInfoView {
    pub type_: Seq<char>,
    pub stop_propagation: bool,
    pub prevent_default: bool,
}

/// Ghost view of a live listener: its handle paired with what it does.
#[verifier::ext_equal]
pub struct LiveListenerView {
    pub handle: u64,
    pub info: ListenerInfoView,
}

impl View for LiveListener {
    type V = LiveListenerView;

    open spec fn view(&self) -> LiveListenerView {
        LiveListenerView {
            handle: self.handle,
            info: ListenerInfoView {
                type_: self.type_@,
                stop_propagation: self.stop_propagation,
                prevent_default: self.prevent_default,
            },
        }
    }
}

/// A live element: tag, applied properties and styles (keyed by name), bound
/// listeners (keyed by handle), and ordered children.
pub struct LiveElement {
    pub tag: String,
    pub props: Vec<(String, PropertyValue)>,
    pub styles: Vec<(String, String)>,
    pub listeners: Vec<LiveListener>,
    pub children: Vec<LiveNode>,
}

/// A node of the live document.
pub enum LiveNode {
    Element(LiveElement),
    Text(String),
}

/// Ghost view of a live element.
#[verifier::ext_equal]
pub struct LiveElementView {
    pub tag: Seq<char>,
    pub props: Seq<(Seq<char>, PropertyValueView)>,
    pub styles: Seq<(Seq<char>, Seq<char>)>,
    pub listeners: Seq<LiveListenerView>,
    pub children: Seq<LiveNodeView>,
}

/// Ghost view of a live node.
#[verifier::ext_equal]
pub enum LiveNodeView {
    Element(LiveElementView),
    Text(Seq<char>),
}

/// The views of a property list, in order.
pub open spec fn prop_pair_views(s: Seq<(String, PropertyValue)>) -> Seq<
    (Seq<char>, PropertyValueView),
> {
    Seq::new(s.len(), |i: int| (s[i].0@, s[i].1@))
}

/// The views of a style list, in order.
pub open spec fn style_pair_views(s: Seq<(String, String)>) -> Seq<(Seq<char>, Seq<char>)> {
    Seq::new(s.len(), |i: int| (s[i].0@, s[i].1@))
}

/// The views of a listener list, in order.
pub open spec fn listener_views(s: Seq<LiveListener>) -> Seq<LiveListenerView> {
    Seq::new(s.len(), |i: int| s[i]@)
}

impl View for LiveElement {
    type V = LiveElementView;

    open spec fn view(&self) -> LiveElementView
        decreases *self,
    {
        LiveElementView {
            tag: self.tag@,
            props: prop_pair_views(self.props@),
            styles: style_pair_views(self.styles@),
            listeners: listener_views(self.listeners@),
            children: live_node_views(self.children@),
        }
    }
}

impl View for LiveNode {
    type V = LiveNodeView;

    open spec fn view(&self) -> LiveNodeView
        decreases *self,
    {
        match self {
            LiveNode::Element(e) => LiveNodeView::Element(e@),
            LiveNode::Text(s) => LiveNodeView::Text(s@),
        }
    }
}

/// The views of a sequence of live nodes, in order.
pub open spec fn live_node_views(s: Seq<LiveNode>) -> Seq<LiveNodeView>
    decreases s,
{
    if s.len() == 0 {
        Seq::empty()
    } else {
        seq![s[0]@] + live_node_views(s.drop_first())
    }
}

/// `live_node_views` maps the view over the sequence, elementwise.
pub proof fn lemma_live_node_views(s: Seq<LiveNode>)
    ensures
        live_node_views(s).len() == s.len(),
        forall|i: int| 0 <= i < s.len() ==> #[trigger] live_node_views(s)[i] == s[i]@,
    decreases s,
{
    if s.len() > 0 {
        lemma_live_node_views(s.drop_first());
        let h = seq![s[0]@];
        let rest = live_node_views(s.drop_first());
        assert(live_node_views(s) == h + rest);
        assert(live_node_views(s).len() == 1 + rest.len());
        assert forall|i: int| 0 <= i < s.len() implies #[trigger] live_node_views(s)[i] == s[
            i]@ by {
            if i == 0 {
                assert((h + rest)[0] == h[0]);
            } else {
                assert((h + rest)[i] == rest[i - 1]);
                assert(s.drop_first()[i - 1] == s[i]);
            }
        }
    }
}

/// The finite map that an association list denotes: a later entry for a key
/// overrides an earlier one, as setting a named property does.
pub open spec fn assoc_map<K, V>(s: Seq<(K, V)>) -> Map<K, V>
    decreases s,
{
    if s.len() == 0 {
        Map::empty()
    } else {
        assoc_map(s.drop_last()).insert(s.last().0, s.last().1)
    }
}

/// Pairwise-distinct keys in an association list.
pub open spec fn distinct_keys<K, V>(s: Seq<(K, V)>) -> bool {
    forall|i: int, j: int| 0 <= i < j < s.len() ==> (#[trigger] s[i].0) != (#[trigger] s[j].0)
}

/// All listener handles of this listener list are below `n`.
pub open spec fn el_listeners_below(listeners: Seq<LiveListenerView>, n: u64) -> bool {
    forall|i: int| 0 <= i < listeners.len() ==> (#[trigger] listeners[i]).handle < n
}

/// A key is in the denoted map exactly when some entry carries it.
pub proof fn lemma_assoc_map_membership<K, V>(s: Seq<(K, V)>, k: K)
    ensures
        assoc_map(s).contains_key(k) <==> exists|i: int| 0 <= i < s.len() && (#[trigger] s[i].0)
            == k,
    decreases s,
{
    if s.len() > 0 {
        lemma_assoc_map_membership(s.drop_last(), k);
        if s.last().0 == k {
            assert(s[s.len() - 1].0 == k);
        } else {
            if assoc_map(s).contains_key(k) {
                let i = choose|i: int|
                    0 <= i < s.drop_last().len() && (#[trigger] s.drop_last()[i].0) == k;
                assert(s[i].0 == k);
            }
            if exists|i: int| 0 <= i < s.len() && (#[trigger] s[i].0) == k {
                let i = choose|i: int| 0 <= i < s.len() && (#[trigger] s[i].0) == k;
                assert(s.drop_last()[i].0 == k);
            }
        }
    }
}

/// Under distinct keys, each entry gives the value the map takes at its key.
pub proof fn lemma_assoc_map_index<K, V>(s: Seq<(K, V)>, i: int)
    requires
        distinct_keys(s),
        0 <= i < s.len(),
    ensures
        assoc_map(s).contains_key(s[i].0),
        assoc_map(s)[s[i].0] == s[i].1,
    decreases s,
{
    if i == s.len() - 1 {
    } else {
        assert(s.drop_last()[i] == s[i]);
        lemma_assoc_map_index(s.drop_last(), i);
        assert(s[i].0 != s.last().0);
    }
}

/// Appending an entry denotes inserting into the map.
pub proof fn lemma_assoc_map_push<K, V>(s: Seq<(K, V)>, k: K, v: V)
    ensures
        assoc_map(s.push((k, v))) == assoc_map(s).insert(k, v),
{
    assert(s.push((k, v)).drop_last() =~= s);
    assert(s.push((k, v)).last() == (k, v));
}

/// Under distinct keys, removing the entry at `i` denotes removing its key
/// from the map.
pub proof fn lemma_assoc_map_remove<K, V>(s: Seq<(K, V)>, i: int)
    requires
        distinct_keys(s),
        0 <= i < s.len(),
    ensures
        assoc_map(s.remove(i)) == assoc_map(s).remove(s[i].0),
        distinct_keys(s.remove(i)),
    decreases s,
{
    assert forall|a: int, b: int| 0 <= a < b < s.remove(i).len() implies (#[trigger] s.remove(
        i)[a].0) != (#[trigger] s.remove(i)[b].0) by {
        let a0 = if a < i { a } else { a + 1 };
        let b0 = if b < i { b } else { b + 1 };
        assert(s.remove(i)[a] == s[a0]);
        assert(s.remove(i)[b] == s[b0]);
    }
    if i == s.len() - 1 {
        assert(s.remove(i) =~= s.drop_last());
        lemma_assoc_map_membership(s.drop_last(), s[i].0);
        assert forall|j: int| 0 <= j < s.drop_last().len() implies (#[trigger] s.drop_last()[
            j].0) != s[i].0 by {
            assert(s[j].0 != s[i].0);
        }
        assert(!assoc_map(s.drop_last()).contains_key(s[i].0));
        assert(assoc_map(s.drop_last()) =~= assoc_map(s.drop_last()).insert(
            s.last().0,
            s.last().1,
        ).remove(s[i].0));
    } else {
        assert(distinct_keys(s.drop_last()));
        assert(s.drop_last()[i] == s[i]);
        lemma_assoc_map_remove(s.drop_last(), i);
        assert(s.remove(i).drop_last() =~= s.drop_last().remove(i));
        assert(s.remove(i).last() == s.last());
        assert(assoc_map(s.remove(i)) == assoc_map(s.drop_last().remove(i)).insert(
            s.last().0,
            s.last().1,
        ));
        assert(s[i].0 != s.last().0);
        assert(assoc_map(s.drop_last()).remove(s[i].0).insert(s.last().0, s.last().1)
            =~= assoc_map(s.drop_last()).insert(s.last().0, s.last().1).remove(s[i].0));
    }
}

} // verus!

verus! {

/// The properties a well-formed attribute list asks to be present on the
/// live element, keyed by name.
pub open spec fn tree_prop_map<MV, FV>(attrs: Seq<AttributeView<MV, FV>>) -> Map<
    Seq<char>,
    PropertyValueView,
>
    decreases attrs,
{
    if attrs.len() == 0 {
        Map::empty()
    } else {
        let rest = tree_prop_map(attrs.drop_last());
        match attrs.last() {
            AttributeView::Property(k, v) => rest.insert(k, v),
            _ => rest,
        }
    }
}

/// The inline styles an attribute list asks to be present, keyed by name.
pub open spec fn tree_style_map<MV, FV>(attrs: Seq<AttributeView<MV, FV>>) -> Map<
    Seq<char>,
    Seq<char>,
>
    decreases attrs,
{
    if attrs.len() == 0 {
        Map::empty()
    } else {
        let rest = tree_style_map(attrs.drop_last());
        match attrs.last() {
            AttributeView::Style(k, v) => rest.insert(k, v),
            _ => rest,
        }
    }
}

/// The listeners the bound event attributes of an attribute list ask to be
/// registered, keyed by handle.
pub open spec fn tree_listener_map<MV, FV>(attrs: Seq<AttributeView<MV, FV>>) -> Map<
    u64,
    ListenerInfoView,
>
    decreases attrs,
{
    if attrs.len() == 0 {
        Map::empty()
    } else {
        let rest = tree_listener_map(attrs.drop_last());
        match attrs.last() {
            AttributeView::Event(e) => match e.handle {
                Some(h) => rest.insert(
                    h,
                    ListenerInfoView {
                        type_: e.type_,
                        stop_propagation: e.stop_propagation,
                        prevent_default: e.prevent_default,
                    },
                ),
                None => rest,
            },
            _ => rest,
        }
    }
}

impl LiveNodeView {
    /// Well-formed live node: property and style names and listener handles
    /// are pairwise distinct, recursively.
    pub open spec fn wf(self) -> bool
        decreases self,
    {
        match self {
            LiveNodeView::Text(_) => true,
            LiveNodeView::Element(le) => {
                &&& distinct_keys(le.props)
                &&& distinct_keys(le.styles)
                &&& forall|i: int, j: int|
                    0 <= i < j < le.listeners.len() ==> (#[trigger] le.listeners[i]).handle != (
                    #[trigger] le.listeners[j]).handle
                &&& forall|i: int|
                    0 <= i < le.children.len() ==> (#[trigger] le.children[i]).wf()
            }
        }
    }

    /// The map denoted by an element's listener list.
    pub open spec fn listener_map(self) -> Map<u64, ListenerInfoView>
        recommends
            self is Element,
    {
        assoc_map(Seq::new(self->Element_0.listeners.len(), |i: int| (self->Element_0.listeners[i].handle, self->Element_0.listeners[i].info)))
    }
}

/// The pairs (handle, info) of a listener list.
pub open spec fn listener_pairs(s: Seq<LiveListenerView>) -> Seq<(u64, ListenerInfoView)> {
    Seq::new(s.len(), |i: int| (s[i].handle, s[i].info))
}

/// What the bound listener of an event attribute does: its event type and
/// the flags its callback applies.
pub open spec fn event_info<MV, FV>(e: crate::html::EventView<MV, FV>) -> ListenerInfoView {
    ListenerInfoView {
        type_: e.type_,
        stop_propagation: e.stop_propagation,
        prevent_default: e.prevent_default,
    }
}

/// A live element's applied properties, styles and listeners are exactly
/// those the attribute list asks for.
pub open spec fn displays_attrs<MV, FV>(
    le: LiveElementView,
    attrs: Seq<AttributeView<MV, FV>>,
) -> bool {
    &&& assoc_map(le.props) == tree_prop_map(attrs)
    &&& assoc_map(le.styles) == tree_style_map(attrs)
    &&& assoc_map(listener_pairs(le.listeners)) == tree_listener_map(attrs)
}

/// Every event attribute of the list holds a handle below `n`, and the
/// handles are pairwise distinct.
pub open spec fn attrs_bound_below<MV, FV>(attrs: Seq<AttributeView<MV, FV>>, n: u64) -> bool {
    &&& forall|i: int|
        0 <= i < attrs.len() && (#[trigger] attrs[i]) is Event ==> attrs[i].event().handle is Some
            && attrs[i].event().handle->0 < n
    &&& forall|i: int, j: int|
        0 <= i < j < attrs.len() && (#[trigger] attrs[i]) is Event && (#[trigger] attrs[j])
            is Event ==> attrs[i].event().handle != attrs[j].event().handle
}

/// A live node displays a virtual tree when its tag and text content match,
/// its applied properties, styles and listeners are exactly those the tree's
/// attributes ask for, and its children display the tree's children, in
/// order.
pub open spec fn displays<MV, FV>(ln: LiveNodeView, t: HtmlView<MV, FV>) -> bool
    decreases t,
{
    match t {
        HtmlView::Text(s) => ln is Text && ln->Text_0 == s,
        HtmlView::Tag(tv) => match ln {
            LiveNodeView::Element(le) => {
                &&& le.tag == tv.tag
                &&& displays_attrs(le, tv.attrs)
                &&& le.children.len() == tv.children.len()
                &&& forall|i: int|
                    0 <= i < tv.children.len() ==> displays(
                        #[trigger] le.children[i],
                        tv.children[i],
                    )
            },
            LiveNodeView::Text(_) => false,
        },
    }
}

} // verus!

verus! {

/// Views commute with removing an entry from a property list.
pub proof fn lemma_prop_pair_views_remove(s: Seq<(String, PropertyValue)>, i: int)
    requires
        0 <= i < s.len(),
    ensures
        prop_pair_views(s.remove(i)) =~= prop_pair_views(s).remove(i),
{
}

/// Views commute with removing an entry from a style list.
pub proof fn lemma_style_pair_views_remove(s: Seq<(String, String)>, i: int)
    requires
        0 <= i < s.len(),
    ensures
        style_pair_views(s.remove(i)) =~= style_pair_views(s).remove(i),
{
}

/// Views commute with removing an entry from a listener list.
pub proof fn lemma_listener_views_remove(s: Seq<LiveListener>, i: int)
    requires
        0 <= i < s.len(),
    ensures
        listener_views(s.remove(i)) =~= listener_views(s).remove(i),
        listener_pairs(listener_views(s.remove(i))) =~= listener_pairs(listener_views(s)).remove(i),
{
}

} // verus!

verus! {

impl LiveElement {
    /// Delete the named property from this element, if present.
    pub fn remove_prop(&mut self, name: &String)
        requires
            distinct_keys(old(self)@.props),
        ensures
            distinct_keys(final(self)@.props),
            assoc_map(final(self)@.props) == assoc_map(old(self)@.props).remove(name@),
            final(self)@.tag == old(self)@.tag,
            final(self)@.styles == old(self)@.styles,
            final(self)@.listeners == old(self)@.listeners,
            final(self)@.children == old(self)@.children,
    {
        let n = self.props.len();
        let mut i: usize = 0;
        while i < n
            invariant
                *self == *old(self),
                self@ == old(self)@,
                distinct_keys(self@.props),
                n == self.props.len(),
                i <= n,
                forall|j: int| 0 <= j < i ==> (#[trigger] self@.props[j]).0 != name@,
            decreases n - i,
        {
            if self.props[i].0 == *name {
                proof {
                    assert(self@.props[i as int].0 == name@);
                    lemma_assoc_map_remove(self@.props, i as int);
                    lemma_prop_pair_views_remove(self.props@, i as int);
                }
                let ghost target = self@.props.remove(i as int);
                self.props.remove(i);
                proof {
                    assert(self@.props =~= target);
                }
                return ;
            }
            proof {
                assert(self@.props[i as int].0 == self.props@[i as int].0@);
            }
            i = i + 1;
        }
        proof {
            lemma_assoc_map_membership(self@.props, name@);
            assert(assoc_map(self@.props) =~= assoc_map(self@.props).remove(name@));
        }
    }

    /// Set the named property on this element, overwriting any present value.
    pub fn set_prop(&mut self, name: &String, value: PropertyValue)
        requires
            distinct_keys(old(self)@.props),
        ensures
            distinct_keys(final(self)@.props),
            assoc_map(final(self)@.props) == assoc_map(old(self)@.props).insert(name@, value@),
            final(self)@.tag == old(self)@.tag,
            final(self)@.styles == old(self)@.styles,
            final(self)@.listeners == old(self)@.listeners,
            final(self)@.children == old(self)@.children,
    {
        self.remove_prop(name);
        proof {
            lemma_assoc_map_membership(self@.props, name@);
            lemma_assoc_map_push(self@.props, name@, value@);
        }
        let ghost before = self@.props;
        let key = name.clone();
        self.props.push((key, value));
        proof {
            assert(self.props@.last().0 == *name);
            assert(self@.props =~= before.push((name@, value@)));
            assert forall|a: int, b: int|
                0 <= a < b < self@.props.len() implies (#[trigger] self@.props[a]).0 != (
                #[trigger] self@.props[b]).0 by {
                if b == self@.props.len() - 1 {
                    assert(!assoc_map(before).contains_key(name@));
                }
            }
            assert(assoc_map(self@.props) =~= assoc_map(old(self)@.props).insert(name@, value@));
        }
    }
}

} // verus!

verus! {

impl LiveElement {
    /// Delete the named inline style from this element, if present.
    pub fn remove_style(&mut self, name: &String)
        requires
            distinct_keys(old(self)@.styles),
        ensures
            distinct_keys(final(self)@.styles),
            assoc_map(final(self)@.styles) == assoc_map(old(self)@.styles).remove(name@),
            final(self)@.tag == old(self)@.tag,
            final(self)@.props == old(self)@.props,
            final(self)@.listeners == old(self)@.listeners,
            final(self)@.children == old(self)@.children,
    {
        let n = self.styles.len();
        let mut i: usize = 0;
        while i < n
            invariant
                *self == *old(self),
                self@ == old(self)@,
                distinct_keys(self@.styles),
                n == self.styles.len(),
                i <= n,
                forall|j: int| 0 <= j < i ==> (#[trigger] self@.styles[j]).0 != name@,
            decreases n - i,
        {
            if self.styles[i].0 == *name {
                proof {
                    assert(self@.styles[i as int].0 == name@);
                    lemma_assoc_map_remove(self@.styles, i as int);
                    lemma_style_pair_views_remove(self.styles@, i as int);
                }
                let ghost target = self@.styles.remove(i as int);
                self.styles.remove(i);
                proof {
                    assert(self@.styles =~= target);
                }
                return ;
            }
            proof {
                assert(self@.styles[i as int].0 == self.styles@[i as int].0@);
            }
            i = i + 1;
        }
        proof {
            lemma_assoc_map_membership(self@.styles, name@);
            assert(assoc_map(self@.styles) =~= assoc_map(self@.styles).remove(name@));
        }
    }

    /// Set the named inline style on this element, overwriting any present
    /// value.
    pub fn set_style(&mut self, name: &String, value: &String)
        requires
            distinct_keys(old(self)@.styles),
        ensures
            distinct_keys(final(self)@.styles),
            assoc_map(final(self)@.styles) == assoc_map(old(self)@.styles).insert(name@, value@),
            final(self)@.tag == old(self)@.tag,
            final(self)@.props == old(self)@.props,
            final(self)@.listeners == old(self)@.listeners,
            final(self)@.children == old(self)@.children,
    {
        self.remove_style(name);
        proof {
            lemma_assoc_map_membership(self@.styles, name@);
            lemma_assoc_map_push(self@.styles, name@, value@);
        }
        let ghost before = self@.styles;
        let key = name.clone();
        let val = value.clone();
        self.styles.push((key, val));
        proof {
            assert(self.styles@.last().0 == *name);
            assert(self.styles@.last().1 == *value);
            assert(self@.styles =~= before.push((name@, value@)));
            assert forall|a: int, b: int|
                0 <= a < b < self@.styles.len() implies (#[trigger] self@.styles[a]).0 != (
                #[trigger] self@.styles[b]).0 by {
                if b == self@.styles.len() - 1 {
                    assert(!assoc_map(before).contains_key(name@));
                }
            }
            assert(assoc_map(self@.styles) =~= assoc_map(old(self)@.styles).insert(name@, value@));
        }
    }

    /// The listener list as an association list from handle to what the
    /// listener does.
    pub open spec fn listener_assoc(self) -> Seq<(u64, ListenerInfoView)> {
        listener_pairs(listener_views(self.listeners@))
    }

    /// Register a listener on this element.  The handle must be one no
    /// listener of this element carries yet.
    pub fn add_listener(&mut self, l: LiveListener)
        requires
            distinct_keys(old(self).listener_assoc()),
            !assoc_map(old(self).listener_assoc()).contains_key(l.handle),
        ensures
            distinct_keys(final(self).listener_assoc()),
            assoc_map(final(self).listener_assoc()) == assoc_map(
                old(self).listener_assoc(),
            ).insert(l.handle, l@.info),
            final(self)@.listeners == old(self)@.listeners.push(l@),
            final(self)@.tag == old(self)@.tag,
            final(self)@.props == old(self)@.props,
            final(self)@.styles == old(self)@.styles,
            final(self)@.children == old(self)@.children,
    {
        proof {
            lemma_assoc_map_push(self.listener_assoc(), l.handle, l@.info);
            lemma_assoc_map_membership(self.listener_assoc(), l.handle);
        }
        let ghost before = self.listener_assoc();
        self.listeners.push(l);
        proof {
            assert(self.listener_assoc() =~= before.push((l.handle, l@.info)));
            assert forall|a: int, b: int|
                0 <= a < b < self.listener_assoc().len() implies (#[trigger] self.listener_assoc()[
                a]).0 != (#[trigger] self.listener_assoc()[b]).0 by {
                if b == self.listener_assoc().len() - 1 {
                    assert(!assoc_map(before).contains_key(l.handle));
                }
            }
        }
    }

    /// Unregister the listener with the given handle, if one is registered.
    /// Returns whether one was.
    pub fn remove_listener(&mut self, handle: u64) -> (found: bool)
        requires
            distinct_keys(old(self).listener_assoc()),
        ensures
            distinct_keys(final(self).listener_assoc()),
            assoc_map(final(self).listener_assoc()) == assoc_map(
                old(self).listener_assoc(),
            ).remove(handle),
            found == assoc_map(old(self).listener_assoc()).contains_key(handle),
            forall|n: u64|
                el_listeners_below(old(self)@.listeners, n) ==> #[trigger] el_listeners_below(
                    final(self)@.listeners,
                    n,
                ),
            final(self)@.tag == old(self)@.tag,
            final(self)@.props == old(self)@.props,
            final(self)@.styles == old(self)@.styles,
            final(self)@.children == old(self)@.children,
    {
        let n = self.listeners.len();
        let mut i: usize = 0;
        while i < n
            invariant
                *self == *old(self),
                self@ == old(self)@,
                distinct_keys(self.listener_assoc()),
                n == self.listeners.len(),
                i <= n,
                forall|j: int| 0 <= j < i ==> (#[trigger] self.listener_assoc()[j]).0 != handle,
            decreases n - i,
        {
            if self.listeners[i].handle == handle {
                proof {
                    assert(self.listener_assoc()[i as int].0 == handle);
                    lemma_assoc_map_index(self.listener_assoc(), i as int);
                    lemma_assoc_map_remove(self.listener_assoc(), i as int);
                    lemma_listener_views_remove(self.listeners@, i as int);
                }
                let ghost target = self.listener_assoc().remove(i as int);
                self.listeners.remove(i);
                proof {
                    assert(self.listener_assoc() =~= target);
                    assert(self@.listeners =~= old(self)@.listeners.remove(i as int));
                    assert forall|n: u64|
                        el_listeners_below(old(self)@.listeners, n) implies #[trigger] el_listeners_below(
                        self@.listeners,
                        n,
                    ) by {
                        assert forall|p: int|
                            0 <= p < self@.listeners.len() implies (#[trigger] self@.listeners[
                            p]).handle < n by {
                            let j = if p < i { p } else { p + 1 };
                            assert(self@.listeners[p] == old(self)@.listeners[j]);
                        }
                    }
                }
                return true;
            }
            proof {
                assert(self.listener_assoc()[i as int].0 == self.listeners@[i as int].handle);
            }
            i = i + 1;
        }
        proof {
            lemma_assoc_map_membership(self.listener_assoc(), handle);
            assert(assoc_map(self.listener_assoc()) =~= assoc_map(self.listener_assoc()).remove(
                handle,
            ));
        }
        false
    }
}

} // verus!

verus! {

/// A name is in the expected property map exactly when some property
/// attribute carries it.
pub proof fn lemma_tree_prop_map_membership<MV, FV>(attrs: Seq<AttributeView<MV, FV>>, k: Seq<char>)
    ensures
        tree_prop_map(attrs).contains_key(k) <==> exists|i: int|
            0 <= i < attrs.len() && (#[trigger] attrs[i]) is Property && attrs[i].prop_name() == k,
    decreases attrs,
{
    if attrs.len() > 0 {
        lemma_tree_prop_map_membership(attrs.drop_last(), k);
        let last = attrs.len() - 1;
        if attrs[last] is Property && attrs[last].prop_name() == k {
        } else {
            if tree_prop_map(attrs).contains_key(k) {
                let i = choose|i: int|
                    0 <= i < attrs.drop_last().len() && (#[trigger] attrs.drop_last()[i])
                        is Property && attrs.drop_last()[i].prop_name() == k;
                assert(attrs[i] is Property && attrs[i].prop_name() == k);
            }
            if exists|i: int|
                0 <= i < attrs.len() && (#[trigger] attrs[i]) is Property && attrs[i].prop_name()
                    == k {
                let i = choose|i: int|
                    0 <= i < attrs.len() && (#[trigger] attrs[i]) is Property
                        && attrs[i].prop_name() == k;
                assert(attrs.drop_last()[i] is Property && attrs.drop_last()[i].prop_name() == k);
            }
        }
    }
}

/// Property names are pairwise distinct among the property attributes.
pub open spec fn distinct_prop_names<MV, FV>(attrs: Seq<AttributeView<MV, FV>>) -> bool {
    forall|i: int, j: int|
        0 <= i < j < attrs.len() && attrs[i] is Property && attrs[j] is Property ==> (
        #[trigger] attrs[i].prop_name()) != (#[trigger] attrs[j].prop_name())
}

/// Under distinct property names, each property attribute gives the value
/// the expected map takes at its name.
pub proof fn lemma_tree_prop_map_index<MV, FV>(attrs: Seq<AttributeView<MV, FV>>, i: int)
    requires
        distinct_prop_names(attrs),
        0 <= i < attrs.len(),
        attrs[i] is Property,
    ensures
        tree_prop_map(attrs).contains_key(attrs[i].prop_name()),
        attrs[i] matches AttributeView::Property(k, v) ==> tree_prop_map(attrs)[k] == v,
    decreases attrs,
{
    if i == attrs.len() - 1 {
    } else {
        assert(attrs.drop_last()[i] == attrs[i]);
        lemma_tree_prop_map_index(attrs.drop_last(), i);
        if attrs.last() is Property {
            assert(attrs[i].prop_name() != attrs[attrs.len() - 1].prop_name());
        }
    }
}

/// A name is in the expected style map exactly when some style attribute
/// carries it.
pub proof fn lemma_tree_style_map_membership<MV, FV>(
    attrs: Seq<AttributeView<MV, FV>>,
    k: Seq<char>,
)
    ensures
        tree_style_map(attrs).contains_key(k) <==> exists|i: int|
            0 <= i < attrs.len() && (#[trigger] attrs[i]) is Style && attrs[i].style_name() == k,
    decreases attrs,
{
    if attrs.len() > 0 {
        lemma_tree_style_map_membership(attrs.drop_last(), k);
        let last = attrs.len() - 1;
        if attrs[last] is Style && attrs[last].style_name() == k {
        } else {
            if tree_style_map(attrs).contains_key(k) {
                let i = choose|i: int|
                    0 <= i < attrs.drop_last().len() && (#[trigger] attrs.drop_last()[i]) is Style
                        && attrs.drop_last()[i].style_name() == k;
                assert(attrs[i] is Style && attrs[i].style_name() == k);
            }
            if exists|i: int|
                0 <= i < attrs.len() && (#[trigger] attrs[i]) is Style && attrs[i].style_name()
                    == k {
                let i = choose|i: int|
                    0 <= i < attrs.len() && (#[trigger] attrs[i]) is Style && attrs[i].style_name()
                        == k;
                assert(attrs.drop_last()[i] is Style && attrs.drop_last()[i].style_name() == k);
            }
        }
    }
}

/// Style names are pairwise distinct among the style attributes.
pub open spec fn distinct_style_names<MV, FV>(attrs: Seq<AttributeView<MV, FV>>) -> bool {
    forall|i: int, j: int|
        0 <= i < j < attrs.len() && attrs[i] is Style && attrs[j] is Style ==> (
        #[trigger] attrs[i].style_name()) != (#[trigger] attrs[j].style_name())
}

/// Under distinct style names, each style attribute gives the value the
/// expected map takes at its name.
pub proof fn lemma_tree_style_map_index<MV, FV>(attrs: Seq<AttributeView<MV, FV>>, i: int)
    requires
        distinct_style_names(attrs),
        0 <= i < attrs.len(),
        attrs[i] is Style,
    ensures
        tree_style_map(attrs).contains_key(attrs[i].style_name()),
        attrs[i] matches AttributeView::Style(k, v) ==> tree_style_map(attrs)[k] == v,
    decreases attrs,
{
    if i == attrs.len() - 1 {
    } else {
        assert(attrs.drop_last()[i] == attrs[i]);
        lemma_tree_style_map_index(attrs.drop_last(), i);
        if attrs.last() is Style {
            assert(attrs[i].style_name() != attrs[attrs.len() - 1].style_name());
        }
    }
}

/// A handle is in the expected listener map exactly when some bound event
/// attribute carries it.
pub proof fn lemma_tree_listener_map_membership<MV, FV>(attrs: Seq<AttributeView<MV, FV>>, h: u64)
    ensures
        tree_listener_map(attrs).contains_key(h) <==> exists|i: int|
            0 <= i < attrs.len() && (#[trigger] attrs[i]) is Event && attrs[i].event().handle
                == Some(h),
    decreases attrs,
{
    if attrs.len() > 0 {
        lemma_tree_listener_map_membership(attrs.drop_last(), h);
        let last = attrs.len() - 1;
        if attrs[last] is Event && attrs[last].event().handle == Some(h) {
        } else {
            if tree_listener_map(attrs).contains_key(h) {
                let i = choose|i: int|
                    0 <= i < attrs.drop_last().len() && (#[trigger] attrs.drop_last()[i]) is Event
                        && attrs.drop_last()[i].event().handle == Some(h);
                assert(attrs[i] is Event && attrs[i].event().handle == Some(h));
            }
            if exists|i: int|
                0 <= i < attrs.len() && (#[trigger] attrs[i]) is Event && attrs[i].event().handle
                    == Some(h) {
                let i = choose|i: int|
                    0 <= i < attrs.len() && (#[trigger] attrs[i]) is Event
                        && attrs[i].event().handle == Some(h);
                assert(attrs.drop_last()[i] is Event && attrs.drop_last()[i].event().handle == Some(
                    h,
                ));
            }
        }
    }
}

/// Handles are pairwise distinct among the bound event attributes.
pub open spec fn distinct_event_handles<MV, FV>(attrs: Seq<AttributeView<MV, FV>>) -> bool {
    forall|i: int, j: int|
        0 <= i < j < attrs.len() && (#[trigger] attrs[i]) is Event && (#[trigger] attrs[j])
            is Event ==> attrs[i].event().handle != attrs[j].event().handle
}

/// Under distinct handles, each bound event attribute gives the listener
/// the expected map takes at its handle.
pub proof fn lemma_tree_listener_map_index<MV, FV>(attrs: Seq<AttributeView<MV, FV>>, i: int)
    requires
        distinct_event_handles(attrs),
        0 <= i < attrs.len(),
        attrs[i] is Event,
        attrs[i].event().handle is Some,
    ensures
        tree_listener_map(attrs).contains_key(attrs[i].event().handle->0),
        tree_listener_map(attrs)[attrs[i].event().handle->0] == event_info(attrs[i].event()),
    decreases attrs,
{
    if i == attrs.len() - 1 {
    } else {
        assert(attrs.drop_last()[i] == attrs[i]);
        lemma_tree_listener_map_index(attrs.drop_last(), i);
        if attrs.last() is Event {
            assert(attrs[i].event().handle != attrs[attrs.len() - 1].event().handle);
        }
    }
}

} // verus!

verus! {

/// All listener handles anywhere in the live subtree are below `n`.
pub open spec fn live_handles_below(ln: LiveNodeView, n: u64) -> bool
    decreases ln,
{
    match ln {
        LiveNodeView::Text(_) => true,
        LiveNodeView::Element(le) => {
            &&& el_listeners_below(le.listeners, n)
            &&& forall|i: int|
                0 <= i < le.children.len() ==> live_handles_below(#[trigger] le.children[i], n)
        }
    }
}

/// `live_handles_below` is monotone in the bound.
pub proof fn lemma_live_handles_below_mono(ln: LiveNodeView, n: u64, m: u64)
    requires
        live_handles_below(ln, n),
        n <= m,
    ensures
        live_handles_below(ln, m),
    decreases ln,
{
    match ln {
        LiveNodeView::Text(_) => {}
        LiveNodeView::Element(le) => {
            assert forall|i: int| 0 <= i < le.children.len() implies live_handles_below(
                #[trigger] le.children[i],
                m,
            ) by {
                lemma_live_handles_below_mono(le.children[i], n, m);
            }
        }
    }
}

} // verus!

verus! {

impl LiveListener {
    /// An owned copy whose view equals this listener's view.
    pub fn dup(&self) -> (r: LiveListener)
        ensures
            r@ == self@,
    {
        LiveListener {
            type_: self.type_.clone(),
            handle: self.handle,
            stop_propagation: self.stop_propagation,
            prevent_default: self.prevent_default,
        }
    }
}

impl LiveNode {
    /// An owned deep copy whose view equals this node's view: what lets one
    /// built node both enter the live model and travel inside a command.
    #[verifier::loop_isolation(false)]
    pub fn dup(&self) -> (r: LiveNode)
        ensures
            r@ == self@,
        decreases *self,
    {
        match self {
            LiveNode::Text(s) => LiveNode::Text(s.clone()),
            LiveNode::Element(e) => {
                let mut props: Vec<(String, PropertyValue)> = Vec::new();
                let mut i: usize = 0;
                while i < e.props.len()
                    invariant
                        i <= e.props.len(),
                        props@.len() == i,
                        forall|j: int|
                            0 <= j < i ==> (#[trigger] props@[j]).0 == e.props@[j].0 && props@[
                                j].1@ == e.props@[j].1@,
                    decreases e.props.len() - i,
                {
                    props.push((e.props[i].0.clone(), e.props[i].1.dup()));
                    i = i + 1;
                }
                let mut styles: Vec<(String, String)> = Vec::new();
                let mut i2: usize = 0;
                while i2 < e.styles.len()
                    invariant
                        i2 <= e.styles.len(),
                        styles@.len() == i2,
                        forall|j: int| 0 <= j < i2 ==> #[trigger] styles@[j] == e.styles@[j],
                    decreases e.styles.len() - i2,
                {
                    styles.push((e.styles[i2].0.clone(), e.styles[i2].1.clone()));
                    i2 = i2 + 1;
                }
                let mut listeners: Vec<LiveListener> = Vec::new();
                let mut i3: usize = 0;
                while i3 < e.listeners.len()
                    invariant
                        i3 <= e.listeners.len(),
                        listeners@.len() == i3,
                        forall|j: int|
                            0 <= j < i3 ==> (#[trigger] listeners@[j])@ == e.listeners@[j]@,
                    decreases e.listeners.len() - i3,
                {
                    listeners.push(e.listeners[i3].dup());
                    i3 = i3 + 1;
                }
                let mut children: Vec<LiveNode> = Vec::new();
                let mut i4: usize = 0;
                while i4 < e.children.len()
                    invariant
                        i4 <= e.children.len(),
                        children@.len() == i4,
                        forall|j: int|
                            0 <= j < i4 ==> (#[trigger] children@[j])@ == e.children@[j]@,
                    decreases e.children.len() - i4,
                {
                    let c = e.children[i4].dup();
                    children.push(c);
                    i4 = i4 + 1;
                }
                let r = LiveNode::Element(
                    LiveElement { tag: e.tag.clone(), props, styles, listeners, children },
                );
                proof {
                    assert(prop_pair_views(r->Element_0.props@) =~= prop_pair_views(e.props@));
                    assert(style_pair_views(r->Element_0.styles@) =~= style_pair_views(e.styles@));
                    assert(listener_views(r->Element_0.listeners@) =~= listener_views(
                        e.listeners@,
                    ));
                    lemma_live_node_views(r->Element_0.children@);
                    lemma_live_node_views(e.children@);
                    assert(live_node_views(r->Element_0.children@) =~= live_node_views(
                        e.children@,
                    ));
                    assert(r@ =~= (*self)@);
                }
                r
            },
        }
    }
}

} // verus!
