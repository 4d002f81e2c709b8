//! The virtual tree: tagged elements with ordered attributes and children,
//! and text leaves.  Every exec type has a ghost view over `Seq`, so that
//! contracts can speak of tree structure mathematically.
//!
//! An `Event` attribute carries a message-derivation policy and a handle
//! slot: the slot holds the identifier of the live listener bound for this
//! attribute, once the renderer has bound one.  Diff equality of attributes
//! ignores the slot but is otherwise structural.

use vstd::prelude::*;

verus! {

broadcast use vstd::std_specs::vec::group_vec_axioms, vstd::seq::group_seq_axioms;

/// A message type usable by the runtime: messages are compared and copied
/// through their mathematical `deep_view`, so that diffing can decide whether
/// two event attributes are the same attribute.
pub trait Message: Sized + DeepView {
    /// Structural equality of two messages, at the level of views.
    fn same_as(&self, other: &Self) -> (r: bool)
        ensures
            r == (self.deep_view() == other.deep_view()),
    ;

    /// An owned copy with the same view.
    fn dup(&self) -> (r: Self)
        ensures
            r.deep_view() == self.deep_view(),
    ;
}

/// An input-derived message producer: maps the current value of a text-input
/// element to a message.  Applications implement this for their own mapper
/// types; `maps` is the mapping at the level of views.
pub trait EventClosure<Msg: Message>: Sized + DeepView {
    /// What message (as a view) a closure with the given view derives from
    /// an input value.
    spec fn maps(fv: <Self as DeepView>::V, value: Seq<char>) -> <Msg as DeepView>::V;

    /// Derive the message for the given input value.
    fn call_ish(&self, value: &str) -> (r: Msg)
        ensures
            r.deep_view() == Self::maps(self.deep_view(), value@),
    ;

    /// Structural equality of two closures, at the level of views.
    fn eq_rc(&self, other: &Self) -> (r: bool)
        ensures
            r == (self.deep_view() == other.deep_view()),
    ;
}

/// The simplest input closure: ignores the input value and always derives
/// the same message.
pub struct EventClosureImpl<Msg: Message> {
    pub data: Msg,
}

impl<Msg: Message> EventClosureImpl<Msg> {
    pub fn new(data: Msg) -> (r: Self)
        ensures
            r.data.deep_view() == data.deep_view(),
    {
        EventClosureImpl { data }
    }
}

impl<Msg: Message> DeepView for EventClosureImpl<Msg> {
    type V = <Msg as DeepView>::V;

    open spec fn deep_view(&self) -> Self::V {
        self.data.deep_view()
    }
}

impl<Msg: Message> EventClosure<Msg> for EventClosureImpl<Msg> {
    open spec fn maps(fv: <Self as DeepView>::V, value: Seq<char>) -> <Msg as DeepView>::V {
        fv
    }

    fn call_ish(&self, value: &str) -> (r: Msg) {
        self.data.dup()
    }

    fn eq_rc(&self, other: &Self) -> (r: bool) {
        self.data.same_as(&other.data)
    }
}

/// A property value carried by a `Property` attribute: a string or a flag.
pub enum PropertyValue {
    String(String),
    Bool(bool),
}

/// Ghost view of a `PropertyValue`.
#[verifier::ext_equal]
pub enum PropertyValueView {
    String(Seq<char>),
    Bool(bool),
}

impl View for PropertyValue {
    type V = PropertyValueView;

    open spec fn view(&self) -> PropertyValueView {
        match self {
            PropertyValue::String(s) => PropertyValueView::String(s@),
            PropertyValue::Bool(b) => PropertyValueView::Bool(*b),
        }
    }
}

impl PropertyValue {
    /// An owned copy whose view equals this value's view.
    pub fn dup(&self) -> (r: PropertyValue)
        ensures
            r@ == self@,
    {
        match self {
            PropertyValue::String(s) => PropertyValue::String(s.clone()),
            PropertyValue::Bool(b) => PropertyValue::Bool(*b),
        }
    }

    /// Structural equality of two property values, at the level of views.
    pub fn eq_value(&self, other: &PropertyValue) -> (r: bool)
        ensures
            r == (self@ == other@),
    {
        match self {
            PropertyValue::String(a) => match other {
                PropertyValue::String(b) => *a == *b,
                PropertyValue::Bool(_) => false,
            },
            PropertyValue::Bool(a) => match other {
                PropertyValue::String(_) => false,
                PropertyValue::Bool(b) => *a == *b,
            },
        }
    }
}

/// A predicate over the native event that gates a filtered message: the
/// message fires only when the event's key code equals the given one.  This
/// is the closed set of predicates the runtime recognizes; recognizing a new
/// event property means adding a variant here.
#[derive(PartialEq, Eq, Structural, Clone, Copy)]
pub enum EventFilter {
    KeyCode(u32),
}

/// How an `Event` attribute turns a firing into a message: a fixed message,
/// an input-value-derived message, or a message gated by a filter.
pub enum EventToMessage<Msg, F> {
    StaticMsg(Msg),
    Input(F),
    WithFilter { msg: Msg, filter: EventFilter },
}

/// Ghost view of an `EventToMessage`.
#[verifier::ext_equal]
pub enum EventToMessageView<MV, FV> {
    StaticMsg(MV),
    Input(FV),
    WithFilter { msg: MV, filter: EventFilter },
}

/// An event-binding attribute: the event type listened for, the derivation
/// policy, the two native-event flags, and the handle slot for the live
/// listener bound on behalf of this attribute.
pub struct Event<Msg, F> {
    pub type_: String,
    pub to_message: EventToMessage<Msg, F>,
    pub stop_propagation: bool,
    pub prevent_default: bool,
    pub handle: Option<u64>,
}

/// Ghost view of an `Event` attribute.
#[verifier::ext_equal]
pub struct EventView<MV, FV> {
    pub type_: Seq<char>,
    pub to_message: EventToMessageView<MV, FV>,
    pub stop_propagation: bool,
    pub prevent_default: bool,
    pub handle: Option<u64>,
}

/// An attribute of an element: an event binding, a named property, an inline
/// style declaration, or an inert identity key.
pub enum Attribute<Msg, F> {
    Event(Event<Msg, F>),
    Property(String, PropertyValue),
    Style(String, String),
    Key(String),
}

/// Ghost view of an `Attribute`.
#[verifier::ext_equal]
pub enum AttributeView<MV, FV> {
    Event(EventView<MV, FV>),
    Property(Seq<char>, PropertyValueView),
    Style(Seq<char>, Seq<char>),
    Key(Seq<char>),
}

impl<Msg: DeepView, F: DeepView> View for EventToMessage<Msg, F> {
    type V = EventToMessageView<Msg::V, F::V>;

    open spec fn view(&self) -> Self::V {
        match self {
            EventToMessage::StaticMsg(m) => EventToMessageView::StaticMsg(m.deep_view()),
            EventToMessage::Input(f) => EventToMessageView::Input(f.deep_view()),
            EventToMessage::WithFilter { msg, filter } => EventToMessageView::WithFilter {
                msg: msg.deep_view(),
                filter: *filter,
            },
        }
    }
}

impl<Msg: DeepView, F: DeepView> View for Event<Msg, F> {
    type V = EventView<Msg::V, F::V>;

    open spec fn view(&self) -> Self::V {
        EventView {
            type_: self.type_@,
            to_message: self.to_message@,
            stop_propagation: self.stop_propagation,
            prevent_default: self.prevent_default,
            handle: self.handle,
        }
    }
}

impl<Msg: DeepView, F: DeepView> View for Attribute<Msg, F> {
    type V = AttributeView<Msg::V, F::V>;

    open spec fn view(&self) -> Self::V {
        match self {
            Attribute::Event(e) => AttributeView::Event(e@),
            Attribute::Property(k, v) => AttributeView::Property(k@, v@),
            Attribute::Style(k, v) => AttributeView::Style(k@, v@),
            Attribute::Key(k) => AttributeView::Key(k@),
        }
    }
}

/// The views of a sequence of attributes, in order.
pub open spec fn attr_views<Msg: DeepView, F: DeepView>(
    s: Seq<Attribute<Msg, F>>,
) -> Seq<AttributeView<Msg::V, F::V>> {
    Seq::new(s.len(), |i: int| s[i]@)
}

/// A tagged element: a tag name, ordered attributes, ordered children.
pub struct HtmlTag<Msg, F> {
    pub tag: String,
    pub attrs: Vec<Attribute<Msg, F>>,
    pub children: Vec<Html<Msg, F>>,
}

/// A node of the virtual tree: an element or a text leaf.
pub enum Html<Msg, F> {
    Tag(HtmlTag<Msg, F>),
    Text(String),
}

/// Ghost view of an element.
#[verifier::ext_equal]
pub struct HtmlTagView<MV, FV> {
    pub tag: Seq<char>,
    pub attrs: Seq<AttributeView<MV, FV>>,
    pub children: Seq<HtmlView<MV, FV>>,
}

/// Ghost view of a tree node.
#[verifier::ext_equal]
pub enum HtmlView<MV, FV> {
    Tag(HtmlTagView<MV, FV>),
    Text(Seq<char>),
}

impl<Msg: DeepView, F: DeepView> View for HtmlTag<Msg, F> {
    type V = HtmlTagView<Msg::V, F::V>;

    open spec fn view(&self) -> Self::V
        decreases *self,
    {
        HtmlTagView {
            tag: self.tag@,
            attrs: attr_views(self.attrs@),
            children: html_views(self.children@),
        }
    }
}

impl<Msg: DeepView, F: DeepView> View for Html<Msg, F> {
    type V = HtmlView<Msg::V, F::V>;

    open spec fn view(&self) -> Self::V
        decreases *self,
    {
        match self {
            Html::Tag(t) => HtmlView::Tag(t@),
            Html::Text(s) => HtmlView::Text(s@),
        }
    }
}

/// The views of a sequence of tree nodes, in order.
pub open spec fn html_views<Msg: DeepView, F: DeepView>(
    s: Seq<Html<Msg, F>>,
) -> Seq<HtmlView<Msg::V, F::V>>
    decreases s,
{
    if s.len() == 0 {
        Seq::empty()
    } else {
        seq![s[0]@] + html_views(s.drop_first())
    }
}

/// `html_views` maps the view over the sequence, elementwise.
pub proof fn lemma_html_views<Msg: DeepView, F: DeepView>(s: Seq<Html<Msg, F>>)
    ensures
        html_views(s).len() == s.len(),
        forall|i: int| 0 <= i < s.len() ==> #[trigger] html_views(s)[i] == s[i]@,
    decreases s,
{
    if s.len() > 0 {
        lemma_html_views(s.drop_first());
        let h = seq![s[0]@];
        let rest = html_views(s.drop_first());
        assert(html_views(s) == h + rest);
        assert(html_views(s).len() == 1 + rest.len());
        assert forall|i: int| 0 <= i < s.len() implies #[trigger] html_views(s)[i] == s[i]@ by {
            if i == 0 {
                assert((h + rest)[0] == h[0]);
            } else {
                assert((h + rest)[i] == rest[i - 1]);
                assert(s.drop_first()[i - 1] == s[i]);
            }
        }
    }
}

} // verus!



verus! {

impl<MV, FV> EventView<MV, FV> {
    /// This event attribute with its handle slot cleared.
    pub open spec fn strip_handle(self) -> EventView<MV, FV> {
        EventView {
            type_: self.type_,
            to_message: self.to_message,
            stop_propagation: self.stop_propagation,
            prevent_default: self.prevent_default,
            handle: None,
        }
    }
}

impl<MV, FV> AttributeView<MV, FV> {
    /// This attribute with any handle slot cleared.
    pub open spec fn strip_handle(self) -> AttributeView<MV, FV> {
        match self {
            AttributeView::Event(e) => AttributeView::Event(e.strip_handle()),
            other => other,
        }
    }

    /// Diff equality of attributes: structural over every field except the
    /// handle slot, which is ignored.
    pub open spec fn matches(self, other: AttributeView<MV, FV>) -> bool {
        self.strip_handle() == other.strip_handle()
    }

    /// The name of a property attribute.
    pub open spec fn prop_name(self) -> Seq<char>
        recommends
            self is Property,
    {
        match self {
            AttributeView::Property(k, _) => k,
            _ => Seq::empty(),
        }
    }

    /// The name of a style attribute.
    pub open spec fn style_name(self) -> Seq<char>
        recommends
            self is Style,
    {
        match self {
            AttributeView::Style(k, _) => k,
            _ => Seq::empty(),
        }
    }

    /// The event payload of an event attribute.
    pub open spec fn event(self) -> EventView<MV, FV>
        recommends
            self is Event,
    {
        match self {
            AttributeView::Event(e) => e,
            _ => arbitrary(),
        }
    }
}

/// Whether some attribute of `attrs` is the same attribute as `a`
/// (diff equality, handle slots ignored).
pub open spec fn contains_match<MV, FV>(
    attrs: Seq<AttributeView<MV, FV>>,
    a: AttributeView<MV, FV>,
) -> bool {
    exists|i: int| 0 <= i < attrs.len() && #[trigger] attrs[i].matches(a)
}

/// Well-formed attribute list: property names are pairwise distinct, style
/// names are pairwise distinct, and no two event attributes are the same
/// attribute.  The `view` of an application must produce elements whose
/// attribute lists satisfy this.
pub open spec fn wf_attrs<MV, FV>(attrs: Seq<AttributeView<MV, FV>>) -> bool {
    &&& forall|i: int, j: int|
        0 <= i < j < attrs.len() && attrs[i] is Property && attrs[j] is Property ==> (
        #[trigger] attrs[i].prop_name() != #[trigger] attrs[j].prop_name())
    &&& forall|i: int, j: int|
        0 <= i < j < attrs.len() && attrs[i] is Style && attrs[j] is Style ==> (
        #[trigger] attrs[i].style_name() != #[trigger] attrs[j].style_name())
    &&& forall|i: int, j: int|
        0 <= i < j < attrs.len() && attrs[i] is Event && attrs[j] is Event ==> !(
        #[trigger] attrs[i]).matches(#[trigger] attrs[j])
}

impl<MV, FV> HtmlView<MV, FV> {
    /// Well-formed tree: every element's attribute list is well formed.
    pub open spec fn wf(self) -> bool
        decreases self,
    {
        match self {
            HtmlView::Text(_) => true,
            HtmlView::Tag(t) => {
                &&& wf_attrs(t.attrs)
                &&& forall|i: int|
                    0 <= i < t.children.len() ==> (#[trigger] t.children[i]).wf()
            }
        }
    }

    /// No event attribute anywhere in the tree holds a handle yet: the state
    /// of a tree freshly produced by a `view` function.
    pub open spec fn unbound(self) -> bool
        decreases self,
    {
        match self {
            HtmlView::Text(_) => true,
            HtmlView::Tag(t) => {
                &&& forall|i: int|
                    0 <= i < t.attrs.len() && (#[trigger] t.attrs[i]) is Event
                        ==> t.attrs[i].event().handle is None
                &&& forall|i: int|
                    0 <= i < t.children.len() ==> (#[trigger] t.children[i]).unbound()
            }
        }
    }

    /// Every event attribute holds a handle, all handles are below `n`, and
    /// the handles of each element's event attributes are pairwise distinct:
    /// the state of a tree the renderer has fully bound, where `n` is the
    /// binder's next fresh handle.
    pub open spec fn bound_below(self, n: u64) -> bool
        decreases self,
    {
        match self {
            HtmlView::Text(_) => true,
            HtmlView::Tag(t) => {
                &&& forall|i: int|
                    0 <= i < t.attrs.len() && (#[trigger] t.attrs[i]) is Event
                        ==> t.attrs[i].event().handle is Some
                            && t.attrs[i].event().handle->0 < n
                &&& forall|i: int, j: int|
                    0 <= i < j < t.attrs.len() && attrs_both_events(t.attrs, i, j)
                        ==> #[trigger] t.attrs[i].event().handle != #[trigger] t.attrs[
                        j].event().handle
                &&& forall|i: int|
                    0 <= i < t.children.len() ==> (#[trigger] t.children[i]).bound_below(n)
            }
        }
    }

    /// Structural equality of two trees with all handle slots ignored: the
    /// diff treats such trees as the same rendering.
    pub open spec fn similar(self, other: HtmlView<MV, FV>) -> bool
        decreases self,
    {
        match self {
            HtmlView::Text(s) => other is Text && other->Text_0 == s,
            HtmlView::Tag(t) => match other {
                HtmlView::Tag(u) => {
                    &&& t.tag == u.tag
                    &&& t.attrs.len() == u.attrs.len()
                    &&& forall|i: int|
                        0 <= i < t.attrs.len() ==> (#[trigger] t.attrs[i]).matches(u.attrs[i])
                    &&& t.children.len() == u.children.len()
                    &&& forall|i: int|
                        0 <= i < t.children.len() ==> (#[trigger] t.children[i]).similar(
                            u.children[i],
                        )
                },
                HtmlView::Text(_) => false,
            },
        }
    }
}

/// Both positions hold event attributes.
pub open spec fn attrs_both_events<MV, FV>(
    attrs: Seq<AttributeView<MV, FV>>,
    i: int,
    j: int,
) -> bool {
    attrs[i] is Event && attrs[j] is Event
}

/// A tree is `similar` to itself, and handle state never affects similarity.
pub proof fn lemma_similar_refl<MV, FV>(a: HtmlView<MV, FV>)
    ensures
        a.similar(a),
    decreases a,
{
    match a {
        HtmlView::Text(_) => {}
        HtmlView::Tag(t) => {
            assert forall|i: int| 0 <= i < t.children.len() implies (#[trigger] t.children[
                i]).similar(t.children[i]) by {
                lemma_similar_refl(t.children[i]);
            }
        }
    }
}

} // verus!

verus! {

impl<Msg: Message, F: EventClosure<Msg>> Attribute<Msg, F> {
    /// Whether this is an event-binding attribute.
    pub fn is_event(&self) -> (r: bool)
        ensures
            r == (self@ is Event),
    {
        matches!(self, Attribute::Event(_))
    }

    /// Diff equality of two attributes: structural except for handle slots.
    pub fn matches_attr(&self, other: &Self) -> (r: bool)
        ensures
            r == self@.matches(other@),
    {
        match self {
            Attribute::Event(a) => match other {
                Attribute::Event(b) => {
                    a.type_ == b.type_ && a.stop_propagation == b.stop_propagation
                        && a.prevent_default == b.prevent_default && match (&a.to_message) {
                        EventToMessage::StaticMsg(m1) => match &b.to_message {
                            EventToMessage::StaticMsg(m2) => m1.same_as(m2),
                            _ => false,
                        },
                        EventToMessage::Input(f1) => match &b.to_message {
                            EventToMessage::Input(f2) => f1.eq_rc(f2),
                            _ => false,
                        },
                        EventToMessage::WithFilter { msg: m1, filter: fl1 } => match &b.to_message {
                            EventToMessage::WithFilter { msg: m2, filter: fl2 } => m1.same_as(m2)
                                && *fl1 == *fl2,
                            _ => false,
                        },
                    }
                },
                _ => false,
            },
            Attribute::Property(k1, v1) => match other {
                Attribute::Property(k2, v2) => *k1 == *k2 && v1.eq_value(v2),
                _ => false,
            },
            Attribute::Style(k1, v1) => match other {
                Attribute::Style(k2, v2) => *k1 == *k2 && *v1 == *v2,
                _ => false,
            },
            Attribute::Key(k1) => match other {
                Attribute::Key(k2) => *k1 == *k2,
                _ => false,
            },
        }
    }
}

/// Build an element node with the given tag name.
pub fn node<Msg: DeepView, F: DeepView>(
    tag: &str,
    attrs: Vec<Attribute<Msg, F>>,
    children: Vec<Html<Msg, F>>,
) -> (r: Html<Msg, F>)
    ensures
        r@ == HtmlView::<Msg::V, F::V>::Tag(
            HtmlTagView {
                tag: tag@,
                attrs: attr_views(attrs@),
                children: html_views(children@),
            },
        ),
{
    Html::Tag(HtmlTag { tag: String::from_str(tag), attrs, children })
}

/// Build a text leaf.
pub fn text<Msg: DeepView, F: DeepView>(inner: &str) -> (r: Html<Msg, F>)
    ensures
        r@ == HtmlView::<Msg::V, F::V>::Text(inner@),
{
    Html::Text(String::from_str(inner))
}

/// Build a `div` element.
pub fn div<Msg: DeepView, F: DeepView>(
    attrs: Vec<Attribute<Msg, F>>,
    children: Vec<Html<Msg, F>>,
) -> (r: Html<Msg, F>)
    ensures
        r@ == HtmlView::<Msg::V, F::V>::Tag(
            HtmlTagView {
                tag: "div"@,
                attrs: attr_views(attrs@),
                children: html_views(children@),
            },
        ),
{
    node("div", attrs, children)
}

/// Build a `button` element.
pub fn button<Msg: DeepView, F: DeepView>(
    attrs: Vec<Attribute<Msg, F>>,
    children: Vec<Html<Msg, F>>,
) -> (r: Html<Msg, F>)
    ensures
        r@ == HtmlView::<Msg::V, F::V>::Tag(
            HtmlTagView {
                tag: "button"@,
                attrs: attr_views(attrs@),
                children: html_views(children@),
            },
        ),
{
    node("button", attrs, children)
}

/// Build a `span` element.
pub fn span<Msg: DeepView, F: DeepView>(
    attrs: Vec<Attribute<Msg, F>>,
    children: Vec<Html<Msg, F>>,
) -> (r: Html<Msg, F>)
    ensures
        r@ == HtmlView::<Msg::V, F::V>::Tag(
            HtmlTagView {
                tag: "span"@,
                attrs: attr_views(attrs@),
                children: html_views(children@),
            },
        ),
{
    node("span", attrs, children)
}

/// Build an `input` element.
pub fn input<Msg: DeepView, F: DeepView>(
    attrs: Vec<Attribute<Msg, F>>,
    children: Vec<Html<Msg, F>>,
) -> (r: Html<Msg, F>)
    ensures
        r@ == HtmlView::<Msg::V, F::V>::Tag(
            HtmlTagView {
                tag: "input"@,
                attrs: attr_views(attrs@),
                children: html_views(children@),
            },
        ),
{
    node("input", attrs, children)
}

} // verus!

verus! {

/// How many event attributes the list holds.
pub open spec fn attrs_event_count<MV, FV>(attrs: Seq<AttributeView<MV, FV>>) -> nat
    decreases attrs,
{
    if attrs.len() == 0 {
        0
    } else {
        attrs_event_count(attrs.drop_last()) + (if attrs.last() is Event {
            1nat
        } else {
            0nat
        })
    }
}

impl<MV, FV> HtmlView<MV, FV> {
    /// How many event attributes the whole tree holds: the number of
    /// listener handles a fresh render of it consumes.
    pub open spec fn event_budget(self) -> nat
        decreases self,
    {
        match self {
            HtmlView::Text(_) => 0,
            HtmlView::Tag(t) => attrs_event_count(t.attrs) + children_event_budget(t.children),
        }
    }
}

/// The summed event budget of a sequence of trees.
pub open spec fn children_event_budget<MV, FV>(s: Seq<HtmlView<MV, FV>>) -> nat
    decreases s,
{
    if s.len() == 0 {
        0
    } else {
        s[0].event_budget() + children_event_budget(s.drop_first())
    }
}

/// `bound_below` is monotone in the bound.
pub proof fn lemma_bound_below_mono<MV, FV>(t: HtmlView<MV, FV>, n: u64, m: u64)
    requires
        t.bound_below(n),
        n <= m,
    ensures
        t.bound_below(m),
    decreases t,
{
    match t {
        HtmlView::Text(_) => {}
        HtmlView::Tag(tag) => {
            assert forall|i: int| 0 <= i < tag.children.len() implies (#[trigger] tag.children[
                i]).bound_below(m) by {
                lemma_bound_below_mono(tag.children[i], n, m);
            }
        }
    }
}

} // verus!

verus! {

impl<MV, FV> HtmlView<MV, FV> {
    /// An upper bound on the bookkeeping a reconciliation of this tree can
    /// consume: one unit per attribute and per event attribute, at every
    /// node.  Dominates `event_budget`.
    pub open spec fn update_budget(self) -> nat
        decreases self,
    {
        match self {
            HtmlView::Text(_) => 0,
            HtmlView::Tag(t) => t.attrs.len() + children_update_budget(t.children),
        }
    }
}

/// The summed update budget of a sequence of trees.
pub open spec fn children_update_budget<MV, FV>(s: Seq<HtmlView<MV, FV>>) -> nat
    decreases s,
{
    if s.len() == 0 {
        0
    } else {
        s[0].update_budget() + children_update_budget(s.drop_first())
    }
}

/// The event count of an attribute list never exceeds its length.
pub proof fn lemma_attrs_event_count_le<MV, FV>(attrs: Seq<AttributeView<MV, FV>>)
    ensures
        attrs_event_count(attrs) <= attrs.len(),
    decreases attrs,
{
    if attrs.len() > 0 {
        lemma_attrs_event_count_le(attrs.drop_last());
    }
}

/// A tree's event budget never exceeds its update budget.
pub proof fn lemma_event_budget_le_update_budget<MV, FV>(t: HtmlView<MV, FV>)
    ensures
        t.event_budget() <= t.update_budget(),
    decreases t,
{
    match t {
        HtmlView::Text(_) => {}
        HtmlView::Tag(tag) => {
            lemma_attrs_event_count_le(tag.attrs);
            lemma_children_budgets_le(tag.children);
        }
    }
}

/// The summed event budgets of a sequence never exceed the summed update
/// budgets.
pub proof fn lemma_children_budgets_le<MV, FV>(s: Seq<HtmlView<MV, FV>>)
    ensures
        children_event_budget(s) <= children_update_budget(s),
    decreases s,
{
    if s.len() > 0 {
        lemma_event_budget_le_update_budget(s[0]);
        lemma_children_budgets_le(s.drop_first());
    }
}

} // verus!

verus! {

impl<MV, FV> HtmlView<MV, FV> {
    /// The number of nodes of the tree: the reconciler's termination
    /// measure.
    pub open spec fn size(self) -> nat
        decreases self,
    {
        match self {
            HtmlView::Text(_) => 1,
            HtmlView::Tag(t) => 1 + children_sizes(t.children),
        }
    }
}

/// The summed sizes of a sequence of trees.
pub open spec fn children_sizes<MV, FV>(s: Seq<HtmlView<MV, FV>>) -> nat
    decreases s,
{
    if s.len() == 0 {
        0
    } else {
        s[0].size() + children_sizes(s.drop_first())
    }
}

/// Every tree has at least one node.
pub proof fn lemma_size_pos<MV, FV>(t: HtmlView<MV, FV>)
    ensures
        t.size() >= 1,
{
}

/// Each child is strictly smaller than its parent.
pub proof fn lemma_child_size_lt<MV, FV>(s: Seq<HtmlView<MV, FV>>, k: int)
    requires
        0 <= k < s.len(),
    ensures
        s[k].size() <= children_sizes(s),
    decreases s,
{
    if k == 0 {
        lemma_size_pos(s[0]);
    } else {
        lemma_child_size_lt(s.drop_first(), k - 1);
        assert(s.drop_first()[k - 1] == s[k]);
        lemma_size_pos(s[0]);
    }
}

} // verus!

verus! {

/// A tree similar to a well-formed tree is itself well formed: handle
/// slots play no part in well-formedness.
pub proof fn lemma_similar_wf<MV, FV>(a: HtmlView<MV, FV>, b: HtmlView<MV, FV>)
    requires
        a.similar(b),
        b.wf(),
    ensures
        a.wf(),
    decreases a,
{
    match a {
        HtmlView::Text(_) => {}
        HtmlView::Tag(x) => {
            match b {
                HtmlView::Tag(y) => {
                    assert forall|i: int, j: int|
                        0 <= i < j < x.attrs.len() && x.attrs[i] is Property && x.attrs[j]
                            is Property implies (#[trigger] x.attrs[i].prop_name()) != (
                        #[trigger] x.attrs[j].prop_name()) by {
                        assert(x.attrs[i].matches(y.attrs[i]));
                        assert(x.attrs[j].matches(y.attrs[j]));
                        assert(y.attrs[i].prop_name() == x.attrs[i].prop_name());
                        assert(y.attrs[j].prop_name() == x.attrs[j].prop_name());
                    }
                    assert forall|i: int, j: int|
                        0 <= i < j < x.attrs.len() && x.attrs[i] is Style && x.attrs[j]
                            is Style implies (#[trigger] x.attrs[i].style_name()) != (
                        #[trigger] x.attrs[j].style_name()) by {
                        assert(x.attrs[i].matches(y.attrs[i]));
                        assert(x.attrs[j].matches(y.attrs[j]));
                        assert(y.attrs[i].style_name() == x.attrs[i].style_name());
                        assert(y.attrs[j].style_name() == x.attrs[j].style_name());
                    }
                    assert forall|i: int, j: int|
                        0 <= i < j < x.attrs.len() && x.attrs[i] is Event && x.attrs[j]
                            is Event implies !(#[trigger] x.attrs[i]).matches(
                        #[trigger] x.attrs[j]) by {
                        assert(x.attrs[i].matches(y.attrs[i]));
                        assert(x.attrs[j].matches(y.attrs[j]));
                        assert(y.attrs[i] is Event && y.attrs[j] is Event);
                        if x.attrs[i].matches(x.attrs[j]) {
                            assert(y.attrs[i].matches(y.attrs[j]));
                        }
                    }
                    assert forall|i: int| 0 <= i < x.children.len() implies (
                    #[trigger] x.children[i]).wf() by {
                        assert(x.children[i].similar(y.children[i]));
                        assert(y.children[i].wf());
                        lemma_similar_wf(x.children[i], y.children[i]);
                    }
                },
                HtmlView::Text(_) => {},
            }
        }
    }
}

} // verus!
