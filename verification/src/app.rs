//! The counter application: a model holding one counter, messages to
//! increment and decrement it, and a view rendering two buttons around the
//! counter's text.

use vstd::prelude::*;

use crate::html::{
    Attribute, EventClosureImpl, Html, HtmlTagView, HtmlView, Message, attr_views, button, div,
    html_views, text,
};
use crate::events::on_click;
use crate::program::{Application, Program};

verus! {

broadcast use vstd::std_specs::vec::group_vec_axioms, vstd::seq::group_seq_axioms;

/// The counter's messages.
#[derive(PartialEq, Eq, Structural, Clone, Copy, Debug)]
pub enum Msg {
    Increment,
    Decrement,
}

impl DeepView for Msg {
    type V = Msg;

    open spec fn deep_view(&self) -> Msg {
        *self
    }
}

impl Message for Msg {
    fn same_as(&self, other: &Self) -> (r: bool) {
        *self == *other
    }

    fn dup(&self) -> (r: Self) {
        *self
    }
}

/// The counter's model.
#[derive(PartialEq, Eq, Structural, Clone, Copy, Debug)]
pub struct Model {
    pub counter: i32,
}

/// The model the program starts from.
pub fn init() -> (r: Model)
    ensures
        r.counter == 4,
{
    Model { counter: 4 }
}

/// The counter plus one, wrapping at the top of the machine range.
pub open spec fn wrap_inc(c: i32) -> i32 {
    if c == i32::MAX {
        i32::MIN
    } else {
        (c + 1) as i32
    }
}

/// The counter minus one, wrapping at the bottom of the machine range.
pub open spec fn wrap_dec(c: i32) -> i32 {
    if c == i32::MIN {
        i32::MAX
    } else {
        (c - 1) as i32
    }
}

/// The counter after one message: increment or decrement, wrapping at the
/// ends of the machine range.
pub open spec fn update_spec(msg: Msg, model: Model) -> Model {
    match msg {
        Msg::Increment => Model { counter: wrap_inc(model.counter) },
        Msg::Decrement => Model { counter: wrap_dec(model.counter) },
    }
}

/// Fold one message into the model.
pub fn update(msg: &Msg, model: &mut Model)
    ensures
        *final(model) == update_spec(*msg, *old(model)),
{
    match msg {
        Msg::Increment => {
            model.counter = model.counter.wrapping_add(1);
        },
        Msg::Decrement => {
            model.counter = model.counter.wrapping_sub(1);
        },
    }
}

/// The decimal digit character for a value below ten.
pub open spec fn digit_char(d: int) -> char {
    if d == 0 {
        '0'
    } else if d == 1 {
        '1'
    } else if d == 2 {
        '2'
    } else if d == 3 {
        '3'
    } else if d == 4 {
        '4'
    } else if d == 5 {
        '5'
    } else if d == 6 {
        '6'
    } else if d == 7 {
        '7'
    } else if d == 8 {
        '8'
    } else {
        '9'
    }
}

/// The decimal digits of a non-negative number, most significant first.
pub open spec fn dec_digits(n: int) -> Seq<char>
    decreases n,
{
    if n < 10 {
        seq![digit_char(n)]
    } else {
        dec_digits(n / 10).push(digit_char(n % 10))
    }
}

/// The decimal rendering of a number, with a leading minus sign when it is
/// negative.
pub open spec fn int_to_seq(n: int) -> Seq<char> {
    if n < 0 {
        seq!['-'] + dec_digits(-n)
    } else {
        dec_digits(n)
    }
}

/// The one-character string of a decimal digit.
fn digit_string(d: u64) -> (r: String)
    requires
        d < 10,
    ensures
        r@ == seq![digit_char(d as int)],
{
    let s = match d {
        0 => "0",
        1 => "1",
        2 => "2",
        3 => "3",
        4 => "4",
        5 => "5",
        6 => "6",
        7 => "7",
        8 => "8",
        _ => "9",
    };
    proof {
        reveal_strlit("0");
        reveal_strlit("1");
        reveal_strlit("2");
        reveal_strlit("3");
        reveal_strlit("4");
        reveal_strlit("5");
        reveal_strlit("6");
        reveal_strlit("7");
        reveal_strlit("8");
        reveal_strlit("9");
        assert(s@ =~= seq![digit_char(d as int)]);
    }
    String::from_str(s)
}

/// The decimal digits of a non-negative number, as a string.
fn dec_string(v: u64) -> (r: String)
    ensures
        r@ == dec_digits(v as int),
    decreases v,
{
    if v < 10 {
        digit_string(v)
    } else {
        proof {
            assert(v / 10 < v) by (nonlinear_arith)
                requires
                    v >= 10,
            ;
        }
        let q = v / 10;
        let d = v % 10;
        let s = dec_string(q);
        let r = s.concat(digit_string(d).as_str());
        proof {
            assert(r@ =~= dec_digits(q as int).push(digit_char(d as int)));
        }
        r
    }
}

/// The decimal rendering of a signed number.
pub fn int_to_string(n: i32) -> (r: String)
    ensures
        r@ == int_to_seq(n as int),
{
    if n < 0 {
        let abs: u64 = (-(n as i64)) as u64;
        proof {
            assert(abs as int == -(n as int));
        }
        let sign = String::from_str("-");
        proof {
            reveal_strlit("-");
            assert(sign@ =~= seq!['-']);
        }
        let r = sign.concat(dec_string(abs).as_str());
        proof {
            assert(r@ =~= seq!['-'] + dec_digits(-(n as int)));
        }
        r
    } else {
        dec_string(n as u64)
    }
}

/// The counter's view, mathematically: two buttons around the counter's
/// decimal text.
pub open spec fn view_spec(model: Model) -> HtmlView<Msg, Msg> {
    HtmlView::Tag(
        HtmlTagView {
            tag: "div"@,
            attrs: Seq::empty(),
            children: seq![
                HtmlView::Tag(
                    HtmlTagView {
                        tag: "button"@,
                        attrs: seq![
                            crate::html::AttributeView::Event(
                                crate::html::EventView {
                                    type_: "click"@,
                                    to_message: crate::html::EventToMessageView::StaticMsg(
                                        Msg::Increment,
                                    ),
                                    stop_propagation: false,
                                    prevent_default: false,
                                    handle: None,
                                },
                            ),
                        ],
                        children: seq![HtmlView::Text("+"@)],
                    },
                ),
                HtmlView::Tag(
                    HtmlTagView {
                        tag: "div"@,
                        attrs: Seq::empty(),
                        children: seq![HtmlView::Text(int_to_seq(model.counter as int))],
                    },
                ),
                HtmlView::Tag(
                    HtmlTagView {
                        tag: "button"@,
                        attrs: seq![
                            crate::html::AttributeView::Event(
                                crate::html::EventView {
                                    type_: "click"@,
                                    to_message: crate::html::EventToMessageView::StaticMsg(
                                        Msg::Decrement,
                                    ),
                                    stop_propagation: false,
                                    prevent_default: false,
                                    handle: None,
                                },
                            ),
                        ],
                        children: seq![HtmlView::Text("-"@)],
                    },
                ),
            ],
        },
    )
}

/// Render the model: `div [ button "+", div [counter], button "-" ]`.
pub fn view(model: &Model) -> (t: Html<Msg, EventClosureImpl<Msg>>)
    ensures
        t@ == view_spec(*model),
        t@.wf(),
        t@.unbound(),
{
    let mut plus_attrs: Vec<Attribute<Msg, EventClosureImpl<Msg>>> = Vec::new();
    plus_attrs.push(on_click(Msg::Increment));
    let mut plus_children: Vec<Html<Msg, EventClosureImpl<Msg>>> = Vec::new();
    plus_children.push(text("+"));
    let plus = button(plus_attrs, plus_children);

    let mut mid_children: Vec<Html<Msg, EventClosureImpl<Msg>>> = Vec::new();
    mid_children.push(Html::Text(int_to_string(model.counter)));
    let middle = div(Vec::new(), mid_children);

    let mut minus_attrs: Vec<Attribute<Msg, EventClosureImpl<Msg>>> = Vec::new();
    minus_attrs.push(on_click(Msg::Decrement));
    let mut minus_children: Vec<Html<Msg, EventClosureImpl<Msg>>> = Vec::new();
    minus_children.push(text("-"));
    let minus = button(minus_attrs, minus_children);

    let mut children: Vec<Html<Msg, EventClosureImpl<Msg>>> = Vec::new();
    children.push(plus);
    children.push(middle);
    children.push(minus);
    let t = div(Vec::new(), children);
    proof {
        crate::html::lemma_html_views(children@);
        crate::html::lemma_html_views(plus_children@);
        crate::html::lemma_html_views(mid_children@);
        crate::html::lemma_html_views(minus_children@);
        assert(t@ =~= view_spec(*model)) by {
            assert(attr_views(plus_attrs@) =~= view_spec(
                *model,
            )->Tag_0.children[0]->Tag_0.attrs);
            assert(attr_views(minus_attrs@) =~= view_spec(
                *model,
            )->Tag_0.children[2]->Tag_0.attrs);
            assert(html_views(plus_children@) =~= view_spec(
                *model,
            )->Tag_0.children[0]->Tag_0.children);
            assert(html_views(mid_children@) =~= view_spec(
                *model,
            )->Tag_0.children[1]->Tag_0.children);
            assert(html_views(minus_children@) =~= view_spec(
                *model,
            )->Tag_0.children[2]->Tag_0.children);
            assert(attr_views::<Msg, EventClosureImpl<Msg>>(Seq::empty()) =~= Seq::<
                crate::html::AttributeView<Msg, Msg>,
            >::empty());
            assert(children@[0]@ == view_spec(*model)->Tag_0.children[0]);
            assert(children@[1]@ == view_spec(*model)->Tag_0.children[1]);
            assert(children@[2]@ == view_spec(*model)->Tag_0.children[2]);
            assert(html_views(children@) =~= view_spec(*model)->Tag_0.children);
        }
        let ghost tv = t@->Tag_0;
        assert(t@.wf()) by {
            assert(crate::html::wf_attrs(tv.attrs));
            assert forall|i: int| 0 <= i < tv.children.len() implies (#[trigger] tv.children[
                i]).wf() by {
                assert(tv.children.len() == 3);
                let c = tv.children[i];
                if i == 0 || i == 2 {
                    assert(c is Tag);
                    assert(c->Tag_0.attrs.len() == 1);
                    assert(crate::html::wf_attrs(c->Tag_0.attrs));
                    assert(c->Tag_0.children.len() == 1);
                    assert forall|j: int|
                        0 <= j < c->Tag_0.children.len() implies (#[trigger] c->Tag_0.children[
                        j]).wf() by {
                        assert(c->Tag_0.children[j] is Text);
                    }
                } else {
                    assert(c is Tag);
                    assert(c->Tag_0.attrs.len() == 0);
                    assert(crate::html::wf_attrs(c->Tag_0.attrs));
                    assert forall|j: int|
                        0 <= j < c->Tag_0.children.len() implies (#[trigger] c->Tag_0.children[
                        j]).wf() by {
                        assert(c->Tag_0.children[j] is Text);
                    }
                }
            }
        }
        assert(t@.unbound()) by {
            assert forall|i: int| 0 <= i < tv.children.len() implies (#[trigger] tv.children[
                i]).unbound() by {
                assert(tv.children.len() == 3);
                let c = tv.children[i];
                assert forall|j: int|
                    0 <= j < c->Tag_0.attrs.len() && (#[trigger] c->Tag_0.attrs[j])
                        is Event implies c->Tag_0.attrs[j].event().handle is None by {}
                assert forall|j: int|
                    0 <= j < c->Tag_0.children.len() implies (#[trigger] c->Tag_0.children[
                    j]).unbound() by {
                    assert(c->Tag_0.children[j] is Text);
                }
            }
        }
    }
    t
}

/// The counter as an application of the runtime.
pub struct CounterApp;

impl Application for CounterApp {
    type Model = Model;

    type Msg = Msg;

    type Mapper = EventClosureImpl<Msg>;

    open spec fn update_spec(msg: Msg, model: Model) -> Model {
        update_spec(msg, model)
    }

    open spec fn view_spec(model: Model) -> HtmlView<Msg, Msg> {
        view_spec(model)
    }

    fn update(msg: &Msg, model: &mut Model) {
        update(msg, model)
    }

    fn view(model: &Model) -> (t: Html<Msg, EventClosureImpl<Msg>>) {
        view(model)
    }
}

/// The counter program, ready to start.
pub fn main() -> (r: Program<CounterApp>)
    ensures
        r.inv(),
        r.current_model.counter == 4,
        r.last_tree is None,
        r.renderer.binder.next_handle == 0,
        r.renderer.binder.binds == 0,
        r.renderer.binder.unbinds == 0,
        r.renderer.cmds@ == Seq::<crate::patch::Mutation>::empty(),
{
    Program::new(init())
}

} // verus!
