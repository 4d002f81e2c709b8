//! Event attribute builders, and the derivation of a message from a firing:
//! the one place where the closed set of message-derivation policies is
//! matched.

use vstd::prelude::*;

use crate::html::{
    Attribute, Event, EventClosure, EventFilter, EventToMessage, EventToMessageView, EventView,
    Message,
};

verus! {

/// What the runtime reads out of a native event before deriving a message:
/// the current value of the event's target, read as a text input (the
/// empty string when the target cannot be read as one), and the event's
/// key code (zero when it has none).
pub struct EventData {
    pub value: String,
    pub key_code: u32,
}

/// An event attribute listening for `click` that always produces `message`.
pub fn on_click<Msg: Message, F: EventClosure<Msg>>(message: Msg) -> (r: Attribute<Msg, F>)
    ensures
        r@ == crate::html::AttributeView::<Msg::V, F::V>::Event(
            EventView {
                type_: "click"@,
                to_message: EventToMessageView::StaticMsg(message.deep_view()),
                stop_propagation: false,
                prevent_default: false,
                handle: None,
            },
        ),
{
    Attribute::Event(
        Event {
            type_: String::from_str("click"),
            to_message: EventToMessage::StaticMsg(message),
            stop_propagation: false,
            prevent_default: false,
            handle: None,
        },
    )
}

/// An event attribute listening for `dblclick` that always produces
/// `message`.
pub fn on_double_click<Msg: Message, F: EventClosure<Msg>>(message: Msg) -> (r: Attribute<Msg, F>)
    ensures
        r@ == crate::html::AttributeView::<Msg::V, F::V>::Event(
            EventView {
                type_: "dblclick"@,
                to_message: EventToMessageView::StaticMsg(message.deep_view()),
                stop_propagation: false,
                prevent_default: false,
                handle: None,
            },
        ),
{
    Attribute::Event(
        Event {
            type_: String::from_str("dblclick"),
            to_message: EventToMessage::StaticMsg(message),
            stop_propagation: false,
            prevent_default: false,
            handle: None,
        },
    )
}

/// An event attribute listening for `blur` that always produces `message`.
pub fn on_blur<Msg: Message, F: EventClosure<Msg>>(message: Msg) -> (r: Attribute<Msg, F>)
    ensures
        r@ == crate::html::AttributeView::<Msg::V, F::V>::Event(
            EventView {
                type_: "blur"@,
                to_message: EventToMessageView::StaticMsg(message.deep_view()),
                stop_propagation: false,
                prevent_default: false,
                handle: None,
            },
        ),
{
    Attribute::Event(
        Event {
            type_: String::from_str("blur"),
            to_message: EventToMessage::StaticMsg(message),
            stop_propagation: false,
            prevent_default: false,
            handle: None,
        },
    )
}

/// An event attribute listening for `input` whose message is derived from
/// the input's current value through `mapper`.  Propagation is stopped, as
/// an input firing concerns only its own element.
pub fn on_input<Msg: Message, F: EventClosure<Msg>>(mapper: F) -> (r: Attribute<Msg, F>)
    ensures
        r@ == crate::html::AttributeView::<Msg::V, F::V>::Event(
            EventView {
                type_: "input"@,
                to_message: EventToMessageView::Input(mapper.deep_view()),
                stop_propagation: true,
                prevent_default: false,
                handle: None,
            },
        ),
{
    Attribute::Event(
        Event {
            type_: String::from_str("input"),
            to_message: EventToMessage::Input(mapper),
            stop_propagation: true,
            prevent_default: false,
            handle: None,
        },
    )
}

/// The key code of the Enter key.
pub const ENTER_KEY: u32 = 13;

/// An event attribute listening for `keydown` that produces `message` only
/// when the pressed key is Enter.
pub fn on_enter<Msg: Message, F: EventClosure<Msg>>(message: Msg) -> (r: Attribute<Msg, F>)
    ensures
        r@ == crate::html::AttributeView::<Msg::V, F::V>::Event(
            EventView {
                type_: "keydown"@,
                to_message: EventToMessageView::WithFilter {
                    msg: message.deep_view(),
                    filter: EventFilter::KeyCode(13),
                },
                stop_propagation: false,
                prevent_default: false,
                handle: None,
            },
        ),
{
    Attribute::Event(
        Event {
            type_: String::from_str("keydown"),
            to_message: EventToMessage::WithFilter {
                msg: message,
                filter: EventFilter::KeyCode(ENTER_KEY),
            },
            stop_propagation: false,
            prevent_default: false,
            handle: None,
        },
    )
}

/// Derive the message of one firing from the attribute's policy and the
/// data read out of the native event: a fixed message fires as itself, an
/// input-derived message maps the target's current value, and a filtered
/// message fires only when the event's key code matches.
pub fn derive_message<Msg: Message, F: EventClosure<Msg>>(
    to_message: &EventToMessage<Msg, F>,
    data: &EventData,
) -> (r: Option<Msg>)
    ensures
        match to_message@ {
            EventToMessageView::StaticMsg(m) => r matches Some(x) && x.deep_view() == m,
            EventToMessageView::Input(fv) => r matches Some(x) && x.deep_view() == F::maps(
                fv,
                data.value@,
            ),
            EventToMessageView::WithFilter { msg, filter } => match filter {
                EventFilter::KeyCode(k) => if data.key_code == k {
                    r matches Some(x) && x.deep_view() == msg
                } else {
                    r is None
                },
            },
        },
{
    match to_message {
        EventToMessage::StaticMsg(m) => Some(m.dup()),
        EventToMessage::Input(f) => Some(f.call_ish(data.value.as_str())),
        EventToMessage::WithFilter { msg, filter } => match filter {
            EventFilter::KeyCode(k) => {
                if data.key_code == *k {
                    Some(msg.dup())
                } else {
                    None
                }
            },
        },
    }
}

} // verus!
