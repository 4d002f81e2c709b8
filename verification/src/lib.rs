//! An Elm-style user-interface runtime: an application supplies a model, a
//! pure `view` that renders the model as a virtual tree, and a pure `update`
//! that folds incoming messages into the model.  The runtime diffs successive
//! virtual trees, patches a model of the live document, and emits the exact
//! mutation commands an embedder must replay against the real document.

pub mod app;
pub mod cmd;
pub mod events;
pub mod html;
pub mod listeners;
pub mod live;
pub mod patch;
pub mod program;
pub mod render;

pub use cmd::Cmd;
pub use cmd::CmdError;
pub use cmd::NoCmd;
pub use events::EventData;
pub use events::derive_message;
pub use events::on_blur;
pub use events::on_click;
pub use events::on_double_click;
pub use events::on_enter;
pub use events::on_input;
pub use html::Html;
pub use html::HtmlTag;
pub use html::PropertyValue;
pub use program::Application;
pub use program::Program;
