//! Engine of a split-screen terminal application served over a remote shell
//! channel: key decoding, key-sequence bindings, a pane layout tree, the
//! application event loop's decisions and the per-channel session state.

pub mod app;
pub mod combo;
pub mod compositor;
pub mod key;
pub mod layout;
pub mod notifications;
pub mod session;
pub mod storage;
pub mod views;
