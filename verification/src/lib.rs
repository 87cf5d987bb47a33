//! The logic of a debug console for live token streams: the handshake, the
//! session registry, the two renderers, the scrollback, and the decisions the
//! main loop takes. Sockets, threads and the screen belong to the program
//! around it.
#![allow(unused_imports)]

pub mod ansiasm;
pub mod cmd;
pub mod console;
pub mod pipeline;
pub mod proto;
pub mod registry;
pub mod screen;
pub mod session;
pub mod streamview;
pub mod text;
pub mod tracefmt;
