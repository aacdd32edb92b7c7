//! Line memory, content rendering and stream bookkeeping for a set of small
//! desktop utilities: an inter-process line relay, a text animator and a
//! command scheduler.

pub mod animation;
pub mod command;
pub mod content;
pub mod forward;
pub mod memory;
pub mod observer;
pub mod outputs;
pub mod read_state;
