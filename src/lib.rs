//! A virtual desktop shell's core: an in-memory file tree with absolute-path
//! navigation, a run-once script controller, a de-duplicating message log and
//! the terminal's command dispatcher.

pub mod entry;
pub mod path;
pub mod tree;
pub mod glob1env;
pub mod protocol;
pub mod terminal;
pub mod counter;
pub mod settings;
