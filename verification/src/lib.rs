//! The verified core of a language server for Neon.
//!
//! Everything a request needs to decide is here: how byte offsets and editor positions
//! correspond, which diagnostics belong to which file, what a hover, a jump, a rename, an
//! outline or a completion list says, when a check is due, and how the toolchain's answer is
//! read. The compiler, the disk and the wire stay outside; they hand plain values in and take
//! plain values back.

pub mod analysis;
pub mod ansi;
pub mod completion;
pub mod docs;
pub mod documents;
pub mod folding;
pub mod hints;
pub mod jump;
pub mod laws;
pub mod methods;
pub mod navigation;
pub mod outline;
pub mod position;
pub mod project;
pub mod publish;
pub mod ranges;
pub mod reply;
pub mod selection;
pub mod server;
pub mod signatures;
pub mod sort;
pub mod syntax;
pub mod text;
pub mod tokens;
pub mod toolchain;
pub mod utf;
