//! Analysis core of a Kotlin language service: editable text buffers, the
//! tree edits that let each keystroke be re-parsed incrementally, and a
//! memoizing query engine over the parsed documents.

pub mod ast;
pub mod edit;
pub mod error;
pub mod syntax;
pub mod text;
pub mod types;
pub mod workspace;
