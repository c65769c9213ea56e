//! An incremental code accumulator for a chat-driven Lisp session: a growing
//! source buffer with bracket-balance classification and depth-aware
//! re-indentation, the chat platform's code-block markup codec, and an
//! evaluation session that renders the outcomes of the rust_lisp interpreter
//! into one bounded display string.
pub mod buffer;
pub mod markup;
pub mod session;
pub mod text;
