//! In-memory text buffer and selection model for an interactive editor.
//!
//! The buffer owns a UTF-8 string together with a single anchor/cursor
//! selection, and guarantees that both selection endpoints stay inside the
//! text and on character boundaries across every mutation. Offsets are byte
//! offsets; a companion codec translates them to and from the 16-bit code
//! unit offsets used by input-method and accessibility protocols, and a
//! Markdown span classifier produces ordered highlight spans for a renderer.

pub mod boundary;
pub mod codec;
pub mod highlight;
pub mod state;
