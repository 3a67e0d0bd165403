//! A language-agnostic pretty-printer: build a [`Doc`] describing how source
//! text may be laid out, then render it against a target line width. The
//! layout engine is Wadler's "A Prettier Printer" in Lindig's linear-time,
//! stack-based form; every render is proved to produce exactly the text that
//! the model in [`model`] defines.

mod lit;
pub mod model;
mod doc;
mod render;
mod debug;
pub mod laws;

pub use crate::doc::Doc;
pub use crate::lit::{IntoText, TextSrc};
