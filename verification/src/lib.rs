//! A minimal template-language engine: template source text is compiled into a
//! compact instruction sequence, which a small virtual machine then executes
//! against a hierarchical data value to produce output text.

pub mod compiler;
pub mod error;
pub mod instruction;
pub mod laws;
pub mod num;
pub mod render;
pub mod template;
pub mod text;
pub mod value;

use vstd::prelude::*;

verus! {

/// The sentinel jump target used for instructions whose target has not yet
/// been resolved by the compiler's backpatching pass.
pub const UNKNOWN: usize = usize::MAX;

} // verus!
