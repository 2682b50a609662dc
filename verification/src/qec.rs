//! Identifiers of QEC code blocks.

use vstd::prelude::*;

verus! {

/// Identifier of a code block grouping atoms under one code family.
#[derive(Clone, Copy, Debug, PartialEq, Eq, PartialOrd, Ord, Hash, Structural)]
pub struct CodeBlockId(pub u32);

} // verus!
