//! Resource limits that bound parsing and analysis work on adversarial input.
use vstd::prelude::*;

verus! {

/// Maximum nesting of blocks (and of nested call arguments).
pub const MAX_NESTING_DEPTH: usize = 64;

/// Maximum number of `@elseif` arms of one `@if`.
pub const MAX_ELSEIF_BRANCHES: usize = 256;

/// Maximum number of leaf operands of one `&&` / `||` condition.
pub const MAX_LOGICAL_OPERANDS: usize = 64;

/// Maximum number of segments of a dot path (`a.b.c`).
pub const MAX_DOT_SEGMENTS: usize = 32;

} // verus!
