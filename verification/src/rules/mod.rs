//! The lint rules. Each rule is a plain function over the module, the facts
//! and the configuration that appends its findings to a collector.
pub mod structural_eq;
pub mod common;
pub mod empty_block;
pub mod redundant_else;
pub mod unreachable_branch;
pub mod duplicate_import;
pub mod duplicate_export;
pub mod unused_variable;
pub mod unused_import;
pub mod unused_function;
pub mod shadow_variable;
pub mod legacy_interpolation;

use vstd::prelude::*;

verus! {

/// All registered lint rule names, sorted lexicographically, each taken from its
/// rule module.
pub const ALL_RULE_NAMES: [&'static str; 10] = [
    duplicate_export::RULE,
    duplicate_import::RULE,
    empty_block::RULE,
    legacy_interpolation::RULE,
    redundant_else::RULE,
    shadow_variable::RULE,
    unreachable_branch::RULE,
    unused_function::RULE,
    unused_import::RULE,
    unused_variable::RULE,
];

} // verus!
