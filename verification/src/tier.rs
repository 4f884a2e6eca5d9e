//! Fix tiers of the lint rules.
//!
//! Tier A rules are auto-fixable; Tier B rules only for standalone files; Tier C
//! rules are report-only.
use vstd::prelude::*;
use crate::text::str_eq;

verus! {

/// Fix tier for a lint rule.
#[derive(Clone, Copy, Debug, PartialEq, Eq, Structural)]
pub enum FixTier {
    /// Auto-fixable.
    A,
    /// Fixable only when the file is standalone.
    B,
    /// Never fixed.
    C,
}

/// The tier of a rule name.
pub open spec fn tier_of(rule: Seq<char>) -> FixTier {
    if rule == "duplicate-import"@ || rule == "duplicate-export"@ || rule == "unreachable-branch"@
        || rule == "empty-block"@ || rule == "legacy-interpolation"@ {
        FixTier::A
    } else if rule == "unused-import"@ || rule == "unused-function"@ {
        FixTier::B
    } else {
        FixTier::C
    }
}

/// Whether a rule's fixes are fixable for a file of the given standalone status.
pub open spec fn fixable_spec(rule: Seq<char>, is_standalone: bool) -> bool {
    match tier_of(rule) {
        FixTier::A => true,
        FixTier::B => is_standalone,
        FixTier::C => false,
    }
}

/// Classify a rule into its fix tier.
pub fn rule_tier(rule: &str) -> (r: FixTier)
    ensures
        r == tier_of(rule@),
{
    if str_eq(rule, "duplicate-import") || str_eq(rule, "duplicate-export")
        || str_eq(rule, "unreachable-branch") || str_eq(rule, "empty-block")
        || str_eq(rule, "legacy-interpolation") {
        FixTier::A
    } else if str_eq(rule, "unused-import") || str_eq(rule, "unused-function") {
        FixTier::B
    } else {
        FixTier::C
    }
}

/// Whether a fix of this rule leaves the compiled output unchanged (every rule
/// but `legacy-interpolation`).
pub fn is_output_neutral(rule: &str) -> (r: bool)
    ensures
        r == (rule@ != "legacy-interpolation"@),
{
    !str_eq(rule, "legacy-interpolation")
}

/// Whether a finding of this rule is auto-fixable (Tier A, or Tier B when standalone).
pub fn is_fixable(rule: &str, is_standalone: bool) -> (r: bool)
    ensures
        r == fixable_spec(rule@, is_standalone),
{
    match rule_tier(rule) {
        FixTier::A => true,
        FixTier::B => is_standalone,
        FixTier::C => false,
    }
}

} // verus!
