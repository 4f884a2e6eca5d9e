//! Lint configuration: per-rule severity overrides, and the report of rule
//! names that no rule registers.
//!
//! Unknown rule names never fail construction; callers detect them with
//! [`find_unknown_rule_names`] and decide how to warn.
use vstd::prelude::*;
use vstd::string::*;
use crate::diagnostic::{Severity, sanitized};
use crate::text::{bytes_lt, compare_bytes, lemma_bytes_lt_irreflexive, lemma_bytes_lt_total,
    lemma_bytes_lt_transitive, lemma_utf8_injective, str_eq, utf8, Order3};

verus! {

/// The registered rule names, sorted lexicographically.
pub const KNOWN_LINT_RULES: [&'static str; 10] = [
    "duplicate-export",
    "duplicate-import",
    "empty-block",
    "legacy-interpolation",
    "redundant-else",
    "shadow-variable",
    "unreachable-branch",
    "unused-function",
    "unused-import",
    "unused-variable",
];

/// Whether `name` is a registered rule.
pub open spec fn known_rule(name: Seq<char>) -> bool {
    name == "duplicate-export"@ || name == "duplicate-import"@ || name == "empty-block"@
        || name == "legacy-interpolation"@ || name == "redundant-else"@ || name == "shadow-variable"@
        || name == "unreachable-branch"@ || name == "unused-function"@ || name == "unused-import"@
        || name == "unused-variable"@
}

/// Whether `name` is a registered rule.
pub fn is_known_rule(name: &str) -> (r: bool)
    ensures
        r == known_rule(name@),
{
    str_eq(name, "duplicate-export") || str_eq(name, "duplicate-import") || str_eq(name, "empty-block")
        || str_eq(name, "legacy-interpolation") || str_eq(name, "redundant-else")
        || str_eq(name, "shadow-variable") || str_eq(name, "unreachable-branch")
        || str_eq(name, "unused-function") || str_eq(name, "unused-import")
        || str_eq(name, "unused-variable")
}

/// The severity configured for `rule`: the last entry naming it wins.
pub open spec fn rules_lookup(rules: Seq<(String, Severity)>, rule: Seq<char>) -> Option<Severity>
    decreases rules.len(),
{
    if rules.len() == 0 {
        None
    } else if rules.last().0@ == rule {
        Some(rules.last().1)
    } else {
        rules_lookup(rules.drop_last(), rule)
    }
}

/// Per-rule severity overrides.
#[derive(Debug)]
pub struct LintConfig {
    /// `(rule name, severity)` overrides; for a name listed twice the later entry wins.
    pub rules: Vec<(String, Severity)>,
}

impl LintConfig {
    /// A configuration with every rule at its built-in severity.
    pub fn default() -> (r: LintConfig)
        ensures
            r.rules@.len() == 0,
    {
        LintConfig { rules: Vec::new() }
    }

    /// A configuration with the given overrides.
    pub fn from_rules(rules: Vec<(String, Severity)>) -> (r: LintConfig)
        ensures
            r.rules == rules,
    {
        LintConfig { rules }
    }

    /// A configuration with the given overrides, and the report of the names in it
    /// that no rule registers.
    pub fn from_rules_checked(rules: Vec<(String, Severity)>) -> (r: (LintConfig, Option<UnknownRuleNames>))
        ensures
            r.0.rules == rules,
            unknown_report(rules@, r.1),
    {
        let unknown = find_unknown_rule_names(&rules);
        (LintConfig { rules }, unknown)
    }

    /// The configured severity of `rule`, or `None` when it has no override.
    pub fn severity_for(&self, rule: &str) -> (r: Option<Severity>)
        ensures
            r == rules_lookup(self.rules@, rule@),
    {
        let mut i = self.rules.len();
        assert(self.rules@.take(i as int) =~= self.rules@);
        while i > 0
            invariant
                i <= self.rules@.len(),
                rules_lookup(self.rules@, rule@) == rules_lookup(self.rules@.take(i as int), rule@),
            decreases i,
        {
            let ghost pre = self.rules@.take(i as int);
            assert(pre.drop_last() =~= self.rules@.take(i - 1));
            if str_eq(self.rules[i - 1].0.as_str(), rule) {
                return Some(self.rules[i - 1].1);
            }
            i = i - 1;
        }
        None
    }
}

/// The rule names of a configuration that no rule registers, sorted.
#[derive(Debug)]
pub struct UnknownRuleNames {
    names: Vec<String>,
}

impl UnknownRuleNames {
    /// The unknown names, sorted lexicographically.
    pub fn names(&self) -> (r: &Vec<String>)
        ensures
            r@.map_values(|s: String| s@) == self.view_names(),
    {
        &self.names
    }

    /// The names as character sequences.
    pub closed spec fn view_names(&self) -> Seq<Seq<char>> {
        self.names@.map_values(|s: String| s@)
    }
}

/// The names are strictly increasing in byte order (so distinct).
pub open spec fn strictly_sorted(names: Seq<Seq<char>>) -> bool {
    forall|i: int, j: int| 0 <= i < j < names.len() ==> bytes_lt(utf8(#[trigger] names[i]), utf8(#[trigger] names[j]))
}

/// `names` is exactly the sorted set of the unknown names among the first `n` rules.
pub open spec fn is_unknown_set(rules: Seq<(String, Severity)>, n: int, names: Seq<Seq<char>>) -> bool {
    &&& strictly_sorted(names)
    &&& forall|i: int| 0 <= i < names.len() ==> !known_rule(#[trigger] names[i])
        && exists|k: int| 0 <= k < n && rules[k].0@ == names[i]
    &&& forall|k: int| 0 <= k < n && !known_rule(#[trigger] rules[k].0@)
        ==> names.contains(rules[k].0@)
}

/// `report` is `None` when every name is known, else the sorted unknown names.
pub open spec fn unknown_report(rules: Seq<(String, Severity)>, report: Option<UnknownRuleNames>) -> bool {
    match report {
        None => forall|k: int| 0 <= k < rules.len() ==> known_rule(#[trigger] rules[k].0@),
        Some(u) => u.view_names().len() > 0 && is_unknown_set(rules, rules.len() as int, u.view_names()),
    }
}

/// Detect the rule names in `rules` that no rule registers.
pub fn find_unknown_rule_names(rules: &Vec<(String, Severity)>) -> (r: Option<UnknownRuleNames>)
    ensures
        unknown_report(rules@, r),
{
    let mut names: Vec<String> = Vec::new();
    let mut i: usize = 0;
    while i < rules.len()
        invariant
            0 <= i <= rules@.len(),
            is_unknown_set(rules@, i as int, names@.map_values(|s: String| s@)),
            names@.len() == 0 ==> forall|k: int| 0 <= k < i ==> known_rule(#[trigger] rules@[k].0@),
        decreases rules@.len() - i,
    {
        let ghost nv = names@.map_values(|s: String| s@);
        let key = &rules[i].0;
        if !is_known_rule(key.as_str()) {
            let mut p: usize = 0;
            while p < names.len() && compare_bytes(names[p].as_str().as_bytes(), key.as_str().as_bytes()) == Order3::Less
                invariant
                    0 <= p <= names@.len(),
                    nv == names@.map_values(|s: String| s@),
                    forall|k: int| 0 <= k < p ==> bytes_lt(utf8(#[trigger] nv[k]), utf8(key@)),
                decreases names@.len() - p,
            {
                p = p + 1;
            }
            let dup = p < names.len() && compare_bytes(names[p].as_str().as_bytes(), key.as_str().as_bytes()) == Order3::Equal;
            if dup {
                proof {
                    lemma_utf8_injective(nv[p as int], key@);
                    assert(nv[p as int] == key@);
                }
            } else {
                proof {
                    if p < nv.len() {
                        assert(bytes_lt(utf8(key@), utf8(nv[p as int])));
                    }
                }
                names.insert(p, key.clone());
                proof {
                    let nv2 = names@.map_values(|s: String| s@);
                    assert(nv2 =~= nv.insert(p as int, key@));
                    assert forall|a: int, b: int| 0 <= a < b < nv2.len() implies
                        bytes_lt(utf8(#[trigger] nv2[a]), utf8(#[trigger] nv2[b])) by {
                        if b == p {
                        } else if a == p {
                            if b - 1 > p {
                                lemma_bytes_lt_transitive(utf8(key@), utf8(nv[p as int]), utf8(nv[b - 1]));
                            }
                        } else if a < p && b > p {
                            assert(nv2[b] == nv[b - 1]);
                        } else if a > p {
                            assert(nv2[a] == nv[a - 1]);
                            assert(nv2[b] == nv[b - 1]);
                        }
                    }
                    assert forall|j: int| 0 <= j < nv2.len() implies !known_rule(#[trigger] nv2[j])
                        && exists|k: int| 0 <= k < i + 1 && rules@[k].0@ == nv2[j] by {
                        if j < p {
                            assert(nv2[j] == nv[j]);
                        } else if j == p {
                            assert(rules@[i as int].0@ == nv2[j]);
                        } else {
                            assert(nv2[j] == nv[j - 1]);
                        }
                    }
                    assert forall|k: int| 0 <= k < i && !known_rule(#[trigger] rules@[k].0@)
                        implies nv2.contains(rules@[k].0@) by {
                        let j = choose|j: int| 0 <= j < nv.len() && nv[j] == rules@[k].0@;
                        if j < p {
                            assert(nv2[j] == nv[j]);
                        } else {
                            assert(nv2[j + 1] == nv[j]);
                        }
                    }
                    assert(nv2[p as int] == key@);
                }
            }
        }
        i = i + 1;
    }
    if names.len() == 0 {
        None
    } else {
        let r = UnknownRuleNames { names };
        proof {
            assert(r.view_names() == r.names@.map_values(|s: String| s@));
        }
        Some(r)
    }
}

/// The registry listing: the registered names joined by `", "`.
pub open spec fn registry_listing() -> Seq<char> {
    "duplicate-export, duplicate-import, empty-block, legacy-interpolation, redundant-else, shadow-variable, unreachable-branch, unused-function, unused-import, unused-variable"@
}

/// The quoted, wire-escaped names joined by `", "`.
pub open spec fn quoted_list(names: Seq<Seq<char>>) -> Seq<char>
    decreases names.len(),
{
    if names.len() == 0 {
        Seq::empty()
    } else if names.len() == 1 {
        "'"@ + sanitized(names[0], true) + "'"@
    } else {
        quoted_list(names.drop_last()) + ", '"@ + sanitized(names.last(), true) + "'"@
    }
}

/// The warning text for a list of unknown rule names.
pub open spec fn warning_text(names: Seq<Seq<char>>) -> Seq<char> {
    (if names.len() == 1 {
        "unknown lint rule '"@ + sanitized(names[0], true) + "'"@
    } else {
        "unknown lint rules: "@ + quoted_list(names)
    }) + "; recognised rules are: "@ + registry_listing() + "; ignoring"@
}

/// The warning for unknown rule names: each name wire-escaped and quoted, the
/// registered names listed, both in sorted order.
pub fn format_unknown_rule_names_warning(unknown: &UnknownRuleNames) -> (r: String)
    ensures
        r@ == warning_text(unknown.view_names()),
{
    let names = &unknown.names;
    let ghost nv = names@.map_values(|s: String| s@);
    assert(nv == unknown.view_names());
    let mut out = String::new();
    if names.len() == 1 {
        out.append("unknown lint rule '");
        let esc = crate::diagnostic::sanitize_with(names[0].as_str(), true);
        out.append(esc.as_str());
        out.append("'");
    } else {
        out.append("unknown lint rules: ");
        let ghost prefix = out@;
        let mut i: usize = 0;
        while i < names.len()
            invariant
                0 <= i <= names@.len(),
                nv == names@.map_values(|s: String| s@),
                out@ == prefix + quoted_list(nv.take(i as int)),
            decreases names@.len() - i,
        {
            proof {
                assert(nv.take(i + 1).drop_last() =~= nv.take(i as int));
            }
            if i > 0 {
                out.append(", '");
            } else {
                out.append("'");
            }
            let esc = crate::diagnostic::sanitize_with(names[i].as_str(), true);
            out.append(esc.as_str());
            out.append("'");
            proof {
                assert(nv.take(i + 1).last() == nv[i as int]);
                assert(nv[i as int] == names@[i as int]@);
                if i == 0 {
                    assert(quoted_list(nv.take(1)) == "'"@ + sanitized(nv[0], true) + "'"@);
                }
                assert(out@ =~= prefix + quoted_list(nv.take(i + 1)));
            }
            i = i + 1;
        }
        assert(nv.take(names@.len() as int) =~= nv);
    }
    out.append("; recognised rules are: ");
    out.append("duplicate-export, duplicate-import, empty-block, legacy-interpolation, redundant-else, shadow-variable, unreachable-branch, unused-function, unused-import, unused-variable");
    out.append("; ignoring");
    proof {
        assert(out@ =~= warning_text(nv));
    }
    out
}

/// Record `key` at `offset` when it is new and return `true`; when `key` is
/// already recorded, leave `seen` unchanged and return `false`.
pub fn first_occurrence(seen: &mut Vec<(String, usize)>, key: String, offset: usize) -> (r: bool)
    ensures
        r == !(exists|k: int| 0 <= k < old(seen)@.len() && #[trigger] old(seen)@[k].0@ == key@),
        r ==> final(seen)@ == old(seen)@.push((key, offset)),
        !r ==> final(seen)@ == old(seen)@,
{
    let mut i: usize = 0;
    while i < seen.len()
        invariant
            0 <= i <= seen@.len(),
            forall|k: int| 0 <= k < i ==> #[trigger] seen@[k].0@ != key@,
        decreases seen@.len() - i,
    {
        if str_eq(seen[i].0.as_str(), key.as_str()) {
            return false;
        }
        i = i + 1;
    }
    seen.push((key, offset));
    true
}

/// Two strictly sorted name lists with the same elements are the same list.
proof fn lemma_sorted_same_elements(a: Seq<Seq<char>>, b: Seq<Seq<char>>)
    requires
        strictly_sorted(a),
        strictly_sorted(b),
        forall|x: Seq<char>| a.contains(x) <==> b.contains(x),
    ensures
        a == b,
    decreases a.len(),
{
    if a.len() == 0 {
        if b.len() > 0 {
            assert(b.contains(b[0]));
        }
        assert(a =~= b);
    } else {
        assert(a.contains(a[0]));
        assert(b.len() > 0);
        assert(b.contains(b[0]));
        let j = choose|j: int| 0 <= j < b.len() && b[j] == a[0];
        let i = choose|i: int| 0 <= i < a.len() && a[i] == b[0];
        if j > 0 {
            assert(bytes_lt(utf8(b[0]), utf8(b[j])));
            if i > 0 {
                assert(bytes_lt(utf8(a[0]), utf8(a[i])));
                lemma_bytes_lt_transitive(utf8(a[0]), utf8(a[i]), utf8(a[0]));
            }
            lemma_bytes_lt_irreflexive(utf8(a[0]));
        }
        assert(a[0] == b[0]);
        let a1 = a.drop_first();
        let b1 = b.drop_first();
        assert forall|x: Seq<char>| a1.contains(x) implies b1.contains(x) by {
            let p = choose|p: int| 0 <= p < a1.len() && a1[p] == x;
            assert(a[p + 1] == x);
            assert(bytes_lt(utf8(a[0]), utf8(a[p + 1])));
            lemma_bytes_lt_irreflexive(utf8(x));
            assert(b.contains(x));
            let q = choose|q: int| 0 <= q < b.len() && b[q] == x;
            assert(q != 0);
            assert(b1[q - 1] == x);
        }
        assert forall|x: Seq<char>| b1.contains(x) implies a1.contains(x) by {
            let p = choose|p: int| 0 <= p < b1.len() && b1[p] == x;
            assert(b[p + 1] == x);
            assert(bytes_lt(utf8(b[0]), utf8(b[p + 1])));
            lemma_bytes_lt_irreflexive(utf8(x));
            assert(a.contains(x));
            let q = choose|q: int| 0 <= q < a.len() && a[q] == x;
            assert(q != 0);
            assert(a1[q - 1] == x);
        }
        assert forall|p: int, q: int| 0 <= p < q < a1.len() implies
            bytes_lt(utf8(#[trigger] a1[p]), utf8(#[trigger] a1[q])) by {
            assert(a1[p] == a[p + 1] && a1[q] == a[q + 1]);
        }
        assert forall|p: int, q: int| 0 <= p < q < b1.len() implies
            bytes_lt(utf8(#[trigger] b1[p]), utf8(#[trigger] b1[q])) by {
            assert(b1[p] == b[p + 1] && b1[q] == b[q + 1]);
        }
        lemma_sorted_same_elements(a1, b1);
        assert(a =~= seq![a[0]] + a1);
        assert(b =~= seq![b[0]] + b1);
    }
}

/// The unknown-name report depends only on which names the configuration holds:
/// two configurations that name the same rules, in any order and with any
/// repetition, get the same sorted unknown names and so a byte-identical warning.
pub proof fn law_unknown_warning_ignores_order(
    r1: Seq<(String, Severity)>,
    r2: Seq<(String, Severity)>,
    u1: UnknownRuleNames,
    u2: UnknownRuleNames,
)
    requires
        unknown_report(r1, Some(u1)),
        unknown_report(r2, Some(u2)),
        forall|k: int| 0 <= k < r1.len() ==> exists|m: int| 0 <= m < r2.len() && #[trigger] r1[k].0@ == r2[m].0@,
        forall|m: int| 0 <= m < r2.len() ==> exists|k: int| 0 <= k < r1.len() && r1[k].0@ == #[trigger] r2[m].0@,
    ensures
        u1.view_names() == u2.view_names(),
        warning_text(u1.view_names()) == warning_text(u2.view_names()),
{
    let a = u1.view_names();
    let b = u2.view_names();
    assert forall|x: Seq<char>| a.contains(x) implies b.contains(x) by {
        let p = choose|p: int| 0 <= p < a.len() && a[p] == x;
        assert(!known_rule(a[p]));
        let k = choose|k: int| 0 <= k < r1.len() && r1[k].0@ == a[p];
        let m = choose|m: int| 0 <= m < r2.len() && r1[k].0@ == r2[m].0@;
        assert(!known_rule(r2[m].0@));
    }
    assert forall|x: Seq<char>| b.contains(x) implies a.contains(x) by {
        let p = choose|p: int| 0 <= p < b.len() && b[p] == x;
        assert(!known_rule(b[p]));
        let m = choose|m: int| 0 <= m < r2.len() && r2[m].0@ == b[p];
        let k = choose|k: int| 0 <= k < r1.len() && r1[k].0@ == r2[m].0@;
        assert(!known_rule(r1[k].0@));
    }
    lemma_sorted_same_elements(a, b);
}

} // verus!
