//! Options of the binding layers: the `vars` error type and the check that an
//! options object holds only recognised keys.
use vstd::prelude::*;
use crate::error::MdsError;
use crate::text::str_eq;

verus! {

/// The errors of parsing the `vars` option.
#[derive(Debug)]
pub enum VarsError {
    /// `vars` was not a JSON object; the text says what it was.
    InvalidType(String),
    /// A value inside `vars` could not be converted.
    Conversion(MdsError),
}

impl VarsError {
    /// The display form of the error.
    pub fn to_display_string(&self) -> (r: String)
        ensures
            r@ == match self {
                VarsError::InvalidType(m) => m@,
                VarsError::Conversion(e) => "vars conversion error: "@ + e.display_text(),
            },
    {
        match self {
            VarsError::InvalidType(m) => m.clone(),
            VarsError::Conversion(e) => {
                let mut out = String::from_str("vars conversion error: ");
                let shown = e.to_display_string();
                out.append(shown.as_str());
                out
            },
        }
    }

    /// The underlying error, for a conversion failure.
    pub fn source(&self) -> (r: Option<&MdsError>)
        ensures
            match self {
                VarsError::InvalidType(_) => r is None,
                VarsError::Conversion(e) => r == Some(e),
            },
    {
        match self {
            VarsError::InvalidType(_) => None,
            VarsError::Conversion(e) => Some(e),
        }
    }
}

/// Whether `known` holds `k`.
fn is_known_key(known: &Vec<&str>, k: &str) -> (r: bool)
    ensures
        r == exists|i: int| 0 <= i < known@.len() && (#[trigger] known@[i])@ == k@,
{
    let mut i: usize = 0;
    while i < known.len()
        invariant
            i <= known@.len(),
            forall|j: int| 0 <= j < i ==> (#[trigger] known@[j])@ != k@,
        decreases known@.len() - i,
    {
        if str_eq(known[i], k) {
            return true;
        }
        i = i + 1;
    }
    false
}

/// Whether `known` lists `k`.
pub open spec fn is_listed(known: Seq<&str>, k: Seq<char>) -> bool {
    exists|i: int| 0 <= i < known.len() && (#[trigger] known[i])@ == k
}

/// The keys of `keys` that `known` does not list, in order.
pub open spec fn unknown_keys(keys: Seq<Seq<char>>, known: Seq<&str>) -> Seq<Seq<char>>
    decreases keys.len(),
{
    if keys.len() == 0 {
        Seq::empty()
    } else {
        let rest = unknown_keys(keys.drop_last(), known);
        if is_listed(known, keys.last()) { rest } else { rest.push(keys.last()) }
    }
}

/// The recognised keys joined by `", "`.
pub open spec fn joined_keys(known: Seq<&str>) -> Seq<char>
    decreases known.len(),
{
    if known.len() == 0 {
        Seq::empty()
    } else if known.len() == 1 {
        known[0]@
    } else {
        joined_keys(known.drop_last()) + ", "@ + known.last()@
    }
}

/// The keys, each in double quotes, joined by `", "`.
pub open spec fn quoted_keys(keys: Seq<Seq<char>>) -> Seq<char>
    decreases keys.len(),
{
    if keys.len() == 0 {
        Seq::empty()
    } else if keys.len() == 1 {
        "\""@ + keys[0] + "\""@
    } else {
        quoted_keys(keys.drop_last()) + ", "@ + "\""@ + keys.last() + "\""@
    }
}

/// The rejection message for the unknown keys `unknown`.
pub open spec fn unknown_keys_message(unknown: Seq<Seq<char>>, known: Seq<&str>) -> Seq<char> {
    (if unknown.len() == 1 {
        "unknown option key \""@ + unknown[0] + "\""@
    } else {
        "unknown option keys: "@ + quoted_keys(unknown)
    }) + "; recognised keys are: "@ + joined_keys(known)
}

/// Check that every key is recognised. The error names every unknown key:
/// `unknown option key "foo"; recognised keys are: a, b` for one, and
/// `unknown option keys: "foo", "bar"; recognised keys are: a, b` for several.
pub fn reject_unknown_keys(keys: &Vec<String>, known: &Vec<&str>) -> (r: Result<(), String>)
    ensures
        ({
            let unknown = unknown_keys(keys@.map_values(|s: String| s@), known@);
            match r {
                Ok(()) => unknown.len() == 0,
                Err(m) => unknown.len() > 0 && m@ == unknown_keys_message(unknown, known@),
            }
        }),
{
    let ghost kv = keys@.map_values(|s: String| s@);
    let mut unknowns: Vec<&str> = Vec::new();
    let mut i: usize = 0;
    while i < keys.len()
        invariant
            i <= keys@.len(),
            kv == keys@.map_values(|s: String| s@),
            unknowns@.map_values(|s: &str| s@) == unknown_keys(kv.take(i as int), known@),
        decreases keys@.len() - i,
    {
        assert(kv.take(i + 1).drop_last() =~= kv.take(i as int));
        assert(kv.take(i + 1).last() == keys@[i as int]@);
        let k = keys[i].as_str();
        if !is_known_key(known, k) {
            unknowns.push(k);
        }
        assert(unknowns@.map_values(|s: &str| s@) =~= unknown_keys(kv.take(i + 1), known@));
        i = i + 1;
    }
    assert(kv.take(keys@.len() as int) =~= kv);
    let ghost uv = unknowns@.map_values(|s: &str| s@);
    if unknowns.len() == 0 {
        return Ok(());
    }
    let mut recognised = String::new();
    let mut j: usize = 0;
    while j < known.len()
        invariant
            j <= known@.len(),
            recognised@ == joined_keys(known@.take(j as int)),
        decreases known@.len() - j,
    {
        assert(known@.take(j + 1).drop_last() =~= known@.take(j as int));
        if j > 0 {
            recognised.append(", ");
        }
        recognised.append(known[j]);
        assert(recognised@ =~= joined_keys(known@.take(j + 1)));
        j = j + 1;
    }
    assert(known@.take(known@.len() as int) =~= known@);
    let mut msg = if unknowns.len() == 1 {
        let mut m = String::from_str("unknown option key \"");
        m.append(unknowns[0]);
        m.append("\"");
        m
    } else {
        let mut m = String::from_str("unknown option keys: ");
        let ghost prefix = m@;
        let mut t: usize = 0;
        while t < unknowns.len()
            invariant
                t <= unknowns@.len(),
                uv == unknowns@.map_values(|s: &str| s@),
                m@ == prefix + quoted_keys(uv.take(t as int)),
            decreases unknowns@.len() - t,
        {
            assert(uv.take(t + 1).drop_last() =~= uv.take(t as int));
            assert(uv.take(t + 1).last() == unknowns@[t as int]@);
            if t > 0 {
                m.append(", ");
            }
            m.append("\"");
            m.append(unknowns[t]);
            m.append("\"");
            proof {
                if t == 0 {
                    assert(uv.take(1)[0] == uv[0]);
                    assert(quoted_keys(uv.take(1)) == "\""@ + uv[0] + "\""@);
                }
            }
            assert(m@ =~= prefix + quoted_keys(uv.take(t + 1)));
            t = t + 1;
        }
        assert(uv.take(unknowns@.len() as int) =~= uv);
        m
    };
    msg.append("; recognised keys are: ");
    msg.append(recognised.as_str());
    assert(msg@ =~= unknown_keys_message(uv, known@));
    Err(msg)
}

} // verus!

verus! {

/// `serde_json::Value`, carried through opaquely.
#[verifier::external_type_specification]
#[verifier::external_body]
pub struct ExJsonValue(serde_json::Value);

/// `serde_json::Map`, carried through opaquely.
#[verifier::external_type_specification]
#[verifier::external_body]
#[verifier::reject_recursive_types(K)]
#[verifier::reject_recursive_types(V)]
pub struct ExJsonMap<K, V>(serde_json::Map<K, V>);

/// The keys of a JSON object, in the order `serde_json::Map::keys` yields them.
pub uninterp spec fn json_map_keys(map: serde_json::Map<String, serde_json::Value>) -> Seq<Seq<char>>;

/// The keys of a JSON object, by `serde_json::Map::keys`: the contract says the
/// returned strings are the keys, in the order that call yields them.
#[verifier::external_body]
fn object_keys(map: &serde_json::Map<String, serde_json::Value>) -> (r: Vec<String>)
    ensures
        r@.map_values(|s: String| s@) == json_map_keys(*map),
{
    map.keys().cloned().collect()
}

/// Reject the keys of an options object that `known` does not list (see
/// `reject_unknown_keys` for the message).
pub fn reject_unknown_json_keys(map: &serde_json::Map<String, serde_json::Value>, known: &[&str]) -> (r: Result<(), String>)
    ensures
        ({
            let unknown = unknown_keys(json_map_keys(*map), known@);
            match r {
                Ok(()) => unknown.len() == 0,
                Err(m) => unknown.len() > 0 && m@ == unknown_keys_message(unknown, known@),
            }
        }),
{
    let keys = object_keys(map);
    let mut names: Vec<&str> = Vec::new();
    let mut i: usize = 0;
    while i < known.len()
        invariant
            i <= known@.len(),
            names@ == known@.take(i as int),
        decreases known@.len() - i,
    {
        names.push(known[i]);
        assert(names@ =~= known@.take(i + 1));
        i = i + 1;
    }
    assert(names@ =~= known@);
    reject_unknown_keys(&keys, &names)
}

} // verus!
