//! The quote-aware byte scanner behind the directive and condition parsers.
//!
//! A directive string is read one byte at a time with a small state: whether
//! the scan is inside a string literal and which quote opened it, whether the
//! current byte is escaped (the byte after a backslash inside a string), and
//! the depth of unquoted parentheses (a `)` never takes the depth below zero).
//! A byte is *unquoted* when it is read outside any string literal and is not
//! itself a quote. All the separators the parsers look for are unquoted ASCII
//! bytes, so positions found by a scan are character starts.
use vstd::prelude::*;

verus! {

/// The scan state before a byte: `(in_string, quote, escaped, paren_depth)`.
pub open spec fn scan_state(b: Seq<u8>, i: int) -> (bool, u8, bool, int)
    decreases i,
{
    if i <= 0 {
        (false, 34u8, false, 0)
    } else {
        scan_step(b, i - 1, scan_state(b, i - 1))
    }
}

/// The state after reading byte `i` in state `s`.
pub open spec fn scan_step(b: Seq<u8>, i: int, s: (bool, u8, bool, int)) -> (bool, u8, bool, int) {
    let (ins, q, esc, d) = s;
    if esc {
        (ins, q, false, d)
    } else if ins {
        if b[i] == 92u8 && i + 1 < b.len() {
            (true, q, true, d)
        } else if b[i] == q {
            (false, q, false, d)
        } else {
            (true, q, false, d)
        }
    } else if b[i] == 34u8 || b[i] == 39u8 {
        (true, b[i], false, d)
    } else if b[i] == 40u8 {
        (false, q, false, d + 1)
    } else if b[i] == 41u8 {
        (false, q, false, if d > 0 { d - 1 } else { 0 })
    } else {
        (false, q, false, d)
    }
}

/// Byte `i` is read outside any string literal and is not a quote.
pub open spec fn unquoted_at(b: Seq<u8>, i: int) -> bool {
    let s = scan_state(b, i);
    !s.2 && !s.0 && b[i] != 34u8 && b[i] != 39u8
}

/// The unquoted parenthesis depth before byte `i`.
pub open spec fn depth_at(b: Seq<u8>, i: int) -> int {
    scan_state(b, i).3
}

/// What a scan looks for at byte `i`.
///
/// - 0: `==` or `!=` outside parentheses;
/// - 1: a bare `=` outside parentheses (neither `==` nor the `=` of `!=`);
/// - 2: an `=` not followed by `=`, at any depth;
/// - 3: `&&` outside parentheses;
/// - 4: `||` outside parentheses;
/// - 5: `:` outside parentheses;
/// - 6: `,` outside parentheses;
/// - 7: `,` at any depth.
pub open spec fn match_at(b: Seq<u8>, i: int, kind: u8) -> bool {
    &&& 0 <= i < b.len()
    &&& unquoted_at(b, i)
    &&& if kind == 0 {
        depth_at(b, i) == 0 && i + 1 < b.len() && (b[i] == 33u8 || b[i] == 61u8) && b[i + 1] == 61u8
    } else if kind == 1 {
        depth_at(b, i) == 0 && b[i] == 61u8 && !(i + 1 < b.len() && b[i + 1] == 61u8) && !(i > 0 && b[i - 1] == 33u8)
    } else if kind == 2 {
        b[i] == 61u8 && !(i + 1 < b.len() && b[i + 1] == 61u8)
    } else if kind == 3 {
        depth_at(b, i) == 0 && i + 1 < b.len() && b[i] == 38u8 && b[i + 1] == 38u8
    } else if kind == 4 {
        depth_at(b, i) == 0 && i + 1 < b.len() && b[i] == 124u8 && b[i + 1] == 124u8
    } else if kind == 5 {
        depth_at(b, i) == 0 && b[i] == 58u8
    } else if kind == 6 {
        depth_at(b, i) == 0 && b[i] == 44u8
    } else {
        b[i] == 44u8
    }
}

/// The first match of `kind` at or after `from`, or the length when there is none.
pub open spec fn first_match(b: Seq<u8>, kind: u8, from: int) -> int
    decreases b.len() - from,
{
    if from >= b.len() {
        b.len() as int
    } else if from >= 0 && match_at(b, from, kind) {
        from
    } else {
        first_match(b, kind, from + 1)
    }
}

/// The last match of `kind` before `upto`, or -1 when there is none.
pub open spec fn last_match(b: Seq<u8>, kind: u8, upto: int) -> int
    decreases upto,
{
    if upto <= 0 {
        -1
    } else if match_at(b, upto - 1, kind) {
        upto - 1
    } else {
        last_match(b, kind, upto - 1)
    }
}

/// The first match lies in `[from, len]` and no match precedes it.
pub proof fn lemma_first_match_bounds(b: Seq<u8>, kind: u8, from: int)
    requires
        0 <= from <= b.len(),
    ensures
        from <= first_match(b, kind, from) <= b.len(),
        first_match(b, kind, from) < b.len() ==> match_at(b, first_match(b, kind, from), kind),
        forall|k: int| from <= k < first_match(b, kind, from) ==> !match_at(b, k, kind),
    decreases b.len() - from,
{
    if from < b.len() && !match_at(b, from, kind) {
        lemma_first_match_bounds(b, kind, from + 1);
    }
}

/// The last match lies before `upto` and is a match.
pub proof fn lemma_last_match_bounds(b: Seq<u8>, kind: u8, upto: int)
    requires
        0 <= upto <= b.len(),
    ensures
        -1 <= last_match(b, kind, upto) < upto,
        last_match(b, kind, upto) >= 0 ==> match_at(b, last_match(b, kind, upto), kind),
        forall|k: int| last_match(b, kind, upto) < k < upto ==> !match_at(b, k, kind),
    decreases upto,
{
    if upto > 0 && !match_at(b, upto - 1, kind) {
        lemma_last_match_bounds(b, kind, upto - 1);
    }
}

/// Read byte `i` in the exec state, returning the state before byte `i + 1`.
fn step(b: &[u8], i: usize, ins: bool, q: u8, esc: bool, d: usize) -> (r: (bool, u8, bool, usize))
    requires
        i < b@.len(),
        d < b@.len(),
    ensures
        (r.0, r.1, r.2, r.3 as int) == scan_step(b@, i as int, (ins, q, esc, d as int)),
        r.3 <= d + 1,
{
    if esc {
        (ins, q, false, d)
    } else if ins {
        if b[i] == 92 && i + 1 < b.len() {
            (true, q, true, d)
        } else if b[i] == q {
            (false, q, false, d)
        } else {
            (true, q, false, d)
        }
    } else if b[i] == 34 || b[i] == 39 {
        (true, b[i], false, d)
    } else if b[i] == 40 {
        (false, q, false, d + 1)
    } else if b[i] == 41 {
        (false, q, false, if d > 0 { d - 1 } else { 0 })
    } else {
        (false, q, false, d)
    }
}

/// The depth never exceeds the number of bytes read.
proof fn lemma_depth_bound(b: Seq<u8>, i: int)
    requires
        0 <= i <= b.len(),
    ensures
        0 <= scan_state(b, i).3 <= i,
    decreases i,
{
    if i > 0 {
        lemma_depth_bound(b, i - 1);
    }
}

/// Whether byte `i` matches `kind`, given the scan state before it.
fn match_exec(b: &[u8], i: usize, kind: u8, ins: bool, esc: bool, d: usize) -> (r: bool)
    requires
        i < b@.len(),
        (ins, esc, d as int) == (scan_state(b@, i as int).0, scan_state(b@, i as int).2, scan_state(b@, i as int).3),
    ensures
        r == match_at(b@, i as int, kind),
{
    let n = b.len();
    if esc || ins || b[i] == 34 || b[i] == 39 {
        return false;
    }
    let c = b[i];
    let next_eq = i + 1 < n && b[i + 1] == 61;
    if kind == 0 {
        d == 0 && i + 1 < n && (c == 33 || c == 61) && b[i + 1] == 61
    } else if kind == 1 {
        d == 0 && c == 61 && !next_eq && !(i > 0 && b[i - 1] == 33)
    } else if kind == 2 {
        c == 61 && !next_eq
    } else if kind == 3 {
        d == 0 && i + 1 < n && c == 38 && b[i + 1] == 38
    } else if kind == 4 {
        d == 0 && i + 1 < n && c == 124 && b[i + 1] == 124
    } else if kind == 5 {
        d == 0 && c == 58
    } else if kind == 6 {
        d == 0 && c == 44
    } else {
        c == 44
    }
}

/// The first match of `kind` at or after `from` (the length when there is none).
pub fn find_match(b: &[u8], kind: u8, from: usize) -> (r: usize)
    requires
        from <= b@.len(),
    ensures
        r == first_match(b@, kind, from as int),
{
    let n = b.len();
    let mut i: usize = 0;
    let mut ins = false;
    let mut q: u8 = 34;
    let mut esc = false;
    let mut d: usize = 0;
    proof { lemma_first_match_bounds(b@, kind, from as int); }
    while i < n
        invariant
            i <= n == b@.len(),
            from <= n,
            (ins, q, esc, d as int) == scan_state(b@, i as int),
            d <= i,
            i <= from || first_match(b@, kind, from as int) >= i,
            from <= first_match(b@, kind, from as int) <= n,
            first_match(b@, kind, from as int) < n ==> match_at(b@, first_match(b@, kind, from as int), kind),
            forall|k: int| from <= k < first_match(b@, kind, from as int) ==> !match_at(b@, k, kind),
        decreases n - i,
    {
        if i >= from && match_exec(b, i, kind, ins, esc, d) {
            return i;
        }
        proof { lemma_depth_bound(b@, i as int); }
        let (a, c, e, dd) = step(b, i, ins, q, esc, d);
        ins = a;
        q = c;
        esc = e;
        d = dd;
        i = i + 1;
    }
    n
}

/// The last match of `kind` in the whole of `b`, or `None`; with the final depth.
pub fn find_last_match(b: &[u8], kind: u8) -> (r: (Option<usize>, usize))
    ensures
        r.0 == (if last_match(b@, kind, b@.len() as int) >= 0 { Some(last_match(b@, kind, b@.len() as int) as usize) } else { None::<usize> }),
        r.1 == scan_state(b@, b@.len() as int).3,
{
    let n = b.len();
    let mut i: usize = 0;
    let mut ins = false;
    let mut q: u8 = 34;
    let mut esc = false;
    let mut d: usize = 0;
    let mut last: Option<usize> = None;
    while i < n
        invariant
            i <= n == b@.len(),
            (ins, q, esc, d as int) == scan_state(b@, i as int),
            d <= i,
            last == (if last_match(b@, kind, i as int) >= 0 { Some(last_match(b@, kind, i as int) as usize) } else { None::<usize> }),
        decreases n - i,
    {
        if match_exec(b, i, kind, ins, esc, d) {
            last = Some(i);
        }
        proof {
            lemma_depth_bound(b@, i as int);
            lemma_last_match_bounds(b@, kind, i as int);
        }
        let (a, c, e, dd) = step(b, i, ins, q, esc, d);
        ins = a;
        q = c;
        esc = e;
        d = dd;
        i = i + 1;
    }
    proof { lemma_depth_bound(b@, n as int); }
    (last, d)
}

/// Whether the scan of all of `b` ends inside a string literal.
pub fn ends_in_string(b: &[u8]) -> (r: bool)
    ensures
        r == scan_state(b@, b@.len() as int).0,
{
    let n = b.len();
    let mut i: usize = 0;
    let mut ins = false;
    let mut q: u8 = 34;
    let mut esc = false;
    let mut d: usize = 0;
    while i < n
        invariant
            i <= n == b@.len(),
            (ins, q, esc, d as int) == scan_state(b@, i as int),
            d <= i,
        decreases n - i,
    {
        proof { lemma_depth_bound(b@, i as int); }
        let (a, c, e, dd) = step(b, i, ins, q, esc, d);
        ins = a;
        q = c;
        esc = e;
        d = dd;
        i = i + 1;
    }
    ins
}

} // verus!
