//! Byte-level text utilities shared by the lexer, parser and lint rules.
//!
//! Source text is handled as its UTF-8 bytes; offsets are byte offsets. A byte
//! position is a *cut point* when it is the end of the text or holds a byte that
//! starts a character (any byte that is not a continuation byte). In valid UTF-8
//! every cut point is a character boundary, which is what lets the library slice
//! `&str` values at positions found by byte scans.
use vstd::prelude::*;
use vstd::utf8::*;
use vstd::string::StringSliceAdditionalSpecFns;

verus! {

broadcast use vstd::seq::group_seq_axioms, vstd::seq_lib::group_seq_properties;

/// A byte that continues a multi-byte character (`10xxxxxx`).
pub open spec fn is_cont(b: u8) -> bool {
    0x80 <= b <= 0xbf
}

/// Position `i` of `b` is the end of `b` or the start of a character.
pub open spec fn cut_point(b: Seq<u8>, i: int) -> bool {
    0 <= i <= b.len() && (i == b.len() || !is_cont(b[i]))
}

/// The UTF-8 bytes of a character sequence (the byte view of a `String`).
pub open spec fn utf8(s: Seq<char>) -> Seq<u8> {
    encode_utf8(s)
}

/// In valid UTF-8, every cut point is a character boundary.
pub proof fn lemma_cut_point_is_boundary(b: Seq<u8>, i: int)
    requires
        valid_utf8(b),
        cut_point(b, i),
    ensures
        is_char_boundary(b, i),
    decreases b.len(),
{
    if i == 0 {
    } else {
        let k = length_of_first_scalar(b);
        let rest = pop_first_scalar(b);
        assert(rest.len() == b.len() - k);
        if i < k {
            assert(is_continuation_byte(b[i]));
            assert(false);
        } else {
            if i < b.len() {
                assert(rest[i - k] == b[i]);
            }
            lemma_cut_point_is_boundary(rest, i - k);
        }
    }
}

/// The cut point after an ASCII byte: in valid UTF-8 a position right after a
/// one-byte character starts a character.
pub proof fn lemma_after_ascii_is_cut(b: Seq<u8>, i: int)
    requires
        valid_utf8(b),
        0 < i <= b.len(),
        b[i - 1] < 0x80,
    ensures
        cut_point(b, i),
    decreases b.len(),
{
    let k = length_of_first_scalar(b);
    let rest = pop_first_scalar(b);
    if i < b.len() {
        if i - 1 < k {
            // The first character is ASCII (it holds b[i-1] as its only byte or
            // b[i-1] would be a continuation byte), so `i` starts the next one.
            if i - 1 > 0 {
                assert(is_continuation_byte(b[i - 1]));
            }
            assert(k == 1);
            assert(valid_utf8(rest));
            assert(rest.len() == b.len() - 1);
            assert(rest.len() > 0);
            assert(valid_first_scalar(rest));
            assert(rest[0] == b[i]);
        } else {
            assert(valid_utf8(rest));
            assert(rest.len() == b.len() - k);
            assert(rest[i - 1 - k] == b[i - 1]);
            lemma_after_ascii_is_cut(rest, i - k);
            assert(rest[i - k] == b[i]);
        }
    }
}

/// The bytes of a string slice form valid UTF-8.
pub proof fn lemma_str_valid(s: &str)
    ensures
        valid_utf8(s.spec_bytes()),
{
    encode_utf8_valid_utf8(s@);
}

/// The bytes of `s` from `start` to `end` as a new `String`.
pub fn substring(s: &str, start: usize, end: usize) -> (r: String)
    requires
        start <= end <= s.spec_bytes().len(),
        cut_point(s.spec_bytes(), start as int),
        cut_point(s.spec_bytes(), end as int),
    ensures
        utf8(r@) == s.spec_bytes().subrange(start as int, end as int),
{
    let ghost b = s.spec_bytes();
    proof {
        lemma_str_valid(s);
        lemma_cut_point_is_boundary(b, start as int);
    }
    let (_head, tail) = s.split_at(start);
    proof {
        assert(tail.spec_bytes() =~= b.subrange(start as int, b.len() as int));
        lemma_str_valid(tail);
        let tb = tail.spec_bytes();
        assert(cut_point(tb, (end - start) as int)) by {
            if end < b.len() {
                assert(tb[end - start] == b[end as int]);
            }
        }
        lemma_cut_point_is_boundary(tb, (end - start) as int);
    }
    let (mid, _rest) = tail.split_at(end - start);
    proof {
        assert(mid.spec_bytes() =~= b.subrange(start as int, end as int));
    }
    mid.to_owned()
}

} // verus!

verus! {

/// The characters of `s`, in order.
pub fn chars_of(s: &str) -> (v: Vec<char>)
    ensures
        v@ == s@,
{
    broadcast use vstd::string::group_string_axioms;
    let mut v: Vec<char> = Vec::new();
    for c in it: s.chars()
        invariant
            v@ == it.seq().take(it.index() as int),
            it.seq() == s@,
    {
        v.push(c);
    }
    v
}

} // verus!

verus! {

/// Strict lexicographic order on byte strings (the order of `str` comparison).
pub open spec fn bytes_lt(a: Seq<u8>, b: Seq<u8>) -> bool
    decreases a.len(),
{
    if a.len() == 0 {
        b.len() > 0
    } else if b.len() == 0 {
        false
    } else if a[0] < b[0] {
        true
    } else if a[0] > b[0] {
        false
    } else {
        bytes_lt(a.drop_first(), b.drop_first())
    }
}

/// `bytes_lt` is irreflexive.
pub proof fn lemma_bytes_lt_irreflexive(a: Seq<u8>)
    ensures
        !bytes_lt(a, a),
    decreases a.len(),
{
    if a.len() > 0 {
        lemma_bytes_lt_irreflexive(a.drop_first());
    }
}

/// `bytes_lt` is transitive.
pub proof fn lemma_bytes_lt_transitive(a: Seq<u8>, b: Seq<u8>, c: Seq<u8>)
    requires
        bytes_lt(a, b),
        bytes_lt(b, c),
    ensures
        bytes_lt(a, c),
    decreases a.len(),
{
    if a.len() > 0 && b.len() > 0 && c.len() > 0 && a[0] == b[0] && b[0] == c[0] {
        lemma_bytes_lt_transitive(a.drop_first(), b.drop_first(), c.drop_first());
    }
}

/// `bytes_lt` is total on distinct byte strings.
pub proof fn lemma_bytes_lt_total(a: Seq<u8>, b: Seq<u8>)
    ensures
        a =~= b || bytes_lt(a, b) || bytes_lt(b, a),
    decreases a.len(),
{
    if a.len() > 0 && b.len() > 0 && a[0] == b[0] {
        lemma_bytes_lt_total(a.drop_first(), b.drop_first());
        if a.drop_first() =~= b.drop_first() {
            assert(a =~= seq![a[0]] + a.drop_first());
            assert(b =~= seq![b[0]] + b.drop_first());
        }
    }
}

/// The result of a three-way comparison.
#[derive(Clone, Copy, PartialEq, Eq, Debug, Structural)]
pub enum Order3 {
    Less,
    Equal,
    Greater,
}

/// Three-way lexicographic comparison of byte strings.
pub fn compare_bytes(a: &[u8], b: &[u8]) -> (r: Order3)
    ensures
        (r == Order3::Less) == bytes_lt(a@, b@),
        (r == Order3::Equal) == (a@ == b@),
        (r == Order3::Greater) == bytes_lt(b@, a@),
{
    let mut i: usize = 0;
    while i < a.len() && i < b.len() && a[i] == b[i]
        invariant
            0 <= i <= a.len(),
            i <= b.len(),
            a@.subrange(0, i as int) == b@.subrange(0, i as int),
            bytes_lt(a@, b@) == bytes_lt(a@.skip(i as int), b@.skip(i as int)),
            bytes_lt(b@, a@) == bytes_lt(b@.skip(i as int), a@.skip(i as int)),
        decreases a.len() - i,
    {
        assert(a@.skip(i as int).drop_first() =~= a@.skip(i + 1));
        assert(b@.skip(i as int).drop_first() =~= b@.skip(i + 1));
        assert(a@.subrange(0, i + 1) =~= a@.subrange(0, i as int).push(a[i as int]));
        assert(b@.subrange(0, i + 1) =~= b@.subrange(0, i as int).push(b[i as int]));
        i = i + 1;
    }
    proof {
        lemma_bytes_lt_irreflexive(a@);
        if i == a.len() && i == b.len() {
            assert(a@ =~= a@.subrange(0, i as int));
            assert(b@ =~= b@.subrange(0, i as int));
        }
        if i < a.len() && i < b.len() {
            assert(a@[i as int] != b@[i as int]);
            assert(a@ != b@);
        }
        if i == a.len() && i < b.len() {
            assert(a@.len() != b@.len());
        }
        if i < a.len() && i == b.len() {
            assert(a@.len() != b@.len());
        }
    }
    if i < a.len() && i < b.len() {
        if a[i] < b[i] {
            Order3::Less
        } else {
            Order3::Greater
        }
    } else if i < b.len() {
        Order3::Less
    } else if i < a.len() {
        Order3::Greater
    } else {
        Order3::Equal
    }
}

} // verus!

verus! {

/// `utf8` is injective: equal bytes mean equal characters.
pub proof fn lemma_utf8_injective(a: Seq<char>, b: Seq<char>)
    requires
        utf8(a) == utf8(b),
    ensures
        a == b,
{
    encode_utf8_decode_utf8(a);
    encode_utf8_decode_utf8(b);
}

/// String equality by content.
pub fn str_eq(a: &str, b: &str) -> (r: bool)
    ensures
        r == (a@ == b@),
{
    let r = compare_bytes(a.as_bytes(), b.as_bytes());
    proof {
        if a.spec_bytes() == b.spec_bytes() {
            lemma_utf8_injective(a@, b@);
        }
    }
    match r {
        Order3::Equal => true,
        _ => false,
    }
}

} // verus!

verus! {

/// An ASCII whitespace byte (space, tab, line feed, vertical tab, form feed, carriage return).
pub open spec fn ascii_ws(c: u8) -> bool {
    c == 32u8 || (9u8 <= c && c <= 13u8)
}

/// The three bytes encode one of the three-byte Unicode white space characters
/// (U+1680, U+2000 to U+200A, U+2028, U+2029, U+202F, U+205F, U+3000).
pub open spec fn ws3(c0: u8, c1: u8, c2: u8) -> bool {
    ||| c0 == 0xe1u8 && c1 == 0x9au8 && c2 == 0x80u8
    ||| c0 == 0xe2u8 && c1 == 0x80u8 && ((0x80u8 <= c2 && c2 <= 0x8au8) || c2 == 0xa8u8 || c2 == 0xa9u8 || c2 == 0xafu8)
    ||| c0 == 0xe2u8 && c1 == 0x81u8 && c2 == 0x9fu8
    ||| c0 == 0xe3u8 && c1 == 0x80u8 && c2 == 0x80u8
}

/// The byte length of the UTF-8 encoding of a white space character that starts
/// at `i` of `b`, or 0 when none does (ASCII white space, U+0085, U+00A0, and the
/// three-byte ones of [`ws3`]).
pub open spec fn ws_at(b: Seq<u8>, i: int) -> int {
    if !(0 <= i < b.len()) {
        0
    } else if ascii_ws(b[i]) {
        1
    } else if b[i] == 0xc2u8 && i + 1 < b.len() && (b[i + 1] == 0x85u8 || b[i + 1] == 0xa0u8) {
        2
    } else if i + 2 < b.len() && ws3(b[i], b[i + 1], b[i + 2]) {
        3
    } else {
        0
    }
}

/// The byte length of the encoding of a white space character that ends just
/// before `z`, or 0 when none does.
pub open spec fn ws_before(b: Seq<u8>, z: int) -> int {
    if !(0 < z <= b.len()) {
        0
    } else if ascii_ws(b[z - 1]) {
        1
    } else if z >= 2 && b[z - 2] == 0xc2u8 && (b[z - 1] == 0x85u8 || b[z - 1] == 0xa0u8) {
        2
    } else if z >= 3 && ws3(b[z - 3], b[z - 2], b[z - 1]) {
        3
    } else {
        0
    }
}

/// Where the text `b` starts once the white space from `a` on is skipped.
pub open spec fn trim_start_at(b: Seq<u8>, a: int) -> int
    decreases b.len() - a,
{
    let w = ws_at(b, a);
    if a < 0 || a >= b.len() || w == 0 || (w > 1 && a + w < b.len() && is_cont(b[a + w])) {
        a
    } else {
        trim_start_at(b, a + w)
    }
}

/// Where the text `b[a..z]` ends once the white space before `z` is dropped.
pub open spec fn trim_end_at(b: Seq<u8>, a: int, z: int) -> int
    decreases z,
{
    if z <= a || z <= 0 {
        z
    } else {
        let w = ws_before(b, z);
        if w == 0 || z - w < a {
            z
        } else {
            trim_end_at(b, a, z - w)
        }
    }
}

/// The start of `b` without its leading white space.
pub open spec fn trim_lo(b: Seq<u8>) -> int {
    trim_start_at(b, 0)
}

/// The end of `b` without its trailing white space.
pub open spec fn trim_hi(b: Seq<u8>) -> int {
    trim_end_at(b, trim_lo(b), b.len() as int)
}

/// The bytes of `b` without leading and trailing white space.
pub open spec fn trimmed(b: Seq<u8>) -> Seq<u8> {
    b.subrange(trim_lo(b), trim_hi(b))
}

/// Skipping white space from `a` stays between `a` and the end.
pub proof fn lemma_trim_start_bounds(b: Seq<u8>, a: int)
    requires
        0 <= a <= b.len(),
    ensures
        a <= trim_start_at(b, a) <= b.len(),
    decreases b.len() - a,
{
    let w = ws_at(b, a);
    if !(a >= b.len() || w == 0 || (w > 1 && a + w < b.len() && is_cont(b[a + w]))) {
        lemma_trim_start_bounds(b, a + w);
    }
}

/// Dropping white space before `z` stays between `a` and `z`.
pub proof fn lemma_trim_end_bounds(b: Seq<u8>, a: int, z: int)
    requires
        0 <= a <= z <= b.len(),
    ensures
        a <= trim_end_at(b, a, z) <= z,
    decreases z,
{
    if z > a && z > 0 {
        let w = ws_before(b, z);
        if !(w == 0 || z - w < a) {
            lemma_trim_end_bounds(b, a, z - w);
        }
    }
}

/// The trimmed bytes lie inside `b`, so they are no longer than it.
pub proof fn lemma_trim_bounds(b: Seq<u8>)
    ensures
        0 <= trim_lo(b) <= trim_hi(b) <= b.len(),
        trimmed(b).len() <= b.len(),
{
    lemma_trim_start_bounds(b, 0);
    lemma_trim_end_bounds(b, trim_lo(b), b.len() as int);
}

/// The byte length of a whitespace character starting at `i` (0 when there is none).
///
/// Besides ASCII whitespace this recognises the multi-byte Unicode white space
/// characters (U+0085, U+00A0, U+1680, U+2000 to U+200A, U+2028, U+2029,
/// U+202F, U+205F, U+3000).
fn ws_len_at(b: &[u8], i: usize) -> (r: usize)
    requires
        i < b@.len(),
    ensures
        r <= 3,
        r > 0 ==> i + r <= b@.len(),
        r == 1 <==> ascii_ws(b@[i as int]),
        r > 1 ==> forall|k: int| i <= k < i + r ==> b@[k] >= 0x80,
        r == ws_at(b@, i as int),
{
    let n = b.len();
    let c = b[i];
    if c == 32 || (9 <= c && c <= 13) {
        return 1;
    }
    if c == 0xc2 && i + 1 < n && (b[i + 1] == 0x85 || b[i + 1] == 0xa0) {
        return 2;
    }
    if n - i > 2 {
        let c1 = b[i + 1];
        let c2 = b[i + 2];
        if c == 0xe1 && c1 == 0x9a && c2 == 0x80 {
            return 3;
        }
        if c == 0xe2 && c1 == 0x80 && (c2 <= 0x8a || c2 == 0xa8 || c2 == 0xa9 || c2 == 0xaf) && c2 >= 0x80 {
            return 3;
        }
        if c == 0xe2 && c1 == 0x81 && c2 == 0x9f {
            return 3;
        }
        if c == 0xe3 && c1 == 0x80 && c2 == 0x80 {
            return 3;
        }
    }
    0
}

/// The byte length of a whitespace character ending just before `z` (0 when there is none).
fn ws_len_before(b: &[u8], z: usize) -> (r: usize)
    requires
        0 < z <= b@.len(),
    ensures
        r <= 3,
        r <= z,
        r == 1 <==> ascii_ws(b@[z - 1]),
        r > 1 ==> !is_cont(b@[z - r]) && forall|k: int| z - r <= k < z ==> b@[k] >= 0x80,
        r == ws_before(b@, z as int),
{
    let c = b[z - 1];
    if c == 32 || (9 <= c && c <= 13) {
        return 1;
    }
    if z >= 2 && b[z - 2] == 0xc2 && (c == 0x85 || c == 0xa0) {
        return 2;
    }
    if z >= 3 {
        let c0 = b[z - 3];
        let c1 = b[z - 2];
        if c0 == 0xe1 && c1 == 0x9a && c == 0x80 {
            return 3;
        }
        if c0 == 0xe2 && c1 == 0x80 && (c <= 0x8a || c == 0xa8 || c == 0xa9 || c == 0xaf) && c >= 0x80 {
            return 3;
        }
        if c0 == 0xe2 && c1 == 0x81 && c == 0x9f {
            return 3;
        }
        if c0 == 0xe3 && c1 == 0x80 && c == 0x80 {
            return 3;
        }
    }
    0
}

/// The bounds of `b` without leading and trailing white space.
pub fn trim_range(b: &[u8]) -> (r: (usize, usize))
    requires
        valid_utf8(b@),
    ensures
        r.0 <= r.1 <= b@.len(),
        cut_point(b@, r.0 as int),
        cut_point(b@, r.1 as int),
        r.0 < r.1 ==> !ascii_ws(b@[r.0 as int]) && !ascii_ws(b@[r.1 - 1]),
        forall|k: int| 0 <= k < r.0 ==> ascii_ws(b@[k]) || b@[k] >= 0x80,
        forall|k: int| r.1 <= k < b@.len() ==> ascii_ws(b@[k]) || b@[k] >= 0x80,
        r.0 == trim_lo(b@),
        r.1 == trim_hi(b@),
{
    let n = b.len();
    let mut a: usize = 0;
    while a < n
        invariant
            a <= n == b@.len(),
            valid_utf8(b@),
            cut_point(b@, a as int),
            forall|k: int| 0 <= k < a ==> ascii_ws(b@[k]) || b@[k] >= 0x80,
            trim_start_at(b@, a as int) == trim_lo(b@),
        ensures
            a <= n,
            cut_point(b@, a as int),
            forall|k: int| 0 <= k < a ==> ascii_ws(b@[k]) || b@[k] >= 0x80,
            a < n ==> !ascii_ws(b@[a as int]),
            a == trim_lo(b@),
        decreases n - a,
    {
        let w = ws_len_at(b, a);
        if w == 0 {
            break;
        }
        if w > 1 && a + w < n && 0x80 <= b[a + w] && b[a + w] <= 0xbf {
            break;
        }
        if w == 1 {
            proof { lemma_after_ascii_is_cut(b@, a + 1); }
        }
        a = a + w;
    }
    let mut z: usize = n;
    while z > a
        invariant
            a <= z <= n == b@.len(),
            valid_utf8(b@),
            cut_point(b@, a as int),
            cut_point(b@, z as int),
            forall|k: int| z <= k < n ==> ascii_ws(b@[k]) || b@[k] >= 0x80,
            a == trim_lo(b@),
            trim_end_at(b@, a as int, z as int) == trim_hi(b@),
        ensures
            a <= z <= n,
            cut_point(b@, z as int),
            forall|k: int| z <= k < n ==> ascii_ws(b@[k]) || b@[k] >= 0x80,
            a < z ==> !ascii_ws(b@[z - 1]),
            z == trim_hi(b@),
        decreases z,
    {
        let w = ws_len_before(b, z);
        if w == 0 || z - w < a {
            break;
        }
        assert(cut_point(b@, z - w));
        z = z - w;
    }
    (a, z)
}

/// `s` without leading and trailing white space.
pub fn trim_str(s: &str) -> (r: String)
    ensures
        exists|a: int, z: int| 0 <= a <= z <= s.spec_bytes().len() && utf8(r@) == s.spec_bytes().subrange(a, z),
        utf8(r@) == trimmed(s.spec_bytes()),
{
    proof { lemma_str_valid(s); }
    let (a, z) = trim_range(s.as_bytes());
    let r = substring(s, a, z);
    assert(utf8(r@) == s.spec_bytes().subrange(a as int, z as int));
    r
}

/// `b` begins with the bytes `p`.
pub fn bytes_start_with(b: &[u8], p: &[u8]) -> (r: bool)
    ensures
        r == (p@.len() <= b@.len() && b@.subrange(0, p@.len() as int) == p@),
{
    if p.len() > b.len() {
        return false;
    }
    let mut i: usize = 0;
    while i < p.len()
        invariant
            i <= p@.len() <= b@.len(),
            b@.subrange(0, i as int) == p@.subrange(0, i as int),
        decreases p@.len() - i,
    {
        if b[i] != p[i] {
            assert(b@.subrange(0, p@.len() as int)[i as int] != p@[i as int]);
            return false;
        }
        assert(b@.subrange(0, i + 1) =~= b@.subrange(0, i as int).push(b@[i as int]));
        assert(p@.subrange(0, i + 1) =~= p@.subrange(0, i as int).push(p@[i as int]));
        i = i + 1;
    }
    assert(p@.subrange(0, p@.len() as int) =~= p@);
    true
}

/// `s` begins with `p`.
pub fn starts_with(s: &str, p: &str) -> (r: bool)
    ensures
        r == (p.spec_bytes().len() <= s.spec_bytes().len() && s.spec_bytes().subrange(0, p.spec_bytes().len() as int) == p.spec_bytes()),
{
    bytes_start_with(s.as_bytes(), p.as_bytes())
}

/// The first index at or after `from` where `b` holds the byte `c`, or the length.
pub open spec fn index_of(b: Seq<u8>, c: u8, from: int) -> int
    decreases b.len() - from,
{
    if from >= b.len() {
        b.len() as int
    } else if b[from] == c {
        from
    } else {
        index_of(b, c, from + 1)
    }
}

/// The first index holding `c` lies between `from` and the length.
pub proof fn lemma_index_of_bounds(b: Seq<u8>, c: u8, from: int)
    requires
        0 <= from <= b.len(),
    ensures
        from <= index_of(b, c, from) <= b.len(),
        index_of(b, c, from) < b.len() ==> b[index_of(b, c, from)] == c,
        forall|k: int| from <= k < index_of(b, c, from) ==> b[k] != c,
    decreases b.len() - from,
{
    if from < b.len() && b[from] != c {
        lemma_index_of_bounds(b, c, from + 1);
    }
}

/// The first index at or after `from` holding byte `c`, or the length.
pub fn find_byte(b: &[u8], c: u8, from: usize) -> (r: usize)
    requires
        from <= b@.len(),
    ensures
        from <= r <= b@.len(),
        r < b@.len() ==> b@[r as int] == c,
        forall|k: int| from <= k < r ==> b@[k] != c,
        r == index_of(b@, c, from as int),
{
    let mut i = from;
    while i < b.len() && b[i] != c
        invariant
            from <= i <= b@.len(),
            forall|k: int| from <= k < i ==> b@[k] != c,
            index_of(b@, c, i as int) == index_of(b@, c, from as int),
        decreases b@.len() - i,
    {
        i = i + 1;
    }
    i
}

/// The bytes from `start` to the end, as a new string (`start` must be a character start).
pub fn tail_from(s: &str, start: usize) -> (r: String)
    requires
        start <= s.spec_bytes().len(),
        cut_point(s.spec_bytes(), start as int),
    ensures
        utf8(r@) == s.spec_bytes().subrange(start as int, s.spec_bytes().len() as int),
{
    substring(s, start, s.as_bytes().len())
}

/// A position holding an ASCII byte starts a character.
pub proof fn lemma_ascii_is_cut(b: Seq<u8>, i: int)
    requires
        0 <= i < b.len(),
        b[i] < 0x80,
    ensures
        cut_point(b, i),
{
}

/// The decimal digit of `d < 10`.
pub open spec fn digit_char(d: int) -> char {
    if d == 0 { '0' } else if d == 1 { '1' } else if d == 2 { '2' } else if d == 3 { '3' } else if d == 4 { '4' }
    else if d == 5 { '5' } else if d == 6 { '6' } else if d == 7 { '7' } else if d == 8 { '8' } else { '9' }
}

/// The decimal notation of `n`, without leading zeros.
pub open spec fn decimal_spec(n: nat) -> Seq<char>
    decreases n,
{
    if n < 10 {
        seq![digit_char(n as int)]
    } else {
        decimal_spec(n / 10).push(digit_char((n % 10) as int))
    }
}

/// The decimal notation of `n`.
pub fn decimal(n: usize) -> (r: String)
    ensures
        r@ == decimal_spec(n as nat),
    decreases n,
{
    let d = n % 10;
    let c: char = if d == 0 { '0' } else if d == 1 { '1' } else if d == 2 { '2' } else if d == 3 { '3' } else if d == 4 { '4' }
        else if d == 5 { '5' } else if d == 6 { '6' } else if d == 7 { '7' } else if d == 8 { '8' } else { '9' };
    if n < 10 {
        let mut s = String::new();
        crate::diagnostic::push_char(&mut s, c);
        assert(s@ =~= seq![c]);
        s
    } else {
        let mut s = decimal(n / 10);
        crate::diagnostic::push_char(&mut s, c);
        s
    }
}

} // verus!
