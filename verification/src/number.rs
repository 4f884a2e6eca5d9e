//! Number literals of the template language.
//!
//! A literal is read with the grammar of Rust's `f64` parser: an optional sign,
//! then `inf`, `infinity` or `nan` (any case), or decimal digits with an optional
//! fraction and an optional exponent (`e` or `E`, optional sign, digits). The
//! words and the literals too large for a double are *non-finite*, which the
//! template language rejects. A finite literal is kept as an exact decimal:
//! its sign and its significant digits `d1 d2 ...` with a decimal exponent `e`,
//! meaning `0.d1d2... × 10^e`, without leading or trailing zero digits. Zero
//! has no digits; literals below the smallest double are zero. Two literals are
//! the same number when their signs, digits and exponents agree.
use vstd::prelude::*;
use vstd::string::*;

verus! {

/// An exact decimal number.
#[derive(Debug)]
pub struct NumberValue {
    pub negative: bool,
    /// The significant digits (each 0..=9), with no leading or trailing zero.
    pub digits: Vec<u8>,
    /// The decimal exponent: the value is `0.d1d2... × 10^exponent`.
    pub exponent: i64,
}

/// The outcome of reading a number literal.
#[derive(Debug)]
pub enum ParsedNumber {
    /// A finite number.
    Finite(NumberValue),
    /// `inf`, `infinity`, `nan`, or a literal too large for a double.
    NonFinite,
    /// Not a number literal.
    Invalid,
}

pub open spec fn is_digit(c: u8) -> bool {
    48u8 <= c && c <= 57u8
}

/// The length of the run of digits of `b` starting at `i`.
pub open spec fn digit_run(b: Seq<u8>, i: int) -> int
    decreases b.len() - i,
{
    if i < 0 || i >= b.len() || !is_digit(b[i]) {
        0
    } else {
        1 + digit_run(b, i + 1)
    }
}

/// The lower-case form of an ASCII letter.
pub open spec fn lower(c: u8) -> u8 {
    if 65u8 <= c && c <= 90u8 { (c + 32) as u8 } else { c }
}

/// `b` from `i` is, ignoring ASCII case, the word `w`.
pub open spec fn word_at(b: Seq<u8>, i: int, w: Seq<u8>) -> bool {
    b.len() - i == w.len() && forall|k: int| 0 <= k < w.len() ==> lower(#[trigger] b[i + k]) == w[k]
}

/// The length of an optional sign at `i`.
pub open spec fn sign_len(b: Seq<u8>, i: int) -> int {
    if 0 <= i < b.len() && (b[i] == 43u8 || b[i] == 45u8) { 1 } else { 0 }
}

/// `b` is a number literal under the grammar of Rust's `f64` parser.
pub open spec fn float_syntax(b: Seq<u8>) -> bool {
    let s = sign_len(b, 0);
    let ip = digit_run(b, s);
    let dot = s + ip < b.len() && b[s + ip] == 46u8;
    let fstart = if dot { s + ip + 1 } else { s + ip };
    let fp = if dot { digit_run(b, fstart) } else { 0 };
    let m_end = fstart + fp;
    let has_exp = m_end < b.len() && (b[m_end] == 101u8 || b[m_end] == 69u8);
    let es = if has_exp { m_end + 1 + sign_len(b, m_end + 1) } else { m_end };
    let ep = if has_exp { digit_run(b, es) } else { 0 };
    ||| word_at(b, s, seq![105u8, 110u8, 102u8])
    ||| word_at(b, s, seq![105u8, 110u8, 102u8, 105u8, 110u8, 105u8, 116u8, 121u8])
    ||| word_at(b, s, seq![110u8, 97u8, 110u8])
    ||| (ip + fp > 0 && (!has_exp || ep > 0) && es + ep == b.len())
}

/// The smallest integer that rounds to infinity as a double: `(2^54 - 1) * 2^970`.
pub const OVERFLOW_THRESHOLD: &'static str = "179769313486231580793728971405303415079934132710037826936173778980444968292764750946649017977587207096330286416692887910946555547851940402630657488671505820681908902000708383676273854845817711531764475730270069855571366959622842914819860834936475292719074168444365510704342711559699508093042880177904174497792";

/// The digit values of `len` bytes of `b` from `start`.
pub open spec fn digit_values(b: Seq<u8>, start: int, len: int) -> Seq<u8> {
    Seq::new(len as nat, |k: int| (b[start + k] - 48) as u8)
}

/// The exponent after reading `k` of the digits at `es`, saturated at 100000.
pub open spec fn exp_acc(b: Seq<u8>, es: int, k: int) -> int
    decreases k,
{
    if k <= 0 {
        0
    } else {
        let e = exp_acc(b, es, k - 1);
        let d = b[es + k - 1] - 48;
        if e > 10000 || e * 10 + d > 100000 { 100000 } else { e * 10 + d }
    }
}

/// The first index at or after `i` whose digit is not zero, or the length.
pub open spec fn first_nonzero(a: Seq<u8>, i: int) -> int
    decreases a.len() - i,
{
    if i >= a.len() || a[i] != 0 { i } else { first_nonzero(a, i + 1) }
}

/// The end of `a[lead..t]` without its trailing zero digits.
pub open spec fn nonzero_end(a: Seq<u8>, lead: int, t: int) -> int
    decreases t,
{
    if t <= lead || t <= 0 || a[t - 1] != 0 { t } else { nonzero_end(a, lead, t - 1) }
}

/// Whether the digits `d` (as `0.d1d2...`) are at least those of
/// [`OVERFLOW_THRESHOLD`] (as `0.t1t2...`), compared from position `i`; missing
/// digits count as zero.
pub open spec fn at_least_threshold(d: Seq<u8>, th: Seq<u8>, i: int) -> bool
    decreases th.len() - i,
{
    if i >= th.len() {
        true
    } else {
        let x: u8 = if 0 <= i < d.len() { d[i] } else { 0 };
        let t: u8 = if 48u8 <= th[i] { (th[i] - 48) as u8 } else { 0 };
        if x != t { x > t } else { at_least_threshold(d, th, i + 1) }
    }
}

/// The outcome of reading a literal, with the digits and exponent of a finite one.
pub enum NumberOutcome {
    Finite { negative: bool, digits: Seq<u8>, exponent: int },
    NonFinite,
    Invalid,
}

/// The number with mantissa digits `all` (the first `ip` before the point), times
/// `10^e`: without leading and trailing zero digits, zero below the smallest
/// double, non-finite from the threshold up.
pub open spec fn canonical_spec(all: Seq<u8>, ip: int, e: int, negative: bool) -> NumberOutcome {
    let lead = first_nonzero(all, 0);
    let trail = nonzero_end(all, lead, all.len() as int);
    let digits = all.subrange(lead, trail);
    let x = ip - lead + e;
    if digits.len() == 0 {
        NumberOutcome::Finite { negative, digits: Seq::empty(), exponent: 0 }
    } else if x <= -324 {
        NumberOutcome::Finite { negative, digits: Seq::empty(), exponent: 0 }
    } else if x > 309 {
        NumberOutcome::NonFinite
    } else if x == 309 && at_least_threshold(digits, OVERFLOW_THRESHOLD.spec_bytes(), 0) {
        NumberOutcome::NonFinite
    } else {
        NumberOutcome::Finite { negative, digits, exponent: x }
    }
}

/// The outcome of reading the literal `b`.
pub open spec fn number_spec(b: Seq<u8>) -> NumberOutcome {
    let s = sign_len(b, 0);
    let ip = digit_run(b, s);
    let dot = s + ip < b.len() && b[s + ip] == 46u8;
    let fstart = if dot { s + ip + 1 } else { s + ip };
    let fp = if dot { digit_run(b, fstart) } else { 0 };
    let m_end = fstart + fp;
    let has_exp = m_end < b.len() && (b[m_end] == 101u8 || b[m_end] == 69u8);
    let es = if has_exp { m_end + 1 + sign_len(b, m_end + 1) } else { m_end };
    let ep = if has_exp { digit_run(b, es) } else { 0 };
    let e0 = exp_acc(b, es, ep);
    let e = if has_exp && m_end + 1 < b.len() && b[m_end + 1] == 45u8 { -e0 } else { e0 };
    if word_at(b, s, seq![105u8, 110u8, 102u8])
        || word_at(b, s, seq![105u8, 110u8, 102u8, 105u8, 110u8, 105u8, 116u8, 121u8])
        || word_at(b, s, seq![110u8, 97u8, 110u8])
    {
        NumberOutcome::NonFinite
    } else if !(ip + fp > 0 && (!has_exp || ep > 0) && es + ep == b.len()) {
        NumberOutcome::Invalid
    } else {
        canonical_spec(digit_values(b, s, ip) + digit_values(b, fstart, fp), ip, e, s == 1 && b[0] == 45u8)
    }
}

/// What a parse outcome says.
pub open spec fn outcome_of(r: ParsedNumber) -> NumberOutcome {
    match r {
        ParsedNumber::Finite(v) => NumberOutcome::Finite { negative: v.negative, digits: v.digits@, exponent: v.exponent as int },
        ParsedNumber::NonFinite => NumberOutcome::NonFinite,
        ParsedNumber::Invalid => NumberOutcome::Invalid,
    }
}

/// The length of the digit run at `i`.
fn run_digits(b: &[u8], i: usize) -> (r: usize)
    requires
        i <= b@.len(),
    ensures
        r == digit_run(b@, i as int),
        i + r <= b@.len(),
{
    let mut j = i;
    while j < b.len() && 48 <= b[j] && b[j] <= 57
        invariant
            i <= j <= b@.len(),
            digit_run(b@, i as int) == (j - i) + digit_run(b@, j as int),
        decreases b@.len() - j,
    {
        j = j + 1;
    }
    j - i
}

/// `b` from `i` is, ignoring case, the word `w`.
fn word_is(b: &[u8], i: usize, w: &[u8]) -> (r: bool)
    requires
        i <= b@.len(),
    ensures
        r == word_at(b@, i as int, w@),
{
    let n = b.len();
    if n - i != w.len() {
        return false;
    }
    let mut k: usize = 0;
    while k < w.len()
        invariant
            k <= w@.len(),
            i <= b@.len(),
            n == b@.len(),
            b@.len() - i == w@.len(),
            forall|t: int| 0 <= t < k ==> lower(#[trigger] b@[i + t]) == w@[t],
        decreases w@.len() - k,
    {
        let c = b[i + k];
        let l = if 65 <= c && c <= 90 { c + 32 } else { c };
        if l != w[k] {
            return false;
        }
        k = k + 1;
    }
    true
}

/// Read a number literal.
#[verifier::rlimit(40)]
pub fn parse_number(s: &str) -> (r: ParsedNumber)
    ensures
        (r is Invalid) == !float_syntax(s.spec_bytes()),
        outcome_of(r) == number_spec(s.spec_bytes()),
        r matches ParsedNumber::Finite(v) ==> (v.digits@.len() > 0 ==> v.digits@[0] != 0u8 && v.digits@.last() != 0u8)
            && forall|k: int| 0 <= k < v.digits@.len() ==> #[trigger] v.digits@[k] <= 9,
{
    let b = s.as_bytes();
    let n = b.len();
    let sg: usize = if n > 0 && (b[0] == 43 || b[0] == 45) { 1 } else { 0 };
    let negative = sg == 1 && b[0] == 45;
    let inf: [u8; 3] = [105, 110, 102];
    let infinity: [u8; 8] = [105, 110, 102, 105, 110, 105, 116, 121];
    let nan: [u8; 3] = [110, 97, 110];
    let w1 = word_is(b, sg, &inf);
    let w2 = word_is(b, sg, &infinity);
    let w3 = word_is(b, sg, &nan);
    proof {
        assert(inf@ == seq![105u8, 110u8, 102u8]);
        assert(infinity@ == seq![105u8, 110u8, 102u8, 105u8, 110u8, 105u8, 116u8, 121u8]);
        assert(nan@ == seq![110u8, 97u8, 110u8]);
    }
    let ip = run_digits(b, sg);
    let dot = sg + ip < n && b[sg + ip] == 46;
    let fstart = if dot { sg + ip + 1 } else { sg + ip };
    let fp = if dot { run_digits(b, fstart) } else { 0 };
    let m_end = fstart + fp;
    let has_exp = m_end < n && (b[m_end] == 101 || b[m_end] == 69);
    let es = if has_exp {
        if m_end + 1 < n && (b[m_end + 1] == 43 || b[m_end + 1] == 45) { m_end + 2 } else { m_end + 1 }
    } else {
        m_end
    };
    let ep = if has_exp { run_digits(b, es) } else { 0 };
    let numeric = ip + fp > 0 && (!has_exp || ep > 0) && es + ep == n;
    if w1 || w2 || w3 {
        return ParsedNumber::NonFinite;
    }
    if !numeric {
        return ParsedNumber::Invalid;
    }
    assert(b@.len() <= usize::MAX);
    let all = mantissa_digits(b, sg, ip, fstart, fp);
    let e = exponent_value(b, es, ep);
    let e = if has_exp && m_end + 1 < n && b[m_end + 1] == 45 { -e } else { e };
    canonical(all, ip, e, negative)
}

/// The digits of the integer part `[sg, sg + ip)` and of the fraction `[fstart, fstart + fp)`.
fn mantissa_digits(b: &[u8], sg: usize, ip: usize, fstart: usize, fp: usize) -> (all: Vec<u8>)
    requires
        sg + ip <= fstart,
        fstart + fp <= b@.len(),
        ip == digit_run(b@, sg as int),
        fp == 0 || fp == digit_run(b@, fstart as int),
        b@.len() <= usize::MAX,
    ensures
        all@.len() == ip + fp,
        forall|t: int| 0 <= t < all@.len() ==> #[trigger] all@[t] <= 9,
        all@ == digit_values(b@, sg as int, ip as int) + digit_values(b@, fstart as int, fp as int),
{
    let mut all: Vec<u8> = Vec::new();
    let mut k = sg;
    let end1 = sg + ip;
    while k < end1
        invariant
            end1 == sg + ip,
            sg <= k <= sg + ip <= b@.len(),
            ip == digit_run(b@, sg as int),
            forall|t: int| 0 <= t < all@.len() ==> #[trigger] all@[t] <= 9,
            all@.len() == k - sg,
            all@ == digit_values(b@, sg as int, (k - sg) as int),
        decreases sg + ip - k,
    {
        proof { lemma_run_is_digits(b@, sg as int, (k - sg) as int); }
        all.push(b[k] - 48);
        assert(all@ =~= digit_values(b@, sg as int, (k + 1 - sg) as int));
        k = k + 1;
    }
    let ghost head = all@;
    let mut k2 = fstart;
    let end2 = fstart + fp;
    while k2 < end2
        invariant
            end2 == fstart + fp,
            fstart <= k2 <= fstart + fp <= b@.len(),
            forall|t: int| 0 <= t < all@.len() ==> #[trigger] all@[t] <= 9,
            all@.len() == ip + (k2 - fstart),
            fp == 0 || fp == digit_run(b@, fstart as int),
            head == digit_values(b@, sg as int, ip as int),
            all@ == head + digit_values(b@, fstart as int, (k2 - fstart) as int),
        decreases fstart + fp - k2,
    {
        proof { lemma_run_is_digits(b@, fstart as int, (k2 - fstart) as int); }
        all.push(b[k2] - 48);
        assert(digit_values(b@, fstart as int, (k2 + 1 - fstart) as int)
            =~= digit_values(b@, fstart as int, (k2 - fstart) as int).push((b@[k2 as int] - 48) as u8));
        k2 = k2 + 1;
    }
    all
}

/// The value of the exponent digits `[es, es + ep)`, saturated at 100000.
fn exponent_value(b: &[u8], es: usize, ep: usize) -> (e: i64)
    requires
        es + ep <= b@.len(),
        ep == 0 || ep == digit_run(b@, es as int),
        b@.len() <= usize::MAX,
    ensures
        0 <= e <= 100000,
        e == exp_acc(b@, es as int, ep as int),
{
    let mut e: i64 = 0;
    let mut k3 = es;
    let end3 = es + ep;
    while k3 < end3
        invariant
            end3 == es + ep,
            es <= k3 <= es + ep <= b@.len(),
            0 <= e <= 100000,
            ep == 0 || ep == digit_run(b@, es as int),
            e == exp_acc(b@, es as int, (k3 - es) as int),
        decreases es + ep - k3,
    {
        proof { lemma_run_is_digits(b@, es as int, (k3 - es) as int); }
        let d = (b[k3] - 48) as i64;
        e = if e > 10000 { 100000 } else { e * 10 + d };
        if e > 100000 {
            e = 100000;
        }
        k3 = k3 + 1;
    }
    e
}

/// The canonical number of the mantissa digits `all` (the first `ip` of them before
/// the point) times `10^e`.
fn canonical(all: Vec<u8>, ip: usize, e: i64, negative: bool) -> (r: ParsedNumber)
    requires
        ip <= all@.len(),
        -100000 <= e <= 100000,
        forall|t: int| 0 <= t < all@.len() ==> #[trigger] all@[t] <= 9,
    ensures
        !(r is Invalid),
        r matches ParsedNumber::Finite(v) ==> (v.digits@.len() > 0 ==> v.digits@[0] != 0u8 && v.digits@.last() != 0u8)
            && forall|k: int| 0 <= k < v.digits@.len() ==> #[trigger] v.digits@[k] <= 9,
        outcome_of(r) == canonical_spec(all@, ip as int, e as int, negative),
{
    let mut lead: usize = 0;
    while lead < all.len() && all[lead] == 0
        invariant
            lead <= all@.len(),
            first_nonzero(all@, lead as int) == first_nonzero(all@, 0),
        decreases all@.len() - lead,
    {
        lead = lead + 1;
    }
    let mut trail = all.len();
    while trail > lead && all[trail - 1] == 0
        invariant
            lead <= trail <= all@.len(),
            lead < all@.len() ==> all@[lead as int] != 0,
            lead == first_nonzero(all@, 0),
            nonzero_end(all@, lead as int, trail as int) == nonzero_end(all@, lead as int, all@.len() as int),
        decreases trail,
    {
        trail = trail - 1;
    }
    let mut digits: Vec<u8> = Vec::new();
    let mut t = lead;
    while t < trail
        invariant
            lead <= t <= trail <= all@.len(),
            digits@ == all@.subrange(lead as int, t as int),
        decreases trail - t,
    {
        digits.push(all[t]);
        t = t + 1;
    }
    assert(trail == nonzero_end(all@, lead as int, all@.len() as int));
    if digits.len() == 0 {
        assert(digits@ =~= Seq::<u8>::empty());
        return ParsedNumber::Finite(NumberValue { negative, digits, exponent: 0 });
    }
    assert(digits@ == all@.subrange(lead as int, trail as int));
    let exponent: i128 = (ip as i128) - (lead as i128) + (e as i128);
    if exponent <= -324 {
        return ParsedNumber::Finite(NumberValue { negative, digits: Vec::new(), exponent: 0 });
    }
    if exponent > 309 {
        return ParsedNumber::NonFinite;
    }
    if exponent == 309 {
        let th = OVERFLOW_THRESHOLD.as_bytes();
        let mut i: usize = 0;
        let mut decided = false;
        let mut above = true;
        while i < th.len() && !decided
            invariant
                i <= th@.len(),
                th@ == OVERFLOW_THRESHOLD.spec_bytes(),
                decided ==> above == at_least_threshold(digits@, th@, 0),
                !decided ==> above && at_least_threshold(digits@, th@, i as int) == at_least_threshold(digits@, th@, 0),
            decreases th@.len() - i,
        {
            let d = if i < digits.len() { digits[i] } else { 0 };
            let td = if 48 <= th[i] { th[i] - 48 } else { 0 };
            if d != td {
                decided = true;
                above = d > td;
            }
            i = i + 1;
        }
        if above {
            return ParsedNumber::NonFinite;
        }
    }
    ParsedNumber::Finite(NumberValue { negative, digits, exponent: exponent as i64 })
}

/// Every byte of a digit run is a digit.
proof fn lemma_run_is_digits(b: Seq<u8>, i: int, k: int)
    requires
        0 <= k < digit_run(b, i),
    ensures
        is_digit(b[i + k]),
    decreases k,
{
    if k > 0 {
        lemma_run_is_digits(b, i + 1, k - 1);
    }
}

impl NumberValue {
    /// Whether two numbers are the same: equal signs, digits and exponents.
    pub fn same(&self, other: &NumberValue) -> (r: bool)
        ensures
            r == (self.negative == other.negative && self.digits@ == other.digits@ && self.exponent == other.exponent),
    {
        if self.negative != other.negative || self.exponent != other.exponent || self.digits.len() != other.digits.len() {
            return false;
        }
        let mut i: usize = 0;
        while i < self.digits.len()
            invariant
                i <= self.digits@.len() == other.digits@.len(),
                forall|k: int| 0 <= k < i ==> self.digits@[k] == other.digits@[k],
            decreases self.digits@.len() - i,
        {
            if self.digits[i] != other.digits[i] {
                return false;
            }
            i = i + 1;
        }
        assert(self.digits@ =~= other.digits@);
        true
    }

    /// A copy of the number.
    pub fn duplicate(&self) -> (r: NumberValue)
        ensures
            r.negative == self.negative,
            r.digits@ == self.digits@,
            r.exponent == self.exponent,
    {
        NumberValue { negative: self.negative, digits: self.digits.clone(), exponent: self.exponent }
    }
}

} // verus!
