//! Generated scalar values and the deterministic coercions between them.
//!
//! Every value a generator can produce is one of the four shapes below.
//! The column-type coercion policy of the persistence layer (best-effort
//! with silent defaulting) is defined here as spec functions and proved
//! of the executable conversions.

use vstd::prelude::*;

verus! {

/// A generated scalar value, as produced by a field generator and
/// consumed by the persistence layer.
#[derive(Debug, Clone, PartialEq, Eq)]
pub enum Value {
    Null,
    Bool(bool),
    Int(i64),
    Str(String),
}

/// The mathematical shadow of `Value`: what contracts speak about.
pub enum ValSpec {
    Null,
    Bool(bool),
    Int(int),
    Str(Seq<char>),
}

impl View for Value {
    type V = ValSpec;

    open spec fn view(&self) -> ValSpec {
        match self {
            Value::Null => ValSpec::Null,
            Value::Bool(b) => ValSpec::Bool(*b),
            Value::Int(i) => ValSpec::Int(*i as int),
            Value::Str(s) => ValSpec::Str(s@),
        }
    }
}

impl Value {
    pub open spec fn is_null_spec(&self) -> bool {
        self@ is Null
    }

    /// Whether this value is the null value (a null is never stored into
    /// a row: the column is simply left out).
    pub fn is_null(&self) -> (r: bool)
        ensures
            r == self.is_null_spec(),
    {
        match self {
            Value::Null => true,
            _ => false,
        }
    }

    /// An owned copy with the same view (the derived clone carries no
    /// specification).
    pub fn duplicate(&self) -> (r: Value)
        ensures
            r@ == self@,
    {
        match self {
            Value::Null => Value::Null,
            Value::Bool(b) => Value::Bool(*b),
            Value::Int(i) => Value::Int(*i),
            Value::Str(s) => Value::Str(s.clone()),
        }
    }
}

// ---------------------------------------------------------------------
// Decimal text of an integer.
// ---------------------------------------------------------------------

/// The character for one decimal digit.
pub open spec fn digit_char(d: int) -> char {
    if d == 0 { '0' }
    else if d == 1 { '1' }
    else if d == 2 { '2' }
    else if d == 3 { '3' }
    else if d == 4 { '4' }
    else if d == 5 { '5' }
    else if d == 6 { '6' }
    else if d == 7 { '7' }
    else if d == 8 { '8' }
    else { '9' }
}

/// The decimal digits of a non-negative integer, most significant first,
/// without leading zeros (except for the single digit of zero itself).
pub open spec fn dec_digits(n: nat) -> Seq<char>
    decreases n,
{
    if n < 10 {
        seq![digit_char(n as int)]
    } else {
        dec_digits(n / 10).push(digit_char((n % 10) as int))
    }
}

/// The canonical decimal text of an integer: a minus sign for negative
/// values, then the digits.
pub open spec fn int_str(n: int) -> Seq<char> {
    if n < 0 {
        seq!['-'] + dec_digits((-n) as nat)
    } else {
        dec_digits(n as nat)
    }
}

fn digit_char_of(d: u64) -> (c: char)
    requires
        d < 10,
    ensures
        c == digit_char(d as int),
{
    if d == 0 { '0' }
    else if d == 1 { '1' }
    else if d == 2 { '2' }
    else if d == 3 { '3' }
    else if d == 4 { '4' }
    else if d == 5 { '5' }
    else if d == 6 { '6' }
    else if d == 7 { '7' }
    else if d == 8 { '8' }
    else { '9' }
}

/// Relies on `String`'s `FromIterator<char>` impl: collecting an
/// iterator of characters yields the string of exactly those characters,
/// in order.
#[verifier::external_body]
pub(crate) fn chars_to_string(v: &Vec<char>) -> (r: String)
    ensures
        r@ == v@,
{
    v.iter().collect()
}

fn u64_digits(m: u64) -> (r: Vec<char>)
    ensures
        r@ == dec_digits(m as nat),
{
    let mut out: Vec<char> = Vec::new();
    let mut cur: u64 = m;
    loop
        invariant_except_break
            dec_digits(m as nat) == dec_digits(cur as nat) + out@,
        ensures
            dec_digits(m as nat) == out@,
        decreases cur,
    {
        let d = digit_char_of(cur % 10);
        out.insert(0, d);
        proof {
            assert(out@ == seq![digit_char((cur as nat % 10) as int)] + old_seq_tail(out@));
        }
        let prev = cur;
        cur = cur / 10;
        proof {
            if prev < 10 {
                assert(dec_digits(prev as nat) == seq![digit_char(prev as int)]);
            } else {
                assert(dec_digits(prev as nat)
                    == dec_digits(prev as nat / 10).push(digit_char((prev as nat % 10) as int)));
                assert(dec_digits(prev as nat / 10).push(digit_char((prev as nat % 10) as int))
                    =~= dec_digits(prev as nat / 10) + seq![digit_char((prev as nat % 10) as int)]);
            }
        }
        if cur == 0 {
            break;
        }
    }
    out
}

/// In proofs about `Vec::insert(0, _)`: the sequence before the insert.
pub open spec fn old_seq_tail(s: Seq<char>) -> Seq<char> {
    s.skip(1)
}

/// The decimal text of an index (used for statement placeholders).
pub fn usize_to_string(n: usize) -> (r: String)
    ensures
        r@ == dec_digits(n as nat),
{
    let digits = u64_digits(n as u64);
    chars_to_string(&digits)
}

/// The canonical decimal text of `n`.
pub fn int_to_string(n: i64) -> (r: String)
    ensures
        r@ == int_str(n as int),
{
    if n >= 0 {
        let digits = u64_digits(n as u64);
        chars_to_string(&digits)
    } else {
        let mag: u64 = (-(n as i128)) as u64;
        assert(mag as int == -(n as int)) by {
            assert(-(n as int) <= u64::MAX as int);
        };
        let digits = u64_digits(mag);
        let mut out: Vec<char> = Vec::new();
        out.push('-');
        let mut i: usize = 0;
        while i < digits.len()
            invariant
                i <= digits@.len(),
                digits@ == dec_digits(mag as nat),
                out@ == seq!['-'] + digits@.subrange(0, i as int),
            decreases digits@.len() - i,
        {
            out.push(digits[i]);
            i += 1;
            proof {
                assert(out@ =~= seq!['-'] + digits@.subrange(0, i as int));
            }
        }
        proof {
            assert(digits@.subrange(0, digits@.len() as int) =~= digits@);
            assert(out@ == int_str(n as int));
        }
        chars_to_string(&out)
    }
}

// ---------------------------------------------------------------------
// Parsing an integer from decimal text (best-effort, defaulting to 0).
// ---------------------------------------------------------------------

pub open spec fn is_digit_char(c: char) -> bool {
    '0' <= c && c <= '9'
}

pub open spec fn digit_val(c: char) -> int {
    if c == '0' { 0 }
    else if c == '1' { 1 }
    else if c == '2' { 2 }
    else if c == '3' { 3 }
    else if c == '4' { 4 }
    else if c == '5' { 5 }
    else if c == '6' { 6 }
    else if c == '7' { 7 }
    else if c == '8' { 8 }
    else { 9 }
}

pub open spec fn all_digits(s: Seq<char>) -> bool {
    forall|i: int| 0 <= i < s.len() ==> is_digit_char(#[trigger] s[i])
}

/// The non-negative integer denoted by a sequence of decimal digits.
pub open spec fn digits_val(s: Seq<char>) -> int
    decreases s.len(),
{
    if s.len() == 0 {
        0
    } else {
        digits_val(s.drop_last()) * 10 + digit_val(s.last())
    }
}

/// The value this library reads out of decimal text: an optional sign,
/// then at least one digit; anything else, or a value outside `i64`,
/// reads as zero.  This is the library's named fallback policy for
/// integer coercion.
pub open spec fn parse_i64_spec(s: Seq<char>) -> int {
    let signed = s.len() > 0 && (s[0] == '+' || s[0] == '-');
    let body = if signed { s.skip(1) } else { s };
    let neg = s.len() > 0 && s[0] == '-';
    if body.len() > 0 && all_digits(body) {
        let v = if neg { -digits_val(body) } else { digits_val(body) };
        if i64::MIN <= v && v <= i64::MAX { v } else { 0 }
    } else {
        0
    }
}

pub open spec fn pow10(n: nat) -> int
    decreases n,
{
    if n == 0 { 1 } else { 10 * pow10((n - 1) as nat) }
}

pub(crate) proof fn lemma_digits_val_nonneg(s: Seq<char>)
    requires
        all_digits(s),
    ensures
        digits_val(s) >= 0,
    decreases s.len(),
{
    if s.len() > 0 {
        lemma_digits_val_nonneg(s.drop_last());
        assert(digit_val(s.last()) >= 0);
    }
}

proof fn lemma_digits_val_lower(s: Seq<char>)
    requires
        all_digits(s),
        s.len() >= 1,
        s[0] != '0',
    ensures
        digits_val(s) >= pow10((s.len() - 1) as nat),
    decreases s.len(),
{
    if s.len() == 1 {
        assert(digit_val(s.last()) >= 1);
    } else {
        lemma_digits_val_lower(s.drop_last());
        assert(digit_val(s.last()) >= 0);
        assert(digits_val(s.drop_last()) * 10 >= pow10((s.len() - 2) as nat) * 10)
            by (nonlinear_arith)
            requires digits_val(s.drop_last()) >= pow10((s.len() - 2) as nat),
        ;
    }
}

proof fn lemma_digits_val_strip_zero(s: Seq<char>)
    requires
        s.len() >= 1,
        s[0] == '0',
    ensures
        digits_val(s) == digits_val(s.skip(1)),
    decreases s.len(),
{
    if s.len() == 1 {
        assert(s.drop_last().len() == 0);
        assert(s.last() == s[0]);
        assert(digits_val(s) == digits_val(s.drop_last()) * 10 + digit_val(s.last()));
        assert(s.skip(1).len() == 0);
    } else {
        lemma_digits_val_strip_zero(s.drop_last());
        assert(s.skip(1).drop_last() =~= s.drop_last().skip(1));
        assert(s.skip(1).last() == s.last());
    }
}

fn exec_digit_val(c: char) -> (d: u64)
    requires
        is_digit_char(c),
    ensures
        d as int == digit_val(c),
        d < 10,
{
    if c == '0' { 0 }
    else if c == '1' { 1 }
    else if c == '2' { 2 }
    else if c == '3' { 3 }
    else if c == '4' { 4 }
    else if c == '5' { 5 }
    else if c == '6' { 6 }
    else if c == '7' { 7 }
    else { 9 - (if c == '8' { 1u64 } else { 0u64 }) }
}

/// Best-effort integer reading of decimal text: the named zero-default
/// coercion policy.  An optional sign, then digits; anything else, or a
/// value outside `i64`'s range, yields zero.
pub fn parse_i64_or_zero(s: &str) -> (r: i64)
    ensures
        r as int == parse_i64_spec(s@),
{
    let n = s.unicode_len();
    let mut start: usize = 0;
    let mut neg = false;
    if n > 0 {
        let c0 = s.get_char(0);
        if c0 == '+' {
            start = 1;
        } else if c0 == '-' {
            neg = true;
            start = 1;
        }
    }
    let ghost body = if start == 1 { s@.skip(1) } else { s@ };
    if start >= n {
        // no digits at all
        return 0;
    }
    // validate: every remaining character is a digit
    let mut j = start;
    while j < n
        invariant
            start <= j <= n,
            n == s@.len(),
            start < n,
            start == 0 || start == 1,
            (start == 1) == (s@.len() > 0 && (s@[0] == '+' || s@[0] == '-')),
            body == if start == 1 { s@.skip(1) } else { s@ },
            forall|i: int| start <= i < j ==> is_digit_char(#[trigger] s@[i]),
        decreases n - j,
    {
        let c = s.get_char(j);
        if !(c >= '0' && c <= '9') {
            proof {
                assert(!is_digit_char(s@[j as int]));
                if start == 1 {
                    assert(body[j as int - 1] == s@[j as int]);
                } else {
                    assert(body[j as int] == s@[j as int]);
                }
                assert(!all_digits(body));
            }
            return 0;
        }
        j += 1;
    }
    proof {
        assert(body.len() == n - start);
        assert(forall|i: int| 0 <= i < body.len() ==> body[i] == s@[i + start]);
        assert(all_digits(body));
    }
    // strip leading zeros
    proof {
        assert(s@.skip(start as int) =~= body);
    }
    let mut k = start;
    while k < n && s.get_char(k) == '0'
        invariant
            start <= k <= n,
            n == s@.len(),
            forall|i: int| start <= i < k ==> s@[i] == '0',
            digits_val(body) == digits_val(s@.skip(k as int)),
            body == if start == 1 { s@.skip(1) } else { s@ },
        decreases n - k,
    {
        proof {
            let rest = s@.skip(k as int);
            assert(rest[0] == s@[k as int]);
            lemma_digits_val_strip_zero(rest);
            assert(rest.skip(1) =~= s@.skip(k as int + 1));
        }
        k += 1;
    }
    let ghost stripped = s@.skip(k as int);
    proof {
        assert(forall|i: int| 0 <= i < stripped.len() ==> stripped[i] == s@[i + k]);
        assert(all_digits(stripped));
        lemma_digits_val_nonneg(stripped);
    }
    if k == n {
        // all zeros: the value is zero either way
        proof {
            assert(stripped.len() == 0);
            assert(digits_val(body) == 0);
        }
        return 0;
    }
    if n - k > 19 {
        // at least twenty digits without leading zeros: out of range
        proof {
            lemma_digits_val_lower(stripped);
            lemma_pow10_19();
            assert(stripped.len() - 1 >= 19);
            lemma_pow10_mono(19, (stripped.len() - 1) as nat);
            assert(digits_val(body) > i64::MAX);
        }
        return 0;
    }
    // at most nineteen digits: the magnitude fits in u64
    let mut mag: u64 = 0;
    let mut p = k;
    while p < n
        invariant
            k <= p <= n,
            n == s@.len(),
            n - k <= 19,
            stripped == s@.skip(k as int),
            all_digits(stripped),
            mag as int == digits_val(s@.subrange(k as int, p as int)),
            (mag as int) < pow10((p - k) as nat),
        decreases n - p,
    {
        let c = s.get_char(p);
        proof {
            assert(s@[p as int] == stripped[p - k]);
            assert(is_digit_char(c));
            let pre = s@.subrange(k as int, p as int);
            let post = s@.subrange(k as int, p as int + 1);
            assert(post.drop_last() =~= pre);
            assert(post.last() == c);
            lemma_pow10_mono((p - k + 1) as nat, 19);
            lemma_pow10_19();
            assert(mag as int * 10 < pow10((p - k) as nat) * 10) by (nonlinear_arith)
                requires (mag as int) < pow10((p - k) as nat),
            ;
        }
        let d = exec_digit_val(c);
        mag = mag * 10 + d;
        p += 1;
    }
    proof {
        assert(s@.subrange(k as int, n as int) =~= stripped);
        assert(mag as int == digits_val(stripped));
        assert(digits_val(body) == digits_val(stripped));
    }
    if neg {
        if mag <= 9223372036854775808u64 {
            if mag == 9223372036854775808u64 {
                i64::MIN
            } else {
                -(mag as i64)
            }
        } else {
            0
        }
    } else {
        if mag <= 9223372036854775807u64 {
            mag as i64
        } else {
            0
        }
    }
}

proof fn lemma_pow10_19()
    ensures
        pow10(19) == 10000000000000000000,
{
    reveal_with_fuel(pow10, 21);
}

pub(crate) proof fn lemma_pow10_mono(a: nat, b: nat)
    requires
        a <= b,
    ensures
        pow10(a) <= pow10(b),
        pow10(a) >= 1,
    decreases b,
{
    if a == b {
        if a == 0 {
        } else {
            lemma_pow10_mono((a - 1) as nat, (a - 1) as nat);
        }
    } else {
        lemma_pow10_mono(a, (b - 1) as nat);
    }
}

// ---------------------------------------------------------------------
// Stringification (for the template generator) and lossy coercions
// (for the persistence layer).
// ---------------------------------------------------------------------

/// How a value reads as text inside a template: strings verbatim,
/// integers as their canonical decimal text, everything else as the
/// empty text (which a template treats as "no substitution").
pub open spec fn value_text_spec(v: ValSpec) -> Seq<char> {
    match v {
        ValSpec::Str(s) => s,
        ValSpec::Int(i) => int_str(i),
        _ => Seq::<char>::empty(),
    }
}

pub fn value_text(v: &Value) -> (r: String)
    ensures
        r@ == value_text_spec(v@),
{
    match v {
        Value::Str(s) => s.clone(),
        Value::Int(i) => int_to_string(*i),
        _ => String::new(),
    }
}

/// The integer a value coerces to when bound to an integer column:
/// integers as themselves, booleans as 0/1, text through the zero-default
/// parse, null as zero.
pub open spec fn coerce_int_spec(v: ValSpec) -> int {
    match v {
        ValSpec::Int(i) => i,
        ValSpec::Bool(b) => if b { 1 } else { 0 },
        ValSpec::Str(s) => parse_i64_spec(s),
        ValSpec::Null => 0,
    }
}

pub fn coerce_int(v: &Value) -> (r: i64)
    ensures
        r as int == coerce_int_spec(v@),
{
    match v {
        Value::Int(i) => *i,
        Value::Bool(b) => if *b { 1 } else { 0 },
        Value::Str(s) => parse_i64_or_zero(s.as_str()),
        Value::Null => 0,
    }
}

/// The boolean a value coerces to when bound to a boolean column:
/// booleans as themselves, integers by non-zero, the texts "true" and
/// "1" as true, everything else as false.
pub open spec fn coerce_bool_spec(v: ValSpec) -> bool {
    match v {
        ValSpec::Bool(b) => b,
        ValSpec::Int(i) => i != 0,
        ValSpec::Str(s) => s == "true"@ || s == "1"@,
        ValSpec::Null => false,
    }
}

pub fn coerce_bool(v: &Value) -> (r: bool)
    ensures
        r == coerce_bool_spec(v@),
{
    match v {
        Value::Bool(b) => *b,
        Value::Int(i) => *i != 0,
        Value::Str(s) => {
            let t = String::from_str("true");
            let o = String::from_str("1");
            *s == t || *s == o
        },
        Value::Null => false,
    }
}

} // verus!
