//! The generator engine: one field template to one concrete value.
//!
//! A row is generated by evaluating its field templates strictly in
//! declared order; later fields may read earlier fields' values.  The
//! vocabulary of generator kinds is closed; an unknown tag is a fatal
//! error.  Required parameters (`pool_name`, `format`, `references`)
//! abort the row when absent; all other parameters are read
//! permissively, with documented defaults and clamps.

use vstd::prelude::*;
use crate::dates::{day_ts, rfc3339_of, parse_day_start, format_rfc3339};
use crate::error::{ErrV, SeedError};
use crate::lorem::{lorem_words, lorem_sentence};
use crate::random::{is_alnum_char, random_alphanumeric, random_below, random_between};
use crate::rows::{Pools, Row, pools_find, row_find};
use crate::template::{render, render_template, push_str_chars};
use crate::value::{
    Value, ValSpec, all_digits, chars_to_string, digit_val, digits_val, int_str, int_to_string,
    is_digit_char, pow10,
};

verus! {

/// One column's generation instruction: the target column, the
/// generator kind tag, and the kind-specific parameters.
#[derive(Debug, Clone)]
pub struct FieldTemplate {
    pub column_name: String,
    pub generator: String,
    pub params: Vec<(String, Value)>,
}

/// The mathematical shadow of `FieldTemplate`.
pub struct FieldV {
    pub column_name: Seq<char>,
    pub generator: Seq<char>,
    pub params: Seq<(Seq<char>, ValSpec)>,
}

pub open spec fn params_view(s: Seq<(String, Value)>) -> Seq<(Seq<char>, ValSpec)> {
    s.map_values(|e: (String, Value)| (e.0@, e.1@))
}

impl View for FieldTemplate {
    type V = FieldV;

    open spec fn view(&self) -> FieldV {
        FieldV {
            column_name: self.column_name@,
            generator: self.generator@,
            params: params_view(self.params@),
        }
    }
}

pub open spec fn fields_view(s: Seq<FieldTemplate>) -> Seq<FieldV> {
    s.map_values(|f: FieldTemplate| f@)
}

// ---------------------------------------------------------------------
// Reading parameters (permissive, with defaults).
// ---------------------------------------------------------------------

/// A whole-number parameter: present and integral, non-negative, else
/// the default (matching the strict JSON accessor the plan format uses).
pub open spec fn param_u64_spec(ps: Seq<(Seq<char>, ValSpec)>, name: Seq<char>, dflt: u64) -> int {
    match row_find(ps, name) {
        Some(ValSpec::Int(i)) => if i >= 0 {
            i
        } else {
            dflt as int
        },
        _ => dflt as int,
    }
}

/// A signed integer parameter: present and integral, else the default.
pub open spec fn param_i64_spec(ps: Seq<(Seq<char>, ValSpec)>, name: Seq<char>, dflt: i64) -> int {
    match row_find(ps, name) {
        Some(ValSpec::Int(i)) => i,
        _ => dflt as int,
    }
}

/// A required text parameter: its value when present and textual.
pub open spec fn param_str_spec(ps: Seq<(Seq<char>, ValSpec)>, name: Seq<char>) -> Option<
    Seq<char>,
> {
    match row_find(ps, name) {
        Some(ValSpec::Str(s)) => Some(s),
        _ => None,
    }
}

fn find_param<'a>(params: &'a Vec<(String, Value)>, name: &String) -> (r: Option<&'a Value>)
    ensures
        match r {
            Some(v) => row_find(params_view(params@), name@) == Some(v@),
            None => row_find(params_view(params@), name@) is None,
        },
{
    let ghost pv = params_view(params@);
    let n = params.len();
    proof {
        assert(pv.skip(0) =~= pv);
    }
    let mut i: usize = 0;
    while i < n
        invariant
            i <= n,
            n == pv.len(),
            pv == params_view(params@),
            row_find(pv, name@) == row_find(pv.skip(i as int), name@),
        decreases n - i,
    {
        proof {
            assert(pv.skip(i as int)[0] == pv[i as int]);
            assert(pv.skip(i as int).skip(1) =~= pv.skip(i as int + 1));
        }
        if params[i].0 == *name {
            proof {
                assert(pv[i as int].0 == name@);
            }
            return Some(&params[i].1);
        }
        i += 1;
    }
    proof {
        assert(pv.skip(n as int).len() == 0);
    }
    None
}

fn param_u64(params: &Vec<(String, Value)>, name: &String, dflt: u64) -> (r: u64)
    ensures
        r as int == param_u64_spec(params_view(params@), name@, dflt),
{
    match find_param(params, name) {
        Some(Value::Int(i)) => if *i >= 0 {
            *i as u64
        } else {
            dflt
        },
        _ => dflt,
    }
}

fn param_i64(params: &Vec<(String, Value)>, name: &String, dflt: i64) -> (r: i64)
    ensures
        r as int == param_i64_spec(params_view(params@), name@, dflt),
{
    match find_param(params, name) {
        Some(Value::Int(i)) => *i,
        _ => dflt,
    }
}

fn param_str<'a>(params: &'a Vec<(String, Value)>, name: &String) -> (r: Option<&'a String>)
    ensures
        match r {
            Some(s) => param_str_spec(params_view(params@), name@) == Some(s@),
            None => param_str_spec(params_view(params@), name@) is None,
        },
{
    match find_param(params, name) {
        Some(Value::Str(s)) => Some(s),
        _ => None,
    }
}

// ---------------------------------------------------------------------
// The Bernoulli chance, in parts per million.
// ---------------------------------------------------------------------

/// The index of the first occurrence of `c`, if any.
pub open spec fn char_idx(s: Seq<char>, c: char) -> Option<int>
    decreases s.len(),
{
    if s.len() == 0 {
        None
    } else if s[0] == c {
        Some(0int)
    } else {
        match char_idx(s.skip(1), c) {
            Some(j) => Some(j + 1),
            None => None,
        }
    }
}

proof fn lemma_char_idx_found(s: Seq<char>, c: char, m: int)
    requires
        0 <= m < s.len(),
        s[m] == c,
        forall|l: int| 0 <= l < m ==> s[l] != c,
    ensures
        char_idx(s, c) == Some(m),
    decreases m,
{
    if m > 0 {
        assert(forall|l: int| 0 <= l < s.skip(1).len() ==> s.skip(1)[l] == s[l + 1]);
        lemma_char_idx_found(s.skip(1), c, m - 1);
    }
}

proof fn lemma_char_idx_none(s: Seq<char>, c: char)
    requires
        forall|l: int| 0 <= l < s.len() ==> s[l] != c,
    ensures
        char_idx(s, c) is None,
    decreases s.len(),
{
    if s.len() > 0 {
        assert(forall|l: int| 0 <= l < s.skip(1).len() ==> s.skip(1)[l] == s[l + 1]);
        lemma_char_idx_none(s.skip(1), c);
    }
}

pub open spec fn has_nonzero_digit(s: Seq<char>) -> bool {
    exists|i: int| 0 <= i < s.len() && s[i] != '0'
}

/// The first six fractional digits, right-padded with zeros.
pub open spec fn frac6(f: Seq<char>) -> Seq<char> {
    if f.len() >= 6 {
        f.take(6)
    } else {
        f + Seq::new((6 - f.len()) as nat, |i: int| '0')
    }
}

/// The chance a decimal text denotes, in parts per million, clamped to
/// [0, 1000000]: any value of one or more reads as certainty; anything
/// that is not a decimal numeral reads as the even-chance default.
pub open spec fn ppm_of_text(s: Seq<char>) -> int {
    match char_idx(s, '.') {
        None => if s.len() > 0 && all_digits(s) {
            if has_nonzero_digit(s) {
                1_000_000
            } else {
                0
            }
        } else {
            500_000
        },
        Some(d) => {
            let ip = s.take(d);
            let fp = s.skip(d + 1);
            if ip.len() > 0 && fp.len() > 0 && all_digits(ip) && all_digits(fp) {
                if has_nonzero_digit(ip) {
                    1_000_000
                } else {
                    digits_val(frac6(fp))
                }
            } else {
                500_000
            }
        },
    }
}

/// The `true_chance` parameter in parts per million: integers clamp to
/// never or always, text reads as a decimal, anything else is an even
/// chance.
pub open spec fn chance_ppm_spec(ps: Seq<(Seq<char>, ValSpec)>, name: Seq<char>) -> int {
    match row_find(ps, name) {
        Some(ValSpec::Int(i)) => if i <= 0 {
            0
        } else {
            1_000_000
        },
        Some(ValSpec::Str(s)) => ppm_of_text(s),
        _ => 500_000,
    }
}

proof fn lemma_pow10_6()
    ensures
        pow10(6) == 1_000_000,
{
    reveal_with_fuel(pow10, 8);
}

fn exec_digit_val_u32(c: char) -> (d: u32)
    requires
        is_digit_char(c),
    ensures
        d as int == digit_val(c),
        d < 10,
{
    if c == '0' { 0 }
    else if c == '1' { 1 }
    else if c == '2' { 2 }
    else if c == '3' { 3 }
    else if c == '4' { 4 }
    else if c == '5' { 5 }
    else if c == '6' { 6 }
    else if c == '7' { 7 }
    else if c == '8' { 8 }
    else { 9 }
}

/// The value of the first six fractional digits, padded.
fn frac6_value(s: &str, from: usize) -> (r: u32)
    requires
        from <= s@.len(),
        all_digits(s@.skip(from as int)),
    ensures
        r as int == digits_val(frac6(s@.skip(from as int))),
        r < 1_000_000,
{
    let ghost fp = s@.skip(from as int);
    let ghost f6 = frac6(fp);
    proof {
        assert(f6.len() == 6);
        assert(forall|t: int| 0 <= t < 6
            ==> #[trigger] f6[t] == if t < fp.len() { fp[t] } else { '0' });
        assert(all_digits(f6));
        assert(f6.take(0) =~= Seq::<char>::empty());
    }
    let n = s.unicode_len();
    let mut acc: u32 = 0;
    let mut t: usize = 0;
    while t < 6
        invariant
            t <= 6,
            n == s@.len(),
            from <= n,
            fp == s@.skip(from as int),
            f6 == frac6(fp),
            f6.len() == 6,
            all_digits(f6),
            forall|q: int| 0 <= q < 6
                ==> #[trigger] f6[q] == if q < fp.len() { fp[q] } else { '0' },
            acc as int == digits_val(f6.take(t as int)),
            (acc as int) < pow10(t as nat),
        decreases 6 - t,
    {
        proof {
            crate::value::lemma_pow10_mono(t as nat, 6);
            lemma_pow10_6();
            assert(f6.take(t as int + 1).drop_last() =~= f6.take(t as int));
            assert(f6.take(t as int + 1).last() == f6[t as int]);
            assert(all_digits(f6.take(t as int))) by {
                assert(forall|q: int| 0 <= q < t ==> f6.take(t as int)[q] == f6[q]);
            }
            crate::value::lemma_digits_val_nonneg(f6.take(t as int));
        }
        let c = if t < n - from {
            proof {
                assert(fp[t as int] == s@[from + t]);
                assert(is_digit_char(fp[t as int]));
            }
            s.get_char(from + t)
        } else {
            '0'
        };
        proof {
            assert(c == f6[t as int]);
        }
        let d = exec_digit_val_u32(c);
        acc = acc * 10 + d;
        t += 1;
    }
    proof {
        assert(f6.take(6) =~= f6);
        lemma_pow10_6();
    }
    acc
}

/// Read a decimal chance text into parts per million.
fn ppm_of_text_exec(s: &str) -> (r: u32)
    ensures
        r as int == ppm_of_text(s@),
        r <= 1_000_000,
{
    let n = s.unicode_len();
    // find the first dot, if any
    let mut d = 0usize;
    while d < n
        invariant_except_break
            d <= n,
            n == s@.len(),
            forall|l: int| 0 <= l < d ==> s@[l] != '.',
        ensures
            d <= n,
            n == s@.len(),
            forall|l: int| 0 <= l < d ==> s@[l] != '.',
            d < n ==> s@[d as int] == '.',
        decreases n - d,
    {
        if s.get_char(d) == '.' {
            break;
        }
        d += 1;
    }
    if d == n {
        proof {
            lemma_char_idx_none(s@, '.');
        }
        // no dot: a plain numeral
        let mut ok = n > 0;
        let mut nonzero = false;
        let mut l: usize = 0;
        while l < n
            invariant
                l <= n,
                n == s@.len(),
                ok == (n > 0 && all_digits(s@.take(l as int))),
                ok ==> nonzero == has_nonzero_digit(s@.take(l as int)),
            decreases n - l,
        {
            let c = s.get_char(l);
            proof {
                assert(s@.take(l as int + 1).drop_last() =~= s@.take(l as int));
                assert(s@.take(l as int + 1).last() == c);
                assert(forall|q: int| 0 <= q < l ==> s@.take(l as int + 1)[q]
                    == s@.take(l as int)[q]);
            }
            if !(c >= '0' && c <= '9') {
                ok = false;
            }
            if c != '0' {
                nonzero = true;
            }
            proof {
                if ok {
                    assert(all_digits(s@.take(l as int + 1))) by {
                        assert(forall|q: int| 0 <= q < l
                            ==> is_digit_char(#[trigger] s@.take(l as int)[q]));
                        assert(s@.take(l as int + 1)[l as int] == c);
                    }
                }
                if c != '0' {
                    assert(s@.take(l as int + 1)[l as int] != '0');
                } else {
                    assert(has_nonzero_digit(s@.take(l as int + 1))
                        == has_nonzero_digit(s@.take(l as int))) by {
                        if has_nonzero_digit(s@.take(l as int + 1)) {
                            let q = choose|q: int|
                                0 <= q < l + 1 && #[trigger] s@.take(l as int + 1)[q] != '0';
                            assert(q < l);
                            assert(s@.take(l as int)[q] != '0');
                        }
                    }
                }
            }
            l += 1;
        }
        proof {
            assert(s@.take(n as int) =~= s@);
        }
        if ok {
            if nonzero {
                1_000_000
            } else {
                0
            }
        } else {
            500_000
        }
    } else {
        proof {
            lemma_char_idx_found(s@, '.', d as int);
        }
        let ghost ip = s@.take(d as int);
        let ghost fp = s@.skip(d as int + 1);
        // validate both sides
        if d == 0 || d + 1 >= n {
            proof {
                assert(ip.len() == 0 || fp.len() == 0);
            }
            return 500_000;
        }
        let mut ok = true;
        let mut nonzero = false;
        let mut l: usize = 0;
        while l < d
            invariant
                l <= d,
                d < n,
                n == s@.len(),
                ip == s@.take(d as int),
                ok == all_digits(ip.take(l as int)),
                ok ==> nonzero == has_nonzero_digit(ip.take(l as int)),
            decreases d - l,
        {
            let c = s.get_char(l);
            proof {
                assert(ip[l as int] == s@[l as int]);
                assert(ip.take(l as int + 1).drop_last() =~= ip.take(l as int));
                assert(ip.take(l as int + 1).last() == c);
                assert(forall|q: int| 0 <= q < l ==> ip.take(l as int + 1)[q]
                    == ip.take(l as int)[q]);
            }
            if !(c >= '0' && c <= '9') {
                ok = false;
            }
            if c != '0' {
                nonzero = true;
            }
            proof {
                if ok {
                    assert(all_digits(ip.take(l as int + 1))) by {
                        assert(forall|q: int| 0 <= q < l
                            ==> is_digit_char(#[trigger] ip.take(l as int)[q]));
                        assert(ip.take(l as int + 1)[l as int] == c);
                    }
                }
                if c != '0' {
                    assert(ip.take(l as int + 1)[l as int] != '0');
                } else {
                    assert(has_nonzero_digit(ip.take(l as int + 1))
                        == has_nonzero_digit(ip.take(l as int))) by {
                        if has_nonzero_digit(ip.take(l as int + 1)) {
                            let q = choose|q: int|
                                0 <= q < l + 1 && #[trigger] ip.take(l as int + 1)[q] != '0';
                            assert(q < l);
                            assert(ip.take(l as int)[q] != '0');
                        }
                    }
                }
            }
            l += 1;
        }
        proof {
            assert(ip.take(d as int) =~= ip);
        }
        if !ok {
            return 500_000;
        }
        let mut fok = true;
        let mut m = d + 1;
        while m < n
            invariant
                d + 1 <= m <= n,
                n == s@.len(),
                fp == s@.skip(d as int + 1),
                fok == all_digits(fp.take(m as int - d - 1)),
            decreases n - m,
        {
            let c = s.get_char(m);
            proof {
                assert(fp[m - d - 1] == s@[m as int]);
                assert(fp.take(m as int - d).drop_last() =~= fp.take(m as int - d - 1));
                assert(fp.take(m as int - d).last() == c);
                assert(forall|q: int| 0 <= q < m - d - 1 ==> #[trigger] fp.take(m as int - d)[q]
                    == fp.take(m as int - d - 1)[q]);
            }
            if !(c >= '0' && c <= '9') {
                fok = false;
            }
            proof {
                if fok {
                    assert(all_digits(fp.take(m as int - d))) by {
                        assert(forall|q: int| 0 <= q < m - d - 1
                            ==> is_digit_char(#[trigger] fp.take(m as int - d - 1)[q]));
                        assert(fp.take(m as int - d)[m - d - 1] == c);
                    }
                }
            }
            m += 1;
        }
        proof {
            assert(fp.take(n as int - d - 1) =~= fp);
        }
        if !fok {
            return 500_000;
        }
        if nonzero {
            1_000_000
        } else {
            frac6_value(s, d + 1)
        }
    }
}

/// The nine generator tags are pairwise distinct texts.
pub(crate) proof fn lemma_tags_distinct()
    ensures
        "pk_hash"@ != "from_pool"@ && "pk_hash"@ != "template"@ && "pk_hash"@ != "fk"@
            && "pk_hash"@ != "words"@ && "pk_hash"@ != "sentence"@
            && "pk_hash"@ != "number_range"@ && "pk_hash"@ != "boolean"@
            && "pk_hash"@ != "datetime_range"@,
        "from_pool"@ != "template"@ && "from_pool"@ != "fk"@ && "from_pool"@ != "words"@
            && "from_pool"@ != "sentence"@ && "from_pool"@ != "number_range"@
            && "from_pool"@ != "boolean"@ && "from_pool"@ != "datetime_range"@,
        "template"@ != "fk"@ && "template"@ != "words"@ && "template"@ != "sentence"@
            && "template"@ != "number_range"@ && "template"@ != "boolean"@
            && "template"@ != "datetime_range"@,
        "fk"@ != "words"@ && "fk"@ != "sentence"@ && "fk"@ != "number_range"@
            && "fk"@ != "boolean"@ && "fk"@ != "datetime_range"@,
        "words"@ != "sentence"@ && "words"@ != "number_range"@ && "words"@ != "boolean"@
            && "words"@ != "datetime_range"@,
        "sentence"@ != "number_range"@ && "sentence"@ != "boolean"@
            && "sentence"@ != "datetime_range"@,
        "number_range"@ != "boolean"@ && "number_range"@ != "datetime_range"@,
        "boolean"@ != "datetime_range"@,
{
    reveal_strlit("pk_hash");
    reveal_strlit("from_pool");
    reveal_strlit("template");
    reveal_strlit("fk");
    reveal_strlit("words");
    reveal_strlit("sentence");
    reveal_strlit("number_range");
    reveal_strlit("boolean");
    reveal_strlit("datetime_range");
    assert("pk_hash"@.len() == 7);
    assert("from_pool"@.len() == 9);
    assert("template"@.len() == 8);
    assert("fk"@.len() == 2);
    assert("words"@.len() == 5);
    assert("sentence"@.len() == 8);
    assert("number_range"@.len() == 12);
    assert("boolean"@.len() == 7);
    assert("datetime_range"@.len() == 14);
    assert("pk_hash"@[0] != "boolean"@[0]);
    assert("template"@[0] != "sentence"@[0]);
}

fn chance_ppm(params: &Vec<(String, Value)>, name: &String) -> (r: u32)
    ensures
        r as int == chance_ppm_spec(params_view(params@), name@),
        r <= 1_000_000,
{
    match find_param(params, name) {
        Some(Value::Int(i)) => if *i <= 0 {
            0
        } else {
            1_000_000
        },
        Some(Value::Str(s)) => ppm_of_text_exec(s.as_str()),
        _ => 500_000,
    }
}

// ---------------------------------------------------------------------
// What each generator kind may produce.
// ---------------------------------------------------------------------

/// Midnight of 2020-01-01 UTC: the default start of a datetime range.
pub const DEFAULT_START_TS: i64 = 1_577_836_800;

/// The last second of 2024-01-01 UTC: the default end of a datetime
/// range.
pub const DEFAULT_END_TS: i64 = 1_704_153_599;

/// The widest day timestamps the engine accepts from a parsed date;
/// beyond them (far outside any practical schema) the defaults apply.
pub const MIN_DAY_TS: i64 = -8_000_000_000_000;

pub const MAX_DAY_TS: i64 = 7_999_999_913_600;

/// The effective start instant of a datetime range: the parsed `start`
/// date's midnight, or the default when the parameter is absent,
/// unparseable, or out of range.
pub open spec fn eff_start(ps: Seq<(Seq<char>, ValSpec)>) -> int {
    match param_str_spec(ps, "start"@) {
        Some(s) => match day_ts(s) {
            Some(t) => if MIN_DAY_TS <= t && t <= MAX_DAY_TS {
                t as int
            } else {
                DEFAULT_START_TS as int
            },
            None => DEFAULT_START_TS as int,
        },
        None => DEFAULT_START_TS as int,
    }
}

/// The effective end instant: the parsed `end` date's last second, or
/// the default.
pub open spec fn eff_end(ps: Seq<(Seq<char>, ValSpec)>) -> int {
    match param_str_spec(ps, "end"@) {
        Some(s) => match day_ts(s) {
            Some(t) => if MIN_DAY_TS <= t && t <= MAX_DAY_TS {
                t + 86399
            } else {
                DEFAULT_END_TS as int
            },
            None => DEFAULT_END_TS as int,
        },
        None => DEFAULT_END_TS as int,
    }
}

/// The error a field evaluation raises, if any.  Errors depend only on
/// the template and the pools, never on random draws: an unknown kind, a
/// missing required parameter, a missing or empty data pool, or a
/// missing parent-key pool.
pub open spec fn field_err(
    f: FieldV,
    pools: Seq<(Seq<char>, Seq<ValSpec>)>,
    pks: Seq<(Seq<char>, Seq<ValSpec>)>,
) -> Option<ErrV> {
    if f.generator == "pk_hash"@ || f.generator == "words"@ || f.generator == "sentence"@
        || f.generator == "number_range"@ || f.generator == "boolean"@
        || f.generator == "datetime_range"@ {
        None
    } else if f.generator == "from_pool"@ {
        match param_str_spec(f.params, "pool_name"@) {
            None => Some(ErrV::InvalidTemplate("pool_name"@)),
            Some(p) => match pools_find(pools, p) {
                None => Some(ErrV::PoolNotFound(p)),
                Some(vs) => if vs.len() == 0 {
                    Some(ErrV::PoolNotFound(p))
                } else {
                    None
                },
            },
        }
    } else if f.generator == "template"@ {
        if param_str_spec(f.params, "format"@) is None {
            Some(ErrV::InvalidTemplate("format"@))
        } else {
            None
        }
    } else if f.generator == "fk"@ {
        match param_str_spec(f.params, "references"@) {
            None => Some(ErrV::InvalidTemplate("references"@)),
            Some(t) => if pools_find(pks, t) is None {
                Some(ErrV::DependencyNotFound(t))
            } else {
                None
            },
        }
    } else {
        Some(ErrV::UnknownGenerator(f.generator))
    }
}

/// Words joined by single spaces.
pub open spec fn join_spaces(ws: Seq<Seq<char>>) -> Seq<char>
    decreases ws.len(),
{
    if ws.len() == 0 {
        Seq::<char>::empty()
    } else if ws.len() == 1 {
        ws[0]
    } else {
        join_spaces(ws.drop_last()) + seq![' '] + ws.last()
    }
}

/// Word-count parameters are clamped to a million.
pub open spec fn clamp_count(x: int) -> int {
    if x > 1_000_000 {
        1_000_000
    } else {
        x
    }
}

pub open spec fn ws_view(s: Seq<String>) -> Seq<Seq<char>> {
    s.map_values(|w: String| w@)
}

/// What a non-erroring field may evaluate to, given the row generated
/// so far: the defining contract of each generator kind, for every
/// random outcome.
pub open spec fn field_val_ok(
    f: FieldV,
    pools: Seq<(Seq<char>, Seq<ValSpec>)>,
    pks: Seq<(Seq<char>, Seq<ValSpec>)>,
    row: Seq<(Seq<char>, ValSpec)>,
    v: ValSpec,
) -> bool {
    let ps = f.params;
    if f.generator == "pk_hash"@ {
        let len = param_u64_spec(ps, "length"@, 20);
        let elen = if len > usize::MAX as int {
            usize::MAX as int
        } else {
            len
        };
        v matches ValSpec::Str(s) && s.len() == elen && (forall|i: int|
            0 <= i < s.len() ==> is_alnum_char(#[trigger] s[i]))
    } else if f.generator == "from_pool"@ {
        match param_str_spec(ps, "pool_name"@) {
            Some(p) => match pools_find(pools, p) {
                Some(vs) => exists|i: int| 0 <= i < vs.len() && v == #[trigger] vs[i],
                None => false,
            },
            None => false,
        }
    } else if f.generator == "template"@ {
        match param_str_spec(ps, "format"@) {
            Some(fmt) => exists|k: int|
                1000 <= k <= 9998 && v == ValSpec::Str(#[trigger] render(fmt, row, int_str(k))),
            None => false,
        }
    } else if f.generator == "fk"@ {
        match param_str_spec(ps, "references"@) {
            Some(t) => match pools_find(pks, t) {
                Some(vs) => if vs.len() == 0 {
                    v is Null
                } else {
                    exists|i: int| 0 <= i < vs.len() && v == #[trigger] vs[i]
                },
                None => false,
            },
            None => false,
        }
    } else if f.generator == "words"@ {
        let lo = clamp_count(param_u64_spec(ps, "min"@, 2));
        let hi = clamp_count(param_u64_spec(ps, "max"@, 5));
        exists|ws: Seq<Seq<char>>|
            (if lo < hi {
                lo <= ws.len() < hi
            } else {
                ws.len() == lo
            }) && (forall|i: int| 0 <= i < ws.len() ==> (#[trigger] ws[i]).len() > 0)
                && v == ValSpec::Str(#[trigger] join_spaces(ws))
    } else if f.generator == "sentence"@ {
        v matches ValSpec::Str(s) && s.len() > 0 && s.last() == '.'
    } else if f.generator == "number_range"@ {
        let lo = param_i64_spec(ps, "min"@, 0);
        let hi = param_i64_spec(ps, "max"@, 100);
        if lo <= hi {
            v matches ValSpec::Int(k) && lo <= k <= hi
        } else {
            v == ValSpec::Int(lo)
        }
    } else if f.generator == "boolean"@ {
        let ppm = chance_ppm_spec(ps, "true_chance"@);
        v matches ValSpec::Bool(b) && (ppm <= 0 ==> b == false) && (ppm >= 1_000_000 ==> b
            == true)
    } else if f.generator == "datetime_range"@ {
        let sts = eff_start(ps);
        let ets = eff_end(ps);
        if sts >= ets {
            v == ValSpec::Str(rfc3339_of(sts as i64))
        } else {
            exists|t: i64| sts <= t <= ets && v == ValSpec::Str(#[trigger] rfc3339_of(t))
        }
    } else {
        false
    }
}

/// How one field's value lands in the row: a null is skipped, anything
/// else is recorded under the column, replacing an earlier value of the
/// same column and leaving every other column untouched.
pub open spec fn row_step(
    r0: Seq<(Seq<char>, ValSpec)>,
    col: Seq<char>,
    v: ValSpec,
    r1: Seq<(Seq<char>, ValSpec)>,
) -> bool {
    if v is Null {
        r1 == r0
    } else {
        &&& row_find(r1, col) == Some(v)
        &&& forall|k2: Seq<char>| k2 != col ==> #[trigger] row_find(r1, k2) == row_find(r0, k2)
        &&& r1.len() == if row_find(r0, col) is Some {
            r0.len() as int
        } else {
            r0.len() + 1int
        }
        &&& forall|i: int| 0 <= i < r0.len() ==> (#[trigger] r1[i]).0 == r0[i].0
        &&& (row_find(r0, col) is None ==> r1[r1.len() - 1].0 == col)
    }
}

/// The evaluation relation of a field list: each field in order raises
/// no error, produces an admissible value for the row built so far, and
/// steps the row.
pub open spec fn gen_ok(
    fs: Seq<FieldV>,
    pools: Seq<(Seq<char>, Seq<ValSpec>)>,
    pks: Seq<(Seq<char>, Seq<ValSpec>)>,
    r0: Seq<(Seq<char>, ValSpec)>,
    r1: Seq<(Seq<char>, ValSpec)>,
) -> bool
    decreases fs.len(),
{
    if fs.len() == 0 {
        r1 == r0
    } else {
        &&& field_err(fs[0], pools, pks) is None
        &&& exists|v: ValSpec, rm: Seq<(Seq<char>, ValSpec)>|
            field_val_ok(fs[0], pools, pks, r0, v) && #[trigger] row_step(
                r0,
                fs[0].column_name,
                v,
                rm,
            ) && gen_ok(fs.skip(1), pools, pks, rm, r1)
    }
}

proof fn lemma_gen_ok_append(
    fs: Seq<FieldV>,
    f: FieldV,
    pools: Seq<(Seq<char>, Seq<ValSpec>)>,
    pks: Seq<(Seq<char>, Seq<ValSpec>)>,
    r0: Seq<(Seq<char>, ValSpec)>,
    r1: Seq<(Seq<char>, ValSpec)>,
    v: ValSpec,
    r2: Seq<(Seq<char>, ValSpec)>,
)
    requires
        gen_ok(fs, pools, pks, r0, r1),
        field_err(f, pools, pks) is None,
        field_val_ok(f, pools, pks, r1, v),
        row_step(r1, f.column_name, v, r2),
    ensures
        gen_ok(fs.push(f), pools, pks, r0, r2),
    decreases fs.len(),
{
    let t = fs.push(f);
    if fs.len() == 0 {
        assert(t[0] == f);
        assert(r1 == r0);
        assert(t.skip(1) =~= Seq::<FieldV>::empty());
        assert(gen_ok(t.skip(1), pools, pks, r2, r2));
        assert(field_val_ok(t[0], pools, pks, r0, v) && row_step(r0, t[0].column_name, v, r2)
            && gen_ok(t.skip(1), pools, pks, r2, r2));
    } else {
        assert(t[0] == fs[0]);
        let (v0, rm) = choose|v0: ValSpec, rm: Seq<(Seq<char>, ValSpec)>|
            field_val_ok(fs[0], pools, pks, r0, v0) && #[trigger] row_step(
                r0,
                fs[0].column_name,
                v0,
                rm,
            ) && gen_ok(fs.skip(1), pools, pks, rm, r1);
        lemma_gen_ok_append(fs.skip(1), f, pools, pks, rm, r1, v, r2);
        assert(t.skip(1) =~= fs.skip(1).push(f));
        assert(field_val_ok(t[0], pools, pks, r0, v0) && row_step(r0, t[0].column_name, v0, rm)
            && gen_ok(t.skip(1), pools, pks, rm, r2));
    }
}

/// Join words with single spaces.
fn join_with_spaces(ws: &Vec<String>) -> (r: String)
    ensures
        r@ == join_spaces(ws_view(ws@)),
{
    let ghost wv = ws_view(ws@);
    let mut out: Vec<char> = Vec::new();
    let n = ws.len();
    proof {
        assert(wv.take(0) =~= Seq::<Seq<char>>::empty());
    }
    let mut i: usize = 0;
    while i < n
        invariant
            i <= n,
            n == ws@.len(),
            wv == ws_view(ws@),
            out@ == join_spaces(wv.take(i as int)),
        decreases n - i,
    {
        proof {
            assert(wv.take(i as int + 1).drop_last() =~= wv.take(i as int));
            assert(wv.take(i as int + 1).last() == wv[i as int]);
            assert(wv[i as int] == ws@[i as int]@);
        }
        if i > 0 {
            out.push(' ');
        }
        push_str_chars(&mut out, ws[i].as_str());
        proof {
            if i == 0 {
                assert(out@ =~= wv[0]);
                assert(join_spaces(wv.take(1)) == wv.take(1)[0]);
            } else {
                assert(out@ =~= join_spaces(wv.take(i as int)) + seq![' '] + wv[i as int]);
            }
        }
        i += 1;
    }
    proof {
        assert(wv.take(n as int) =~= wv);
    }
    chars_to_string(&out)
}

// ---------------------------------------------------------------------
// The engine.
// ---------------------------------------------------------------------

/// Evaluates field templates into rows.
pub struct EntityGenerator {}

impl EntityGenerator {
    pub fn new() -> (r: EntityGenerator) {
        EntityGenerator {  }
    }

    /// Evaluate the field templates in declared order into one row.
    /// On success the row stands in the evaluation relation `gen_ok`
    /// to the templates; on failure the error is exactly the first
    /// field's error under `field_err`, with every earlier field
    /// evaluating cleanly.
    pub fn generate_entity(
        &self,
        fields: &Vec<FieldTemplate>,
        pools: &Pools,
        all_pks: &Pools,
    ) -> (r: Result<Row, SeedError>)
        ensures
            match r {
                Ok(row) => row.wf() && gen_ok(
                    fields_view(fields@),
                    pools@,
                    all_pks@,
                    Seq::<(Seq<char>, ValSpec)>::empty(),
                    row@,
                ),
                Err(e) => exists|i: int, rm: Seq<(Seq<char>, ValSpec)>|
                    0 <= i < fields@.len() && #[trigger] gen_ok(
                        fields_view(fields@).take(i),
                        pools@,
                        all_pks@,
                        Seq::<(Seq<char>, ValSpec)>::empty(),
                        rm,
                    ) && field_err(fields_view(fields@)[i], pools@, all_pks@) == Some(e@),
            },
    {
        let ghost fv = fields_view(fields@);
        let ghost empty_row = Seq::<(Seq<char>, ValSpec)>::empty();
        let mut row = Row::new();
        let n = fields.len();
        proof {
            assert(fv.take(0) =~= Seq::<FieldV>::empty());
        }
        let mut idx: usize = 0;
        while idx < n
            invariant
                idx <= n,
                n == fields@.len(),
                fv == fields_view(fields@),
                fv.len() == n,
                empty_row == Seq::<(Seq<char>, ValSpec)>::empty(),
                row.wf(),
                gen_ok(fv.take(idx as int), pools@, all_pks@, empty_row, row@),
            decreases n - idx,
        {
            let field = &fields[idx];
            proof {
                assert(fv[idx as int] == field@);
                lemma_tags_distinct();
            }
            let value: Value = if field.generator == String::from_str("pk_hash") {
                let len64 = param_u64(&field.params, &String::from_str("length"), 20);
                let elen: usize = if len64 > usize::MAX as u64 {
                    usize::MAX
                } else {
                    len64 as usize
                };
                let v = Value::Str(random_alphanumeric(elen));
                proof {
                    assert(field_val_ok(fv[idx as int], pools@, all_pks@, row@, v@));
                }
                v
            } else if field.generator == String::from_str("from_pool") {
                let pool_name = match param_str(&field.params, &String::from_str("pool_name")) {
                    Some(p) => p,
                    None => {
                        let e = SeedError::InvalidTemplate(String::from_str("pool_name"));
                        proof {
                            assert(field_err(fv[idx as int], pools@, all_pks@) == Some(e@));
                        }
                        return Err(e);
                    },
                };
                match pools.get(pool_name) {
                    Some(vs) => {
                        if vs.len() == 0 {
                            let e = SeedError::PoolNotFound(pool_name.clone());
                            proof {
                                assert(field_err(fv[idx as int], pools@, all_pks@) == Some(e@));
                            }
                            return Err(e);
                        }
                        let i = random_below(vs.len());
                        let v = vs[i].duplicate();
                        proof {
                            assert(v@ == crate::rows::pool_view(vs@)[i as int]);
                            assert(field_err(fv[idx as int], pools@, all_pks@) is None);
                            assert(field_val_ok(fv[idx as int], pools@, all_pks@, row@, v@));
                        }
                        v
                    },
                    None => {
                        let e = SeedError::PoolNotFound(pool_name.clone());
                        proof {
                            assert(field_err(fv[idx as int], pools@, all_pks@) == Some(e@));
                        }
                        return Err(e);
                    },
                }
            } else if field.generator == String::from_str("template") {
                let fmt = match param_str(&field.params, &String::from_str("format")) {
                    Some(f) => f,
                    None => {
                        let e = SeedError::InvalidTemplate(String::from_str("format"));
                        proof {
                            assert(field_err(fv[idx as int], pools@, all_pks@) == Some(e@));
                        }
                        return Err(e);
                    },
                };
                let k = random_between(1000, 9998);
                let digits = int_to_string(k);
                let s = render_template(fmt.as_str(), &row, &digits);
                let v = Value::Str(s);
                proof {
                    assert(v@ == ValSpec::Str(render(fmt@, row@, int_str(k as int))));
                    assert(1000 <= k as int <= 9998);
                    assert(exists|kk: int|
                        1000 <= kk <= 9998 && v@ == ValSpec::Str(
                            #[trigger] render(fmt@, row@, int_str(kk))));
                    assert(param_str_spec(params_view(field.params@), "format"@) == Some(fmt@));
                    assert(param_str_spec(fv[idx as int].params, "format"@)->Some_0 == fmt@);
                    assert(exists|kk: int|
                        1000 <= kk <= 9998 && v@ == ValSpec::Str(
                            #[trigger] render(
                                param_str_spec(fv[idx as int].params, "format"@)->Some_0,
                                row@,
                                int_str(kk))));
                    assert(field_val_ok(fv[idx as int], pools@, all_pks@, row@, v@));
                }
                v
            } else if field.generator == String::from_str("fk") {
                let parent = match param_str(&field.params, &String::from_str("references")) {
                    Some(t) => t,
                    None => {
                        let e = SeedError::InvalidTemplate(String::from_str("references"));
                        proof {
                            assert(field_err(fv[idx as int], pools@, all_pks@) == Some(e@));
                        }
                        return Err(e);
                    },
                };
                match all_pks.get(parent) {
                    Some(vs) => {
                        if vs.len() == 0 {
                            let v = Value::Null;
                            proof {
                                assert(field_val_ok(fv[idx as int], pools@, all_pks@, row@, v@));
                            }
                            v
                        } else {
                            let i = random_below(vs.len());
                            let v = vs[i].duplicate();
                            proof {
                                assert(v@ == crate::rows::pool_view(vs@)[i as int]);
                                assert(field_val_ok(fv[idx as int], pools@, all_pks@, row@, v@));
                            }
                            v
                        }
                    },
                    None => {
                        let e = SeedError::DependencyNotFound(parent.clone());
                        proof {
                            assert(field_err(fv[idx as int], pools@, all_pks@) == Some(e@));
                        }
                        return Err(e);
                    },
                }
            } else if field.generator == String::from_str("words") {
                let lo64 = param_u64(&field.params, &String::from_str("min"), 2);
                let hi64 = param_u64(&field.params, &String::from_str("max"), 5);
                let lo: usize = if lo64 > 1_000_000 {
                    1_000_000
                } else {
                    lo64 as usize
                };
                let hi: usize = if hi64 > 1_000_000 {
                    1_000_000
                } else {
                    hi64 as usize
                };
                let ws = if lo < hi {
                    lorem_words(lo, hi)
                } else {
                    lorem_words(lo, lo + 1)
                };
                let joined = join_with_spaces(&ws);
                let v = Value::Str(joined);
                proof {
                    assert(forall|i: int| 0 <= i < ws@.len()
                        ==> (#[trigger] ws_view(ws@)[i]).len() > 0);
                    assert(ws_view(ws@).len() == ws@.len());
                    assert(v@ == ValSpec::Str(join_spaces(ws_view(ws@))));
                    assert(field_val_ok(fv[idx as int], pools@, all_pks@, row@, v@));
                }
                v
            } else if field.generator == String::from_str("sentence") {
                let lo64 = param_u64(&field.params, &String::from_str("min"), 5);
                let hi64 = param_u64(&field.params, &String::from_str("max"), 10);
                let lo: usize = if lo64 > 1_000_000 {
                    1_000_000
                } else {
                    lo64 as usize
                };
                let hi: usize = if hi64 > 1_000_000 {
                    1_000_000
                } else {
                    hi64 as usize
                };
                let s = if lo < hi {
                    lorem_sentence(lo, hi)
                } else {
                    lorem_sentence(lo, lo + 1)
                };
                let v = Value::Str(s);
                proof {
                    assert(field_val_ok(fv[idx as int], pools@, all_pks@, row@, v@));
                }
                v
            } else if field.generator == String::from_str("number_range") {
                let lo = param_i64(&field.params, &String::from_str("min"), 0);
                let hi = param_i64(&field.params, &String::from_str("max"), 100);
                let k = if lo <= hi {
                    random_between(lo, hi)
                } else {
                    lo
                };
                let v = Value::Int(k);
                proof {
                    assert(field_val_ok(fv[idx as int], pools@, all_pks@, row@, v@));
                }
                v
            } else if field.generator == String::from_str("boolean") {
                let ppm = chance_ppm(&field.params, &String::from_str("true_chance"));
                let draw = random_below(1_000_000);
                let v = Value::Bool(draw < ppm as usize);
                proof {
                    assert(field_val_ok(fv[idx as int], pools@, all_pks@, row@, v@));
                }
                v
            } else if field.generator == String::from_str("datetime_range") {
                let sts: i64 = match param_str(&field.params, &String::from_str("start")) {
                    Some(s) => match parse_day_start(s.as_str()) {
                        Some(t) => if MIN_DAY_TS <= t && t <= MAX_DAY_TS {
                            t
                        } else {
                            DEFAULT_START_TS
                        },
                        None => DEFAULT_START_TS,
                    },
                    None => DEFAULT_START_TS,
                };
                let ets: i64 = match param_str(&field.params, &String::from_str("end")) {
                    Some(s) => match parse_day_start(s.as_str()) {
                        Some(t) => if MIN_DAY_TS <= t && t <= MAX_DAY_TS {
                            t + 86399
                        } else {
                            DEFAULT_END_TS
                        },
                        None => DEFAULT_END_TS,
                    },
                    None => DEFAULT_END_TS,
                };
                if sts >= ets {
                    let v = Value::Str(format_rfc3339(sts));
                    proof {
                        assert(field_val_ok(fv[idx as int], pools@, all_pks@, row@, v@));
                    }
                    v
                } else {
                    let t = random_between(sts, ets);
                    let v = Value::Str(format_rfc3339(t));
                    proof {
                        assert(v@ == ValSpec::Str(rfc3339_of(t)));
                        assert(field_val_ok(fv[idx as int], pools@, all_pks@, row@, v@));
                    }
                    v
                }
            } else {
                let e = SeedError::UnknownGenerator(field.generator.clone());
                proof {
                    assert(field_err(fv[idx as int], pools@, all_pks@) == Some(e@));
                }
                return Err(e);
            };
            proof {
                assert(field_err(fv[idx as int], pools@, all_pks@) is None);
                assert(field_val_ok(fv[idx as int], pools@, all_pks@, row@, value@));
            }
            let ghost oldrow = row@;
            if !value.is_null() {
                row.set(field.column_name.clone(), value);
            }
            proof {
                assert(row_step(oldrow, fv[idx as int].column_name, value@, row@));
                lemma_gen_ok_append(
                    fv.take(idx as int),
                    fv[idx as int],
                    pools@,
                    all_pks@,
                    empty_row,
                    oldrow,
                    value@,
                    row@,
                );
                assert(fv.take(idx as int).push(fv[idx as int]) =~= fv.take(idx as int + 1));
            }
            idx += 1;
        }
        proof {
            assert(fv.take(n as int) =~= fv);
        }
        Ok(row)
    }
}

/// With a certain chance the draw is always true; with an impossible
/// one, always false — whatever the random draw was.
pub proof fn lemma_boolean_chance_extremes(
    f: FieldV,
    pools: Seq<(Seq<char>, Seq<ValSpec>)>,
    pks: Seq<(Seq<char>, Seq<ValSpec>)>,
    row: Seq<(Seq<char>, ValSpec)>,
    v: ValSpec,
)
    requires
        f.generator == "boolean"@,
        field_val_ok(f, pools, pks, row, v),
    ensures
        chance_ppm_spec(f.params, "true_chance"@) >= 1_000_000 ==> v == ValSpec::Bool(true),
        chance_ppm_spec(f.params, "true_chance"@) <= 0 ==> v == ValSpec::Bool(false),
{
    lemma_tags_distinct();
}

/// A degenerate numeric range (min equal to max) pins the value to
/// exactly that bound.
pub proof fn lemma_number_range_degenerate(
    f: FieldV,
    pools: Seq<(Seq<char>, Seq<ValSpec>)>,
    pks: Seq<(Seq<char>, Seq<ValSpec>)>,
    row: Seq<(Seq<char>, ValSpec)>,
    v: ValSpec,
)
    requires
        f.generator == "number_range"@,
        field_val_ok(f, pools, pks, row, v),
        param_i64_spec(f.params, "min"@, 0) == param_i64_spec(f.params, "max"@, 100),
    ensures
        v == ValSpec::Int(param_i64_spec(f.params, "min"@, 0)),
{
    lemma_tags_distinct();
}

/// An `fk` value, when not null, is always an element of the referenced
/// table's primary-key pool.
pub proof fn lemma_fk_value_in_pool(
    f: FieldV,
    pools: Seq<(Seq<char>, Seq<ValSpec>)>,
    pks: Seq<(Seq<char>, Seq<ValSpec>)>,
    row: Seq<(Seq<char>, ValSpec)>,
    v: ValSpec,
    t: Seq<char>,
)
    requires
        f.generator == "fk"@,
        param_str_spec(f.params, "references"@) == Some(t),
        field_val_ok(f, pools, pks, row, v),
        !(v is Null),
    ensures
        pools_find(pks, t) matches Some(vs) && exists|i: int| 0 <= i < vs.len() && v == vs[i],
{
    lemma_tags_distinct();
}


} // verus!
