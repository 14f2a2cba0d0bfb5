//! The `template` generator's substitution language.
//!
//! A format string is scanned left to right.  `{name}` is replaced by
//! the row's already-generated value for that column, stringified, when
//! that text is non-empty; the token `{random_digits:4}` is replaced by
//! a four-digit random numeral drawn once per row; any other brace
//! stands for itself.  Substituted text is not rescanned.

use vstd::prelude::*;
use crate::rows::{Row, row_find};
use crate::value::{ValSpec, chars_to_string, value_text, value_text_spec};

verus! {

/// The index of the first closing brace, if any.
pub open spec fn close_idx(s: Seq<char>) -> Option<int>
    decreases s.len(),
{
    if s.len() == 0 {
        None
    } else if s[0] == '}' {
        Some(0int)
    } else {
        match close_idx(s.skip(1)) {
            Some(j) => Some(j + 1),
            None => None,
        }
    }
}

proof fn lemma_close_idx_found(s: Seq<char>, m: int)
    requires
        0 <= m < s.len(),
        s[m] == '}',
        forall|l: int| 0 <= l < m ==> s[l] != '}',
    ensures
        close_idx(s) == Some(m),
    decreases m,
{
    if m > 0 {
        assert(forall|l: int| 0 <= l < s.skip(1).len() ==> s.skip(1)[l] == s[l + 1]);
        lemma_close_idx_found(s.skip(1), m - 1);
    }
}

proof fn lemma_close_idx_none(s: Seq<char>)
    requires
        forall|l: int| 0 <= l < s.len() ==> s[l] != '}',
    ensures
        close_idx(s) is None,
    decreases s.len(),
{
    if s.len() > 0 {
        assert(forall|l: int| 0 <= l < s.skip(1).len() ==> s.skip(1)[l] == s[l + 1]);
        lemma_close_idx_none(s.skip(1));
    }
}

/// What a placeholder key is replaced with, if anything: the row's
/// non-empty stringified value first, then the random-digits token.
pub open spec fn subst(
    key: Seq<char>,
    row: Seq<(Seq<char>, ValSpec)>,
    digits: Seq<char>,
) -> Option<Seq<char>> {
    match row_find(row, key) {
        Some(v) => if value_text_spec(v).len() > 0 {
            Some(value_text_spec(v))
        } else {
            subst_token(key, digits)
        },
        None => subst_token(key, digits),
    }
}

pub open spec fn subst_token(key: Seq<char>, digits: Seq<char>) -> Option<Seq<char>> {
    if key == "random_digits:4"@ {
        Some(digits)
    } else {
        None
    }
}

/// The rendering of a format string against a row: the defining spec of
/// the `template` generator.
pub open spec fn render(
    fmt: Seq<char>,
    row: Seq<(Seq<char>, ValSpec)>,
    digits: Seq<char>,
) -> Seq<char>
    decreases fmt.len(),
{
    if fmt.len() == 0 {
        Seq::<char>::empty()
    } else if fmt[0] == '{' {
        match close_idx(fmt.skip(1)) {
            Some(j) => if 0 <= j && j + 2 <= fmt.len() {
                let key = fmt.subrange(1, j + 1);
                match subst(key, row, digits) {
                    Some(t) => t + render(fmt.skip(j + 2), row, digits),
                    None => seq!['{'] + render(fmt.skip(1), row, digits),
                }
            } else {
                seq!['{'] + render(fmt.skip(1), row, digits)
            },
            None => seq!['{'] + render(fmt.skip(1), row, digits),
        }
    } else {
        seq![fmt[0]] + render(fmt.skip(1), row, digits)
    }
}

/// Append a string's characters.
pub(crate) fn push_str_chars(out: &mut Vec<char>, s: &str)
    ensures
        final(out)@ == old(out)@ + s@,
{
    let n = s.unicode_len();
    let mut l: usize = 0;
    while l < n
        invariant
            l <= n,
            n == s@.len(),
            out@ == old(out)@ + s@.subrange(0, l as int),
        decreases n - l,
    {
        out.push(s.get_char(l));
        l += 1;
        proof {
            assert(out@ =~= old(out)@ + s@.subrange(0, l as int));
        }
    }
    proof {
        assert(s@.subrange(0, n as int) =~= s@);
    }
}

/// Render a format string against the row generated so far.  `digits`
/// is the numeral that stands in for the random-digits token.
pub fn render_template(fmt: &str, row: &Row, digits: &String) -> (r: String)
    ensures
        r@ == render(fmt@, row@, digits@),
{
    let n = fmt.unicode_len();
    let mut out: Vec<char> = Vec::new();
    proof {
        assert(fmt@.skip(0) =~= fmt@);
    }
    let mut i: usize = 0;
    while i < n
        invariant
            i <= n,
            n == fmt@.len(),
            out@ + render(fmt@.skip(i as int), row@, digits@) == render(fmt@, row@, digits@),
        decreases n - i,
    {
        let ghost frest = fmt@.skip(i as int);
        proof {
            assert(frest[0] == fmt@[i as int]);
            assert(frest.skip(1) =~= fmt@.skip(i as int + 1));
        }
        let c = fmt.get_char(i);
        if c == '{' {
            // find the next closing brace
            let mut j = i + 1;
            while j < n
                invariant_except_break
                    i + 1 <= j <= n,
                    n == fmt@.len(),
                    forall|l: int| i + 1 <= l < j ==> fmt@[l] != '}',
                ensures
                    i + 1 <= j <= n,
                    n == fmt@.len(),
                    forall|l: int| i + 1 <= l < j ==> fmt@[l] != '}',
                    j < n ==> fmt@[j as int] == '}',
                decreases n - j,
            {
                if fmt.get_char(j) == '}' {
                    break;
                }
                j += 1;
            }
            if j < n {
                proof {
                    assert(forall|l: int| 0 <= l < frest.skip(1).len()
                        ==> frest.skip(1)[l] == fmt@[l + i + 1]);
                    lemma_close_idx_found(frest.skip(1), j - i - 1);
                    assert(close_idx(frest.skip(1)) == Some(j - i - 1));
                }
                // collect the key between the braces
                let mut key_chars: Vec<char> = Vec::new();
                let mut l = i + 1;
                while l < j
                    invariant
                        i + 1 <= l <= j,
                        j < n,
                        n == fmt@.len(),
                        key_chars@ == fmt@.subrange(i as int + 1, l as int),
                    decreases j - l,
                {
                    key_chars.push(fmt.get_char(l));
                    l += 1;
                    proof {
                        assert(key_chars@ =~= fmt@.subrange(i as int + 1, l as int));
                    }
                }
                let key = chars_to_string(&key_chars);
                proof {
                    assert(key@ == fmt@.subrange(i as int + 1, j as int));
                    assert(frest.subrange(1, (j - i - 1) + 1) =~= fmt@.subrange(
                        i as int + 1, j as int));
                }
                // what, if anything, replaces this placeholder
                let rep: Option<String> = match row.get(&key) {
                    Some(v) => {
                        let s = value_text(v);
                        if !s.as_str().is_empty() {
                            Some(s)
                        } else {
                            if key == String::from_str("random_digits:4") {
                                Some(digits.clone())
                            } else {
                                None
                            }
                        }
                    },
                    None => {
                        if key == String::from_str("random_digits:4") {
                            Some(digits.clone())
                        } else {
                            None
                        }
                    },
                };
                match rep {
                    Some(t) => {
                        proof {
                            assert(subst(key@, row@, digits@) == Some(t@));
                            assert(frest.skip((j - i - 1) + 2) =~= fmt@.skip(j as int + 1));
                        }
                        push_str_chars(&mut out, t.as_str());
                        i = j + 1;
                        proof {
                            assert(out@ + render(fmt@.skip(i as int), row@, digits@)
                                == render(fmt@, row@, digits@));
                        }
                    },
                    None => {
                        proof {
                            assert(subst(key@, row@, digits@) is None);
                        }
                        out.push('{');
                        i += 1;
                        proof {
                            assert(out@ =~= (out@.drop_last()).push('{'));
                            assert(out@.drop_last() + (seq!['{']
                                + render(fmt@.skip(i as int), row@, digits@))
                                == render(fmt@, row@, digits@));
                            assert(out@ + render(fmt@.skip(i as int), row@, digits@)
                                =~= out@.drop_last() + (seq!['{']
                                    + render(fmt@.skip(i as int), row@, digits@)));
                        }
                    },
                }
            } else {
                proof {
                    assert(forall|l: int| 0 <= l < frest.skip(1).len()
                        ==> frest.skip(1)[l] == fmt@[l + i + 1]);
                    lemma_close_idx_none(frest.skip(1));
                }
                out.push('{');
                i += 1;
                proof {
                    assert(out@ + render(fmt@.skip(i as int), row@, digits@)
                        =~= out@.drop_last() + (seq!['{']
                            + render(fmt@.skip(i as int), row@, digits@)));
                }
            }
        } else {
            out.push(c);
            i += 1;
            proof {
                assert(out@ + render(fmt@.skip(i as int), row@, digits@)
                    =~= out@.drop_last() + (seq![c]
                        + render(fmt@.skip(i as int), row@, digits@)));
            }
        }
    }
    proof {
        assert(fmt@.skip(n as int).len() == 0);
        assert(out@ + render(fmt@.skip(n as int), row@, digits@) =~= out@);
    }
    chars_to_string(&out)
}

} // verus!
