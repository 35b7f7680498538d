//! One invocation of the tool: an action, a key, and the optional value and
//! index, mapped to one operation on the document and one outcome to report.

use crate::codec::lemma_char_bounds;
use crate::store::{get_spec, put_spec, str_eq, Document};
use vstd::prelude::*;
use vstd::string::*;

verus! {

/// What one invocation does and what it reports. Only `Updated` changes the
/// document (and therefore the backing file).
pub enum Outcome {
    /// The action or the key was missing: a usage error.
    MissingFields,
    /// An unknown action string: a usage error naming it.
    InvalidAction(String),
    /// A get for a key that is not in the document.
    NoKeyFound,
    /// A get without an index: every value under the key, in order.
    AllValues(Vec<String>),
    /// A get with a valid index: the one value there.
    ValueAt(String),
    /// A get with an index at or past the end of the key's values.
    IndexOutOfBounds,
    /// A get whose index does not read as a non-negative integer.
    InvalidIndex,
    /// A put with an empty value, which is rejected.
    ValueEmpty,
    /// The declared but unimplemented delete action.
    DeleteNotImplemented,
    /// A put that went through; the document must be saved.
    Updated,
}

/// Whether `c` is a decimal digit.
pub open spec fn is_digit(c: char) -> bool {
    0x30 <= (c as int) && (c as int) <= 0x39
}

/// A non-empty run of decimal digits.
pub open spec fn is_digits(s: Seq<char>) -> bool {
    s.len() > 0 && forall|i: int| 0 <= i < s.len() ==> is_digit(s[i])
}

/// The number the digits denote.
pub open spec fn digits_val(s: Seq<char>) -> int
    decreases s.len(),
{
    if s.len() == 0 {
        0
    } else {
        10 * digits_val(s.drop_last()) + (s.last() as int - 0x30)
    }
}

/// How an index argument reads: an optional leading plus sign, then digits,
/// and the value must fit the machine's word.
pub open spec fn index_spec(s: Seq<char>) -> Option<int> {
    let body = if s.len() > 0 && s[0] == '+' {
        s.drop_first()
    } else {
        s
    };
    if is_digits(body) && digits_val(body) <= usize::MAX {
        Some(digits_val(body))
    } else {
        None
    }
}

/// Digits denote a non-negative number.
proof fn lemma_digits_val_nonneg(s: Seq<char>)
    requires
        forall|i: int| 0 <= i < s.len() ==> is_digit(s[i]),
    ensures
        digits_val(s) >= 0,
    decreases s.len(),
{
    if s.len() > 0 {
        lemma_digits_val_nonneg(s.drop_last());
    }
}

/// A prefix of a digit run denotes at most what the whole run denotes.
proof fn lemma_digits_val_mono(s: Seq<char>, k: int)
    requires
        0 <= k <= s.len(),
        forall|i: int| 0 <= i < s.len() ==> is_digit(s[i]),
    ensures
        digits_val(s.take(k)) <= digits_val(s),
    decreases s.len() - k,
{
    if k == s.len() {
        assert(s.take(k) =~= s);
    } else {
        lemma_digits_val_mono(s, k + 1);
        assert(s.take(k + 1).drop_last() =~= s.take(k));
        assert(s.take(k + 1).last() == s[k]);
        assert(forall|i: int| 0 <= i < s.take(k).len() ==> is_digit(#[trigger] s.take(k)[i]));
        lemma_digits_val_nonneg(s.take(k));
        assert(digits_val(s.take(k + 1)) == 10 * digits_val(s.take(k)) + (s[k] as int - 0x30));
    }
}

/// Reads an index argument: `Some` exactly when the text is an optional plus
/// sign followed by digits whose value fits, and then exactly that value.
pub fn parse_index(s: &str) -> (r: Option<usize>)
    ensures
        match r {
            Some(v) => index_spec(s@) == Some(v as int),
            None => index_spec(s@) is None,
        },
{
    let n = s.unicode_len();
    let mut start: usize = 0;
    if n > 0 {
        let c0 = s.get_char(0);
        if c0 == '+' {
            start = 1;
        }
    }
    let ghost body = s@.subrange(start as int, n as int);
    proof {
        if start == 1 {
            assert(body =~= s@.drop_first());
        } else {
            assert(body =~= s@);
        }
    }
    if start >= n {
        return None;
    }
    let mut acc: usize = 0;
    let mut i: usize = start;
    while i < n
        invariant
            start < n,
            start <= i <= n,
            n == s@.len(),
            body == s@.subrange(start as int, n as int),
            body == (if s@.len() > 0 && s@[0] == '+' {
                s@.drop_first()
            } else {
                s@
            }),
            forall|j: int| 0 <= j < i - start ==> is_digit(body[j]),
            acc == digits_val(body.take(i - start)),
        decreases n - i,
    {
        let c = s.get_char(i);
        proof {
            lemma_char_bounds(c);
        }
        let cu = c as u32;
        if cu < 0x30 || cu > 0x39 {
            proof {
                assert(body[i - start] == s@[i as int]);
                assert(!is_digit(body[i - start]));
            }
            return None;
        }
        let d = (cu - 0x30) as usize;
        let next = match acc.checked_mul(10) {
            Some(m) => m.checked_add(d),
            None => None,
        };
        match next {
            Some(a2) => {
                proof {
                    assert(body.take(i + 1 - start).drop_last() =~= body.take(i - start));
                    assert(body.take(i + 1 - start).last() == body[i - start]);
                    assert(body[i - start] == s@[i as int]);
                }
                acc = a2;
            },
            None => {
                // the digits seen so far already exceed the machine's word
                proof {
                    assert(body.take(i + 1 - start).drop_last() =~= body.take(i - start));
                    assert(body.take(i + 1 - start).last() == body[i - start]);
                    assert(body[i - start] == s@[i as int]);
                    assert(digits_val(body.take(i + 1 - start)) > usize::MAX);
                    if is_digits(body) {
                        lemma_digits_val_mono(body, i + 1 - start);
                    }
                }
                return None;
            },
        }
        i = i + 1;
    }
    proof {
        assert(body.take(n - start) =~= body);
        assert(is_digits(body));
    }
    Some(acc)
}

/// Copies the values under a key for reporting.
fn clone_values(vs: &Vec<String>) -> (r: Vec<String>)
    ensures
        r.deep_view() == vs.deep_view(),
{
    let n = vs.len();
    let mut r: Vec<String> = Vec::new();
    let mut i: usize = 0;
    while i < n
        invariant
            i <= n,
            n == vs@.len(),
            r@.len() == i,
            forall|j: int| 0 <= j < i ==> r@[j] == vs@[j],
        decreases n - i,
    {
        r.push(vs[i].clone());
        i = i + 1;
    }
    proof {
        assert(r.deep_view() =~= vs.deep_view());
    }
    r
}

/// One invocation: performs the action on the document and says what to
/// report. An argument the caller did not receive is passed as the empty
/// string. The document changes exactly on a successful put, and then to
/// `put_spec` of the old one; every other case leaves it untouched.
pub fn dispatch(doc: &mut Document, action: &str, key: &str, value: &str, index: &str) -> (o:
    Outcome)
    ensures
        final(doc)@ == (if o is Updated {
            put_spec(old(doc)@, key@, value@)
        } else {
            old(doc)@
        }),
        old(doc).inv() ==> final(doc).inv(),
        (o is MissingFields) <==> (action@.len() == 0 || key@.len() == 0),
        action@.len() > 0 && key@.len() > 0 ==> {
            if action@ == "get"@ {
                match get_spec(old(doc)@, key@) {
                    None => o is NoKeyFound,
                    Some(vs) => {
                        if index@.len() == 0 {
                            o matches Outcome::AllValues(out) && out.deep_view() == vs
                        } else {
                            match index_spec(index@) {
                                None => o is InvalidIndex,
                                Some(ix) => if ix < vs.len() {
                                    o matches Outcome::ValueAt(v) && v@ == vs[ix]
                                } else {
                                    o is IndexOutOfBounds
                                },
                            }
                        }
                    },
                }
            } else if action@ == "put"@ {
                if value@.len() == 0 {
                    o is ValueEmpty
                } else {
                    o is Updated
                }
            } else if action@ == "delete"@ {
                o is DeleteNotImplemented
            } else {
                o matches Outcome::InvalidAction(a) && a@ == action@
            }
        },
{
    if action.is_empty() || key.is_empty() {
        return Outcome::MissingFields;
    }
    if str_eq(action, "get") {
        match doc.get(key) {
            None => Outcome::NoKeyFound,
            Some(values) => {
                if index.is_empty() {
                    Outcome::AllValues(clone_values(values))
                } else {
                    match parse_index(index) {
                        None => Outcome::InvalidIndex,
                        Some(ix) => {
                            match Document::get_at(values, ix) {
                                Ok(v) => Outcome::ValueAt(v.clone()),
                                Err(_) => Outcome::IndexOutOfBounds,
                            }
                        },
                    }
                }
            },
        }
    } else if str_eq(action, "put") {
        let ok = doc.put(key, value);
        if ok {
            Outcome::Updated
        } else {
            Outcome::ValueEmpty
        }
    } else if str_eq(action, "delete") {
        Outcome::DeleteNotImplemented
    } else {
        Outcome::InvalidAction(action.to_owned())
    }
}

} // verus!
