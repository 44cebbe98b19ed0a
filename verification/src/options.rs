//! Command-line options and their validators.

use vstd::pervasive::unreached;
use vstd::prelude::*;

verus! {

/// The command-line surface: the path of the input file of transactions,
/// and an optional worker-thread count that must be positive.
pub struct Options {
    pub input_file: String,
    pub num_workers: Option<usize>,
}

/// Every character is a decimal digit.
pub open spec fn all_digits(s: Seq<char>) -> bool {
    forall|i: int| 0 <= i < s.len() ==> '0' <= #[trigger] s[i] <= '9'
}

/// The number denoted by a string of decimal digits, most significant
/// first.
pub open spec fn digits_value(s: Seq<char>) -> int
    decreases s.len(),
{
    if s.len() == 0 {
        0
    } else {
        digits_value(s.drop_last()) * 10 + (s.last() as int - '0' as int)
    }
}

/// The digit part of a numeral: what follows an optional leading plus
/// sign.
pub open spec fn numeral_digits(s: Seq<char>) -> Seq<char> {
    if s.len() > 0 && s[0] == '+' {
        s.drop_first()
    } else {
        s
    }
}

/// A numeral that denotes a `usize`: an optional plus sign, then at
/// least one decimal digit, and a value small enough to fit.
pub open spec fn is_usize_numeral(s: Seq<char>) -> bool {
    &&& numeral_digits(s).len() > 0
    &&& all_digits(numeral_digits(s))
    &&& digits_value(numeral_digits(s)) <= usize::MAX
}

/// A digit string denotes a non-negative number.
proof fn lemma_digits_value_nonneg(s: Seq<char>)
    requires
        all_digits(s),
    ensures
        digits_value(s) >= 0,
    decreases s.len(),
{
    if s.len() > 0 {
        assert(all_digits(s.drop_last())) by {
            assert forall|i: int| 0 <= i < s.len() - 1 implies '0' <= #[trigger] s.drop_last()[i]
                <= '9' by {
                assert(s.drop_last()[i] == s[i]);
            }
        }
        lemma_digits_value_nonneg(s.drop_last());
    }
}

/// Digits only ever increase the denoted value: a digit string denotes
/// at least as much as any of its prefixes.
proof fn lemma_digits_value_prefix(s: Seq<char>, j: int)
    requires
        all_digits(s),
        0 <= j <= s.len(),
    ensures
        digits_value(s) >= digits_value(s.take(j)),
    decreases s.len(),
{
    if j == s.len() {
        assert(s.take(j) =~= s);
    } else {
        assert(all_digits(s.drop_last())) by {
            assert forall|i: int| 0 <= i < s.len() - 1 implies '0' <= #[trigger] s.drop_last()[i]
                <= '9' by {
                assert(s.drop_last()[i] == s[i]);
            }
        }
        lemma_digits_value_prefix(s.drop_last(), j);
        lemma_digits_value_nonneg(s.drop_last());
        assert(s.drop_last().take(j) =~= s.take(j));
    }
}

/// Parse a decimal numeral into a `usize`: accepts exactly an optional
/// plus sign followed by one or more decimal digits whose value fits,
/// and returns exactly that value.
pub fn parse_usize(s: &str) -> (r: Option<usize>)
    ensures
        r is Some <==> is_usize_numeral(s@),
        r matches Some(v) ==> v == digits_value(numeral_digits(s@)),
{
    let len = s.unicode_len();
    let ghost d = numeral_digits(s@);
    let mut i: usize = 0;
    if len > 0 && s.get_char(0) == '+' {
        i = 1;
    }
    let base = i;
    proof {
        assert(d =~= s@.subrange(base as int, len as int));
    }
    if i >= len {
        proof {
            assert(d.len() == 0);
        }
        return None;
    }
    let mut value: usize = 0;
    while i < len
        invariant
            s@.len() == len,
            base <= i <= len,
            base <= 1,
            d == numeral_digits(s@),
            d == s@.subrange(base as int, len as int),
            all_digits(d.take(i - base)),
            value == digits_value(d.take(i - base)),
        decreases len - i,
    {
        let c = s.get_char(i);
        proof {
            assert(d[i - base] == s@[i as int]);
        }
        if c < '0' || c > '9' {
            proof {
                assert(!all_digits(d));
            }
            return None;
        }
        let dv = (c as u32 - '0' as u32) as usize;
        let ghost j = i - base;
        let scaled = match value.checked_mul(10) {
            Some(x) => x,
            None => {
                proof {
                    lemma_step_digits(d, j as int);
                    assert(digits_value(d.take(j as int + 1)) > usize::MAX) by {
                        lemma_digits_value_nonneg(d.take(j as int));
                    }
                    if all_digits(d) {
                        lemma_digits_value_prefix(d, j as int + 1);
                    }
                }
                return None;
            },
        };
        let next = match scaled.checked_add(dv) {
            Some(x) => x,
            None => {
                proof {
                    lemma_step_digits(d, j as int);
                    if all_digits(d) {
                        lemma_digits_value_prefix(d, j as int + 1);
                    }
                }
                return None;
            },
        };
        proof {
            lemma_step_digits(d, j as int);
        }
        value = next;
        i = i + 1;
    }
    proof {
        assert(d.take((len - base) as int) =~= d);
    }
    Some(value)
}

/// Reading one more digit multiplies the prefix value by ten and adds
/// the digit.
proof fn lemma_step_digits(d: Seq<char>, j: int)
    requires
        0 <= j < d.len(),
        all_digits(d.take(j)),
        '0' <= d[j] <= '9',
    ensures
        all_digits(d.take(j + 1)),
        digits_value(d.take(j + 1)) == digits_value(d.take(j)) * 10 + (d[j] as int - '0' as int),
{
    assert forall|i: int| 0 <= i < j + 1 implies '0' <= #[trigger] d.take(j + 1)[i] <= '9' by {
        if i < j {
            assert(d.take(j + 1)[i] == d.take(j)[i]);
        } else {
            assert(d.take(j + 1)[i] == d[j]);
        }
    }
    assert(d.take(j + 1).drop_last() =~= d.take(j));
    assert(d.take(j + 1).last() == d[j]);
}

/// Report what a file-system test found: success exactly when a file
/// was found, and otherwise the message naming the path.
pub fn file_check_result(present: bool, path: String) -> (r: Result<(), String>)
    ensures
        r is Ok <==> present,
        r matches Err(m) ==> m@ == "The specified path '"@ + path@
            + "' is not an accessible file."@,
{
    if present {
        Ok(())
    } else {
        Err(not_a_file_message(&path))
    }
}

/// Check that a path names an existing regular file. The verdict comes
/// from the file system, so nothing can be fixed about when it is `Ok`;
/// whatever the probe found, the reported error is exactly the message
/// naming the path.
pub fn is_file(path: String) -> (r: Result<(), String>)
    ensures
        r matches Err(m) ==> m@ == "The specified path '"@ + path@
            + "' is not an accessible file."@,
{
    let present = path_is_file(&path);
    file_check_result(present, path)
}

/// Check that a worker-count argument is a positive number: it must be a
/// decimal numeral that fits in `usize` and is not zero. The verified
/// [`parse_usize`] makes the accept/reject decision; an unparsable
/// argument is reported with the parse error's own rendered text, a zero
/// with the fixed message.
pub fn is_greater_than_zero(num_workers: String) -> (r: Result<(), String>)
    ensures
        r is Ok <==> is_usize_numeral(num_workers@) && digits_value(
            numeral_digits(num_workers@),
        ) > 0,
        r matches Err(m) ==> (is_usize_numeral(num_workers@) ==> m@
            == "The specified number of workers cannot be 0."@),
{
    match parse_usize(num_workers.as_str()) {
        None => match parse_workers_argument(num_workers.as_str()) {
            Err(m) => Err(m),
            Ok(_) => unreached(),
        },
        Some(0) => Err("The specified number of workers cannot be 0.".to_owned()),
        Some(_) => Ok(()),
    }
}

/// Relies on `std::path::Path::is_file`: whether the path points at an
/// existing regular file. The answer depends on the state of the file
/// system, so nothing is promised of it.
#[verifier::external_body]
fn path_is_file(path: &String) -> bool {
    std::path::Path::new(path.as_str()).is_file()
}

/// Relies on `format!` (std's formatting machinery): the returned
/// message is the quoted path between the two fixed phrases.
#[verifier::external_body]
fn not_a_file_message(path: &String) -> (r: String)
    ensures
        r@ == "The specified path '"@ + path@ + "' is not an accessible file."@,
{
    format!("The specified path '{path}' is not an accessible file.")
}

/// Relies on `str::parse::<usize>` for the error text alone: std
/// rejects anything that is not a decimal numeral denoting a `usize`
/// (an empty string, an invalid digit, a value too large) and renders
/// its own description of why. The accept/reject decision itself is
/// made by the verified [`parse_usize`].
#[verifier::external_body]
fn parse_workers_argument(s: &str) -> (r: Result<usize, String>)
    ensures
        !is_usize_numeral(s@) ==> r is Err,
{
    s.parse::<usize>().map_err(|e| e.to_string())
}

} // verus!
