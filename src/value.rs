//! Decimal values with at most one fractional digit, held as integers in
//! tenths.
use vstd::prelude::*;

use crate::error::AggError;

verus! {

pub open spec fn is_digit(b: u8) -> bool {
    48 <= b && b <= 57
}

pub open spec fn digit_of(b: u8) -> int {
    b as int - 48
}

pub open spec fn all_digits(s: Seq<u8>) -> bool {
    forall|i: int| 0 <= i < s.len() ==> #[trigger] is_digit(s[i])
}

/// The number that a string of decimal digits denotes.
pub open spec fn digits_value(s: Seq<u8>) -> int
    decreases s.len(),
{
    if s.len() == 0 {
        0
    } else {
        digits_value(s.drop_last()) * 10 + digit_of(s.last())
    }
}

/// The value in tenths of an unsigned `digit+ (. digit)?`, if `s` has that
/// shape.
pub open spec fn unsigned_tenths(s: Seq<u8>) -> Option<int> {
    let n = s.len();
    if n >= 3 && s[n - 2] == 46u8 && is_digit(s[n - 1]) && all_digits(s.take(n - 2)) {
        Some(digits_value(s.take(n - 2)) * 10 + digit_of(s[n - 1]))
    } else if n >= 1 && all_digits(s) {
        Some(digits_value(s) * 10)
    } else {
        None
    }
}

/// The value in tenths of `-? digit+ (. digit)?`, if `s` has that shape.
pub open spec fn decimal_tenths(s: Seq<u8>) -> Option<int> {
    if s.len() > 0 && s[0] == 45u8 {
        match unsigned_tenths(s.drop_first()) {
            Some(m) => Some(-m),
            None => None,
        }
    } else {
        unsigned_tenths(s)
    }
}

/// The value that a value field stands for: a decimal in the grammar whose
/// magnitude in tenths fits in an `i32`.
pub open spec fn field_value(s: Seq<u8>) -> Option<int> {
    match decimal_tenths(s) {
        Some(v) => if -(i32::MAX as int) <= v <= i32::MAX as int {
            Some(v)
        } else {
            None
        },
        None => None,
    }
}

proof fn lemma_digits_value_grows(s: Seq<u8>, i: int)
    requires
        0 <= i <= s.len(),
        all_digits(s),
    ensures
        digits_value(s.take(i)) <= digits_value(s),
        0 <= digits_value(s.take(i)),
    decreases s.len(),
{
    if s.len() > 0 {
        let p = s.drop_last();
        assert(all_digits(p)) by {
            assert forall|k: int| 0 <= k < p.len() implies is_digit(p[k]) by {
                assert(p[k] == s[k]);
            }
        }
        assert(is_digit(s[s.len() - 1]));
        if i < s.len() {
            assert(p.take(i) =~= s.take(i));
            lemma_digits_value_grows(p, i);
        } else {
            assert(s.take(i) =~= s);
            lemma_digits_value_grows(p, 0);
        }
    } else {
        assert(s.take(i) =~= s);
    }
}

/// Reads the digits `s[start..end]` as a number, or `None` where one of them
/// is not a digit or the number exceeds `i32::MAX`.
fn digits_in_range(s: &[u8], start: usize, end: usize) -> (r: Option<u64>)
    requires
        start <= end <= s@.len(),
    ensures
        match r {
            Some(m) => all_digits(s@.subrange(start as int, end as int)) && m as int
                == digits_value(s@.subrange(start as int, end as int)) && m <= i32::MAX,
            None => !all_digits(s@.subrange(start as int, end as int)) || digits_value(
                s@.subrange(start as int, end as int),
            ) > i32::MAX,
        },
{
    let mut m: u64 = 0;
    let mut i: usize = start;
    while i < end
        invariant
            start <= i <= end <= s@.len(),
            all_digits(s@.subrange(start as int, i as int)),
            m as int == digits_value(s@.subrange(start as int, i as int)),
            m <= i32::MAX,
        decreases end - i,
    {
        let b = s[i];
        let ghost part = s@.subrange(start as int, i as int + 1);
        assert(part.drop_last() =~= s@.subrange(start as int, i as int));
        if b < 48 || b > 57 {
            assert(!all_digits(s@.subrange(start as int, end as int))) by {
                assert(s@.subrange(start as int, end as int)[i - start] == b);
                assert(!is_digit(b));
            }
            return None;
        }
        m = m * 10 + (b - 48) as u64;
        i = i + 1;
        assert(all_digits(s@.subrange(start as int, i as int))) by {
            assert forall|k: int| 0 <= k < i - start implies is_digit(
                s@.subrange(start as int, i as int)[k],
            ) by {
                if k < i - 1 - start {
                    assert(s@.subrange(start as int, i as int)[k] == s@.subrange(
                        start as int,
                        i - 1,
                    )[k]);
                }
            }
        }
        if m > i32::MAX as u64 {
            let ghost whole = s@.subrange(start as int, end as int);
            proof {
                if all_digits(whole) {
                    lemma_digits_value_grows(whole, i - start);
                    assert(whole.take(i - start) =~= s@.subrange(start as int, i as int));
                }
            }
            return None;
        }
    }
    Some(m)
}

/// Parses a value field `-? digit+ (. digit)?` into tenths: `"-15.3"` gives
/// `-153` and `"9"` gives `90`. Anything else, or a magnitude beyond
/// `i32::MAX` tenths, is a `MalformedValue`; no input is read as zero unless
/// it denotes zero.
pub fn parse_int(chunk: &[u8]) -> (r: Result<i32, AggError>)
    ensures
        match field_value(chunk@) {
            Some(v) => r == Ok::<i32, AggError>(v as i32),
            None => r == Err::<i32, AggError>(AggError::MalformedValue),
        },
{
    let n = chunk.len();
    let negative = n > 0 && chunk[0] == 45u8;
    let start: usize = if negative { 1 } else { 0 };
    let ghost body = chunk@.subrange(start as int, n as int);
    proof {
        if negative {
            assert(body =~= chunk@.drop_first());
        } else {
            assert(body =~= chunk@);
        }
    }
    let mut frac: u64 = 0;
    let mut int_end: usize = n;
    if n >= start + 3 && chunk[n - 2] == 46u8 {
        let d = chunk[n - 1];
        if d < 48 || d > 57 {
            proof {
                assert(!all_digits(body)) by {
                    assert(body[body.len() - 2] == 46u8);
                }
            }
            return Err(AggError::MalformedValue);
        }
        frac = (d - 48) as u64;
        int_end = n - 2;
        assert(body.take(body.len() - 2) =~= chunk@.subrange(start as int, int_end as int));
    } else {
        proof {
            if body.len() >= 3 {
                assert(body[body.len() - 2] == chunk@[n - 2]);
            }
        }
    }
    if int_end == start {
        return Err(AggError::MalformedValue);
    }
    match digits_in_range(chunk, start, int_end) {
        None => {
            proof {
                if int_end < n {
                    let t = body.take(body.len() - 2);
                    if all_digits(t) {
                        // the integer part is too large even without the fraction
                        assert(digits_value(t) * 10 + digit_of(body[body.len() - 1]) > i32::MAX);
                    }
                    assert(!all_digits(body)) by {
                        assert(body[body.len() - 2] == chunk@[n - 2]);
                        assert(!is_digit(body[body.len() - 2]));
                    }
                }
            }
            Err(AggError::MalformedValue)
        },
        Some(m) => {
            let mag = m * 10 + frac;
            if mag > i32::MAX as u64 {
                proof {
                    if int_end < n {
                        assert(!all_digits(body)) by {
                            assert(body[body.len() - 2] == chunk@[n - 2]);
                            assert(!is_digit(body[body.len() - 2]));
                        }
                    }
                }
                return Err(AggError::MalformedValue);
            }
            let v = mag as i32;
            if negative {
                Ok(-v)
            } else {
                Ok(v)
            }
        },
    }
}

} // verus!
