//! Decimal integer parsing for `i32`, proved to follow the usual rule: an
//! optional `+` or `-` sign, then one or more ASCII digits, the whole string
//! consumed, and the value within range.

use crate::pair::ParseFromStr;
use vstd::prelude::*;
use vstd::string::StrSliceExecFns;

verus! {

/// Whether `c` is an ASCII decimal digit.
pub open spec fn is_ascii_digit(c: char) -> bool {
    '0' as u32 <= c as u32 && c as u32 <= '9' as u32
}

/// Numeric value of an ASCII decimal digit.
pub open spec fn digit_val(c: char) -> int
    recommends
        is_ascii_digit(c),
{
    c as u32 - '0' as u32
}

/// Whether every character of `s` is an ASCII decimal digit.
pub open spec fn all_digits(s: Seq<char>) -> bool {
    forall|j: int| 0 <= j < s.len() ==> is_ascii_digit(s[j])
}

/// Value of a sequence of ASCII decimal digits, most significant first.
pub open spec fn digits_val(s: Seq<char>) -> int
    recommends
        all_digits(s),
    decreases s.len(),
{
    if s.len() == 0 {
        0
    } else {
        digits_val(s.drop_last()) * 10 + digit_val(s.last())
    }
}

/// What parsing `s` as an `i32` yields: an optional `+` or `-` sign followed
/// by one or more ASCII digits, nothing else, and a value within `i32` range;
/// `None` on any other input.
pub open spec fn parse_i32_spec(s: Seq<char>) -> Option<i32> {
    let neg = s.len() > 0 && s[0] == '-';
    let digits = if s.len() > 0 && (s[0] == '-' || s[0] == '+') {
        s.subrange(1, s.len() as int)
    } else {
        s
    };
    if digits.len() == 0 || !all_digits(digits) {
        None
    } else {
        let v = if neg {
            -digits_val(digits)
        } else {
            digits_val(digits)
        };
        if i32::MIN <= v <= i32::MAX {
            Some(v as i32)
        } else {
            None
        }
    }
}

proof fn lemma_digits_val_nonneg(s: Seq<char>)
    requires
        all_digits(s),
    ensures
        digits_val(s) >= 0,
    decreases s.len(),
{
    if s.len() > 0 {
        lemma_digits_val_nonneg(s.drop_last());
    }
}

/// The value of a digit string is at least the value of any of its prefixes.
proof fn lemma_digits_val_prefix(t: Seq<char>, k: int)
    requires
        all_digits(t),
        0 <= k <= t.len(),
    ensures
        digits_val(t.subrange(0, k)) <= digits_val(t),
    decreases t.len() - k,
{
    if k < t.len() {
        let p = t.subrange(0, k + 1);
        assert(p.drop_last() =~= t.subrange(0, k));
        lemma_digits_val_nonneg(t.subrange(0, k));
        lemma_digits_val_prefix(t, k + 1);
    } else {
        assert(t.subrange(0, k) =~= t);
    }
}

impl ParseFromStr for i32 {
    open spec fn parse_spec(s: Seq<char>) -> Option<i32> {
        parse_i32_spec(s)
    }

    #[verifier::loop_isolation(false)]
    fn parse_from_str(s: &str) -> (r: Option<i32>) {
        let n = s.unicode_len();
        if n == 0 {
            return None;
        }
        let c0 = s.get_char(0);
        let neg = c0 == '-';
        let start: usize = if c0 == '-' || c0 == '+' {
            1
        } else {
            0
        };
        let ghost digits = s@.subrange(start as int, n as int);
        proof {
            if start == 0 {
                assert(digits =~= s@);
            }
        }
        if n == start {
            return None;
        }
        let mut i: usize = start;
        let mut acc: u64 = 0;
        while i < n
            invariant
                start <= i <= n,
                n == s@.len(),
                start < n,
                digits == s@.subrange(start as int, n as int),
                acc <= 0x8000_0000,
                all_digits(s@.subrange(start as int, i as int)),
                acc == digits_val(s@.subrange(start as int, i as int)),
            decreases n - i,
        {
            let c = s.get_char(i);
            let u = c as u32;
            if u < 48 || u > 57 {
                proof {
                    assert(digits[i - start] == s@[i as int]);
                    assert(!all_digits(digits));
                }
                return None;
            }
            acc = acc * 10 + (u - 48) as u64;
            proof {
                let p = s@.subrange(start as int, i + 1);
                assert(p.drop_last() =~= s@.subrange(start as int, i as int));
                assert(p.last() == s@[i as int]);
            }
            i = i + 1;
            if acc > 0x8000_0000 {
                proof {
                    if all_digits(digits) {
                        assert(s@.subrange(start as int, i as int) =~= digits.subrange(
                            0,
                            i - start,
                        ));
                        lemma_digits_val_prefix(digits, i - start);
                        assert(digits_val(digits) > 0x8000_0000);
                    }
                }
                return None;
            }
        }
        proof {
            assert(s@.subrange(start as int, i as int) =~= digits);
        }
        if neg {
            if acc == 0x8000_0000 {
                Some(i32::MIN)
            } else {
                Some(-(acc as i32))
            }
        } else {
            if acc > 0x7fff_ffff {
                None
            } else {
                Some(acc as i32)
            }
        }
    }
}

} // verus!
