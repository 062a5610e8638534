use crate::errors::{WakeBotError, WakeBotErrorKind};
use crate::text::{digits_val, is_digit_char, parse_digits, str_chars};
use vstd::prelude::*;

verus! {

/// A stored macro: a roll command saved under a user-chosen name.
#[derive(Debug, Clone)]
pub struct Action {
    pub name: String,
    pub roll: String,
}

/// The characters an action name may contain: ASCII letters, digits,
/// underscore and hyphen.
pub open spec fn is_action_name_char(c: char) -> bool {
    ||| (97 <= c as u32 && c as u32 <= 122)
    ||| (65 <= c as u32 && c as u32 <= 90)
    ||| is_digit_char(c)
    ||| c == '_'
    ||| c == '-'
}

/// Whether a name may be used for an action: nonempty, and made only of
/// letters, digits, underscores and hyphens.
pub fn is_valid_action_name(s: &str) -> (r: bool)
    ensures
        r == (s@.len() > 0 && forall|i: int|
            0 <= i < s@.len() ==> is_action_name_char(#[trigger] s@[i])),
{
    let n = s.unicode_len();
    if n == 0 {
        return false;
    }
    let mut i: usize = 0;
    while i < n
        invariant
            i <= n,
            n == s@.len(),
            forall|k: int| 0 <= k < i ==> is_action_name_char(#[trigger] s@[k]),
        decreases n - i,
    {
        let c = s.get_char(i);
        let v = c as u32;
        let ok = (97 <= v && v <= 122) || (65 <= v && v <= 90) || (48 <= v && v <= 57) || c == '_'
            || c == '-';
        if !ok {
            return false;
        }
        i += 1;
    }
    true
}

/// The next value of the laugh counter: one more than the stored count,
/// or one when nothing is stored yet.  The stored text must be the
/// decimal digits of a count that still has room to grow.
pub fn next_heh_count(stored: Option<&str>) -> (r: Result<i32, WakeBotError>)
    ensures
        ({
            match stored {
                None => r is Ok && r->Ok_0 == 1,
                Some(s) => {
                    let ok = s@.len() > 0 && (forall|i: int|
                        0 <= i < s@.len() ==> is_digit_char(#[trigger] s@[i])) && digits_val(s@) + 1
                        <= i32::MAX;
                    if ok {
                        r is Ok && r->Ok_0 == digits_val(s@) + 1
                    } else {
                        r is Err && r->Err_0.kind == WakeBotErrorKind::Parse && r->Err_0.details@
                            == "Stored count is not a number"@
                    }
                },
            }
        }),
{
    let s = match stored {
        None => {
            return Ok(1);
        },
        Some(s) => s,
    };
    let chars = str_chars(s);
    let n = chars.len();
    if n == 0 {
        return Err(WakeBotError::with_kind(WakeBotErrorKind::Parse, "Stored count is not a number"));
    }
    let mut i: usize = 0;
    while i < n
        invariant
            i <= n,
            n == chars@.len(),
            chars@ == s@,
            stored == Some(s),
            forall|k: int| 0 <= k < i ==> is_digit_char(#[trigger] chars@[k]),
        decreases n - i,
    {
        let c = chars[i];
        let v = c as u32;
        if !(48 <= v && v <= 57) {
            proof {
                assert(!is_digit_char(s@[i as int]));
            }
            return Err(
                WakeBotError::with_kind(WakeBotErrorKind::Parse, "Stored count is not a number"),
            );
        }
        i += 1;
    }
    let val = match parse_digits(&chars, 0, n) {
        Some(v) => v,
        None => {
            proof {
                assert(chars@.subrange(0, n as int) =~= s@);
            }
            return Err(
                WakeBotError::with_kind(WakeBotErrorKind::Parse, "Stored count is not a number"),
            );
        },
    };
    proof {
        assert(chars@.subrange(0, n as int) =~= s@);
    }
    if val >= 0x7FFF_FFFF {
        return Err(WakeBotError::with_kind(WakeBotErrorKind::Parse, "Stored count is not a number"));
    }
    Ok((val as i32) + 1)
}

} // verus!
