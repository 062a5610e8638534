use crate::errors::{WakeBotError, WakeBotErrorKind};
use crate::text::{digits_val, is_digit_char, parse_digits, str_chars};
use vstd::prelude::*;

verus! {

/// The four binary operators a command may contain.
pub open spec fn is_op_char(c: char) -> bool {
    c == '+' || c == '-' || c == '*' || c == '/'
}

/// The first position at or after `i` that is not a digit (the end of the
/// digit run starting at `i`).
pub open spec fn digit_run_end(s: Seq<char>, i: int) -> int
    recommends
        0 <= i <= s.len(),
    decreases s.len() - i,
{
    if 0 <= i < s.len() && is_digit_char(s[i]) {
        digit_run_end(s, i + 1)
    } else {
        i
    }
}

pub proof fn lemma_digit_run_end(s: Seq<char>, i: int)
    requires
        0 <= i <= s.len(),
    ensures
        i <= digit_run_end(s, i) <= s.len(),
        forall|k: int| i <= k < digit_run_end(s, i) ==> is_digit_char(#[trigger] s[k]),
        digit_run_end(s, i) < s.len() ==> !is_digit_char(s[digit_run_end(s, i)]),
    decreases s.len() - i,
{
    if 0 <= i < s.len() && is_digit_char(s[i]) {
        lemma_digit_run_end(s, i + 1);
    }
}

/// A dice term begins at `i` when a (possibly empty) digit run is followed
/// by a `'d'` and at least one digit: the shape `NdM`.
pub open spec fn term_match_at(s: Seq<char>, i: int) -> bool
    recommends
        0 <= i <= s.len(),
{
    let j = digit_run_end(s, i);
    j < s.len() && s[j] == 'd' && j + 1 < s.len() && is_digit_char(s[j + 1])
}

/// The parsed pieces of one dice term found in the command text, together
/// with the span of its trailing arithmetic suffix.
pub struct TermShape {
    /// Position of the term's first character.
    pub start: int,
    /// The digits before the `'d'`; empty when the quantity is omitted.
    pub count_digits: Seq<char>,
    /// The digits after the `'d'`; never empty.
    pub sides_digits: Seq<char>,
    /// `None` when there is no keep selector; `Some(true)` for keep-lowest
    /// (`kl`), `Some(false)` for keep-highest (`k` or `kh`).
    pub keep_low: Option<bool>,
    /// The digits of the keep selector; empty iff there is no selector.
    pub keep_digits: Seq<char>,
    /// Position just past the term (quantity, `'d'`, sides, selector).
    pub term_end: int,
    /// Position just past the trailing arithmetic suffix; equals `term_end`
    /// when there is no suffix.
    pub suffix_end: int,
}

/// The keep selector starting at `k` (just past the sides digits), if any:
/// `k`, `kh` or `kl`, each followed by at least one digit.  Returns the
/// selector, its digits, and the term's end position.
pub open spec fn keep_shape_at(s: Seq<char>, k: int) -> (Option<bool>, Seq<char>, int)
    recommends
        0 <= k <= s.len(),
{
    if k < s.len() && s[k] == 'k' {
        if k + 1 < s.len() && (s[k + 1] == 'h' || s[k + 1] == 'l') && k + 2 < s.len()
            && is_digit_char(s[k + 2]) {
            let m = digit_run_end(s, k + 2);
            (Some(s[k + 1] == 'l'), s.subrange(k + 2, m), m)
        } else if k + 1 < s.len() && is_digit_char(s[k + 1]) {
            let m = digit_run_end(s, k + 1);
            (Some(false), s.subrange(k + 1, m), m)
        } else {
            (None, Seq::empty(), k)
        }
    } else {
        (None, Seq::empty(), k)
    }
}

/// The end of one suffix unit starting exactly at `p`: an operator followed
/// by a number (`+2`, `*1.5`).  The number is either a nonempty digit run
/// not followed by `'.'` or `'d'`, or a decimal `D*.D+` not followed by
/// `'d'`.  A number that would begin a new dice term is never swallowed.
pub open spec fn unit_end_at(s: Seq<char>, p: int) -> Option<int>
    recommends
        0 <= p <= s.len(),
{
    if 0 <= p < s.len() && is_op_char(s[p]) {
        let q = p + 1;
        let r = digit_run_end(s, q);
        if r > q && (r == s.len() || (s[r] != '.' && s[r] != 'd')) {
            Some(r)
        } else if r < s.len() && s[r] == '.' && r + 1 < s.len() && is_digit_char(s[r + 1]) {
            let r2 = digit_run_end(s, r + 1);
            if r2 == s.len() || s[r2] != 'd' {
                Some(r2)
            } else {
                None
            }
        } else {
            None
        }
    } else {
        None
    }
}

pub proof fn lemma_unit_end_at(s: Seq<char>, p: int)
    requires
        0 <= p <= s.len(),
    ensures
        match unit_end_at(s, p) {
            Some(u) => p + 1 < u <= s.len(),
            None => true,
        },
{
    if 0 <= p < s.len() && is_op_char(s[p]) {
        lemma_digit_run_end(s, p + 1);
        let r = digit_run_end(s, p + 1);
        if r < s.len() && s[r] == '.' && r + 1 < s.len() && is_digit_char(s[r + 1]) {
            lemma_digit_run_end(s, r + 1);
        }
    }
}

/// The end of the maximal run of suffix units starting at `p`.
pub open spec fn suffix_end_from(s: Seq<char>, p: int) -> int
    recommends
        0 <= p <= s.len(),
    decreases s.len() - p when 0 <= p <= s.len()
{
    match unit_end_at(s, p) {
        Some(u) => {
            proof {
                lemma_unit_end_at(s, p);
            }
            suffix_end_from(s, u)
        },
        None => p,
    }
}

pub proof fn lemma_suffix_end_from(s: Seq<char>, p: int)
    requires
        0 <= p <= s.len(),
    ensures
        p <= suffix_end_from(s, p) <= s.len(),
    decreases s.len() - p,
{
    match unit_end_at(s, p) {
        Some(u) => {
            lemma_unit_end_at(s, p);
            lemma_suffix_end_from(s, u);
        },
        None => {},
    }
}

/// The full shape of the dice term starting at `i`.
pub open spec fn term_shape_at(s: Seq<char>, i: int) -> TermShape
    recommends
        0 <= i <= s.len(),
        term_match_at(s, i),
{
    let j = digit_run_end(s, i);
    let k = digit_run_end(s, j + 1);
    let keep = keep_shape_at(s, k);
    let term_end = keep.2;
    TermShape {
        start: i,
        count_digits: s.subrange(i, j),
        sides_digits: s.subrange(j + 1, k),
        keep_low: keep.0,
        keep_digits: keep.1,
        term_end,
        suffix_end: suffix_end_from(s, term_end),
    }
}

pub proof fn lemma_term_shape_at(s: Seq<char>, i: int)
    requires
        0 <= i <= s.len(),
        term_match_at(s, i),
    ensures
        ({
            let t = term_shape_at(s, i);
            &&& i + 2 <= t.term_end <= t.suffix_end <= s.len()
            &&& forall|k: int|
                0 <= k < t.count_digits.len() ==> is_digit_char(#[trigger] t.count_digits[k])
            &&& t.sides_digits.len() >= 1
            &&& forall|k: int|
                0 <= k < t.sides_digits.len() ==> is_digit_char(#[trigger] t.sides_digits[k])
            &&& (t.keep_low is Some ==> t.keep_digits.len() >= 1)
            &&& forall|k: int|
                0 <= k < t.keep_digits.len() ==> is_digit_char(#[trigger] t.keep_digits[k])
        }),
{
    let j = digit_run_end(s, i);
    lemma_digit_run_end(s, i);
    lemma_digit_run_end(s, j + 1);
    let k = digit_run_end(s, j + 1);
    if k < s.len() && s[k] == 'k' {
        if k + 1 < s.len() && (s[k + 1] == 'h' || s[k + 1] == 'l') && k + 2 < s.len()
            && is_digit_char(s[k + 2]) {
            lemma_digit_run_end(s, k + 2);
        } else if k + 1 < s.len() && is_digit_char(s[k + 1]) {
            lemma_digit_run_end(s, k + 1);
        }
    }
    let t = term_shape_at(s, i);
    lemma_suffix_end_from(s, t.term_end);
}

/// The position of the leftmost dice term at or after `c`, or the text's
/// length when none remains.
pub open spec fn find_term_start(s: Seq<char>, c: int) -> int
    recommends
        0 <= c <= s.len(),
    decreases s.len() - c,
{
    if !(0 <= c < s.len()) {
        s.len() as int
    } else if term_match_at(s, c) {
        c
    } else {
        find_term_start(s, c + 1)
    }
}

pub proof fn lemma_find_term_start(s: Seq<char>, c: int)
    requires
        0 <= c <= s.len(),
    ensures
        c <= find_term_start(s, c) <= s.len(),
        find_term_start(s, c) < s.len() ==> term_match_at(s, find_term_start(s, c)),
        forall|k: int| c <= k < find_term_start(s, c) ==> !term_match_at(s, k),
    decreases s.len() - c,
{
    if 0 <= c < s.len() && !term_match_at(s, c) {
        lemma_find_term_start(s, c + 1);
    }
}

/// Every dice term of the text from position `c` on, left to right.  Each
/// scan resumes just past the previous term, so terms never overlap.
pub open spec fn lex_terms(s: Seq<char>, c: int) -> Seq<TermShape>
    recommends
        0 <= c <= s.len(),
    decreases s.len() - c when 0 <= c <= s.len()
{
    let i = find_term_start(s, c);
    if i >= s.len() {
        Seq::empty()
    } else {
        let t = term_shape_at(s, i);
        proof {
            lemma_find_term_start(s, c);
            lemma_term_shape_at(s, i);
        }
        seq![t] + lex_terms(s, t.term_end)
    }
}

/// Structural facts about the scanned term list: every term is a genuine
/// match with its shape, terms sit left to right without overlapping, and
/// all spans lie inside the text.
pub proof fn lemma_lex_terms_props(s: Seq<char>, c: int)
    requires
        0 <= c <= s.len(),
    ensures
        ({
            let ts = lex_terms(s, c);
            &&& forall|n: int|
                0 <= n < ts.len() ==> {
                    let t = #[trigger] ts[n];
                    &&& c <= t.start
                    &&& term_match_at(s, t.start)
                    &&& t == term_shape_at(s, t.start)
                    &&& t.start + 2 <= t.term_end <= t.suffix_end <= s.len()
                }
            &&& forall|n: int, m: int|
                0 <= n < m < ts.len() ==> #[trigger] ts[n].term_end <= #[trigger] ts[m].start
        }),
    decreases s.len() - c,
{
    let ts = lex_terms(s, c);
    let i = find_term_start(s, c);
    lemma_find_term_start(s, c);
    if i < s.len() {
        let t = term_shape_at(s, i);
        lemma_term_shape_at(s, i);
        lemma_lex_terms_props(s, t.term_end);
        let rest = lex_terms(s, t.term_end);
        assert(ts =~= seq![t] + rest);
        assert(forall|n: int| 1 <= n < ts.len() ==> ts[n] == #[trigger] rest[n - 1]);
        assert(ts[0] == t);
    }
}

/// The requested dice quantity of a term: its count digits, or one when
/// they are omitted.
pub open spec fn shape_quantity(t: TermShape) -> nat {
    if t.count_digits.len() == 0 {
        1
    } else {
        digits_val(t.count_digits)
    }
}

/// The number of faces of a term's dice.
pub open spec fn shape_sides(t: TermShape) -> nat {
    digits_val(t.sides_digits)
}

/// The most dice one term may request.
pub const MAX_QUANTITY: u64 = 1000;

/// The validation verdict for one term, checked before any die is rolled:
/// the quantity cap first, then the sides range, then the keep count.
pub open spec fn shape_error_kind(t: TermShape) -> Option<WakeBotErrorKind> {
    if shape_quantity(t) > MAX_QUANTITY {
        Some(WakeBotErrorKind::Validation)
    } else if shape_sides(t) < 1 || shape_sides(t) > u32::MAX {
        Some(WakeBotErrorKind::Parse)
    } else if t.keep_low is Some && digits_val(t.keep_digits) > u64::MAX {
        Some(WakeBotErrorKind::Parse)
    } else {
        None
    }
}

/// The message reported for an invalid term.
pub open spec fn shape_error_msg(t: TermShape) -> Seq<char> {
    if shape_quantity(t) > MAX_QUANTITY {
        "Max number of dice is 1000"@
    } else if shape_sides(t) < 1 || shape_sides(t) > u32::MAX {
        "Dice sides must be a positive integer of at most ten digits"@
    } else {
        "Keep count is too large"@
    }
}

/// A dice term as scanned from the text, with its numbers resolved.
#[derive(Clone, Copy, Debug)]
pub struct DiceTerm {
    /// Position of the term's first character.
    pub start: usize,
    /// How many dice to roll.
    pub quantity: u64,
    /// Faces per die.
    pub sides: u32,
    /// `None`: keep everything.  `Some((low, n))`: keep the `n` lowest
    /// values when `low`, else the `n` highest.
    pub keep: Option<(bool, u64)>,
    /// Position just past the term itself.
    pub term_end: usize,
    /// Position just past the trailing arithmetic suffix.
    pub suffix_end: usize,
}

/// How an executable term corresponds to the shape the grammar assigns.
pub open spec fn term_matches_shape(t: DiceTerm, sh: TermShape) -> bool {
    &&& t.start == sh.start
    &&& t.term_end == sh.term_end
    &&& t.suffix_end == sh.suffix_end
    &&& t.quantity == shape_quantity(sh)
    &&& t.sides == shape_sides(sh)
    &&& match (t.keep, sh.keep_low) {
        (None, None) => true,
        (Some((low, n)), Some(sl)) => low == sl && n == digits_val(sh.keep_digits),
        _ => false,
    }
}

/// True when the text's dice terms are all valid (quantity, sides and keep
/// count in range).
pub open spec fn all_terms_valid(s: Seq<char>) -> bool {
    forall|n: int|
        0 <= n < lex_terms(s, 0).len() ==> shape_error_kind(#[trigger] lex_terms(s, 0)[n]) is None
}

/// The index of the first invalid term of `ts`, or `ts.len()` when every
/// term is valid.
pub open spec fn first_invalid_idx(ts: Seq<TermShape>) -> int
    decreases ts.len(),
{
    if ts.len() == 0 {
        0
    } else if shape_error_kind(ts.first()) is Some {
        0
    } else {
        1 + first_invalid_idx(ts.drop_first())
    }
}

pub proof fn lemma_first_invalid_idx(ts: Seq<TermShape>)
    ensures
        0 <= first_invalid_idx(ts) <= ts.len(),
        forall|m: int| 0 <= m < first_invalid_idx(ts) ==> shape_error_kind(#[trigger] ts[m]) is None,
        first_invalid_idx(ts) < ts.len() ==> shape_error_kind(ts[first_invalid_idx(ts)]) is Some,
    decreases ts.len(),
{
    if ts.len() > 0 && shape_error_kind(ts.first()) is None {
        lemma_first_invalid_idx(ts.drop_first());
        assert forall|m: int| 0 <= m < first_invalid_idx(ts) implies shape_error_kind(
            #[trigger] ts[m],
        ) is None by {
            if m >= 1 {
                assert(ts.drop_first()[m - 1] == ts[m]);
            }
        }
    }
}

/// Whether a digit character's value matches `is_digit_char`.
pub fn is_digit(c: char) -> (r: bool)
    ensures
        r == is_digit_char(c),
{
    let v = c as u32;
    48 <= v && v <= 57
}

/// The end of the digit run starting at `i`.
fn run_end(chars: &Vec<char>, i: usize) -> (r: usize)
    requires
        i <= chars@.len(),
    ensures
        r == digit_run_end(chars@, i as int),
        i <= r <= chars@.len(),
{
    proof {
        lemma_digit_run_end(chars@, i as int);
    }
    let n = chars.len();
    let mut j = i;
    while j < n && is_digit(chars[j])
        invariant
            i <= j <= n,
            n == chars@.len(),
            digit_run_end(chars@, j as int) == digit_run_end(chars@, i as int),
        decreases n - j,
    {
        j += 1;
    }
    j
}

/// Whether a dice term begins at `i`.
pub fn term_match(chars: &Vec<char>, i: usize) -> (r: bool)
    requires
        i <= chars@.len(),
    ensures
        r == term_match_at(chars@, i as int),
{
    let j = run_end(chars, i);
    j < chars.len() && chars[j] == 'd' && j + 1 < chars.len() && is_digit(chars[j + 1])
}

/// The end of one suffix unit starting at `p`, if there is one.
fn unit_end(chars: &Vec<char>, p: usize) -> (r: Option<usize>)
    requires
        p <= chars@.len(),
    ensures
        match r {
            Some(u) => unit_end_at(chars@, p as int) == Some(u as int) && p < u <= chars@.len(),
            None => unit_end_at(chars@, p as int) is None,
        },
{
    proof {
        lemma_unit_end_at(chars@, p as int);
    }
    let n = chars.len();
    if p >= n {
        return None;
    }
    let c = chars[p];
    if !(c == '+' || c == '-' || c == '*' || c == '/') {
        return None;
    }
    let q = p + 1;
    let r = run_end(chars, q);
    if r > q && (r == n || (chars[r] != '.' && chars[r] != 'd')) {
        return Some(r);
    }
    if r < n && chars[r] == '.' && r + 1 < n && is_digit(chars[r + 1]) {
        let r2 = run_end(chars, r + 1);
        if r2 == n || chars[r2] != 'd' {
            return Some(r2);
        }
    }
    None
}

/// The end of the maximal run of suffix units starting at `p`.
fn suffix_scan(chars: &Vec<char>, p: usize) -> (r: usize)
    requires
        p <= chars@.len(),
    ensures
        r == suffix_end_from(chars@, p as int),
        p <= r <= chars@.len(),
{
    let mut cur = p;
    loop
        invariant
            p <= cur <= chars@.len(),
            suffix_end_from(chars@, cur as int) == suffix_end_from(chars@, p as int),
        decreases chars@.len() - cur,
    {
        match unit_end(chars, cur) {
            Some(u) => {
                cur = u;
            },
            None => {
                proof {
                    lemma_suffix_end_from(chars@, p as int);
                }
                return cur;
            },
        }
    }
}

/// Whether the text holds a dice command: a `'!'` immediately followed by
/// a dice term, anywhere in the text.  A command dispatcher tests this
/// before interpreting, and a stored action's roll text must satisfy it.
pub fn is_dice_command(s: &str) -> (r: bool)
    ensures
        r == exists|i: int|
            0 <= i < s@.len() && #[trigger] s@[i] == '!' && term_match_at(s@, i + 1),
{
    let chars = str_chars(s);
    let n = chars.len();
    let mut i: usize = 0;
    while i < n
        invariant
            i <= n,
            n == s@.len(),
            chars@ == s@,
            forall|k: int| 0 <= k < i ==> !(#[trigger] s@[k] == '!' && term_match_at(s@, k + 1)),
        decreases n - i,
    {
        if chars[i] == '!' && term_match(&chars, i + 1) {
            return true;
        }
        i += 1;
    }
    false
}

/// Scans the text left to right and resolves every dice term, validating
/// each one (quantity cap, sides range, keep count) before any die is
/// rolled.  On failure, reports the first invalid term's error.
pub fn scan_terms(chars: &Vec<char>) -> (r: Result<Vec<DiceTerm>, WakeBotError>)
    ensures
        ({
            let full = lex_terms(chars@, 0);
            match r {
                Ok(ts) => {
                    &&& all_terms_valid(chars@)
                    &&& first_invalid_idx(full) == full.len()
                    &&& ts@.len() == full.len()
                    &&& forall|n: int|
                        0 <= n < ts@.len() ==> term_matches_shape(#[trigger] ts@[n], full[n])
                },
                Err(e) => {
                    let fi = first_invalid_idx(full);
                    &&& fi < full.len()
                    &&& Some(e.kind) == shape_error_kind(full[fi])
                    &&& e.details@ == shape_error_msg(full[fi])
                },
            }
        }),
{
    let ghost s = chars@;
    let ghost full = lex_terms(s, 0);
    let n = chars.len();
    let mut out: Vec<DiceTerm> = Vec::new();
    let mut cursor: usize = 0;
    proof {
        assert(full.skip(0) =~= full);
    }
    loop
        invariant
            n == s.len(),
            s == chars@,
            full == lex_terms(s, 0),
            cursor <= n,
            out@.len() <= full.len(),
            lex_terms(s, cursor as int) =~= full.skip(out@.len() as int),
            forall|m: int|
                0 <= m < out@.len() ==> term_matches_shape(#[trigger] out@[m], full[m]),
            forall|m: int| 0 <= m < out@.len() ==> shape_error_kind(#[trigger] full[m]) is None,
        decreases n - cursor,
    {
        let ghost done = out@.len() as int;
        // Probe for the next term start.
        let mut i = cursor;
        while i < n && !term_match(chars, i)
            invariant
                cursor <= i <= n,
                n == s.len(),
                s == chars@,
                find_term_start(s, i as int) == find_term_start(s, cursor as int),
            decreases n - i,
        {
            i += 1;
        }
        if i == n {
            proof {
                assert(find_term_start(s, cursor as int) == n);
                assert(lex_terms(s, cursor as int) =~= Seq::<TermShape>::empty());
                assert(out@.len() == full.len());
                lemma_first_invalid_idx(full);
            }
            return Ok(out);
        }
        proof {
            assert(term_match_at(s, i as int));
            assert(find_term_start(s, cursor as int) == i);
        }
        let ghost sh = term_shape_at(s, i as int);
        proof {
            lemma_term_shape_at(s, i as int);
            assert(lex_terms(s, cursor as int) =~= seq![sh] + lex_terms(s, sh.term_end));
            assert(full.skip(done)[0] == full[done]);
            assert(full[done] == sh);
            assert(lex_terms(s, sh.term_end) =~= full.skip(done).drop_first());
            assert(full.skip(done).drop_first() =~= full.skip(done + 1));
        }
        let j = run_end(chars, i);
        let k2 = run_end(chars, j + 1);
        proof {
            lemma_digit_run_end(s, i as int);
            lemma_digit_run_end(s, j + 1);
        }
        // Quantity: the digits before the 'd', or one when omitted.
        let quantity: u64 = if j == i {
            1
        } else {
            match parse_digits(chars, i, j) {
                Some(v) => v,
                None => {
                    proof {
                        lemma_first_invalid_idx(full);
                    }
                    return Err(
                        WakeBotError::with_kind(
                            WakeBotErrorKind::Validation,
                            "Max number of dice is 1000",
                        ),
                    );
                },
            }
        };
        if quantity > MAX_QUANTITY {
            proof {
                lemma_first_invalid_idx(full);
            }
            return Err(
                WakeBotError::with_kind(WakeBotErrorKind::Validation, "Max number of dice is 1000"),
            );
        }
        // Sides: required, positive, and small enough to roll.
        let sides_big: Option<u64> = parse_digits(chars, j + 1, k2);
        let sides: u32 = match sides_big {
            Some(v) => {
                if v < 1 || v > 0xFFFF_FFFF {
                    proof {
                        lemma_first_invalid_idx(full);
                    }
                    return Err(
                        WakeBotError::with_kind(
                            WakeBotErrorKind::Parse,
                            "Dice sides must be a positive integer of at most ten digits",
                        ),
                    );
                }
                v as u32
            },
            None => {
                proof {
                    lemma_first_invalid_idx(full);
                }
                return Err(
                    WakeBotError::with_kind(
                        WakeBotErrorKind::Parse,
                        "Dice sides must be a positive integer of at most ten digits",
                    ),
                );
            },
        };
        // Keep selector, if present.
        let mut keep: Option<(bool, u64)> = None;
        let mut term_end: usize = k2;
        if k2 < n && chars[k2] == 'k' {
            if k2 + 1 < n && (chars[k2 + 1] == 'h' || chars[k2 + 1] == 'l') && k2 + 2 < n
                && is_digit(chars[k2 + 2]) {
                let m = run_end(chars, k2 + 2);
                proof {
                    lemma_digit_run_end(s, k2 + 2);
                }
                match parse_digits(chars, k2 + 2, m) {
                    Some(v) => {
                        keep = Some((chars[k2 + 1] == 'l', v));
                        term_end = m;
                    },
                    None => {
                        proof {
                            lemma_first_invalid_idx(full);
                        }
                        return Err(
                            WakeBotError::with_kind(
                                WakeBotErrorKind::Parse,
                                "Keep count is too large",
                            ),
                        );
                    },
                }
            } else if k2 + 1 < n && is_digit(chars[k2 + 1]) {
                let m = run_end(chars, k2 + 1);
                proof {
                    lemma_digit_run_end(s, k2 + 1);
                }
                match parse_digits(chars, k2 + 1, m) {
                    Some(v) => {
                        keep = Some((false, v));
                        term_end = m;
                    },
                    None => {
                        proof {
                            lemma_first_invalid_idx(full);
                        }
                        return Err(
                            WakeBotError::with_kind(
                                WakeBotErrorKind::Parse,
                                "Keep count is too large",
                            ),
                        );
                    },
                }
            }
        }
        let suffix_end = suffix_scan(chars, term_end);
        let dt = DiceTerm { start: i, quantity, sides, keep, term_end, suffix_end };
        proof {
            assert(term_matches_shape(dt, sh));
            assert(shape_error_kind(sh) is None);
        }
        out.push(dt);
        cursor = term_end;
    }
}

} // verus!
