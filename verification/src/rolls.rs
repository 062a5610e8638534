use crate::errors::{WakeBotError, WakeBotErrorKind};
use crate::resolve::{
    as_ints, has_value, keep_model, kept_sum, resolve_rolls, resolved_values, spec_crit_failure,
    spec_crit_success, u32s_as_ints,
};
use crate::scan::{
    all_terms_valid, first_invalid_idx, lemma_lex_terms_props, lex_terms, scan_terms,
    shape_error_kind, shape_error_msg, shape_quantity, shape_sides, term_match_at,
    term_matches_shape, term_shape_at, DiceTerm, TermShape,
};
use crate::text::{dec_rep, digits_val, str_chars, u64_to_dec};
use vstd::prelude::*;

verus! {

/// One resolved dice term.
///
/// `rolls` holds every rolled value in roll order; a negative entry is a
/// discarded roll whose magnitude is the original face value.  `roll_total`
/// is the sum of the kept (non-negative) entries.  The critical flags are
/// meaningful only for twenty-sided dice and are decided by kept rolls
/// alone.
#[derive(Debug)]
pub struct RollResult {
    /// The dice term exactly as it appears in the command text.
    pub original_text: String,
    /// Arithmetic attached directly after the term, shown in its trace
    /// line; it stays in the converted text for the final evaluation.
    pub non_roll_portion: String,
    /// The rolled values; discarded rolls are negated.
    pub rolls: Vec<i64>,
    /// The sum of the kept rolls.
    pub roll_total: u64,
    /// A kept 20 on a twenty-sided die.
    pub has_critical_success: bool,
    /// A kept 1 on a twenty-sided die.
    pub has_critical_failure: bool,
    /// The term's position in the original, un-rewritten command text;
    /// trace lines are ordered by it, left to right, regardless of
    /// resolution order.
    pub sorting_priority: usize,
}

/// The mathematical value of a `RollResult`.
#[verifier::ext_equal]
pub struct RollModel {
    pub original_text: Seq<char>,
    pub non_roll_portion: Seq<char>,
    pub rolls: Seq<int>,
    pub roll_total: int,
    pub has_critical_success: bool,
    pub has_critical_failure: bool,
    pub sorting_priority: int,
}

impl View for RollResult {
    type V = RollModel;

    open spec fn view(&self) -> RollModel {
        RollModel {
            original_text: self.original_text@,
            non_roll_portion: self.non_roll_portion@,
            rolls: as_ints(self.rolls@),
            roll_total: self.roll_total as int,
            has_critical_success: self.has_critical_success,
            has_critical_failure: self.has_critical_failure,
            sorting_priority: self.sorting_priority as int,
        }
    }
}

impl RollResult {
    pub fn new(
        original_text: String,
        non_roll_portion: String,
        rolls: Vec<i64>,
        roll_total: u64,
        has_critical_success: bool,
        has_critical_failure: bool,
        sorting_priority: usize,
    ) -> (r: Self)
        ensures
            r.original_text == original_text,
            r.non_roll_portion == non_roll_portion,
            r.rolls == rolls,
            r.roll_total == roll_total,
            r.has_critical_success == has_critical_success,
            r.has_critical_failure == has_critical_failure,
            r@.sorting_priority == sorting_priority,
    {
        RollResult {
            original_text,
            non_roll_portion,
            rolls,
            roll_total,
            has_critical_success,
            has_critical_failure,
            sorting_priority,
        }
    }
}

/// The outcome of interpreting one command: the original text, the text
/// with every dice term replaced by its kept total, and the resolved
/// groups in left-to-right order.
#[derive(Debug)]
pub struct RollStringResult {
    pub original_text: String,
    pub converted_text: String,
    pub rolls: Vec<RollResult>,
}

impl RollStringResult {
    pub fn new(original_text: &str) -> (r: Self)
        ensures
            r.original_text@ == original_text@,
            r.converted_text@ == original_text@,
            r.rolls@.len() == 0,
    {
        RollStringResult {
            converted_text: original_text.to_owned(),
            original_text: original_text.to_owned(),
            rolls: Vec::new(),
        }
    }
}

/// The command text with a leading `'!'` removed, as older saved commands
/// carry one.
pub open spec fn stripped_spec(s: Seq<char>) -> Seq<char> {
    if s.len() > 0 && s[0] == '!' {
        s.subrange(1, s.len() as int)
    } else {
        s
    }
}

/// A term's keep selector with its count resolved to a number.
pub open spec fn term_keep_model(sh: TermShape) -> Option<(bool, nat)> {
    match sh.keep_low {
        None => None,
        Some(low) => Some((low, digits_val(sh.keep_digits))),
    }
}

/// The model of one resolved dice term: the term's own text, its attached
/// suffix, the resolved roll sequence for the given raw values, the kept
/// total, the critical flags, and the term's position offset by the
/// caller's base.
pub open spec fn roll_model_of(s: Seq<char>, sh: TermShape, raw: Seq<int>, offset: int) -> RollModel {
    let vs = resolved_values(raw, term_keep_model(sh));
    RollModel {
        original_text: s.subrange(sh.start, sh.term_end),
        non_roll_portion: s.subrange(sh.term_end, sh.suffix_end),
        rolls: vs,
        roll_total: kept_sum(vs),
        has_critical_success: spec_crit_success(shape_sides(sh), vs),
        has_critical_failure: spec_crit_failure(shape_sides(sh), vs),
        sorting_priority: sh.start + offset,
    }
}

/// The total quantity of dice requested by the first `n` terms.
pub open spec fn quantity_sum(ts: Seq<TermShape>, n: int) -> nat
    decreases n,
{
    if n <= 0 {
        0
    } else {
        quantity_sum(ts, n - 1) + shape_quantity(ts[n - 1])
    }
}

pub proof fn lemma_quantity_sum_monotone(ts: Seq<TermShape>, a: int, b: int)
    requires
        a <= b,
    ensures
        quantity_sum(ts, a) <= quantity_sum(ts, b),
    decreases b - a,
{
    if a < b {
        lemma_quantity_sum_monotone(ts, a, b - 1);
    }
}

/// The raw rolled values consumed by term `n` out of the flat value list.
pub open spec fn term_raw_slice(ts: Seq<TermShape>, vals: Seq<int>, n: int) -> Seq<int> {
    vals.subrange(quantity_sum(ts, n) as int, quantity_sum(ts, n + 1) as int)
}

/// Whether term `n`'s slice of the flat value list has the right length
/// and every value on the term's die.
pub open spec fn term_slice_ok(ts: Seq<TermShape>, vals: Seq<int>, n: int) -> bool {
    let raw = term_raw_slice(ts, vals, n);
    &&& quantity_sum(ts, n + 1) <= vals.len()
    &&& raw.len() == shape_quantity(ts[n])
    &&& forall|k: int| 0 <= k < raw.len() ==> 1 <= #[trigger] raw[k] <= shape_sides(ts[n])
}

/// Whether a flat value list provides exactly the dice the terms request,
/// each value on its term's die.
pub open spec fn values_fit(ts: Seq<TermShape>, vals: Seq<int>) -> bool {
    &&& vals.len() == quantity_sum(ts, ts.len() as int)
    &&& forall|n: int| 0 <= n < ts.len() ==> #[trigger] term_slice_ok(ts, vals, n)
}

/// The kept total of term `n`, for the given flat values.
pub open spec fn term_total(ts: Seq<TermShape>, vals: Seq<int>, n: int) -> int {
    kept_sum(resolved_values(term_raw_slice(ts, vals, n), term_keep_model(ts[n])))
}

/// The converted text from term `n` on, with the text cursor at `cursor`:
/// each remaining term's span is replaced by the decimal digits of its
/// kept total, everything between terms is kept verbatim.
pub open spec fn splice_terms(
    s: Seq<char>,
    ts: Seq<TermShape>,
    vals: Seq<int>,
    n: int,
    cursor: int,
) -> Seq<char>
    decreases ts.len() - n,
{
    if n < 0 || n >= ts.len() {
        s.subrange(cursor, s.len() as int)
    } else {
        s.subrange(cursor, ts[n].start) + dec_rep(term_total(ts, vals, n) as nat) + splice_terms(
            s,
            ts,
            vals,
            n + 1,
            ts[n].term_end,
        )
    }
}

/// The converted text of the whole command.
pub open spec fn converted_model(s: Seq<char>, vals: Seq<int>) -> Seq<char> {
    splice_terms(s, lex_terms(s, 0), vals, 0, 0)
}

/// Strips the leading `'!'` some saved commands carry.
fn strip_bang(input: &str) -> (r: &str)
    ensures
        r@ == stripped_spec(input@),
{
    let n = input.unicode_len();
    if n > 0 && input.get_char(0) == '!' {
        input.substring_char(1, n)
    } else {
        input
    }
}

/// Relies on `rand::thread_rng` and `rand::Rng::gen_range`: a draw from the
/// inclusive range `1..=sides` always lies inside that range, and the call
/// panics only on an empty range, which `sides >= 1` rules out.  Nothing
/// more is assumed of the value: it is random.
#[verifier::external_body]
fn roll_die(sides: u32) -> (r: u32)
    requires
        1 <= sides,
    ensures
        1 <= r <= sides,
{
    rand::Rng::gen_range(&mut rand::thread_rng(), 1..=sides)
}

/// What a successful interpretation looks like: the original text is the
/// (bang-stripped) input, every scanned term became one `RollResult`
/// resolving the values handed to it, the groups sit in left-to-right
/// text order, and the converted text is the input with each term's span
/// replaced by its kept total.
pub open spec fn interpreted_ok(r: RollStringResult, s: Seq<char>, vals: Seq<int>, offset: int) -> bool {
    let ts = lex_terms(s, 0);
    &&& r.original_text@ == s
    &&& r.rolls@.len() == ts.len()
    &&& forall|n: int|
        0 <= n < ts.len() ==> (#[trigger] r.rolls@[n])@ == roll_model_of(
            s,
            ts[n],
            term_raw_slice(ts, vals, n),
            offset,
        )
    &&& forall|n: int, m: int|
        0 <= n < m < ts.len() ==> (#[trigger] r.rolls@[n])@.sorting_priority < (
        #[trigger] r.rolls@[m])@.sorting_priority
    &&& r.converted_text@ == converted_model(s, vals)
}

/// LAW: each resolved group answers for exactly the requested quantity of
/// dice.  Its roll list has one entry per requested die, the kept and
/// discarded entries partition it, and the group's total is the sum of
/// exactly the undiscarded face values.
pub proof fn lemma_group_partition(
    res: RollStringResult,
    s: Seq<char>,
    vals: Seq<int>,
    off: int,
    n: int,
)
    requires
        interpreted_ok(res, s, vals, off),
        values_fit(lex_terms(s, 0), vals),
        0 <= n < res.rolls@.len(),
    ensures
        ({
            let ts = lex_terms(s, 0);
            let rm = (res.rolls@[n])@;
            let raw = term_raw_slice(ts, vals, n);
            &&& rm.rolls.len() == shape_quantity(ts[n])
            &&& crate::resolve::count_kept(rm.rolls) + crate::resolve::count_discarded(rm.rolls)
                == shape_quantity(ts[n])
            &&& rm.roll_total == crate::resolve::undiscarded_sum(
                raw,
                term_keep_model(ts[n]),
                raw.len() as int,
            )
        }),
{
    let ts = lex_terms(s, 0);
    let raw = term_raw_slice(ts, vals, n);
    assert(term_slice_ok(ts, vals, n));
    crate::resolve::lemma_kept_discarded_partition(raw, term_keep_model(ts[n]));
}

/// Builds the interpretation result once every term is scanned, validated,
/// and supplied with exactly its rolled values.
fn assemble(
    stripped: &str,
    chars: &Vec<char>,
    terms: &Vec<DiceTerm>,
    values: &Vec<u32>,
    input_offset: usize,
) -> (r: RollStringResult)
    requires
        stripped@ == chars@,
        chars@.len() + input_offset <= usize::MAX,
        terms@.len() == lex_terms(chars@, 0).len(),
        forall|n: int|
            0 <= n < terms@.len() ==> term_matches_shape(
                #[trigger] terms@[n],
                lex_terms(chars@, 0)[n],
            ),
        all_terms_valid(chars@),
        values_fit(lex_terms(chars@, 0), u32s_as_ints(values@)),
    ensures
        interpreted_ok(r, chars@, u32s_as_ints(values@), input_offset as int),
{
    let ghost s = chars@;
    let ghost ts = lex_terms(s, 0);
    let ghost vals_g = u32s_as_ints(values@);
    let ghost off = input_offset as int;
    proof {
        lemma_lex_terms_props(s, 0);
        assert(splice_terms(s, ts, vals_g, 0, 0) == converted_model(s, vals_g));
    }
    let tcount = terms.len();
    let vlen = values.len();
    let mut rolls: Vec<RollResult> = Vec::new();
    let mut converted = String::new();
    let mut prev_end: usize = 0;
    let mut pos: usize = 0;
    let mut n: usize = 0;
    while n < tcount
        invariant
            vlen == values@.len(),
            stripped@ == s,
            s == chars@,
            ts == lex_terms(s, 0),
            vals_g == u32s_as_ints(values@),
            off == input_offset as int,
            s.len() + input_offset <= usize::MAX,
            tcount == terms@.len() == ts.len(),
            forall|m: int|
                0 <= m < terms@.len() ==> term_matches_shape(#[trigger] terms@[m], ts[m]),
            all_terms_valid(s),
            values_fit(ts, vals_g),
            forall|m: int|
                0 <= m < ts.len() ==> {
                    let t = #[trigger] ts[m];
                    &&& 0 <= t.start
                    &&& term_match_at(s, t.start)
                    &&& t == term_shape_at(s, t.start)
                    &&& t.start + 2 <= t.term_end <= t.suffix_end <= s.len()
                },
            forall|a: int, b: int|
                0 <= a < b < ts.len() ==> #[trigger] ts[a].term_end <= #[trigger] ts[b].start,
            n <= tcount,
            pos == quantity_sum(ts, n as int),
            pos <= values@.len(),
            prev_end as int == (if n == 0 {
                0
            } else {
                ts[n - 1].term_end
            }),
            prev_end <= s.len(),
            converted@ + splice_terms(s, ts, vals_g, n as int, prev_end as int) == splice_terms(
                s,
                ts,
                vals_g,
                0,
                0,
            ),
            rolls@.len() == n,
            forall|m: int|
                0 <= m < n ==> (#[trigger] rolls@[m])@ == roll_model_of(
                    s,
                    ts[m],
                    term_raw_slice(ts, vals_g, m),
                    off,
                ),
        decreases tcount - n,
    {
        let t = terms[n];
        let ghost sh = ts[n as int];
        proof {
            assert(term_matches_shape(t, sh));
            assert(shape_error_kind(sh) is None);
            assert(shape_quantity(sh) <= 1000);
            assert(term_slice_ok(ts, vals_g, n as int));
            assert(quantity_sum(ts, n as int + 1) == pos + shape_quantity(sh));
            assert(vals_g.len() == values@.len());
        }
        let qty: usize = t.quantity as usize;
        proof {
            assert(qty == shape_quantity(sh));
            assert(pos + qty <= vlen);
        }
        // Copy this term's slice of the flat value list.
        let mut raw: Vec<u32> = Vec::new();
        let mut k: usize = 0;
        while k < qty
            invariant
                k <= qty,
                pos + qty <= vlen,
                vlen == values@.len(),
                raw@.len() == k,
                forall|j: int| 0 <= j < k ==> #[trigger] raw@[j] == values@[pos + j],
            decreases qty - k,
        {
            raw.push(values[pos + k]);
            k += 1;
        }
        let ghost slice = term_raw_slice(ts, vals_g, n as int);
        proof {
            assert(u32s_as_ints(raw@) =~= slice);
        }
        let (resolved, total) = resolve_rolls(&raw, t.keep);
        let ghost vs = resolved_values(slice, term_keep_model(sh));
        proof {
            assert(keep_model(t.keep) == term_keep_model(sh));
            assert(as_ints(resolved@) == vs);
        }
        let crit_s = t.sides == 20 && has_value(&resolved, 20);
        let crit_f = t.sides == 20 && has_value(&resolved, 1);
        proof {
            assert(crit_s == spec_crit_success(shape_sides(sh), vs));
            assert(crit_f == spec_crit_failure(shape_sides(sh), vs));
        }
        let orig_text = stripped.substring_char(t.start, t.term_end).to_owned();
        let suffix = stripped.substring_char(t.term_end, t.suffix_end).to_owned();
        proof {
            assert(t.start == sh.start && sh.start + 2 <= sh.term_end <= s.len());
            assert(t.start + input_offset <= usize::MAX);
        }
        let priority = t.start + input_offset;
        proof {
            assert(priority as int == sh.start + off);
        }
        let ghost converted_before = converted@;
        let gap = stripped.substring_char(prev_end, t.start);
        converted.append(gap);
        let tot_str = u64_to_dec(total);
        converted.append(tot_str.as_str());
        proof {
            assert(term_total(ts, vals_g, n as int) == total as int);
            assert(dec_rep(term_total(ts, vals_g, n as int) as nat) == tot_str@);
            assert(splice_terms(s, ts, vals_g, n as int, prev_end as int) =~= s.subrange(
                prev_end as int,
                sh.start,
            ) + tot_str@ + splice_terms(s, ts, vals_g, n as int + 1, sh.term_end));
            assert(converted@ =~= converted_before + s.subrange(prev_end as int, sh.start)
                + tot_str@);
            assert(converted@ + splice_terms(s, ts, vals_g, n as int + 1, sh.term_end)
                =~= converted_before + splice_terms(s, ts, vals_g, n as int, prev_end as int));
        }
        let rr = RollResult::new(orig_text, suffix, resolved, total, crit_s, crit_f, priority);
        proof {
            let model = roll_model_of(s, sh, slice, off);
            assert(rr@.original_text == model.original_text);
            assert(rr@.non_roll_portion == model.non_roll_portion);
            assert(rr@.rolls == model.rolls);
            assert(rr@.roll_total == model.roll_total);
            assert(rr@.has_critical_success == model.has_critical_success);
            assert(rr@.has_critical_failure == model.has_critical_failure);
            assert(rr@.sorting_priority == model.sorting_priority);
            assert(rr@ =~= model);
        }
        rolls.push(rr);
        pos = pos + qty;
        prev_end = t.term_end;
        n += 1;
    }
    let tail = stripped.substring_char(prev_end, chars.len());
    converted.append(tail);
    proof {
        assert(splice_terms(s, ts, vals_g, n as int, prev_end as int) == s.subrange(
            prev_end as int,
            s.len() as int,
        ));
        assert(converted@ =~= splice_terms(s, ts, vals_g, 0, 0));
    }
    let result = RollStringResult {
        original_text: stripped.to_owned(),
        converted_text: converted,
        rolls,
    };
    proof {
        assert forall|a: int, b: int| 0 <= a < b < ts.len() implies (
        #[trigger] result.rolls@[a])@.sorting_priority < (
        #[trigger] result.rolls@[b])@.sorting_priority by {
            assert(ts[a].term_end <= ts[b].start);
        }
    }
    result
}

/// Interprets a command with the rolled values supplied by the caller: one
/// value per die, in text order.  The first invalid term is rejected
/// before any value is consumed; values that do not match the terms in
/// count or range are rejected with a parse error.  This is the fully
/// deterministic core of the interpreter.
pub fn interpret_rolls_with_values(input: &str, input_offset: usize, values: &Vec<u32>) -> (r:
    Result<RollStringResult, WakeBotError>)
    requires
        input@.len() + input_offset <= usize::MAX,
    ensures
        ({
            let s = stripped_spec(input@);
            let ts = lex_terms(s, 0);
            let fi = first_invalid_idx(ts);
            match r {
                Ok(res) => {
                    &&& fi == ts.len()
                    &&& values_fit(ts, u32s_as_ints(values@))
                    &&& interpreted_ok(res, s, u32s_as_ints(values@), input_offset as int)
                },
                Err(e) => {
                    ||| (fi < ts.len() && Some(e.kind) == shape_error_kind(ts[fi]) && e.details@
                        == shape_error_msg(ts[fi]))
                    ||| (fi == ts.len() && !values_fit(ts, u32s_as_ints(values@)) && e.kind
                        == WakeBotErrorKind::Parse && e.details@
                        == "Provided roll values do not match the dice terms"@)
                },
            }
        }),
{
    let stripped = strip_bang(input);
    let chars = str_chars(stripped);
    let ghost s = chars@;
    let ghost ts = lex_terms(s, 0);
    let ghost vals_g = u32s_as_ints(values@);
    let terms = match scan_terms(&chars) {
        Ok(t) => t,
        Err(e) => {
            return Err(e);
        },
    };
    proof {
        lemma_lex_terms_props(s, 0);
    }
    let tcount = terms.len();
    let vlen = values.len();
    let mut pos: usize = 0;
    let mut n: usize = 0;
    while n < tcount
        invariant
            vlen == values@.len(),
            s == chars@,
            s == stripped_spec(input@),
            ts == lex_terms(s, 0),
            vals_g == u32s_as_ints(values@),
            tcount == terms@.len() == ts.len(),
            forall|m: int|
                0 <= m < terms@.len() ==> term_matches_shape(#[trigger] terms@[m], ts[m]),
            all_terms_valid(s),
            first_invalid_idx(ts) == ts.len(),
            n <= tcount,
            pos == quantity_sum(ts, n as int),
            pos <= vlen,
            forall|m: int| 0 <= m < n ==> #[trigger] term_slice_ok(ts, vals_g, m),
        decreases tcount - n,
    {
        let t = terms[n];
        let ghost sh = ts[n as int];
        proof {
            assert(term_matches_shape(t, sh));
            assert(shape_error_kind(sh) is None);
            assert(shape_quantity(sh) <= 1000);
            assert(vals_g.len() == values@.len());
            assert(quantity_sum(ts, n as int + 1) == pos + shape_quantity(sh));
        }
        let qty: usize = t.quantity as usize;
        proof {
            assert(qty == shape_quantity(sh));
        }
        if vlen - pos < qty {
            proof {
                assert(!term_slice_ok(ts, vals_g, n as int));
                assert(!values_fit(ts, vals_g));
            }
            return Err(WakeBotError::new("Provided roll values do not match the dice terms"));
        }
        let mut k: usize = 0;
        while k < qty
            invariant
                k <= qty,
                pos + qty <= vlen,
                vlen == values@.len(),
                vals_g == u32s_as_ints(values@),
                s == stripped_spec(input@),
                ts == lex_terms(s, 0),
                first_invalid_idx(ts) == ts.len(),
                n < tcount == ts.len(),
                sh == ts[n as int],
                t.sides == shape_sides(sh),
                qty == shape_quantity(sh),
                pos == quantity_sum(ts, n as int),
                quantity_sum(ts, n as int + 1) == pos + qty,
                forall|j: int| 0 <= j < k ==> 1 <= #[trigger] vals_g[pos + j] <= t.sides,
            decreases qty - k,
        {
            let v = values[pos + k];
            proof {
                assert(vals_g[pos + k] == values@[pos + k] as int);
            }
            if v < 1 || v > t.sides {
                proof {
                    if term_slice_ok(ts, vals_g, n as int) {
                        assert(term_raw_slice(ts, vals_g, n as int)[k as int] == vals_g[pos + k]);
                        assert(false);
                    }
                    assert(!values_fit(ts, vals_g));
                }
                return Err(WakeBotError::new("Provided roll values do not match the dice terms"));
            }
            k += 1;
        }
        proof {
            let raw = term_raw_slice(ts, vals_g, n as int);
            assert(raw.len() == qty);
            assert forall|j: int| 0 <= j < raw.len() implies 1 <= #[trigger] raw[j] <= shape_sides(
                sh,
            ) by {
                assert(raw[j] == vals_g[pos + j]);
            }
            assert(term_slice_ok(ts, vals_g, n as int));
        }
        pos = pos + qty;
        n += 1;
    }
    if pos != vlen {
        proof {
            assert(vals_g.len() != quantity_sum(ts, ts.len() as int));
            assert(!values_fit(ts, vals_g));
        }
        return Err(WakeBotError::new("Provided roll values do not match the dice terms"));
    }
    proof {
        assert(values_fit(ts, vals_g));
    }
    Ok(assemble(stripped, &chars, &terms, values, input_offset))
}

/// Interprets a command, rolling each die with the thread-local random
/// number generator.  Every term is validated before any die is rolled.
/// On success the result is exactly what `interpret_rolls_with_values`
/// returns for some in-range choice of rolled values.
pub fn interpret_rolls(input: &str, input_offset: usize) -> (r: Result<
    RollStringResult,
    WakeBotError,
>)
    requires
        input@.len() + input_offset <= usize::MAX,
    ensures
        ({
            let s = stripped_spec(input@);
            let ts = lex_terms(s, 0);
            let fi = first_invalid_idx(ts);
            match r {
                Ok(res) => {
                    &&& fi == ts.len()
                    &&& exists|vals: Seq<int>|
                        #[trigger] values_fit(ts, vals) && interpreted_ok(
                            res,
                            s,
                            vals,
                            input_offset as int,
                        )
                },
                Err(e) => {
                    &&& fi < ts.len()
                    &&& Some(e.kind) == shape_error_kind(ts[fi])
                    &&& e.details@ == shape_error_msg(ts[fi])
                },
            }
        }),
{
    let stripped = strip_bang(input);
    let chars = str_chars(stripped);
    let ghost s = chars@;
    let ghost ts = lex_terms(s, 0);
    let terms = match scan_terms(&chars) {
        Ok(t) => t,
        Err(e) => {
            return Err(e);
        },
    };
    proof {
        lemma_lex_terms_props(s, 0);
    }
    let tcount = terms.len();
    let mut values: Vec<u32> = Vec::new();
    let mut n: usize = 0;
    while n < tcount
        invariant
            s == chars@,
            s == stripped_spec(input@),
            ts == lex_terms(s, 0),
            tcount == terms@.len() == ts.len(),
            forall|m: int|
                0 <= m < terms@.len() ==> term_matches_shape(#[trigger] terms@[m], ts[m]),
            all_terms_valid(s),
            first_invalid_idx(ts) == ts.len(),
            n <= tcount,
            values@.len() == quantity_sum(ts, n as int),
            forall|m: int| 0 <= m < n ==> #[trigger] term_slice_ok(ts, u32s_as_ints(values@), m),
        decreases tcount - n,
    {
        let t = terms[n];
        let ghost sh = ts[n as int];
        proof {
            assert(term_matches_shape(t, sh));
            assert(shape_error_kind(sh) is None);
            assert(shape_quantity(sh) <= 1000);
            assert(1 <= shape_sides(sh));
            assert(quantity_sum(ts, n as int + 1) == values@.len() + shape_quantity(sh));
        }
        let qty: usize = t.quantity as usize;
        let ghost base = values@.len() as int;
        let mut k: usize = 0;
        while k < qty
            invariant
                k <= qty,
                values@.len() == base + k,
                t.sides >= 1,
                s == chars@,
                ts == lex_terms(s, 0),
                n < tcount == ts.len(),
                sh == ts[n as int],
                t.sides == shape_sides(sh),
                qty == shape_quantity(sh),
                base == quantity_sum(ts, n as int),
                quantity_sum(ts, n as int + 1) == base + qty,
                forall|j: int|
                    0 <= j < k ==> 1 <= #[trigger] u32s_as_ints(values@)[base + j] <= t.sides,
                forall|m: int|
                    0 <= m < n ==> #[trigger] term_slice_ok(ts, u32s_as_ints(values@), m),
        decreases qty - k,
        {
            let ghost old_vals = values@;
            let v = roll_die(t.sides);
            values.push(v);
            proof {
                assert(u32s_as_ints(values@) =~= u32s_as_ints(old_vals).push(v as int));
                assert forall|m: int| 0 <= m < n implies #[trigger] term_slice_ok(
                    ts,
                    u32s_as_ints(values@),
                    m,
                ) by {
                    assert(term_slice_ok(ts, u32s_as_ints(old_vals), m));
                    lemma_quantity_sum_monotone(ts, m + 1, n as int);
                    assert(term_raw_slice(ts, u32s_as_ints(values@), m) =~= term_raw_slice(
                        ts,
                        u32s_as_ints(old_vals),
                        m,
                    ));
                }
                assert forall|j: int| 0 <= j < k + 1 implies 1 <= #[trigger] u32s_as_ints(
                    values@,
                )[base + j] <= t.sides by {
                    if j < k {
                        assert(u32s_as_ints(values@)[base + j] == u32s_as_ints(old_vals)[base + j]);
                    } else {
                        assert(u32s_as_ints(values@)[base + j] == v as int);
                    }
                }
            }
            k += 1;
        }
        proof {
            let vals_now = u32s_as_ints(values@);
            let raw = term_raw_slice(ts, vals_now, n as int);
            assert(vals_now.len() == base + qty);
            assert(raw.len() == qty);
            assert forall|j: int| 0 <= j < raw.len() implies 1 <= #[trigger] raw[j] <= shape_sides(
                sh,
            ) by {
                assert(raw[j] == vals_now[base + j]);
            }
            assert(term_slice_ok(ts, vals_now, n as int));
        }
        n += 1;
    }
    let ghost vals_g = u32s_as_ints(values@);
    proof {
        assert(values_fit(ts, vals_g));
    }
    let res = assemble(stripped, &chars, &terms, &values, input_offset);
    proof {
        assert(values_fit(ts, vals_g) && interpreted_ok(res, s, vals_g, input_offset as int));
    }
    Ok(res)
}

} // verus!
