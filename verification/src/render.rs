use crate::errors::{WakeBotError, WakeBotErrorKind};
use crate::resolve::as_ints;
use crate::rolls::{RollModel, RollResult, RollStringResult};
use crate::scan::is_digit;
use crate::text::{dec_rep, digit_char, is_digit_char, u64_to_dec};
use vstd::prelude::*;

verus! {

/// The characters the arithmetic evaluator is given: digits, a decimal
/// point, the four operators, parentheses and spaces.  On this alphabet
/// the evaluator can name no variable, function or random quantity, so
/// its result depends on the text alone.
pub open spec fn is_eval_char(c: char) -> bool {
    ||| is_digit_char(c)
    ||| c == '.'
    ||| c == '+'
    ||| c == '-'
    ||| c == '*'
    ||| c == '/'
    ||| c == '('
    ||| c == ')'
    ||| c == ' '
}

pub open spec fn all_eval_chars(s: Seq<char>) -> bool {
    forall|i: int| 0 <= i < s.len() ==> is_eval_char(#[trigger] s[i])
}

/// What the arithmetic evaluator renders for a piece of text on the
/// evaluator alphabet: `None` when the text does not parse or evaluate,
/// else the decimal rendering of its value.
pub uninterp spec fn arith_eval(s: Seq<char>) -> Option<Seq<char>>;

/// Relies on shunting's `ShuntingParser::parse_str` and
/// `MathContext::eval`, and on `format!` over the resulting number.  On
/// text restricted to the evaluator alphabet every token is a number, an
/// operator or a parenthesis, so parsing and evaluation are a pure
/// function of the text; the rendering it produces is named `arith_eval`.
/// A parse or evaluation failure returns `None`.
#[verifier::external_body]
fn eval_arithmetic(text: &str) -> (r: Option<String>)
    requires
        all_eval_chars(text@),
    ensures
        r.deep_view() == arith_eval(text@),
{
    let expr = match shunting::ShuntingParser::parse_str(text) {
        Ok(e) => e,
        Err(_) => return None,
    };
    match shunting::MathContext::new().eval(&expr) {
        Ok(v) => Some(format!("{}", v)),
        Err(_) => None,
    }
}

/// The text with every `'*'` preceded by a backslash, so the destination
/// renderer does not read it as emphasis markup.
pub open spec fn escape_stars(s: Seq<char>) -> Seq<char>
    decreases s.len(),
{
    if s.len() == 0 {
        Seq::empty()
    } else {
        let head: Seq<char> = if s[0] == '*' {
            seq!['\\', '*']
        } else {
            seq![s[0]]
        };
        head + escape_stars(s.drop_first())
    }
}

pub proof fn lemma_escape_concat(a: Seq<char>, b: Seq<char>)
    ensures
        escape_stars(a + b) == escape_stars(a) + escape_stars(b),
    decreases a.len(),
{
    if a.len() == 0 {
        assert(a + b =~= b);
        assert(escape_stars(a) + escape_stars(b) =~= escape_stars(b));
    } else {
        assert((a + b).drop_first() =~= a.drop_first() + b);
        lemma_escape_concat(a.drop_first(), b);
        assert(escape_stars(a + b) =~= escape_stars(a) + escape_stars(b));
    }
}

pub proof fn lemma_escape_plain(a: Seq<char>)
    requires
        forall|i: int| 0 <= i < a.len() ==> #[trigger] a[i] != '*',
    ensures
        escape_stars(a) == a,
    decreases a.len(),
{
    if a.len() > 0 {
        lemma_escape_plain(a.drop_first());
        assert(escape_stars(a) =~= a);
    }
}

/// One rolled value in a trace line: discarded rolls are struck through
/// and shown with their positive face value.
pub open spec fn value_text(v: int) -> Seq<char> {
    if v < 0 {
        "~~"@ + dec_rep((-v) as nat) + "~~"@
    } else {
        dec_rep(v as nat)
    }
}

/// A group's rolled values, comma-separated, in roll order.
pub open spec fn values_text(vs: Seq<int>) -> Seq<char>
    decreases vs.len(),
{
    if vs.len() == 0 {
        Seq::empty()
    } else if vs.len() == 1 {
        value_text(vs[0])
    } else {
        values_text(vs.drop_last()) + ", "@ + value_text(vs.last())
    }
}

/// The critical markers appended to a trace line.
pub open spec fn crit_text(success: bool, failure: bool) -> Seq<char> {
    (if success {
        " - **CRITICAL SUCCESS!**"@
    } else {
        Seq::<char>::empty()
    }) + (if failure {
        " - **CRITICAL FAILURE!**"@
    } else {
        Seq::<char>::empty()
    })
}

/// The arithmetic evaluated for a group's own subtotal: its kept total
/// followed by its attached suffix.
pub open spec fn term_sub_expr(rm: RollModel) -> Seq<char> {
    dec_rep(rm.roll_total as nat) + rm.non_roll_portion
}

/// One group's trace line.
pub open spec fn term_line(rm: RollModel, subtotal: Seq<char>) -> Seq<char> {
    rm.original_text + " ("@ + values_text(rm.rolls) + ")"@ + rm.non_roll_portion + " = "@
        + subtotal + crit_text(rm.has_critical_success, rm.has_critical_failure) + "\n"@
}

/// All trace lines in order, or `None` when some subtotal does not
/// evaluate.
pub open spec fn term_lines(rms: Seq<RollModel>) -> Option<Seq<char>>
    decreases rms.len(),
{
    if rms.len() == 0 {
        Some(Seq::<char>::empty())
    } else {
        match (term_lines(rms.drop_last()), arith_eval(term_sub_expr(rms.last()))) {
            (Some(pre), Some(sub)) => Some(pre + term_line(rms.last(), sub)),
            _ => None,
        }
    }
}

/// The whole user-facing message: the escaped original text, one line per
/// group, the escaped flattened text when more than one group exists, and
/// the bolded final value of the converted text.
pub open spec fn message_model(
    orig: Seq<char>,
    converted: Seq<char>,
    rms: Seq<RollModel>,
) -> Option<Seq<char>> {
    match (term_lines(rms), arith_eval(converted)) {
        (Some(lines), Some(full)) => Some(
            escape_stars(orig) + "\n"@ + lines + (if rms.len() > 1 {
                escape_stars(converted) + "\n"@
            } else {
                Seq::<char>::empty()
            }) + "**"@ + full + "**"@,
        ),
        _ => None,
    }
}

/// Whether a result's texts stay on the evaluator alphabet, so that the
/// renderer may hand them to the evaluator.
pub open spec fn renderable(converted: Seq<char>, rms: Seq<RollModel>) -> bool {
    &&& all_eval_chars(converted)
    &&& forall|n: int|
        0 <= n < rms.len() ==> all_eval_chars((#[trigger] rms[n]).non_roll_portion)
}

/// Every character of a decimal rendering is a digit.
pub proof fn lemma_dec_rep_digits(n: nat)
    ensures
        forall|i: int| 0 <= i < dec_rep(n).len() ==> is_digit_char(#[trigger] dec_rep(n)[i]),
    decreases n,
{
    if n < 10 {
        assert(is_digit_char(digit_char(n)));
    } else {
        lemma_dec_rep_digits(n / 10);
        let pre = dec_rep(n / 10);
        assert forall|i: int| 0 <= i < dec_rep(n).len() implies is_digit_char(
            #[trigger] dec_rep(n)[i],
        ) by {
            if i < pre.len() {
                assert(dec_rep(n)[i] == pre[i]);
            } else {
                assert(dec_rep(n)[i] == digit_char(n % 10));
                assert(is_digit_char(digit_char(n % 10)));
            }
        }
    }
}

/// A subtotal that does not evaluate makes the whole line list fail.
pub proof fn lemma_term_lines_none(rms: Seq<RollModel>, n: int)
    requires
        0 <= n < rms.len(),
        arith_eval(term_sub_expr(rms[n])) is None,
    ensures
        term_lines(rms) is None,
    decreases rms.len(),
{
    if n < rms.len() - 1 {
        lemma_term_lines_none(rms.drop_last(), n);
    }
}

/// LAW (round trip): what the user sees agrees with re-evaluating the
/// substituted text.  For a command that interpreted and rendered
/// successfully, the converted text is the original text with each dice
/// term's span replaced by the decimal digits of its kept total, and the
/// final bolded number of the message is exactly the evaluator's result
/// on that substituted text.
pub proof fn lemma_round_trip(
    res: RollStringResult,
    s: Seq<char>,
    vals: Seq<int>,
    off: int,
    msg: Seq<char>,
)
    requires
        crate::rolls::interpreted_ok(res, s, vals, off),
        Some(msg) == message_model(
            res.original_text@,
            res.converted_text@,
            res.rolls@.map_values(|x: RollResult| x@),
        ),
    ensures
        res.converted_text@ == crate::rolls::converted_model(s, vals),
        arith_eval(crate::rolls::converted_model(s, vals)) is Some,
        msg =~= escape_stars(s) + "\n"@ + term_lines(
            res.rolls@.map_values(|x: RollResult| x@),
        )->Some_0 + (if res.rolls@.len() > 1 {
            escape_stars(crate::rolls::converted_model(s, vals)) + "\n"@
        } else {
            Seq::<char>::empty()
        }) + "**"@ + arith_eval(crate::rolls::converted_model(s, vals))->Some_0 + "**"@,
{
    let rms = res.rolls@.map_values(|x: RollResult| x@);
    assert(rms.len() == res.rolls@.len());
    assert(res.original_text@ == s);
    assert(res.converted_text@ == crate::rolls::converted_model(s, vals));
}

/// Whether every character of the text is on the evaluator alphabet.
fn check_eval_chars(s: &str) -> (r: bool)
    ensures
        r == all_eval_chars(s@),
{
    let n = s.unicode_len();
    let mut i: usize = 0;
    while i < n
        invariant
            i <= n,
            n == s@.len(),
            forall|k: int| 0 <= k < i ==> is_eval_char(#[trigger] s@[k]),
        decreases n - i,
    {
        let c = s.get_char(i);
        let ok = is_digit(c) || c == '.' || c == '+' || c == '-' || c == '*' || c == '/' || c == '('
            || c == ')' || c == ' ';
        if !ok {
            return false;
        }
        i += 1;
    }
    true
}

/// Escapes emphasis markup: every `'*'` gains a preceding backslash.
pub fn escape_markup(s: &str) -> (r: String)
    ensures
        r@ == escape_stars(s@),
{
    let n = s.unicode_len();
    let mut r = String::new();
    let mut start: usize = 0;
    let mut i: usize = 0;
    while i < n
        invariant
            start <= i <= n,
            n == s@.len(),
            r@ == escape_stars(s@.take(start as int)),
            forall|k: int| start <= k < i ==> #[trigger] s@[k] != '*',
        decreases n - i,
    {
        if s.get_char(i) == '*' {
            let span = s.substring_char(start, i);
            r.append(span);
            r.append("\\*");
            proof {
                let a = s@.take(start as int);
                let b = s@.subrange(start as int, i as int);
                let c = s@.subrange(i as int, i + 1);
                lemma_escape_concat(a, b);
                lemma_escape_plain(b);
                lemma_escape_concat(a + b, c);
                assert(c =~= seq![s@[i as int]]);
                assert(c.drop_first() =~= Seq::<char>::empty());
                assert(escape_stars(Seq::<char>::empty()) == Seq::<char>::empty());
                assert(escape_stars(c) =~= seq!['\\', '*']);
                assert(a + b + c =~= s@.take(i + 1));
                assert("\\*"@ =~= seq!['\\', '*']) by {
                    reveal_strlit("\\*");
                }
                assert(r@ =~= escape_stars(s@.take(i + 1)));
            }
            start = i + 1;
        }
        i += 1;
    }
    let tail = s.substring_char(start, n);
    r.append(tail);
    proof {
        let a = s@.take(start as int);
        let b = s@.subrange(start as int, n as int);
        lemma_escape_concat(a, b);
        lemma_escape_plain(b);
        assert(a + b =~= s@);
        assert(r@ =~= escape_stars(s@));
    }
    r
}

/// The magnitude of a negative value.
fn i64_magnitude(v: i64) -> (r: u64)
    requires
        v < 0,
    ensures
        r == -(v as int),
{
    if v == i64::MIN {
        9223372036854775808u64
    } else {
        (-v) as u64
    }
}

/// Renders a group's rolled values, struck through where discarded.
fn render_values(vals: &Vec<i64>) -> (r: String)
    ensures
        r@ == values_text(as_ints(vals@)),
{
    let ghost ints = as_ints(vals@);
    let n = vals.len();
    let mut r = String::new();
    let mut i: usize = 0;
    while i < n
        invariant
            i <= n,
            n == vals@.len(),
            ints == as_ints(vals@),
            r@ == values_text(ints.take(i as int)),
        decreases n - i,
    {
        if i > 0 {
            r.append(", ");
        }
        let v = vals[i];
        proof {
            assert(ints[i as int] == v as int);
        }
        if v < 0 {
            r.append("~~");
            let mag = u64_to_dec(i64_magnitude(v));
            r.append(mag.as_str());
            r.append("~~");
        } else {
            let dec = u64_to_dec(v as u64);
            r.append(dec.as_str());
        }
        proof {
            assert(ints.take(i + 1).drop_last() =~= ints.take(i as int));
            assert(ints.take(i + 1).last() == ints[i as int]);
            assert(r@ =~= values_text(ints.take(i + 1)));
        }
        i += 1;
    }
    proof {
        assert(ints.take(n as int) =~= ints);
    }
    r
}

/// Renders the user-facing trace of one interpreted command.  Fails with
/// an evaluation error exactly when some text leaves the evaluator
/// alphabet or does not evaluate; it never aborts.
pub fn format_rolls_result_new(result: &RollStringResult) -> (r: Result<String, WakeBotError>)
    ensures
        ({
            let rms = result.rolls@.map_values(|x: RollResult| x@);
            match r {
                Ok(msg) => {
                    &&& renderable(result.converted_text@, rms)
                    &&& Some(msg@) == message_model(
                        result.original_text@,
                        result.converted_text@,
                        rms,
                    )
                },
                Err(e) => {
                    &&& e.kind == WakeBotErrorKind::Evaluation
                    &&& (!renderable(result.converted_text@, rms) || message_model(
                        result.original_text@,
                        result.converted_text@,
                        rms,
                    ) is None)
                    &&& e.details@ == "Failed to evaluate roll arithmetic"@
                },
            }
        }),
{
    let ghost rms = result.rolls@.map_values(|x: RollResult| x@);
    if !check_eval_chars(result.converted_text.as_str()) {
        return Err(
            WakeBotError::with_kind(
                WakeBotErrorKind::Evaluation,
                "Failed to evaluate roll arithmetic",
            ),
        );
    }
    let rcount = result.rolls.len();
    let mut lines = String::new();
    let mut n: usize = 0;
    while n < rcount
        invariant
            n <= rcount,
            rcount == result.rolls@.len(),
            rms == result.rolls@.map_values(|x: RollResult| x@),
            all_eval_chars(result.converted_text@),
            forall|m: int| 0 <= m < n ==> all_eval_chars((#[trigger] rms[m]).non_roll_portion),
            Some(lines@) == term_lines(rms.take(n as int)),
        decreases rcount - n,
    {
        let rr = &result.rolls[n];
        proof {
            assert(rms[n as int] == result.rolls@[n as int]@);
        }
        let mut sub = u64_to_dec(rr.roll_total);
        sub.append(rr.non_roll_portion.as_str());
        proof {
            assert(sub@ == term_sub_expr(rms[n as int]));
        }
        if !check_eval_chars(sub.as_str()) {
            proof {
                let bad = choose|k: int| 0 <= k < sub@.len() && !is_eval_char(sub@[k]);
                lemma_dec_rep_digits(rms[n as int].roll_total as nat);
                assert(bad >= dec_rep(rms[n as int].roll_total as nat).len());
                assert(!all_eval_chars(rms[n as int].non_roll_portion));
            }
            return Err(
                WakeBotError::with_kind(
                    WakeBotErrorKind::Evaluation,
                    "Failed to evaluate roll arithmetic",
                ),
            );
        }
        proof {
            let rm = rms[n as int];
            assert forall|j: int| 0 <= j < rm.non_roll_portion.len() implies is_eval_char(
                #[trigger] rm.non_roll_portion[j],
            ) by {
                assert(sub@[dec_rep(rm.roll_total as nat).len() + j] == rm.non_roll_portion[j]);
            }
        }
        let subtotal = match eval_arithmetic(sub.as_str()) {
            Some(x) => x,
            None => {
                proof {
                    lemma_term_lines_none(rms, n as int);
                }
                return Err(
                    WakeBotError::with_kind(
                        WakeBotErrorKind::Evaluation,
                        "Failed to evaluate roll arithmetic",
                    ),
                );
            },
        };
        let ghost lines_before = lines@;
        lines.append(rr.original_text.as_str());
        lines.append(" (");
        let vals_txt = render_values(&rr.rolls);
        lines.append(vals_txt.as_str());
        lines.append(")");
        lines.append(rr.non_roll_portion.as_str());
        lines.append(" = ");
        lines.append(subtotal.as_str());
        if rr.has_critical_success {
            lines.append(" - **CRITICAL SUCCESS!**");
        }
        if rr.has_critical_failure {
            lines.append(" - **CRITICAL FAILURE!**");
        }
        lines.append("\n");
        proof {
            assert(rms.take(n + 1).drop_last() =~= rms.take(n as int));
            assert(rms.take(n + 1).last() == rms[n as int]);
            assert(lines@ =~= lines_before + term_line(rms[n as int], subtotal@));
        }
        n += 1;
    }
    proof {
        assert(rms.take(rcount as int) =~= rms);
    }
    let full = match eval_arithmetic(result.converted_text.as_str()) {
        Some(x) => x,
        None => {
            return Err(
                WakeBotError::with_kind(
                    WakeBotErrorKind::Evaluation,
                    "Failed to evaluate roll arithmetic",
                ),
            );
        },
    };
    let mut msg = escape_markup(result.original_text.as_str());
    msg.append("\n");
    msg.append(lines.as_str());
    if rcount > 1 {
        let esc = escape_markup(result.converted_text.as_str());
        msg.append(esc.as_str());
        msg.append("\n");
    }
    msg.append("**");
    msg.append(full.as_str());
    msg.append("**");
    proof {
        assert(msg@ =~= message_model(
            result.original_text@,
            result.converted_text@,
            rms,
        )->Some_0);
    }
    Ok(msg)
}

} // verus!
