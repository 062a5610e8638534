use vstd::prelude::*;

verus! {

/// How many indices in `[0, n)` satisfy `p`.
pub open spec fn count_matching(n: nat, p: spec_fn(int) -> bool) -> nat
    decreases n,
{
    if n == 0 {
        0
    } else {
        count_matching((n - 1) as nat, p) + (if p(n - 1) { 1nat } else { 0nat })
    }
}

pub proof fn lemma_count_le(n: nat, p: spec_fn(int) -> bool, q: spec_fn(int) -> bool)
    requires
        forall|m: int| 0 <= m < n && #[trigger] p(m) ==> q(m),
    ensures
        count_matching(n, p) <= count_matching(n, q),
    decreases n,
{
    if n > 0 {
        lemma_count_le((n - 1) as nat, p, q);
    }
}

pub proof fn lemma_count_split(
    n: nat,
    p: spec_fn(int) -> bool,
    q: spec_fn(int) -> bool,
    r: spec_fn(int) -> bool,
)
    requires
        forall|m: int| 0 <= m < n ==> (#[trigger] r(m) <==> p(m) || q(m)),
        forall|m: int| 0 <= m < n ==> !(#[trigger] p(m) && q(m)),
    ensures
        count_matching(n, r) == count_matching(n, p) + count_matching(n, q),
    decreases n,
{
    if n > 0 {
        lemma_count_split((n - 1) as nat, p, q, r);
    }
}

pub proof fn lemma_count_zero(n: nat, p: spec_fn(int) -> bool)
    requires
        forall|m: int| 0 <= m < n ==> !#[trigger] p(m),
    ensures
        count_matching(n, p) == 0,
    decreases n,
{
    if n > 0 {
        lemma_count_zero((n - 1) as nat, p);
    }
}

pub proof fn lemma_count_single(n: nat, i: int)
    requires
        0 <= i < n,
    ensures
        count_matching(n, |m: int| m == i) == 1,
    decreases n,
{
    let p = |m: int| m == i;
    if i == n - 1 {
        lemma_count_zero((n - 1) as nat, p);
    } else {
        lemma_count_single((n - 1) as nat, i);
    }
}

pub proof fn lemma_count_at_most_one(n: nat, p: spec_fn(int) -> bool)
    requires
        forall|m1: int, m2: int|
            0 <= m1 < n && 0 <= m2 < n && #[trigger] p(m1) && #[trigger] p(m2) ==> m1 == m2,
    ensures
        count_matching(n, p) <= 1,
    decreases n,
{
    if n > 0 {
        if p(n - 1) {
            lemma_count_zero((n - 1) as nat, p);
        } else {
            lemma_count_at_most_one((n - 1) as nat, p);
        }
    }
}

pub proof fn lemma_count_le_n(n: nat, p: spec_fn(int) -> bool)
    ensures
        count_matching(n, p) <= n,
    decreases n,
{
    if n > 0 {
        lemma_count_le_n((n - 1) as nat, p);
    }
}

pub proof fn lemma_count_excluded(n: nat, p: spec_fn(int) -> bool, i: int)
    requires
        0 <= i < n,
        !p(i),
    ensures
        count_matching(n, p) <= n - 1,
    decreases n,
{
    if i == n - 1 {
        lemma_count_le_n((n - 1) as nat, p);
    } else {
        lemma_count_excluded((n - 1) as nat, p, i);
    }
}

pub proof fn lemma_count_complement(n: nat, p: spec_fn(int) -> bool, q: spec_fn(int) -> bool)
    requires
        forall|m: int| 0 <= m < n ==> (#[trigger] q(m) <==> !p(m)),
    ensures
        count_matching(n, p) + count_matching(n, q) == n,
    decreases n,
{
    if n > 0 {
        lemma_count_complement((n - 1) as nat, p, q);
    }
}

pub proof fn lemma_count_congruent(n: nat, p: spec_fn(int) -> bool, q: spec_fn(int) -> bool)
    requires
        forall|m: int| 0 <= m < n ==> (#[trigger] p(m) <==> #[trigger] q(m)),
    ensures
        count_matching(n, p) == count_matching(n, q),
    decreases n,
{
    if n > 0 {
        lemma_count_congruent((n - 1) as nat, p, q);
    }
}

/// Whether index `a` comes before index `b` in the discard order: by face
/// value (ascending for keep-highest, descending for keep-lowest), ties
/// broken by position.
pub open spec fn precedes_by(low: bool, raw: Seq<int>, a: int, b: int) -> bool {
    if low {
        raw[a] > raw[b] || (raw[a] == raw[b] && a < b)
    } else {
        raw[a] < raw[b] || (raw[a] == raw[b] && a < b)
    }
}

/// How many rolls come before index `idx` in the discard order.
pub open spec fn rank_of(raw: Seq<int>, low: bool, idx: int) -> nat {
    count_matching(raw.len(), |m: int| precedes_by(low, raw, m, idx))
}

/// How many rolls a keep selector discards: the excess over the keep
/// count, never negative.
pub open spec fn spec_drop_count(len: nat, kcount: nat) -> nat {
    if len > kcount {
        (len - kcount) as nat
    } else {
        0
    }
}

/// Whether the roll at `idx` is discarded: it is among the first
/// `drop_count` rolls in the discard order.  Without a selector nothing is
/// discarded.
pub open spec fn discarded_at(raw: Seq<int>, keep: Option<(bool, nat)>, idx: int) -> bool {
    match keep {
        None => false,
        Some((low, kcount)) => rank_of(raw, low, idx) < spec_drop_count(raw.len(), kcount),
    }
}

/// The resolved roll sequence: each discarded roll is negated, so the sign
/// marks exclusion while the magnitude stays the face value.
pub open spec fn resolved_values(raw: Seq<int>, keep: Option<(bool, nat)>) -> Seq<int> {
    Seq::new(
        raw.len(),
        |i: int|
            if discarded_at(raw, keep, i) {
                -raw[i]
            } else {
                raw[i]
            },
    )
}

/// The sum of the kept (non-negative) entries of a resolved sequence.
pub open spec fn kept_sum(vs: Seq<int>) -> int
    decreases vs.len(),
{
    if vs.len() == 0 {
        0
    } else {
        kept_sum(vs.drop_last()) + (if vs.last() >= 0 {
            vs.last()
        } else {
            0
        })
    }
}

/// How many entries of a resolved sequence are kept.
pub open spec fn count_kept(vs: Seq<int>) -> nat
    decreases vs.len(),
{
    if vs.len() == 0 {
        0
    } else {
        count_kept(vs.drop_last()) + (if vs.last() >= 0 {
            1nat
        } else {
            0nat
        })
    }
}

/// How many entries of a resolved sequence are discarded.
pub open spec fn count_discarded(vs: Seq<int>) -> nat
    decreases vs.len(),
{
    if vs.len() == 0 {
        0
    } else {
        count_discarded(vs.drop_last()) + (if vs.last() < 0 {
            1nat
        } else {
            0nat
        })
    }
}

/// The sum of the raw face values at the indices that are not discarded.
pub open spec fn undiscarded_sum(raw: Seq<int>, keep: Option<(bool, nat)>, n: int) -> int
    decreases n,
{
    if n <= 0 {
        0
    } else {
        undiscarded_sum(raw, keep, n - 1) + (if discarded_at(raw, keep, n - 1) {
            0
        } else {
            raw[n - 1]
        })
    }
}

/// A critical success: a twenty-sided die whose kept rolls include a 20.
pub open spec fn spec_crit_success(sides: nat, vs: Seq<int>) -> bool {
    sides == 20 && exists|i: int| 0 <= i < vs.len() && #[trigger] vs[i] == 20
}

/// A critical failure: a twenty-sided die whose kept rolls include a 1.
pub open spec fn spec_crit_failure(sides: nat, vs: Seq<int>) -> bool {
    sides == 20 && exists|i: int| 0 <= i < vs.len() && #[trigger] vs[i] == 1
}

/// The ghost value of a keep selector as scanned.
pub open spec fn keep_model(keep: Option<(bool, u64)>) -> Option<(bool, nat)> {
    match keep {
        None => None,
        Some((low, kc)) => Some((low, kc as nat)),
    }
}

/// A sequence of signed machine values, as mathematical integers.
pub open spec fn as_ints(s: Seq<i64>) -> Seq<int> {
    s.map_values(|x: i64| x as int)
}

/// A sequence of raw face values, as mathematical integers.
pub open spec fn u32s_as_ints(s: Seq<u32>) -> Seq<int> {
    s.map_values(|x: u32| x as int)
}

/// The discard test for one group, as a predicate over roll indices.
pub open spec fn discard_pred(raw: Seq<int>, keep: Option<(bool, nat)>) -> spec_fn(int) -> bool {
    |m: int| discarded_at(raw, keep, m)
}

/// An index strictly earlier in the discard order has a strictly smaller
/// rank.
pub proof fn lemma_rank_strict(raw: Seq<int>, low: bool, i: int, j: int)
    requires
        0 <= i < raw.len(),
        0 <= j < raw.len(),
        precedes_by(low, raw, i, j),
    ensures
        rank_of(raw, low, j) >= rank_of(raw, low, i) + 1,
{
    let n = raw.len();
    let pi = |m: int| precedes_by(low, raw, m, i);
    let pj = |m: int| precedes_by(low, raw, m, j);
    let single = |m: int| m == i;
    let pii = |m: int| precedes_by(low, raw, m, i) || m == i;
    lemma_count_split(n, pi, single, pii);
    lemma_count_single(n, i);
    lemma_count_le(n, pii, pj);
}

/// Distinct indices have distinct ranks.
pub proof fn lemma_rank_injective(raw: Seq<int>, low: bool, i: int, j: int)
    requires
        0 <= i < raw.len(),
        0 <= j < raw.len(),
        i != j,
    ensures
        rank_of(raw, low, i) != rank_of(raw, low, j),
{
    if precedes_by(low, raw, i, j) {
        lemma_rank_strict(raw, low, i, j);
    } else {
        assert(precedes_by(low, raw, j, i));
        lemma_rank_strict(raw, low, j, i);
    }
}

/// At most `dc` indices can have a rank below `dc` under an injective rank
/// function.
pub proof fn lemma_injective_count_bound(
    n: nat,
    r: spec_fn(int) -> nat,
    dc: nat,
    p: spec_fn(int) -> bool,
)
    requires
        forall|m1: int, m2: int|
            0 <= m1 < n && 0 <= m2 < n && m1 != m2 ==> #[trigger] r(m1) != #[trigger] r(m2),
        forall|m: int| #[trigger] p(m) <==> r(m) < dc,
    ensures
        count_matching(n, p) <= dc,
    decreases dc,
{
    if dc == 0 {
        lemma_count_zero(n, p);
    } else {
        let dcm = (dc - 1) as nat;
        let p1 = |m: int| r(m) < dcm;
        let p2 = |m: int| r(m) == dcm;
        lemma_count_split(n, p1, p2, p);
        lemma_injective_count_bound(n, r, dcm, p1);
        assert forall|m1: int, m2: int|
            0 <= m1 < n && 0 <= m2 < n && #[trigger] p2(m1) && #[trigger] p2(m2) implies m1
            == m2 by {
            if m1 != m2 {
                assert(r(m1) != r(m2));
            }
        }
        lemma_count_at_most_one(n, p2);
    }
}

/// A keep selector discards at most `drop_count` rolls.
pub proof fn lemma_discard_count_bound(raw: Seq<int>, low: bool, kcount: nat)
    ensures
        count_matching(raw.len(), discard_pred(raw, Some((low, kcount)))) <= spec_drop_count(
            raw.len(),
            kcount,
        ),
{
    let n = raw.len();
    let r = |m: int| rank_of(raw, low, m);
    let p = discard_pred(raw, Some((low, kcount)));
    assert forall|m1: int, m2: int|
        0 <= m1 < n && 0 <= m2 < n && m1 != m2 implies #[trigger] r(m1) != #[trigger] r(m2) by {
        lemma_rank_injective(raw, low, m1, m2);
    }
    lemma_injective_count_bound(n, r, spec_drop_count(n, kcount), p);
}

/// No roll's rank can reach the group size: some other roll would have to
/// precede it that many times.
pub proof fn lemma_rank_le(raw: Seq<int>, low: bool, idx: int)
    requires
        0 <= idx < raw.len(),
    ensures
        rank_of(raw, low, idx) <= raw.len() - 1,
{
    let p = |m: int| precedes_by(low, raw, m, idx);
    assert(!p(idx));
    lemma_count_excluded(raw.len(), p, idx);
}

/// A keep selector discards exactly `drop_count` rolls: the ranks of a
/// group's rolls are distinct values below the group size, so exactly
/// `drop_count` of them lie below `drop_count`.
pub proof fn lemma_discard_count_exact(raw: Seq<int>, low: bool, kcount: nat)
    ensures
        count_matching(raw.len(), discard_pred(raw, Some((low, kcount)))) == spec_drop_count(
            raw.len(),
            kcount,
        ),
{
    let n = raw.len();
    let dc = spec_drop_count(n, kcount);
    let p = discard_pred(raw, Some((low, kcount)));
    lemma_discard_count_bound(raw, low, kcount);
    // The kept indices: ranks at least `dc`, which under the flipped rank
    // lie below `n - dc`.
    let q = |m: int| !p(m);
    let pg = |m: int| 0 <= m < n && rank_of(raw, low, m) >= dc;
    let r4 = |m: int|
        if 0 <= m < n {
            ((n - 1) - rank_of(raw, low, m)) as nat
        } else {
            n
        };
    lemma_count_complement(n, p, q);
    assert forall|m: int| 0 <= m < n implies (#[trigger] q(m) <==> #[trigger] pg(m)) by {}
    lemma_count_congruent(n, q, pg);
    assert forall|m1: int, m2: int|
        0 <= m1 < n && 0 <= m2 < n && m1 != m2 implies #[trigger] r4(m1) != #[trigger] r4(m2) by {
        lemma_rank_injective(raw, low, m1, m2);
        lemma_rank_le(raw, low, m1);
        lemma_rank_le(raw, low, m2);
    }
    assert forall|m: int| #[trigger] pg(m) <==> r4(m) < n - dc by {
        if 0 <= m < n {
            lemma_rank_le(raw, low, m);
        }
    }
    lemma_injective_count_bound(n, r4, (n - dc) as nat, pg);
    assert(count_matching(n, pg) <= n - dc);
    assert(count_matching(n, p) >= dc);
}

/// Counting and summing a resolved prefix: the sign of each entry decides
/// kept against discarded, and the kept sum is the sum of the undiscarded
/// face values.
pub proof fn lemma_resolved_counts(raw: Seq<int>, keep: Option<(bool, nat)>, n: int)
    requires
        0 <= n <= raw.len(),
        forall|i: int| 0 <= i < raw.len() ==> #[trigger] raw[i] >= 1,
    ensures
        count_discarded(resolved_values(raw, keep).take(n)) == count_matching(
            n as nat,
            discard_pred(raw, keep),
        ),
        count_kept(resolved_values(raw, keep).take(n)) + count_discarded(
            resolved_values(raw, keep).take(n),
        ) == n,
        kept_sum(resolved_values(raw, keep).take(n)) == undiscarded_sum(raw, keep, n),
    decreases n,
{
    let vs = resolved_values(raw, keep);
    if n > 0 {
        lemma_resolved_counts(raw, keep, n - 1);
        assert(vs.take(n).drop_last() =~= vs.take(n - 1));
        assert(vs.take(n).last() == vs[n - 1]);
        assert(discard_pred(raw, keep)(n - 1) == discarded_at(raw, keep, n - 1));
    } else {
        assert(vs.take(0) =~= Seq::<int>::empty());
    }
}

/// LAW: for any dice group, every roll is exactly one of kept or discarded
/// (their counts add up to the requested quantity), and the group's total
/// is the sum of exactly the undiscarded face values.
pub proof fn lemma_kept_discarded_partition(raw: Seq<int>, keep: Option<(bool, nat)>)
    requires
        forall|i: int| 0 <= i < raw.len() ==> #[trigger] raw[i] >= 1,
    ensures
        count_kept(resolved_values(raw, keep)) + count_discarded(resolved_values(raw, keep))
            == raw.len(),
        kept_sum(resolved_values(raw, keep)) == undiscarded_sum(raw, keep, raw.len() as int),
{
    lemma_resolved_counts(raw, keep, raw.len() as int);
    assert(resolved_values(raw, keep).take(raw.len() as int) =~= resolved_values(raw, keep));
}

/// LAW: keep-highest with a keep count at least the quantity discards
/// nothing; the resolved rolls are the raw rolls unchanged.
pub proof fn lemma_keep_highest_enough_keeps_all(raw: Seq<int>, kcount: nat)
    requires
        kcount >= raw.len(),
    ensures
        resolved_values(raw, Some((false, kcount))) == raw,
{
    assert(resolved_values(raw, Some((false, kcount))) =~= raw);
}

/// LAW: keep-lowest never discards more than `quantity - keepCount` rolls.
pub proof fn lemma_keep_lowest_discard_bound(raw: Seq<int>, kcount: nat)
    requires
        kcount <= raw.len(),
        forall|i: int| 0 <= i < raw.len() ==> #[trigger] raw[i] >= 1,
    ensures
        count_discarded(resolved_values(raw, Some((true, kcount)))) <= raw.len() - kcount,
{
    lemma_resolved_counts(raw, Some((true, kcount)), raw.len() as int);
    assert(resolved_values(raw, Some((true, kcount))).take(raw.len() as int) =~= resolved_values(
        raw,
        Some((true, kcount)),
    ));
    lemma_discard_count_bound(raw, true, kcount);
}

/// LAW: a keep selector discards exactly `max(0, quantity - keepCount)`
/// rolls, keep-highest and keep-lowest alike.
pub proof fn lemma_discarded_exactly_drop_count(raw: Seq<int>, low: bool, kcount: nat)
    requires
        forall|i: int| 0 <= i < raw.len() ==> #[trigger] raw[i] >= 1,
    ensures
        count_discarded(resolved_values(raw, Some((low, kcount)))) == spec_drop_count(
            raw.len(),
            kcount,
        ),
{
    lemma_resolved_counts(raw, Some((low, kcount)), raw.len() as int);
    assert(resolved_values(raw, Some((low, kcount))).take(raw.len() as int) =~= resolved_values(
        raw,
        Some((low, kcount)),
    ));
    lemma_discard_count_exact(raw, low, kcount);
}

/// LAW: a critical flag comes from kept rolls alone.  A resolved entry
/// equals 20 (or 1) exactly when that roll was kept and its face value is
/// 20 (or 1); a discarded roll never triggers a flag.
pub proof fn lemma_critical_kept_only(raw: Seq<int>, keep: Option<(bool, nat)>, sides: nat)
    requires
        forall|i: int| 0 <= i < raw.len() ==> #[trigger] raw[i] >= 1,
    ensures
        spec_crit_success(sides, resolved_values(raw, keep)) <==> (sides == 20 && exists|i: int|
            0 <= i < raw.len() && !discarded_at(raw, keep, i) && #[trigger] raw[i] == 20),
        spec_crit_failure(sides, resolved_values(raw, keep)) <==> (sides == 20 && exists|i: int|
            0 <= i < raw.len() && !discarded_at(raw, keep, i) && #[trigger] raw[i] == 1),
{
    let vs = resolved_values(raw, keep);
    if exists|i: int| 0 <= i < vs.len() && #[trigger] vs[i] == 20 {
        let i = choose|i: int| 0 <= i < vs.len() && #[trigger] vs[i] == 20;
        assert(raw[i] >= 1);
        assert(!discarded_at(raw, keep, i) && raw[i] == 20);
    }
    if exists|i: int| 0 <= i < raw.len() && !discarded_at(raw, keep, i) && #[trigger] raw[i] == 20 {
        let i = choose|i: int|
            0 <= i < raw.len() && !discarded_at(raw, keep, i) && #[trigger] raw[i] == 20;
        assert(vs[i] == 20);
    }
    if exists|i: int| 0 <= i < vs.len() && #[trigger] vs[i] == 1 {
        let i = choose|i: int| 0 <= i < vs.len() && #[trigger] vs[i] == 1;
        assert(raw[i] >= 1);
        assert(!discarded_at(raw, keep, i) && raw[i] == 1);
    }
    if exists|i: int| 0 <= i < raw.len() && !discarded_at(raw, keep, i) && #[trigger] raw[i] == 1 {
        let i = choose|i: int|
            0 <= i < raw.len() && !discarded_at(raw, keep, i) && #[trigger] raw[i] == 1;
        assert(vs[i] == 1);
    }
}

/// The rank of one roll in the discard order: how many rolls come before
/// it.
fn rank_exec(raw: &Vec<u32>, idx: usize, low: bool) -> (r: usize)
    requires
        idx < raw@.len(),
    ensures
        r == rank_of(u32s_as_ints(raw@), low, idx as int),
{
    let ghost ints = u32s_as_ints(raw@);
    let ghost pred = |m: int| precedes_by(low, ints, m, idx as int);
    let n = raw.len();
    let mut cnt: usize = 0;
    let mut j: usize = 0;
    while j < n
        invariant
            j <= n,
            cnt <= j,
            n == raw@.len(),
            idx < raw@.len(),
            ints == u32s_as_ints(raw@),
            pred == (|m: int| precedes_by(low, ints, m, idx as int)),
            cnt == count_matching(j as nat, pred),
        decreases n - j,
    {
        let before = if low {
            raw[j] > raw[idx] || (raw[j] == raw[idx] && j < idx)
        } else {
            raw[j] < raw[idx] || (raw[j] == raw[idx] && j < idx)
        };
        proof {
            assert(ints[j as int] == raw@[j as int] as int);
            assert(ints[idx as int] == raw@[idx as int] as int);
            assert(before == pred(j as int));
        }
        if before {
            cnt += 1;
        }
        j += 1;
    }
    proof {
        assert(rank_of(ints, low, idx as int) == count_matching(n as nat, pred));
    }
    cnt
}

/// Resolves one group's raw rolls against its keep selector: discarded
/// rolls are negated, kept rolls stay, and the kept total is returned
/// beside them.
pub fn resolve_rolls(raw: &Vec<u32>, keep: Option<(bool, u64)>) -> (r: (Vec<i64>, u64))
    requires
        raw@.len() <= 1000,
    ensures
        as_ints(r.0@) == resolved_values(u32s_as_ints(raw@), keep_model(keep)),
        r.1 == kept_sum(resolved_values(u32s_as_ints(raw@), keep_model(keep))),
{
    let ghost ints = u32s_as_ints(raw@);
    let ghost km = keep_model(keep);
    let ghost resolved = resolved_values(ints, km);
    let n = raw.len();
    // How many rolls the selector discards.
    let dc: usize = match keep {
        None => 0,
        Some((_, kcount)) => {
            if (n as u64) > kcount {
                n - (kcount as usize)
            } else {
                0
            }
        },
    };
    proof {
        assert(match km {
            None => true,
            Some((low, kc)) => dc == spec_drop_count(ints.len(), kc),
        });
    }
    let mut out: Vec<i64> = Vec::new();
    let mut total: u64 = 0;
    let mut i: usize = 0;
    while i < n
        invariant
            i <= n,
            n == raw@.len() <= 1000,
            ints == u32s_as_ints(raw@),
            km == keep_model(keep),
            resolved == resolved_values(ints, km),
            (match km {
                None => dc == 0,
                Some((low, kc)) => dc == spec_drop_count(ints.len(), kc),
            }),
            out@.len() == i,
            as_ints(out@) == resolved.take(i as int),
            total == kept_sum(resolved.take(i as int)),
            total <= i * 0xFFFF_FFFFu64,
        decreases n - i,
    {
        let v = raw[i];
        let discard = match keep {
            None => false,
            Some((low, _)) => rank_exec(raw, i, low) < dc,
        };
        proof {
            assert(discard == discarded_at(ints, km, i as int));
            assert(ints[i as int] == v as int);
            assert(resolved[i as int] == if discard {
                -(v as int)
            } else {
                v as int
            });
            assert(resolved.take(i + 1).drop_last() =~= resolved.take(i as int));
            assert(resolved.take(i + 1).last() == resolved[i as int]);
        }
        if discard {
            out.push(-(v as i64));
        } else {
            out.push(v as i64);
            total = total + (v as u64);
        }
        proof {
            assert(as_ints(out@) =~= resolved.take(i + 1));
        }
        i += 1;
    }
    proof {
        assert(resolved.take(n as int) =~= resolved);
    }
    (out, total)
}

/// Whether some resolved entry equals the given value.
pub fn has_value(vals: &Vec<i64>, v: i64) -> (r: bool)
    ensures
        r == exists|i: int| 0 <= i < vals@.len() && #[trigger] as_ints(vals@)[i] == v as int,
{
    let n = vals.len();
    let mut i: usize = 0;
    while i < n
        invariant
            i <= n,
            n == vals@.len(),
            forall|k: int| 0 <= k < i ==> #[trigger] as_ints(vals@)[k] != v as int,
        decreases n - i,
    {
        if vals[i] == v {
            proof {
                assert(as_ints(vals@)[i as int] == v as int);
            }
            return true;
        }
        i += 1;
    }
    false
}

} // verus!
