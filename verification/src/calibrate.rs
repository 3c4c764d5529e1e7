//! Gate calibration: sweeping acceptance thresholds over recorded evidence.
//!
//! Every case and every held-out query carries the evidence of what was
//! ranked first. The sweep evaluates each gate on that evidence, and the
//! operating point is the pair of thresholds with the best recall among those that accept
//! no held-out query.
use vstd::prelude::*;

use crate::bench::{CaseResult, RejectionCase};
use crate::config::is_power_of_two;
use crate::framing::is_pow2;
use crate::matcher::MatchOutcome;
use crate::sort::{count_where, law_counting_is_filtering};
use crate::text::{chars_of, parse_number, parsed_number, pieces, split_text, texts, trim, trimmed};

verus! {

/// One evaluated gate.
#[derive(Debug, Clone, Copy, PartialEq, Eq, Structural)]
pub struct CalibPoint {
    pub min_inliers: usize,
    pub min_concentration_percent: u32,
    /// Cases that are right and accepted, and all cases: the gated recall.
    pub hits: usize,
    pub total: usize,
    /// Held-out queries that are accepted.
    pub false_accepts: usize,
    pub rejection_cases: usize,
}

/// The evidence is accepted under these thresholds.
pub open spec fn gate_accepts(e: Option<MatchOutcome>, inliers: usize, percent: u32) -> bool {
    e matches Some(o) && o.inliers >= inliers && o.concentrated(percent as int, 100)
}

pub open spec fn gated_case(inliers: usize, percent: u32) -> spec_fn(CaseResult) -> bool {
    |c: CaseResult| gate_accepts(c.evidence, inliers, percent) && c.verdict.track_hit
}

pub open spec fn gated_rejection(inliers: usize, percent: u32) -> spec_fn(RejectionCase) -> bool {
    |r: RejectionCase| gate_accepts(r.evidence, inliers, percent)
}

/// These thresholds evaluated on a run.
pub open spec fn point_of(
    cases: Seq<CaseResult>,
    rejections: Seq<RejectionCase>,
    inliers: usize,
    percent: u32,
) -> CalibPoint {
    CalibPoint {
        min_inliers: inliers,
        min_concentration_percent: percent,
        hits: count_where(cases, gated_case(inliers, percent)) as usize,
        total: cases.len() as usize,
        false_accepts: count_where(rejections, gated_rejection(inliers, percent)) as usize,
        rejection_cases: rejections.len() as usize,
    }
}

fn accepts(e: &Option<MatchOutcome>, inliers: usize, percent: u32) -> (r: bool)
    ensures
        r == gate_accepts(*e, inliers, percent),
{
    match e {
        Some(o) => o.inliers >= inliers && o.concentration_at_least(percent, 100),
        None => false,
    }
}

/// Evaluates one gate.
pub fn evaluate(
    cases: &Vec<CaseResult>,
    rejections: &Vec<RejectionCase>,
    inliers: usize,
    percent: u32,
) -> (point: CalibPoint)
    ensures
        point == point_of(cases@, rejections@, inliers, percent),
{
    let mut hits: usize = 0;
    let mut i: usize = 0;
    assert(cases@.take(0) =~= Seq::<CaseResult>::empty());
    while i < cases.len()
        invariant
            i <= cases.len(),
            hits <= i,
            hits == count_where(cases@.take(i as int), gated_case(inliers, percent)),
        decreases cases.len() - i,
    {
        assert(cases@.take(i + 1).drop_last() =~= cases@.take(i as int));
        if accepts(&cases[i].evidence, inliers, percent) && cases[i].verdict.track_hit {
            hits = hits + 1;
        }
        i = i + 1;
    }
    assert(cases@.take(i as int) =~= cases@);
    let mut false_accepts: usize = 0;
    let mut k: usize = 0;
    assert(rejections@.take(0) =~= Seq::<RejectionCase>::empty());
    while k < rejections.len()
        invariant
            k <= rejections.len(),
            false_accepts <= k,
            false_accepts == count_where(
                rejections@.take(k as int),
                gated_rejection(inliers, percent),
            ),
        decreases rejections.len() - k,
    {
        assert(rejections@.take(k + 1).drop_last() =~= rejections@.take(k as int));
        if accepts(&rejections[k].evidence, inliers, percent) {
            false_accepts = false_accepts + 1;
        }
        k = k + 1;
    }
    assert(rejections@.take(k as int) =~= rejections@);
    CalibPoint {
        min_inliers: inliers,
        min_concentration_percent: percent,
        hits,
        total: cases.len(),
        false_accepts,
        rejection_cases: rejections.len(),
    }
}

/// Point `i` of a sweep: all concentration steps for the first number of
/// inliers, then for the next.
pub open spec fn swept(
    cases: Seq<CaseResult>,
    rejections: Seq<RejectionCase>,
    first: int,
    steps: Seq<u32>,
    i: int,
) -> CalibPoint {
    point_of(
        cases,
        rejections,
        (first + i / steps.len() as int) as usize,
        steps[i % steps.len() as int],
    )
}

/// Sweeps all gates from `first` to `last` inliers.
pub fn sweep(
    cases: &Vec<CaseResult>,
    rejections: &Vec<RejectionCase>,
    first: usize,
    last: usize,
    steps: &Vec<u32>,
) -> (points: Vec<CalibPoint>)
    requires
        last < usize::MAX,
    ensures
        first <= last ==> points.len() == (last - first + 1) * steps.len(),
        first > last ==> points.len() == 0,
        forall|i: int|
            0 <= i < points.len() ==> #[trigger] points[i] == swept(
                cases@,
                rejections@,
                first as int,
                steps@,
                i,
            ),
{
    let mut points: Vec<CalibPoint> = Vec::new();
    let ghost n = steps.len() as int;
    let mut a: usize = first;
    assert(0 * n == 0) by (nonlinear_arith);
    while a <= last
        invariant
            first <= a,
            first <= last ==> a <= last + 1,
            first > last ==> a == first,
            last < usize::MAX,
            n == steps.len(),
            points.len() == (a - first) * n,
            forall|i: int|
                0 <= i < points.len() ==> #[trigger] points[i] == swept(
                    cases@,
                    rejections@,
                    first as int,
                    steps@,
                    i,
                ),
        decreases last + 1 - a,
    {
        let mut k: usize = 0;
        let ghost base = (a - first) * n;
        while k < steps.len()
            invariant
                first <= a <= last,
                k <= steps.len(),
                n == steps.len(),
                base == (a - first) * n,
                points.len() == base + k,
                forall|i: int|
                    0 <= i < points.len() ==> #[trigger] points[i] == swept(
                        cases@,
                        rejections@,
                        first as int,
                        steps@,
                        i,
                    ),
            decreases steps.len() - k,
        {
            proof {
                vstd::arithmetic::div_mod::lemma_fundamental_div_mod_converse(
                    base + k,
                    n,
                    a - first,
                    k as int,
                );
            }
            points.push(evaluate(cases, rejections, a, steps[k]));
            k = k + 1;
        }
        assert((a + 1 - first) * n == base + n) by (nonlinear_arith)
            requires
                base == (a - first) * n,
        ;
        a = a + 1;
    }
    points
}

/// The gated recall of `a` is below that of `b`; no cases count as recall
/// zero.
pub open spec fn recall_below(a: CalibPoint, b: CalibPoint) -> bool {
    if b.total == 0 {
        false
    } else if a.total == 0 {
        b.hits > 0
    } else {
        a.hits * b.total < b.hits * a.total
    }
}

/// `a` is the better operating point: more recall, then fewer inliers, then
/// the looser concentration.
pub open spec fn is_better(a: CalibPoint, b: CalibPoint) -> bool {
    recall_below(b, a) || (!recall_below(a, b) && (a.min_inliers < b.min_inliers || (a.min_inliers
        == b.min_inliers && a.min_concentration_percent < b.min_concentration_percent)))
}

fn has_less_recall(a: &CalibPoint, b: &CalibPoint) -> (r: bool)
    ensures
        r == recall_below(*a, *b),
{
    if b.total == 0 {
        false
    } else if a.total == 0 {
        b.hits > 0
    } else {
        assert(a.hits * b.total <= 0xffff_ffff_ffff_ffff * 0xffff_ffff_ffff_ffff
            && b.hits * a.total <= 0xffff_ffff_ffff_ffff * 0xffff_ffff_ffff_ffff)
            by (nonlinear_arith)
            requires
                0 <= a.hits <= 0xffff_ffff_ffff_ffff,
                0 <= b.hits <= 0xffff_ffff_ffff_ffff,
                0 <= a.total <= 0xffff_ffff_ffff_ffff,
                0 <= b.total <= 0xffff_ffff_ffff_ffff,
        ;
        (a.hits as u128 * b.total as u128) < b.hits as u128 * a.total as u128
    }
}

/// A recall that is not below another that is above a third is above the
/// third.
proof fn lemma_recall_steps(a: CalibPoint, b: CalibPoint, c: CalibPoint)
    ensures
        !recall_below(b, a) && recall_below(b, c) ==> recall_below(a, c),
        !recall_below(b, a) && !recall_below(c, b) ==> !recall_below(c, a),
{
    let (x, p) = (a.hits as int, a.total as int);
    let (y, q) = (b.hits as int, b.total as int);
    let (z, r) = (c.hits as int, c.total as int);
    if p > 0 && q > 0 && r > 0 {
        if y * p >= x * q && y * r < z * q {
            assert(x * r < z * p) by (nonlinear_arith)
                requires
                    y * p >= x * q,
                    y * r < z * q,
                    p > 0,
                    q > 0,
                    r > 0,
            ;
        }
        if y * p >= x * q && z * q >= y * r {
            assert(z * p >= x * r) by (nonlinear_arith)
                requires
                    y * p >= x * q,
                    z * q >= y * r,
                    p > 0,
                    q > 0,
                    r > 0,
            ;
        }
    } else if q > 0 && r > 0 {
        if y * r < z * q {
            assert(z > 0) by (nonlinear_arith)
                requires
                    y * r < z * q,
                    y >= 0,
                    r > 0,
                    q > 0,
            ;
        }
    } else if p > 0 && q > 0 {
        if y * p >= x * q && y == 0 {
            assert(x == 0) by (nonlinear_arith)
                requires
                    y * p >= x * q,
                    y == 0,
                    x >= 0,
                    q > 0,
            ;
        }
    } else if p > 0 && r > 0 {
        if x == 0 {
            assert(x * r == 0) by (nonlinear_arith)
                requires
                    x == 0,
            ;
            if z > 0 {
                assert(z * p > 0) by (nonlinear_arith)
                    requires
                        z > 0,
                        p > 0,
                ;
            } else {
                assert(z * p == 0) by (nonlinear_arith)
                    requires
                        z == 0,
                ;
            }
        }
    }
}

/// What is no better than a point is no better than a better one.
proof fn lemma_better_transitive(a: CalibPoint, b: CalibPoint, c: CalibPoint)
    requires
        !is_better(a, b),
        is_better(c, b),
    ensures
        !is_better(a, c),
{
    lemma_recall_steps(a, b, c);
    lemma_recall_steps(c, b, a);
    lemma_recall_steps(b, a, c);
    lemma_recall_steps(b, c, a);
    lemma_recall_steps(a, c, b);
    lemma_recall_steps(c, a, b);
}

/// The operating point: among the gates without false accepts the one with
/// the most gated recall; of equal ones that with the fewest inliers, then
/// with the loosest concentration.
pub fn recommend(points: &Vec<CalibPoint>) -> (best: Option<CalibPoint>)
    ensures
        match best {
            Some(p) => {
                &&& points@.contains(p)
                &&& p.false_accepts == 0
                &&& forall|i: int|
                    0 <= i < points.len() && (#[trigger] points[i]).false_accepts == 0
                        ==> !is_better(points[i], p)
            },
            None => forall|i: int|
                0 <= i < points.len() ==> (#[trigger] points[i]).false_accepts > 0,
        },
{
    let mut best: Option<CalibPoint> = None;
    let mut i: usize = 0;
    while i < points.len()
        invariant
            i <= points.len(),
            match best {
                Some(p) => {
                    &&& points@.contains(p)
                    &&& p.false_accepts == 0
                    &&& forall|k: int|
                        0 <= k < i && (#[trigger] points[k]).false_accepts == 0 ==> !is_better(
                            points[k],
                            p,
                        )
                },
                None => forall|k: int| 0 <= k < i ==> (#[trigger] points[k]).false_accepts > 0,
            },
        decreases points.len() - i,
    {
        let p: CalibPoint = points[i];
        if p.false_accepts == 0 {
            match best {
                Some(b) => {
                    let better: bool = has_less_recall(&b, &p) || (!has_less_recall(&p, &b) && (
                    p.min_inliers < b.min_inliers || (p.min_inliers == b.min_inliers
                        && p.min_concentration_percent < b.min_concentration_percent)));
                    if better {
                        proof {
                            assert forall|k: int|
                                0 <= k < i && (#[trigger] points[k]).false_accepts
                                    == 0 implies !is_better(points[k], p) by {
                                lemma_better_transitive(points[k], b, p);
                            }
                            lemma_recall_steps(p, p, p);
                            assert(points@.contains(points[i as int]));
                        }
                        best = Some(p);
                    }
                },
                None => {
                    assert(points@.contains(points[i as int]));
                    best = Some(p);
                },
            }
        }
        i = i + 1;
    }
    best
}

// ---- lists on the command line ----

/// The band counts of a list: the pieces that read as powers of two of 16
/// bits; others are passed over.
pub open spec fn bands_in(list: Seq<Seq<char>>) -> Seq<u16>
    decreases list.len(),
{
    if list.len() == 0 {
        Seq::empty()
    } else {
        let rest = bands_in(list.drop_last());
        match parsed_number(trimmed(list.last()), 65535) {
            Some(b) => if is_pow2(b as int) {
                rest.push(b as u16)
            } else {
                rest
            },
            None => rest,
        }
    }
}

/// Reads a comma-separated list of band counts.
pub fn parse_band_list(s: &str) -> (out: Vec<u16>)
    ensures
        out@ == bands_in(pieces(s@, ',')),
{
    let parts: Vec<Vec<char>> = split_text(&chars_of(s), ',');
    let ghost all = texts(parts@);
    let mut out: Vec<u16> = Vec::new();
    let mut i: usize = 0;
    assert(all.take(0) =~= Seq::<Seq<char>>::empty());
    while i < parts.len()
        invariant
            i <= parts.len(),
            all == texts(parts@),
            out@ == bands_in(all.take(i as int)),
        decreases parts.len() - i,
    {
        proof {
            assert(all.take(i + 1).drop_last() =~= all.take(i as int));
            assert(all.take(i + 1).last() == parts[i as int]@);
        }
        if let Some(b) = parse_number(trim(&parts[i]), 65535) {
            if is_power_of_two(b as usize) {
                out.push(b as u16);
            }
        }
        i = i + 1;
    }
    assert(all.take(i as int) =~= all);
    out
}

/// A tolerance as it is written: a number that is not negative; zero may
/// carry any sign.
pub open spec fn parsed_tolerance(s: Seq<char>) -> Option<nat> {
    if s.len() > 0 && s[0] == '-' {
        if s.len() > 1 && s[1] == '+' {
            None
        } else {
            parsed_number(s.drop_first(), 0)
        }
    } else {
        parsed_number(s, 0x7fff_ffff_ffff_ffff)
    }
}

fn parse_tolerance(s: &[char]) -> (r: Option<i64>)
    ensures
        match r {
            Some(v) => v >= 0 && parsed_tolerance(s@) == Some(v as nat),
            None => parsed_tolerance(s@) is None,
        },
{
    if s.len() > 0 && s[0] == '-' {
        if s.len() > 1 && s[1] == '+' {
            return None;
        }
        let mut rest: Vec<char> = Vec::new();
        let mut i: usize = 1;
        while i < s.len()
            invariant
                1 <= i <= s.len(),
                rest@ == s@.subrange(1, i as int),
            decreases s.len() - i,
        {
            rest.push(s[i]);
            i = i + 1;
            assert(rest@ =~= s@.subrange(1, i as int));
        }
        assert(rest@ =~= s@.drop_first());
        match parse_number(&rest, 0) {
            Some(_) => Some(0),
            None => None,
        }
    } else {
        match parse_number(s, 0x7fff_ffff_ffff_ffff) {
            Some(v) => Some(v as i64),
            None => None,
        }
    }
}

/// The tolerances of a list; pieces that are none are passed over.
pub open spec fn tolerances_in(list: Seq<Seq<char>>) -> Seq<i64>
    decreases list.len(),
{
    if list.len() == 0 {
        Seq::empty()
    } else {
        let rest = tolerances_in(list.drop_last());
        match parsed_tolerance(trimmed(list.last())) {
            Some(v) => rest.push(v as i64),
            None => rest,
        }
    }
}

/// Reads a comma-separated list of offset tolerances.
pub fn parse_tolerance_list(s: &str) -> (out: Vec<i64>)
    ensures
        out@ == tolerances_in(pieces(s@, ',')),
{
    let parts: Vec<Vec<char>> = split_text(&chars_of(s), ',');
    let ghost all = texts(parts@);
    let mut out: Vec<i64> = Vec::new();
    let mut i: usize = 0;
    assert(all.take(0) =~= Seq::<Seq<char>>::empty());
    while i < parts.len()
        invariant
            i <= parts.len(),
            all == texts(parts@),
            out@ == tolerances_in(all.take(i as int)),
        decreases parts.len() - i,
    {
        proof {
            assert(all.take(i + 1).drop_last() =~= all.take(i as int));
            assert(all.take(i + 1).last() == parts[i as int]@);
        }
        if let Some(v) = parse_tolerance(trim(&parts[i])) {
            out.push(v);
        }
        i = i + 1;
    }
    assert(all.take(i as int) =~= all);
    out
}

// ---- laws ----

/// Thresholds accept evidence exactly if it is there, has so many inliers and
/// so many hundredths of its mass near its offset; evidence without mass has
/// none of it there.
pub proof fn law_thresholds_ask_for_both(e: Option<MatchOutcome>, inliers: usize, percent: u32)
    ensures
        e is None ==> !gate_accepts(e, inliers, percent),
        e is Some && e->0.weighted_score > 0 ==> (gate_accepts(e, inliers, percent) <==> e->0.inliers
            >= inliers && 100 * e->0.inlier_score >= percent * e->0.weighted_score),
        e is Some && e->0.weighted_score == 0 ==> (gate_accepts(e, inliers, percent)
            <==> e->0.inliers >= inliers && percent == 0),
{
    if let Some(o) = e {
        assert(o.weighted_score * percent == percent * o.weighted_score) by (nonlinear_arith);
    }
}

/// An evaluated point counts the cases that are accepted and right, and the
/// held-out queries that are accepted.
pub proof fn law_points_count_accepted_cases(
    cases: Seq<CaseResult>,
    rejections: Seq<RejectionCase>,
    inliers: usize,
    percent: u32,
)
    requires
        cases.len() <= usize::MAX,
        rejections.len() <= usize::MAX,
    ensures
        ({
            let p = point_of(cases, rejections, inliers, percent);
            &&& p.min_inliers == inliers
            &&& p.min_concentration_percent == percent
            &&& p.total == cases.len()
            &&& p.rejection_cases == rejections.len()
            &&& p.hits == cases.filter(
                |c: CaseResult|
                    c.verdict.track_hit && gate_accepts(c.evidence, inliers, percent),
            ).len()
            &&& p.false_accepts == rejections.filter(
                |r: RejectionCase| gate_accepts(r.evidence, inliers, percent),
            ).len()
        }),
{
    let a = |c: CaseResult| c.verdict.track_hit && gate_accepts(c.evidence, inliers, percent);
    let b = |r: RejectionCase| gate_accepts(r.evidence, inliers, percent);
    assert(a =~= gated_case(inliers, percent));
    assert(b =~= gated_rejection(inliers, percent));
    law_counting_is_filtering(cases, a);
    law_counting_is_filtering(rejections, b);
    lemma_filter_shrinks(cases, a);
    lemma_filter_shrinks(rejections, b);
}

proof fn lemma_filter_shrinks<T>(s: Seq<T>, p: spec_fn(T) -> bool)
    ensures
        s.filter(p).len() <= s.len(),
    decreases s.len(),
{
    reveal(Seq::filter);
    if s.len() > 0 {
        lemma_filter_shrinks(s.drop_last(), p);
    }
}

/// A sweep goes through all concentration steps for each number of inliers.
pub proof fn law_sweeps_cover_the_grid(
    cases: Seq<CaseResult>,
    rejections: Seq<RejectionCase>,
    first: int,
    steps: Seq<u32>,
    a: int,
    k: int,
)
    requires
        0 <= a,
        0 <= k < steps.len(),
    ensures
        swept(cases, rejections, first, steps, a * steps.len() + k) == point_of(
            cases,
            rejections,
            (first + a) as usize,
            steps[k],
        ),
{
    vstd::arithmetic::div_mod::lemma_fundamental_div_mod_converse(
        a * steps.len() + k,
        steps.len() as int,
        a,
        k,
    );
}

/// Which of two points is better: the one with the larger share of hits; of
/// equal shares the one with fewer inliers, then with the lower concentration.
/// Without cases the share is zero.
pub proof fn law_recall_decides(a: CalibPoint, b: CalibPoint)
    ensures
        a.total > 0 && b.total > 0 ==> (is_better(a, b) <==> a.hits * b.total > b.hits * a.total || (
        a.hits * b.total == b.hits * a.total && (a.min_inliers < b.min_inliers || (a.min_inliers
            == b.min_inliers && a.min_concentration_percent < b.min_concentration_percent)))),
        a.total == 0 && b.total > 0 ==> (is_better(a, b) <==> b.hits == 0 && (a.min_inliers
            < b.min_inliers || (a.min_inliers == b.min_inliers && a.min_concentration_percent
            < b.min_concentration_percent))),
        a.total > 0 && b.total == 0 ==> (is_better(a, b) <==> a.hits > 0 || a.min_inliers
            < b.min_inliers || (a.min_inliers == b.min_inliers && a.min_concentration_percent
            < b.min_concentration_percent)),
        a.total == 0 && b.total == 0 ==> (is_better(a, b) <==> a.min_inliers < b.min_inliers || (
        a.min_inliers == b.min_inliers && a.min_concentration_percent
            < b.min_concentration_percent)),
{
}

/// A list of band counts holds, in order, those of its pieces that read as
/// powers of two up to 32768.
pub proof fn law_band_lists_hold_powers_of_two(list: Seq<Seq<char>>, x: Seq<char>)
    ensures
        bands_in(Seq::<Seq<char>>::empty()).len() == 0,
        parsed_number(trimmed(x), 65535) matches Some(b) ==> {
            &&& is_pow2(b as int) ==> bands_in(list.push(x)) == bands_in(list).push(b as u16)
            &&& !is_pow2(b as int) ==> bands_in(list.push(x)) == bands_in(list)
        },
        parsed_number(trimmed(x), 65535) is None ==> bands_in(list.push(x)) == bands_in(list),
{
    assert(list.push(x).drop_last() =~= list);
}

/// A list of tolerances holds, in order, those of its pieces that read as
/// whole numbers from zero on; a minus is taken before zero only.
pub proof fn law_tolerance_lists_hold_numbers(
    list: Seq<Seq<char>>,
    x: Seq<char>,
    digits: Seq<char>,
)
    ensures
        tolerances_in(Seq::<Seq<char>>::empty()).len() == 0,
        parsed_tolerance(trimmed(x)) matches Some(v) ==> tolerances_in(list.push(x))
            == tolerances_in(list).push(v as i64),
        parsed_tolerance(trimmed(x)) is None ==> tolerances_in(list.push(x)) == tolerances_in(list),
        digits.len() > 0 && digits[0] != '-' ==> parsed_tolerance(digits) == parsed_number(
            digits,
            9_223_372_036_854_775_807,
        ),
        digits.len() > 0 && digits[0] != '+' ==> parsed_tolerance(seq!['-'] + digits)
            == parsed_number(digits, 0),
        digits.len() > 0 && digits[0] == '+' ==> parsed_tolerance(seq!['-'] + digits) is None,
{
    assert(list.push(x).drop_last() =~= list);
    assert((seq!['-'] + digits).drop_first() =~= digits);
}

} // verus!
