//! Reports as Markdown.
//!
//! Shares and means are printed from their exact fractions, rounded to the
//! nearest digit, halves to the even one.
use vstd::prelude::*;

use crate::bench::{
    aggregate, aggregates_of, cases_of, cell_of, degradations_of, fingerprint_times, hits_gated,
    hits_offset, hits_track, is_cell, lemma_time_sum_bound, match_times, percent, table_of, Aggregates,
    CaseResult, Cell, RejectionCase,
};
use crate::calibrate::{recommend, CalibPoint};
use crate::config::AlgorithmConfig;
use crate::degradation::rounded;
use crate::ids::{decimal, decimal_digits, digit};
use crate::landmark::LandmarkV2Config;
use crate::sort::{count_where, law_counting_is_filtering};
use crate::stats::sum_of;
use crate::text::{chars_of, has_part, occurs_at, string_of, text_less};

verus! {

/// The runs of one engine over a corpus.
#[derive(Debug)]
pub struct RunSummary {
    pub engine: String,
    pub fingerprint_version: String,
    pub seed: u64,
    pub sample_rate_hz: u32,
    /// Length of a track and of an excerpt, in milliseconds.
    pub track_ms: u64,
    pub n_tracks: usize,
    pub excerpt_ms: u64,
    pub config: AlgorithmConfig,
    /// What the landmark engine ran with, where it ran.
    pub landmark_config: Option<LandmarkV2Config>,
    pub cases: Vec<CaseResult>,
    pub rejection_cases: Vec<RejectionCase>,
}

impl RunSummary {
    /// Adds up the run.
    pub fn aggregate(&self) -> (a: Aggregates)
        requires
            is_printable(*self),
        ensures
            a == aggregates_of(self.cases@, self.rejection_cases@),
    {
        aggregate(&self.cases, &self.rejection_cases)
    }
}

// ---- numbers ----

/// `num / den` with no decimal place.
pub open spec fn fixed0(num: nat, den: nat) -> Seq<char> {
    decimal(rounded(num, den))
}

/// `num / den` with one decimal place.
pub open spec fn fixed1(num: nat, den: nat) -> Seq<char> {
    let n = rounded(num * 10, den);
    decimal(n / 10) + "."@ + seq![digit(n % 10)]
}

/// `num / den` with two decimal places.
pub open spec fn fixed2(num: nat, den: nat) -> Seq<char> {
    let n = rounded(num * 100, den);
    decimal(n / 100) + "."@ + seq![digit(n / 10 % 10), digit(n % 10)]
}

/// At least one.
pub open spec fn or_one(n: nat) -> nat {
    if n == 0 {
        1
    } else {
        n
    }
}

/// A share in percent, with one decimal place; a share of nothing is zero.
pub open spec fn share1(hits: nat, total: nat) -> Seq<char> {
    fixed1(hits * 100, or_one(total)) + "%"@
}

/// A mean of microseconds in milliseconds.
pub open spec fn mean_ms(sum_us: nat, n: nat) -> Seq<char> {
    fixed2(sum_us, or_one(n) * 1000)
}

/// Digits of a large number.
fn wide_digits(n: u128) -> (digits: Vec<char>)
    ensures
        digits@ == decimal(n as nat),
    decreases n,
{
    let d: u8 = 48 + (n % 10) as u8;
    if n < 10 {
        let mut digits: Vec<char> = Vec::new();
        digits.push(d as char);
        assert(digits@ =~= decimal(n as nat));
        digits
    } else {
        let mut digits: Vec<char> = wide_digits(n / 10);
        digits.push(d as char);
        digits
    }
}

/// The nearest whole number, halves to the even one.
fn round_ratio(num: u128, den: u128) -> (q: u128)
    requires
        den > 0,
        num < 0x8000_0000_0000_0000_0000_0000_0000_0000,
        den < 0x4000_0000_0000_0000_0000_0000_0000_0000,
    ensures
        q == rounded(num as nat, den as nat),
{
    let q: u128 = num / den;
    let r: u128 = num % den;
    assert(q <= num) by (nonlinear_arith)
        requires
            q == num / den,
            den >= 1,
    ;
    if 2 * r > den || (2 * r == den && q % 2 == 1) {
        q + 1
    } else {
        q
    }
}

fn put(out: &mut Vec<char>, s: &str)
    ensures
        final(out)@ == old(out)@ + s@,
{
    let mut cs: Vec<char> = chars_of(s);
    out.append(&mut cs);
}

fn put_number(out: &mut Vec<char>, n: u64)
    ensures
        final(out)@ == old(out)@ + decimal(n as nat),
{
    let mut cs: Vec<char> = decimal_digits(n);
    out.append(&mut cs);
}

fn put_digit(out: &mut Vec<char>, d: u128)
    requires
        d < 10,
    ensures
        final(out)@ == old(out)@.push(digit(d as nat)),
{
    let code: u8 = 48 + d as u8;
    out.push(code as char);
}

/// Bound of the numbers that are printed: a hundred times them still fits.
pub const NUMBER_LIMIT: u128 = 0x0040_0000_0000_0000_0000_0000_0000_0000;

fn put_fixed0(out: &mut Vec<char>, num: u128, den: u128)
    requires
        0 < den < NUMBER_LIMIT,
        num < NUMBER_LIMIT,
    ensures
        final(out)@ == old(out)@ + fixed0(num as nat, den as nat),
{
    let mut cs: Vec<char> = wide_digits(round_ratio(num, den));
    out.append(&mut cs);
}

fn put_fixed1(out: &mut Vec<char>, num: u128, den: u128)
    requires
        0 < den < NUMBER_LIMIT,
        num < NUMBER_LIMIT,
    ensures
        final(out)@ == old(out)@ + fixed1(num as nat, den as nat),
{
    let ghost start = out@;
    let n: u128 = round_ratio(num * 10, den);
    let mut cs: Vec<char> = wide_digits(n / 10);
    out.append(&mut cs);
    put(out, ".");
    put_digit(out, n % 10);
    assert(out@ =~= start + fixed1(num as nat, den as nat));
}

fn put_fixed2(out: &mut Vec<char>, num: u128, den: u128)
    requires
        0 < den < NUMBER_LIMIT,
        num < NUMBER_LIMIT,
    ensures
        final(out)@ == old(out)@ + fixed2(num as nat, den as nat),
{
    let ghost start = out@;
    let n: u128 = round_ratio(num * 100, den);
    let mut cs: Vec<char> = wide_digits(n / 100);
    out.append(&mut cs);
    put(out, ".");
    put_digit(out, n / 10 % 10);
    put_digit(out, n % 10);
    assert(out@ =~= start + fixed2(num as nat, den as nat));
}

fn put_share1(out: &mut Vec<char>, hits: usize, total: usize)
    ensures
        final(out)@ == old(out)@ + share1(hits as nat, total as nat),
{
    let ghost start = out@;
    let den: u128 = if total == 0 {
        1
    } else {
        total as u128
    };
    put_fixed1(out, hits as u128 * 100, den);
    put(out, "%");
    assert(out@ =~= start + share1(hits as nat, total as nat));
}

fn put_mean_ms(out: &mut Vec<char>, sum_us: u128, n: usize)
    requires
        sum_us < NUMBER_LIMIT,
    ensures
        final(out)@ == old(out)@ + mean_ms(sum_us as nat, n as nat),
{
    let den: u128 = if n == 0 {
        1000
    } else {
        n as u128 * 1000
    };
    put_fixed2(out, sum_us, den);
}

// ---- one engine ----

/// The engine of the run.
pub open spec fn heading_engine(s: RunSummary) -> Seq<char> {
    "# Sivana baseline benchmark\n\n- engine: `"@ + s.engine@ + "` / fingerprint version "@
        + s.fingerprint_version@ + "\n"@
}

/// The corpus of the run.
pub open spec fn heading_corpus(s: RunSummary) -> Seq<char> {
    "- corpus: "@ + decimal(s.n_tracks as nat) + " tracks x "@ + fixed0(s.track_ms as nat, 1000)
        + "s @ "@ + decimal(s.sample_rate_hz as nat) + " Hz (seed "@ + decimal(s.seed as nat)
        + ")\n"@
}

/// What the run was.
pub open spec fn heading(s: RunSummary) -> Seq<char> {
    heading_engine(s) + heading_corpus(s) + "- query excerpt: "@ + fixed1(
        s.excerpt_ms as nat,
        1000,
    ) + "s\n\n"@
}

fn put_heading_engine(out: &mut Vec<char>, s: &RunSummary)
    ensures
        final(out)@ == old(out)@ + heading_engine(*s),
{
    let ghost start = out@;
    put(out, "# Sivana baseline benchmark\n\n- engine: `");
    put(out, s.engine.as_str());
    put(out, "` / fingerprint version ");
    put(out, s.fingerprint_version.as_str());
    put(out, "\n");
    assert(out@ =~= start + heading_engine(*s));
}

fn put_heading_corpus(out: &mut Vec<char>, s: &RunSummary)
    ensures
        final(out)@ == old(out)@ + heading_corpus(*s),
{
    let ghost start = out@;
    put(out, "- corpus: ");
    put_number(out, s.n_tracks as u64);
    put(out, " tracks x ");
    put_fixed0(out, s.track_ms as u128, 1000);
    put(out, "s @ ");
    put_number(out, s.sample_rate_hz as u64);
    put(out, " Hz (seed ");
    put_number(out, s.seed);
    put(out, ")\n");
    assert(out@ =~= start + heading_corpus(*s));
}

fn put_heading(out: &mut Vec<char>, s: &RunSummary)
    ensures
        final(out)@ == old(out)@ + heading(*s),
{
    let ghost start = out@;
    put_heading_engine(out, s);
    put_heading_corpus(out, s);
    put(out, "- query excerpt: ");
    put_fixed1(out, s.excerpt_ms as u128, 1000);
    put(out, "s\n\n");
    assert(out@ =~= start + heading(*s));
}

/// Recall over all cases.
pub open spec fn overall_recall(a: Aggregates) -> Seq<char> {
    "| cases | "@ + decimal(a.total_cases as nat) + " |\n| recall@1 (track identity) | "@ + share1(
        a.track_hits as nat,
        a.total_cases as nat,
    ) + " |\n| recall@1 (+offset within 2 frames) | "@ + share1(
        a.offset_hits as nat,
        a.total_cases as nat,
    ) + " |\n| recall via legacy score gate | "@ + share1(a.gated_hits as nat, a.total_cases as nat)
        + " |\n"@
}

/// Times and rejections over all cases.
pub open spec fn overall_times(a: Aggregates) -> Seq<char> {
    "| mean fingerprint time | "@ + mean_ms(a.fingerprint_us as nat, a.total_cases as nat)
        + " ms |\n| mean match time | "@ + mean_ms(a.match_us as nat, a.total_cases as nat)
        + " ms |\n| p95 total latency | "@ + fixed2(a.p95_total_us as nat, 1000)
        + " ms |\n| out-of-catalog false accepts | "@ + decimal(a.false_accepts as nat) + "/"@
        + decimal(a.rejection_cases as nat) + " |\n"@
}

/// The table over all cases.
pub open spec fn overall(a: Aggregates) -> Seq<char> {
    "## Overall\n\n| metric | value |\n|---|---|\n"@ + overall_recall(a) + overall_times(a) + "\n"@
}

fn put_overall_recall(out: &mut Vec<char>, a: &Aggregates)
    ensures
        final(out)@ == old(out)@ + overall_recall(*a),
{
    let ghost start = out@;
    put(out, "| cases | ");
    put_number(out, a.total_cases as u64);
    put(out, " |\n| recall@1 (track identity) | ");
    put_share1(out, a.track_hits, a.total_cases);
    put(out, " |\n| recall@1 (+offset within 2 frames) | ");
    put_share1(out, a.offset_hits, a.total_cases);
    put(out, " |\n| recall via legacy score gate | ");
    put_share1(out, a.gated_hits, a.total_cases);
    put(out, " |\n");
    assert(out@ =~= start + overall_recall(*a));
}

fn put_overall_times(out: &mut Vec<char>, a: &Aggregates)
    requires
        a.fingerprint_us < NUMBER_LIMIT,
        a.match_us < NUMBER_LIMIT,
    ensures
        final(out)@ == old(out)@ + overall_times(*a),
{
    let ghost start = out@;
    put(out, "| mean fingerprint time | ");
    put_mean_ms(out, a.fingerprint_us, a.total_cases);
    put(out, " ms |\n| mean match time | ");
    put_mean_ms(out, a.match_us, a.total_cases);
    put(out, " ms |\n| p95 total latency | ");
    put_fixed2(out, a.p95_total_us as u128, 1000);
    put(out, " ms |\n| out-of-catalog false accepts | ");
    put_number(out, a.false_accepts as u64);
    put(out, "/");
    put_number(out, a.rejection_cases as u64);
    put(out, " |\n");
    assert(out@ =~= start + overall_times(*a));
}

fn put_overall(out: &mut Vec<char>, a: &Aggregates)
    requires
        a.fingerprint_us < NUMBER_LIMIT,
        a.match_us < NUMBER_LIMIT,
    ensures
        final(out)@ == old(out)@ + overall(*a),
{
    let ghost start = out@;
    put(out, "## Overall\n\n| metric | value |\n|---|---|\n");
    put_overall_recall(out, a);
    put_overall_times(out, a);
    put(out, "\n");
    assert(out@ =~= start + overall(*a));
}

/// A share in whole percents; a dash of nothing.
pub open spec fn share0(hits: nat, n: nat) -> Seq<char> {
    if n == 0 {
        "-"@
    } else {
        fixed0(hits * 100, n) + "%"@
    }
}

fn put_share0(out: &mut Vec<char>, hits: usize, n: usize)
    ensures
        final(out)@ == old(out)@ + share0(hits as nat, n as nat),
{
    let ghost start = out@;
    if n == 0 {
        put(out, "-");
    } else {
        put_fixed0(out, hits as u128 * 100, n as u128);
        put(out, "%");
    }
    assert(out@ =~= start + share0(hits as nat, n as nat));
}

/// Shares of one degradation.
pub open spec fn cell_shares(c: Cell) -> Seq<char> {
    share0(c.track_hits as nat, c.n as nat) + " | "@ + share0(c.offset_hits as nat, c.n as nat)
        + " | "@ + share0(c.gated_hits as nat, c.n as nat)
}

/// One row of the table by degradation.
pub open spec fn cell_row(c: Cell) -> Seq<char> {
    "| "@ + c.degradation@ + " | "@ + decimal(c.n as nat) + " | "@ + cell_shares(c) + " | "@
        + mean_ms(c.fingerprint_us as nat, c.n as nat) + " | "@ + mean_ms(
        c.match_us as nat,
        c.n as nat,
    ) + " |\n"@
}

fn put_cell_shares(out: &mut Vec<char>, c: &Cell)
    ensures
        final(out)@ == old(out)@ + cell_shares(*c),
{
    let ghost start = out@;
    put_share0(out, c.track_hits, c.n);
    put(out, " | ");
    put_share0(out, c.offset_hits, c.n);
    put(out, " | ");
    put_share0(out, c.gated_hits, c.n);
    assert(out@ =~= start + cell_shares(*c));
}

fn put_cell_row(out: &mut Vec<char>, c: &Cell)
    requires
        c.fingerprint_us < NUMBER_LIMIT,
        c.match_us < NUMBER_LIMIT,
    ensures
        final(out)@ == old(out)@ + cell_row(*c),
{
    let ghost start = out@;
    put(out, "| ");
    put(out, c.degradation.as_str());
    put(out, " | ");
    put_number(out, c.n as u64);
    put(out, " | ");
    put_cell_shares(out, c);
    put(out, " | ");
    put_mean_ms(out, c.fingerprint_us, c.n);
    put(out, " | ");
    put_mean_ms(out, c.match_us, c.n);
    put(out, " |\n");
    assert(out@ =~= start + cell_row(*c));
}

pub open spec fn cell_rows(cells: Seq<Cell>) -> Seq<char>
    decreases cells.len(),
{
    if cells.len() == 0 {
        Seq::empty()
    } else {
        cell_rows(cells.drop_last()) + cell_row(cells.last())
    }
}

/// One row of the table of rejections.
pub open spec fn rejection_row(r: RejectionCase) -> Seq<char> {
    "| "@ + r.degradation@ + " | "@ + if r.accepted_by_gate {
        "**YES**"@
    } else {
        "no"@
    } + " | "@ + match r.best_score {
        Some(s) => decimal(s as nat),
        None => "-"@,
    } + " |\n"@
}

fn put_rejection_row(out: &mut Vec<char>, r: &RejectionCase)
    ensures
        final(out)@ == old(out)@ + rejection_row(*r),
{
    let ghost start = out@;
    put(out, "| ");
    put(out, r.degradation.as_str());
    put(out, " | ");
    if r.accepted_by_gate {
        put(out, "**YES**");
    } else {
        put(out, "no");
    }
    put(out, " | ");
    match r.best_score {
        Some(s) => {
            put_number(out, s as u64);
        },
        None => {
            put(out, "-");
        },
    }
    put(out, " |\n");
    assert(out@ =~= start + rejection_row(*r));
}

pub open spec fn rejection_rows(rs: Seq<RejectionCase>) -> Seq<char>
    decreases rs.len(),
{
    if rs.len() == 0 {
        Seq::empty()
    } else {
        rejection_rows(rs.drop_last()) + rejection_row(rs.last())
    }
}

/// The report of a run, given its table by degradation.
pub open spec fn report_text(s: RunSummary, cells: Seq<Cell>) -> Seq<char> {
    heading(s) + overall(aggregates_of(s.cases@, s.rejection_cases@))
        + "## By degradation\n\n| degradation | n | recall(track) | recall(offset) | gated | mean fp ms | mean match ms |\n|---|---:|---:|---:|---:|---:|---:|\n"@
        + cell_rows(cells)
        + "\n## Out-of-catalog rejection\n\n| degradation | accepted (should be no) | best score |\n|---|---|---:|\n"@
        + rejection_rows(s.rejection_cases@)
}

/// The cells are the table of the cases.
pub open spec fn is_table(cells: Seq<Cell>, cases: Seq<CaseResult>) -> bool {
    &&& forall|i: int| 0 <= i < cells.len() ==> is_cell(#[trigger] cells[i], cases)
    &&& forall|i: int, j: int|
        #![trigger cells[i], cells[j]]
        0 <= i < j < cells.len() ==> crate::text::text_less(
            cells[i].degradation@,
            cells[j].degradation@,
        )
    &&& forall|i: int|
        0 <= i < cells.len() ==> crate::bench::occurs(cases, (#[trigger] cells[i]).degradation@)
    &&& forall|k: int|
        0 <= k < cases.len() ==> crate::bench::has_cell(cells, (#[trigger] cases[k]).degradation@)
}

proof fn lemma_filter_shrinks(cases: Seq<CaseResult>, p: spec_fn(CaseResult) -> bool)
    ensures
        cases.filter(p).len() <= cases.len(),
    decreases cases.len(),
{
    reveal(Seq::filter);
    if cases.len() > 0 {
        lemma_filter_shrinks(cases.drop_last(), p);
    }
}

/// Sums of times of so many cases can be printed.
proof fn lemma_times_fit(times: Seq<u64>)
    requires
        times.len() < CASE_LIMIT,
    ensures
        0 <= sum_of(times) < NUMBER_LIMIT,
{
    lemma_time_sum_bound(times);
    assert(times.len() * 0xffff_ffff_ffff_ffff < NUMBER_LIMIT) by (nonlinear_arith)
        requires
            times.len() < 0x10_0000_0000_0000,
            NUMBER_LIMIT == 0x0040_0000_0000_0000_0000_0000_0000_0000,
    ;
}

/// More cases than fit in memory.
pub const CASE_LIMIT: u64 = 0x10_0000_0000_0000;

/// A run whose times can be added up and printed.
pub open spec fn is_printable(s: RunSummary) -> bool {
    &&& s.cases.len() < CASE_LIMIT
    &&& forall|i: int|
        0 <= i < s.cases.len() ==> (#[trigger] s.cases[i]).fingerprint_us + s.cases[i].match_us
            <= u64::MAX
}

proof fn lemma_printable(s: RunSummary)
    requires
        is_printable(s),
    ensures
        aggregates_of(s.cases@, s.rejection_cases@).fingerprint_us < NUMBER_LIMIT,
        aggregates_of(s.cases@, s.rejection_cases@).match_us < NUMBER_LIMIT,
        forall|c: Cell| #[trigger]
            is_cell(c, s.cases@) ==> c.fingerprint_us < NUMBER_LIMIT && c.match_us < NUMBER_LIMIT,
{
    lemma_times_fit(fingerprint_times(s.cases@));
    lemma_times_fit(match_times(s.cases@));
    assert forall|c: Cell| #[trigger] is_cell(c, s.cases@) implies c.fingerprint_us < NUMBER_LIMIT
        && c.match_us < NUMBER_LIMIT by {
        let own = cases_of(s.cases@, c.degradation@);
        lemma_filter_shrinks(s.cases@, crate::bench::of_degradation(c.degradation@));
        lemma_times_fit(fingerprint_times(own));
        lemma_times_fit(match_times(own));
    }
}

/// Renders the report of a run.
pub fn render_markdown(s: &RunSummary) -> (text: String)
    requires
        is_printable(*s),
    ensures
        exists|cells: Seq<Cell>| #[trigger]
            is_table(cells, s.cases@) && text@ == report_text(*s, cells),
{
    let agg: Aggregates = s.aggregate();
    let cells: Vec<Cell> = table_of(&s.cases);
    proof {
        lemma_printable(*s);
    }
    let mut out: Vec<char> = Vec::new();
    put_heading(&mut out, s);
    put_overall(&mut out, &agg);
    put(
        &mut out,
        "## By degradation\n\n| degradation | n | recall(track) | recall(offset) | gated | mean fp ms | mean match ms |\n|---|---:|---:|---:|---:|---:|---:|\n",
    );
    let ghost top = out@;
    let mut i: usize = 0;
    assert(cells@.take(0) =~= Seq::<Cell>::empty());
    assert(top + cell_rows(cells@.take(0)) =~= top);
    while i < cells.len()
        invariant
            i <= cells.len(),
            forall|k: int| 0 <= k < cells.len() ==> is_cell(#[trigger] cells[k], s.cases@),
            forall|c: Cell| #[trigger]
                is_cell(c, s.cases@) ==> c.fingerprint_us < NUMBER_LIMIT && c.match_us
                    < NUMBER_LIMIT,
            out@ == top + cell_rows(cells@.take(i as int)),
        decreases cells.len() - i,
    {
        assert(cells@.take(i + 1).drop_last() =~= cells@.take(i as int));
        assert(is_cell(cells[i as int], s.cases@));
        put_cell_row(&mut out, &cells[i]);
        i = i + 1;
        assert(out@ =~= top + cell_rows(cells@.take(i as int)));
    }
    assert(cells@.take(i as int) =~= cells@);
    put(
        &mut out,
        "\n## Out-of-catalog rejection\n\n| degradation | accepted (should be no) | best score |\n|---|---|---:|\n",
    );
    let ghost middle = out@;
    let rs = &s.rejection_cases;
    let mut k: usize = 0;
    assert(rs@.take(0) =~= Seq::<RejectionCase>::empty());
    assert(middle + rejection_rows(rs@.take(0)) =~= middle);
    while k < rs.len()
        invariant
            k <= rs.len(),
            out@ == middle + rejection_rows(rs@.take(k as int)),
        decreases rs.len() - k,
    {
        assert(rs@.take(k + 1).drop_last() =~= rs@.take(k as int));
        put_rejection_row(&mut out, &rs[k]);
        k = k + 1;
        assert(out@ =~= middle + rejection_rows(rs@.take(k as int)));
    }
    proof {
        assert(rs@.take(k as int) =~= rs@);
        assert(out@ =~= report_text(*s, cells@));
        assert(is_table(cells@, s.cases@));
    }
    string_of(&out)
}

// ---- several engines ----

/// A share in whole percents, rounded down; a dash of nothing.
pub open spec fn share_down(hits: nat, n: nat) -> Seq<char> {
    if n == 0 {
        "-"@
    } else {
        decimal(hits * 100 / n) + "%"@
    }
}

fn put_share_down(out: &mut Vec<char>, hits: usize, n: usize)
    ensures
        final(out)@ == old(out)@ + share_down(hits as nat, n as nat),
{
    let ghost start = out@;
    match percent(hits, n) {
        None => {
            put(out, "-");
        },
        Some(p) => {
            let mut cs: Vec<char> = wide_digits(p);
            out.append(&mut cs);
            put(out, "%");
        },
    }
    assert(out@ =~= start + share_down(hits as nat, n as nat));
}

/// What an engine did on one degradation.
pub open spec fn comparison_cell(s: RunSummary, d: Seq<char>) -> Seq<char> {
    let own = cases_of(s.cases@, d);
    " "@ + share_down(count_where(own, hits_track()), own.len()) + "/"@ + share_down(
        count_where(own, hits_offset()),
        own.len(),
    ) + "/"@ + share_down(count_where(own, hits_gated()), own.len()) + " |"@
}

fn put_comparison_cell(out: &mut Vec<char>, s: &RunSummary, d: &String)
    ensures
        final(out)@ == old(out)@ + comparison_cell(*s, d@),
{
    let ghost start = out@;
    let c: Cell = cell_of(&s.cases, d);
    put(out, " ");
    put_share_down(out, c.track_hits, c.n);
    put(out, "/");
    put_share_down(out, c.offset_hits, c.n);
    put(out, "/");
    put_share_down(out, c.gated_hits, c.n);
    put(out, " |");
    assert(out@ =~= start + comparison_cell(*s, d@));
}

pub open spec fn comparison_cells(ss: Seq<RunSummary>, d: Seq<char>) -> Seq<char>
    decreases ss.len(),
{
    if ss.len() == 0 {
        Seq::empty()
    } else {
        comparison_cells(ss.drop_last(), d) + comparison_cell(ss.last(), d)
    }
}

/// The row of one degradation.
pub open spec fn comparison_row(ss: Seq<RunSummary>, d: Seq<char>) -> Seq<char> {
    "| "@ + d + " |"@ + comparison_cells(ss, d) + "\n"@
}

fn put_comparison_row(out: &mut Vec<char>, ss: &Vec<RunSummary>, d: &String)
    ensures
        final(out)@ == old(out)@ + comparison_row(ss@, d@),
{
    let ghost start = out@;
    put(out, "| ");
    put(out, d.as_str());
    put(out, " |");
    let ghost top = out@;
    let mut i: usize = 0;
    assert(ss@.take(0) =~= Seq::<RunSummary>::empty());
    assert(top + comparison_cells(ss@.take(0), d@) =~= top);
    while i < ss.len()
        invariant
            i <= ss.len(),
            out@ == top + comparison_cells(ss@.take(i as int), d@),
        decreases ss.len() - i,
    {
        assert(ss@.take(i + 1).drop_last() =~= ss@.take(i as int));
        put_comparison_cell(out, &ss[i], d);
        i = i + 1;
        assert(out@ =~= top + comparison_cells(ss@.take(i as int), d@));
    }
    assert(ss@.take(i as int) =~= ss@);
    put(out, "\n");
    assert(out@ =~= start + comparison_row(ss@, d@));
}

pub open spec fn comparison_rows(ss: Seq<RunSummary>, ds: Seq<String>) -> Seq<char>
    decreases ds.len(),
{
    if ds.len() == 0 {
        Seq::empty()
    } else {
        comparison_rows(ss, ds.drop_last()) + comparison_row(ss, ds.last()@)
    }
}

pub open spec fn comparison_columns(ss: Seq<RunSummary>) -> Seq<char>
    decreases ss.len(),
{
    if ss.len() == 0 {
        Seq::empty()
    } else {
        comparison_columns(ss.drop_last()) + " "@ + ss.last().engine@ + " track/offset/gated |"@
    }
}

pub open spec fn comparison_rules(n: nat) -> Seq<char>
    decreases n,
{
    if n == 0 {
        Seq::empty()
    } else {
        comparison_rules((n - 1) as nat) + "---|"@
    }
}

/// Shares of one engine.
pub open spec fn engine_shares(a: Aggregates) -> Seq<char> {
    share1(a.track_hits as nat, a.total_cases as nat) + " | "@ + share1(
        a.offset_hits as nat,
        a.total_cases as nat,
    ) + " | "@ + share1(a.gated_hits as nat, a.total_cases as nat)
}

fn put_engine_shares(out: &mut Vec<char>, a: &Aggregates)
    ensures
        final(out)@ == old(out)@ + engine_shares(*a),
{
    let ghost start = out@;
    put_share1(out, a.track_hits, a.total_cases);
    put(out, " | ");
    put_share1(out, a.offset_hits, a.total_cases);
    put(out, " | ");
    put_share1(out, a.gated_hits, a.total_cases);
    assert(out@ =~= start + engine_shares(*a));
}

/// Times and false accepts of one engine.
pub open spec fn engine_times(a: Aggregates) -> Seq<char> {
    mean_ms(a.fingerprint_us as nat, a.total_cases as nat) + " | "@ + mean_ms(
        a.match_us as nat,
        a.total_cases as nat,
    ) + " | "@ + decimal(a.false_accepts as nat) + "/"@ + decimal(a.rejection_cases as nat)
}

fn put_engine_times(out: &mut Vec<char>, a: &Aggregates)
    requires
        a.fingerprint_us < NUMBER_LIMIT,
        a.match_us < NUMBER_LIMIT,
    ensures
        final(out)@ == old(out)@ + engine_times(*a),
{
    let ghost start = out@;
    put_mean_ms(out, a.fingerprint_us, a.total_cases);
    put(out, " | ");
    put_mean_ms(out, a.match_us, a.total_cases);
    put(out, " | ");
    put_number(out, a.false_accepts as u64);
    put(out, "/");
    put_number(out, a.rejection_cases as u64);
    assert(out@ =~= start + engine_times(*a));
}

/// The line of one engine.
pub open spec fn engine_line(s: RunSummary) -> Seq<char> {
    let a = aggregates_of(s.cases@, s.rejection_cases@);
    "| "@ + s.engine@ + " | "@ + engine_shares(a) + " | "@ + engine_times(a) + " |\n"@
}

fn put_engine_line(out: &mut Vec<char>, s: &RunSummary)
    requires
        is_printable(*s),
    ensures
        final(out)@ == old(out)@ + engine_line(*s),
{
    let ghost start = out@;
    let a: Aggregates = s.aggregate();
    proof {
        lemma_printable(*s);
    }
    put(out, "| ");
    put(out, s.engine.as_str());
    put(out, " | ");
    put_engine_shares(out, &a);
    put(out, " | ");
    put_engine_times(out, &a);
    put(out, " |\n");
    assert(out@ =~= start + engine_line(*s));
}

pub open spec fn engine_lines(ss: Seq<RunSummary>) -> Seq<char>
    decreases ss.len(),
{
    if ss.len() == 0 {
        Seq::empty()
    } else {
        engine_lines(ss.drop_last()) + engine_line(ss.last())
    }
}

/// Engines side by side on the degradations of the first.
pub open spec fn comparison_text(ss: Seq<RunSummary>, ds: Seq<String>) -> Seq<char> {
    "# Sivana engine comparison\n\nSame corpus seed, same excerpt positions, same degradation grid.\n\n| degradation |"@
        + comparison_columns(ss) + "\n|---|"@ + comparison_rules(ss.len()) + "\n"@
        + comparison_rows(ss, ds)
        + "\n## Overall\n\n| engine | recall(track) | recall(offset) | gated | mean fp ms | mean match ms | false accepts |\n|---|---:|---:|---:|---:|---:|---:|\n"@
        + engine_lines(ss)
}

/// The degradations of the first run, each once, in the order of texts.
pub open spec fn are_degradations(ds: Seq<String>, ss: Seq<RunSummary>) -> bool {
    &&& crate::bench::names_ascend(ds)
    &&& forall|d: Seq<char>| #[trigger]
        crate::bench::has_name(ds, d) <==> ss.len() > 0 && crate::bench::occurs(ss[0].cases@, d)
}

/// Renders engines side by side.
pub fn render_comparison(ss: &Vec<RunSummary>) -> (text: String)
    requires
        forall|i: int| 0 <= i < ss.len() ==> is_printable(#[trigger] ss[i]),
    ensures
        exists|ds: Seq<String>| #[trigger]
            are_degradations(ds, ss@) && text@ == comparison_text(ss@, ds),
{
    let ds: Vec<String> = if ss.len() == 0 {
        Vec::new()
    } else {
        degradations_of(&ss[0].cases)
    };
    let mut out: Vec<char> = Vec::new();
    put(
        &mut out,
        "# Sivana engine comparison\n\nSame corpus seed, same excerpt positions, same degradation grid.\n\n| degradation |",
    );
    let ghost a = out@;
    let mut i: usize = 0;
    assert(ss@.take(0) =~= Seq::<RunSummary>::empty());
    assert(a + comparison_columns(ss@.take(0)) =~= a);
    while i < ss.len()
        invariant
            i <= ss.len(),
            out@ == a + comparison_columns(ss@.take(i as int)),
        decreases ss.len() - i,
    {
        assert(ss@.take(i + 1).drop_last() =~= ss@.take(i as int));
        put(&mut out, " ");
        put(&mut out, ss[i].engine.as_str());
        put(&mut out, " track/offset/gated |");
        i = i + 1;
        assert(out@ =~= a + comparison_columns(ss@.take(i as int)));
    }
    assert(ss@.take(i as int) =~= ss@);
    put(&mut out, "\n|---|");
    let ghost b = out@;
    let mut i: usize = 0;
    assert(b + comparison_rules(0) =~= b);
    while i < ss.len()
        invariant
            i <= ss.len(),
            out@ == b + comparison_rules(i as nat),
        decreases ss.len() - i,
    {
        put(&mut out, "---|");
        i = i + 1;
        assert(out@ =~= b + comparison_rules(i as nat));
    }
    put(&mut out, "\n");
    let ghost c = out@;
    let mut i: usize = 0;
    assert(ds@.take(0) =~= Seq::<String>::empty());
    assert(c + comparison_rows(ss@, ds@.take(0)) =~= c);
    while i < ds.len()
        invariant
            i <= ds.len(),
            out@ == c + comparison_rows(ss@, ds@.take(i as int)),
        decreases ds.len() - i,
    {
        assert(ds@.take(i + 1).drop_last() =~= ds@.take(i as int));
        put_comparison_row(&mut out, ss, &ds[i]);
        i = i + 1;
        assert(out@ =~= c + comparison_rows(ss@, ds@.take(i as int)));
    }
    assert(ds@.take(i as int) =~= ds@);
    put(
        &mut out,
        "\n## Overall\n\n| engine | recall(track) | recall(offset) | gated | mean fp ms | mean match ms | false accepts |\n|---|---:|---:|---:|---:|---:|---:|\n",
    );
    let ghost d = out@;
    let mut i: usize = 0;
    assert(d + engine_lines(ss@.take(0)) =~= d);
    while i < ss.len()
        invariant
            i <= ss.len(),
            forall|i: int| 0 <= i < ss.len() ==> is_printable(#[trigger] ss[i]),
            out@ == d + engine_lines(ss@.take(i as int)),
        decreases ss.len() - i,
    {
        assert(ss@.take(i + 1).drop_last() =~= ss@.take(i as int));
        put_engine_line(&mut out, &ss[i]);
        i = i + 1;
        assert(out@ =~= d + engine_lines(ss@.take(i as int)));
    }
    proof {
        assert(ss@.take(i as int) =~= ss@);
        assert(out@ =~= comparison_text(ss@, ds@));
        assert(are_degradations(ds@, ss@));
    }
    string_of(&out)
}

// ---- calibration ----

/// One evaluated gate.
pub open spec fn point_row(p: CalibPoint) -> Seq<char> {
    "| "@ + decimal(p.min_inliers as nat) + " | "@ + fixed2(
        p.min_concentration_percent as nat,
        100,
    ) + " | "@ + share1(p.hits as nat, p.total as nat) + " | "@ + decimal(p.false_accepts as nat)
        + "/"@ + decimal(p.rejection_cases as nat) + " |\n"@
}

fn put_point_row(out: &mut Vec<char>, p: &CalibPoint)
    ensures
        final(out)@ == old(out)@ + point_row(*p),
{
    let ghost start = out@;
    put(out, "| ");
    put_number(out, p.min_inliers as u64);
    put(out, " | ");
    put_fixed2(out, p.min_concentration_percent as u128, 100);
    put(out, " | ");
    put_share1(out, p.hits, p.total);
    put(out, " | ");
    put_number(out, p.false_accepts as u64);
    put(out, "/");
    put_number(out, p.rejection_cases as u64);
    put(out, " |\n");
    assert(out@ =~= start + point_row(*p));
}

pub open spec fn point_rows(points: Seq<CalibPoint>) -> Seq<char>
    decreases points.len(),
{
    if points.len() == 0 {
        Seq::empty()
    } else {
        point_rows(points.drop_last()) + point_row(points.last())
    }
}

/// What is recommended.
pub open spec fn recommendation(best: Option<CalibPoint>) -> Seq<char> {
    match best {
        Some(p) => "\n**Recommended (FA = 0, max recall):** a = "@ + decimal(p.min_inliers as nat)
            + ", b = "@ + fixed2(p.min_concentration_percent as nat, 100) + ", gated recall "@
            + share1(p.hits as nat, p.total as nat) + ".\n"@,
        None =>
            "\nNo zero-false-accept operating point exists on this grid — the feature space does not separate correct matches from out-of-catalog audio yet.\n"@,
    }
}

/// The calibration of an engine.
pub open spec fn calibration_text(
    engine: Seq<char>,
    points: Seq<CalibPoint>,
    best: Option<CalibPoint>,
) -> Seq<char> {
    "## Calibration — "@ + engine
        + "\n\nGate: accept iff `inliers >= a AND concentration >= b`.\n\n| a (min inliers) | b (min conc) | gated recall | false accepts |\n|---:|---:|---:|---:|\n"@
        + point_rows(points) + recommendation(best) + "\n"@
}

/// `best` is the operating point of the sweep.
pub open spec fn is_recommended(points: Seq<CalibPoint>, best: Option<CalibPoint>) -> bool {
    match best {
        Some(p) => {
            &&& points.contains(p)
            &&& p.false_accepts == 0
            &&& forall|i: int|
                0 <= i < points.len() && (#[trigger] points[i]).false_accepts == 0
                    ==> !crate::calibrate::is_better(points[i], p)
        },
        None => forall|i: int| 0 <= i < points.len() ==> (#[trigger] points[i]).false_accepts > 0,
    }
}

/// Renders a sweep: the whole grid, and what is recommended.
pub fn to_markdown(engine: &str, points: &Vec<CalibPoint>) -> (text: String)
    ensures
        exists|best: Option<CalibPoint>| #[trigger]
            is_recommended(points@, best) && text@ == calibration_text(engine@, points@, best),
{
    let best: Option<CalibPoint> = recommend(points);
    let mut out: Vec<char> = Vec::new();
    put(&mut out, "## Calibration — ");
    put(&mut out, engine);
    put(
        &mut out,
        "\n\nGate: accept iff `inliers >= a AND concentration >= b`.\n\n| a (min inliers) | b (min conc) | gated recall | false accepts |\n|---:|---:|---:|---:|\n",
    );
    let ghost top = out@;
    let mut i: usize = 0;
    assert(points@.take(0) =~= Seq::<CalibPoint>::empty());
    assert(top + point_rows(points@.take(0)) =~= top);
    while i < points.len()
        invariant
            i <= points.len(),
            out@ == top + point_rows(points@.take(i as int)),
        decreases points.len() - i,
    {
        assert(points@.take(i + 1).drop_last() =~= points@.take(i as int));
        put_point_row(&mut out, &points[i]);
        i = i + 1;
        assert(out@ =~= top + point_rows(points@.take(i as int)));
    }
    assert(points@.take(i as int) =~= points@);
    match &best {
        Some(p) => {
            put(&mut out, "\n**Recommended (FA = 0, max recall):** a = ");
            put_number(&mut out, p.min_inliers as u64);
            put(&mut out, ", b = ");
            put_fixed2(&mut out, p.min_concentration_percent as u128, 100);
            put(&mut out, ", gated recall ");
            put_share1(&mut out, p.hits, p.total);
            put(&mut out, ".\n");
        },
        None => {
            put(
                &mut out,
                "\nNo zero-false-accept operating point exists on this grid — the feature space does not separate correct matches from out-of-catalog audio yet.\n",
            );
        },
    }
    put(&mut out, "\n");
    proof {
        assert(out@ =~= calibration_text(engine@, points@, best));
        assert(is_recommended(points@, best));
    }
    string_of(&out)
}

// ---- laws ----

/// How fractions are printed: to the nearest whole, tenth or hundredth; a
/// share of nothing as a share of one; a mean of microseconds in
/// milliseconds.
pub proof fn law_fractions_are_printed_to_the_nearest(num: nat, den: nat, n: nat)
    requires
        den > 0,
    ensures
        fixed0(num, den) == decimal(rounded(num, den)),
        ({
            let tenths = rounded(10 * num, den);
            let cents = rounded(100 * num, den);
            &&& fixed1(num, den) == decimal(tenths / 10) + seq!['.', (48 + tenths % 10) as char]
            &&& fixed2(num, den) == decimal(cents / 100) + seq![
                '.',
                (48 + cents / 10 % 10) as char,
                (48 + cents % 10) as char,
            ]
        }),
        share1(num, den) == fixed1(100 * num, den).push('%'),
        share1(num, 0) == fixed1(100 * num, 1).push('%'),
        mean_ms(num, den) == fixed2(num, 1000 * den),
        mean_ms(num, 0) == fixed2(num, 1000),
        share0(num, den) == fixed0(100 * num, den).push('%'),
        share_down(num, den) == decimal(100 * num / den).push('%'),
        share0(num, 0) == seq!['-'] && share_down(num, 0) == seq!['-'],
{
    reveal_strlit(".");
    reveal_strlit("%");
    reveal_strlit("-");
    let tenths = rounded(num * 10, den);
    let cents = rounded(num * 100, den);
    assert(num * 10 == 10 * num && num * 100 == 100 * num);
    assert(fixed1(num, den) =~= decimal(tenths / 10) + seq!['.', (48 + tenths % 10) as char]);
    assert(fixed2(num, den) =~= decimal(cents / 100) + seq![
        '.',
        (48 + cents / 10 % 10) as char,
        (48 + cents % 10) as char,
    ]);
    assert(share1(num, den) =~= fixed1(100 * num, den).push('%'));
    assert(share1(num, 0) =~= fixed1(100 * num, 1).push('%'));
    assert(share0(num, den) =~= fixed0(100 * num, den).push('%'));
    assert(share_down(num, den) =~= decimal(100 * num / den).push('%'));
    assert(share0(num, 0) =~= seq!['-']);
    assert(share_down(num, 0) =~= seq!['-']);
    assert(den * 1000 == 1000 * den);
}

/// What is part of a text is part of a longer one.
proof fn lemma_part_of_joined(a: Seq<char>, b: Seq<char>, part: Seq<char>)
    ensures
        has_part(a, part) || has_part(b, part) ==> has_part(a + b, part),
        has_part(a, a),
{
    if has_part(a, part) {
        let at = choose|at: int| #[trigger] occurs_at(a, part, at);
        assert((a + b).subrange(at, at + part.len()) =~= a.subrange(at, at + part.len()));
        assert(occurs_at(a + b, part, at));
    }
    if has_part(b, part) {
        let at = choose|at: int| #[trigger] occurs_at(b, part, at);
        let to = a.len() + at;
        assert((a + b).subrange(to, to + part.len()) =~= b.subrange(at, at + part.len()));
        assert(occurs_at(a + b, part, to));
    }
    assert(a.subrange(0, a.len() as int) =~= a);
    assert(occurs_at(a, a, 0));
}

/// The table over all cases tells every figure behind its name.
pub proof fn law_overall_figures_stand_behind_their_names(a: Aggregates)
    ensures
        has_part(overall(a), "| cases | "@ + decimal(a.total_cases as nat)),
        has_part(
            overall(a),
            " |\n| recall@1 (track identity) | "@ + share1(
                a.track_hits as nat,
                a.total_cases as nat,
            ),
        ),
        has_part(
            overall(a),
            " |\n| recall@1 (+offset within 2 frames) | "@ + share1(
                a.offset_hits as nat,
                a.total_cases as nat,
            ),
        ),
        has_part(
            overall(a),
            " |\n| recall via legacy score gate | "@ + share1(
                a.gated_hits as nat,
                a.total_cases as nat,
            ),
        ),
        has_part(
            overall(a),
            "| mean fingerprint time | "@ + mean_ms(
                a.fingerprint_us as nat,
                a.total_cases as nat,
            ),
        ),
        has_part(
            overall(a),
            " ms |\n| mean match time | "@ + mean_ms(a.match_us as nat, a.total_cases as nat),
        ),
        has_part(
            overall(a),
            " ms |\n| p95 total latency | "@ + fixed2(a.p95_total_us as nat, 1000),
        ),
        has_part(
            overall(a),
            " ms |\n| out-of-catalog false accepts | "@ + decimal(a.false_accepts as nat) + "/"@
                + decimal(a.rejection_cases as nat),
        ),
{
    let n = a.total_cases as nat;
    let p1 = "| cases | "@ + decimal(n);
    let p2 = " |\n| recall@1 (track identity) | "@ + share1(a.track_hits as nat, n);
    let p3 = " |\n| recall@1 (+offset within 2 frames) | "@ + share1(a.offset_hits as nat, n);
    let p4 = " |\n| recall via legacy score gate | "@ + share1(a.gated_hits as nat, n);
    let q1 = "| mean fingerprint time | "@ + mean_ms(a.fingerprint_us as nat, n);
    let q2 = " ms |\n| mean match time | "@ + mean_ms(a.match_us as nat, n);
    let q3 = " ms |\n| p95 total latency | "@ + fixed2(a.p95_total_us as nat, 1000);
    let q4 = " ms |\n| out-of-catalog false accepts | "@ + decimal(a.false_accepts as nat) + "/"@
        + decimal(a.rejection_cases as nat);
    assert(overall_recall(a) =~= p1 + p2 + p3 + p4 + " |\n"@);
    assert(overall_times(a) =~= q1 + q2 + q3 + q4 + " |\n"@);
    lemma_one_of_four(p1, p2, p3, p4, " |\n"@);
    lemma_one_of_four(q1, q2, q3, q4, " |\n"@);
    lemma_inner_part(a, p1);
    lemma_inner_part(a, p2);
    lemma_inner_part(a, p3);
    lemma_inner_part(a, p4);
    lemma_inner_part(a, q1);
    lemma_inner_part(a, q2);
    lemma_inner_part(a, q3);
    lemma_inner_part(a, q4);
}

proof fn lemma_one_of_four(
    a: Seq<char>,
    b: Seq<char>,
    c: Seq<char>,
    d: Seq<char>,
    e: Seq<char>,
)
    ensures
        has_part(a + b + c + d + e, a),
        has_part(a + b + c + d + e, b),
        has_part(a + b + c + d + e, c),
        has_part(a + b + c + d + e, d),
{
    lemma_part_of_joined(a, b, a);
    lemma_part_of_joined(b, b, b);
    lemma_part_of_joined(c, c, c);
    lemma_part_of_joined(d, d, d);
    lemma_part_of_joined(a, b, b);
    lemma_part_of_joined(a + b, c, a);
    lemma_part_of_joined(a + b, c, b);
    lemma_part_of_joined(a + b, c, c);
    lemma_part_of_joined(a + b + c, d, a);
    lemma_part_of_joined(a + b + c, d, b);
    lemma_part_of_joined(a + b + c, d, c);
    lemma_part_of_joined(a + b + c, d, d);
    lemma_part_of_joined(a + b + c + d, e, a);
    lemma_part_of_joined(a + b + c + d, e, b);
    lemma_part_of_joined(a + b + c + d, e, c);
    lemma_part_of_joined(a + b + c + d, e, d);
}

proof fn lemma_inner_part(a: Aggregates, part: Seq<char>)
    requires
        has_part(overall_recall(a), part) || has_part(overall_times(a), part),
    ensures
        has_part(overall(a), part),
{
    let top = "## Overall\n\n| metric | value |\n|---|---|\n"@;
    lemma_part_of_joined(top, overall_recall(a), part);
    lemma_part_of_joined(top + overall_recall(a), overall_times(a), part);
    lemma_part_of_joined(top + overall_recall(a) + overall_times(a), "\n"@, part);
}

/// What a row by degradation holds, from left to right.
pub proof fn law_degradation_rows_tell_their_figures(c: Cell)
    ensures
        cell_row(c) == "| "@ + c.degradation@ + " | "@ + decimal(c.n as nat) + " | "@ + (share0(
            c.track_hits as nat,
            c.n as nat,
        ) + " | "@ + share0(c.offset_hits as nat, c.n as nat) + " | "@ + share0(
            c.gated_hits as nat,
            c.n as nat,
        )) + " | "@ + mean_ms(c.fingerprint_us as nat, c.n as nat) + " | "@ + mean_ms(
            c.match_us as nat,
            c.n as nat,
        ) + " |\n"@,
{
}

/// What a row of a held-out query and one of an evaluated pair of thresholds
/// hold, from left to right.
pub proof fn law_rejection_and_point_rows_tell_their_figures(r: RejectionCase, p: CalibPoint)
    ensures
        ({
            let start = "| "@ + r.degradation@ + " | "@;
            &&& r.accepted_by_gate && r.best_score is None ==> rejection_row(r) == start
                + "**YES**"@ + " | "@ + "-"@ + " |\n"@
            &&& r.accepted_by_gate && r.best_score is Some ==> rejection_row(r) == start
                + "**YES**"@ + " | "@ + decimal(r.best_score->0 as nat) + " |\n"@
            &&& !r.accepted_by_gate && r.best_score is None ==> rejection_row(r) == start + "no"@
                + " | "@ + "-"@ + " |\n"@
            &&& !r.accepted_by_gate && r.best_score is Some ==> rejection_row(r) == start + "no"@
                + " | "@ + decimal(r.best_score->0 as nat) + " |\n"@
        }),
        point_row(p) == "| "@ + decimal(p.min_inliers as nat) + " | "@ + fixed2(
            p.min_concentration_percent as nat,
            100,
        ) + " | "@ + share1(p.hits as nat, p.total as nat) + " | "@ + decimal(
            p.false_accepts as nat,
        ) + "/"@ + decimal(p.rejection_cases as nat) + " |\n"@,
{
}

/// What the line of an engine holds, from left to right.
pub proof fn law_engine_lines_tell_their_figures(s: RunSummary)
    ensures
        ({
            let a = aggregates_of(s.cases@, s.rejection_cases@);
            let n = a.total_cases as nat;
            engine_line(s) == "| "@ + s.engine@ + " | "@ + (share1(a.track_hits as nat, n) + " | "@
                + share1(a.offset_hits as nat, n) + " | "@ + share1(a.gated_hits as nat, n))
                + " | "@ + (mean_ms(a.fingerprint_us as nat, n) + " | "@ + mean_ms(
                a.match_us as nat,
                n,
            ) + " | "@ + decimal(a.false_accepts as nat) + "/"@ + decimal(
                a.rejection_cases as nat,
            )) + " |\n"@
        }),
{
}

/// What is recommended: the thresholds and the share of hits of the point
/// that was found, or that there is none.
pub proof fn law_recommendations_name_the_point(p: CalibPoint)
    ensures
        recommendation(Some(p)) == "\n**Recommended (FA = 0, max recall):** a = "@ + decimal(
            p.min_inliers as nat,
        ) + ", b = "@ + fixed2(p.min_concentration_percent as nat, 100) + ", gated recall "@
            + share1(p.hits as nat, p.total as nat) + ".\n"@,
        recommendation(None)
            == "\nNo zero-false-accept operating point exists on this grid — the feature space does not separate correct matches from out-of-catalog audio yet.\n"@,
{
}

/// Where engines are compared, each is told by the shares of its cases of the
/// degradation that hit the track, the offset and the bar.
pub proof fn law_comparisons_tell_the_shares(s: RunSummary, d: Seq<char>)
    ensures
        ({
            let own = s.cases@.filter(|c: CaseResult| c.degradation@ == d);
            let track = own.filter(|c: CaseResult| c.verdict.track_hit).len();
            let offset = own.filter(|c: CaseResult| c.verdict.offset_hit).len();
            let gated = own.filter(|c: CaseResult| c.verdict.gated_hit).len();
            comparison_cell(s, d) == " "@ + share_down(track, own.len()) + "/"@ + share_down(
                offset,
                own.len(),
            ) + "/"@ + share_down(gated, own.len()) + " |"@
        }),
{
    let own = cases_of(s.cases@, d);
    assert(crate::bench::of_degradation(d) =~= (|c: CaseResult| c.degradation@ == d));
    law_counting_is_filtering(own, hits_track());
    law_counting_is_filtering(own, hits_offset());
    law_counting_is_filtering(own, hits_gated());
    assert(hits_track() =~= (|c: CaseResult| c.verdict.track_hit));
    assert(hits_offset() =~= (|c: CaseResult| c.verdict.offset_hit));
    assert(hits_gated() =~= (|c: CaseResult| c.verdict.gated_hit));
}

/// Every row is printed: tables grow by one row for each entry.
pub proof fn law_every_row_is_printed(
    cells: Seq<Cell>,
    c: Cell,
    rs: Seq<RejectionCase>,
    r: RejectionCase,
    points: Seq<CalibPoint>,
    p: CalibPoint,
    ss: Seq<RunSummary>,
    s: RunSummary,
    d: Seq<char>,
)
    ensures
        cell_rows(Seq::<Cell>::empty()).len() == 0,
        cell_rows(cells.push(c)) == cell_rows(cells) + cell_row(c),
        rejection_rows(Seq::<RejectionCase>::empty()).len() == 0,
        rejection_rows(rs.push(r)) == rejection_rows(rs) + rejection_row(r),
        point_rows(Seq::<CalibPoint>::empty()).len() == 0,
        point_rows(points.push(p)) == point_rows(points) + point_row(p),
        engine_lines(Seq::<RunSummary>::empty()).len() == 0,
        engine_lines(ss.push(s)) == engine_lines(ss) + engine_line(s),
        comparison_cells(Seq::<RunSummary>::empty(), d).len() == 0,
        comparison_cells(ss.push(s), d) == comparison_cells(ss, d) + comparison_cell(s, d),
{
    assert(cells.push(c).drop_last() =~= cells);
    assert(rs.push(r).drop_last() =~= rs);
    assert(points.push(p).drop_last() =~= points);
    assert(ss.push(s).drop_last() =~= ss);
}

/// A report holds its heading, the table over all cases of the run, a row for
/// every degradation and one for every held-out query.
pub proof fn law_reports_hold_every_table(s: RunSummary, cells: Seq<Cell>)
    ensures
        has_part(report_text(s, cells), heading(s)),
        has_part(
            report_text(s, cells),
            overall(aggregates_of(s.cases@, s.rejection_cases@)),
        ),
        has_part(report_text(s, cells), cell_rows(cells)),
        has_part(report_text(s, cells), rejection_rows(s.rejection_cases@)),
        heading_engine(s) == "# Sivana baseline benchmark\n\n- engine: `"@ + s.engine@
            + "` / fingerprint version "@ + s.fingerprint_version@ + "\n"@,
        has_part(heading(s), heading_engine(s)) && has_part(heading(s), heading_corpus(s)),
        heading_corpus(s) == "- corpus: "@ + decimal(s.n_tracks as nat) + " tracks x "@ + fixed0(
            s.track_ms as nat,
            1000,
        ) + "s @ "@ + decimal(s.sample_rate_hz as nat) + " Hz (seed "@ + decimal(s.seed as nat)
            + ")\n"@,
{
    let h = heading(s);
    let o = overall(aggregates_of(s.cases@, s.rejection_cases@));
    let t = "## By degradation\n\n| degradation | n | recall(track) | recall(offset) | gated | mean fp ms | mean match ms |\n|---|---:|---:|---:|---:|---:|---:|\n"@;
    let c = cell_rows(cells);
    let u = "\n## Out-of-catalog rejection\n\n| degradation | accepted (should be no) | best score |\n|---|---|---:|\n"@;
    let r = rejection_rows(s.rejection_cases@);
    lemma_part_of_joined(h, o, h);
    lemma_part_of_joined(o, o, o);
    lemma_part_of_joined(h, o, o);
    lemma_part_of_joined(h + o, t, h);
    lemma_part_of_joined(h + o, t, o);
    lemma_part_of_joined(c, c, c);
    lemma_part_of_joined(h + o + t, c, h);
    lemma_part_of_joined(h + o + t, c, o);
    lemma_part_of_joined(h + o + t, c, c);
    lemma_part_of_joined(h + o + t + c, u, h);
    lemma_part_of_joined(h + o + t + c, u, o);
    lemma_part_of_joined(h + o + t + c, u, c);
    lemma_part_of_joined(r, r, r);
    lemma_part_of_joined(h + o + t + c + u, r, h);
    lemma_part_of_joined(h + o + t + c + u, r, o);
    lemma_part_of_joined(h + o + t + c + u, r, c);
    lemma_part_of_joined(h + o + t + c + u, r, r);
    let (e, k) = (heading_engine(s), heading_corpus(s));
    let q = "- query excerpt: "@;
    let x = fixed1(s.excerpt_ms as nat, 1000);
    lemma_part_of_joined(e, k, e);
    lemma_part_of_joined(k, k, k);
    lemma_part_of_joined(e, k, k);
    lemma_part_of_joined(e + k, q, e);
    lemma_part_of_joined(e + k, q, k);
    lemma_part_of_joined(e + k + q, x, e);
    lemma_part_of_joined(e + k + q, x, k);
    lemma_part_of_joined(e + k + q + x, "s\n\n"@, e);
    lemma_part_of_joined(e + k + q + x, "s\n\n"@, k);
}

/// A comparison names every engine in its columns, gives every degradation a
/// row with a cell for each engine, and ends with a line for each; a
/// calibration holds the rows of all points and what is recommended.
pub proof fn law_comparisons_hold_every_row(
    ss: Seq<RunSummary>,
    s: RunSummary,
    ds: Seq<String>,
    d: String,
    n: nat,
    engine: Seq<char>,
    points: Seq<CalibPoint>,
    best: Option<CalibPoint>,
)
    ensures
        comparison_rows(ss, Seq::<String>::empty()).len() == 0,
        comparison_rows(ss, ds.push(d)) == comparison_rows(ss, ds) + ("| "@ + d@ + " |"@
            + comparison_cells(ss, d@) + "\n"@),
        comparison_columns(Seq::<RunSummary>::empty()).len() == 0,
        comparison_columns(ss.push(s)) == comparison_columns(ss) + " "@ + s.engine@
            + " track/offset/gated |"@,
        comparison_rules(0).len() == 0,
        comparison_rules(n + 1) == comparison_rules(n) + "---|"@,
        has_part(comparison_text(ss, ds), comparison_columns(ss)),
        has_part(comparison_text(ss, ds), comparison_rows(ss, ds)),
        has_part(comparison_text(ss, ds), engine_lines(ss)),
        has_part(calibration_text(engine, points, best), engine),
        has_part(calibration_text(engine, points, best), point_rows(points)),
        has_part(calibration_text(engine, points, best), recommendation(best)),
{
    assert(ds.push(d).drop_last() =~= ds);
    assert(ss.push(s).drop_last() =~= ss);
    let a = "# Sivana engine comparison\n\nSame corpus seed, same excerpt positions, same degradation grid.\n\n| degradation |"@;
    let c = comparison_columns(ss);
    let e = "\n|---|"@;
    let f = comparison_rules(ss.len());
    let r = comparison_rows(ss, ds);
    let g = "\n## Overall\n\n| engine | recall(track) | recall(offset) | gated | mean fp ms | mean match ms | false accepts |\n|---|---:|---:|---:|---:|---:|---:|\n"@;
    let l = engine_lines(ss);
    lemma_part_of_joined(c, c, c);
    lemma_part_of_joined(r, r, r);
    lemma_part_of_joined(l, l, l);
    lemma_part_of_joined(a, c, c);
    lemma_part_of_joined(a + c, e, c);
    lemma_part_of_joined(a + c + e, f, c);
    lemma_part_of_joined(a + c + e + f, "\n"@, c);
    lemma_part_of_joined(a + c + e + f + "\n"@, r, c);
    lemma_part_of_joined(a + c + e + f + "\n"@, r, r);
    lemma_part_of_joined(a + c + e + f + "\n"@ + r, g, c);
    lemma_part_of_joined(a + c + e + f + "\n"@ + r, g, r);
    lemma_part_of_joined(a + c + e + f + "\n"@ + r + g, l, c);
    lemma_part_of_joined(a + c + e + f + "\n"@ + r + g, l, r);
    lemma_part_of_joined(a + c + e + f + "\n"@ + r + g, l, l);
    lemma_calibration_parts(engine, points, best);
}

proof fn lemma_calibration_parts(
    engine: Seq<char>,
    points: Seq<CalibPoint>,
    best: Option<CalibPoint>,
)
    ensures
        has_part(calibration_text(engine, points, best), engine),
        has_part(calibration_text(engine, points, best), point_rows(points)),
        has_part(calibration_text(engine, points, best), recommendation(best)),
{
    let a = "## Calibration — "@;
    let g = "\n\nGate: accept iff `inliers >= a AND concentration >= b`.\n\n| a (min inliers) | b (min conc) | gated recall | false accepts |\n|---:|---:|---:|---:|\n"@;
    let p = point_rows(points);
    let r = recommendation(best);
    lemma_part_of_joined(engine, engine, engine);
    lemma_part_of_joined(p, p, p);
    lemma_part_of_joined(r, r, r);
    lemma_part_of_joined(a, engine, engine);
    lemma_part_of_joined(a + engine, g, engine);
    lemma_part_of_joined(a + engine + g, p, engine);
    lemma_part_of_joined(a + engine + g, p, p);
    lemma_part_of_joined(a + engine + g + p, r, engine);
    lemma_part_of_joined(a + engine + g + p, r, p);
    lemma_part_of_joined(a + engine + g + p, r, r);
    lemma_part_of_joined(a + engine + g + p + r, "\n"@, engine);
    lemma_part_of_joined(a + engine + g + p + r, "\n"@, p);
    lemma_part_of_joined(a + engine + g + p + r, "\n"@, r);
}

/// The table has one row for every degradation that occurs, and no other, by
/// ascending name; and so have the rows of a comparison, by those of its
/// first run.
pub proof fn law_tables_have_a_row_per_degradation(
    cells: Seq<Cell>,
    cases: Seq<CaseResult>,
    ds: Seq<String>,
    ss: Seq<RunSummary>,
    d: Seq<char>,
)
    requires
        is_table(cells, cases),
        are_degradations(ds, ss),
    ensures
        (exists|i: int| 0 <= i < cells.len() && (#[trigger] cells[i]).degradation@ == d)
            <==> exists|k: int| 0 <= k < cases.len() && (#[trigger] cases[k]).degradation@ == d,
        forall|i: int, j: int|
            #![trigger cells[i], cells[j]]
            0 <= i < j < cells.len() ==> text_less(cells[i].degradation@, cells[j].degradation@),
        forall|i: int| 0 <= i < cells.len() ==> is_cell(#[trigger] cells[i], cases),
        (exists|i: int| 0 <= i < ds.len() && (#[trigger] ds[i])@ == d) <==> ss.len() > 0
            && exists|k: int|
            0 <= k < ss[0].cases@.len() && (#[trigger] ss[0].cases@[k]).degradation@ == d,
        forall|i: int, j: int|
            #![trigger ds[i], ds[j]]
            0 <= i < j < ds.len() ==> text_less(ds[i]@, ds[j]@),
{
    if exists|i: int| 0 <= i < cells.len() && (#[trigger] cells[i]).degradation@ == d {
        let i = choose|i: int| 0 <= i < cells.len() && (#[trigger] cells[i]).degradation@ == d;
        assert(crate::bench::occurs(cases, cells[i].degradation@));
    }
    if exists|k: int| 0 <= k < cases.len() && (#[trigger] cases[k]).degradation@ == d {
        let k = choose|k: int| 0 <= k < cases.len() && (#[trigger] cases[k]).degradation@ == d;
        assert(crate::bench::has_cell(cells, cases[k].degradation@));
    }
    assert(crate::bench::has_name(ds, d) <==> ss.len() > 0 && crate::bench::occurs(
        ss[0].cases@,
        d,
    ));
}

} // verus!
