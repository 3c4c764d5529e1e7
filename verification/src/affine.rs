//! Matching under a change of speed: candidates by hash votes, and the
//! trimming of a line fit.
//!
//! Playback at another speed maps query time to catalog time by a line, not
//! by a shift, so no histogram of offsets can match it. Candidates are
//! shortlisted by the mass of their time pairs, and each is then verified by
//! fitting a line through the pairs in a few passes, where every pass drops
//! the pairs that fit worst.
use vstd::prelude::*;

use crate::matcher::{outranks, InMemoryIndex, RarityTable};
use crate::postings::Posting;
use crate::sort::{
    law_counting_is_filtering, law_sums_add_up, lemma_count_before, lemma_permuted_contains,
    lemma_sum_permuted, lemma_sum_push, lemma_sum_range, ordered, permuted, sorted, sum_where,
    Ranked,
};
use crate::triplets::TripletFp;

verus! {

/// A query time and a catalog time that share a hash.
#[derive(Debug, Clone, Copy, PartialEq, Eq, Structural)]
pub struct Pair {
    pub rec: u32,
    pub t_db: u32,
    pub t_q: u32,
    /// Rarity of the hash, or one where rarity is off.
    pub weight: u32,
    /// Place among all pairs, in query order.
    pub place: usize,
}

impl Ranked for Pair {
    open spec fn leq(a: Pair, b: Pair) -> bool {
        if a.rec != b.rec {
            a.rec < b.rec
        } else if a.t_db != b.t_db {
            a.t_db < b.t_db
        } else if a.place != b.place {
            a.place < b.place
        } else if a.t_q != b.t_q {
            a.t_q < b.t_q
        } else {
            a.weight <= b.weight
        }
    }

    proof fn total_order() {
    }

    fn is_leq(&self, other: &Pair) -> (r: bool) {
        if self.rec != other.rec {
            self.rec < other.rec
        } else if self.t_db != other.t_db {
            self.t_db < other.t_db
        } else if self.place != other.place {
            self.place < other.place
        } else if self.t_q != other.t_q {
            self.t_q < other.t_q
        } else {
            self.weight <= other.weight
        }
    }
}

/// Stretches of postings of one recording.
pub open spec fn runs(list: Seq<Posting>) -> nat
    decreases list.len(),
{
    if list.len() == 0 {
        0
    } else if list.len() == 1 || list.last().recording != list[list.len() - 2].recording {
        runs(list.drop_last()) + 1
    } else {
        runs(list.drop_last())
    }
}

/// `before` and the pairs of one query fingerprint with the given postings.
pub open spec fn with_postings(
    before: Seq<Pair>,
    q: TripletFp,
    list: Seq<Posting>,
    weight: u32,
) -> Seq<Pair>
    decreases list.len(),
{
    if list.len() == 0 {
        before
    } else {
        let rest = with_postings(before, q, list.drop_last(), weight);
        rest.push(
            Pair {
                rec: list.last().recording.0,
                t_db: list.last().anchor_time,
                t_q: q.t1,
                weight,
                place: rest.len() as usize,
            },
        )
    }
}

/// A hash that every recording of a larger catalog has says nothing.
pub open spec fn is_stop_hash(distinct: nat, recordings: nat) -> bool {
    recordings > 1 && distinct >= recordings
}

/// Weight of a pair: rarity where it is on, one otherwise.
pub open spec fn pair_weight(rarity: Option<&RarityTable>, distinct: nat) -> u32 {
    match rarity {
        Some(table) => table.weight_of(distinct),
        None => 1,
    }
}

/// The pairs of the first `n` query fingerprints.
pub open spec fn all_pairs(
    index: Map<u32, Seq<Posting>>,
    recordings: nat,
    query: Seq<TripletFp>,
    rarity: Option<&RarityTable>,
    n: int,
) -> Seq<Pair>
    decreases n,
{
    if n <= 0 {
        Seq::empty()
    } else {
        let before = all_pairs(index, recordings, query, rarity, n - 1);
        let q = query[n - 1];
        if !index.contains_key(q.hash) || is_stop_hash(runs(index[q.hash]), recordings) {
            before
        } else {
            with_postings(
                before,
                q,
                index[q.hash],
                pair_weight(rarity, runs(index[q.hash])),
            )
        }
    }
}

pub open spec fn of_recording(rec: u32) -> spec_fn(Pair) -> bool {
    |p: Pair| p.rec == rec
}

pub open spec fn weight_of_pair() -> spec_fn(Pair) -> nat {
    |p: Pair| p.weight as nat
}

/// Mass of a recording: the weight of all its pairs.
pub open spec fn pair_mass(pairs: Seq<Pair>, rec: u32) -> nat {
    sum_where(pairs, of_recording(rec), weight_of_pair())
}

/// A recording with its pairs.
#[derive(Debug)]
pub struct Candidate {
    pub rec: u32,
    pub mass: u128,
    /// By catalog time, equal ones in query order.
    pub pairs: Vec<Pair>,
}

/// The candidate holds exactly the pairs of its recording, once each, in
/// order.
pub open spec fn is_candidate(pairs: Seq<Pair>, c: Candidate) -> bool {
    &&& c.pairs.len() > 0
    &&& c.mass == pair_mass(pairs, c.rec)
    &&& ordered(c.pairs@)
    &&& c.pairs@.no_duplicates()
    &&& forall|p: Pair| #[trigger] c.pairs@.contains(p) <==> pairs.contains(p) && p.rec == c.rec
}

pub open spec fn has_candidate(out: Seq<Candidate>, rec: u32) -> bool {
    exists|i: int| 0 <= i < out.len() && (#[trigger] out[i]).rec == rec
}

/// The best `limit` recordings, heaviest first, equal ones by id.
pub open spec fn is_ranking(pairs: Seq<Pair>, limit: nat, out: Seq<Candidate>) -> bool {
    &&& out.len() <= limit
    &&& forall|i: int| 0 <= i < out.len() ==> is_candidate(pairs, #[trigger] out[i])
    &&& forall|i: int, j: int|
        #![trigger out[i], out[j]]
        0 <= i < j < out.len() ==> outranks(
            out[i].mass as nat,
            out[i].rec,
            out[j].mass as nat,
            out[j].rec,
        )
    &&& forall|k: int|
        0 <= k < pairs.len() ==> has_candidate(out, (#[trigger] pairs[k]).rec) || (out.len()
            == limit && forall|i: int|
            0 <= i < out.len() ==> outranks(
                (#[trigger] out[i]).mass as nat,
                out[i].rec,
                pair_mass(pairs, pairs[k].rec),
                pairs[k].rec,
            ))
}

/// A recording's stretch of the ordered pairs.
#[derive(Clone, Copy)]
struct Group {
    rec: u32,
    mass: u128,
    lo: usize,
    hi: usize,
}

impl Ranked for Group {
    closed spec fn leq(a: Group, b: Group) -> bool {
        if a.mass != b.mass {
            a.mass > b.mass
        } else if a.rec != b.rec {
            a.rec < b.rec
        } else if a.lo != b.lo {
            a.lo < b.lo
        } else {
            a.hi <= b.hi
        }
    }

    proof fn total_order() {
    }

    fn is_leq(&self, other: &Group) -> (r: bool) {
        if self.mass != other.mass {
            self.mass > other.mass
        } else if self.rec != other.rec {
            self.rec < other.rec
        } else if self.lo != other.lo {
            self.lo < other.lo
        } else {
            self.hi <= other.hi
        }
    }
}

/// The group is the whole stretch of its recording.
spec fn group_ok(s: Seq<Pair>, g: Group) -> bool {
    &&& g.lo < g.hi <= s.len()
    &&& forall|i: int| 0 <= i < s.len() ==> ((#[trigger] s[i]).rec == g.rec <==> g.lo <= i < g.hi)
    &&& g.mass == pair_mass(s, g.rec)
}

spec fn has_group(groups: Seq<Group>, rec: u32) -> bool {
    exists|i: int| 0 <= i < groups.len() && (#[trigger] groups[i]).rec == rec
}

proof fn lemma_mass_bound(s: Seq<Pair>, p: spec_fn(Pair) -> bool)
    ensures
        sum_where(s, p, weight_of_pair()) <= s.len() * 0xffff_ffff,
    decreases s.len(),
{
    if s.len() > 0 {
        lemma_mass_bound(s.drop_last(), p);
    }
}

/// The group that starts at `lo`.
fn next_group(s: &Vec<Pair>, lo: usize) -> (g: Group)
    requires
        ordered(s@),
        lo < s.len(),
        forall|i: int| 0 <= i < lo ==> (#[trigger] s[i]).rec < s[lo as int].rec,
    ensures
        group_ok(s@, g),
        g.lo == lo,
        g.rec == s[lo as int].rec,
        forall|i: int| g.hi <= i < s.len() ==> (#[trigger] s[i]).rec > g.rec,
{
    let rec: u32 = s[lo].rec;
    let mut hi: usize = lo;
    let mut mass: u128 = 0;
    let ghost p = of_recording(rec);
    let ghost w = weight_of_pair();
    while hi < s.len() && s[hi].rec == rec
        invariant
            lo <= hi <= s.len(),
            lo < s.len(),
            rec == s[lo as int].rec,
            p == of_recording(rec),
            w == weight_of_pair(),
            forall|i: int| lo <= i < hi ==> (#[trigger] s[i]).rec == rec,
            mass == sum_where(s@.subrange(lo as int, hi as int), p, w),
        decreases s.len() - hi,
    {
        proof {
            let part = s@.subrange(lo as int, hi as int);
            assert(s@.subrange(lo as int, hi + 1) =~= part.push(s[hi as int]));
            lemma_sum_push(part, s[hi as int], p, w);
            lemma_mass_bound(part, p);
            assert(part.len() * 0xffff_ffff <= 0xffff_ffff_ffff_ffff * 0xffff_ffff)
                by (nonlinear_arith)
                requires
                    part.len() <= 0xffff_ffff_ffff_ffff,
            ;
        }
        mass = mass + s[hi].weight as u128;
        hi = hi + 1;
    }
    proof {
        assert forall|i: int| 0 <= i < s.len() implies ((#[trigger] s[i]).rec == rec <==> lo <= i
            < hi) by {
            if i >= hi {
                assert(Pair::leq(s[lo as int], s[hi as int]));
                if i > hi {
                    assert(Pair::leq(s[hi as int], s[i]));
                }
            }
        }
        assert forall|i: int| hi <= i < s.len() implies (#[trigger] s[i]).rec > rec by {
            assert(Pair::leq(s[lo as int], s[i]));
        }
        lemma_sum_range(s@, lo as int, hi as int, p, w);
    }
    Group { rec, mass, lo, hi }
}

/// The groups of all recordings, by recording.
fn all_groups(s: &Vec<Pair>) -> (groups: Vec<Group>)
    requires
        ordered(s@),
    ensures
        forall|i: int| 0 <= i < groups.len() ==> group_ok(s@, #[trigger] groups[i]),
        forall|i: int, j: int|
            #![trigger groups[i], groups[j]]
            0 <= i < j < groups.len() ==> groups[i].rec < groups[j].rec,
        forall|k: int| 0 <= k < s.len() ==> has_group(groups@, (#[trigger] s[k]).rec),
{
    let mut groups: Vec<Group> = Vec::new();
    let mut at: usize = 0;
    while at < s.len()
        invariant
            at <= s.len(),
            ordered(s@),
            forall|i: int, j: int|
                #![trigger s[i], s[j]]
                0 <= i < at <= j < s.len() ==> s[i].rec < s[j].rec,
            forall|i: int| 0 <= i < groups.len() ==> group_ok(s@, #[trigger] groups[i]),
            forall|i: int| 0 <= i < groups.len() ==> (#[trigger] groups[i]).lo < at,
            forall|i: int, j: int|
                #![trigger groups[i], groups[j]]
                0 <= i < j < groups.len() ==> groups[i].rec < groups[j].rec,
            forall|k: int| 0 <= k < at ==> has_group(groups@, (#[trigger] s[k]).rec),
        decreases s.len() - at,
    {
        let g: Group = next_group(s, at);
        let ghost before = groups@;
        proof {
            assert forall|i: int| 0 <= i < before.len() implies (#[trigger] before[i]).rec < g.rec by {
                assert(group_ok(s@, before[i]));
                assert(s[before[i].lo as int].rec < s[at as int].rec);
            }
        }
        groups.push(g);
        proof {
            assert forall|k: int| 0 <= k < g.hi implies has_group(
                groups@,
                (#[trigger] s[k]).rec,
            ) by {
                if k < at {
                    assert(has_group(before, s[k].rec));
                    let i = choose|i: int|
                        0 <= i < before.len() && (#[trigger] before[i]).rec == s[k].rec;
                    assert(groups[i].rec == s[k].rec);
                } else {
                    assert(groups[groups.len() - 1].rec == s[k].rec);
                }
            }
            assert forall|i: int, j: int|
                #![trigger s[i], s[j]]
                0 <= i < g.hi <= j < s.len() implies s[i].rec < s[j].rec by {
                if i >= at {
                    assert(s[i].rec == g.rec);
                } else {
                    assert(s[i].rec < s[at as int].rec);
                }
            }
        }
        at = g.hi;
    }
    groups
}

/// Ranks the recordings of the pairs, and keeps the best.
pub fn rank_pairs(pairs: &Vec<Pair>, max_candidates: usize) -> (out: Vec<Candidate>)
    requires
        forall|i: int| 0 <= i < pairs.len() ==> (#[trigger] pairs[i]).place == i,
    ensures
        is_ranking(pairs@, max_candidates as nat, out@),
{
    let s: Vec<Pair> = sorted(pairs);
    let groups: Vec<Group> = all_groups(&s);
    let best: Vec<Group> = sorted(&groups);
    let n: usize = if best.len() <= max_candidates {
        best.len()
    } else {
        max_candidates
    };
    proof {
        lemma_permuted_contains(s@, pairs@);
        lemma_permuted_contains(best@, groups@);
        assert(pairs@.no_duplicates());
        pairs@.lemma_multiset_has_no_duplicates();
        s@.lemma_multiset_has_no_duplicates_conv();
    }
    let mut out: Vec<Candidate> = Vec::new();
    let mut i: usize = 0;
    while i < n
        invariant
            n <= best.len(),
            n <= max_candidates,
            i <= n,
            out.len() == i,
            ordered(s@),
            s@.no_duplicates(),
            permuted(s@, pairs@),
            permuted(best@, groups@),
            forall|k: int| 0 <= k < groups.len() ==> group_ok(s@, #[trigger] groups[k]),
            forall|x: Pair| s@.contains(x) <==> pairs@.contains(x),
            forall|x: Group| best@.contains(x) <==> groups@.contains(x),
            forall|k: int|
                0 <= k < i ==> is_candidate(pairs@, #[trigger] out[k]) && out[k].rec == best[k].rec
                    && out[k].mass == best[k].mass,
        decreases n - i,
    {
        let g: Group = best[i];
        assert(best@.contains(g));
        let ghost at = groups@.index_of(g);
        assert(group_ok(s@, groups[at]));
        let list: Vec<Pair> = copy_range(&s, g.lo, g.hi);
        let c = Candidate { rec: g.rec, mass: g.mass, pairs: list };
        proof {
            lemma_sum_permuted(s@, pairs@, of_recording(g.rec), weight_of_pair());
            lemma_stretch(s@, g.lo as int, g.hi as int, g.rec);
            assert(is_candidate(pairs@, c));
        }
        let ghost before = out@;
        out.push(c);
        assert forall|k: int| 0 <= k < i + 1 implies is_candidate(pairs@, #[trigger] out[k])
            && out[k].rec == best[k].rec && out[k].mass == best[k].mass by {
            if k < i {
                assert(out[k] == before[k]);
            }
        }
        i = i + 1;
    }
    proof {
        lemma_groups_distinct(groups@, best@);
        assert forall|a: int, b: int|
            #![trigger out[a], out[b]]
            0 <= a < b < out.len() implies outranks(
            out[a].mass as nat,
            out[a].rec,
            out[b].mass as nat,
            out[b].rec,
        ) by {
            assert(Group::leq(best[a], best[b]));
            assert(best[a].rec != best[b].rec);
        }
        assert forall|k: int| 0 <= k < pairs.len() implies has_candidate(
            out@,
            (#[trigger] pairs[k]).rec,
        ) || (out.len() == max_candidates && forall|i: int|
            0 <= i < out.len() ==> outranks(
                (#[trigger] out[i]).mass as nat,
                out[i].rec,
                pair_mass(pairs@, pairs[k].rec),
                pairs[k].rec,
            )) by {
            let rec = pairs[k].rec;
            assert(pairs@.contains(pairs[k]));
            let at = s@.index_of(pairs[k]);
            assert(has_group(groups@, s[at].rec));
            let j = choose|j: int| 0 <= j < groups.len() && (#[trigger] groups[j]).rec == rec;
            assert(groups@.contains(groups[j]));
            let b = best@.index_of(groups[j]);
            if b < n {
                assert(out[b].rec == rec);
            } else {
                assert(group_ok(s@, groups[j]));
                lemma_sum_permuted(s@, pairs@, of_recording(rec), weight_of_pair());
                assert forall|i: int| 0 <= i < out.len() implies outranks(
                    (#[trigger] out[i]).mass as nat,
                    out[i].rec,
                    pair_mass(pairs@, rec),
                    rec,
                ) by {
                    assert(Group::leq(best[i], best[b]));
                    assert(best[i].rec != best[b].rec);
                }
            }
        }
    }
    out
}

fn copy_range(s: &Vec<Pair>, lo: usize, hi: usize) -> (out: Vec<Pair>)
    requires
        lo <= hi <= s.len(),
    ensures
        out@ == s@.subrange(lo as int, hi as int),
{
    let mut out: Vec<Pair> = Vec::new();
    let mut i: usize = lo;
    while i < hi
        invariant
            lo <= i <= hi <= s.len(),
            out@ == s@.subrange(lo as int, i as int),
        decreases hi - i,
    {
        out.push(s[i]);
        i = i + 1;
        assert(out@ =~= s@.subrange(lo as int, i as int));
    }
    out
}

/// A recording's stretch holds its pairs, once each, in order.
proof fn lemma_stretch(s: Seq<Pair>, lo: int, hi: int, rec: u32)
    requires
        ordered(s),
        s.no_duplicates(),
        0 <= lo <= hi <= s.len(),
        forall|i: int| 0 <= i < s.len() ==> ((#[trigger] s[i]).rec == rec <==> lo <= i < hi),
    ensures
        ordered(s.subrange(lo, hi)),
        s.subrange(lo, hi).no_duplicates(),
        forall|p: Pair| #[trigger]
            s.subrange(lo, hi).contains(p) <==> s.contains(p) && p.rec == rec,
{
    let t = s.subrange(lo, hi);
    assert forall|i: int, j: int| 0 <= i < j < t.len() implies #[trigger] Pair::leq(t[i], t[j]) by {
        assert(Pair::leq(s[lo + i], s[lo + j]));
    }
    assert forall|p: Pair| #[trigger] t.contains(p) <==> s.contains(p) && p.rec == rec by {
        if t.contains(p) {
            let i = t.index_of(p);
            assert(s[lo + i] == p);
        }
        if s.contains(p) && p.rec == rec {
            let i = s.index_of(p);
            assert(t[i - lo] == p);
        }
    }
}

/// Sorting keeps the groups of different recordings apart.
proof fn lemma_groups_distinct(groups: Seq<Group>, best: Seq<Group>)
    requires
        permuted(best, groups),
        forall|i: int, j: int|
            #![trigger groups[i], groups[j]]
            0 <= i < j < groups.len() ==> groups[i].rec < groups[j].rec,
    ensures
        forall|a: int, b: int|
            #![trigger best[a], best[b]]
            0 <= a < b < best.len() ==> best[a].rec != best[b].rec,
{
    assert(groups.no_duplicates()) by {
        assert forall|i: int, j: int|
            0 <= i < groups.len() && 0 <= j < groups.len() && i != j implies groups[i]
            != groups[j] by {
            if i < j {
                assert(groups[i].rec < groups[j].rec);
            } else {
                assert(groups[j].rec < groups[i].rec);
            }
        }
    }
    groups.lemma_multiset_has_no_duplicates();
    best.lemma_multiset_has_no_duplicates_conv();
    lemma_permuted_contains(best, groups);
    assert forall|a: int, b: int|
        #![trigger best[a], best[b]]
        0 <= a < b < best.len() implies best[a].rec != best[b].rec by {
        assert(best.contains(best[a]) && best.contains(best[b]));
        let i = groups.index_of(best[a]);
        let j = groups.index_of(best[b]);
        if i < j {
            assert(groups[i].rec < groups[j].rec);
        } else if j < i {
            assert(groups[j].rec < groups[i].rec);
        }
    }
}

/// Counts the stretches of postings of one recording.
fn count_runs(list: &[Posting]) -> (n: u64)
    ensures
        n == runs(list@),
{
    let mut n: u64 = 0;
    let mut i: usize = 0;
    assert(list@.take(0) =~= Seq::<Posting>::empty());
    while i < list.len()
        invariant
            i <= list.len(),
            n <= i,
            n == runs(list@.take(i as int)),
        decreases list.len() - i,
    {
        let ghost part = list@.take(i + 1);
        assert(part.drop_last() =~= list@.take(i as int));
        if i == 0 || list[i].recording.0 != list[i - 1].recording.0 {
            n = n + 1;
        }
        i = i + 1;
    }
    assert(list@.take(i as int) =~= list@);
    n
}

/// Every pair knows its place.
spec fn places_ok(pairs: Seq<Pair>) -> bool {
    forall|i: int| 0 <= i < pairs.len() ==> (#[trigger] pairs[i]).place == i
}

/// Appends the pairs of one query fingerprint.
fn push_pairs(q: TripletFp, list: &[Posting], weight: u32, pairs: &mut Vec<Pair>)
    requires
        places_ok(old(pairs)@),
    ensures
        places_ok(final(pairs)@),
        final(pairs)@ == with_postings(old(pairs)@, q, list@, weight),
{
    let ghost start = pairs@;
    let mut i: usize = 0;
    assert(list@.take(0) =~= Seq::<Posting>::empty());
    while i < list.len()
        invariant
            i <= list.len(),
            places_ok(pairs@),
            pairs@ == with_postings(start, q, list@.take(i as int), weight),
        decreases list.len() - i,
    {
        assert(list@.take(i + 1).drop_last() =~= list@.take(i as int));
        let place: usize = pairs.len();
        pairs.push(
            Pair {
                rec: list[i].recording.0,
                t_db: list[i].anchor_time,
                t_q: q.t1,
                weight,
                place,
            },
        );
        i = i + 1;
    }
    assert(list@.take(i as int) =~= list@);
}

/// The candidates of a query against an index of triplet hashes.
///
/// Hashes that every recording has are passed over. With a rarity table each
/// pair weighs as much as its hash is rare, so that common timbre triplets
/// cannot pile up mass; without one every pair counts one.
pub fn affine_candidates(
    index: &InMemoryIndex,
    query: &[TripletFp],
    max_candidates: usize,
    rarity: Option<&RarityTable>,
) -> (out: Vec<Candidate>)
    requires
        index.wf(),
    ensures
        is_ranking(
            all_pairs(
                index@,
                index.recording_count(),
                query@,
                rarity,
                query.len() as int,
            ),
            max_candidates as nat,
            out@,
        ),
{
    let n_recs: u64 = index.n_recordings();
    let mut pairs: Vec<Pair> = Vec::new();
    let mut i: usize = 0;
    while i < query.len()
        invariant
            index.wf(),
            n_recs == index.recording_count(),
            i <= query.len(),
            places_ok(pairs@),
            pairs@ == all_pairs(index@, n_recs as nat, query@, rarity, i as int),
        decreases query.len() - i,
    {
        let q: TripletFp = query[i];
        if let Some(list) = index.postings_for(q.hash) {
            let distinct: u64 = count_runs(list);
            if !(n_recs > 1 && distinct >= n_recs) {
                let weight: u32 = match rarity {
                    Some(table) => table.weight(distinct),
                    None => 1,
                };
                push_pairs(q, list, weight, &mut pairs);
            }
        }
        i = i + 1;
    }
    rank_pairs(&pairs, max_candidates)
}

// ---- line fit ----

/// Fewest points that a line is fitted through.
pub const MIN_POINTS: usize = 4;

/// Passes of a fit.
pub const FIT_PASSES: u8 = 3;

/// Residuals are given as the bits of a double that is not negative, which
/// order as the values do. A point counts as long as its residual is at most
/// 24 frames, about a second: that covers the jitter of stretched audio.
pub const RESIDUAL_TOLERANCE: u64 = 0x4038_0000_0000_0000;

/// A point's residual.
#[derive(Debug, Clone, Copy, PartialEq, Eq, Structural)]
pub struct Residual {
    pub bits: u64,
    pub point: usize,
}

impl Ranked for Residual {
    open spec fn leq(a: Residual, b: Residual) -> bool {
        if a.bits != b.bits {
            a.bits < b.bits
        } else {
            a.point <= b.point
        }
    }

    proof fn total_order() {
    }

    fn is_leq(&self, other: &Residual) -> (r: bool) {
        if self.bits != other.bits {
            self.bits < other.bits
        } else {
            self.point <= other.point
        }
    }
}

/// How many of `n` points a pass keeps: four fifths, rounded up, and four if
/// there are four.
pub open spec fn keep_count(n: int) -> int {
    let share = (4 * n + 4) / 5;
    let least = if n < 4 {
        n
    } else {
        4
    };
    if share >= least {
        share
    } else {
        least
    }
}

pub open spec fn numbered(bits: Seq<u64>) -> Seq<Residual> {
    Seq::new(bits.len(), |i: int| Residual { bits: bits[i], point: i as usize })
}

/// The residuals, smallest first, equal ones in the order of their points.
pub open spec fn by_residual(bits: Seq<u64>) -> Seq<Residual> {
    numbered(bits).sort_by(|a: Residual, b: Residual| Residual::leq(a, b))
}

/// The points that a pass leaves: the best share, as far as they are within
/// tolerance, best first.
pub open spec fn kept_points(bits: Seq<u64>) -> Seq<usize> {
    by_residual(bits).take(keep_count(bits.len() as int)).filter(
        |r: Residual| r.bits <= RESIDUAL_TOLERANCE,
    ).map_values(|r: Residual| r.point)
}

/// The points that a pass leaves, or `None` where they are too few to go on.
pub fn trim_points(bits: &Vec<u64>) -> (kept: Option<Vec<usize>>)
    ensures
        kept is Some <==> kept_points(bits@).len() >= MIN_POINTS,
        kept matches Some(points) ==> points@ == kept_points(bits@),
{
    let n: usize = bits.len();
    let mut list: Vec<Residual> = Vec::new();
    let mut i: usize = 0;
    while i < n
        invariant
            n == bits.len(),
            i <= n,
            list.len() == i,
            forall|k: int|
                0 <= k < i ==> #[trigger] list[k] == (Residual {
                    bits: bits[k],
                    point: k as usize,
                }),
        decreases n - i,
    {
        list.push(Residual { bits: bits[i], point: i });
        i = i + 1;
    }
    assert(list@ =~= numbered(bits@));
    let ranked: Vec<Residual> = sorted(&list);
    proof {
        let leq = |a: Residual, b: Residual| Residual::leq(a, b);
        Residual::total_order();
        list@.lemma_sort_by_ensures(leq);
        assert(vstd::relations::sorted_by(ranked@, leq)) by {
            assert forall|i: int, j: int| 0 <= i < j < ranked.len() implies #[trigger] leq(
                ranked[i],
                ranked[j],
            ) by {
                assert(Residual::leq(ranked[i], ranked[j]));
            }
        }
        vstd::seq_lib::lemma_sorted_unique(ranked@, list@.sort_by(leq), leq);
        assert(ranked@ == by_residual(bits@));
        lemma_permuted_contains(ranked@, list@);
    }
    // ceil(4 n / 5) is n less a fifth of it, rounded down.
    let share: usize = n - n / 5;
    let least: usize = if n < MIN_POINTS {
        n
    } else {
        MIN_POINTS
    };
    let keep: usize = if share >= least {
        share
    } else {
        least
    };
    let mut points: Vec<usize> = Vec::new();
    let mut k: usize = 0;
    let ghost test = |r: Residual| r.bits <= RESIDUAL_TOLERANCE;
    let ghost pick = |r: Residual| r.point;
    let ghost top = ranked@.take(keep as int);
    proof {
        reveal(Seq::filter);
        assert(points@ =~= top.take(0).filter(test).map_values(pick));
    }
    while k < keep
        invariant
            k <= keep <= ranked.len(),
            top == ranked@.take(keep as int),
            test == (|r: Residual| r.bits <= RESIDUAL_TOLERANCE),
            pick == (|r: Residual| r.point),
            points@ == top.take(k as int).filter(test).map_values(pick),
        decreases keep - k,
    {
        proof {
            reveal(Seq::filter);
            assert(top.take(k + 1).drop_last() =~= top.take(k as int));
            assert(top.take(k + 1).last() == ranked[k as int]);
        }
        let r: Residual = ranked[k];
        if r.bits <= RESIDUAL_TOLERANCE {
            points.push(r.point);
        }
        k = k + 1;
        assert(points@ =~= top.take(k as int).filter(test).map_values(pick));
    }
    assert(top.take(k as int) =~= top);
    assert(points@ =~= kept_points(bits@));
    if points.len() < MIN_POINTS {
        None
    } else {
        Some(points)
    }
}

// ---- laws ----

/// Postings `i` at which another recording begins.
pub open spec fn starts_of(list: Seq<Posting>) -> Set<int> {
    Set::new(
        |i: int|
            0 <= i < list.len() && (i == 0 || list[i].recording.0 != list[i - 1].recording.0),
    )
}

/// A hash counts as many recordings as its list has stretches of one
/// recording, and says nothing exactly where every recording of two or more
/// has it.
pub proof fn law_stretches_count_recordings(list: Seq<Posting>, recordings: nat)
    ensures
        starts_of(list).finite(),
        runs(list) == starts_of(list).len(),
        is_stop_hash(runs(list), recordings) <==> recordings >= 2 && starts_of(list).len()
            >= recordings,
    decreases list.len(),
{
    if list.len() == 0 {
        assert(starts_of(list) =~= Set::<int>::empty());
    } else {
        let r = list.drop_last();
        let n = list.len() - 1;
        law_stretches_count_recordings(r, recordings);
        if n == 0 || list[n].recording.0 != list[n - 1].recording.0 {
            assert(starts_of(list) =~= starts_of(r).insert(n));
            assert(!starts_of(r).contains(n));
        } else {
            assert(list.last().recording == list[n - 1].recording);
            assert(starts_of(list) =~= starts_of(r));
        }
    }
}

/// Query fingerprint `k` and posting `m` of its hash meet: the hash says
/// something.
pub open spec fn pair_meets(
    index: Map<u32, Seq<Posting>>,
    recordings: nat,
    query: Seq<TripletFp>,
    k: int,
    m: int,
) -> bool {
    &&& 0 <= k < query.len()
    &&& index.contains_key(query[k].hash)
    &&& 0 <= m < index[query[k].hash].len()
    &&& !(recordings >= 2 && starts_of(index[query[k].hash]).len() >= recordings)
}

/// The pair of query fingerprint `k` and posting `m` of its hash.
pub open spec fn pairs_up(
    index: Map<u32, Seq<Posting>>,
    query: Seq<TripletFp>,
    rarity: Option<&RarityTable>,
    k: int,
    m: int,
    p: Pair,
) -> bool {
    let list = index[query[k].hash];
    &&& p.rec == list[m].recording.0
    &&& p.t_db == list[m].anchor_time
    &&& p.t_q == query[k].t1
    &&& rarity is None ==> p.weight == 1
    &&& rarity is Some ==> p.weight == rarity->0.weight_of(starts_of(list).len())
}

/// Some pair is that of query fingerprint `k` and posting `m`.
pub open spec fn is_paired(
    index: Map<u32, Seq<Posting>>,
    query: Seq<TripletFp>,
    rarity: Option<&RarityTable>,
    pairs: Seq<Pair>,
    k: int,
    m: int,
) -> bool {
    exists|i: int|
        0 <= i < pairs.len() && pairs_up(index, query, rarity, k, m, #[trigger] pairs[i])
}

/// Pair `i` stems from a query fingerprint below `n`.
pub open spec fn stems_from_query(
    index: Map<u32, Seq<Posting>>,
    recordings: nat,
    query: Seq<TripletFp>,
    rarity: Option<&RarityTable>,
    p: Pair,
    n: int,
) -> bool {
    exists|k: int, m: int|
        k < n && #[trigger] pair_meets(index, recordings, query, k, m) && pairs_up(
            index,
            query,
            rarity,
            k,
            m,
            p,
        )
}

/// Every query fingerprint is paired with every posting of its hash, with the
/// times of both, unless the hash says nothing; and there are no other pairs.
/// A pair weighs as much as its hash is rare, or one without rarity.
pub proof fn law_every_shared_hash_makes_a_pair(
    index: Map<u32, Seq<Posting>>,
    recordings: nat,
    query: Seq<TripletFp>,
    rarity: Option<&RarityTable>,
    n: int,
)
    requires
        0 <= n <= query.len(),
    ensures
        forall|k: int, m: int|
            k < n && #[trigger] pair_meets(index, recordings, query, k, m) ==> is_paired(
                index,
                query,
                rarity,
                all_pairs(index, recordings, query, rarity, n),
                k,
                m,
            ),
        forall|i: int|
            0 <= i < all_pairs(index, recordings, query, rarity, n).len() ==> stems_from_query(
                index,
                recordings,
                query,
                rarity,
                #[trigger] all_pairs(index, recordings, query, rarity, n)[i],
                n,
            ),
    decreases n,
{
    let all = all_pairs(index, recordings, query, rarity, n);
    if n > 0 {
        law_every_shared_hash_makes_a_pair(index, recordings, query, rarity, n - 1);
        let before = all_pairs(index, recordings, query, rarity, n - 1);
        let q = query[n - 1];
        let list = index[q.hash];
        law_stretches_count_recordings(list, recordings);
        let silent = !index.contains_key(q.hash) || is_stop_hash(runs(list), recordings);
        let w = pair_weight(rarity, runs(list));
        if !silent {
            lemma_with_postings(before, q, list, w);
        }
        assert forall|k: int, m: int|
            k < n && #[trigger] pair_meets(index, recordings, query, k, m) implies is_paired(
            index,
            query,
            rarity,
            all,
            k,
            m,
        ) by {
            if k < n - 1 {
                assert(is_paired(index, query, rarity, before, k, m));
                let i = choose|i: int|
                    0 <= i < before.len() && pairs_up(
                        index,
                        query,
                        rarity,
                        k,
                        m,
                        #[trigger] before[i],
                    );
                assert(all[i] == before[i]);
            } else {
                assert(pairs_up(index, query, rarity, k, m, all[before.len() + m]));
            }
        }
        assert forall|i: int| 0 <= i < all.len() implies stems_from_query(
            index,
            recordings,
            query,
            rarity,
            #[trigger] all[i],
            n,
        ) by {
            if i < before.len() {
                assert(all[i] == before[i]);
                assert(stems_from_query(index, recordings, query, rarity, before[i], n - 1));
                let (k, m) = choose|k: int, m: int|
                    k < n - 1 && #[trigger] pair_meets(index, recordings, query, k, m) && pairs_up(
                        index,
                        query,
                        rarity,
                        k,
                        m,
                        before[i],
                    );
                assert(pair_meets(index, recordings, query, k, m));
            } else {
                let m = i - before.len();
                assert(pair_meets(index, recordings, query, n - 1, m));
                assert(all[i] == all[before.len() + m]);
                assert(pairs_up(index, query, rarity, n - 1, m, all[i]));
            }
        }
    }
}

proof fn lemma_with_postings(before: Seq<Pair>, q: TripletFp, list: Seq<Posting>, weight: u32)
    ensures
        ({
            let all = with_postings(before, q, list, weight);
            &&& all.len() == before.len() + list.len()
            &&& forall|i: int| 0 <= i < before.len() ==> #[trigger] all[i] == before[i]
            &&& forall|m: int|
                0 <= m < list.len() ==> {
                    let p = #[trigger] all[before.len() + m];
                    &&& p.rec == list[m].recording.0
                    &&& p.t_db == list[m].anchor_time
                    &&& p.t_q == q.t1
                    &&& p.weight == weight
                }
        }),
    decreases list.len(),
{
    if list.len() > 0 {
        let r = list.drop_last();
        lemma_with_postings(before, q, r, weight);
        let rest = with_postings(before, q, r, weight);
        let all = with_postings(before, q, list, weight);
        assert forall|m: int| 0 <= m < list.len() implies {
            let p = #[trigger] all[before.len() + m];
            &&& p.rec == list[m].recording.0
            &&& p.t_db == list[m].anchor_time
            &&& p.t_q == q.t1
            &&& p.weight == weight
        } by {
            if m < r.len() {
                assert(all[before.len() + m] == rest[before.len() + m]);
                assert(r[m] == list[m]);
            }
        }
    }
}

/// The mass of a recording is the weight of its pairs.
pub proof fn law_masses_add_up(pairs: Seq<Pair>, p: Pair, rec: u32)
    ensures
        pair_mass(Seq::<Pair>::empty(), rec) == 0,
        p.rec == rec ==> pair_mass(pairs.push(p), rec) == pair_mass(pairs, rec) + p.weight,
        p.rec != rec ==> pair_mass(pairs.push(p), rec) == pair_mass(pairs, rec),
{
    law_sums_add_up(pairs, p, of_recording(rec), weight_of_pair());
}

/// A ranking lists the heaviest recordings, the lower number first where two
/// weigh the same, each with all of its pairs and its mass; one that has a
/// pair is missing only where the ranking is full of heavier ones.
pub proof fn law_heaviest_recordings_rank_first(
    pairs: Seq<Pair>,
    limit: nat,
    out: Seq<Candidate>,
    i: int,
    j: int,
    k: int,
    p: Pair,
)
    requires
        is_ranking(pairs, limit, out),
        0 <= i < out.len(),
        0 <= k < pairs.len(),
    ensures
        out.len() <= limit,
        out[i].mass == pair_mass(pairs, out[i].rec),
        out[i].pairs@.contains(p) <==> pairs.contains(p) && p.rec == out[i].rec,
        i < j < out.len() ==> out[i].mass > out[j].mass || (out[i].mass == out[j].mass && out[i].rec
            < out[j].rec),
        (exists|x: int| 0 <= x < out.len() && (#[trigger] out[x]).rec == pairs[k].rec) || (
        out.len() == limit && (out[i].mass > pair_mass(pairs, pairs[k].rec) || (out[i].mass
            == pair_mass(pairs, pairs[k].rec) && out[i].rec < pairs[k].rec))),
{
    assert(is_candidate(pairs, out[i]));
    if i < j < out.len() {
        assert(outranks(out[i].mass as nat, out[i].rec, out[j].mass as nat, out[j].rec));
    }
    assert(pairs[k].rec == pairs[k].rec);
}

/// A pass keeps four fifths of the points, rounded up, but not fewer than
/// four where there are four.
pub proof fn law_passes_keep_four_fifths(n: int)
    requires
        0 <= n,
    ensures
        n >= 4 ==> keep_count(n) >= 4 && 5 * keep_count(n) >= 4 * n,
        n > 5 ==> 5 * keep_count(n) < 4 * n + 5,
        n <= 4 ==> keep_count(n) == n,
        n == 5 ==> keep_count(n) == 4,
        MIN_POINTS == 4,
        RESIDUAL_TOLERANCE == 0x4038_0000_0000_0000,
{
}

/// How many points fit better than point `k`: a smaller residual, or the same
/// and an earlier place.
pub open spec fn better_points(bits: Seq<u64>, k: int) -> nat {
    numbered(bits).filter(
        |r: Residual| r.bits < bits[k] || (r.bits == bits[k] && r.point < k),
    ).len()
}

/// A point stays exactly if its residual is within 24 frames and fewer points
/// fit better than are kept. What stays is ordered by residual.
pub proof fn law_worst_points_are_dropped(bits: Seq<u64>, k: int)
    requires
        0 <= k < bits.len() <= usize::MAX,
    ensures
        kept_points(bits).contains(k as usize) <==> bits[k] <= 0x4038_0000_0000_0000
            && better_points(bits, k) < keep_count(bits.len() as int),
{
    let leq = |a: Residual, b: Residual| Residual::leq(a, b);
    let list = numbered(bits);
    Residual::total_order();
    list.lemma_sort_by_ensures(leq);
    let s = by_residual(bits);
    assert(permuted(s, list));
    lemma_permuted_contains(s, list);
    let me = Residual { bits: bits[k], point: k as usize };
    assert(list[k] == me);
    assert(list.contains(me));
    let at = s.index_of(me);
    let before = |r: Residual| r.bits < bits[k] || (r.bits == bits[k] && r.point < k);
    lemma_numbered_once(bits);
    list.lemma_multiset_has_no_duplicates();
    s.lemma_multiset_has_no_duplicates_conv();
    assert forall|i: int| at <= i < s.len() implies !before(#[trigger] s[i]) by {
        if at < i {
            assert(leq(s[at], s[i]));
        }
    }
    assert forall|i: int| 0 <= i < at implies before(#[trigger] s[i]) by {
        assert(leq(s[i], s[at]));
        assert(s[i] != s[at]);
        assert(s.contains(s[i]));
        let j = list.index_of(s[i]);
        assert(list[j] == s[i]);
    }
    lemma_count_before(s, before, at);
    lemma_sum_permuted(s, list, before, |r: Residual| 1nat);
    law_counting_is_filtering(list, before);
    assert(at == better_points(bits, k));
    let n = keep_count(bits.len() as int);
    let top = s.take(n);
    let ok = |r: Residual| r.bits <= RESIDUAL_TOLERANCE;
    let kept = top.filter(ok);
    let out = kept_points(bits);
    assert(out =~= kept.map_values(|r: Residual| r.point));
    if at < n && ok(me) {
        assert(top[at] == me);
        top.lemma_filter_contains(ok, at);
        let i = kept.index_of(me);
        assert(out[i] == k as usize);
    }
    if out.contains(k as usize) {
        let i = out.index_of(k as usize);
        let r = kept[i];
        assert(kept.contains(r));
        lemma_filter_from(top, ok, r);
        let x = top.index_of(r);
        assert(s[x] == r);
        assert(s.contains(r));
        let j = list.index_of(r);
        assert(list[j] == r);
        assert(r == me);
        assert(x == at);
    }
}

proof fn lemma_filter_from(s: Seq<Residual>, ok: spec_fn(Residual) -> bool, r: Residual)
    requires
        s.filter(ok).contains(r),
    ensures
        s.contains(r),
        ok(r),
    decreases s.len(),
{
    reveal(Seq::filter);
    if s.len() > 0 {
        let t = s.drop_last();
        let i = s.filter(ok).index_of(r);
        if i < t.filter(ok).len() {
            assert(t.filter(ok)[i] == r);
            lemma_filter_from(t, ok, r);
            assert(s[t.index_of(r)] == r);
        } else {
            assert(s[s.len() - 1] == r);
        }
    }
}

proof fn lemma_numbered_once(bits: Seq<u64>)
    requires
        bits.len() <= usize::MAX,
    ensures
        numbered(bits).no_duplicates(),
{
    let list = numbered(bits);
    assert forall|i: int, j: int|
        0 <= i < list.len() && 0 <= j < list.len() && i != j implies list[i] != list[j] by {
        assert(list[i].point == i && list[j].point == j);
    }
}

} // verus!
