//! Posting lists: which recordings carry a hash, and when.
//!
//! A [`PostingMap`] collects postings per hash in any order; tidying it sorts
//! every list, drops repetitions and counts the distinct recordings.
use vstd::prelude::*;

use crate::ids::RecordingId;
use crate::sort::{lemma_permuted_contains, ordered, permuted, sorted, sum_where, Ranked};
use std::collections::HashMap;

verus! {

/// Posting entry stored per hash.
#[derive(Debug, Clone, Copy, PartialEq, Eq, Structural)]
pub struct Posting {
    pub recording: RecordingId,
    pub anchor_time: u32,
}

/// Order of postings: by recording, then by anchor time.
pub open spec fn posting_leq(a: Posting, b: Posting) -> bool {
    a.recording.0 < b.recording.0 || (a.recording.0 == b.recording.0 && a.anchor_time
        <= b.anchor_time)
}

impl Ranked for Posting {
    open spec fn leq(a: Posting, b: Posting) -> bool {
        posting_leq(a, b)
    }

    proof fn total_order() {
    }

    fn is_leq(&self, other: &Posting) -> (r: bool) {
        self.recording.0 < other.recording.0 || (self.recording.0 == other.recording.0
            && self.anchor_time <= other.anchor_time)
    }
}

/// Strictly increasing: sorted and without repetition.
pub open spec fn strictly_ordered(s: Seq<Posting>) -> bool {
    forall|i: int, j: int|
        0 <= i < j < s.len() ==> #[trigger] posting_leq(s[i], s[j]) && s[i] != s[j]
}

/// `new` holds the elements of `old`, sorted, each once.
pub open spec fn is_tidy(new: Seq<Posting>, old: Seq<Posting>) -> bool {
    &&& strictly_ordered(new)
    &&& forall|p: Posting| new.contains(p) <==> old.contains(p)
}

/// The recordings that occur in a list.
pub open spec fn recordings_in(list: Seq<Posting>) -> Set<u32> {
    list.map_values(|p: Posting| p.recording.0).to_set()
}

/// Document frequency of a list: its distinct recordings.
pub open spec fn document_frequency(list: Seq<Posting>) -> nat {
    recordings_in(list).len()
}

/// The posting list of one hash.
struct HashPostings {
    hash: u32,
    postings: Vec<Posting>,
    /// Document frequency, set when the list is tidied.
    df: u64,
}

/// Posting lists by hash.
pub struct PostingMap {
    slots: HashMap<u32, usize>,
    lists: Vec<HashPostings>,
}

impl View for PostingMap {
    type V = Map<u32, Seq<Posting>>;

    /// The posting list of every hash that was seen.
    closed spec fn view(&self) -> Map<u32, Seq<Posting>> {
        Map::new(
            |h: u32| self.slots@.contains_key(h),
            |h: u32| self.lists[self.slots@[h] as int].postings@,
        )
    }
}

/// `m` with one more posting at the end of the list of `hash`.
pub open spec fn with_posting(m: Map<u32, Seq<Posting>>, hash: u32, p: Posting) -> Map<
    u32,
    Seq<Posting>,
> {
    m.insert(
        hash,
        if m.contains_key(hash) {
            m[hash].push(p)
        } else {
            seq![p]
        },
    )
}

/// `m` with the fingerprints `(hash, anchor)` of one recording, in order.
pub open spec fn with_recording(
    m: Map<u32, Seq<Posting>>,
    recording: RecordingId,
    fps: Seq<(u32, u32)>,
) -> Map<u32, Seq<Posting>>
    decreases fps.len(),
{
    if fps.len() == 0 {
        m
    } else {
        with_posting(
            with_recording(m, recording, fps.drop_last()),
            fps.last().0,
            Posting { recording, anchor_time: fps.last().1 },
        )
    }
}

/// The postings of one recording under one hash, in the order of its
/// fingerprints `(hash, anchor)`.
pub open spec fn recording_postings(
    recording: RecordingId,
    fps: Seq<(u32, u32)>,
    hash: u32,
) -> Seq<Posting>
    decreases fps.len(),
{
    if fps.len() == 0 {
        Seq::empty()
    } else {
        let rest = recording_postings(recording, fps.drop_last(), hash);
        if fps.last().0 == hash {
            rest.push(Posting { recording, anchor_time: fps.last().1 })
        } else {
            rest
        }
    }
}

/// `m` with several recordings, one after the other.
pub open spec fn with_recordings(
    m: Map<u32, Seq<Posting>>,
    calls: Seq<(RecordingId, Seq<(u32, u32)>)>,
) -> Map<u32, Seq<Posting>>
    decreases calls.len(),
{
    if calls.len() == 0 {
        m
    } else {
        with_recording(with_recordings(m, calls.drop_last()), calls.last().0, calls.last().1)
    }
}

/// The list of a hash, empty where the map has none.
pub open spec fn list_of(m: Map<u32, Seq<Posting>>, hash: u32) -> Seq<Posting> {
    if m.contains_key(hash) {
        m[hash]
    } else {
        Seq::empty()
    }
}

/// Adding a recording appends its postings to the list of each hash, and only
/// a list that is not empty has an entry.
pub proof fn lemma_with_recording(
    m: Map<u32, Seq<Posting>>,
    recording: RecordingId,
    fps: Seq<(u32, u32)>,
    hash: u32,
)
    ensures
        list_of(with_recording(m, recording, fps), hash) == list_of(m, hash) + recording_postings(
            recording,
            fps,
            hash,
        ),
        with_recording(m, recording, fps).contains_key(hash) <==> m.contains_key(hash)
            || recording_postings(recording, fps, hash).len() > 0,
    decreases fps.len(),
{
    if fps.len() > 0 {
        lemma_with_recording(m, recording, fps.drop_last(), hash);
        let before = with_recording(m, recording, fps.drop_last());
        let p = Posting { recording, anchor_time: fps.last().1 };
        if fps.last().0 == hash {
            assert(list_of(with_posting(before, hash, p), hash) =~= list_of(before, hash).push(p));
        }
        assert(list_of(with_recording(m, recording, fps), hash) =~= list_of(m, hash)
            + recording_postings(recording, fps, hash));
    } else {
        assert(list_of(m, hash) + Seq::<Posting>::empty() =~= list_of(m, hash));
    }
}

/// Some call brings the posting under the hash.
pub open spec fn brought(
    calls: Seq<(RecordingId, Seq<(u32, u32)>)>,
    hash: u32,
    p: Posting,
) -> bool {
    exists|c: (RecordingId, Seq<(u32, u32)>)| #[trigger]
        calls.contains(c) && c.0 == p.recording && c.1.contains((hash, p.anchor_time))
}

/// What one recording brings.
pub proof fn lemma_recording_postings(
    recording: RecordingId,
    fps: Seq<(u32, u32)>,
    hash: u32,
    p: Posting,
)
    ensures
        recording_postings(recording, fps, hash).contains(p) <==> recording == p.recording
            && fps.contains((hash, p.anchor_time)),
    decreases fps.len(),
{
    if fps.len() > 0 {
        let rest = fps.drop_last();
        lemma_recording_postings(recording, rest, hash, p);
        assert(fps =~= rest.push(fps.last()));
        lemma_push_contains(rest, fps.last(), (hash, p.anchor_time));
        lemma_push_contains(
            recording_postings(recording, rest, hash),
            Posting { recording, anchor_time: fps.last().1 },
            p,
        );
    }
}

/// What several recordings bring.
proof fn lemma_with_recordings(
    calls: Seq<(RecordingId, Seq<(u32, u32)>)>,
    hash: u32,
    p: Posting,
)
    ensures
        list_of(with_recordings(Map::empty(), calls), hash).contains(p) <==> brought(
            calls,
            hash,
            p,
        ),
        with_recordings(Map::empty(), calls).contains_key(hash) ==> list_of(
            with_recordings(Map::empty(), calls),
            hash,
        ).len() > 0,
    decreases calls.len(),
{
    if calls.len() > 0 {
        let rest = calls.drop_last();
        let c = calls.last();
        let before = with_recordings(Map::empty(), rest);
        lemma_with_recordings(rest, hash, p);
        lemma_with_recording(before, c.0, c.1, hash);
        lemma_recording_postings(c.0, c.1, hash, p);
        let (l, r) = (list_of(before, hash), recording_postings(c.0, c.1, hash));
        if l.contains(p) {
            let i = l.index_of(p);
            assert((l + r)[i] == p);
        }
        if r.contains(p) {
            let i = r.index_of(p);
            assert((l + r)[l.len() + i] == p);
        }
        if (l + r).contains(p) && !r.contains(p) {
            let i = (l + r).index_of(p);
            if i >= l.len() {
                assert(r[i - l.len()] == p);
            }
            assert(l[i] == p);
        }
        assert(calls =~= rest.push(c));
        if brought(rest, hash, p) {
            let d = choose|d: (RecordingId, Seq<(u32, u32)>)| #[trigger]
                rest.contains(d) && d.0 == p.recording && d.1.contains((hash, p.anchor_time));
            lemma_push_contains(rest, c, d);
            assert(calls.contains(d));
        }
        if r.contains(p) {
            lemma_push_contains(rest, c, c);
            assert(calls.contains(c));
        }
        if brought(calls, hash, p) && !r.contains(p) {
            let d = choose|d: (RecordingId, Seq<(u32, u32)>)| #[trigger]
                calls.contains(d) && d.0 == p.recording && d.1.contains((hash, p.anchor_time));
            lemma_push_contains(rest, c, d);
            assert(rest.contains(d));
        }
    }
}

/// Every list of a map is sorted without repetition.
pub open spec fn all_tidy(m: Map<u32, Seq<Posting>>) -> bool {
    forall|h: u32| #[trigger] m.contains_key(h) ==> strictly_ordered(m[h])
}

/// `new` holds the hashes of `old`, each with its list tidied.
pub open spec fn tidied(new: Map<u32, Seq<Posting>>, old: Map<u32, Seq<Posting>>) -> bool {
    &&& new.dom() == old.dom()
    &&& forall|h: u32| #[trigger] new.contains_key(h) ==> is_tidy(new[h], old[h])
}

/// Number of postings in the lists of `hs`.
pub open spec fn list_total(m: Map<u32, Seq<Posting>>, hs: Seq<u32>) -> nat {
    sum_where(hs, |h: u32| true, |h: u32| m[h].len())
}

/// The lists of hashes other than `hash` do not notice its new posting.
proof fn lemma_total_elsewhere(m: Map<u32, Seq<Posting>>, hs: Seq<u32>, hash: u32, p: Posting)
    requires
        !hs.contains(hash),
    ensures
        list_total(with_posting(m, hash, p), hs) == list_total(m, hs),
    decreases hs.len(),
{
    if hs.len() > 0 {
        let t = hs.drop_last();
        assert(hs[hs.len() - 1] != hash);
        assert(!t.contains(hash)) by {
            if t.contains(hash) {
                let i = t.index_of(hash);
                assert(hs[i] == hash);
            }
        }
        lemma_total_elsewhere(m, t, hash, p);
    }
}

proof fn lemma_total_here(m: Map<u32, Seq<Posting>>, hs: Seq<u32>, hash: u32, p: Posting)
    requires
        hs.contains(hash),
        hs.no_duplicates(),
        m.contains_key(hash),
    ensures
        list_total(with_posting(m, hash, p), hs) == list_total(m, hs) + 1,
    decreases hs.len(),
{
    let t = hs.drop_last();
    let k = hs.index_of(hash);
    if k == hs.len() - 1 {
        assert(!t.contains(hash)) by {
            if t.contains(hash) {
                let i = t.index_of(hash);
                assert(hs[i] == hash);
            }
        }
        lemma_total_elsewhere(m, t, hash, p);
    } else {
        assert(t[k] == hash);
        assert(hs[hs.len() - 1] != hash);
        lemma_total_here(m, t, hash, p);
    }
}

/// One more posting adds one to the count.
pub proof fn lemma_total_grows(m: Map<u32, Seq<Posting>>, hs: Seq<u32>, hash: u32, p: Posting)
    requires
        hs.no_duplicates(),
        forall|h: u32| hs.contains(h) <==> m.contains_key(h),
    ensures
        list_total(
            with_posting(m, hash, p),
            if m.contains_key(hash) {
                hs
            } else {
                hs.push(hash)
            },
        ) == list_total(m, hs) + 1,
{
    if m.contains_key(hash) {
        lemma_total_here(m, hs, hash, p);
    } else {
        lemma_total_elsewhere(m, hs, hash, p);
        assert(hs.push(hash).drop_last() =~= hs);
    }
}

impl PostingMap {
    /// Slots and lists mirror each other, and no list is empty.
    pub closed spec fn wf(&self) -> bool {
        &&& forall|h: u32|
            #![trigger self.slots@.contains_key(h)]
            #![trigger self.slots@[h]]
            self.slots@.contains_key(h) ==> self.slots@[h] < self.lists.len()
                && self.lists[self.slots@[h] as int].hash == h
        &&& forall|i: int|
            0 <= i < self.lists.len() ==> self.slots@.contains_key(#[trigger] self.lists[i].hash)
                && self.slots@[self.lists[i].hash] == i
        &&& forall|i: int|
            0 <= i < self.lists.len() ==> (#[trigger] self.lists[i]).postings@.len() > 0
    }

    /// Every list is tidy and carries its document frequency.
    pub closed spec fn is_tidied(&self) -> bool {
        forall|i: int|
            0 <= i < self.lists.len() ==> strictly_ordered((#[trigger] self.lists[i]).postings@)
                && self.lists[i].df == document_frequency(self.lists[i].postings@)
    }

    /// The hashes in the order in which they were first seen.
    pub closed spec fn key_order(&self) -> Seq<u32> {
        self.lists@.map_values(|l: HashPostings| l.hash)
    }

    pub fn new() -> (map: Self)
        ensures
            map.wf(),
            map.key_order().len() == 0,
            map@ == Map::<u32, Seq<Posting>>::empty(),
    {
        broadcast use vstd::std_specs::hash::group_hash_axioms;

        let map = PostingMap { slots: HashMap::new(), lists: Vec::new() };
        assert(map@ =~= Map::<u32, Seq<Posting>>::empty());
        map
    }

    /// Add one posting at the end of the list of `hash`.
    pub fn push(&mut self, hash: u32, p: Posting)
        requires
            old(self).wf(),
        ensures
            final(self).wf(),
            final(self)@ == with_posting(old(self)@, hash, p),
            final(self).key_order() == if old(self)@.contains_key(hash) {
                old(self).key_order()
            } else {
                old(self).key_order().push(hash)
            },
    {
        broadcast use vstd::std_specs::hash::group_hash_axioms;

        let ghost before = *self;
        match self.slots.get(&hash) {
            Some(slot) => {
                let slot: usize = *slot;
                self.lists[slot].postings.push(p);
                assert(self.lists@ =~= before.lists@.update(slot as int, self.lists@[slot as int]));
                assert(self@ =~= with_posting(before@, hash, p));
                assert(self.key_order() =~= before.key_order());
            },
            None => {
                let mut postings: Vec<Posting> = Vec::new();
                postings.push(p);
                assert(postings@ =~= seq![p]);
                let slot: usize = self.lists.len();
                self.lists.push(HashPostings { hash, postings, df: 0 });
                self.slots.insert(hash, slot);
                assert(forall|i: int|
                    0 <= i < before.lists.len() ==> #[trigger] self.lists[i] == before.lists[i]);
                assert(self@ =~= with_posting(before@, hash, p));
                assert(self.key_order() =~= before.key_order().push(hash));
            },
        }
    }

    /// Add the fingerprints `(hash, anchor)` of one recording.
    pub fn push_recording(&mut self, recording: RecordingId, fps: &[(u32, u32)])
        requires
            old(self).wf(),
        ensures
            final(self).wf(),
            final(self)@ == with_recording(old(self)@, recording, fps@),
            list_total(final(self)@, final(self).key_order()) == list_total(
                old(self)@,
                old(self).key_order(),
            ) + fps.len(),
    {
        assert(fps@.take(0) =~= Seq::<(u32, u32)>::empty());
        let mut i: usize = 0;
        while i < fps.len()
            invariant
                i <= fps.len(),
                self.wf(),
                self@ == with_recording(old(self)@, recording, fps@.take(i as int)),
                list_total(self@, self.key_order()) == list_total(
                    old(self)@,
                    old(self).key_order(),
                ) + i,
            decreases fps.len() - i,
        {
            let fp: (u32, u32) = fps[i];
            proof {
                self.lemma_key_order();
                lemma_total_grows(
                    self@,
                    self.key_order(),
                    fp.0,
                    Posting { recording, anchor_time: fp.1 },
                );
            }
            self.push(fp.0, Posting { recording, anchor_time: fp.1 });
            assert(fps@.take(i + 1).drop_last() =~= fps@.take(i as int));
            i = i + 1;
        }
        assert(fps@.take(i as int) =~= fps@);
    }

    /// Sort every list, drop repetitions and count distinct recordings.
    pub fn tidy(&mut self)
        requires
            old(self).wf(),
        ensures
            final(self).wf(),
            final(self).is_tidied(),
            tidied(final(self)@, old(self)@),
            final(self).key_order() == old(self).key_order(),
            forall|h: u32| #[trigger]
                final(self)@.contains_key(h) ==> final(self)@[h].len() <= old(self)@[h].len(),
    {
        let mut i: usize = 0;
        while i < self.lists.len()
            invariant
                i <= self.lists.len(),
                self.lists.len() == old(self).lists.len(),
                self.slots == old(self).slots,
                old(self).wf(),
                forall|k: int|
                    0 <= k < self.lists.len() ==> (#[trigger] self.lists[k]).hash == old(
                        self,
                    ).lists[k].hash,
                forall|k: int|
                    i <= k < self.lists.len() ==> #[trigger] self.lists[k] == old(self).lists[k],
                forall|k: int|
                    0 <= k < i ==> {
                        &&& is_tidy((#[trigger] self.lists[k]).postings@, old(self).lists[k].postings@)
                        &&& self.lists[k].postings@.len() <= old(self).lists[k].postings@.len()
                        &&& self.lists[k].df == document_frequency(self.lists[k].postings@)
                    },
            decreases self.lists.len() - i,
        {
            let sorted_list: Vec<Posting> = sorted(self.lists[i].postings.as_slice());
            let tidy: Vec<Posting> = dedup(&sorted_list);
            proof {
                lemma_permuted_contains(sorted_list@, self.lists[i as int].postings@);
            }
            let df: u64 = count_recordings(&tidy);
            let hash: u32 = self.lists[i].hash;
            self.lists[i] = HashPostings { hash, postings: tidy, df };
            i = i + 1;
        }
        proof {
            assert forall|k: int| 0 <= k < self.lists.len() implies (
            #[trigger] self.lists[k]).postings@.len() > 0 by {
                let list = old(self).lists[k].postings@;
                assert(list.contains(list[0]));
                assert(self.lists[k].postings@.contains(list[0]));
            }
            assert(self@.dom() =~= old(self)@.dom());
            assert(self.key_order() =~= old(self).key_order());
        }
    }

    /// Number of distinct hashes.
    pub fn len(&self) -> (n: usize)
        requires
            self.wf(),
        ensures
            n == self@.dom().len(),
    {
        broadcast use vstd::std_specs::hash::group_hash_axioms;

        assert(self@.dom() =~= self.slots@.dom());
        self.slots.len()
    }

    /// The list of one hash.
    pub fn get(&self, hash: u32) -> (list: Option<&[Posting]>)
        requires
            self.wf(),
        ensures
            list is Some <==> self@.contains_key(hash),
            list is Some ==> list->0@ == self@[hash] && list->0@.len() > 0,
    {
        broadcast use vstd::std_specs::hash::group_hash_axioms;

        match self.slots.get(&hash) {
            Some(slot) => Some(self.lists[*slot].postings.as_slice()),
            None => None,
        }
    }

    /// Distinct recordings that contain the hash; zero where the map has
    /// never seen it.
    pub fn frequency(&self, hash: u32) -> (df: u64)
        requires
            self.wf(),
            self.is_tidied(),
        ensures
            df == if self@.contains_key(hash) {
                document_frequency(self@[hash])
            } else {
                0
            },
    {
        broadcast use vstd::std_specs::hash::group_hash_axioms;

        match self.slots.get(&hash) {
            Some(slot) => self.lists[*slot].df,
            None => 0,
        }
    }

    /// The hashes, in the order in which they were first seen.
    pub fn keys(&self) -> (keys: Vec<u32>)
        requires
            self.wf(),
        ensures
            keys@ == self.key_order(),
            keys@.no_duplicates(),
            forall|h: u32| keys@.contains(h) <==> self@.contains_key(h),
    {
        let mut keys: Vec<u32> = Vec::new();
        let mut i: usize = 0;
        while i < self.lists.len()
            invariant
                i <= self.lists.len(),
                keys.len() == i,
                forall|k: int| 0 <= k < i ==> #[trigger] keys[k] == self.lists[k].hash,
            decreases self.lists.len() - i,
        {
            keys.push(self.lists[i].hash);
            i = i + 1;
        }
        proof {
            assert(keys@ =~= self.key_order());
            self.lemma_key_order();
        }
        keys
    }

    /// The keys occur once each.
    pub proof fn lemma_key_order(&self)
        requires
            self.wf(),
        ensures
            self.key_order().no_duplicates(),
            forall|h: u32| self.key_order().contains(h) <==> self@.contains_key(h),
    {
        let keys = self.key_order();
        assert forall|i: int, j: int| 0 <= i < keys.len() && 0 <= j < keys.len() && i != j implies keys[i]
            != keys[j] by {
            assert(self.slots@[self.lists[i].hash] == i);
            assert(self.slots@[self.lists[j].hash] == j);
        }
        assert forall|h: u32| keys.contains(h) <==> self@.contains_key(h) by {
            if keys.contains(h) {
                let i = keys.index_of(h);
                assert(self.slots@.contains_key(self.lists[i].hash));
            }
            if self@.contains_key(h) {
                let i = self.slots@[h] as int;
                assert(self.lists[i].hash == h);
                assert(keys[i] == h);
            }
        }
    }

    /// No list is empty.
    pub proof fn lemma_no_empty_list(&self)
        requires
            self.wf(),
        ensures
            forall|h: u32| #[trigger] self@.contains_key(h) ==> self@[h].len() > 0,
    {
        assert forall|h: u32| #[trigger] self@.contains_key(h) implies self@[h].len() > 0 by {
            let i = self.slots@[h] as int;
            assert(self.lists[i].postings@.len() > 0);
        }
    }

    /// A tidied map holds sorted lists without repetition.
    pub proof fn lemma_tidied_lists(&self)
        requires
            self.wf(),
            self.is_tidied(),
        ensures
            all_tidy(self@),
    {
    }
}

/// Drop repetitions of a sorted list.
fn dedup(list: &Vec<Posting>) -> (out: Vec<Posting>)
    requires
        ordered(list@),
    ensures
        is_tidy(out@, list@),
        out.len() <= list.len(),
{
    let mut out: Vec<Posting> = Vec::new();
    let mut i: usize = 0;
    while i < list.len()
        invariant
            i <= list.len(),
            out.len() <= i,
            ordered(list@),
            strictly_ordered(out@),
            forall|p: Posting| out@.contains(p) <==> list@.take(i as int).contains(p),
            out.len() > 0 ==> i > 0 && out[out.len() - 1] == list[i - 1],
            i > 0 ==> out.len() > 0,
        decreases list.len() - i,
    {
        let p: Posting = list[i];
        let ghost before = out@;
        let ghost taken = list@.take(i as int);
        if i == 0 || list[i - 1] != p {
            out.push(p);
            proof {
                assert forall|a: int, b: int| 0 <= a < b < out.len() implies #[trigger] posting_leq(
                    out[a],
                    out[b],
                ) && out[a] != out[b] by {
                    if b < before.len() {
                        assert(posting_leq(before[a], before[b]));
                    } else {
                        assert(Posting::leq(list[i - 1], list[i as int]));
                        if a < before.len() - 1 {
                            assert(posting_leq(before[a], before[before.len() - 1]));
                        }
                    }
                }
            }
        }
        proof {
            assert(list@.take(i + 1) =~= taken.push(p));
            assert forall|x: Posting| out@.contains(x) <==> list@.take(i + 1).contains(x) by {
                lemma_push_contains(taken, p, x);
                lemma_push_contains(before, p, x);
                if i > 0 && list[i - 1] == p {
                    assert(before[before.len() - 1] == p);
                    assert(before.contains(p));
                }
            }
        }
        i = i + 1;
    }
    assert(list@.take(i as int) =~= list@);
    out
}

pub proof fn lemma_push_contains<T>(s: Seq<T>, a: T, x: T)
    ensures
        s.push(a).contains(x) <==> s.contains(x) || a == x,
{
    if s.contains(x) {
        let k = s.index_of(x);
        assert(s.push(a)[k] == x);
    }
    if a == x {
        assert(s.push(a)[s.len() as int] == x);
    }
    if s.push(a).contains(x) && a != x {
        let k = s.push(a).index_of(x);
        assert(s[k] == x);
    }
}

/// Number of distinct recordings of a sorted list.
fn count_recordings(list: &Vec<Posting>) -> (n: u64)
    requires
        strictly_ordered(list@),
    ensures
        n == document_frequency(list@),
{
    let ghost rec = |p: Posting| p.recording.0;
    let mut seen: u64 = 0;
    let mut i: usize = 0;
    assert(list@.take(0).map_values(rec).to_set() =~= Set::<u32>::empty());
    while i < list.len()
        invariant
            i <= list.len(),
            strictly_ordered(list@),
            rec == (|p: Posting| p.recording.0),
            seen <= i,
            seen == list@.take(i as int).map_values(rec).to_set().len(),
        decreases list.len() - i,
    {
        let ghost taken = list@.take(i as int).map_values(rec);
        let ghost more = list@.take(i + 1).map_values(rec);
        proof {
            vstd::seq_lib::seq_to_set_is_finite(taken);
            assert(more =~= taken.push(rec(list[i as int])));
            taken.lemma_push_to_set_commute(rec(list[i as int]));
        }
        if i == 0 || list[i - 1].recording != list[i].recording {
            proof {
                assert forall|k: int| 0 <= k < i implies taken[k] < rec(list[i as int]) by {
                    assert(posting_leq(list[i - 1], list[i as int]));
                    if k < i - 1 {
                        assert(posting_leq(list[k], list[i - 1]));
                    }
                }
                assert(!taken.contains(rec(list[i as int])));
            }
            seen = seen + 1;
        } else {
            proof {
                assert(taken[i - 1] == rec(list[i as int]));
                assert(taken.contains(rec(list[i as int])));
                assert(more.to_set() =~= taken.to_set());
            }
        }
        i = i + 1;
    }
    assert(list@.take(i as int) =~= list@);
    seen
}

/// Two sorted lists without repetition that hold the same postings are equal:
/// a finalized index depends on what was added, not on the order.
pub proof fn law_tidy_is_unique(a: Seq<Posting>, b: Seq<Posting>, old: Seq<Posting>)
    requires
        is_tidy(a, old),
        is_tidy(b, old),
    ensures
        a == b,
    decreases a.len(),
{
    if a.len() == 0 {
        if b.len() > 0 {
            assert(b.contains(b[0]));
            assert(a.contains(b[0]));
        }
    } else {
        let x = a.last();
        assert(a.contains(x));
        assert(b.contains(x));
        let j = b.index_of(x);
        let y = b.last();
        assert(b.contains(y));
        assert(a.contains(y));
        let k = a.index_of(y);
        if j < b.len() - 1 {
            assert(posting_leq(b[j], b[b.len() - 1]));
        }
        if k < a.len() - 1 {
            assert(posting_leq(a[k], a[a.len() - 1]));
        }
        assert(x == y);
        let a2 = a.drop_last();
        let b2 = b.drop_last();
        assert forall|p: Posting| a2.contains(p) <==> b2.contains(p) by {
            lemma_drop_last_contains(a, p);
            lemma_drop_last_contains(b, p);
        }
        assert(strictly_ordered(a2)) by {
            assert forall|i: int, j: int| 0 <= i < j < a2.len() implies #[trigger] posting_leq(
                a2[i],
                a2[j],
            ) && a2[i] != a2[j] by {
                assert(posting_leq(a[i], a[j]));
            }
        }
        assert(strictly_ordered(b2)) by {
            assert forall|i: int, j: int| 0 <= i < j < b2.len() implies #[trigger] posting_leq(
                b2[i],
                b2[j],
            ) && b2[i] != b2[j] by {
                assert(posting_leq(b[i], b[j]));
            }
        }
        law_tidy_is_unique(a2, b2, b2);
        assert(a =~= a2.push(x));
        assert(b =~= b2.push(x));
    }
}

/// The order in which recordings are added does not matter: two finalized
/// indexes that received the same recordings in any order hold the same
/// lists. A hash has a list if and only if some recording brought it; the
/// list holds exactly the postings that were brought under it, each once.
pub proof fn law_order_of_recordings_does_not_matter(
    first: Seq<(RecordingId, Seq<(u32, u32)>)>,
    second: Seq<(RecordingId, Seq<(u32, u32)>)>,
    a: Map<u32, Seq<Posting>>,
    b: Map<u32, Seq<Posting>>,
)
    requires
        permuted(first, second),
        tidied(a, with_recordings(Map::empty(), first)),
        tidied(b, with_recordings(Map::empty(), second)),
    ensures
        a == b,
        forall|h: u32| #[trigger]
            a.contains_key(h) <==> exists|p: Posting| #[trigger] brought(first, h, p),
        forall|h: u32, p: Posting| #[trigger]
            list_of(a, h).contains(p) <==> brought(first, h, p),
        forall|h: u32| #[trigger] a.contains_key(h) ==> a[h].no_duplicates(),
{
    lemma_permuted_contains(first, second);
    assert forall|h: u32, p: Posting|
        brought(first, h, p) <==> #[trigger] brought(second, h, p) by {
        if brought(first, h, p) {
            let c = choose|c: (RecordingId, Seq<(u32, u32)>)| #[trigger]
                first.contains(c) && c.0 == p.recording && c.1.contains((h, p.anchor_time));
            assert(second.contains(c));
        }
        if brought(second, h, p) {
            let c = choose|c: (RecordingId, Seq<(u32, u32)>)| #[trigger]
                second.contains(c) && c.0 == p.recording && c.1.contains((h, p.anchor_time));
            assert(first.contains(c));
        }
    }
    lemma_tidied_recordings(first, a);
    lemma_tidied_recordings(second, b);
    assert forall|h: u32| #[trigger] a.contains_key(h) <==> b.contains_key(h) by {
        if a.contains_key(h) {
            let p = choose|p: Posting| #[trigger] brought(first, h, p);
            assert(brought(second, h, p));
        }
        if b.contains_key(h) {
            let p = choose|p: Posting| #[trigger] brought(second, h, p);
            assert(brought(first, h, p));
        }
    }
    assert forall|h: u32| #[trigger] a.contains_key(h) implies a[h] == b[h] && a[h].no_duplicates() by {
        assert(b.contains_key(h));
        assert forall|p: Posting| a[h].contains(p) <==> b[h].contains(p) by {
            assert(list_of(a, h).contains(p) <==> brought(first, h, p));
            assert(list_of(b, h).contains(p) <==> brought(second, h, p));
        }
        law_tidy_is_unique(a[h], b[h], b[h]);
        assert forall|i: int, j: int|
            0 <= i < a[h].len() && 0 <= j < a[h].len() && i != j implies a[h][i] != a[h][j] by {
            if i < j {
                assert(posting_leq(a[h][i], a[h][j]));
            } else {
                assert(posting_leq(a[h][j], a[h][i]));
            }
        }
    }
    assert(a =~= b);
}

/// What a finalized index holds of the recordings that were added.
proof fn lemma_tidied_recordings(
    calls: Seq<(RecordingId, Seq<(u32, u32)>)>,
    m: Map<u32, Seq<Posting>>,
)
    requires
        tidied(m, with_recordings(Map::empty(), calls)),
    ensures
        forall|h: u32, p: Posting| #[trigger]
            list_of(m, h).contains(p) <==> brought(calls, h, p),
        forall|h: u32| #[trigger]
            m.contains_key(h) <==> exists|p: Posting| #[trigger] brought(calls, h, p),
{
    let raw = with_recordings(Map::empty(), calls);
    assert forall|h: u32, p: Posting| #[trigger] list_of(m, h).contains(p) <==> brought(
        calls,
        h,
        p,
    ) by {
        lemma_with_recordings(calls, h, p);
        assert(m.contains_key(h) <==> raw.contains_key(h));
    }
    assert forall|h: u32| #[trigger] m.contains_key(h) <==> exists|p: Posting| #[trigger]
        brought(calls, h, p) by {
        assert(m.contains_key(h) <==> raw.contains_key(h));
        if m.contains_key(h) {
            let x = Posting { recording: RecordingId(0), anchor_time: 0 };
            lemma_with_recordings(calls, h, x);
            let p = raw[h][0];
            lemma_with_recordings(calls, h, p);
            assert(list_of(raw, h).contains(p));
        }
        if exists|p: Posting| #[trigger] brought(calls, h, p) {
            let p = choose|p: Posting| #[trigger] brought(calls, h, p);
            lemma_with_recordings(calls, h, p);
        }
    }
}

proof fn lemma_drop_last_contains(s: Seq<Posting>, p: Posting)
    requires
        strictly_ordered(s),
        s.len() > 0,
    ensures
        s.drop_last().contains(p) <==> s.contains(p) && p != s.last(),
{
    let t = s.drop_last();
    if t.contains(p) {
        let i = t.index_of(p);
        assert(posting_leq(s[i], s[s.len() - 1]));
    }
    if s.contains(p) && p != s.last() {
        let i = s.index_of(p);
        assert(t[i] == p);
    }
}

/// Finalizing a finalized list changes nothing.
pub proof fn law_finalize_is_idempotent(list: Seq<Posting>, again: Seq<Posting>)
    requires
        strictly_ordered(list),
        is_tidy(again, list),
    ensures
        again == list,
{
    law_tidy_is_unique(again, list, list);
}

/// The map lists the posting under the hash.
pub open spec fn lists(m: Map<u32, Seq<Posting>>, hash: u32, p: Posting) -> bool {
    m.contains_key(hash) && exists|i: int| 0 <= i < m[hash].len() && #[trigger] m[hash][i] == p
}

proof fn lemma_lists(m: Map<u32, Seq<Posting>>, hash: u32, p: Posting)
    ensures
        lists(m, hash, p) <==> list_of(m, hash).contains(p),
{
}

/// After a recording was added, a hash lists what it listed before and, of
/// this recording, an anchor time for every fingerprint with that hash;
/// nothing else. Adding one posting adds that one.
pub proof fn law_added_fingerprints_are_listed(
    m: Map<u32, Seq<Posting>>,
    recording: RecordingId,
    fps: Seq<(u32, u32)>,
    hash: u32,
    p: Posting,
    q: Posting,
)
    ensures
        lists(with_recording(m, recording, fps), hash, p) <==> lists(m, hash, p) || (p.recording
            == recording && exists|k: int|
            0 <= k < fps.len() && #[trigger] fps[k] == (hash, p.anchor_time)),
        forall|h: u32|
            #![trigger with_posting(m, h, q)]
            lists(with_posting(m, h, q), hash, p) <==> lists(m, hash, p) || (h == hash && p == q),
{
    let after = with_recording(m, recording, fps);
    let own = recording_postings(recording, fps, hash);
    lemma_lists(m, hash, p);
    lemma_lists(after, hash, p);
    lemma_with_recording(m, recording, fps, hash);
    lemma_recording_postings(recording, fps, hash, p);
    let old = list_of(m, hash);
    if (old + own).contains(p) {
        let i = (old + own).index_of(p);
        if i < old.len() {
            assert(old[i] == p);
        } else {
            assert(own[i - old.len()] == p);
        }
    }
    if old.contains(p) {
        assert((old + own)[old.index_of(p)] == p);
    }
    if own.contains(p) {
        assert((old + own)[old.len() + own.index_of(p)] == p);
    }
    if p.recording == recording && exists|k: int|
        0 <= k < fps.len() && #[trigger] fps[k] == (hash, p.anchor_time) {
        assert(fps.contains((hash, p.anchor_time)));
    }
    assert forall|h: u32| #![trigger with_posting(m, h, q)]
        lists(with_posting(m, h, q), hash, p) <==> lists(m, hash, p) || (h == hash && p == q) by {
        let w = with_posting(m, h, q);
        lemma_lists(w, hash, p);
        if h == hash {
            assert(list_of(w, hash) =~= old.push(q));
            if old.contains(p) {
                assert(old.push(q)[old.index_of(p)] == p);
            }
            assert(old.push(q)[old.len() as int] == q);
            if old.push(q).contains(p) && p != q {
                let i = old.push(q).index_of(p);
                assert(old[i] == p);
            }
        }
    }
}

/// Tidying changes nothing but order and repetition: a hash lists what it
/// listed before, once each, by recording and then by time. How many
/// recordings a list names is how many different ones stand in it.
pub proof fn law_tidy_lists_keep_their_postings(
    new: Map<u32, Seq<Posting>>,
    old: Map<u32, Seq<Posting>>,
    hash: u32,
    p: Posting,
)
    requires
        tidied(new, old),
    ensures
        new.contains_key(hash) <==> old.contains_key(hash),
        lists(new, hash, p) <==> lists(old, hash, p),
        new.contains_key(hash) ==> forall|i: int, j: int|
            #![trigger new[hash][i], new[hash][j]]
            0 <= i < j < new[hash].len() ==> new[hash][i].recording.0 < new[hash][j].recording.0
                || (new[hash][i].recording == new[hash][j].recording && new[hash][i].anchor_time
                < new[hash][j].anchor_time),
        new.contains_key(hash) ==> document_frequency(new[hash]) == Set::new(
            |r: u32|
                exists|i: int|
                    0 <= i < new[hash].len() && (#[trigger] new[hash][i]).recording.0 == r,
        ).len(),
{
    lemma_lists(new, hash, p);
    lemma_lists(old, hash, p);
    if new.contains_key(hash) {
        let list = new[hash];
        assert forall|i: int, j: int|
            #![trigger list[i], list[j]]
            0 <= i < j < list.len() implies list[i].recording.0 < list[j].recording.0 || (
        list[i].recording == list[j].recording && list[i].anchor_time < list[j].anchor_time) by {
            assert(posting_leq(list[i], list[j]) && list[i] != list[j]);
        }
        let set = Set::new(
            |r: u32| exists|i: int| 0 <= i < list.len() && (#[trigger] list[i]).recording.0 == r,
        );
        let names = list.map_values(|q: Posting| q.recording.0);
        assert forall|r: u32| set.contains(r) <==> recordings_in(list).contains(r) by {
            if set.contains(r) {
                let i = choose|i: int|
                    0 <= i < list.len() && (#[trigger] list[i]).recording.0 == r;
                assert(names[i] == r);
                assert(names.contains(r));
            }
            if names.contains(r) {
                let i = names.index_of(r);
                assert(list[i].recording.0 == r);
            }
        }
        assert(set =~= recordings_in(list));
    }
}

/// The postings of a list of hashes are counted hash by hash.
pub proof fn law_postings_are_counted_by_hash(
    m: Map<u32, Seq<Posting>>,
    hs: Seq<u32>,
    hash: u32,
)
    ensures
        list_total(m, Seq::<u32>::empty()) == 0,
        list_total(m, hs.push(hash)) == list_total(m, hs) + m[hash].len(),
{
    assert(hs.push(hash).drop_last() =~= hs);
}

} // verus!
