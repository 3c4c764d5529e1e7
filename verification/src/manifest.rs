//! Catalog manifest: the swap point of the segment set.
//!
//! A catalog holds immutable segments plus a manifest listing the active set.
//! Writers install a new manifest atomically, so query servers either see the
//! old catalog or the new one, never a mix; rollback is installing the
//! previous manifest.
use vstd::prelude::*;

use crate::segment::{
    directory_ok, law_lookup_reads_what_was_built, lookup_answers, open_outcome, serializes,
    stored_posting, OpenError, Posting, SegmentHeader, SivSegment,
};
use crate::version::FingerprintVersion;

verus! {

/// The active segments of a catalog.
#[derive(Debug)]
pub struct Manifest {
    /// Monotonic catalog revision; rises on every swap.
    pub catalog_version: u64,
    /// Fingerprint format every listed segment was built with.
    pub fingerprint_version: FingerprintVersionFlatten,
    /// Active segment file names, oldest first.
    pub segments: Vec<String>,
}

/// Version pair as the manifest stores it.
#[derive(Debug, Clone, Copy, PartialEq, Eq, Structural)]
pub struct FingerprintVersionFlatten {
    pub fingerprint_major: u16,
    pub fingerprint_minor: u16,
}

impl Manifest {
    /// The fingerprint format that the manifest claims.
    pub open spec fn claimed(&self) -> FingerprintVersion {
        FingerprintVersion {
            major: self.fingerprint_version.fingerprint_major,
            minor: self.fingerprint_version.fingerprint_minor,
        }
    }

    pub fn new(catalog_version: u64, fp_version: FingerprintVersion, segments: Vec<String>) -> (m:
        Self)
        ensures
            m.catalog_version == catalog_version,
            m.claimed() == fp_version,
            m.segments == segments,
    {
        Manifest {
            catalog_version,
            fingerprint_version: FingerprintVersionFlatten {
                fingerprint_major: fp_version.major,
                fingerprint_minor: fp_version.minor,
            },
            segments,
        }
    }

    pub fn fingerprint_version(&self) -> (v: FingerprintVersion)
        ensures
            v == self.claimed(),
    {
        FingerprintVersion::new(
            self.fingerprint_version.fingerprint_major,
            self.fingerprint_version.fingerprint_minor,
        )
    }
}

/// Which segment of a catalog could not be used, and why.
#[derive(Debug, Clone, Copy, PartialEq, Eq, Structural)]
pub struct CatalogError {
    /// Position in the manifest.
    pub segment: usize,
    pub error: OpenError,
}

/// What is wrong with the bytes of one segment of a catalog of format
/// `claimed`, if anything.
pub open spec fn segment_fault(b: Seq<u8>, claimed: FingerprintVersion) -> Option<OpenError> {
    match open_outcome(b) {
        Err(e) => Some(e),
        Ok(header) => if header.fingerprint_version != claimed {
            Some(
                OpenError::VersionMismatch {
                    segment: header.fingerprint_version,
                    manifest: claimed,
                },
            )
        } else {
            None
        },
    }
}

/// An open catalog: the active segments.
#[derive(Debug)]
pub struct Catalog {
    pub manifest: Manifest,
    pub segments: Vec<SivSegment>,
}

impl Catalog {
    /// Every segment opened, and is of the format that the manifest claims.
    pub open spec fn wf(&self) -> bool {
        &&& self.segments.len() == self.manifest.segments.len()
        &&& forall|i: int|
            0 <= i < self.segments.len() ==> {
                &&& (#[trigger] self.segments[i]).wf()
                &&& segment_fault(self.segments[i]@, self.manifest.claimed()) is None
            }
    }

    /// The bytes of the segments.
    pub open spec fn files(&self) -> Seq<Seq<u8>> {
        Seq::new(self.segments.len() as nat, |i: int| self.segments[i]@)
    }

    /// Open every manifest-listed segment; fails if any is corrupt or built
    /// with a different fingerprint version than the manifest claims.
    pub fn open(manifest: Manifest, files: Vec<Vec<u8>>) -> (r: Result<Catalog, CatalogError>)
        requires
            files.len() == manifest.segments.len(),
        ensures
            match r {
                Ok(catalog) => {
                    &&& catalog.wf()
                    &&& catalog.manifest == manifest
                    &&& catalog.files() == Seq::new(files.len() as nat, |i: int| files[i]@)
                },
                Err(e) => {
                    &&& e.segment < files.len()
                    &&& segment_fault(files[e.segment as int]@, manifest.claimed()) == Some(e.error)
                    &&& forall|i: int|
                        0 <= i < e.segment ==> segment_fault(
                            (#[trigger] files[i])@,
                            manifest.claimed(),
                        ) is None
                },
            },
    {
        let claimed: FingerprintVersion = manifest.fingerprint_version();
        let mut segments: Vec<SivSegment> = Vec::new();
        let mut rest: Vec<Vec<u8>> = files;
        let mut taken: usize = 0;
        let total: usize = rest.len();
        while taken < total
            invariant
                taken <= total,
                total == files.len(),
                claimed == manifest.claimed(),
                segments.len() == taken,
                rest@ == files@.subrange(taken as int, total as int),
                forall|i: int|
                    0 <= i < taken ==> {
                        &&& (#[trigger] segments[i]).wf()
                        &&& segments[i]@ == files[i]@
                        &&& segment_fault(segments[i]@, claimed) is None
                    },
                forall|i: int|
                    0 <= i < taken ==> segment_fault((#[trigger] files[i])@, claimed) is None,
            decreases total - taken,
        {
            let file: Vec<u8> = rest.remove(0);
            assert(file@ == files[taken as int]@);
            assert(rest@ =~= files@.subrange(taken + 1, total as int));
            match SivSegment::open(file) {
                Err(error) => {
                    return Err(CatalogError { segment: taken, error });
                },
                Ok(seg) => {
                    let found: FingerprintVersion = seg.header().fingerprint_version;
                    if found != claimed {
                        return Err(
                            CatalogError {
                                segment: taken,
                                error: OpenError::VersionMismatch { segment: found, manifest: claimed },
                            },
                        );
                    }
                    segments.push(seg);
                },
            }
            taken = taken + 1;
        }
        let catalog = Catalog { manifest, segments };
        assert(catalog.files() =~= Seq::new(files.len() as nat, |i: int| files[i]@));
        Ok(catalog)
    }

    /// The directory of every segment is consistent.
    pub fn has_valid_directories(&self) -> (r: bool)
        requires
            self.wf(),
        ensures
            r == directories_ok(self.files()),
    {
        let mut i: usize = 0;
        while i < self.segments.len()
            invariant
                i <= self.segments.len(),
                self.wf(),
                forall|k: int| 0 <= k < i ==> directory_ok(#[trigger] self.files()[k]),
            decreases self.segments.len() - i,
        {
            if !self.segments[i].has_valid_directory() {
                assert(!directory_ok(self.files()[i as int]));
                return false;
            }
            i = i + 1;
        }
        true
    }

    /// Union posting list for `hash` across all active segments, oldest
    /// first. `out` is cleared first.
    pub fn lookup(&self, hash: u32, out: &mut Vec<Posting>)
        requires
            self.wf(),
            directories_ok(self.files()),
        ensures
            catalog_answers(self.files(), hash, final(out)@),
    {
        out.clear();
        let ghost mut parts: Seq<Seq<Posting>> = Seq::empty();
        let mut one: Vec<Posting> = Vec::new();
        let mut i: usize = 0;
        assert(parts.flatten() =~= Seq::<Posting>::empty());
        while i < self.segments.len()
            invariant
                i <= self.segments.len(),
                self.wf(),
                directories_ok(self.files()),
                parts.len() == i,
                out@ == parts.flatten(),
                forall|k: int| 0 <= k < i ==> #[trigger] part_answers(self.files(), hash, parts, k),
            decreases self.segments.len() - i,
        {
            assert(directory_ok(self.files()[i as int]));
            let found: bool = self.segments[i].lookup(hash, &mut one);
            let ghost before = parts;
            let mut k: usize = 0;
            let ghost had = out@;
            while k < one.len()
                invariant
                    k <= one.len(),
                    out@ == had + one@.take(k as int),
                decreases one.len() - k,
            {
                out.push(one[k]);
                assert(one@.take(k + 1) =~= one@.take(k as int).push(one[k as int]));
                k = k + 1;
            }
            proof {
                assert(one@.take(k as int) =~= one@);
                parts = before.push(one@);
                before.lemma_flatten_push(one@);
                assert(lookup_answers(self.files()[i as int], hash, found, one@));
                assert forall|k: int| 0 <= k < i + 1 implies #[trigger] part_answers(
                    self.files(),
                    hash,
                    parts,
                    k,
                ) by {
                    if k < i {
                        assert(part_answers(self.files(), hash, before, k));
                        let f = choose|f: bool| #[trigger]
                            lookup_answers(self.files()[k], hash, f, before[k]);
                        assert(lookup_answers(self.files()[k], hash, f, parts[k]));
                    } else {
                        assert(lookup_answers(self.files()[k], hash, found, parts[k]));
                    }
                }
            }
            i = i + 1;
        }
    }
}

/// The directories of all segments are consistent.
pub open spec fn directories_ok(files: Seq<Seq<u8>>) -> bool {
    forall|i: int| 0 <= i < files.len() ==> directory_ok(#[trigger] files[i])
}

/// Part `i` is what segment `i` answers for `hash`.
pub open spec fn part_answers(
    files: Seq<Seq<u8>>,
    hash: u32,
    parts: Seq<Seq<Posting>>,
    i: int,
) -> bool {
    exists|found: bool| #[trigger] lookup_answers(files[i], hash, found, parts[i])
}

/// What a catalog answers for `hash`: the answers of its segments, one after
/// the other.
pub open spec fn catalog_answers(files: Seq<Seq<u8>>, hash: u32, out: Seq<Posting>) -> bool {
    exists|parts: Seq<Seq<Posting>>|
        {
            &&& parts.len() == files.len()
            &&& out == #[trigger] parts.flatten()
            &&& forall|i: int|
                0 <= i < files.len() ==> #[trigger] part_answers(files, hash, parts, i)
        }
}

/// The bytes of segment `i` hold the lists `maps[i]`.
pub open spec fn holds_lists(
    files: Seq<Seq<u8>>,
    maps: Seq<Map<u32, Seq<Posting>>>,
    headers: Seq<SegmentHeader>,
    i: int,
) -> bool {
    files[i].len() < 0x100_0000_0000 && serializes(files[i], maps[i], headers[i])
}

/// The list of `hash` that the builds of all segments were given, one after
/// the other.
pub open spec fn united(maps: Seq<Map<u32, Seq<Posting>>>, hash: u32) -> Seq<Posting>
    decreases maps.len(),
{
    if maps.len() == 0 {
        Seq::empty()
    } else {
        united(maps.drop_last(), hash) + if maps.last().contains_key(hash) {
            maps.last()[hash].map_values(|p: Posting| stored_posting(p))
        } else {
            Seq::empty()
        }
    }
}

/// A catalog of built segments answers every hash with the union of what the
/// builds were given: nothing is lost and nothing is added.
pub proof fn law_catalog_unions_postings(
    files: Seq<Seq<u8>>,
    maps: Seq<Map<u32, Seq<Posting>>>,
    headers: Seq<SegmentHeader>,
    hash: u32,
    out: Seq<Posting>,
)
    requires
        files.len() == maps.len(),
        files.len() == headers.len(),
        forall|i: int| 0 <= i < files.len() ==> #[trigger] holds_lists(files, maps, headers, i),
        catalog_answers(files, hash, out),
    ensures
        out == united(maps, hash),
{
    let parts = choose|parts: Seq<Seq<Posting>>|
        {
            &&& parts.len() == files.len()
            &&& out == #[trigger] parts.flatten()
            &&& forall|i: int|
                0 <= i < files.len() ==> #[trigger] part_answers(files, hash, parts, i)
        };
    lemma_parts_united(files, maps, headers, hash, parts, files.len() as int);
    assert(parts.take(files.len() as int) =~= parts);
    assert(maps.take(files.len() as int) =~= maps);
}

proof fn lemma_parts_united(
    files: Seq<Seq<u8>>,
    maps: Seq<Map<u32, Seq<Posting>>>,
    headers: Seq<SegmentHeader>,
    hash: u32,
    parts: Seq<Seq<Posting>>,
    n: int,
)
    requires
        files.len() == maps.len(),
        files.len() == headers.len(),
        parts.len() == files.len(),
        0 <= n <= files.len(),
        forall|i: int| 0 <= i < files.len() ==> #[trigger] holds_lists(files, maps, headers, i),
        forall|i: int| 0 <= i < files.len() ==> #[trigger] part_answers(files, hash, parts, i),
    ensures
        parts.take(n).flatten() == united(maps.take(n), hash),
    decreases n,
{
    if n == 0 {
        assert(parts.take(0) =~= Seq::<Seq<Posting>>::empty());
        assert(parts.take(0).flatten() =~= Seq::<Posting>::empty());
    } else {
        let i = n - 1;
        lemma_parts_united(files, maps, headers, hash, parts, i);
        assert(holds_lists(files, maps, headers, i));
        assert(part_answers(files, hash, parts, i));
        let found = choose|found: bool| #[trigger]
            lookup_answers(files[i], hash, found, parts[i]);
        law_lookup_reads_what_was_built(files[i], maps[i], headers[i], hash, found, parts[i]);
        assert(parts.take(n) =~= parts.take(i).push(parts[i]));
        parts.take(i).lemma_flatten_push(parts[i]);
        assert(maps.take(n).drop_last() =~= maps.take(i));
        assert(maps.take(n).last() == maps[i]);
        if !found {
            assert(parts[i] =~= Seq::<Posting>::empty());
        }
    }
}

/// Segment `i` answers the hash with a list that holds the posting.
pub open spec fn segment_lists(files: Seq<Seq<u8>>, i: int, hash: u32, p: Posting) -> bool {
    exists|found: bool, part: Seq<Posting>| #[trigger]
        lookup_answers(files[i], hash, found, part) && part.contains(p)
}

/// A catalog answers with what its segments answer, all of them: a posting is
/// in the answer exactly if some segment has it.
pub proof fn law_catalogs_ask_every_segment(
    files: Seq<Seq<u8>>,
    hash: u32,
    out: Seq<Posting>,
    p: Posting,
)
    requires
        catalog_answers(files, hash, out),
    ensures
        out.contains(p) <==> exists|i: int|
            0 <= i < files.len() && #[trigger] segment_lists(files, i, hash, p),
{
    let parts = choose|parts: Seq<Seq<Posting>>|
        {
            &&& parts.len() == files.len()
            &&& out == #[trigger] parts.flatten()
            &&& forall|i: int|
                0 <= i < files.len() ==> #[trigger] part_answers(files, hash, parts, i)
        };
    lemma_flat_contains(parts, p);
    if out.contains(p) {
        let i = choose|i: int| 0 <= i < parts.len() && (#[trigger] parts[i]).contains(p);
        assert(part_answers(files, hash, parts, i));
        let f = choose|f: bool| #[trigger] lookup_answers(files[i], hash, f, parts[i]);
        assert(lookup_answers(files[i], hash, f, parts[i]) && parts[i].contains(p));
        assert(segment_lists(files, i, hash, p));
    }
    if exists|i: int| 0 <= i < files.len() && #[trigger] segment_lists(files, i, hash, p) {
        let i = choose|i: int| 0 <= i < files.len() && #[trigger] segment_lists(files, i, hash, p);
        let (found, part) = choose|found: bool, part: Seq<Posting>| #[trigger]
            lookup_answers(files[i], hash, found, part) && part.contains(p);
        assert(part_answers(files, hash, parts, i));
        let f = choose|f: bool| #[trigger] lookup_answers(files[i], hash, f, parts[i]);
        assert(part =~= parts[i]);
        assert(parts[i].contains(p));
    }
}

/// A flattened sequence holds what its parts hold.
proof fn lemma_flat_contains(parts: Seq<Seq<Posting>>, p: Posting)
    ensures
        parts.flatten().contains(p) <==> exists|i: int|
            0 <= i < parts.len() && (#[trigger] parts[i]).contains(p),
    decreases parts.len(),
{
    if parts.len() == 0 {
        assert(parts.flatten() =~= Seq::<Posting>::empty());
    } else {
        let rest = parts.drop_last();
        let last = parts.last();
        lemma_flat_contains(rest, p);
        assert(parts =~= rest.push(last));
        rest.lemma_flatten_push(last);
        let flat = rest.flatten();
        if flat.contains(p) {
            let i = choose|i: int| 0 <= i < rest.len() && (#[trigger] rest[i]).contains(p);
            assert(parts[i] == rest[i]);
            assert((flat + last)[flat.index_of(p)] == p);
        }
        if last.contains(p) {
            assert(parts[parts.len() - 1].contains(p));
            assert((flat + last)[flat.len() + last.index_of(p)] == p);
        }
        if (flat + last).contains(p) {
            let k = (flat + last).index_of(p);
            if k < flat.len() {
                assert(flat[k] == p);
            } else {
                assert(last[k - flat.len()] == p);
            }
        }
        if exists|i: int| 0 <= i < parts.len() && (#[trigger] parts[i]).contains(p) {
            let i = choose|i: int| 0 <= i < parts.len() && (#[trigger] parts[i]).contains(p);
            if i < rest.len() {
                assert(rest[i].contains(p));
            }
        }
    }
}

/// A segment can serve in a catalog exactly if it opens and is of the format
/// that the manifest claims, major and minor.
pub proof fn law_segments_must_be_of_the_claimed_format(
    b: Seq<u8>,
    claimed: FingerprintVersion,
)
    ensures
        segment_fault(b, claimed) is None <==> open_outcome(b) is Ok && open_outcome(
            b,
        )->Ok_0.fingerprint_version.major == claimed.major && open_outcome(
            b,
        )->Ok_0.fingerprint_version.minor == claimed.minor,
        open_outcome(b) is Err ==> segment_fault(b, claimed) == Some(open_outcome(b)->Err_0),
        open_outcome(b) is Ok && segment_fault(b, claimed) is Some ==> segment_fault(b, claimed)
            == Some(
            OpenError::VersionMismatch {
                segment: open_outcome(b)->Ok_0.fingerprint_version,
                manifest: claimed,
            },
        ),
{
}

} // verus!
