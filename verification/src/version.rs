//! Engine and fingerprint format versioning.
//!
//! Every fingerprint stream carries these markers so recognition results stay
//! interpretable across catalog rebuilds and platform changes.
use vstd::prelude::*;

verus! {

/// Monotonic fingerprint format version.
///
/// `major` changes when fingerprints cannot be matched against an existing
/// index; `minor` changes for compatible revisions.
#[derive(Debug, Clone, Copy, PartialEq, Eq, PartialOrd, Ord, Structural)]
pub struct FingerprintVersion {
    pub major: u16,
    pub minor: u16,
}

impl FingerprintVersion {
    pub fn new(major: u16, minor: u16) -> (v: Self)
        ensures
            v.major == major,
            v.minor == minor,
    {
        FingerprintVersion { major, minor }
    }

    /// Format of the first-generation engine: 28-bit hashes
    /// `(f1:10, f2:10, dt:8)`.
    pub fn legacy() -> (v: Self)
        ensures
            v.major == 0,
            v.minor == 1,
    {
        FingerprintVersion { major: 0, minor: 1 }
    }

    /// Format of the landmark engine: 32-bit hashes `(f1:12, f2:12, dt:8)`
    /// over logarithmic bands.
    pub fn landmark_v2_32bit() -> (v: Self)
        ensures
            v.major == 1,
            v.minor == 0,
    {
        FingerprintVersion { major: 1, minor: 0 }
    }
}

/// Identifier of the engine that produced a fingerprint stream.
#[derive(Debug, Clone, Copy, PartialEq, Eq, Hash, Structural)]
pub enum EngineId {
    /// First-generation control engine.
    Legacy,
    /// Streaming landmark engine.
    LandmarkV2,
    /// Scale-invariant triplets.
    InvariantTriplets,
    /// Geometric quads.
    InvariantQuads,
}

/// The stable name of an engine.
pub open spec fn engine_name(engine: EngineId) -> Seq<char> {
    match engine {
        EngineId::Legacy => "legacy"@,
        EngineId::LandmarkV2 => "landmark-v2"@,
        EngineId::InvariantTriplets => "invariant-b1-triplets"@,
        EngineId::InvariantQuads => "invariant-b2-quads"@,
    }
}

impl EngineId {
    pub fn as_str(self) -> (name: &'static str)
        ensures
            name@ == engine_name(self),
    {
        match self {
            EngineId::Legacy => "legacy",
            EngineId::LandmarkV2 => "landmark-v2",
            EngineId::InvariantTriplets => "invariant-b1-triplets",
            EngineId::InvariantQuads => "invariant-b2-quads",
        }
    }
}

/// The version an engine produces.
pub open spec fn version_of(engine: EngineId) -> FingerprintVersion {
    match engine {
        EngineId::Legacy => FingerprintVersion { major: 0, minor: 1 },
        EngineId::LandmarkV2 => FingerprintVersion { major: 1, minor: 0 },
        EngineId::InvariantTriplets => FingerprintVersion { major: 2, minor: 0 },
        EngineId::InvariantQuads => FingerprintVersion { major: 2, minor: 0 },
    }
}

/// The fingerprint version produced for a given engine. Major boundaries
/// separate mutually unmatchable formats.
pub fn current_fingerprint_version(engine: EngineId) -> (v: FingerprintVersion)
    ensures
        v == version_of(engine),
{
    match engine {
        EngineId::Legacy => FingerprintVersion::legacy(),
        EngineId::LandmarkV2 => FingerprintVersion::landmark_v2_32bit(),
        EngineId::InvariantTriplets => FingerprintVersion::new(2, 0),
        EngineId::InvariantQuads => FingerprintVersion::new(2, 0),
    }
}

/// The two published formats never mix: their major versions differ.
pub proof fn law_published_formats_are_separate()
    ensures
        version_of(EngineId::Legacy).major != version_of(EngineId::LandmarkV2).major,
        version_of(EngineId::LandmarkV2).major != version_of(EngineId::InvariantTriplets).major,
{
}

/// The names and versions under which the engines are published.
pub proof fn law_engines_are_published()
    ensures
        engine_name(EngineId::Legacy) == "legacy"@,
        engine_name(EngineId::LandmarkV2) == "landmark-v2"@,
        engine_name(EngineId::InvariantTriplets) == "invariant-b1-triplets"@,
        engine_name(EngineId::InvariantQuads) == "invariant-b2-quads"@,
        version_of(EngineId::Legacy) == (FingerprintVersion { major: 0, minor: 1 }),
        version_of(EngineId::LandmarkV2) == (FingerprintVersion { major: 1, minor: 0 }),
        version_of(EngineId::InvariantTriplets) == (FingerprintVersion { major: 2, minor: 0 }),
        version_of(EngineId::InvariantQuads) == (FingerprintVersion { major: 2, minor: 0 }),
{
}

} // verus!
