use sivana::ingest::{
    compact, exclusion_patterns, has_pattern, is_audio_name, is_excluded, is_unreferenced,
    segment_name, source_digest, CatalogState, IngestRun, RecordingMetadata, TARGET_SAMPLE_RATE,
};
use sivana::ids::RecordingId;
use sivana::landmark::Fingerprint32;
use sivana::manifest::{Catalog, Manifest};
use sivana::segment::{body_checksum, SegmentBuilder, SivSegment, ENTRIES_BASE};
use sivana::sfp::decode_sfp_batch;
use sivana::version::FingerprintVersion;
use std::collections::HashMap;

fn prints(salt: u32) -> Vec<Fingerprint32> {
    (0..300)
        .map(|i| Fingerprint32 { hash: (salt * 31 + i * 7) % 1000, anchor_time: i })
        .collect()
}

struct Disk {
    state: CatalogState,
    metas: HashMap<u32, RecordingMetadata>,
    segments: Vec<Vec<u8>>,
    manifest: Option<Manifest>,
    sidecars: HashMap<u32, Vec<u8>>,
}

fn empty() -> Disk {
    Disk {
        state: CatalogState::new(),
        metas: HashMap::new(),
        segments: vec![],
        manifest: None,
        sidecars: HashMap::new(),
    }
}

/// One run over sources given by their bytes.
fn run(disk: Disk, sources: &[(&[u8], u32)]) -> (Disk, IngestRun) {
    let mut disk = disk;
    let state = std::mem::replace(&mut disk.state, CatalogState::new());
    let metas = std::mem::take(&mut disk.metas);
    let mut r = IngestRun::begin(state, metas);
    let mut todo = Vec::new();
    for &(bytes, salt) in sources {
        let d = source_digest(bytes);
        if r.offer(&d, None) {
            todo.push((d, salt));
        }
    }
    for (d, salt) in todo {
        if let Some(f) = r.complete(d, &prints(salt), format!("song-{salt}"), None) {
            disk.sidecars.insert(f.recording, f.bytes);
        }
    }
    let existing = disk.manifest.as_ref().map(|m| m.segments.clone()).unwrap_or_default();
    let version = disk.manifest.as_ref().map(|m| m.catalog_version);
    if let Some(new) = r.finish(existing, version) {
        disk.segments.push(new.bytes);
        disk.manifest = Some(new.manifest);
    }
    (disk, r)
}

#[test]
fn ingest_is_idempotent_and_compaction_preserves_lookups() {
    let files: [(&[u8], u32); 3] = [(b"one", 1), (b"two", 2), (b"three", 3)];
    let (disk, stats) = run(empty(), &files);
    assert_eq!(stats.stats.added.len(), 3);
    assert_eq!(stats.stats.skipped, 0);
    assert!(stats.stats.segment.is_some());
    assert_eq!(stats.stats.postings, 900);

    let mut disk = disk;
    disk.state = stats.state;
    disk.metas = stats.metas;
    let (disk, again) = run(disk, &files);
    assert_eq!(again.stats.added.len(), 0);
    assert_eq!(again.stats.skipped, 3);
    assert_eq!(again.stats.existing, vec![0, 1, 2]);
    assert!(again.stats.segment.is_none());
    assert_eq!(disk.manifest.as_ref().unwrap().segments.len(), 1);

    assert!(disk.sidecars.contains_key(&0));

    // One more source makes a second segment, and compaction one of both.
    let mut disk = disk;
    disk.state = again.state;
    disk.metas = again.metas;
    let (disk, more) = run(disk, &[(b"four", 4)]);
    assert_eq!(more.stats.added, vec![3]);
    let names = disk.manifest.as_ref().unwrap().segments.clone();
    assert_eq!(names, vec!["catalog-000001.siv", "catalog-000002.siv"]);
    let catalog = Catalog::open(disk.manifest.unwrap(), disk.segments.clone()).unwrap();
    assert!(catalog.has_valid_directories());

    let merged = compact(&catalog).unwrap();
    assert_eq!(merged.manifest.segments, vec!["catalog-000001.siv"]);
    assert_eq!(merged.manifest.catalog_version, 3);
    let seg = SivSegment::open(merged.bytes).unwrap();
    assert!(seg.has_valid_directory());
    assert_eq!(seg.header().fingerprint_version, FingerprintVersion::landmark_v2_32bit());
    let (rate, fps) = decode_sfp_batch(&disk.sidecars[&0]).unwrap();
    assert_eq!(rate, TARGET_SAMPLE_RATE);
    assert!(!fps.is_empty());
    let mut out = Vec::new();
    let mut resolved = 0;
    for (h, _) in fps.iter().take(200) {
        if seg.lookup(*h, &mut out) {
            assert!(out.iter().any(|p| p.recording.as_u32() == 0));
            resolved += 1;
        }
    }
    assert!(resolved > 100, "compaction lost postings: {resolved}/200 resolved");

    let mut before = Vec::new();
    for h in 0..1100 {
        catalog.lookup(h, &mut before);
        let found = seg.lookup(h, &mut out);
        assert_eq!(found, !before.is_empty());
        let mut want: Vec<(u32, u32)> =
            before.iter().map(|p| (p.recording.as_u32(), p.anchor_time)).collect();
        want.sort();
        want.dedup();
        let got: Vec<(u32, u32)> =
            out.iter().map(|p| (p.recording.as_u32(), p.anchor_time)).collect();
        assert_eq!(got, want);
    }
}

#[test]
fn linked_metadata_is_persisted_and_updates_duplicates() {
    let metadata = |title: &str| RecordingMetadata {
        title: title.into(),
        artist: "An Artist".into(),
        artwork_url: Some("https://i.ytimg.com/cover.jpg".into()),
        source_url: Some("https://music.youtube.com/watch?v=abc123".into()),
        source_provider: Some("YouTube Music".into()),
    };
    let digest = source_digest(b"song");
    let mut first = IngestRun::begin(CatalogState::new(), HashMap::new());
    assert!(first.offer(&digest, Some(metadata("A Track"))));
    first.complete(digest.clone(), &prints(1), "song-0".into(), Some(metadata("A Track")));
    assert_eq!(first.stats.added, vec![0]);
    let saved = &first.metas[&0];
    assert_eq!(saved.title, "A Track");
    assert_eq!(saved.artist, "An Artist");
    assert_eq!(saved.artwork_url.as_deref(), Some("https://i.ytimg.com/cover.jpg"));

    let mut second = IngestRun::begin(first.state, first.metas);
    assert!(!second.offer(&digest, Some(metadata("A Track (Official Audio)"))));
    assert_eq!(second.stats.added.len(), 0);
    assert_eq!(second.stats.existing, vec![0]);
    assert_eq!(second.metas[&0].title, "A Track (Official Audio)");
    assert_eq!(second.metas[&0].source_provider.as_deref(), Some("YouTube Music"));
    assert!(second.finish(vec![], None).is_none());
}

#[test]
fn a_second_run_changes_nothing_but_given_metadata() {
    let files: [(&[u8], u32); 2] = [(b"one", 1), (b"two", 2)];
    let (_, first) = run(empty(), &files);
    let (state, metas) = (first.state, first.metas);
    let before: Vec<(String, u32)> =
        state.sources.iter().map(|s| (s.digest.clone(), s.recording)).collect();
    let mut again = IngestRun::begin(state, metas);
    let title = |t: &str| RecordingMetadata {
        title: t.to_string(),
        artist: "A".to_string(),
        artwork_url: None,
        source_url: None,
        source_provider: None,
    };
    assert!(!again.offer(&source_digest(b"two"), Some(title("new"))));
    assert!(!again.offer(&source_digest(b"one"), None));
    assert!(again.finish(vec!["catalog-000001.siv".to_string()], Some(1)).is_none());
    assert!(again.stats.added.is_empty() && again.stats.failed.is_empty());
    assert_eq!((again.stats.skipped, again.stats.existing.as_slice()), (2, &[1, 0][..]));
    assert_eq!((again.stats.segment.is_none(), again.stats.postings), (true, 0));
    let after: Vec<(String, u32)> =
        again.state.sources.iter().map(|s| (s.digest.clone(), s.recording)).collect();
    assert_eq!(before, after);
    assert_eq!(again.metas[&1].title, "new");
    assert_eq!(again.metas[&0].title, "song-1");
}

#[test]
fn a_source_that_comes_twice_is_added_once() {
    let digest = source_digest(b"same");
    let mut r = IngestRun::begin(CatalogState::new(), HashMap::new());
    assert!(r.offer(&digest, None));
    assert!(r.offer(&digest, None));
    assert!(r.complete(digest.clone(), &prints(1), "a".into(), None).is_some());
    assert!(r.complete(digest, &prints(1), "b".into(), None).is_none());
    r.fail("c.mp3".into(), "no audio decoded".into());
    assert_eq!(r.stats.added, vec![0]);
    assert_eq!(r.stats.skipped, 1);
    assert_eq!(r.stats.failed, vec![("c.mp3".to_string(), "no audio decoded".to_string())]);
    assert_eq!(r.metas[&0].title, "a");
    assert_eq!(r.metas[&0].artist, "Unknown artist");
    assert_eq!(r.state.next_recording_id, 1);
    let new = r.finish(vec!["x.siv".into()], Some(7)).unwrap();
    assert_eq!(new.name, "catalog-000002.siv");
    assert_eq!(new.manifest.catalog_version, 8);
    assert_eq!(new.manifest.segments, vec!["x.siv", "catalog-000002.siv"]);
}

#[test]
fn a_repeated_source_updates_its_metadata() {
    let metadata = |title: &str| RecordingMetadata {
        title: title.into(),
        artist: "An Artist".into(),
        artwork_url: None,
        source_url: None,
        source_provider: None,
    };
    let digest = source_digest(b"same");
    let mut r = IngestRun::begin(CatalogState::new(), HashMap::new());
    r.complete(source_digest(b"other"), &prints(2), "other".into(), None);
    assert!(r.complete(digest.clone(), &prints(1), "a".into(), Some(metadata("A"))).is_some());
    assert!(r.complete(digest.clone(), &prints(1), "b".into(), Some(metadata("B"))).is_none());
    assert_eq!(r.metas[&1].title, "B");
    assert!(r.complete(digest, &prints(1), "c".into(), None).is_none());
    assert_eq!(r.metas[&1].title, "B");
    assert_eq!(r.metas[&0].title, "other");
    assert_eq!(r.stats.added, vec![0, 1]);
    assert_eq!(r.stats.skipped, 2);
}

/// A bucket whose entries are out of order hides some of them from lookups;
/// compaction neither loses nor uncovers anything.
#[test]
fn compaction_keeps_the_lookups_of_a_disordered_segment() {
    let mut b = SegmentBuilder::new();
    b.add_recording(RecordingId::new(4), &[(1, 10), (2, 20), (3, 30), (4, 40), (5, 50)]);
    let mut bytes = b.build(FingerprintVersion::landmark_v2_32bit()).0;
    let base = ENTRIES_BASE;
    bytes[base] = 5;
    bytes[base + 48] = 1;
    let sum = body_checksum(&bytes).to_le_bytes();
    bytes[36..40].copy_from_slice(&sum);
    let manifest = Manifest::new(
        6,
        FingerprintVersion::landmark_v2_32bit(),
        vec!["catalog-000001.siv".into()],
    );
    let catalog = Catalog::open(manifest, vec![bytes]).unwrap();
    assert!(catalog.has_valid_directories());
    let merged = compact(&catalog).unwrap();
    assert_eq!(merged.total_hashes, 5);
    assert_eq!(merged.manifest.catalog_version, 7);
    let seg = SivSegment::open(merged.bytes).unwrap();
    let (mut before, mut after) = (Vec::new(), Vec::new());
    for h in 0..7 {
        catalog.lookup(h, &mut before);
        let found = seg.lookup(h, &mut after);
        assert_eq!(found, (2..4).contains(&h));
        assert_eq!(before, after);
    }
}

#[test]
fn sources_are_named_by_their_digest() {
    assert_eq!(
        source_digest(b"abc"),
        "ba7816bf8f01cfea414140de5dae2223b00361a396177a9cb410ff61f20015ad"
    );
    assert_eq!(
        source_digest(b""),
        "e3b0c44298fc1c149afbf4c8996fb92427ae41e4649b934ca495991b7852b855"
    );
}

#[test]
fn names_decide_what_is_kept_and_taken() {
    assert_eq!(segment_name(1), "catalog-000001.siv");
    assert_eq!(segment_name(1_234_567), "catalog-1234567.siv");
    let keep = vec!["catalog-000001.siv".to_string()];
    assert!(is_unreferenced(&"catalog-000002.siv".to_string(), &keep));
    assert!(!is_unreferenced(&"catalog-000001.siv".to_string(), &keep));
    assert!(!is_unreferenced(&"sources.json".to_string(), &keep));
    assert!(!is_unreferenced(&".siv".to_string(), &keep));
    assert!(!is_unreferenced(&"..".to_string(), &keep));
    assert!(is_audio_name("a.b.MP3"));
    assert!(is_audio_name("x.flac"));
    assert!(!is_audio_name("x.txt"));
    assert!(!is_audio_name(".mp3"));
    assert!(!is_audio_name("mp3"));
}

#[test]
fn exclusions_ignore_case() {
    let patterns = exclusion_patterns(" WIP , ,Demo");
    assert_eq!(patterns, vec!["wip", "demo"]);
    assert!(is_excluded("My wip take.mp3", &patterns));
    assert!(is_excluded("DEMO.mp3", &patterns));
    assert!(!is_excluded("final.mp3", &patterns));
    assert!(!is_excluded("final.mp3", &exclusion_patterns("")));
    // A sigma at the end of a word has a lowercase of its own.
    assert_eq!(exclusion_patterns("\u{39f}\u{3a3}"), vec!["\u{3bf}\u{3c2}"]);
    assert!(has_pattern("abc", &vec!["b".to_string()]));
    assert!(!has_pattern("abc", &vec!["d".to_string()]));
}
