use sivana::ids::RecordingId;
use sivana::manifest::{Catalog, Manifest};
use sivana::posting_store::{append_to_value, fingerprint_version_note, read_value, recording_lists};
use sivana::rng::XorShift64Star;
use sivana::segment::{
    body_checksum, pack_posting, unpack_posting, OpenError, Posting, SegmentBuilder, SivSegment,
};
use sivana::sfp::decode_sfp_batch;
use sivana::version::FingerprintVersion;
use std::collections::{BTreeMap, BTreeSet, HashMap};

fn next_f32(rng: &mut XorShift64Star) -> f32 {
    rng.next_u24() as f32 / (1u32 << 24) as f32
}

fn build(b: &mut SegmentBuilder, v: FingerprintVersion) -> Vec<u8> {
    b.build(v).0
}

fn open(bytes: Vec<u8>) -> SivSegment {
    let seg = SivSegment::open(bytes).unwrap();
    assert!(seg.has_valid_directory());
    seg
}

#[test]
fn roundtrip_matches_hash_map_oracle() {
    let mut rng = XorShift64Star::new(2024);
    let mut b = SegmentBuilder::new();
    let mut oracle: HashMap<u32, Vec<Posting>> = HashMap::new();
    for rec in 0..8u32 {
        let fps: Vec<(u32, u32)> = (0..500)
            .map(|_| ((next_f32(&mut rng) * 1e9) as u32, (next_f32(&mut rng) * 20_000.0) as u32))
            .collect();
        b.add_recording(RecordingId::new(rec), &fps);
        for (h, t) in &fps {
            oracle
                .entry(*h)
                .or_default()
                .push(Posting { recording: RecordingId::new(rec), anchor_time: *t });
        }
    }

    let (bytes, stats) = b.build(FingerprintVersion::landmark_v2_32bit());
    assert_eq!(stats.hashes, oracle.len());
    assert_eq!(stats.postings, 4000);

    let seg = open(bytes);
    assert_eq!(seg.header().fingerprint_version, FingerprintVersion::landmark_v2_32bit());
    assert_eq!(seg.header().recording_count, 8);

    let mut out = Vec::new();
    for (&h, want) in &oracle {
        assert!(seg.lookup(h, &mut out), "hash {h} missing");
        let mut got: Vec<(u32, u32)> = out
            .iter()
            .map(|p| (p.recording.as_u32(), p.anchor_time))
            .collect();
        got.sort_unstable();
        let mut want: Vec<(u32, u32)> = want
            .iter()
            .map(|p| (p.recording.as_u32(), p.anchor_time))
            .collect();
        want.sort_unstable();
        want.dedup();
        assert_eq!(got, want, "postings mismatch for hash {h}");
    }
    assert!(!seg.lookup(u32::MAX - 1, &mut out));
}

#[test]
fn postings_are_packed_little_endian() {
    let packed = pack_posting(RecordingId::new(0x0403_0201), 0x0C_0B0A, 7);
    assert_eq!(packed, [1, 2, 3, 4, 0x0A, 0x0B, 0x0C, 7]);
    let p = unpack_posting(&packed, 0);
    assert_eq!((p.recording.as_u32(), p.anchor_time), (0x0403_0201, 0x0C_0B0A));
}

#[test]
fn repeated_postings_are_stored_and_counted_once() {
    let mut b = SegmentBuilder::new();
    b.add_recording(RecordingId::new(0), &[(1, 5), (1, 5)]);
    let (bytes, stats) = b.build(FingerprintVersion::legacy());
    assert_eq!((stats.recordings, stats.hashes, stats.postings), (1, 1, 1));
    assert_eq!(stats.bytes, 524_360);
    assert_eq!(bytes.len(), 524_360);
    assert_eq!(open(bytes).header().posting_count, 1);
}

#[test]
fn empty_buckets_and_extreme_hashes() {
    let mut b = SegmentBuilder::new();
    let cases: [(u32, u32); 5] = [
        (0x0000_0001, 7),
        (0x0001_0000, 9),
        (0xFFFF_0002, 11),
        (0xFFFF_FFFF, 13),
        (0x8000_1234, 17),
    ];
    for (i, &(h, t)) in cases.iter().enumerate() {
        b.add_recording(RecordingId::new(i as u32), &[(h, t)]);
    }
    let seg = open(build(&mut b, FingerprintVersion::legacy()));

    let mut out = Vec::new();
    for (i, &(h, t)) in cases.iter().enumerate() {
        assert!(seg.lookup(h, &mut out), "extreme hash {h:#010x} missing");
        assert_eq!(out.len(), 1);
        assert_eq!(out[0].recording, RecordingId::new(i as u32));
        assert_eq!(out[0].anchor_time, t);
    }
    assert!(!seg.lookup(0xDEAD_BEEF, &mut out));
}

#[test]
fn document_frequency_counts_recordings() {
    let mut b = SegmentBuilder::new();
    b.add_recording(RecordingId::new(0), &[(42, 1), (42, 2)]);
    b.add_recording(RecordingId::new(1), &[(42, 3)]);
    b.add_recording(RecordingId::new(2), &[(43, 4)]);
    let seg = open(build(&mut b, FingerprintVersion::legacy()));
    assert_eq!(seg.document_frequency(42), Some(2));
    assert_eq!(seg.document_frequency(43), Some(1));
    assert_eq!(seg.document_frequency(999), None);
}

#[test]
fn corrupted_body_is_detected() {
    let mut b = SegmentBuilder::new();
    b.add_recording(RecordingId::new(0), &[(1, 2), (3, 4)]);
    let mut bytes = build(&mut b, FingerprintVersion::legacy());
    let last = bytes.len() - 1;
    bytes[last] ^= 0xFF;
    match SivSegment::open(bytes).err() {
        Some(OpenError::ChecksumMismatch { .. }) => {}
        other => panic!("expected checksum mismatch, got {other:?}"),
    }
}

#[test]
fn wrong_magic_and_version_rejected() {
    assert!(matches!(SivSegment::open(b"NOPE0000".to_vec()), Err(OpenError::BadMagic)));

    let mut b = SegmentBuilder::new();
    b.add_recording(RecordingId::new(0), &[(5, 5)]);
    let mut bytes = build(&mut b, FingerprintVersion::legacy());
    bytes[4..8].copy_from_slice(&99u32.to_le_bytes());
    let cs = body_checksum(&bytes);
    bytes[36..40].copy_from_slice(&cs.to_le_bytes());
    assert!(matches!(SivSegment::open(bytes), Err(OpenError::UnsupportedFormat(99))));
}

#[test]
fn segment_faults_are_named() {
    assert_eq!(OpenError::BadMagic.describe(), "not a .siv segment");
    assert_eq!(OpenError::UnsupportedFormat(99).describe(), "unsupported index format v99");
    assert_eq!(
        OpenError::ChecksumMismatch { expected: 0xDEAD_BEEF, found: 0x12 }.describe(),
        "corrupt segment: checksum 0x00000012, expected 0xdeadbeef"
    );
    assert_eq!(
        OpenError::VersionMismatch {
            segment: FingerprintVersion::new(0, 1),
            manifest: FingerprintVersion::new(1, 20),
        }
        .describe(),
        "fingerprint v0.1, manifest v1.20"
    );
}

#[test]
fn all_hashes_reconstructs_every_key() {
    let mut rng = XorShift64Star::new(31415);
    let mut b = SegmentBuilder::new();
    let mut expected = BTreeSet::new();
    for rec in 0..4u32 {
        let fps: Vec<(u32, u32)> = (0..300)
            .map(|_| {
                let h = (next_f32(&mut rng) * 1e9) as u32;
                expected.insert(h);
                (h, 5u32)
            })
            .collect();
        b.add_recording(RecordingId::new(rec), &fps);
    }
    let seg = open(build(&mut b, FingerprintVersion::legacy()));

    let got: BTreeSet<u32> = seg.all_hashes().into_iter().collect();
    assert_eq!(got, expected);

    let mut out = Vec::new();
    for &h in got.iter().take(100) {
        assert!(seg.lookup(h, &mut out), "hash {h:#010x} not resolvable");
    }
}

#[test]
fn multi_segment_catalog_unions_postings() {
    let mut b0 = SegmentBuilder::new();
    b0.add_recording(RecordingId::new(0), &[(77, 10)]);
    let s0 = build(&mut b0, FingerprintVersion::legacy());
    let mut b1 = SegmentBuilder::new();
    b1.add_recording(RecordingId::new(1), &[(77, 20)]);
    let s1 = build(&mut b1, FingerprintVersion::legacy());

    let m = Manifest::new(
        1,
        FingerprintVersion::legacy(),
        vec!["catalog-000001.siv".to_string(), "catalog-000002.siv".to_string()],
    );
    let cat = Catalog::open(m, vec![s0, s1]).unwrap();
    assert_eq!(cat.manifest.catalog_version, 1);
    assert!(cat.has_valid_directories());
    let mut out = Vec::new();
    cat.lookup(77, &mut out);
    assert_eq!(out.len(), 2);
    assert!(out.contains(&Posting { recording: RecordingId::new(0), anchor_time: 10 }));
    assert!(out.contains(&Posting { recording: RecordingId::new(1), anchor_time: 20 }));
}

#[test]
fn rollback_restores_previous_catalog() {
    let mut b = SegmentBuilder::new();
    b.add_recording(RecordingId::new(0), &[(5, 5)]);
    let s0 = build(&mut b, FingerprintVersion::legacy());
    let mut b2 = SegmentBuilder::new();
    b2.add_recording(RecordingId::new(1), &[(6, 6)]);
    let s1 = build(&mut b2, FingerprintVersion::legacy());
    let first = "catalog-000001.siv".to_string();
    let second = "catalog-000002.siv".to_string();
    let new_manifest = Manifest::new(2, FingerprintVersion::legacy(), vec![first.clone(), second]);
    let new = Catalog::open(new_manifest, vec![s0.clone(), s1]).unwrap();
    assert_eq!(new.segments.len(), 2);

    let old = Manifest::new(1, FingerprintVersion::legacy(), vec![first]);
    let rolled = Catalog::open(old, vec![s0]).unwrap();
    assert_eq!(rolled.segments.len(), 1);
    assert_eq!(rolled.manifest.catalog_version, 1);
}

#[test]
fn version_mismatch_between_manifest_and_segment_fails() {
    let mut b = SegmentBuilder::new();
    b.add_recording(RecordingId::new(0), &[(9, 9)]);
    let s0 = build(&mut b, FingerprintVersion::legacy());
    let m = Manifest::new(1, FingerprintVersion::landmark_v2_32bit(), vec!["seg.siv".to_string()]);
    assert!(Catalog::open(m, vec![s0]).is_err());
}

struct Rng(u64);

impl Rng {
    fn next(&mut self) -> u64 {
        let mut x = self.0;
        x ^= x << 13;
        x ^= x >> 7;
        x ^= x << 17;
        self.0 = x;
        x
    }

    fn below(&mut self, n: usize) -> usize {
        (self.next() % n.max(1) as u64) as usize
    }
}

#[test]
fn siv_segment_never_panics_on_garbage() {
    let mut builder = SegmentBuilder::new();
    for rec in 0..2u32 {
        let fps: Vec<(u32, u32)> = (0..500).map(|i| (rec * 10_000 + i, i)).collect();
        builder.add_recording(RecordingId::new(rec), &fps);
    }
    let good = build(&mut builder, FingerprintVersion::new(1, 0));

    let mut rng = Rng(0xDEADBEEF);
    for round in 0..2_000 {
        let mut bytes = good.clone();
        match round % 6 {
            0 => bytes.truncate(rng.below(bytes.len() + 1)),
            1 if bytes.len() > 36 => {
                let off = 12 + rng.below(24);
                bytes[off] = 0xFF;
            }
            2 => {
                let at = round % bytes.len();
                bytes[at] ^= 0xA5;
            }
            3 if bytes.len() > 40 => {
                bytes[36 + rng.below(4)] ^= 0x01;
            }
            4 => {
                let at = rng.below(bytes.len());
                bytes[at] = (rng.next() & 0xFF) as u8;
            }
            _ => bytes.truncate(round % 48),
        }
        let _ = SivSegment::open(bytes);
    }

    let seg = open(good);
    let mut out = Vec::new();
    let mut rng = Rng(42);
    for _ in 0..5_000 {
        let hash = rng.next() as u32;
        let _ = seg.lookup(hash, &mut out);
    }
}

#[test]
fn sfp1_decoder_contract_on_garbage() {
    let mut rng = Rng(7);

    let mut good = Vec::new();
    good.extend_from_slice(b"SFP1");
    good.extend_from_slice(&[0u8; 4]);
    good.extend_from_slice(&22_050_u32.to_le_bytes());
    good.extend_from_slice(&64_u32.to_le_bytes());
    for i in 0..64u32 {
        good.extend_from_slice(&(1000 + i).to_le_bytes());
        good.extend_from_slice(&i.to_le_bytes());
    }
    assert_eq!(decode_sfp_batch(&good).map(|(_, f)| f.len()), Some(64));

    let mut liar = good.clone();
    liar[12..16].copy_from_slice(&u32::MAX.to_le_bytes());
    assert!(decode_sfp_batch(&liar).is_none());

    for cut in 0..good.len() {
        let decoded = decode_sfp_batch(&good[..cut]);
        assert!(
            decoded.is_none() || decoded.as_ref().unwrap().1.len() == 64,
            "truncated batch at {cut} decoded with wrong count"
        );
    }

    for _ in 0..2_000 {
        let mut bytes = good.clone();
        let flips = 1 + rng.below(8);
        for _ in 0..flips {
            let at = rng.below(bytes.len());
            bytes[at] = (rng.next() & 0xFF) as u8;
        }
        if let Some((_, fps)) = decode_sfp_batch(&bytes) {
            assert_eq!(
                fps.len(),
                (u32::from_le_bytes(bytes[12..16].try_into().unwrap())) as usize
            );
        }
    }

    assert!(decode_sfp_batch(b"").is_none());
    assert!(decode_sfp_batch(&[0u8; 15]).is_none());
    assert!(decode_sfp_batch(b"SFP2").is_none());
}

/// A store of values in memory.
fn add(store: &mut BTreeMap<u32, Vec<u8>>, recording: RecordingId, fps: &[(u32, u32)]) {
    for list in recording_lists(recording, fps) {
        let old = store.get(&list.hash).cloned().unwrap_or_default();
        store.insert(list.hash, append_to_value(&old, &list.postings));
    }
}

#[test]
fn lmdb_roundtrip_and_merge() {
    let mut store = BTreeMap::new();
    add(&mut store, RecordingId::new(0), &[(42, 10)]);
    add(&mut store, RecordingId::new(1), &[(42, 20), (43, 5)]);
    assert_eq!(
        read_value(&store[&42]),
        vec![
            Posting { recording: RecordingId::new(0), anchor_time: 10 },
            Posting { recording: RecordingId::new(1), anchor_time: 20 },
        ]
    );
    assert_eq!(read_value(&store[&43]).len(), 1);
    assert!(!store.contains_key(&99));
}

#[test]
fn values_grow_by_the_postings_of_each_recording() {
    let mut store = BTreeMap::new();
    let mut want: BTreeMap<u32, Vec<Posting>> = BTreeMap::new();
    let calls: [(u32, &[(u32, u32)]); 3] =
        [(3, &[(9, 1), (8, 2), (9, 0x0200_0007)]), (1, &[(9, 4)]), (3, &[(7, 5)])];
    for (recording, fps) in calls {
        let recording = RecordingId::new(recording);
        add(&mut store, recording, fps);
        for &(hash, anchor) in fps {
            let anchor_time = anchor & 0xFF_FFFF;
            want.entry(hash).or_default().push(Posting { recording, anchor_time });
        }
        let got: BTreeMap<u32, Vec<Posting>> =
            store.iter().map(|(h, v)| (*h, read_value(v))).collect();
        assert_eq!(got, want);
    }
}

#[test]
fn every_fingerprint_of_a_hash_is_stored() {
    let mut store = BTreeMap::new();
    add(&mut store, RecordingId::new(7), &[(42, 10), (1, 2), (42, 0x0100_0003)]);
    let times: Vec<u32> = read_value(&store[&42]).iter().map(|p| p.anchor_time).collect();
    assert_eq!(times, vec![10, 3]);
    assert_eq!(store.keys().copied().collect::<Vec<_>>(), vec![1, 42]);
    assert_eq!(fingerprint_version_note(), FingerprintVersion::landmark_v2_32bit());
}
