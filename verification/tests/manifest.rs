use roaring::RoaringBitmap;
use roaringrange::error::{BuildError, IndexError};
use roaringrange::splitset::{
    BodyKind, Policy, SplitSet, FLAG_BLOOM, FLAG_CASE_SENSITIVE, FLAG_TOMBSTONES, HEADER_SIZE,
    SPLIT_FLAG_ABSOLUTE_IDS, SPLIT_FLAG_HAS_TOMBSTONE, SUMMARY_TAG_BLOOM, SUMMARY_TAG_FACET,
    SUMMARY_TAG_TOMBSTONE,
};
use roaringrange::splitset_build::{write_splitset, SortColSpec, SplitSetConfig, SplitSpec};
use roaringrange::tlv::{find_tlv, tlv_record};

/// A split spec with the common fields filled and no summary.
fn spec(name: &str, tier: u16, lo: u32, hi: u32, bytes: u64) -> SplitSpec {
    SplitSpec {
        data_file: name.to_string(),
        tier,
        doc_count: hi - lo + 1,
        doc_id_lo: lo,
        doc_id_hi: hi,
        epoch: 0,
        byte_size: bytes,
        flags: 0,
        summary: Vec::new(),
    }
}

/// Opens a manifest by its two reads: the header, then the body that it declares.
fn open(buf: &[u8]) -> Result<SplitSet, IndexError> {
    let header = &buf[..HEADER_SIZE];
    let len = SplitSet::body_len(header)?;
    let rest = &buf[HEADER_SIZE..];
    SplitSet::parse(header, &rest[..len.min(rest.len())])
}

/// Builds an in-memory `.rrss` over `splits` and opens it.
fn build(splits: &[SplitSpec], config: &SplitSetConfig) -> SplitSet {
    open(&write_splitset(splits, config).unwrap()).unwrap()
}

fn tiered(base_count: u32, tier_count: u16) -> SplitSetConfig {
    SplitSetConfig {
        policy: Policy::Tiered,
        tier_count,
        base_count,
        byte_cap: 32 << 20,
        gram_size: 3,
        body_kind: BodyKind::Trigram,
        sortcol: None,
        flags: 0,
    }
}

#[test]
fn round_trips_tiered_splits() {
    // Two tiers: tier 0 holds the top-cited docs (low ids), tier 1 the next band.
    let splits = vec![
        spec("corpus-s00000.rrs", 0, 0, 65_535, 30 << 20),
        spec("corpus-s00001.rrs", 1, 65_536, 200_000, 28 << 20),
        spec("corpus-s00002.rrs", 1, 200_001, 350_000, 25 << 20),
    ];
    let ss = build(&splits, &tiered(3, 2));

    assert_eq!(ss.policy(), Policy::Tiered);
    assert_eq!(ss.tier_count(), 2);
    assert_eq!(ss.base_count(), 3);
    assert_eq!(ss.byte_cap(), 32 << 20);
    assert!(ss.sortcol().is_none());
    assert_eq!(ss.splits().len(), 3);
    assert_eq!(ss.delta_splits().len(), 0);

    let names: Vec<&str> = ss.splits().iter().map(|s| s.data_file.as_str()).collect();
    assert_eq!(
        names,
        vec![
            "corpus-s00000.rrs",
            "corpus-s00001.rrs",
            "corpus-s00002.rrs"
        ]
    );
    let s1 = &ss.splits()[1];
    assert_eq!(s1.tier, 1);
    assert_eq!(s1.doc_id_lo, 65_536);
    assert_eq!(s1.doc_id_hi, 200_000);
    assert_eq!(s1.doc_count, 200_000 - 65_536 + 1);
    assert_eq!(s1.byte_size, 28 << 20);
    assert!(!s1.has_tombstone());
    assert_eq!(ss.total_byte_size(), (30 + 28 + 25) << 20);
}

#[test]
fn round_trips_stable_key_with_sortcol() {
    let config = SplitSetConfig {
        policy: Policy::StableKey,
        tier_count: 0,
        base_count: 2,
        byte_cap: 16 << 20,
        gram_size: 3,
        body_kind: BodyKind::Trigram,
        sortcol: Some(SortColSpec {
            name: "corpus.rrsc".to_string(),
            column: 3,
            descending: true,
        }),
        flags: 0,
    };
    let splits = vec![
        spec("corpus-s00000.rrs", 0, 0, 99_999, 16 << 20),
        spec("corpus-s00001.rrs", 0, 100_000, 180_000, 14 << 20),
    ];
    let ss = build(&splits, &config);

    assert_eq!(ss.policy(), Policy::StableKey);
    let sc = ss.sortcol().expect("sortcol descriptor present");
    assert_eq!(sc.name, "corpus.rrsc");
    assert_eq!(sc.column, 3);
    assert!(sc.descending);
}

#[test]
fn partitions_base_and_delta() {
    // Two base splits (tiered) + one ingest-ordered delta split in the high id range.
    let mut splits = vec![
        spec("base-s00000.rrs", 0, 0, 65_535, 30 << 20),
        spec("base-s00001.rrs", 1, 65_536, 250_000, 27 << 20),
    ];
    let mut delta = spec("delta-s00000.rrs", 0, 4_000_000_000, 4_000_010_000, 1 << 20);
    delta.epoch = 7;
    delta.flags = SPLIT_FLAG_HAS_TOMBSTONE;
    splits.push(delta);

    let ss = build(&splits, &tiered(2, 2));
    assert_eq!(ss.base_count(), 2);
    assert_eq!(ss.base_splits().len(), 2);
    assert_eq!(ss.delta_splits().len(), 1);

    let d = &ss.delta_splits()[0];
    assert_eq!(d.data_file, "delta-s00000.rrs");
    assert_eq!(d.epoch, 7);
    assert_eq!(d.doc_id_lo, 4_000_000_000);
    assert!(d.has_tombstone());
}

#[test]
fn summaries_round_trip_through_blob() {
    // One split carries opaque summary bytes (the reserved TLV region); the other none.
    let summary = vec![1u8, 4, 0, 0, 0, 0xde, 0xad, 0xbe, 0xef]; // tag=1,len=4,bytes
    let splits = vec![
        SplitSpec {
            summary: summary.clone(),
            ..spec("corpus-s00000.rrs", 0, 0, 65_535, 30 << 20)
        },
        spec("corpus-s00001.rrs", 1, 65_536, 130_000, 20 << 20),
    ];
    let mut config = tiered(2, 2);
    config.flags = FLAG_BLOOM;

    let ss = build(&splits, &config);
    assert_eq!(ss.flags() & FLAG_BLOOM, FLAG_BLOOM);
    assert_eq!(ss.summary(&ss.splits()[0]), Some(summary.as_slice()));
    assert_eq!(ss.summary(&ss.splits()[1]), None);
}

#[test]
fn empty_manifest_round_trips() {
    let ss = build(&[], &tiered(0, 0));
    assert!(ss.splits().is_empty());
    assert_eq!(ss.base_count(), 0);
    assert_eq!(ss.total_byte_size(), 0);
}

#[test]
fn rejects_bad_magic() {
    let bogus = vec![0u8; HEADER_SIZE];
    assert!(matches!(open(&bogus), Err(IndexError::BadMagic(_))));
}

#[test]
fn rejects_bad_version() {
    let splits = vec![spec("a.rrs", 0, 0, 1, 4)];
    let mut buf = write_splitset(&splits, &tiered(1, 1)).unwrap();
    buf[4..6].copy_from_slice(&999u16.to_le_bytes());
    assert!(matches!(open(&buf), Err(IndexError::BadVersion(999))));
}

#[test]
fn policy_round_trips_through_u8() {
    for p in [Policy::Tiered, Policy::StableKey] {
        assert_eq!(Policy::try_from(u8::from(p)).unwrap(), p);
        assert_eq!(p.to_u8(), u8::from(p));
    }
    assert!(matches!(Policy::try_from(2), Err(IndexError::Malformed(_))));
}

#[test]
fn body_kind_round_trips_through_u8() {
    for k in [BodyKind::Trigram, BodyKind::Term] {
        assert_eq!(BodyKind::try_from(u8::from(k)).unwrap(), k);
    }
    assert!(BodyKind::try_from(2).is_err());
}

#[test]
fn malformed_inputs_error_without_panic() {
    let splits = vec![spec("a.rrs", 0, 0, 1, 4), spec("b.rrs", 1, 2, 3, 4)];
    let buf = write_splitset(&splits, &tiered(2, 2)).unwrap();

    // Truncating past the declared section sizes must error, not read out of bounds.
    let truncated = buf[..buf.len() - 3].to_vec();
    assert!(open(&truncated).is_err());

    // A header whose splitCount the buffer cannot satisfy errors on the short body.
    let mut hdr = buf[..HEADER_SIZE].to_vec();
    hdr[12..16].copy_from_slice(&1000u32.to_le_bytes());
    assert!(open(&hdr).is_err());

    // base_count > split_count is rejected.
    let mut bad = buf.clone();
    bad[16..20].copy_from_slice(&9u32.to_le_bytes());
    assert!(matches!(open(&bad), Err(IndexError::Malformed(_))));
}

#[test]
fn one_buffer_opens_like_the_two_reads() {
    let splits = vec![spec("a.rrs", 0, 0, 1, 4)];
    let buf = write_splitset(&splits, &tiered(1, 1)).unwrap();
    let ss = SplitSet::from_bytes(&buf).unwrap();
    assert_eq!(ss.splits()[0].data_file, "a.rrs");
    assert!(SplitSet::from_bytes(&buf[..buf.len() - 1]).is_err());
    assert!(SplitSet::from_bytes(&buf[..10]).is_err());
    // Bytes behind the declared body are not read.
    let mut longer = buf.clone();
    longer.push(9);
    assert_eq!(SplitSet::from_bytes(&longer).unwrap().splits().len(), 1);
}

/// The manifest of a fixed split set, byte for byte.
const GOLDEN_HEX: &str = "525253530100080001000200030000000200000039000000090000000000000000000002000000002e0000000b00030001030000000000000000000000000000000000000f0000006400000000000000630000000000000000100000000000000000000000000000000000000000000000000000000000000f0000000f0001003200000064000000950000000000000000080000000000000000000000000000000000000000000003000000000000001e0000001000000005000000e8030000ec030000010000000002000000000000070000000000000003000000000000000600000000000000626173652d7330303030302e727273626173652d7330303030312e72727364656c74612d6430303030302e727273636f727075732e727273630102030401000000ff";

fn conformance_golden() -> Vec<u8> {
    let splits = vec![
        SplitSpec {
            data_file: "base-s00000.rrs".to_string(),
            tier: 0,
            doc_count: 100,
            doc_id_lo: 0,
            doc_id_hi: 99,
            epoch: 0,
            byte_size: 4096,
            flags: 0,
            summary: Vec::new(),
        },
        SplitSpec {
            data_file: "base-s00001.rrs".to_string(),
            tier: 1,
            doc_count: 50,
            doc_id_lo: 100,
            doc_id_hi: 149,
            epoch: 0,
            byte_size: 2048,
            flags: 0,
            summary: vec![0x01, 0x02, 0x03],
        },
        SplitSpec {
            data_file: "delta-d00000.rrs".to_string(),
            tier: 0,
            doc_count: 5,
            doc_id_lo: 1000,
            doc_id_hi: 1004,
            epoch: 7,
            byte_size: 512,
            flags: SPLIT_FLAG_HAS_TOMBSTONE,
            summary: vec![0x04, 0x01, 0x00, 0x00, 0x00, 0xff],
        },
    ];
    let config = SplitSetConfig {
        policy: Policy::StableKey,
        tier_count: 2,
        base_count: 2,
        byte_cap: 32 << 20,
        gram_size: 3,
        body_kind: BodyKind::Trigram,
        sortcol: Some(SortColSpec {
            name: "corpus.rrsc".to_string(),
            column: 3,
            descending: true,
        }),
        flags: FLAG_TOMBSTONES,
    };
    write_splitset(&splits, &config).unwrap()
}

#[test]
fn manifest_matches_conformance_golden() {
    let bytes = conformance_golden();
    let hex: String = bytes.iter().map(|b| format!("{b:02x}")).collect();
    assert_eq!(
        hex, GOLDEN_HEX,
        "RRSS manifest layout drifted from the golden"
    );
}

#[test]
fn local_and_global_ids_convert() {
    let mut splits = vec![spec("a.rrs", 0, 100, 149, 4), spec("d.rrs", 0, 7, 9, 4)];
    splits[1].flags = SPLIT_FLAG_ABSOLUTE_IDS;
    let ss = build(&splits, &tiered(1, 1));
    let s = &ss.splits()[0];
    assert_eq!(s.to_global(5), 105);
    assert_eq!(s.to_local(105), 5);
    assert!(s.contains(100) && s.contains(149));
    assert!(!s.contains(99) && !s.contains(150));
    let d = &ss.splits()[1];
    assert!(d.absolute_ids());
    assert_eq!(d.to_global(8), 8);
    assert_eq!(d.to_local(8), 8);
}

#[test]
fn case_flag_turns_folding_off() {
    let mut config = tiered(0, 0);
    assert!(build(&[], &config).case_fold());
    config.flags = FLAG_CASE_SENSITIVE;
    assert!(!build(&[], &config).case_fold());
}

#[test]
fn writer_rejects_too_many_base_splits() {
    let splits = vec![spec("a.rrs", 0, 0, 1, 4)];
    assert!(matches!(
        write_splitset(&splits, &tiered(2, 1)),
        Err(BuildError::BaseCountTooLarge {
            base_count: 2,
            split_count: 1,
        })
    ));
}

#[test]
fn writer_rejects_a_name_over_64k() {
    let name = "n".repeat(65_536);
    let splits = vec![spec(&name, 0, 0, 1, 4)];
    assert!(matches!(
        write_splitset(&splits, &tiered(1, 1)),
        Err(BuildError::NameTooLong)
    ));
}

#[test]
fn tlv_records_are_found_by_tag() {
    let mut region = tlv_record(SUMMARY_TAG_BLOOM, &[1, 2, 3]);
    assert_eq!(region, vec![1, 3, 0, 0, 0, 1, 2, 3]);
    region.extend(tlv_record(SUMMARY_TAG_FACET, &[9]));
    assert_eq!(
        find_tlv(&region, SUMMARY_TAG_BLOOM).unwrap(),
        Some(&[1u8, 2, 3][..])
    );
    assert_eq!(
        find_tlv(&region, SUMMARY_TAG_FACET).unwrap(),
        Some(&[9u8][..])
    );
    assert_eq!(find_tlv(&region, SUMMARY_TAG_TOMBSTONE).unwrap(), None);
    // A record that runs past the region is an error.
    assert!(find_tlv(&[2, 9, 0, 0, 0, 1], SUMMARY_TAG_FACET).is_err());
}

#[test]
fn tombstones_are_read_from_the_summary() {
    let dead: RoaringBitmap = [3u32, 70_000].into_iter().collect();
    let mut raw = Vec::new();
    dead.serialize_into(&mut raw).unwrap();
    let mut with = spec("d.rrs", 0, 10, 12, 4);
    with.flags = SPLIT_FLAG_HAS_TOMBSTONE;
    with.summary = tlv_record(SUMMARY_TAG_TOMBSTONE, &raw);
    let mut broken = spec("e.rrs", 0, 13, 15, 4);
    broken.flags = SPLIT_FLAG_HAS_TOMBSTONE;
    broken.summary = tlv_record(SUMMARY_TAG_TOMBSTONE, &[1, 2, 3]);
    let splits = vec![with, broken, spec("f.rrs", 0, 16, 18, 4)];
    let ss = build(&splits, &tiered(0, 0));
    assert_eq!(ss.tombstone(&ss.splits()[0]).unwrap(), Some(dead));
    assert!(matches!(
        ss.tombstone(&ss.splits()[1]),
        Err(IndexError::Malformed(_))
    ));
    assert_eq!(ss.tombstone(&ss.splits()[2]).unwrap(), None);
}
