use roaringrange::terms_dict::{
    iter_block, pack_loc, read_uvarint, scan_block, unpack_loc, uvarint_len, write_uvarint,
    BlockWriter,
};

/// Builds a dictionary from sorted terms and reads every entry back.
fn roundtrip(terms: &[(&str, u64, u64)], cap: usize) {
    let mut w = BlockWriter::new(cap);
    for &(t, off, size) in terms {
        w.push(t.as_bytes(), off, size);
    }
    let blocks = w.finish();

    let mut flat: Vec<(Vec<u8>, u64, usize)> = Vec::new();
    let mut prev_last: Option<Vec<u8>> = None;
    let mut running_off = 0u64;
    for b in &blocks {
        assert_eq!(b.off, running_off, "block offsets must be contiguous");
        running_off += b.bytes.len() as u64;
        if let Some(p) = &prev_last {
            assert!(p.as_slice() < b.last_term.as_slice(), "last_terms sorted");
        }
        let entries: Vec<_> = iter_block(&b.bytes).collect();
        assert_eq!(
            entries.last().unwrap().0,
            b.last_term,
            "router key is the block's last term"
        );
        flat.extend(entries);
        prev_last = Some(b.last_term.clone());
    }

    assert_eq!(flat.len(), terms.len(), "every term present exactly once");
    for (i, &(t, off, size)) in terms.iter().enumerate() {
        assert_eq!(flat[i].0, t.as_bytes(), "term order preserved");
        assert_eq!(
            (flat[i].1, flat[i].2),
            (off, size as usize),
            "payload preserved"
        );
    }
    for &(t, off, size) in terms {
        let owner = blocks
            .iter()
            .find(|b| t.as_bytes() <= b.last_term.as_slice())
            .expect("a block whose last term >= the query");
        assert_eq!(
            scan_block(&owner.bytes, t.as_bytes()),
            Some((off, size as usize))
        );
    }
}

#[test]
fn uvarint_roundtrip() {
    for v in [
        0u64,
        1,
        127,
        128,
        300,
        16_383,
        16_384,
        1 << 20,
        1 << 40,
        u64::MAX,
    ] {
        let mut buf = Vec::new();
        write_uvarint(&mut buf, v);
        assert_eq!(buf.len(), uvarint_len(v));
        let mut pos = 0;
        assert_eq!(read_uvarint(&buf, &mut pos), Some(v));
        assert_eq!(pos, buf.len());
    }
    // Truncated input yields None rather than panicking.
    let mut pos = 0;
    assert_eq!(read_uvarint(&[0x80], &mut pos), None);
}

#[test]
fn uvarint_bytes_are_little_endian_groups() {
    let mut buf = Vec::new();
    write_uvarint(&mut buf, 300);
    assert_eq!(buf, vec![0xac, 0x02]);
    assert_eq!(uvarint_len(0), 1);
    assert_eq!(uvarint_len(u64::MAX), 10);
    // A number of more than ten groups is refused.
    let mut pos = 0;
    assert_eq!(read_uvarint(&[0xff; 11], &mut pos), None);
}

#[test]
fn pack_unpack_roundtrip() {
    let (off, size) = (1_234_567u64, 9_999usize);
    assert_eq!(unpack_loc(pack_loc(off, size as u64)), (off, size));
}

#[test]
fn packed_location_keeps_the_size_in_the_low_bits() {
    assert_eq!(pack_loc(1, 2), (1 << 24) | 2);
    assert_eq!(
        unpack_loc(pack_loc((1 << 40) - 1, (1 << 24) - 1)),
        ((1 << 40) - 1, (1 << 24) - 1)
    );
}

#[test]
fn single_block_shared_prefixes() {
    // Long shared prefixes (scholarly vocab) front-code to small suffixes.
    roundtrip(
        &[
            ("reinforce", 0, 10),
            ("reinforced", 14, 12),
            ("reinforcement", 30, 8),
            ("reinforcing", 42, 9),
        ],
        4096,
    );
}

#[test]
fn many_blocks_tiny_cap() {
    // A tiny cap forces one entry per block, exercising block boundaries and
    // first-entry (absolute head_off, shared=0) encoding repeatedly.
    let terms: Vec<(String, u64, u64)> = (0..50)
        .map(|i| (format!("term{i:04}"), (i as u64) * 100, 7))
        .collect();
    let refs: Vec<(&str, u64, u64)> = terms.iter().map(|(t, o, s)| (t.as_str(), *o, *s)).collect();
    roundtrip(&refs, 8);
    // With an 8-byte cap, "term0000" alone exceeds it, so every term is its own block.
    let mut w = BlockWriter::new(8);
    for (t, o, s) in &terms {
        w.push(t.as_bytes(), *o, *s);
    }
    assert_eq!(w.finish().len(), 50);
}

#[test]
fn multibyte_utf8_terms() {
    roundtrip(
        &[
            ("café", 0, 4),
            ("cafés", 8, 4),
            ("naïve", 16, 5),
            ("naïveté", 25, 6),
        ],
        4096,
    );
}

#[test]
fn empty_and_single() {
    assert!(BlockWriter::new(4096).finish().is_empty());
    roundtrip(&[("solo", 7, 3)], 4096);
}

#[test]
fn scan_absent_term() {
    let mut w = BlockWriter::new(4096);
    for (t, o, s) in [("alpha", 0u64, 1u64), ("gamma", 2, 1), ("omega", 4, 1)] {
        w.push(t.as_bytes(), o, s);
    }
    let blocks = w.finish();
    // "beta" sorts between alpha and gamma; absent -> None (early stop on Greater).
    assert_eq!(scan_block(&blocks[0].bytes, b"beta"), None);
    assert_eq!(scan_block(&blocks[0].bytes, b"zzz"), None);
}

#[test]
fn front_coding_actually_shrinks() {
    // A run of shared-prefix terms encodes smaller than the raw term bytes.
    let terms = [
        "internationalization",
        "internationalize",
        "internationalized",
    ];
    let mut w = BlockWriter::new(1 << 20);
    for (i, t) in terms.iter().enumerate() {
        w.push(t.as_bytes(), i as u64, 1);
    }
    let blocks = w.finish();
    assert_eq!(blocks.len(), 1);
    let raw: usize = terms.iter().map(|t| t.len()).sum();
    assert!(
        blocks[0].bytes.len() < raw,
        "front-coded block ({}) should beat raw term bytes ({raw})",
        blocks[0].bytes.len()
    );
}

#[test]
fn every_block_but_a_single_entry_stays_within_the_cap() {
    let mut w = BlockWriter::new(32);
    for i in 0..40u64 {
        w.push(format!("word{i:03}").as_bytes(), i * 9, 4);
    }
    for b in w.finish() {
        let entries = iter_block(&b.bytes).collect();
        assert!(b.bytes.len() <= 32 || entries.len() == 1);
    }
}

#[test]
fn a_cut_block_ends_without_panicking() {
    let mut w = BlockWriter::new(4096);
    w.push(b"alpha", 0, 1);
    w.push(b"beta", 9, 1);
    let bytes = w.finish().remove(0).bytes;
    let whole = iter_block(&bytes).collect();
    assert_eq!(whole.len(), 2);
    let cut = iter_block(&bytes[..bytes.len() - 1]).collect();
    assert_eq!(cut.len(), 1);
    assert_eq!(cut[0], whole[0]);
}

#[test]
fn varint_of_more_than_64_bits_is_refused() {
    let mut buf = vec![0x80u8; 9];
    buf.push(0x02);
    let mut pos = 0;
    assert_eq!(read_uvarint(&buf, &mut pos), None);
    let mut buf = vec![0xffu8; 9];
    buf.push(0x01);
    let mut pos = 0;
    assert_eq!(read_uvarint(&buf, &mut pos), Some(u64::MAX));
    assert_eq!(pos, 10);
    // Ten bytes that go on.
    let mut pos = 0;
    assert_eq!(read_uvarint(&[0x80; 11], &mut pos), None);
}
