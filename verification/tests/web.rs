use roaring::RoaringBitmap;
use roaringrange::bitmap::{deserialize, take_ids, to_vec};
use roaringrange::bytes::{
    common_prefix, copy_range, order_bytes, put_u16, put_u32, put_u64, put_zeros, read_u16,
    read_u32, starts_with, ByteOrder,
};
use roaringrange::error::FetchError;
use roaringrange::postings::KeyPostings;
use roaringrange::search::sort_ascending;
use roaringrange::splitset::{BodyKind, Policy, SplitSet};
use roaringrange::splitset_build::{write_splitset, SplitSetConfig, SplitSpec};
use roaringrange::text::{bytes_of, decode, facet_file_name, numbered, put_decimal, same};
use roaringrange::web::{
    bound_count, check_answer, doc_count, file_url, filtered_ids, range_header, WasmBitmap,
};

fn set_of(ids: &[u32]) -> RoaringBitmap {
    ids.iter().copied().collect()
}

#[test]
fn range_header_names_the_last_byte() {
    assert_eq!(
        range_header(10, 5).unwrap(),
        Some("bytes=10-14".to_string())
    );
    assert_eq!(range_header(0, 1).unwrap(), Some("bytes=0-0".to_string()));
    // Nothing is asked for where nothing is wanted.
    assert_eq!(range_header(10, 0).unwrap(), None);
    assert!(range_header(u64::MAX, 2).is_err());
}

#[test]
fn only_a_whole_range_is_an_answer() {
    assert!(check_answer("bytes=0-3", true, 206, 4, 4).is_ok());
    match check_answer("bytes=0-3", false, 500, 0, 4) {
        Err(FetchError::Transport(m)) => assert_eq!(m, "HTTP 500 for range bytes=0-3"),
        other => panic!("{other:?}"),
    }
    match check_answer("bytes=0-3", true, 200, 9, 4) {
        Err(FetchError::Transport(m)) => assert_eq!(
            m,
            "range bytes=0-3 returned 9 bytes, expected 4 (origin may not honor Range requests)"
        ),
        other => panic!("{other:?}"),
    }
}

#[test]
fn file_urls_join_with_one_slash() {
    assert_eq!(file_url("https://h/data/", "a.rrs"), "https://h/data/a.rrs");
}

#[test]
fn bounds_cap_an_inexact_count() {
    assert_eq!(bound_count(9, true, Some(4)).0, 4);
    assert_eq!(bound_count(3, true, None), (3, true));
}

#[test]
fn bitmaps_combine_and_page() {
    let of = |ids: &[u32]| {
        let mut raw = Vec::new();
        ids.iter()
            .copied()
            .collect::<RoaringBitmap>()
            .serialize_into(&mut raw)
            .unwrap();
        WasmBitmap::from_bytes(&raw).unwrap()
    };
    let a = of(&[1, 2, 3, 70_000]);
    let b = of(&[2, 70_000, 9]);
    assert_eq!(a.and(&b).page(0, 10), vec![2, 70_000]);
    assert_eq!(a.andnot(&b).page(0, 10), vec![1, 3]);
    assert_eq!(a.or(&b).page(0, 10), vec![1, 2, 3, 9, 70_000]);
    assert_eq!(a.or(&b).page(1, 2), vec![2, 3]);
    assert_eq!((a.len(), a.is_empty()), (4, false));
    assert!(a.and(&of(&[])).is_empty());
    assert!(WasmBitmap::from_bytes(&[1, 2]).is_err());
}

#[test]
fn filtering_keeps_the_order_of_ids() {
    let mask: RoaringBitmap = [3u32, 5].into_iter().collect();
    assert_eq!(filtered_ids(&[5, 4, 3, 5], &mask), vec![5, 3, 5]);
}

#[test]
fn doc_count_sums_every_split() {
    let spec = |lo: u32, hi: u32| SplitSpec {
        data_file: "a.rrs".to_string(),
        tier: 0,
        doc_count: hi - lo + 1,
        doc_id_lo: lo,
        doc_id_hi: hi,
        epoch: 0,
        byte_size: 1,
        flags: 0,
        summary: Vec::new(),
    };
    let c = SplitSetConfig {
        policy: Policy::Tiered,
        tier_count: 1,
        base_count: 1,
        byte_cap: 1,
        gram_size: 3,
        body_kind: BodyKind::Trigram,
        sortcol: None,
        flags: 0,
    };
    let raw = write_splitset(&[spec(0, 9), spec(10, 14)], &c).unwrap();
    assert_eq!(doc_count(&SplitSet::from_bytes(&raw).unwrap()), 15);
}

#[test]
fn bitmaps_list_their_ids() {
    let b = set_of(&[70_000, 2, 2, 9]);
    assert_eq!(to_vec(&b), vec![2, 9, 70_000]);
    assert_eq!(take_ids(&b, 2), vec![2, 9]);
    let mut raw = Vec::new();
    b.serialize_into(&mut raw).unwrap();
    assert_eq!(deserialize(&raw).unwrap(), b);
    assert!(deserialize(&raw[..3]).is_err());
}

#[test]
fn postings_merge_and_subtract() {
    let mut p = KeyPostings::new();
    assert!(p.is_empty());
    assert!(p.insert(7, 1));
    assert!(!p.insert(7, 1));
    assert!(p.insert(3, 2));
    assert_eq!(p.keys(), vec![3, 7]);
    assert!(p.contains_key(7) && !p.contains_key(8));
    p.merge(7, &set_of(&[4, 5]));
    assert_eq!(to_vec(p.get(7).unwrap()), vec![1, 4, 5]);
    assert_eq!(to_vec(&p.all_ids()), vec![1, 2, 4, 5]);
    p.subtract(&set_of(&[2, 4]));
    assert_eq!(to_vec(&p.all_ids()), vec![1, 5]);
    p.clear();
    assert_eq!(p.len(), 0);
}

#[test]
fn numbers_and_names_are_written_out() {
    let mut s = String::new();
    put_decimal(&mut s, 0);
    put_decimal(&mut s, 18_446_744_073_709_551_615);
    assert_eq!(s, "018446744073709551615");
    assert_eq!(numbered("corpus", "s", 7, ".rrs"), "corpus-s00007.rrs");
    assert_eq!(
        numbered("corpus", "s", 123_456, ".rrs"),
        "corpus-s123456.rrs"
    );
    assert_eq!(facet_file_name("corpus-s00007.rrs"), "corpus-s00007.rrf");
    assert_eq!(facet_file_name("corpus-s00007.rrt"), "corpus-s00007.rrf");
    assert!(same("naïve", "naïve") && !same("naive", "naïve"));
    assert_eq!(decode(bytes_of("naïve").to_vec()), Some("naïve".to_string()));
    assert_eq!(decode(vec![0xff]), None);
}

#[test]
fn little_endian_numbers_round_trip() {
    let mut out = Vec::new();
    put_u16(&mut out, 0x1234);
    put_u32(&mut out, 0xdead_beef);
    put_u64(&mut out, 5);
    put_zeros(&mut out, 2);
    assert_eq!(
        out,
        vec![0x34, 0x12, 0xef, 0xbe, 0xad, 0xde, 5, 0, 0, 0, 0, 0, 0, 0, 0, 0]
    );
    assert_eq!(read_u16(&out, 0), 0x1234);
    assert_eq!(read_u32(&out, 2), 0xdead_beef);
    assert_eq!(copy_range(&out, 2, 4), vec![0xef, 0xbe]);
}

#[test]
fn byte_strings_compare_lexicographically() {
    assert_eq!(order_bytes(b"ab", b"abc"), ByteOrder::Before);
    assert_eq!(order_bytes(b"b", b"abc"), ByteOrder::After);
    assert_eq!(order_bytes(b"abc", b"abc"), ByteOrder::Same);
    assert_eq!(common_prefix(b"abcd", b"abx"), 2);
    assert!(starts_with(b"abc", b"ab") && !starts_with(b"ab", b"abc"));
    let mut v = vec![3u32, 1, 2, 1];
    sort_ascending(&mut v);
    assert_eq!(v, vec![1, 1, 2, 3]);
}
