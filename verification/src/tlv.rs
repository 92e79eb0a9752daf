//! Summary regions: back-to-back `[tag u8][len u32 LE][payload]` records.

use crate::bytes;
use crate::bytes::{put_bytes, put_u32, read_u32};
use crate::error::IndexError;
use vstd::prelude::*;

verus! {

/// The record that frames `payload` under `tag`.
pub open spec fn record(tag: u8, payload: Seq<u8>) -> Seq<u8> {
    seq![tag] + bytes::le32(payload.len() as u32) + payload
}

/// The payload of the first record of `s` with `tag`; `None` where there is none before fewer
/// than five bytes are left. A record that runs past the region, met before that, is an error.
pub open spec fn find(s: Seq<u8>, tag: u8) -> Result<Option<Seq<u8>>, IndexError>
    decreases s.len(),
{
    let len = (bytes::u32_at(s, 1) as usize) as int;
    if s.len() < 5 {
        Ok(None)
    } else if 5 + len > s.len() {
        Err(IndexError::Malformed("RRSS summary TLV out of range"))
    } else if s[0] == tag {
        Ok(Some(s.subrange(5, 5 + len)))
    } else {
        find(s.skip(5 + len), tag)
    }
}

/// Scans a summary region for the first record with `tag`, returning its payload or `None`.
/// Errors on a malformed (out-of-range) record.
pub fn find_tlv<'a>(summary: &'a [u8], tag: u8) -> (r: Result<Option<&'a [u8]>, IndexError>)
    ensures
        match r {
            Ok(Some(p)) => find(summary@, tag) == Ok::<_, IndexError>(Some(p@)),
            Ok(None) => find(summary@, tag) == Ok::<_, IndexError>(None::<Seq<u8>>),
            Err(e) => find(summary@, tag) == Err::<Option<Seq<u8>>, _>(e),
        },
{
    let mut rest = summary;
    while rest.len() >= 5
        invariant
            find(rest@, tag) == find(summary@, tag),
        decreases rest@.len(),
    {
        let len: usize = read_u32(rest, 1) as usize;
        if len > rest.len() - 5 {
            return Err(IndexError::Malformed("RRSS summary TLV out of range"));
        }
        if rest[0] == tag {
            return Ok(Some(vstd::slice::slice_subrange(rest, 5, 5 + len)));
        }
        assert(rest@.subrange(5 + len, rest@.len() as int) =~= rest@.skip(5 + len));
        rest = vstd::slice::slice_subrange(rest, 5 + len, rest.len());
    }
    Ok(None)
}

/// Frames `payload` as a `[tag u8][len u32 LE][payload]` summary record. A reader finds the
/// payload again where its length fits in 32 bits.
pub fn tlv_record(tag: u8, payload: &[u8]) -> (out: Vec<u8>)
    ensures
        out@ == record(tag, payload@),
{
    let mut out: Vec<u8> = Vec::new();
    out.push(tag);
    put_u32(&mut out, payload.len() as u32);
    put_bytes(&mut out, payload);
    assert(out@ =~= record(tag, payload@));
    out
}

/// The first record under a tag is found, whatever follows it.
pub proof fn law_tlv_found(tag: u8, payload: Seq<u8>, rest: Seq<u8>)
    requires
        payload.len() <= u32::MAX,
        payload.len() <= usize::MAX,
    ensures
        find(record(tag, payload) + rest, tag) == Ok::<_, IndexError>(Some(payload)),
{
    let s = record(tag, payload) + rest;
    let n = payload.len() as int;
    assert(s.subrange(1, 5) =~= bytes::le32(payload.len() as u32));
    bytes::lemma_u32_at(s, 1, payload.len() as u32);
    assert(s.subrange(5, 5 + n) =~= payload);
}

/// A record under another tag is passed over.
pub proof fn law_tlv_skipped(tag: u8, payload: Seq<u8>, rest: Seq<u8>, other: u8)
    requires
        payload.len() <= u32::MAX,
        payload.len() <= usize::MAX,
        other != tag,
    ensures
        find(record(tag, payload) + rest, other) == find(rest, other),
{
    let s = record(tag, payload) + rest;
    let n = payload.len() as int;
    assert(s.subrange(1, 5) =~= bytes::le32(payload.len() as u32));
    bytes::lemma_u32_at(s, 1, payload.len() as u32);
    assert(s.skip(5 + n) =~= rest);
}

/// A region that is used up has no record, and one whose first record runs past its end is an
/// error.
pub proof fn law_tlv_end(s: Seq<u8>, tag: u8)
    ensures
        s.len() < 5 ==> find(s, tag) == Ok::<Option<Seq<u8>>, IndexError>(None),
        s.len() >= 5 && 5 + (bytes::u32_at(s, 1) as usize) > s.len() ==> find(s, tag) is Err,
{
}

} // verus!
