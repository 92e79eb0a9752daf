//! The resident router of a term index: an `fst` map from each dictionary block's last term to
//! the block's packed location.

use crate::bytes::{lex_lt, read_u64, u64_at};
use fst::{IntoStreamer, Map as FstMap, MapBuilder, Streamer};
use vstd::prelude::*;

verus! {

/// `fst`'s map.
#[verifier::external_type_specification]
#[verifier::external_body]
#[verifier::reject_recursive_types(D)]
pub struct ExFstMap<D>(FstMap<D>);

/// `fst`'s map builder.
#[verifier::external_type_specification]
#[verifier::external_body]
#[verifier::reject_recursive_types(W)]
pub struct ExMapBuilder<W>(MapBuilder<W>);

/// The bytes that a map was made of.
pub uninterp spec fn map_bytes(m: FstMap<Vec<u8>>) -> Seq<u8>;

/// Whether `Map::new` takes `raw` for a map.
pub uninterp spec fn readable(raw: Seq<u8>) -> bool;

/// Whether the checksum of the map in `raw` holds (`Fst::verify`).
pub uninterp spec fn checksum_holds(raw: Seq<u8>) -> bool;

/// The keys and values that the map in `raw` streams from `key` on.
pub uninterp spec fn streamed(raw: Seq<u8>, key: Seq<u8>) -> Seq<(Seq<u8>, u64)>;

/// The keys and values inserted into a builder so far, in order.
pub uninterp spec fn inserted(b: MapBuilder<Vec<u8>>) -> Seq<(Seq<u8>, u64)>;

/// The bytes that a builder writes for the entries `es` on a machine whose `usize` has
/// `word_bits` bits: the builder finds nodes again by a hash that it cuts to a `usize`, so that
/// which nodes it shares, and with them the bytes, can differ from one width to another.
pub uninterp spec fn map_image(word_bits: nat, es: Seq<(Seq<u8>, u64)>) -> Seq<u8>;

/// The entries of the ascending `es` from `key` on.
pub open spec fn at_least(es: Seq<(Seq<u8>, u64)>, key: Seq<u8>) -> Seq<(Seq<u8>, u64)>
    decreases es.len(),
{
    if es.len() > 0 && lex_lt(es[0].0, key) {
        at_least(es.drop_first(), key)
    } else {
        es
    }
}

/// Where the footer of the map in `raw` ends: before the checksum, which came with version 3.
pub open spec fn footer_end(raw: Seq<u8>) -> int {
    if u64_at(raw, 0) <= 2 {
        raw.len() as int
    } else {
        raw.len() - 4
    }
}

/// Whether this machine can hold the two numbers in the footer of the map in `raw`: how many
/// keys it has, and where its root lies. Bytes without a known version have no footer.
pub open spec fn footer_fits(raw: Seq<u8>) -> bool {
    raw.len() < 36 || u64_at(raw, 0) == 0 || u64_at(raw, 0) > 3 || {
        &&& u64_at(raw, footer_end(raw) - 8) <= usize::MAX
        &&& u64_at(raw, footer_end(raw) - 16) <= usize::MAX
    }
}

/// Whether `raw` is a map that streams the entries `es`.
pub open spec fn maps(raw: Seq<u8>, es: Seq<(Seq<u8>, u64)>) -> bool {
    &&& footer_fits(raw)
    &&& readable(raw)
    &&& checksum_holds(raw)
    &&& forall|key: Seq<u8>| #[trigger] streamed(raw, key) == at_least(es, key)
}

/// The keys and values of `v`.
pub open spec fn pairs(v: Seq<(Vec<u8>, u64)>) -> Seq<(Seq<u8>, u64)> {
    v.map_values(|e: (Vec<u8>, u64)| (e.0@, e.1))
}

/// Whether a builder wrote `raw`, or one that streams as if it had.
pub open spec fn well_made(raw: Seq<u8>) -> bool {
    exists|es: Seq<(Seq<u8>, u64)>| maps(raw, es)
}

/// Whether each key of `es` sorts behind the one before it.
pub open spec fn ascending(es: Seq<(Seq<u8>, u64)>) -> bool {
    forall|i: int| 0 < i < es.len() ==> lex_lt(es[i - 1].0, (#[trigger] es[i]).0)
}

/// Whether this machine can hold the numbers in the footer of the map in `raw`.
pub(crate) fn fits(raw: &[u8]) -> (yes: bool)
    ensures
        yes == footer_fits(raw@),
{
    if raw.len() < 36 {
        return true;
    }
    let version: u64 = read_u64(raw, 0);
    if version == 0 || version > 3 {
        return true;
    }
    let end: usize = if version <= 2 {
        raw.len()
    } else {
        raw.len() - 4
    };
    read_u64(raw, end - 8) <= usize::MAX as u64 && read_u64(raw, end - 16) <= usize::MAX as u64
}

/// `Map::new`: the map in `raw`, or `None` where it refuses the header or the footer. It panics
/// on a footer whose numbers this machine cannot hold.
#[verifier::external_body]
pub(crate) fn read_map(raw: Vec<u8>) -> (m: Option<FstMap<Vec<u8>>>)
    requires
        footer_fits(raw@),
    ensures
        m is Some == readable(raw@),
        m matches Some(f) ==> map_bytes(f) == raw@,
{
    FstMap::new(raw).ok()
}

/// `Fst::verify`: whether the map's checksum holds.
#[verifier::external_body]
pub(crate) fn verify_map(m: &FstMap<Vec<u8>>) -> (yes: bool)
    ensures
        yes == checksum_holds(map_bytes(*m)),
{
    m.as_fst().verify().is_ok()
}

/// The first value that `Map::range().ge(key)` streams. The stream is a function of the map's
/// bytes and the key. Left out are bytes that no builder wrote: on a map forged with a matching
/// checksum the crate may panic.
#[verifier::external_body]
pub(crate) fn first_value(m: &FstMap<Vec<u8>>, key: &[u8]) -> (v: Option<u64>)
    requires
        well_made(map_bytes(*m)),
    ensures
        match v {
            Some(x) => streamed(map_bytes(*m), key@).len() > 0 && x == streamed(
                map_bytes(*m),
                key@,
            )[0].1,
            None => streamed(map_bytes(*m), key@).len() == 0,
        },
{
    m.range().ge(key).into_stream().next().map(|e| e.1)
}

/// Everything that `Map::range().ge(key)` streams (`Stream::into_byte_vec`), as for
/// [`first_value`].
#[verifier::external_body]
pub(crate) fn entries(m: &FstMap<Vec<u8>>, key: &[u8]) -> (es: Vec<(Vec<u8>, u64)>)
    requires
        well_made(map_bytes(*m)),
    ensures
        pairs(es@) == streamed(map_bytes(*m), key@),
{
    m.range().ge(key).into_stream().into_byte_vec()
}

/// `MapBuilder::memory`: a builder with nothing inserted.
#[verifier::external_body]
pub(crate) fn new_builder() -> (b: MapBuilder<Vec<u8>>)
    ensures
        inserted(b) == Seq::<(Seq<u8>, u64)>::empty(),
{
    MapBuilder::memory()
}

/// `MapBuilder::insert`: appends the entry, unless its key does not sort behind the last one.
#[verifier::external_body]
pub(crate) fn insert(b: &mut MapBuilder<Vec<u8>>, key: &[u8], value: u64) -> (ok: bool)
    ensures
        ok == (inserted(*old(b)).len() == 0 || lex_lt(inserted(*old(b)).last().0, key@)),
        inserted(*final(b)) == (if ok {
            inserted(*old(b)).push((key@, value))
        } else {
            inserted(*old(b))
        }),
{
    b.insert(key, value).is_ok()
}

/// `MapBuilder::into_inner`: the bytes of a map that streams what was inserted. Writing to a
/// vector does not fail.
#[verifier::external_body]
pub(crate) fn finish(b: MapBuilder<Vec<u8>>) -> (raw: Vec<u8>)
    ensures
        raw@ == map_image(usize::BITS as nat, inserted(b)),
        maps(raw@, inserted(b)),
{
    b.into_inner().expect("writing to a vector")
}

/// The bytes of the map of `routes`; `None` where their keys do not ascend.
pub(crate) fn map_of(routes: &[(Vec<u8>, u64)]) -> (raw: Option<Vec<u8>>)
    ensures
        match raw {
            Some(b) => ascending(pairs(routes@)) && b@ == map_image(usize::BITS as nat, pairs(routes@)) && maps(
                b@,
                pairs(routes@),
            ),
            None => !ascending(pairs(routes@)),
        },
{
    let mut b = new_builder();
    let ghost es = pairs(routes@);
    let mut i: usize = 0;
    assert(es.take(0) =~= Seq::<(Seq<u8>, u64)>::empty());
    while i < routes.len()
        invariant
            i <= routes@.len(),
            es == pairs(routes@),
            inserted(b) == es.take(i as int),
            forall|j: int| 0 < j < i ==> lex_lt(es[j - 1].0, (#[trigger] es[j]).0),
        decreases routes@.len() - i,
    {
        proof {
            assert(es[i as int] == (routes@[i as int].0@, routes@[i as int].1));
            if i > 0 {
                assert(es.take(i as int).last() == es[i - 1]);
            }
        }
        if !insert(&mut b, routes[i].0.as_slice(), routes[i].1) {
            return None;
        }
        assert(es.take(i + 1) =~= es.take(i as int).push(es[i as int]));
        i += 1;
    }
    assert(es.take(i as int) =~= es);
    Some(finish(b))
}

/// A map streams from the first key that does not sort before the one asked for, and leaves out
/// only the keys before it.
pub proof fn law_at_least(es: Seq<(Seq<u8>, u64)>, key: Seq<u8>, k: int)
    requires
        0 <= k <= es.len(),
        forall|j: int| 0 <= j < k ==> lex_lt((#[trigger] es[j]).0, key),
        k < es.len() ==> !lex_lt(es[k].0, key),
    ensures
        at_least(es, key) == es.skip(k),
    decreases k,
{
    if k > 0 {
        let rest = es.drop_first();
        assert(lex_lt(es[0].0, key));
        assert forall|j: int| 0 <= j < k - 1 implies lex_lt((#[trigger] rest[j]).0, key) by {
            assert(rest[j] == es[j + 1]);
        }
        law_at_least(rest, key, k - 1);
        assert(rest.skip(k - 1) =~= es.skip(k));
    } else {
        assert(es.skip(0) =~= es);
    }
}

} // verus!
