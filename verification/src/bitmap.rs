//! Doc-ID sets: `roaring`'s bitmaps, and the ascending list of the IDs of a set.

use crate::error::IndexError;
use roaring::RoaringBitmap;
use vstd::prelude::*;

verus! {

/// `roaring`'s compressed bitmap.
#[verifier::external_type_specification]
#[verifier::external_body]
pub struct ExRoaringBitmap(RoaringBitmap);

/// The IDs that a bitmap holds.
pub uninterp spec fn ids(b: RoaringBitmap) -> Set<u32>;

/// The IDs that `RoaringBitmap::deserialize_from` reads off the front of `raw`, in the
/// portable roaring format; `None` where it refuses `raw`.
pub uninterp spec fn read_ids(raw: Seq<u8>) -> Option<Set<u32>>;

/// How many bytes `RoaringBitmap::serialize_into` writes of a bitmap. It depends on how the
/// bitmap is stored, not on its IDs alone.
pub uninterp spec fn stored_len(b: RoaringBitmap) -> nat;

/// Whether a bitmap is stored as inserting its IDs one by one stores it: those of a chunk in a
/// list while they are few, then in a bit set, and never in runs.
pub uninterp spec fn canonical(b: RoaringBitmap) -> bool;

/// The bytes that `RoaringBitmap::serialize_into` writes of a [`canonical`] bitmap of `s`.
pub uninterp spec fn image(s: Set<u32>) -> Seq<u8>;

/// `RoaringBitmap::serialized_size`: how many bytes `serialize_into` writes.
pub assume_specification[ RoaringBitmap::serialized_size ](b: &RoaringBitmap) -> (n: usize)
    ensures
        n == stored_len(*b),
;

/// `RoaringBitmap::min`: the least value in the set, `None` where there is none.
pub assume_specification[ RoaringBitmap::min ](b: &RoaringBitmap) -> (m: Option<u32>)
    ensures
        match m {
            Some(x) => ids(*b).contains(x) && forall|y: u32| ids(*b).contains(y) ==> x <= y,
            None => ids(*b) == Set::<u32>::empty(),
        },
;

/// `RoaringBitmap::max`: the greatest value in the set, `None` where there is none.
pub assume_specification[ RoaringBitmap::max ](b: &RoaringBitmap) -> (m: Option<u32>)
    ensures
        match m {
            Some(x) => ids(*b).contains(x) && forall|y: u32| ids(*b).contains(y) ==> y <= x,
            None => ids(*b) == Set::<u32>::empty(),
        },
;

/// `RoaringBitmap::new`: holds nothing.
pub assume_specification[ RoaringBitmap::new ]() -> (b: RoaringBitmap)
    ensures
        ids(b) == Set::<u32>::empty(),
        canonical(b),
;

/// `RoaringBitmap::insert`: adds the value, and says whether it was absent. A list that grows
/// past its limit becomes a bit set.
pub assume_specification[ RoaringBitmap::insert ](b: &mut RoaringBitmap, value: u32) -> (fresh: bool)
    ensures
        ids(*final(b)) == ids(*old(b)).insert(value),
        fresh == !ids(*old(b)).contains(value),
        canonical(*old(b)) ==> canonical(*final(b)),
;

/// `RoaringBitmap::contains`: whether the value is in the set.
pub assume_specification[ RoaringBitmap::contains ](b: &RoaringBitmap, value: u32) -> (found: bool)
    ensures
        found == ids(*b).contains(value),
;

/// `RoaringBitmap::is_empty`: whether nothing is in the set.
pub assume_specification[ RoaringBitmap::is_empty ](b: &RoaringBitmap) -> (none: bool)
    ensures
        none == (ids(*b) == Set::<u32>::empty()),
;

/// `RoaringBitmap::len`: how many values are in the set.
pub assume_specification[ RoaringBitmap::len ](b: &RoaringBitmap) -> (n: u64)
    ensures
        n == ids(*b).len(),
;

/// `RoaringBitmap`'s `|=`: the union.
#[verifier::external_body]
pub(crate) fn union_with(a: &mut RoaringBitmap, b: &RoaringBitmap)
    ensures
        ids(*final(a)) == ids(*old(a)).union(ids(*b)),
{
    *a |= b;
}

/// `RoaringBitmap`'s `&=`: the intersection.
#[verifier::external_body]
pub(crate) fn intersect_with(a: &mut RoaringBitmap, b: &RoaringBitmap)
    ensures
        ids(*final(a)) == ids(*old(a)).intersect(ids(*b)),
{
    *a &= b;
}

/// `RoaringBitmap`'s `-=`: the difference.
#[verifier::external_body]
pub(crate) fn subtract(a: &mut RoaringBitmap, b: &RoaringBitmap)
    ensures
        ids(*final(a)) == ids(*old(a)).difference(ids(*b)),
{
    *a -= b;
}

/// `RoaringBitmap::clone`: a bitmap with the same values.
#[verifier::external_body]
pub(crate) fn duplicate(b: &RoaringBitmap) -> (c: RoaringBitmap)
    ensures
        ids(c) == ids(*b),
{
    b.clone()
}

/// `RoaringBitmap::iter`: every value once, in ascending order.
#[verifier::external_body]
fn values(b: &RoaringBitmap) -> (v: Vec<u32>)
    ensures
        lists(v@, ids(*b)),
{
    b.iter().collect()
}

/// `RoaringBitmap::serialize_into` a vector: bytes that `deserialize_from` reads the same
/// values from. They depend on how the bitmap is stored, not on its values alone; of a
/// [`canonical`] bitmap the values determine them. The format itself is left unsaid.
#[verifier::external_body]
pub(crate) fn serialize(b: &RoaringBitmap) -> (raw: Vec<u8>)
    ensures
        read_ids(raw@) == Some(ids(*b)),
        raw@.len() == stored_len(*b),
        raw@.len() > 0,
        canonical(*b) ==> raw@ == image(ids(*b)),
{
    let mut raw: Vec<u8> = Vec::with_capacity(b.serialized_size());
    b.serialize_into(&mut raw).expect("writing to a vector");
    raw
}

/// `RoaringBitmap::deserialize_from` a slice: the values it reads, or `None` where it refuses
/// the bytes.
#[verifier::external_body]
fn deserialize_raw(raw: &[u8]) -> (b: Option<RoaringBitmap>)
    ensures
        b is Some == read_ids(raw@) is Some,
        b matches Some(m) ==> read_ids(raw@) == Some(ids(m)),
{
    RoaringBitmap::deserialize_from(raw).ok()
}

/// Whether `v` lists the IDs of `s`, each once and ascending.
pub open spec fn lists(v: Seq<u32>, s: Set<u32>) -> bool {
    &&& forall|i: int, j: int| 0 <= i < j < v.len() ==> v[i] < v[j]
    &&& forall|x: u32| s.contains(x) <==> v.contains(x)
}

/// The IDs of `s` in ascending order.
pub open spec fn listed(s: Set<u32>) -> Seq<u32> {
    choose|v: Seq<u32>| lists(v, s)
}

/// The first `limit` IDs of `s` in ascending order.
pub open spec fn first_ids(s: Set<u32>, limit: nat) -> Seq<u32> {
    if listed(s).len() <= limit {
        listed(s)
    } else {
        listed(s).take(limit as int)
    }
}

/// Two ascending lists of one set are the same.
pub proof fn lemma_lists_unique(v: Seq<u32>, w: Seq<u32>, s: Set<u32>)
    requires
        lists(v, s),
        lists(w, s),
    ensures
        v == w,
    decreases v.len(),
{
    if v.len() == 0 {
        if w.len() > 0 {
            assert(w.contains(w[0]));
            assert(v.contains(w[0]));
        }
        assert(v =~= w);
    } else {
        let x = v.last();
        assert(v.contains(x));
        assert(w.contains(x));
        let y = w.last();
        assert(w.contains(y));
        assert(v.contains(y));
        let i = choose|i: int| 0 <= i < v.len() && v[i] == y;
        let j = choose|j: int| 0 <= j < w.len() && w[j] == x;
        assert(x <= y && y <= x);
        let t = s.remove(x);
        let v1 = v.drop_last();
        let w1 = w.drop_last();
        assert forall|z: u32| t.contains(z) <==> v1.contains(z) by {
            if t.contains(z) {
                assert(v.contains(z));
                let k = choose|k: int| 0 <= k < v.len() && v[k] == z;
                assert(v1[k] == z);
            }
            if v1.contains(z) {
                let k = choose|k: int| 0 <= k < v1.len() && v1[k] == z;
                assert(v[k] == z);
                assert(v.contains(z));
            }
        }
        assert forall|z: u32| t.contains(z) <==> w1.contains(z) by {
            if t.contains(z) {
                assert(w.contains(z));
                let k = choose|k: int| 0 <= k < w.len() && w[k] == z;
                assert(w1[k] == z);
            }
            if w1.contains(z) {
                let k = choose|k: int| 0 <= k < w1.len() && w1[k] == z;
                assert(w[k] == z);
                assert(w.contains(z));
            }
        }
        lemma_lists_unique(v1, w1, t);
        assert(v =~= v1.push(x));
        assert(w =~= w1.push(x));
    }
}

/// What lists a set is its ascending list.
pub proof fn lemma_listed(v: Seq<u32>, s: Set<u32>)
    requires
        lists(v, s),
    ensures
        listed(s) == v,
{
    lemma_lists_unique(v, listed(s), s);
}

/// Every set of IDs is finite.
pub proof fn lemma_finite(s: Set<u32>)
    ensures
        s.finite(),
{
    broadcast use vstd::set_lib::full_set_properties;

    assert(Set::<u32>::full().finite());
    vstd::set_lib::lemma_set_subset_finite(Set::<u32>::full(), s);
}

/// Every set of IDs has its ascending list, with one element for each ID.
pub proof fn lemma_listed_exists(s: Set<u32>)
    ensures
        lists(listed(s), s),
        listed(s).len() == s.len(),
{
    lemma_finite(s);
    lemma_list_from(s, u32::MAX as nat + 1);
}

proof fn lemma_list_from(s: Set<u32>, n: nat)
    requires
        s.finite(),
        forall|x: u32| s.contains(x) ==> x < n,
    ensures
        lists(listed(s), s),
        listed(s).len() == s.len(),
    decreases s.len(),
{
    if s.is_empty() {
        let v = Seq::<u32>::empty();
        assert(lists(v, s));
        lemma_listed(v, s);
    } else {
        let m = lemma_max(s);
        let t = s.remove(m);
        lemma_list_from(t, n);
        let u = listed(t);
        let v = u.push(m);
        assert forall|i: int, j: int| 0 <= i < j < v.len() implies v[i] < v[j] by {
            assert(u.contains(v[i]));
            assert(t.contains(v[i]));
        }
        assert forall|x: u32| s.contains(x) <==> v.contains(x) by {
            if s.contains(x) {
                if x == m {
                    assert(v[u.len() as int] == m);
                } else {
                    assert(t.contains(x));
                    let k = choose|k: int| 0 <= k < u.len() && u[k] == x;
                    assert(v[k] == x);
                }
            }
            if v.contains(x) {
                let k = choose|k: int| 0 <= k < v.len() && v[k] == x;
                if k < u.len() {
                    assert(u.contains(x));
                    assert(t.contains(x));
                }
            }
        }
        lemma_listed(v, s);
    }
}

proof fn lemma_max(s: Set<u32>) -> (m: u32)
    requires
        s.finite(),
        !s.is_empty(),
    ensures
        s.contains(m),
        forall|x: u32| s.contains(x) ==> x <= m,
    decreases s.len(),
{
    let a = s.choose();
    assert(s.contains(a));
    let t = s.remove(a);
    if t.is_empty() {
        assert forall|x: u32| s.contains(x) implies x <= a by {
            if x != a {
                assert(t.contains(x));
            }
        }
        a
    } else {
        let b = lemma_max(t);
        let m = if a > b {
            a
        } else {
            b
        };
        assert forall|x: u32| s.contains(x) implies x <= m by {
            if x != a {
                assert(t.contains(x));
            }
        }
        m
    }
}

/// The IDs of `b` in ascending order.
pub fn to_vec(b: &RoaringBitmap) -> (v: Vec<u32>)
    ensures
        v@ == listed(ids(*b)),
        lists(v@, ids(*b)),
        v@.len() == ids(*b).len(),
{
    let v = values(b);
    proof {
        lemma_listed(v@, ids(*b));
        lemma_listed_exists(ids(*b));
    }
    v
}

/// Up to `limit` IDs of `b`, in ascending order.
pub fn take_ids(b: &RoaringBitmap, limit: usize) -> (v: Vec<u32>)
    ensures
        v@ == first_ids(ids(*b), limit as nat),
{
    let mut v = to_vec(b);
    v.truncate(limit);
    assert(v@ =~= first_ids(ids(*b), limit as nat));
    v
}

/// Reads a posting.
pub fn deserialize(raw: &[u8]) -> (r: Result<RoaringBitmap, IndexError>)
    ensures
        match r {
            Ok(b) => read_ids(raw@) == Some(ids(b)),
            Err(e) => read_ids(raw@) is None && e == IndexError::Malformed("unreadable roaring posting"),
        },
{
    match deserialize_raw(raw) {
        Some(b) => Ok(b),
        None => Err(IndexError::Malformed("unreadable roaring posting")),
    }
}

/// The IDs of `s` below `boundary`.
pub open spec fn below(s: Set<u32>, boundary: u32) -> Set<u32> {
    s.filter(|x: u32| x < boundary)
}

/// The IDs of `s` from `boundary` on.
pub open spec fn from_on(s: Set<u32>, boundary: u32) -> Set<u32> {
    s.filter(|x: u32| x >= boundary)
}

/// Serializes the posting `b` as its head, the IDs below `boundary`, and its tail, the rest.
/// Ascending IDs are descending rank, so the head holds the top-ranked docs.
pub fn split_posting(b: &RoaringBitmap, boundary: u32) -> (parts: (Vec<u8>, Vec<u8>))
    ensures
        read_ids(parts.0@) == Some(below(ids(*b), boundary)),
        read_ids(parts.1@) == Some(from_on(ids(*b), boundary)),
        parts.0@ == image(below(ids(*b), boundary)),
        parts.1@ == image(from_on(ids(*b), boundary)),
{
    let all = to_vec(b);
    let mut head = RoaringBitmap::new();
    let mut tail = RoaringBitmap::new();
    let mut i: usize = 0;
    while i < all.len()
        invariant
            i <= all@.len(),
            lists(all@, ids(*b)),
            canonical(head),
            canonical(tail),
            forall|x: u32|
                ids(head).contains(x) <==> x < boundary && all@.take(i as int).contains(x),
            forall|x: u32|
                ids(tail).contains(x) <==> x >= boundary && all@.take(i as int).contains(x),
        decreases all@.len() - i,
    {
        let x: u32 = all[i];
        if x < boundary {
            head.insert(x);
        } else {
            tail.insert(x);
        }
        proof {
            let t = all@.take(i as int);
            assert(all@.take(i + 1) =~= t.push(x));
            assert forall|y: u32| t.push(x).contains(y) <==> t.contains(y) || y == x by {
                if t.contains(y) {
                    let k = choose|k: int| 0 <= k < t.len() && t[k] == y;
                    assert(t.push(x)[k] == y);
                }
                assert(t.push(x)[t.len() as int] == x);
            }
        }
        i += 1;
    }
    proof {
        assert(all@.take(i as int) =~= all@);
        assert(ids(head) =~= below(ids(*b), boundary));
        assert(ids(tail) =~= from_on(ids(*b), boundary));
    }
    (serialize(&head), serialize(&tail))
}

/// The head and the tail of a posting are together the whole of it.
pub proof fn law_head_tail(s: Set<u32>, boundary: u32)
    ensures
        below(s, boundary).union(from_on(s, boundary)) == s,
        below(s, boundary).disjoint(from_on(s, boundary)),
{
    assert(below(s, boundary).union(from_on(s, boundary)) =~= s);
}

/// The ascending list of a set is that of its head followed by that of its tail.
pub proof fn lemma_listed_split(s: Set<u32>, boundary: u32)
    ensures
        listed(s) == listed(below(s, boundary)) + listed(from_on(s, boundary)),
{
    let a = below(s, boundary);
    let b = from_on(s, boundary);
    lemma_listed_exists(a);
    lemma_listed_exists(b);
    let v = listed(a);
    let w = listed(b);
    assert forall|i: int, j: int| 0 <= i < j < (v + w).len() implies (v + w)[i] < (v + w)[j] by {
        if i < v.len() && j >= v.len() {
            assert(v.contains(v[i]));
            assert(w.contains(w[j - v.len()]));
            assert(a.contains(v[i]));
            assert(b.contains(w[j - v.len()]));
        }
    }
    assert forall|x: u32| s.contains(x) <==> (v + w).contains(x) by {
        if s.contains(x) {
            if x < boundary {
                assert(a.contains(x));
                let k = choose|k: int| 0 <= k < v.len() && v[k] == x;
                assert((v + w)[k] == x);
            } else {
                assert(b.contains(x));
                let k = choose|k: int| 0 <= k < w.len() && w[k] == x;
                assert((v + w)[v.len() + k] == x);
            }
        }
        if (v + w).contains(x) {
            let k = choose|k: int| 0 <= k < (v + w).len() && (v + w)[k] == x;
            if k < v.len() {
                assert(v.contains(x));
                assert(a.contains(x));
            } else {
                assert(w[k - v.len()] == x);
                assert(w.contains(x));
                assert(b.contains(x));
            }
        }
    }
    lemma_listed(v + w, s);
}

/// Where the head of a set fills a page, the page of the head is the page of the set.
pub proof fn law_head_fills_page(s: Set<u32>, boundary: u32, limit: nat)
    requires
        below(s, boundary).len() >= limit,
    ensures
        first_ids(below(s, boundary), limit) == first_ids(s, limit),
{
    lemma_listed_split(s, boundary);
    lemma_listed_exists(below(s, boundary));
    let v = listed(below(s, boundary));
    assert(v.take(limit as int) =~= listed(s).take(limit as int));
    if v.len() == limit {
        assert(v.take(limit as int) =~= v);
    }
    if listed(s).len() == limit {
        assert(listed(s).take(limit as int) =~= listed(s));
    }
}

/// A page of a set is its smallest members, ascending: as many as asked for or as there are.
pub proof fn law_first_ids(s: Set<u32>, limit: nat)
    ensures
        ({
            let page = first_ids(s, limit);
            &&& page.len() == vstd::math::min(s.len() as int, limit as int)
            &&& forall|i: int, j: int| 0 <= i < j < page.len() ==> page[i] < page[j]
            &&& forall|i: int| 0 <= i < page.len() ==> s.contains(#[trigger] page[i])
            &&& forall|x: u32, i: int|
                #![trigger s.contains(x), page[i]]
                s.contains(x) && !page.contains(x) && 0 <= i < page.len() ==> page[i] < x
        }),
{
    lemma_listed_exists(s);
    let v = listed(s);
    let page = first_ids(s, limit);
    assert forall|i: int| 0 <= i < page.len() implies s.contains(#[trigger] page[i]) by {
        assert(v.contains(v[i]));
    }
    assert forall|x: u32, i: int|
        #![trigger s.contains(x), page[i]]
        s.contains(x) && !page.contains(x) && 0 <= i < page.len() implies page[i] < x by {
        assert(v.contains(x));
        let k = choose|k: int| 0 <= k < v.len() && v[k] == x;
        if k < page.len() {
            assert(page[k] == x);
        }
        assert(v[i] < v[k]);
    }
}

/// The head of a posting is below the boundary and the tail is not.
pub proof fn law_head_below_tail(s: Set<u32>, boundary: u32, x: u32)
    ensures
        below(s, boundary).contains(x) ==> x < boundary && s.contains(x),
        from_on(s, boundary).contains(x) ==> x >= boundary && s.contains(x),
        s.contains(x) ==> below(s, boundary).contains(x) || from_on(s, boundary).contains(x),
{
}

} // verus!
