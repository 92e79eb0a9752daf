//! What a browser client decides around its fetches: range requests and their answers, set
//! operations over bitmaps, and a split set's figures.

use crate::bitmap::{
    deserialize, duplicate, ids, intersect_with, listed, read_ids, subtract, to_vec, union_with,
};
use crate::error::{FetchError, IndexError};
use crate::lists;
use crate::splitset::SplitSet;
use crate::text::{decimal, put_decimal};
use roaring::RoaringBitmap;
use vstd::prelude::*;

verus! {

/// The value of a range request's header: `bytes=‹first›-‹last›`.
pub open spec fn range_value(offset: u64, len: nat) -> Seq<char> {
    "bytes="@ + decimal(offset as nat) + "-"@ + decimal((offset + len - 1) as nat)
}

/// What to ask for to read `len` bytes at `offset`: nothing where `len` is zero, else the value
/// of the range header; an error where the range runs past the largest offset.
pub fn range_header(offset: u64, len: usize) -> (r: Result<Option<String>, FetchError>)
    ensures
        if len == 0 {
            r == Ok::<Option<String>, FetchError>(None)
        } else if offset + len > u64::MAX {
            r matches Err(FetchError::Transport(m)) && m@ == "range "@ + decimal(offset as nat)
                + "+"@ + decimal(len as nat) + " overflows u64"@
        } else {
            r matches Ok(Some(s)) && s@ == range_value(offset, len as nat)
        },
{
    if len == 0 {
        return Ok(None);
    }
    let end: u64 = match offset.checked_add(len as u64) {
        Some(sum) => sum - 1,
        None => {
            let mut m = String::new();
            m.append("range ");
            put_decimal(&mut m, offset);
            m.append("+");
            put_decimal(&mut m, len as u64);
            m.append(" overflows u64");
            assert(m@ =~= "range "@ + decimal(offset as nat) + "+"@ + decimal(len as nat)
                + " overflows u64"@);
            return Err(FetchError::Transport(m));
        },
    };
    let mut s = String::new();
    s.append("bytes=");
    put_decimal(&mut s, offset);
    s.append("-");
    put_decimal(&mut s, end);
    assert(s@ =~= range_value(offset, len as nat));
    Ok(Some(s))
}

/// Checks the answer to a range request: the status must be a success, and the body exactly as
/// long as was asked for. Every parser slices on that guarantee, which an origin that ignores
/// the range header would break.
pub fn check_answer(range: &str, ok: bool, status: u16, got: usize, len: usize) -> (r: Result<
    (),
    FetchError,
>)
    ensures
        if !ok {
            r matches Err(FetchError::Transport(m)) && m@ == "HTTP "@ + decimal(status as nat)
                + " for range "@ + range@
        } else if got != len {
            r matches Err(FetchError::Transport(m)) && m@ == "range "@ + range@ + " returned "@
                + decimal(got as nat) + " bytes, expected "@ + decimal(len as nat)
                + " (origin may not honor Range requests)"@
        } else {
            r is Ok
        },
{
    if !ok {
        let mut m = String::new();
        m.append("HTTP ");
        put_decimal(&mut m, status as u64);
        m.append(" for range ");
        m.append(range);
        assert(m@ =~= "HTTP "@ + decimal(status as nat) + " for range "@ + range@);
        return Err(FetchError::Transport(m));
    }
    if got != len {
        let mut m = String::new();
        m.append("range ");
        m.append(range);
        m.append(" returned ");
        put_decimal(&mut m, got as u64);
        m.append(" bytes, expected ");
        put_decimal(&mut m, len as u64);
        m.append(" (origin may not honor Range requests)");
        assert(m@ =~= "range "@ + range@ + " returned "@ + decimal(got as nat)
            + " bytes, expected "@ + decimal(len as nat)
            + " (origin may not honor Range requests)"@);
        return Err(FetchError::Transport(m));
    }
    Ok(())
}

/// `base` without the slashes at its end.
pub open spec fn without_slashes(base: Seq<char>) -> Seq<char>
    decreases base.len(),
{
    if base.len() > 0 && base.last() == '/' {
        without_slashes(base.drop_last())
    } else {
        base
    }
}

/// The address of the file `name` of a split set under `base`.
pub fn file_url(base: &str, name: &str) -> (url: String)
    ensures
        url@ == without_slashes(base@) + "/"@ + name@,
{
    let mut n: usize = base.unicode_len();
    assert(base@.take(n as int) =~= base@);
    while n > 0 && base.get_char(n - 1) == '/'
        invariant
            n <= base@.len(),
            without_slashes(base@) == without_slashes(base@.take(n as int)),
        decreases n,
    {
        assert(base@.take(n as int).drop_last() =~= base@.take(n - 1));
        n -= 1;
    }
    let mut url = String::new();
    url.append(base.substring_char(0, n));
    url.append("/");
    url.append(name);
    proof {
        assert(base@.subrange(0, n as int) =~= base@.take(n as int));
        assert(url@ =~= without_slashes(base@) + "/"@ + name@);
    }
    url
}

/// The IDs of `v` that `mask` holds, in order.
pub open spec fn masked(v: Seq<u32>, mask: Set<u32>) -> Seq<u32>
    decreases v.len(),
{
    if v.len() == 0 {
        Seq::empty()
    } else {
        let front = masked(v.drop_last(), mask);
        if mask.contains(v.last()) {
            front.push(v.last())
        } else {
            front
        }
    }
}

/// Filters a ranked doc-ID list by the docs of `mask`; the order is kept.
pub fn filtered_ids(v: &[u32], mask: &RoaringBitmap) -> (kept: Vec<u32>)
    ensures
        kept@ == masked(v@, ids(*mask)),
        kept@ == v@.filter(|x: u32| ids(*mask).contains(x)),
{
    let mut kept: Vec<u32> = Vec::new();
    let mut i: usize = 0;
    assert(v@.take(0) =~= Seq::<u32>::empty());
    while i < v.len()
        invariant
            i <= v@.len(),
            kept@ == masked(v@.take(i as int), ids(*mask)),
        decreases v@.len() - i,
    {
        assert(v@.take(i + 1).drop_last() =~= v@.take(i as int));
        if mask.contains(v[i]) {
            kept.push(v[i]);
        }
        i += 1;
    }
    assert(v@.take(i as int) =~= v@);
    proof {
        lemma_masked(v@, ids(*mask));
    }
    kept
}

/// A count estimate with a facet filter's bound taken in: the smaller of the two, and never
/// exact where there is a bound.
pub fn bound_count(count: u64, exact: bool, bound: Option<u64>) -> (r: (u64, bool))
    ensures
        r == (match bound {
            Some(b) => (
                if b < count {
                    b
                } else {
                    count
                },
                false,
            ),
            None => (count, exact),
        }),
        r.0 <= count,
        bound matches Some(b) ==> r.0 <= b && (r.0 == b || r.0 == count) && !r.1,
        bound is None ==> r == (count, exact),
{
    match bound {
        Some(b) => (
            if b < count {
                b
            } else {
                count
            },
            false,
        ),
        None => (count, exact),
    }
}

/// A standalone portable bitmap for client-side set operations over external bitmaps.
pub struct WasmBitmap {
    /// The doc IDs.
    pub inner: RoaringBitmap,
}

impl WasmBitmap {
    /// Reads a portable bitmap from `raw`.
    pub fn from_bytes(raw: &[u8]) -> (r: Result<WasmBitmap, IndexError>)
        ensures
            match r {
                Ok(b) => read_ids(raw@) == Some(ids(b.inner)),
                Err(e) => read_ids(raw@) is None && e == IndexError::Malformed(
                    "unreadable roaring posting",
                ),
            },
    {
        match deserialize(raw) {
            Ok(inner) => Ok(WasmBitmap { inner }),
            Err(e) => Err(e),
        }
    }

    /// The intersection as a new bitmap.
    pub fn and(&self, other: &WasmBitmap) -> (b: WasmBitmap)
        ensures
            ids(b.inner) == ids(self.inner).intersect(ids(other.inner)),
    {
        let mut inner = duplicate(&self.inner);
        intersect_with(&mut inner, &other.inner);
        WasmBitmap { inner }
    }

    /// The difference as a new bitmap.
    pub fn andnot(&self, other: &WasmBitmap) -> (b: WasmBitmap)
        ensures
            ids(b.inner) == ids(self.inner).difference(ids(other.inner)),
    {
        let mut inner = duplicate(&self.inner);
        subtract(&mut inner, &other.inner);
        WasmBitmap { inner }
    }

    /// The union as a new bitmap.
    pub fn or(&self, other: &WasmBitmap) -> (b: WasmBitmap)
        ensures
            ids(b.inner) == ids(self.inner).union(ids(other.inner)),
    {
        let mut inner = duplicate(&self.inner);
        union_with(&mut inner, &other.inner);
        WasmBitmap { inner }
    }

    /// Number of doc IDs set, held at the largest `u32`.
    pub fn len(&self) -> (n: u32)
        ensures
            n == (if ids(self.inner).len() <= u32::MAX {
                ids(self.inner).len() as u32
            } else {
                u32::MAX
            }),
    {
        let n: u64 = self.inner.len();
        if n <= u32::MAX as u64 {
            n as u32
        } else {
            u32::MAX
        }
    }

    /// Whether the bitmap holds no doc IDs.
    pub fn is_empty(&self) -> (none: bool)
        ensures
            none == (ids(self.inner) == Set::<u32>::empty()),
    {
        self.inner.is_empty()
    }

    /// Doc IDs in ascending order (which is rank order), skipping `offset` and taking up to
    /// `limit`.
    pub fn page(&self, offset: usize, limit: usize) -> (v: Vec<u32>)
        ensures
            ({
                let all = listed(ids(self.inner));
                let rest = if offset <= all.len() {
                    all.skip(offset as int)
                } else {
                    Seq::empty()
                };
                v@ == (if limit <= rest.len() {
                    rest.take(limit as int)
                } else {
                    rest
                })
            }),
            v@.len() <= limit,
            v@.len() < limit ==> offset + v@.len() >= ids(self.inner).len(),
            forall|i: int|
                0 <= i < v@.len() ==> #[trigger] v@[i] == listed(ids(self.inner))[offset + i],
    {
        let all = to_vec(&self.inner);
        let n: usize = all.len();
        let mut v: Vec<u32> = Vec::new();
        if offset >= n {
            proof {
                if offset == n {
                    assert(all@.skip(offset as int) =~= Seq::<u32>::empty());
                    if limit == 0 {
                        assert(all@.skip(offset as int).take(0) =~= Seq::<u32>::empty());
                    }
                } else if limit == 0 {
                    assert(Seq::<u32>::empty().take(0) =~= Seq::<u32>::empty());
                }
                assert(v@ =~= Seq::<u32>::empty());
            }
            return v;
        }
        let end: usize = if limit <= n - offset {
            offset + limit
        } else {
            n
        };
        let mut i: usize = offset;
        while i < end
            invariant
                offset <= i <= end <= n,
                n == all@.len(),
                v@ == all@.subrange(offset as int, i as int),
            decreases end - i,
        {
            v.push(all[i]);
            assert(v@ =~= all@.subrange(offset as int, i + 1));
            i += 1;
        }
        proof {
            let rest = all@.skip(offset as int);
            assert(rest.take(end - offset) =~= all@.subrange(offset as int, end as int));
            assert(rest.len() == n - offset);
            if end == n {
                assert(rest.take(end - offset) =~= rest);
            }
        }
        v
    }
}

/// The sum of the splits' doc counts.
pub open spec fn docs_in(splits: Seq<crate::splitset::SplitView>) -> nat
    decreases splits.len(),
{
    if splits.len() == 0 {
        0
    } else {
        docs_in(splits.drop_last()) + splits.last().doc_count as nat
    }
}

/// Total documents that the manifest's splits hold, held at the largest `u64`.
pub fn doc_count(set: &SplitSet) -> (n: u64)
    ensures
        n == crate::terms::held(docs_in(set@.splits) as int),
{
    let splits = set.splits();
    let ghost all = set@.splits;
    let mut n: u64 = 0;
    let mut i: usize = 0;
    assert(all.take(0) =~= Seq::<crate::splitset::SplitView>::empty());
    while i < splits.len()
        invariant
            i <= splits@.len(),
            all == crate::splitset::split_views(splits@),
            n == crate::terms::held(docs_in(all.take(i as int)) as int),
        decreases splits@.len() - i,
    {
        assert(all.take(i + 1).drop_last() =~= all.take(i as int));
        assert(all.take(i + 1).last() == splits@[i as int]@);
        n = n.saturating_add(splits[i].doc_count as u64);
        i += 1;
    }
    assert(all.take(i as int) =~= all);
    n
}

/// Filtering a ranked list by a mask keeps exactly the listed IDs that the mask holds, each as
/// often as it is listed and in the order of the list.
pub proof fn law_masked(v: Seq<u32>, mask: Set<u32>)
    ensures
        masked(v, mask) == v.filter(|x: u32| mask.contains(x)),
        forall|x: u32| masked(v, mask).contains(x) <==> v.contains(x) && mask.contains(x),
    decreases v.len(),
{
    let p = |x: u32| mask.contains(x);
    lemma_masked(v, mask);
    lists::lemma_filter_members(v, p);
}

proof fn lemma_masked(v: Seq<u32>, mask: Set<u32>)
    ensures
        masked(v, mask) == v.filter(|x: u32| mask.contains(x)),
    decreases v.len(),
{
    reveal(Seq::filter);
    if v.len() > 0 {
        lemma_masked(v.drop_last(), mask);
    } else {
        assert(v =~= Seq::<u32>::empty());
    }
}

/// Filtering a list in two parts is filtering it whole, and a mask that holds every ID of a list
/// keeps all of it.
pub proof fn law_masked_parts(a: Seq<u32>, b: Seq<u32>, mask: Set<u32>)
    ensures
        masked(a + b, mask) == masked(a, mask) + masked(b, mask),
        (forall|i: int| 0 <= i < a.len() ==> mask.contains(#[trigger] a[i])) ==> masked(a, mask)
            == a,
{
    let p = |x: u32| mask.contains(x);
    lemma_masked(a, mask);
    lemma_masked(b, mask);
    lemma_masked(a + b, mask);
    Seq::filter_distributes_over_add(a, b, p);
    if forall|i: int| 0 <= i < a.len() ==> mask.contains(#[trigger] a[i]) {
        lists::lemma_filter_all(a, p);
    }
}

/// The docs of two lists of splits are together those of both, and those of one split are its
/// own count.
pub proof fn law_docs_in(
    a: Seq<crate::splitset::SplitView>,
    b: Seq<crate::splitset::SplitView>,
    s: crate::splitset::SplitView,
)
    ensures
        docs_in(a + b) == docs_in(a) + docs_in(b),
        docs_in(seq![s]) == s.doc_count,
    decreases b.len(),
{
    reveal_with_fuel(docs_in, 2);
    assert(seq![s].drop_last() =~= Seq::<crate::splitset::SplitView>::empty());
    if b.len() == 0 {
        assert(a + b =~= a);
    } else {
        law_docs_in(a, b.drop_last(), s);
        assert((a + b).drop_last() =~= a + b.drop_last());
    }
}

/// What is left of a base address has no slash at its end, and slashes alone were cut off.
pub proof fn law_without_slashes(base: Seq<char>)
    ensures
        ({
            let kept = without_slashes(base);
            &&& kept.len() <= base.len()
            &&& kept == base.take(kept.len() as int)
            &&& kept.len() == 0 || kept.last() != '/'
            &&& forall|i: int| kept.len() <= i < base.len() ==> #[trigger] base[i] == '/'
        }),
    decreases base.len(),
{
    let kept = without_slashes(base);
    if base.len() > 0 && base.last() == '/' {
        law_without_slashes(base.drop_last());
        assert forall|i: int| kept.len() <= i < base.len() implies #[trigger] base[i] == '/' by {
            if i < base.len() - 1 {
                assert(base.drop_last()[i] == base[i]);
            }
        }
        assert(base.drop_last().take(kept.len() as int) =~= base.take(kept.len() as int));
    } else {
        assert(base.take(base.len() as int) =~= base);
    }
}

/// A range request names the first and the last byte of the range, in decimal digits.
pub proof fn law_range_value(offset: u64, len: nat)
    requires
        len > 0,
    ensures
        exists|first: Seq<char>, last: Seq<char>|
            range_value(offset, len) == #[trigger] ("bytes="@ + first + "-"@ + last)
                && first.fold_left(0, |v: int, c: char| v * 10 + crate::text::digit_value(c)) == offset
                && last.fold_left(0, |v: int, c: char| v * 10 + crate::text::digit_value(c)) + 1
                == offset + len,
{
    let (first, last) = (decimal(offset as nat), decimal((offset + len - 1) as nat));
    crate::text::law_decimal(offset as nat);
    crate::text::law_decimal((offset + len - 1) as nat);
    assert(range_value(offset, len) == "bytes="@ + first + "-"@ + last);
}

} // verus!
