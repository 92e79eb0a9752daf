//! The bounded top-k selection and the total order of floating-point bit patterns.

use vstd::prelude::*;

verus! {

/// The ascending `s` with `x` inserted behind what is not greater.
pub open spec fn inserted(s: Seq<u64>, x: u64) -> Seq<u64>
    decreases s.len(),
{
    if s.len() == 0 || s.last() <= x {
        s.push(x)
    } else {
        inserted(s.drop_last(), x).push(s.last())
    }
}

/// The `k` smallest of the ascending `s` and `x`, where `s` holds at most `k`.
pub open spec fn offered(s: Seq<u64>, x: u64, k: nat) -> Seq<u64> {
    let t = inserted(s, x);
    if t.len() > k {
        t.drop_last()
    } else {
        t
    }
}

/// The `k` smallest of `xs`, ascending.
pub open spec fn smallest(xs: Seq<u64>, k: nat) -> Seq<u64>
    decreases xs.len(),
{
    if xs.len() == 0 {
        Seq::empty()
    } else {
        offered(smallest(xs.drop_last(), k), xs.last(), k)
    }
}

/// Whether `s` is in ascending order.
pub open spec fn sorted(s: Seq<u64>) -> bool {
    forall|i: int, j: int| 0 <= i <= j < s.len() ==> s[i] <= s[j]
}

proof fn lemma_inserted(s: Seq<u64>, x: u64)
    requires
        sorted(s),
    ensures
        inserted(s, x).len() == s.len() + 1,
        sorted(inserted(s, x)),
        inserted(s, x).to_multiset() == s.to_multiset().insert(x),
        inserted(s, x).last() >= x,
        s.len() > 0 ==> inserted(s, x).last() >= s.last(),
        s.len() > 0 ==> inserted(s, x).last() == x || inserted(s, x).last() == s.last(),
        s.len() == 0 ==> inserted(s, x).last() == x,
    decreases s.len(),
{
    broadcast use vstd::seq_lib::group_to_multiset_ensures;

    if s.len() > 0 && s.last() > x {
        let front = s.drop_last();
        lemma_inserted(front, x);
        assert(s =~= front.push(s.last()));
        let t = inserted(front, x);
        let out = t.push(s.last());
        assert forall|i: int, j: int| 0 <= i <= j < out.len() implies out[i] <= out[j] by {
            if j == t.len() && i < t.len() {
                assert(t[i] <= t.last());
            }
        }
        assert(t.push(s.last()).to_multiset() =~= front.to_multiset().insert(x).insert(s.last()));
        assert(front.push(s.last()).to_multiset() =~= front.to_multiset().insert(s.last()));
        assert(front.to_multiset().insert(x).insert(s.last()) =~= front.to_multiset().insert(
            s.last(),
        ).insert(x));
    }
}

/// Whether nothing in `out` is smaller than anything in `s`.
pub open spec fn none_below(out: vstd::multiset::Multiset<u64>, s: Seq<u64>) -> bool {
    forall|x: u64, i: int|
        #[trigger] out.count(x) > 0 && 0 <= i < s.len() ==> (#[trigger] s[i]) <= x
}

/// The selection holds the `k` smallest values: it is ascending, it is as long as it can be,
/// what it holds was offered, and what was left out is not smaller than anything held.
pub proof fn law_smallest(xs: Seq<u64>, k: nat)
    ensures
        ({
            let s = smallest(xs, k);
            &&& sorted(s)
            &&& s.len() == (if xs.len() < k {
                xs.len()
            } else {
                k
            })
            &&& exists|out: vstd::multiset::Multiset<u64>|
                #[trigger] s.to_multiset().add(out) == xs.to_multiset() && none_below(out, s)
        }),
    decreases xs.len(),
{
    broadcast use vstd::seq_lib::group_to_multiset_ensures;

    let s = smallest(xs, k);
    if xs.len() == 0 {
        let out = vstd::multiset::Multiset::<u64>::empty();
        assert(s.to_multiset().add(out) =~= xs.to_multiset());
    } else {
        let front = xs.drop_last();
        let x = xs.last();
        law_smallest(front, k);
        let p = smallest(front, k);
        let out = choose|out: vstd::multiset::Multiset<u64>|
            #[trigger] p.to_multiset().add(out) == front.to_multiset() && none_below(out, p);
        lemma_inserted(p, x);
        let t = inserted(p, x);
        assert(xs =~= front.push(x));
        assert(xs.to_multiset() =~= front.to_multiset().insert(x));
        if t.len() > k {
            let left = out.insert(t.last());
            assert(t =~= t.drop_last().push(t.last()));
            assert(t.to_multiset() =~= t.drop_last().to_multiset().insert(t.last()));
            let a = t.drop_last().to_multiset();
            assert(a.add(left) =~= a.insert(t.last()).add(out));
            assert(p.to_multiset().insert(x).add(out) =~= p.to_multiset().add(out).insert(x));
            assert(a.add(left) == xs.to_multiset());
            assert(s == t.drop_last());
            assert forall|y: u64, i: int|
                #[trigger] left.count(y) > 0 && 0 <= i < s.len() implies (#[trigger] s[i])
                <= y by {
                assert(t[i] <= t.last());
                if y != t.last() {
                    assert(out.count(y) > 0);
                    if p.len() == 0 {
                        assert(s.len() == 0);
                    } else {
                        assert(p[p.len() - 1] <= y);
                        lemma_held_below(p, x, i);
                        assert(t[i] <= p.last());
                    }
                }
            }
        } else {
            assert(p.to_multiset().insert(x).add(out) =~= p.to_multiset().add(out).insert(x));
            assert(t.to_multiset().add(out) == xs.to_multiset());
            assert forall|y: u64, i: int|
                #[trigger] out.count(y) > 0 && 0 <= i < s.len() implies (#[trigger] s[i])
                <= y by {
                lemma_nothing_left_out(front, k, out);
            }
        }
    }
}

/// All but the last of the inserted values are at most the old last one.
proof fn lemma_held_below(p: Seq<u64>, x: u64, i: int)
    requires
        sorted(p),
        p.len() > 0,
        0 <= i < p.len(),
    ensures
        inserted(p, x)[i] <= p.last(),
    decreases p.len(),
{
    if p.last() <= x {
        assert(inserted(p, x)[i] == p[i]);
    } else {
        lemma_inserted(p.drop_last(), x);
        lemma_inserted(p, x);
        let t = inserted(p, x);
        assert(t.last() == p.last());
        assert(t[i] <= t[t.len() - 1]);
    }
}

proof fn lemma_nothing_left_out(
    front: Seq<u64>,
    k: nat,
    out: vstd::multiset::Multiset<u64>,
)
    requires
        smallest(front, k).len() < k,
        smallest(front, k).to_multiset().add(out) == front.to_multiset(),
    ensures
        out.len() == 0,
        forall|y: u64| out.count(y) == 0,
{
    broadcast use vstd::seq_lib::group_to_multiset_ensures;

    law_smallest_len(front, k);
    let p = smallest(front, k);
    assert(p.to_multiset().add(out).len() == p.to_multiset().len() + out.len());
    assert(p.to_multiset().len() == p.len());
    assert(front.to_multiset().len() == front.len());
    assert forall|y: u64| out.count(y) == 0 by {
        if out.count(y) > 0 {
            let rest = out.remove(y);
            assert(out =~= rest.insert(y));
            assert(out.len() == rest.len() + 1);
        }
    }
}

proof fn law_smallest_len(xs: Seq<u64>, k: nat)
    ensures
        smallest(xs, k).len() == (if xs.len() < k {
            xs.len()
        } else {
            k
        }),
        sorted(smallest(xs, k)),
    decreases xs.len(),
{
    if xs.len() > 0 {
        law_smallest_len(xs.drop_last(), k);
        lemma_inserted(smallest(xs.drop_last(), k), xs.last());
        let t = inserted(smallest(xs.drop_last(), k), xs.last());
        assert(sorted(t.drop_last()));
    }
}

/// Keeps the `k` smallest of the values offered to it.
pub struct TopK {
    /// How many values are kept.
    pub k: usize,
    /// The values kept, ascending.
    pub kept: Vec<u64>,
}

impl TopK {
    /// Keeps at most `k` values.
    pub fn new(k: usize) -> (t: TopK)
        ensures
            t.k == k,
            t.kept@ == Seq::<u64>::empty(),
    {
        TopK { k, kept: Vec::new() }
    }

    /// Offers `x`: it is kept where fewer than `k` values are held, or where it is smaller than
    /// the largest one, which then goes.
    pub fn offer(&mut self, x: u64)
        requires
            sorted(old(self).kept@),
            old(self).kept@.len() <= old(self).k,
        ensures
            final(self).k == old(self).k,
            final(self).kept@ == offered(old(self).kept@, x, old(self).k as nat),
            sorted(final(self).kept@),
            final(self).kept@.len() <= final(self).k,
    {
        let ghost s = self.kept@;
        proof {
            lemma_inserted(s, x);
        }
        let n: usize = self.kept.len();
        if n >= self.k && (n == 0 || x >= self.kept[n - 1]) {
            proof {
                let t = inserted(s, x);
                assert(t =~= s.push(x));
                assert(t.drop_last() =~= s);
            }
            return ;
        }
        let mut i: usize = n;
        assert(s.take(n as int) =~= s);
        assert(s.skip(n as int) =~= Seq::<u64>::empty());
        assert(inserted(s, x) =~= inserted(s.take(n as int), x) + s.skip(n as int));
        while i > 0 && self.kept[i - 1] > x
            invariant
                i <= n,
                n == s.len(),
                self.kept@ == s,
                self.k == old(self).k,
                inserted(s, x) == inserted(s.take(i as int), x) + s.skip(i as int),
            decreases i,
        {
            proof {
                let a = s.take(i as int);
                assert(a.drop_last() =~= s.take(i - 1));
                assert(inserted(a, x) == inserted(s.take(i - 1), x).push(s[i - 1]));
                assert(inserted(s.take(i - 1), x).push(s[i - 1]) + s.skip(i as int) =~= inserted(
                    s.take(i - 1),
                    x,
                ) + s.skip(i - 1));
            }
            i -= 1;
        }
        proof {
            let a = s.take(i as int);
            assert(inserted(a, x) =~= a.push(x));
        }
        self.kept.insert(i, x);
        assert(self.kept@ =~= inserted(s, x));
        if self.kept.len() > self.k {
            self.kept.pop();
        }
        assert(self.kept@ =~= offered(s, x, self.k as nat));
    }
}

/// The place of a float, given by its bits, in the total order of floats: negative numbers
/// first, then positive ones, with the NaNs at the ends by their sign.
pub open spec fn float_key(bits: u32) -> u32 {
    if bits < 0x8000_0000 {
        (bits + 0x8000_0000) as u32
    } else {
        (0xffff_ffff - bits) as u32
    }
}

/// [`float_key`] of the float with the given bits.
pub fn order_key(bits: u32) -> (key: u32)
    ensures
        key == float_key(bits),
{
    if bits < 0x8000_0000 {
        bits + 0x8000_0000
    } else {
        0xffff_ffff - bits
    }
}

/// A candidate of a search as one number: by distance in the total order of floats, then by ID.
pub open spec fn candidate(dist: u32, id: u32) -> u64 {
    (float_key(dist) * 0x1_0000_0000 + id) as u64
}

/// Packs a candidate's distance, given by its bits, and its ID.
pub fn pack_candidate(dist: u32, id: u32) -> (c: u64)
    ensures
        c == candidate(dist, id),
{
    order_key(dist) as u64 * 0x1_0000_0000 + id as u64
}

/// The distance bits and the ID of a packed candidate.
pub fn unpack_candidate(c: u64) -> (p: (u32, u32))
    ensures
        candidate(p.0, p.1) == c,
{
    let key: u32 = (c / 0x1_0000_0000) as u32;
    let bits: u32 = if key >= 0x8000_0000 {
        key - 0x8000_0000
    } else {
        0xffff_ffff - key
    };
    (bits, (c % 0x1_0000_0000) as u32)
}

/// Candidates are told apart by their packed form, and ordered by distance and then by ID.
pub proof fn law_candidate_order(a: u32, i: u32, b: u32, j: u32)
    ensures
        candidate(a, i) == candidate(b, j) <==> a == b && i == j,
        candidate(a, i) < candidate(b, j) <==> float_key(a) < float_key(b) || (a == b && i < j),
{
}

/// Floats, given by their bits, are ordered by their numbers: of two positive ones the greater
/// bits are the greater number, of two negative ones the smaller, and every negative one sorts
/// before every positive one.
pub proof fn law_float_order(a: u32, b: u32)
    ensures
        a < 0x8000_0000 && b < 0x8000_0000 ==> (float_key(a) < float_key(b) <==> a < b),
        a >= 0x8000_0000 && b >= 0x8000_0000 ==> (float_key(a) < float_key(b) <==> b < a),
        a >= 0x8000_0000 && b < 0x8000_0000 ==> float_key(a) < float_key(b),
{
}

} // verus!
