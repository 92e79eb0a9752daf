//! Postings by n-gram key, in key order.

use crate::bitmap;
use roaring::RoaringBitmap;
use std::collections::BTreeMap;
use vstd::prelude::*;

verus! {

broadcast use {
    vstd::std_specs::btree::group_btree_axioms,
    vstd::laws_cmp::group_laws_cmp,
};

/// The IDs that `m` holds under `key`.
pub open spec fn posting(m: Map<u64, Set<u32>>, key: u64) -> Set<u32> {
    if m.contains_key(key) {
        m[key]
    } else {
        Set::empty()
    }
}

/// `m` with the IDs `more` added under `key`.
pub open spec fn with_ids(m: Map<u64, Set<u32>>, key: u64, more: Set<u32>) -> Map<u64, Set<u32>> {
    m.insert(key, posting(m, key).union(more))
}

/// `m` with `id` added under each of `keys`.
pub open spec fn with_doc(m: Map<u64, Set<u32>>, keys: Seq<u64>, id: u32) -> Map<u64, Set<u32>>
    decreases keys.len(),
{
    if keys.len() == 0 {
        m
    } else {
        with_ids(with_doc(m, keys.drop_last(), id), keys.last(), set![id])
    }
}

/// `m` without the IDs `dead`, and without the keys that then hold nothing.
pub open spec fn without_ids(m: Map<u64, Set<u32>>, dead: Set<u32>) -> Map<u64, Set<u32>> {
    Map::new(
        |k: u64| m.contains_key(k) && !m[k].subset_of(dead),
        |k: u64| m[k].difference(dead),
    )
}

/// Every ID that `m` holds under some key.
pub open spec fn all_ids(m: Map<u64, Set<u32>>) -> Set<u32> {
    Set::new(|x: u32| exists|k: u64| m.contains_key(k) && #[trigger] m[k].contains(x))
}

/// Whether `keys` lists the keys of `m`, each once and ascending.
pub open spec fn lists_keys(keys: Seq<u64>, m: Map<u64, Set<u32>>) -> bool {
    &&& forall|i: int, j: int| 0 <= i < j < keys.len() ==> keys[i] < keys[j]
    &&& forall|k: u64| m.contains_key(k) <==> keys.contains(k)
}

/// The keys of `m`, ascending.
pub open spec fn keys_of(m: Map<u64, Set<u32>>) -> Seq<u64> {
    choose|keys: Seq<u64>| lists_keys(keys, m)
}

/// Two ascending lists of the keys of one map are the same.
pub proof fn lemma_keys_unique(v: Seq<u64>, w: Seq<u64>, m: Map<u64, Set<u32>>)
    requires
        lists_keys(v, m),
        lists_keys(w, m),
    ensures
        v == w,
    decreases v.len(),
{
    if v.len() == 0 {
        if w.len() > 0 {
            assert(w.contains(w[0]));
            assert(v.contains(w[0]));
        }
        assert(v =~= w);
    } else {
        let x = v.last();
        assert(v.contains(x));
        assert(w.contains(x));
        let y = w.last();
        assert(w.contains(y));
        assert(v.contains(y));
        assert(x == y) by {
            let i = choose|i: int| 0 <= i < v.len() && v[i] == y;
            let j = choose|j: int| 0 <= j < w.len() && w[j] == x;
            assert(x <= y && y <= x);
        }
        let t = m.remove(x);
        lemma_keys_drop_last(v, m);
        lemma_keys_drop_last(w, m);
        lemma_keys_unique(v.drop_last(), w.drop_last(), t);
        assert(v =~= v.drop_last().push(x));
        assert(w =~= w.drop_last().push(x));
    }
}

proof fn lemma_keys_drop_last(v: Seq<u64>, m: Map<u64, Set<u32>>)
    requires
        lists_keys(v, m),
        v.len() > 0,
    ensures
        lists_keys(v.drop_last(), m.remove(v.last())),
{
    let x = v.last();
    let u = v.drop_last();
    assert forall|k: u64| m.remove(x).contains_key(k) <==> u.contains(k) by {
        if m.remove(x).contains_key(k) {
            assert(v.contains(k));
            let i = choose|i: int| 0 <= i < v.len() && v[i] == k;
            assert(u[i] == k);
        }
        if u.contains(k) {
            let i = choose|i: int| 0 <= i < u.len() && u[i] == k;
            assert(v[i] == k);
            assert(v.contains(k));
        }
    }
}

/// A map from n-gram keys to bitmaps of doc IDs.
pub struct KeyPostings {
    map: BTreeMap<u64, RoaringBitmap>,
}

impl View for KeyPostings {
    type V = Map<u64, Set<u32>>;

    closed spec fn view(&self) -> Map<u64, Set<u32>> {
        self.map@.map_values(|b: RoaringBitmap| bitmap::ids(b))
    }
}

impl KeyPostings {
    /// The bitmap under `key`, as it is stored.
    pub closed spec fn stored(&self, key: u64) -> RoaringBitmap {
        self.map@[key]
    }

    /// Whether every bitmap is one that inserts alone have filled, whose serialized bytes follow
    /// from its IDs.
    pub closed spec fn canonical(&self) -> bool {
        forall|k: u64|
            self.map@.contains_key(k) ==> bitmap::canonical(#[trigger] self.map@[k])
    }

    /// No keys.
    pub fn new() -> (p: KeyPostings)
        ensures
            p@ == Map::<u64, Set<u32>>::empty(),
            p.canonical(),
    {
        let p = KeyPostings { map: BTreeMap::new() };
        assert(p@ =~= Map::<u64, Set<u32>>::empty());
        p
    }

    /// How many keys there are.
    pub fn len(&self) -> (n: usize)
        ensures
            n == self@.dom().len(),
    {
        assert(self@.dom() =~= self.map@.dom());
        self.map.len()
    }

    /// Whether there are no keys.
    pub fn is_empty(&self) -> (none: bool)
        ensures
            none == (self@ == Map::<u64, Set<u32>>::empty()),
    {
        proof {
            assert(self@.dom() =~= self.map@.dom());
            if self.map@.is_empty() {
                assert(self@ =~= Map::<u64, Set<u32>>::empty());
            } else {
                assert(exists|k: u64| self.map@.contains_key(k)) by {
                    if forall|k: u64| !self.map@.contains_key(k) {
                        assert(self.map@.dom() =~= Set::<u64>::empty());
                    }
                }
                let k = choose|k: u64| self.map@.contains_key(k);
                assert(self@.contains_key(k));
            }
        }
        self.map.is_empty()
    }

    /// Whether there is a posting under `key`.
    pub fn contains_key(&self, key: u64) -> (found: bool)
        ensures
            found == self@.contains_key(key),
    {
        self.map.contains_key(&key)
    }

    /// The posting under `key`.
    pub fn get(&self, key: u64) -> (b: Option<&RoaringBitmap>)
        ensures
            match b {
                Some(b) => self@.contains_key(key) && bitmap::ids(*b) == self@[key] && *b
                    == self.stored(key) && (self.canonical() ==> bitmap::canonical(*b)),
                None => !self@.contains_key(key),
            },
    {
        self.map.get(&key)
    }

    /// Adds `id` under `key`, and says whether it was absent.
    pub fn insert(&mut self, key: u64, id: u32) -> (fresh: bool)
        ensures
            final(self)@ == with_ids(old(self)@, key, set![id]),
            fresh == !posting(old(self)@, key).contains(id),
            old(self).canonical() ==> final(self).canonical(),
    {
        let ghost before = self@;
        let mut b = match self.map.remove(&key) {
            Some(b) => b,
            None => RoaringBitmap::new(),
        };
        assert(bitmap::ids(b) == posting(before, key));
        let fresh = b.insert(id);
        assert(bitmap::ids(b) =~= posting(before, key).union(set![id]));
        self.map.insert(key, b);
        assert(self@ =~= with_ids(before, key, set![id]));
        fresh
    }

    /// Adds the IDs of `more` under `key`.
    pub fn merge(&mut self, key: u64, more: &RoaringBitmap)
        ensures
            final(self)@ == with_ids(old(self)@, key, bitmap::ids(*more)),
    {
        let ghost before = self@;
        let mut b = match self.map.remove(&key) {
            Some(b) => b,
            None => RoaringBitmap::new(),
        };
        assert(bitmap::ids(b) == posting(before, key));
        bitmap::union_with(&mut b, more);
        self.map.insert(key, b);
        assert(self@ =~= with_ids(before, key, bitmap::ids(*more)));
    }

    /// The keys, ascending.
    pub fn keys(&self) -> (keys: Vec<u64>)
        ensures
            lists_keys(keys@, self@),
            keys@ == keys_of(self@),
            keys@.len() == self@.dom().len(),
    {
        let mut keys: Vec<u64> = Vec::new();
        let entries = self.map.iter();
        let ghost all = vstd::std_specs::iter::IteratorSpec::remaining(&entries);
        let ghost firsts = all.map_values(|kv: (&u64, &RoaringBitmap)| *kv.0);
        assert(vstd::std_specs::btree::increasing_seq(firsts));
        assert forall|i: int, j: int| 0 <= i < j < firsts.len() implies firsts[i] < firsts[j] by {
            assert(vstd::std_specs::cmp::OrdSpec::cmp_spec(&firsts[i], &firsts[j]) is Less);
        }
        for kv in it: entries
            invariant
                it.seq() == all,
                keys@.len() == it.index(),
                forall|i: int| 0 <= i < keys@.len() ==> keys@[i] == *all[i].0,
        {
            keys.push(*kv.0);
        }
        proof {
            assert(keys@ =~= firsts);
            assert(self@.dom() =~= self.map@.dom());
            assert forall|k: u64| self@.contains_key(k) <==> keys@.contains(k) by {
                if self@.contains_key(k) {
                    assert(all.contains((&k, &self.map@[k])));
                    let j = choose|j: int| 0 <= j < all.len() && all[j] == (&k, &self.map@[k]);
                    assert(keys@[j] == k);
                }
                if keys@.contains(k) {
                    let j = choose|j: int| 0 <= j < keys@.len() && keys@[j] == k;
                    assert(self.map@.contains_key(*all[j].0));
                }
            }
            lemma_keys_unique(keys@, keys_of(self@), self@);
        }
        keys
    }

    /// Drops the IDs of `dead` from every posting, and every key that then holds nothing.
    pub fn subtract(&mut self, dead: &RoaringBitmap)
        ensures
            final(self)@ == without_ids(old(self)@, bitmap::ids(*dead)),
    {
        let keys = self.keys();
        let ghost before = self@;
        let ghost gone = bitmap::ids(*dead);
        let mut i: usize = 0;
        assert forall|j: int| 0 <= j < keys@.len() implies self@.contains_key(
            #[trigger] keys@[j],
        ) by {
            assert(keys@.contains(keys@[j]));
        }
        while i < keys.len()
            invariant
                i <= keys@.len(),
                lists_keys(keys@, before),
                gone == bitmap::ids(*dead),
                forall|j: int|
                    0 <= j < i ==> {
                        let k = #[trigger] keys@[j];
                        if before[k].subset_of(gone) {
                            !self@.contains_key(k)
                        } else {
                            self@.contains_key(k) && self@[k] == before[k].difference(gone)
                        }
                    },
                forall|j: int|
                    i <= j < keys@.len() ==> self@.contains_key(#[trigger] keys@[j])
                        && self@[keys@[j]] == before[keys@[j]],
                forall|k: u64| self@.contains_key(k) ==> before.contains_key(k),
            decreases keys@.len() - i,
        {
            let key: u64 = keys[i];
            let ghost prior = self@;
            assert(prior.contains_key(key));
            if let Some(b) = self.map.remove(&key) {
                let mut b = b;
                assert(bitmap::ids(b) == before[key]);
                bitmap::subtract(&mut b, dead);
                if !b.is_empty() {
                    assert(!before[key].subset_of(gone)) by {
                        if before[key].subset_of(gone) {
                            assert(bitmap::ids(b) =~= Set::<u32>::empty());
                        }
                    }
                    self.map.insert(key, b);
                    assert(self@ =~= prior.insert(key, before[key].difference(gone)));
                } else {
                    assert(before[key].subset_of(gone)) by {
                        assert forall|x: u32| before[key].contains(x) implies gone.contains(x) by {
                            assert(!bitmap::ids(b).contains(x));
                        }
                    }
                    assert(self@ =~= prior.remove(key));
                }
            }
            i += 1;
        }
        proof {
            assert forall|k: u64| before.contains_key(k) implies keys@.contains(k) by {}
            let want = without_ids(before, gone);
            assert forall|k: u64| self@.contains_key(k) <==> want.contains_key(k) by {
                if before.contains_key(k) {
                    let j = choose|j: int| 0 <= j < keys@.len() && keys@[j] == k;
                    assert(keys@[j] == k);
                }
            }
            assert forall|k: u64| want.contains_key(k) implies self@[k] == want[k] by {
                let j = choose|j: int| 0 <= j < keys@.len() && keys@[j] == k;
                assert(keys@[j] == k);
            }
            assert(self@ =~= want);
        }
    }

    /// Every ID that some posting holds.
    pub fn all_ids(&self) -> (b: RoaringBitmap)
        ensures
            bitmap::ids(b) == all_ids(self@),
    {
        let keys = self.keys();
        let mut b = RoaringBitmap::new();
        let mut i: usize = 0;
        while i < keys.len()
            invariant
                i <= keys@.len(),
                lists_keys(keys@, self@),
                forall|x: u32|
                    bitmap::ids(b).contains(x) <==> exists|j: int|
                        0 <= j < i && self@[#[trigger] keys@[j]].contains(x),
            decreases keys@.len() - i,
        {
            assert(keys@.contains(keys@[i as int]));
            let ghost prior = bitmap::ids(b);
            if let Some(p) = self.get(keys[i]) {
                bitmap::union_with(&mut b, p);
            }
            proof {
                assert forall|x: u32|
                    bitmap::ids(b).contains(x) <==> exists|j: int|
                        0 <= j < i + 1 && self@[#[trigger] keys@[j]].contains(x) by {
                    if prior.contains(x) {
                        let j = choose|j: int| 0 <= j < i && self@[#[trigger] keys@[j]].contains(x);
                        assert(self@[keys@[j]].contains(x));
                    }
                    if self@[keys@[i as int]].contains(x) {
                        assert(0 <= i < i + 1);
                    }
                }
            }
            i += 1;
        }
        proof {
            assert forall|x: u32| bitmap::ids(b).contains(x) <==> all_ids(self@).contains(x) by {
                if bitmap::ids(b).contains(x) {
                    let j = choose|j: int|
                        0 <= j < keys@.len() && self@[#[trigger] keys@[j]].contains(x);
                    assert(keys@.contains(keys@[j]));
                    assert(self@[keys@[j]].contains(x));
                }
                if all_ids(self@).contains(x) {
                    let k = choose|k: u64| self@.contains_key(k) && #[trigger] self@[k].contains(x);
                    assert(keys@.contains(k));
                    let j = choose|j: int| 0 <= j < keys@.len() && keys@[j] == k;
                    assert(self@[keys@[j]].contains(x));
                }
            }
            assert(bitmap::ids(b) =~= all_ids(self@));
        }
        b
    }

    /// Drops everything.
    pub fn clear(&mut self)
        ensures
            final(self)@ == Map::<u64, Set<u32>>::empty(),
            final(self).canonical(),
    {
        self.map.clear();
        assert(self@ =~= Map::<u64, Set<u32>>::empty());
    }
}

/// Adding a doc puts it under exactly its keys and changes nothing else.
pub proof fn law_with_doc(m: Map<u64, Set<u32>>, keys: Seq<u64>, id: u32, k: u64, x: u32)
    ensures
        posting(with_doc(m, keys, id), k).contains(x) <==> posting(m, k).contains(x) || (x == id
            && keys.contains(k)),
        with_doc(m, keys, id).contains_key(k) <==> m.contains_key(k) || keys.contains(k),
    decreases keys.len(),
{
    if keys.len() > 0 {
        let front = keys.drop_last();
        law_with_doc(m, front, id, k, x);
        if keys.contains(k) {
            let i = choose|i: int| 0 <= i < keys.len() && keys[i] == k;
            if i < front.len() {
                assert(front[i] == k);
            }
        }
        if front.contains(k) {
            let i = choose|i: int| 0 <= i < front.len() && front[i] == k;
            assert(keys[i] == k);
        }
        if keys.last() == k {
            assert(keys[keys.len() - 1] == k);
        }
    }
}

/// Dropping dead docs takes exactly those out of every posting, and drops a key exactly where
/// nothing is left under it.
pub proof fn law_without_ids(m: Map<u64, Set<u32>>, dead: Set<u32>, k: u64, x: u32)
    ensures
        posting(without_ids(m, dead), k).contains(x) <==> posting(m, k).contains(x)
            && !dead.contains(x),
        without_ids(m, dead).contains_key(k) <==> exists|y: u32|
            posting(m, k).contains(y) && !dead.contains(y),
        all_ids(m).contains(x) <==> exists|j: u64| #[trigger] posting(m, j).contains(x),
{
    if m.contains_key(k) && !m[k].subset_of(dead) {
        let y = choose|y: u32| m[k].contains(y) && !dead.contains(y);
        assert(posting(m, k).contains(y));
    }
    if exists|y: u32| posting(m, k).contains(y) && !dead.contains(y) {
        let y = choose|y: u32| posting(m, k).contains(y) && !dead.contains(y);
        assert(m.contains_key(k) && m[k].contains(y));
    }
    if all_ids(m).contains(x) {
        let j = choose|j: u64| m.contains_key(j) && #[trigger] m[j].contains(x);
        assert(posting(m, j).contains(x));
    }
    if exists|j: u64| #[trigger] posting(m, j).contains(x) {
        let j = choose|j: u64| #[trigger] posting(m, j).contains(x);
        assert(m.contains_key(j) && m[j].contains(x));
    }
}

/// IDs that are added under a key are found there beside those that were, and under no other
/// key.
pub proof fn law_with_ids(m: Map<u64, Set<u32>>, key: u64, more: Set<u32>, k: u64, x: u32)
    ensures
        posting(with_ids(m, key, more), k).contains(x) <==> posting(m, k).contains(x) || (k == key
            && more.contains(x)),
        with_ids(m, key, more).contains_key(k) <==> m.contains_key(k) || k == key,
{
}

/// An ID is one of all exactly where some key holds it.
pub proof fn law_all_ids(m: Map<u64, Set<u32>>, key: u64, more: Set<u32>, x: u32)
    ensures
        all_ids(Map::empty()) == Set::<u32>::empty(),
        posting(m, key).contains(x) ==> all_ids(m).contains(x),
        all_ids(m).contains(x) ==> exists|k: u64| #[trigger] posting(m, k).contains(x),
        all_ids(with_ids(m, key, more)) == all_ids(m).union(more),
{
    let n = with_ids(m, key, more);
    assert(all_ids(Map::empty()) =~= Set::<u32>::empty());
    if posting(m, key).contains(x) {
        assert(m[key].contains(x));
    }
    if all_ids(m).contains(x) {
        let k = choose|k: u64| m.contains_key(k) && #[trigger] m[k].contains(x);
        assert(posting(m, k).contains(x));
    }
    assert forall|y: u32| all_ids(n).contains(y) <==> all_ids(m).union(more).contains(y) by {
        if all_ids(n).contains(y) {
            let k = choose|k: u64| n.contains_key(k) && #[trigger] n[k].contains(y);
            if k != key {
                assert(m.contains_key(k) && m[k].contains(y));
            } else if !more.contains(y) {
                assert(m.contains_key(key) && m[key].contains(y));
            }
        }
        if all_ids(m).contains(y) {
            let k = choose|k: u64| m.contains_key(k) && #[trigger] m[k].contains(y);
            assert(n.contains_key(k) && n[k].contains(y));
        }
        if more.contains(y) {
            assert(n.contains_key(key) && n[key].contains(y));
        }
    }
    assert(all_ids(n) =~= all_ids(m).union(more));
}

} // verus!
