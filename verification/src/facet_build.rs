//! The facets of a split under construction: which of its docs hold which category, the
//! categories' presence keys, and the fields of the split's facet sidecar.

use crate::bitmap::{below, from_on, ids, image, read_ids, split_posting};
use crate::bytes::{self, lex_lt, order_bytes, put_u32, put_u64, ByteOrder};
use crate::error::IndexError;
use crate::facets::Selection;
use crate::splitset::{
    any_present, presence_keys, presence_of, sorted_keys, ManifestView, SplitView,
};
use crate::text;
use roaring::RoaringBitmap;
use vstd::prelude::*;
use vstd::utf8::encode_utf8;

verus! {

/// A category of a field, its facet key, and the docs that hold it.
pub struct FacetDocs {
    /// The field.
    pub field: String,
    /// The category.
    pub category: String,
    /// The category's facet key.
    pub key: u64,
    /// The local IDs of the docs that hold the category.
    pub docs: RoaringBitmap,
}

/// A category, its facet key and its docs.
pub struct FacetView {
    /// The field.
    pub field: Seq<char>,
    /// The category.
    pub category: Seq<char>,
    /// The category's facet key.
    pub key: u64,
    /// The local IDs of the docs that hold the category.
    pub docs: Set<u32>,
}

impl View for FacetDocs {
    type V = FacetView;

    open spec fn view(&self) -> FacetView {
        FacetView {
            field: self.field@,
            category: self.category@,
            key: self.key,
            docs: ids(self.docs),
        }
    }
}

/// The order of categories: by field, then by category, each by its UTF-8 bytes.
pub open spec fn facet_lt(f: Seq<char>, c: Seq<char>, g: Seq<char>, d: Seq<char>) -> bool {
    lex_lt(encode_utf8(f), encode_utf8(g)) || (f == g && lex_lt(encode_utf8(c), encode_utf8(d)))
}

/// Whether the categories `v` are strictly ascending.
pub open spec fn facets_sorted(v: Seq<FacetView>) -> bool {
    forall|i: int, j: int|
        0 <= i < j < v.len() ==> facet_lt(
            (#[trigger] v[i]).field,
            v[i].category,
            (#[trigger] v[j]).field,
            v[j].category,
        )
}

/// The categories of `v`.
pub open spec fn facet_views(v: Seq<FacetDocs>) -> Seq<FacetView> {
    v.map_values(|e: FacetDocs| e@)
}

/// The index of the category `c` of `f` in `v`, or of the first that sorts behind it.
pub open spec fn facet_slot(v: Seq<FacetView>, f: Seq<char>, c: Seq<char>) -> nat
    decreases v.len(),
{
    if v.len() > 0 && facet_lt(v[0].field, v[0].category, f, c) {
        1 + facet_slot(v.drop_first(), f, c)
    } else {
        0
    }
}

/// The categories `v` with `doc` recorded under the category that `s` selects. The key recorded
/// with a category is the first one given for it.
pub open spec fn with_facet(v: Seq<FacetView>, s: Selection, doc: u32) -> Seq<FacetView> {
    let i = facet_slot(v, s.field@, s.category@) as int;
    if i < v.len() && v[i].field == s.field@ && v[i].category == s.category@ {
        v.update(i, FacetView { docs: v[i].docs.insert(doc), ..v[i] })
    } else {
        v.insert(
            i,
            FacetView {
                field: s.field@,
                category: s.category@,
                key: s.key,
                docs: Set::<u32>::empty().insert(doc),
            },
        )
    }
}

/// The categories `v` with `doc` recorded under each of the selected categories.
pub open spec fn with_facets(v: Seq<FacetView>, ss: Seq<Selection>, doc: u32) -> Seq<FacetView>
    decreases ss.len(),
{
    if ss.len() == 0 {
        v
    } else {
        with_facet(with_facets(v, ss.drop_last(), doc), ss.last(), doc)
    }
}

/// The order of the two categories.
fn order_facets(f: &str, c: &str, g: &str, d: &str) -> (o: ByteOrder)
    ensures
        o is Before <==> facet_lt(f@, c@, g@, d@),
        o is Same <==> f@ == g@ && c@ == d@,
        o is After <==> facet_lt(g@, d@, f@, c@),
{
    proof {
        vstd::utf8::encode_utf8_decode_utf8(f@);
        vstd::utf8::encode_utf8_decode_utf8(g@);
        vstd::utf8::encode_utf8_decode_utf8(c@);
        vstd::utf8::encode_utf8_decode_utf8(d@);
        bytes::lemma_lex_total(encode_utf8(f@), encode_utf8(g@));
        bytes::lemma_lex_total(encode_utf8(c@), encode_utf8(d@));
    }
    match order_bytes(text::bytes_of(f), text::bytes_of(g)) {
        ByteOrder::Same => order_bytes(text::bytes_of(c), text::bytes_of(d)),
        o => o,
    }
}

proof fn lemma_facet_trans(a: FacetView, b: FacetView, c: FacetView)
    requires
        facet_lt(a.field, a.category, b.field, b.category),
        facet_lt(b.field, b.category, c.field, c.category),
    ensures
        facet_lt(a.field, a.category, c.field, c.category),
{
    let (x, y, z) = (encode_utf8(a.field), encode_utf8(b.field), encode_utf8(c.field));
    if lex_lt(x, y) && lex_lt(y, z) {
        bytes::lemma_lex_trans(x, y, z);
    }
    if a.field == b.field && b.field == c.field {
        bytes::lemma_lex_trans(
            encode_utf8(a.category),
            encode_utf8(b.category),
            encode_utf8(c.category),
        );
    }
}

proof fn lemma_facet_slot(v: Seq<FacetView>, f: Seq<char>, c: Seq<char>, i: nat)
    requires
        i <= v.len(),
        forall|j: int|
            0 <= j < i ==> facet_lt((#[trigger] v[j]).field, v[j].category, f, c),
        i < v.len() ==> !facet_lt(v[i as int].field, v[i as int].category, f, c),
    ensures
        facet_slot(v, f, c) == i,
    decreases v.len(),
{
    if i > 0 {
        assert(facet_lt(v[0].field, v[0].category, f, c));
        let rest = v.drop_first();
        assert forall|j: int| 0 <= j < i - 1 implies facet_lt(
            (#[trigger] rest[j]).field,
            rest[j].category,
            f,
            c,
        ) by {
            assert(rest[j] == v[j + 1]);
        }
        lemma_facet_slot(rest, f, c, (i - 1) as nat);
    }
}

/// The facets of a split under construction.
pub struct FacetPostings {
    entries: Vec<FacetDocs>,
}

impl View for FacetPostings {
    type V = Seq<FacetView>;

    /// The categories in ascending order, with their docs.
    closed spec fn view(&self) -> Seq<FacetView> {
        facet_views(self.entries@)
    }
}

impl FacetPostings {
    /// No facets.
    pub fn new() -> (p: FacetPostings)
        ensures
            p@ == Seq::<FacetView>::empty(),
            facets_sorted(p@),
    {
        let p = FacetPostings { entries: Vec::new() };
        assert(p@ =~= Seq::<FacetView>::empty());
        p
    }

    /// Whether there are no categories.
    pub fn is_empty(&self) -> (none: bool)
        ensures
            none == (self@.len() == 0),
    {
        self.entries.len() == 0
    }

    /// Drops every category.
    pub fn clear(&mut self)
        ensures
            final(self)@ == Seq::<FacetView>::empty(),
    {
        self.entries.clear();
        assert(self@ =~= Seq::<FacetView>::empty());
    }

    /// Records `doc` under the category that `s` selects.
    pub fn post(&mut self, s: &Selection, doc: u32)
        requires
            facets_sorted(old(self)@),
        ensures
            final(self)@ == with_facet(old(self)@, *s, doc),
            facets_sorted(final(self)@),
    {
        let ghost v = self@;
        let mut i: usize = 0;
        while i < self.entries.len()
            invariant
                i <= self.entries@.len(),
                v == self@,
                *self == *old(self),
                facets_sorted(v),
                forall|j: int|
                    0 <= j < i ==> facet_lt(
                        (#[trigger] v[j]).field,
                        v[j].category,
                        s.field@,
                        s.category@,
                    ),
            decreases self.entries@.len() - i,
        {
            let e = &self.entries[i];
            match order_facets(
                e.field.as_str(),
                e.category.as_str(),
                s.field.as_str(),
                s.category.as_str(),
            ) {
                ByteOrder::Before => {
                    assert(v[i as int] == e@);
                    i += 1;
                },
                ByteOrder::Same => {
                    proof {
                        assert(v[i as int] == e@);
                        bytes::lemma_lex_total(encode_utf8(s.field@), encode_utf8(s.field@));
                        bytes::lemma_lex_total(
                            encode_utf8(s.category@),
                            encode_utf8(s.category@),
                        );
                        lemma_facet_slot(v, s.field@, s.category@, i as nat);
                    }
                    self.entries[i].docs.insert(doc);
                    proof {
                        assert(self@ =~= with_facet(v, *s, doc));
                        assert forall|a: int, b: int| 0 <= a < b < self@.len() implies facet_lt(
                            (#[trigger] self@[a]).field,
                            self@[a].category,
                            (#[trigger] self@[b]).field,
                            self@[b].category,
                        ) by {
                            assert(facet_lt(v[a].field, v[a].category, v[b].field, v[b].category));
                        }
                    }
                    return ;
                },
                ByteOrder::After => {
                    proof {
                        assert(v[i as int] == e@);
                        lemma_not_both(v[i as int], s.field@, s.category@);
                    }
                    self.insert_at(i, s, doc);
                    return ;
                },
            }
        }
        self.insert_at(i, s, doc);
    }

    fn insert_at(&mut self, i: usize, s: &Selection, doc: u32)
        requires
            i <= old(self)@.len(),
            facets_sorted(old(self)@),
            forall|j: int|
                0 <= j < i ==> facet_lt(
                    (#[trigger] old(self)@[j]).field,
                    old(self)@[j].category,
                    s.field@,
                    s.category@,
                ),
            i < old(self)@.len() ==> facet_lt(
                s.field@,
                s.category@,
                old(self)@[i as int].field,
                old(self)@[i as int].category,
            ) && !facet_lt(
                old(self)@[i as int].field,
                old(self)@[i as int].category,
                s.field@,
                s.category@,
            ) && (old(self)@[i as int].field != s.field@ || old(self)@[i as int].category
                != s.category@),
        ensures
            final(self)@ == with_facet(old(self)@, *s, doc),
            facets_sorted(final(self)@),
    {
        let ghost v = self@;
        proof {
            lemma_facet_slot(v, s.field@, s.category@, i as nat);
        }
        let mut docs = RoaringBitmap::new();
        docs.insert(doc);
        let e = FacetDocs {
            field: s.field.clone(),
            category: s.category.clone(),
            key: s.key,
            docs,
        };
        let ghost x = e@;
        self.entries.insert(i, e);
        proof {
            let w = self@;
            assert(w =~= v.insert(i as int, x));
            assert(w =~= with_facet(v, *s, doc));
            assert forall|a: int, b: int| 0 <= a < b < w.len() implies facet_lt(
                (#[trigger] w[a]).field,
                w[a].category,
                (#[trigger] w[b]).field,
                w[b].category,
            ) by {
                if a < i && b < i {
                    assert(w[a] == v[a] && w[b] == v[b]);
                } else if a < i && b == i {
                    assert(w[a] == v[a] && w[b] == x);
                } else if a < i {
                    assert(w[a] == v[a] && w[b] == v[b - 1]);
                } else if a == i {
                    assert(w[a] == x && w[b] == v[b - 1]);
                    if b - 1 > i {
                        assert(facet_lt(
                            v[i as int].field,
                            v[i as int].category,
                            v[b - 1].field,
                            v[b - 1].category,
                        ));
                        lemma_facet_trans(x, v[i as int], v[b - 1]);
                    }
                } else {
                    assert(w[a] == v[a - 1] && w[b] == v[b - 1]);
                }
            }
        }
    }

    /// Records `doc` under each of the selected categories.
    pub fn post_all(&mut self, ss: &[Selection], doc: u32)
        requires
            facets_sorted(old(self)@),
        ensures
            final(self)@ == with_facets(old(self)@, ss@, doc),
            facets_sorted(final(self)@),
    {
        let mut i: usize = 0;
        assert(ss@.take(0) =~= Seq::<Selection>::empty());
        while i < ss.len()
            invariant
                i <= ss@.len(),
                facets_sorted(self@),
                self@ == with_facets(old(self)@, ss@.take(i as int), doc),
            decreases ss@.len() - i,
        {
            assert(ss@.take(i + 1).drop_last() =~= ss@.take(i as int));
            self.post(&ss[i], doc);
            i += 1;
        }
        assert(ss@.take(i as int) =~= ss@);
    }
}

proof fn lemma_not_both(a: FacetView, f: Seq<char>, c: Seq<char>)
    requires
        facet_lt(f, c, a.field, a.category),
    ensures
        !facet_lt(a.field, a.category, f, c),
        a.field != f || a.category != c,
{
    bytes::lemma_lex_total(encode_utf8(a.field), encode_utf8(f));
    bytes::lemma_lex_total(encode_utf8(a.category), encode_utf8(c));
    bytes::lemma_lex_total(encode_utf8(f), encode_utf8(f));
}

/// Whether `ks` lists the facet keys of the categories `v`, each once and ascending.
pub open spec fn lists_presence(ks: Seq<u64>, v: Seq<FacetView>) -> bool {
    &&& forall|i: int, j: int| 0 <= i < j < ks.len() ==> ks[i] < ks[j]
    &&& forall|k: u64|
        ks.contains(k) <==> exists|i: int| 0 <= i < v.len() && (#[trigger] v[i]).key == k
}

/// A set of categories has one list of presence keys.
pub proof fn lemma_presence_unique(a: Seq<u64>, b: Seq<u64>, v: Seq<FacetView>)
    requires
        lists_presence(a, v),
        lists_presence(b, v),
    ensures
        a == b,
{
    let m = Map::<u64, Set<u32>>::new(|k: u64| a.contains(k), |k: u64| Set::empty());
    assert forall|k: u64| m.contains_key(k) <==> b.contains(k) by {
        assert(a.contains(k) <==> b.contains(k));
    }
    crate::postings::lemma_keys_unique(a, b, m);
}

/// The little-endian bytes of `ks`, end to end.
pub open spec fn key_bytes(ks: Seq<u64>) -> Seq<u8>
    decreases ks.len(),
{
    if ks.len() == 0 {
        Seq::empty()
    } else {
        key_bytes(ks.drop_last()) + bytes::le64(ks.last())
    }
}

/// The facet-presence payload of the keys `ks`: their count, then the keys.
pub open spec fn presence_payload(ks: Seq<u64>) -> Seq<u8> {
    bytes::le32(bytes::word32(ks.len())) + key_bytes(ks)
}

/// Inserts `key` into the ascending `ks` where it is missing.
fn insert_key(ks: &mut Vec<u64>, key: u64)
    requires
        forall|i: int, j: int| 0 <= i < j < old(ks)@.len() ==> old(ks)@[i] < old(ks)@[j],
    ensures
        forall|i: int, j: int| 0 <= i < j < final(ks)@.len() ==> final(ks)@[i] < final(ks)@[j],
        forall|k: u64| final(ks)@.contains(k) <==> old(ks)@.contains(k) || k == key,
{
    let ghost v = ks@;
    let mut i: usize = ks.len();
    while i > 0 && ks[i - 1] >= key
        invariant
            i <= ks@.len(),
            v == ks@,
            v == old(ks)@,
            forall|a: int, b: int| 0 <= a < b < v.len() ==> v[a] < v[b],
            forall|j: int| i <= j < v.len() ==> v[j] > key,
        decreases i,
    {
        if ks[i - 1] == key {
            assert(v[i - 1] == key);
            return ;
        }
        i -= 1;
    }
    ks.insert(i, key);
    proof {
        let w = ks@;
        assert forall|k: u64| w.contains(k) <==> v.contains(k) || k == key by {
            if w.contains(k) {
                let a = choose|a: int| 0 <= a < w.len() && w[a] == k;
                if a < i {
                    assert(v[a] == k);
                } else if a > i {
                    assert(v[a - 1] == k);
                }
            }
            if v.contains(k) {
                let a = choose|a: int| 0 <= a < v.len() && v[a] == k;
                if a < i {
                    assert(w[a] == k);
                } else {
                    assert(w[a + 1] == k);
                }
            }
            assert(w[i as int] == key);
        }
    }
}

/// The facet-presence summary payload of the ascending `keys`: `[count u32][key u64]*`.
pub fn facet_presence(keys: &[u64]) -> (out: Vec<u8>)
    ensures
        out@ == presence_payload(keys@),
{
    let mut out: Vec<u8> = Vec::new();
    let n: u64 = keys.len() as u64 % 0x1_0000_0000;
    put_u32(&mut out, n as u32);
    let ghost front = out@;
    let mut i: usize = 0;
    assert(front + key_bytes(keys@.take(0)) =~= front);
    while i < keys.len()
        invariant
            i <= keys@.len(),
            out@ == front + key_bytes(keys@.take(i as int)),
        decreases keys@.len() - i,
    {
        put_u64(&mut out, keys[i]);
        proof {
            assert(keys@.take(i + 1).drop_last() =~= keys@.take(i as int));
            assert(out@ =~= front + key_bytes(keys@.take(i + 1)));
        }
        i += 1;
    }
    assert(keys@.take(i as int) =~= keys@);
    assert(out@ =~= presence_payload(keys@));
    out
}

/// A facet category with its postings, as a sidecar holds it.
#[derive(Debug)]
pub struct FacetCategory {
    /// The category.
    pub name: String,
    /// How many docs hold it.
    pub card: u32,
    /// Its serialized head posting.
    pub head: Vec<u8>,
    /// Its serialized tail posting.
    pub tail: Vec<u8>,
}

/// A facet field with its categories, as a sidecar holds it.
#[derive(Debug)]
pub struct FacetField {
    /// The field.
    pub name: String,
    /// Its categories, in ascending order.
    pub cats: Vec<FacetCategory>,
}

/// The categories of `fields`, each with its field's name.
pub open spec fn ungrouped(fields: Seq<FacetField>) -> Seq<(Seq<char>, FacetCategory)>
    decreases fields.len(),
{
    if fields.len() == 0 {
        Seq::empty()
    } else {
        let f = fields.last();
        ungrouped(fields.drop_last()) + f.cats@.map_values(|c: FacetCategory| (f.name@, c))
    }
}

/// Whether `c` is the category `x` of the field `name`.
pub open spec fn category_holds(
    name: Seq<char>,
    c: FacetCategory,
    x: FacetView,
    boundary: u32,
) -> bool {
    &&& name == x.field
    &&& c.name@ == x.category
    &&& c.card == bytes::word32(x.docs.len())
    &&& read_ids(c.head@) == Some(below(x.docs, boundary))
    &&& read_ids(c.tail@) == Some(from_on(x.docs, boundary))
    &&& c.head@ == image(below(x.docs, boundary))
    &&& c.tail@ == image(from_on(x.docs, boundary))
}

/// Whether `fields` are the sidecar fields of the categories `v`: the same categories in the
/// same order, grouped by field.
pub open spec fn fields_hold(fields: Seq<FacetField>, v: Seq<FacetView>, boundary: u32) -> bool {
    let u = ungrouped(fields);
    &&& u.len() == v.len()
    &&& forall|i: int|
        0 <= i < u.len() ==> category_holds((#[trigger] u[i]).0, u[i].1, v[i], boundary)
    &&& forall|i: int| 0 <= i < fields.len() ==> (#[trigger] fields[i]).cats@.len() > 0
    &&& forall|i: int, j: int|
        0 <= i && j == i + 1 && j < fields.len() ==> (#[trigger] fields[i]).name@ != (
        #[trigger] fields[j]).name@
}

/// Whether `a` and `b` are the same category: the same name and count with the same bytes.
pub open spec fn same_category(a: FacetCategory, b: FacetCategory) -> bool {
    &&& a.name@ == b.name@
    &&& a.card == b.card
    &&& a.head@ == b.head@
    &&& a.tail@ == b.tail@
}

/// Whether `a` and `b` are the same field: the same name with the same categories in order.
pub open spec fn same_field(a: FacetField, b: FacetField) -> bool {
    &&& a.name@ == b.name@
    &&& a.cats@.len() == b.cats@.len()
    &&& forall|i: int|
        0 <= i < a.cats@.len() ==> same_category(#[trigger] a.cats@[i], b.cats@[i])
}

/// Whether `a` and `b` are the same fields in order.
pub open spec fn same_fields(a: Seq<FacetField>, b: Seq<FacetField>) -> bool {
    &&& a.len() == b.len()
    &&& forall|i: int| 0 <= i < a.len() ==> same_field(#[trigger] a[i], b[i])
}

impl FacetPostings {
    /// The facet keys of the categories, each once and ascending.
    pub fn presence(&self) -> (ks: Vec<u64>)
        ensures
            lists_presence(ks@, self@),
    {
        let mut ks: Vec<u64> = Vec::new();
        let mut i: usize = 0;
        while i < self.entries.len()
            invariant
                i <= self.entries@.len(),
                forall|a: int, b: int| 0 <= a < b < ks@.len() ==> ks@[a] < ks@[b],
                forall|k: u64|
                    ks@.contains(k) <==> exists|j: int|
                        0 <= j < i && (#[trigger] self@[j]).key == k,
            decreases self.entries@.len() - i,
        {
            let ghost before = ks@;
            insert_key(&mut ks, self.entries[i].key);
            proof {
                assert(self@[i as int].key == self.entries@[i as int].key);
                assert forall|k: u64|
                    ks@.contains(k) <==> exists|j: int|
                        0 <= j < i + 1 && (#[trigger] self@[j]).key == k by {
                    if before.contains(k) {
                        let j = choose|j: int| 0 <= j < i && (#[trigger] self@[j]).key == k;
                        assert(0 <= j < i + 1 && self@[j].key == k);
                    }
                }
            }
            i += 1;
        }
        ks
    }

    /// The categories as sidecar fields with head/tail split postings.
    pub fn facet_fields(&self, boundary: u32) -> (fields: Vec<FacetField>)
        ensures
            fields_hold(fields@, self@, boundary),
    {
        let mut fields: Vec<FacetField> = Vec::new();
        let mut i: usize = 0;
        let ghost v = self@;
        assert(v.take(0) =~= Seq::<FacetView>::empty());
        while i < self.entries.len()
            invariant
                i <= self.entries@.len(),
                v == self@,
                fields_hold(fields@, v.take(i as int), boundary),
            decreases self.entries@.len() - i,
        {
            let e = &self.entries[i];
            let parts = split_posting(&e.docs, boundary);
            let card: u64 = e.docs.len() % 0x1_0000_0000;
            let cat = FacetCategory {
                name: e.category.clone(),
                card: card as u32,
                head: parts.0,
                tail: parts.1,
            };
            let ghost c = cat;
            let ghost x = v[i as int];
            assert(x == e@);
            assert(category_holds(e.field@, c, x, boundary));
            let ghost before = fields@;
            let ghost u = ungrouped(before);
            let ghost done = v.take(i as int);
            assert(v.take(i + 1) =~= done.push(x));
            let joins = fields.len() > 0 && text::same(
                fields[fields.len() - 1].name.as_str(),
                e.field.as_str(),
            );
            if joins {
                let last: usize = fields.len() - 1;
                fields[last].cats.push(cat);
                proof {
                    let f = before.last();
                    let g = fields@.last();
                    assert(g.cats@ == f.cats@.push(c));
                    assert(fields@.drop_last() =~= before.drop_last());
                    assert(g.cats@.map_values(|c: FacetCategory| (g.name@, c))
                        =~= f.cats@.map_values(|c: FacetCategory| (f.name@, c)).push((e.field@, c)));
                    assert(ungrouped(fields@) =~= u.push((e.field@, c)));
                    assert forall|k: int| 0 <= k < fields@.len() implies (
                    #[trigger] fields@[k]).cats@.len() > 0 && fields@[k].name@ == before[k].name@ by {
                        if k < last {
                            assert(fields@[k] == before[k]);
                        }
                    }
                }
            } else {
                let mut cats: Vec<FacetCategory> = Vec::new();
                cats.push(cat);
                fields.push(FacetField { name: e.field.clone(), cats });
                proof {
                    let g = fields@.last();
                    assert(fields@.drop_last() =~= before);
                    assert(g.cats@.map_values(|c: FacetCategory| (g.name@, c)) =~= seq![
                        (e.field@, c),
                    ]);
                    assert(ungrouped(fields@) =~= u.push((e.field@, c)));
                }
            }
            i += 1;
        }
        assert(v.take(i as int) =~= v);
        fields
    }
}

/// The last of the fields that hold the categories `v` stands behind the others: its categories
/// are the last ones of `v`, and the one before them is of another field.
proof fn lemma_last_field(fields: Seq<FacetField>, v: Seq<FacetView>, boundary: u32) -> (start: int)
    requires
        fields_hold(fields, v, boundary),
        fields.len() > 0,
    ensures
        0 <= start == v.len() - fields.last().cats@.len() < v.len(),
        fields_hold(fields.drop_last(), v.take(start), boundary),
        forall|i: int|
            start <= i < v.len() ==> category_holds(
                fields.last().name@,
                fields.last().cats@[i - start],
                #[trigger] v[i],
                boundary,
            ),
        start > 0 ==> v[start - 1].field != fields.last().name@,
{
    let f = fields.last();
    let front = fields.drop_last();
    let u = ungrouped(fields);
    let p = ungrouped(front);
    let q = f.cats@.map_values(|c: FacetCategory| (f.name@, c));
    let start = p.len() as int;
    assert(u == p + q);
    assert(fields[fields.len() - 1].cats@.len() > 0);
    assert forall|i: int| start <= i < v.len() implies category_holds(
        f.name@,
        f.cats@[i - start],
        #[trigger] v[i],
        boundary,
    ) by {
        assert(u[i] == q[i - start]);
    }
    assert forall|i: int| 0 <= i < p.len() implies category_holds(
        (#[trigger] p[i]).0,
        p[i].1,
        v.take(start)[i],
        boundary,
    ) by {
        assert(u[i] == p[i]);
    }
    assert forall|i: int| 0 <= i < front.len() implies (#[trigger] front[i]).cats@.len() > 0 by {
        assert(front[i] == fields[i]);
    }
    assert forall|i: int, j: int| 0 <= i && j == i + 1 && j < front.len() implies (
    #[trigger] front[i]).name@ != (#[trigger] front[j]).name@ by {
        assert(front[i] == fields[i] && front[j] == fields[j]);
    }
    if start > 0 {
        let k = front.len() - 1;
        assert(front.len() > 0);
        let g = front.last();
        assert(front[k] == fields[k]);
        assert(p.last() == g.cats@.map_values(|c: FacetCategory| (g.name@, c)).last());
        assert(u[start - 1] == p.last());
        assert(category_holds(u[start - 1].0, u[start - 1].1, v[start - 1], boundary));
        assert(fields[k].name@ != fields[k + 1].name@);
    }
    start
}

/// The categories determine the fields that a sidecar's encoder is handed.
pub proof fn law_fields_determined(
    a: Seq<FacetField>,
    b: Seq<FacetField>,
    v: Seq<FacetView>,
    boundary: u32,
)
    requires
        fields_hold(a, v, boundary),
        fields_hold(b, v, boundary),
    ensures
        same_fields(a, b),
    decreases a.len(),
{
    if a.len() == 0 {
        if b.len() > 0 {
            let _ = lemma_last_field(b, v, boundary);
        }
    } else {
        let s = lemma_last_field(a, v, boundary);
        assert(b.len() > 0);
        let t = lemma_last_field(b, v, boundary);
        let n = v.len() - 1;
        assert(category_holds(a.last().name@, a.last().cats@[n - s], v[n], boundary));
        assert(category_holds(b.last().name@, b.last().cats@[n - t], v[n], boundary));
        if s < t {
            assert(category_holds(a.last().name@, a.last().cats@[t - 1 - s], v[t - 1], boundary));
        }
        if t < s {
            assert(category_holds(b.last().name@, b.last().cats@[s - 1 - t], v[s - 1], boundary));
        }
        law_fields_determined(a.drop_last(), b.drop_last(), v.take(s), boundary);
        let (f, g) = (a.last(), b.last());
        assert forall|i: int| 0 <= i < f.cats@.len() implies same_category(
            #[trigger] f.cats@[i],
            g.cats@[i],
        ) by {
            assert(category_holds(f.name@, f.cats@[s + i - s], v[s + i], boundary));
            assert(category_holds(g.name@, g.cats@[s + i - s], v[s + i], boundary));
        }
        assert forall|i: int| 0 <= i < a.len() implies same_field(#[trigger] a[i], b[i]) by {
            if i < a.len() - 1 {
                assert(same_field(a.drop_last()[i], b.drop_last()[i]));
            }
        }
    }
}

proof fn lemma_key_bytes(ks: Seq<u64>, i: int)
    requires
        0 <= i < ks.len(),
    ensures
        key_bytes(ks).len() == 8 * ks.len(),
        key_bytes(ks).subrange(8 * i, 8 * i + 8) == bytes::le64(ks[i]),
    decreases ks.len(),
{
    lemma_key_bytes_len(ks.drop_last());
    if i < ks.len() - 1 {
        lemma_key_bytes(ks.drop_last(), i);
        assert(key_bytes(ks).subrange(8 * i, 8 * i + 8) =~= key_bytes(ks.drop_last()).subrange(
            8 * i,
            8 * i + 8,
        ));
    } else {
        assert(key_bytes(ks).subrange(8 * i, 8 * i + 8) =~= bytes::le64(ks[i]));
    }
}

proof fn lemma_key_bytes_len(ks: Seq<u64>)
    ensures
        key_bytes(ks).len() == 8 * ks.len(),
    decreases ks.len(),
{
    if ks.len() > 0 {
        lemma_key_bytes_len(ks.drop_last());
    }
}

/// The number at `x` is found behind a prefix of four bytes.
proof fn lemma_u64_behind(a: Seq<u8>, b: Seq<u8>, x: int, k: u64)
    requires
        a.len() == 4,
        0 <= x,
        x + 8 <= b.len(),
        b.subrange(x, x + 8) == bytes::le64(k),
    ensures
        bytes::u64_at(a + b, 4 + x) == k,
{
    assert((a + b).subrange(4 + x, 4 + x + 8) =~= b.subrange(x, x + 8));
    bytes::lemma_u64_at(a + b, 4 + x, k);
}

#[verifier::spinoff_prover]
proof fn lemma_presence_key(ks: Seq<u64>, i: int)
    requires
        0 <= i < ks.len(),
    ensures
        bytes::u64_at(presence_payload(ks), 4 + i * 8) == ks[i],
{
    let x = i * 8;
    lemma_key_bytes(ks, i);
    lemma_u64_behind(bytes::le32(bytes::word32(ks.len())), key_bytes(ks), x, ks[i]);
}

/// The reader gets back the presence keys that were written.
pub proof fn law_presence_roundtrip(ks: Seq<u64>)
    requires
        ks.len() <= u32::MAX,
    ensures
        presence_of(presence_payload(ks)) == Ok::<Seq<u64>, IndexError>(ks),
{
    let p = presence_payload(ks);
    let n = ks.len() as u32;
    lemma_key_bytes_len(ks);
    assert(p.subrange(0, 4) =~= bytes::le32(n));
    bytes::lemma_u32_at(p, 0, n);
    assert forall|i: int| 0 <= i < ks.len() implies bytes::u64_at(p, 4 + i * 8) == ks[i] by {
        lemma_presence_key(ks, i);
    }
    assert(presence_keys(p, n as nat) =~= ks);
}

/// A split with a doc in a selected category of each field is never pruned by its facets: its
/// presence keys are those of the categories that its docs hold.
pub proof fn law_facets_keep_matches(
    m: ManifestView,
    s: SplitView,
    v: Seq<FacetView>,
    fields: Seq<Vec<u64>>,
    r: Result<bool, IndexError>,
)
    requires
        m.facet_keys(s) matches Ok(Some(ks)) && lists_presence(ks, v),
        forall|f: int|
            0 <= f < fields.len() ==> exists|i: int|
                0 <= i < v.len() && (#[trigger] fields[f])@.contains((#[trigger] v[i]).key),
        m.facet_verdict(s, fields, r),
    ensures
        r == Ok::<bool, IndexError>(false),
{
    let ks = m.facet_keys(s)->Ok_0->0;
    assert(sorted_keys(ks));
    assert forall|f: int| 0 <= f < fields.len() implies any_present((#[trigger] fields[f])@, ks) by {
        let keys = fields[f]@;
        let i = choose|i: int| 0 <= i < v.len() && keys.contains((#[trigger] v[i]).key);
        let k = choose|k: int| 0 <= k < keys.len() && keys[k] == v[i].key;
        assert(ks.contains(keys[k]));
    }
}

/// Whether the doc `d` is recorded in `v` under the category `c` of the field `f`.
pub open spec fn records(v: Seq<FacetView>, f: Seq<char>, c: Seq<char>, d: u32) -> bool {
    exists|i: int|
        0 <= i < v.len() && (#[trigger] v[i]).field == f && v[i].category == c
            && v[i].docs.contains(d)
}

proof fn lemma_slot_within(v: Seq<FacetView>, f: Seq<char>, c: Seq<char>)
    ensures
        facet_slot(v, f, c) <= v.len(),
    decreases v.len(),
{
    if v.len() > 0 {
        lemma_slot_within(v.drop_first(), f, c);
    }
}

proof fn lemma_with_facet_records(
    v: Seq<FacetView>,
    s: Selection,
    doc: u32,
    f: Seq<char>,
    c: Seq<char>,
    d: u32,
)
    ensures
        records(with_facet(v, s, doc), f, c, d) <==> records(v, f, c, d) || (d == doc && s.field@
            == f && s.category@ == c),
{
    lemma_slot_within(v, s.field@, s.category@);
    let w = with_facet(v, s, doc);
    let at = facet_slot(v, s.field@, s.category@) as int;
    let shift: int = if w.len() == v.len() {
        0
    } else {
        1
    };
    assert forall|i: int| 0 <= i < v.len() implies ({
        let j = if i < at {
            i
        } else {
            i + shift
        };
        &&& 0 <= j < w.len()
        &&& (#[trigger] v[i]).field == w[j].field
        &&& v[i].category == w[j].category
        &&& v[i].docs.subset_of(w[j].docs)
    }) by {}
    assert(w[at].field == s.field@ && w[at].category == s.category@ && w[at].docs.contains(doc));
    if records(v, f, c, d) {
        let i = choose|i: int|
            0 <= i < v.len() && (#[trigger] v[i]).field == f && v[i].category == c
                && v[i].docs.contains(d);
        let j = if i < at {
            i
        } else {
            i + shift
        };
        assert(w[j].docs.contains(d));
    }
    if records(w, f, c, d) {
        let j = choose|j: int|
            0 <= j < w.len() && (#[trigger] w[j]).field == f && w[j].category == c
                && w[j].docs.contains(d);
        if j < at {
            assert(v[j].docs.contains(d));
        } else if j > at {
            assert(v[j - shift].docs.contains(d));
        } else if shift == 0 && d != doc {
            assert(v[at].docs.contains(d));
        }
    }
}

/// Recording a doc's facets adds it under exactly the categories that are selected, and changes
/// no other doc's.
pub proof fn law_facets_recorded(
    v: Seq<FacetView>,
    ss: Seq<Selection>,
    doc: u32,
    f: Seq<char>,
    c: Seq<char>,
    d: u32,
)
    ensures
        records(with_facets(v, ss, doc), f, c, d) <==> records(v, f, c, d) || (d == doc && exists|
            j: int,
        |
            0 <= j < ss.len() && (#[trigger] ss[j]).field@ == f && ss[j].category@ == c),
    decreases ss.len(),
{
    if ss.len() > 0 {
        let front = ss.drop_last();
        law_facets_recorded(v, front, doc, f, c, d);
        lemma_with_facet_records(with_facets(v, front, doc), ss.last(), doc, f, c, d);
        if exists|j: int|
            0 <= j < front.len() && (#[trigger] front[j]).field@ == f && front[j].category@ == c {
            let j = choose|j: int|
                0 <= j < front.len() && (#[trigger] front[j]).field@ == f && front[j].category@
                    == c;
            assert(ss[j].field@ == f && ss[j].category@ == c);
        }
        if exists|j: int|
            0 <= j < ss.len() && (#[trigger] ss[j]).field@ == f && ss[j].category@ == c {
            let j = choose|j: int|
                0 <= j < ss.len() && (#[trigger] ss[j]).field@ == f && ss[j].category@ == c;
            if j < front.len() {
                assert(front[j].field@ == f && front[j].category@ == c);
            }
        }
        if ss.last().field@ == f && ss.last().category@ == c {
            assert(ss[ss.len() - 1].field@ == f);
        }
    }
}

proof fn lemma_ungrouped(fields: Seq<FacetField>, k: int) -> (at: (int, int))
    requires
        0 <= k < ungrouped(fields).len(),
    ensures
        0 <= at.0 < fields.len(),
        0 <= at.1 < fields[at.0].cats@.len(),
        ungrouped(fields)[k] == (fields[at.0].name@, fields[at.0].cats@[at.1]),
    decreases fields.len(),
{
    let front = fields.drop_last();
    let n = ungrouped(front).len() as int;
    if k < n {
        let at = lemma_ungrouped(front, k);
        assert(front[at.0] == fields[at.0]);
        at
    } else {
        (fields.len() - 1, k - n)
    }
}

proof fn lemma_grouped(fields: Seq<FacetField>, i: int, c: int) -> (k: int)
    requires
        0 <= i < fields.len(),
        0 <= c < fields[i].cats@.len(),
    ensures
        0 <= k < ungrouped(fields).len(),
        ungrouped(fields)[k] == (fields[i].name@, fields[i].cats@[c]),
    decreases fields.len(),
{
    let front = fields.drop_last();
    if i < front.len() {
        assert(front[i] == fields[i]);
        lemma_grouped(front, i, c)
    } else {
        ungrouped(front).len() as int + c
    }
}

/// A sidecar holds every category under its own field, with the number of its docs and with all
/// of them: those below the boundary in its head, the others in its tail.
pub proof fn law_sidecar(fields: Seq<FacetField>, v: Seq<FacetView>, boundary: u32, k: int)
    requires
        fields_hold(fields, v, boundary),
        0 <= k < v.len(),
    ensures
        exists|i: int, c: int|
            {
                &&& 0 <= i < fields.len()
                &&& 0 <= c < fields[i].cats@.len()
                &&& fields[i].name@ == v[k].field
                &&& (#[trigger] fields[i].cats@[c]).name@ == v[k].category
                &&& v[k].docs.len() <= u32::MAX ==> fields[i].cats@[c].card == v[k].docs.len()
                &&& (read_ids(fields[i].cats@[c].head@) matches Some(h) && read_ids(
                    fields[i].cats@[c].tail@,
                ) matches Some(t) && h.union(t) == v[k].docs && (forall|x: u32|
                    h.contains(x) ==> x < boundary) && (forall|x: u32|
                    t.contains(x) ==> x >= boundary))
            },
{
    let u = ungrouped(fields);
    let (i, c) = lemma_ungrouped(fields, k);
    let cat = fields[i].cats@[c];
    assert(category_holds(u[k].0, u[k].1, v[k], boundary));
    crate::bitmap::law_head_tail(v[k].docs, boundary);
    assert(cat.name@ == v[k].category);
}

/// A sidecar holds no category but those of the split's docs.
pub proof fn law_sidecar_only(
    fields: Seq<FacetField>,
    v: Seq<FacetView>,
    boundary: u32,
    i: int,
    c: int,
)
    requires
        fields_hold(fields, v, boundary),
        0 <= i < fields.len(),
        0 <= c < fields[i].cats@.len(),
    ensures
        exists|k: int|
            0 <= k < v.len() && (#[trigger] v[k]).field == fields[i].name@ && v[k].category
                == fields[i].cats@[c].name@,
{
    let k = lemma_grouped(fields, i, c);
    let u = ungrouped(fields);
    assert(category_holds(u[k].0, u[k].1, v[k], boundary));
}

} // verus!
