//! Facet filters and facet counts over a split set, and match counts.
//!
//! The split set has no global facet table: each split carries its own facet sidecar. The
//! caller reads the sidecars; grouping the filter and the result IDs, deciding what a sidecar's
//! resident digest can price, and adding the splits' counts up are here.

use crate::bitmap;
use crate::error::IndexError;
use crate::splitset::{
    flag_set, BodyKind, Split, SplitSet, SplitView, FLAG_FACET, FLAG_TOMBSTONES,
};
use roaring::RoaringBitmap;
use vstd::prelude::*;

verus! {

/// Per-field cap on the categories that a facet count prices exactly per split (by full-corpus
/// frequency: what a facet UI shows).
pub const FACET_COUNT_TOP_PER_FIELD: usize = 128;

/// One selected category of a facet filter, with its key.
#[derive(Debug)]
pub struct Selection {
    /// Field name.
    pub field: String,
    /// Category name.
    pub category: String,
    /// The key of the category in the facet-presence summaries.
    pub key: u64,
}

/// Whether `present` holds, for the field of every selection, the key of one that selects in
/// the same field: within a field OR, across fields AND.
pub open spec fn satisfiable(filter: Seq<Selection>, present: Seq<u64>) -> bool {
    forall|i: int| 0 <= i < filter.len() ==> field_met((#[trigger] filter[i]).field@, filter, present)
}

/// Whether `present` holds the key of a selection in `field`.
pub open spec fn field_met(field: Seq<char>, filter: Seq<Selection>, present: Seq<u64>) -> bool {
    exists|j: int|
        0 <= j < filter.len() && (#[trigger] filter[j]).field@ == field && present.contains(
            filter[j].key,
        )
}

/// Whether `keys` are the keys of the selections in `field`, as far as presence goes.
#[verifier::opaque]
spec fn collects(keys: Seq<u64>, filter: Seq<Selection>, field: Seq<char>) -> bool {
    forall|present: Seq<u64>|
        crate::splitset::any_present(keys, present) <==> #[trigger] field_met(
            field,
            filter,
            present,
        )
}

/// The keys of the selections in the field of selection `at`.
fn keys_in_field(filter: &[Selection], at: usize) -> (keys: Vec<u64>)
    requires
        at < filter@.len(),
    ensures
        collects(keys@, filter@, filter@[at as int].field@),
{
    let mut keys: Vec<u64> = Vec::new();
    let mut i: usize = 0;
    let ghost field = filter@[at as int].field@;
    let ghost mut from = Seq::<int>::empty();
    while i < filter.len()
        invariant
            i <= filter@.len(),
            at < filter@.len(),
            field == filter@[at as int].field@,
            from.len() == keys@.len(),
            forall|k: int|
                0 <= k < keys@.len() ==> 0 <= #[trigger] from[k] < i && filter@[from[k]].key
                    == keys@[k] && filter@[from[k]].field@ == field,
            forall|j: int|
                0 <= j < i && (#[trigger] filter@[j]).field@ == field ==> exists|k: int|
                    0 <= k < keys@.len() && #[trigger] from[k] == j,
        decreases filter@.len() - i,
    {
        let ghost before = from;
        if filter[i].field == filter[at].field {
            keys.push(filter[i].key);
            proof {
                from = from.push(i as int);
                assert forall|j: int|
                    0 <= j < i + 1 && (#[trigger] filter@[j]).field@ == field implies exists|k: int|
                    0 <= k < keys@.len() && #[trigger] from[k] == j by {
                    if j < i {
                        let k = choose|k: int| 0 <= k < before.len() && #[trigger] before[k] == j;
                        assert(from[k] == j);
                    } else {
                        assert(from[before.len() as int] == j);
                    }
                }
            }
        }
        i += 1;
    }
    proof {
        reveal(collects);
        assert forall|present: Seq<u64>|
            crate::splitset::any_present(keys@, present) <==> #[trigger] field_met(
                field,
                filter@,
                present,
            ) by {
            if crate::splitset::any_present(keys@, present) {
                let k = choose|k: int|
                    0 <= k < keys@.len() && present.contains(#[trigger] keys@[k]);
                assert(0 <= from[k] < filter@.len());
                assert(filter@[from[k]].field@ == field);
            }
            if field_met(field, filter@, present) {
                let j = choose|j: int|
                    0 <= j < filter@.len() && (#[trigger] filter@[j]).field@ == field
                        && present.contains(filter@[j].key);
                let k = choose|k: int| 0 <= k < keys@.len() && #[trigger] from[k] == j;
                assert(present.contains(keys@[k]));
            }
        }
    }
    keys
}

/// Whether an earlier selection than `at` is in the same field.
fn field_seen(filter: &[Selection], at: usize) -> (seen: Option<usize>)
    requires
        at < filter@.len(),
    ensures
        match seen {
            Some(i) => i < at && filter@[i as int].field@ == filter@[at as int].field@,
            None => forall|i: int|
                0 <= i < at ==> (#[trigger] filter@[i]).field@ != filter@[at as int].field@,
        },
{
    let mut i: usize = 0;
    while i < at
        invariant
            i <= at < filter@.len(),
            forall|j: int|
                0 <= j < i ==> (#[trigger] filter@[j]).field@ != filter@[at as int].field@,
        decreases at - i,
    {
        if filter[i].field == filter[at].field {
            return Some(i);
        }
        i += 1;
    }
    None
}

proof fn lemma_collects(
    keys: Seq<u64>,
    filter: Seq<Selection>,
    field: Seq<char>,
    present: Seq<u64>,
)
    requires
        collects(keys, filter, field),
    ensures
        crate::splitset::any_present(keys, present) <==> field_met(field, filter, present),
{
    reveal(collects);
}

/// Groups the category keys of a facet filter by field: one list for each selected field.
/// A split's presence keys meet all lists exactly where they can satisfy the filter.
pub fn group_by_field(filter: &[Selection]) -> (fields: Vec<Vec<u64>>)
    ensures
        fields@.len() > 0 <==> filter@.len() > 0,
        forall|present: Seq<u64>|
            #[trigger] crate::splitset::fields_present(fields@, present) <==> satisfiable(
                filter@,
                present,
            ),
{
    let mut fields: Vec<Vec<u64>> = Vec::new();
    // The first selection of each list's field, and the list of each selection's field.
    let ghost mut first = Seq::<int>::empty();
    let ghost mut list = Seq::<int>::empty();
    let mut i: usize = 0;
    while i < filter.len()
        invariant
            i <= filter@.len(),
            first.len() == fields@.len(),
            list.len() == i,
            i > 0 ==> fields@.len() > 0,
            fields@.len() > 0 ==> filter@.len() > 0,
            forall|f: int| 0 <= f < first.len() ==> 0 <= #[trigger] first[f] < i,
            forall|f: int|
                0 <= f < first.len() ==> collects(
                    fields@[f]@,
                    filter@,
                    filter@[#[trigger] first[f]].field@,
                ),
            forall|j: int|
                0 <= j < i ==> 0 <= #[trigger] list[j] < first.len()
                    && filter@[first[list[j]]].field@ == filter@[j].field@,
        decreases filter@.len() - i,
    {
        match field_seen(filter, i) {
            Some(j) => {
                proof {
                    list = list.push(list[j as int]);
                }
            },
            None => {
                let keys = keys_in_field(filter, i);
                fields.push(keys);
                proof {
                    list = list.push(first.len() as int);
                    first = first.push(i as int);
                }
            },
        }
        i += 1;
    }
    proof {
        assert forall|present: Seq<u64>|
            #[trigger] crate::splitset::fields_present(fields@, present) <==> satisfiable(
                filter@,
                present,
            ) by {
            if crate::splitset::fields_present(fields@, present) {
                assert forall|j: int| 0 <= j < filter@.len() implies field_met(
                    (#[trigger] filter@[j]).field@,
                    filter@,
                    present,
                ) by {
                    let f = list[j];
                    assert(0 <= first[f] < i);
                    assert(crate::splitset::any_present(fields@[f]@, present));
                    lemma_collects(fields@[f]@, filter@, filter@[first[f]].field@, present);
                }
            }
            if satisfiable(filter@, present) {
                assert forall|f: int| 0 <= f < fields@.len() implies crate::splitset::any_present(
                    (#[trigger] fields@[f])@,
                    present,
                ) by {
                    assert(0 <= first[f] < i);
                    assert(field_met(filter@[first[f]].field@, filter@, present));
                    lemma_collects(fields@[f]@, filter@, filter@[first[f]].field@, present);
                }
            }
        }
    }
    fields
}

/// The first split of `splits` that contains the doc `global`.
pub open spec fn home(splits: Seq<SplitView>, global: u32) -> Option<int>
    decreases splits.len(),
{
    if splits.len() == 0 {
        None
    } else if splits[0].contains(global) {
        Some(0)
    } else {
        match home(splits.drop_first(), global) {
            Some(i) => Some(i + 1),
            None => None,
        }
    }
}

proof fn lemma_home(splits: Seq<SplitView>, global: u32, i: int)
    requires
        0 <= i <= splits.len(),
        forall|j: int| 0 <= j < i ==> !(#[trigger] splits[j]).contains(global),
        i < splits.len() ==> splits[i].contains(global),
    ensures
        home(splits, global) == (if i < splits.len() {
            Some(i)
        } else {
            None
        }),
    decreases splits.len(),
{
    if splits.len() > 0 && i > 0 {
        assert(!splits[0].contains(global));
        let rest = splits.drop_first();
        assert forall|j: int| 0 <= j < i - 1 implies !(#[trigger] rest[j]).contains(global) by {
            assert(rest[j] == splits[j + 1]);
        }
        lemma_home(rest, global, i - 1);
    }
}

/// The own IDs, in split `si`, of those docs of `globals` whose home it is.
pub open spec fn locals_in(splits: Seq<SplitView>, globals: Seq<u32>, si: int) -> Set<u32> {
    Set::new(
        |l: u32|
            exists|k: int|
                0 <= k < globals.len() && home(splits, #[trigger] globals[k]) == Some(si)
                    && splits[si].to_local(globals[k]) == l,
    )
}

/// The index of the first split that contains `global`.
fn find_home(splits: &[Split], global: u32) -> (at: Option<usize>)
    ensures
        match at {
            Some(i) => i < splits@.len() && home(
                crate::splitset::split_views(splits@),
                global,
            ) == Some(i as int),
            None => home(crate::splitset::split_views(splits@), global) is None,
        },
{
    let ghost views = crate::splitset::split_views(splits@);
    let mut i: usize = 0;
    while i < splits.len()
        invariant
            i <= splits@.len(),
            views == crate::splitset::split_views(splits@),
            forall|j: int| 0 <= j < i ==> !(#[trigger] views[j]).contains(global),
        decreases splits@.len() - i,
    {
        assert(views[i as int] == splits@[i as int]@);
        if splits[i].contains(global) {
            proof {
                lemma_home(views, global, i as int);
            }
            return Some(i);
        }
        i += 1;
    }
    proof {
        lemma_home(views, global, i as int);
    }
    None
}

/// Groups global result `ids` by the split they fall in, as split-local ID bitmaps in split
/// order. IDs no split contains are dropped, and so are splits with none.
pub fn ids_by_split(set: &SplitSet, ids: &[u32]) -> (out: Vec<(usize, RoaringBitmap)>)
    ensures
        forall|i: int, j: int| 0 <= i < j < out@.len() ==> (#[trigger] out@[i]).0 < (
        #[trigger] out@[j]).0,
        forall|i: int|
            0 <= i < out@.len() ==> (#[trigger] out@[i]).0 < set@.splits.len() && bitmap::ids(
                out@[i].1,
            ) == locals_in(set@.splits, ids@, out@[i].0 as int) && bitmap::ids(out@[i].1)
                != Set::<u32>::empty(),
        forall|si: int|
            0 <= si < set@.splits.len() && #[trigger] locals_in(set@.splits, ids@, si) != Set::<
                u32,
            >::empty() ==> exists|i: int| 0 <= i < out@.len() && (#[trigger] out@[i]).0 == si,
{
    let splits = set.splits();
    let ghost views = set@.splits;
    assert(views.len() == splits@.len());
    let mut out: Vec<(usize, RoaringBitmap)> = Vec::new();
    let mut si: usize = 0;
    while si < splits.len()
        invariant
            si <= splits@.len(),
            views == crate::splitset::split_views(splits@),
            views.len() == splits@.len(),
            forall|i: int, j: int| 0 <= i < j < out@.len() ==> (#[trigger] out@[i]).0 < (
            #[trigger] out@[j]).0,
            forall|i: int|
                0 <= i < out@.len() ==> (#[trigger] out@[i]).0 < si && bitmap::ids(out@[i].1)
                    == locals_in(views, ids@, out@[i].0 as int) && bitmap::ids(out@[i].1) != Set::<
                    u32,
                >::empty(),
            forall|s: int|
                0 <= s < si && #[trigger] locals_in(views, ids@, s) != Set::<u32>::empty()
                    ==> exists|i: int| 0 <= i < out@.len() && (#[trigger] out@[i]).0 == s,
        decreases splits@.len() - si,
    {
        let b = locals_of(splits, ids, si);
        let ghost before = out@;
        if !b.is_empty() {
            out.push((si, b));
            assert(out@[before.len() as int].0 == si);
        }
        proof {
            assert forall|s: int|
                0 <= s < si + 1 && #[trigger] locals_in(views, ids@, s) != Set::<
                    u32,
                >::empty() implies exists|i: int|
                0 <= i < out@.len() && (#[trigger] out@[i]).0 == s by {
                if s < si {
                    let i = choose|i: int| 0 <= i < before.len() && (#[trigger] before[i]).0 == s;
                    assert(out@[i] == before[i]);
                }
            }
        }
        si += 1;
    }
    out
}

/// The bitmap of the own IDs of split `si` among `ids`.
fn locals_of(splits: &[Split], ids: &[u32], si: usize) -> (b: RoaringBitmap)
    requires
        si < splits@.len(),
    ensures
        bitmap::ids(b) == locals_in(crate::splitset::split_views(splits@), ids@, si as int),
{
    let ghost views = crate::splitset::split_views(splits@);
    let mut b = RoaringBitmap::new();
    let mut i: usize = 0;
    assert(locals_in(views, ids@.take(0), si as int) =~= Set::<u32>::empty());
    while i < ids.len()
        invariant
            i <= ids@.len(),
            si < splits@.len(),
            views == crate::splitset::split_views(splits@),
            bitmap::ids(b) == locals_in(views, ids@.take(i as int), si as int),
        decreases ids@.len() - i,
    {
        let gid: u32 = ids[i];
        let ghost before = bitmap::ids(b);
        assert(views[si as int] == splits@[si as int]@);
        let at = find_home(splits, gid);
        if at == Some(si) {
            b.insert(splits[si].to_local(gid));
        }
        proof {
            let t = ids@.take(i as int);
            let u = ids@.take(i + 1);
            let want = locals_in(views, u, si as int);
            assert forall|l: u32| bitmap::ids(b).contains(l) <==> want.contains(l) by {
                if before.contains(l) {
                    let k = choose|k: int|
                        0 <= k < t.len() && home(views, #[trigger] t[k]) == Some(si as int)
                            && views[si as int].to_local(t[k]) == l;
                    assert(u[k] == t[k]);
                }
                if want.contains(l) {
                    let k = choose|k: int|
                        0 <= k < u.len() && home(views, #[trigger] u[k]) == Some(si as int)
                            && views[si as int].to_local(u[k]) == l;
                    if k < t.len() {
                        assert(t[k] == u[k]);
                        assert(locals_in(views, t, si as int).contains(l));
                    }
                }
                assert(u[i as int] == gid);
            }
            assert(bitmap::ids(b) =~= want);
        }
        i += 1;
    }
    assert(ids@.take(i as int) =~= ids@);
    b
}

/// Per-field facet counts over a result set, aggregated across splits by category name. One
/// entry per field that had at least one non-zero category count.
#[derive(Debug)]
pub struct FieldCounts {
    /// Field name (e.g. `"year"`, `"type"`).
    pub field: String,
    /// `(category name, summed document count)` for the categories with a non-zero count, in
    /// first-seen order across the contributing splits.
    pub categories: Vec<(String, u64)>,
}

/// What a [`FieldCounts`] says.
#[verifier::ext_equal]
pub struct FieldView {
    /// Field name.
    pub field: Seq<char>,
    /// Category names and counts.
    pub categories: Seq<(Seq<char>, u64)>,
}

impl View for FieldCounts {
    type V = FieldView;

    open spec fn view(&self) -> FieldView {
        FieldView {
            field: self.field@,
            categories: self.categories@.map_values(|c: (String, u64)| (c.0@, c.1)),
        }
    }
}

/// The views of `fields`.
pub open spec fn field_views(fields: Seq<FieldCounts>) -> Seq<FieldView> {
    fields.map_values(|f: FieldCounts| f@)
}

/// The first of `fields` named `name`.
pub open spec fn field_pos(fields: Seq<FieldView>, name: Seq<char>) -> Option<int>
    decreases fields.len(),
{
    if fields.len() == 0 {
        None
    } else if fields[0].field == name {
        Some(0)
    } else {
        match field_pos(fields.drop_first(), name) {
            Some(i) => Some(i + 1),
            None => None,
        }
    }
}

/// The first of `cats` named `name`.
pub open spec fn category_pos(cats: Seq<(Seq<char>, u64)>, name: Seq<char>) -> Option<int>
    decreases cats.len(),
{
    if cats.len() == 0 {
        None
    } else if cats[0].0 == name {
        Some(0)
    } else {
        match category_pos(cats.drop_first(), name) {
            Some(i) => Some(i + 1),
            None => None,
        }
    }
}

/// `cats` with `n` more under `name`; a zero adds nothing.
pub open spec fn with_category(cats: Seq<(Seq<char>, u64)>, name: Seq<char>, n: u64) -> Seq<
    (Seq<char>, u64),
> {
    if n == 0 {
        cats
    } else {
        match category_pos(cats, name) {
            Some(i) => cats.update(i, (name, (cats[i].1 + n) as u64)),
            None => cats.push((name, n)),
        }
    }
}

/// `cats` with each of `more` added.
pub open spec fn with_categories(
    cats: Seq<(Seq<char>, u64)>,
    more: Seq<(Seq<char>, u64)>,
) -> Seq<(Seq<char>, u64)>
    decreases more.len(),
{
    if more.len() == 0 {
        cats
    } else {
        with_category(with_categories(cats, more.drop_last()), more.last().0, more.last().1)
    }
}

/// `fields` with the counts of `f` added under its name.
pub open spec fn with_field(fields: Seq<FieldView>, f: FieldView) -> Seq<FieldView> {
    match field_pos(fields, f.field) {
        Some(i) => fields.update(
            i,
            FieldView {
                field: f.field,
                categories: with_categories(fields[i].categories, f.categories),
            },
        ),
        None => fields.push(
            FieldView {
                field: f.field,
                categories: with_categories(Seq::empty(), f.categories),
            },
        ),
    }
}

/// `fields` with each of `more` added.
pub open spec fn with_fields(fields: Seq<FieldView>, more: Seq<FieldView>) -> Seq<FieldView>
    decreases more.len(),
{
    if more.len() == 0 {
        fields
    } else {
        with_field(with_fields(fields, more.drop_last()), more.last())
    }
}

/// The fields that have a category.
pub open spec fn non_empty(fields: Seq<FieldView>) -> Seq<FieldView>
    decreases fields.len(),
{
    if fields.len() == 0 {
        Seq::empty()
    } else if fields.last().categories.len() == 0 {
        non_empty(fields.drop_last())
    } else {
        non_empty(fields.drop_last()).push(fields.last())
    }
}

/// The sum of the counts of `cats`.
pub open spec fn category_sum(cats: Seq<(Seq<char>, u64)>) -> nat
    decreases cats.len(),
{
    if cats.len() == 0 {
        0
    } else {
        category_sum(cats.drop_last()) + cats.last().1 as nat
    }
}

/// The sum of all counts of `fields`.
pub open spec fn field_sum(fields: Seq<FieldView>) -> nat
    decreases fields.len(),
{
    if fields.len() == 0 {
        0
    } else {
        field_sum(fields.drop_last()) + category_sum(fields.last().categories)
    }
}

proof fn lemma_category_pos(cats: Seq<(Seq<char>, u64)>, name: Seq<char>, i: int)
    requires
        0 <= i <= cats.len(),
        forall|j: int| 0 <= j < i ==> (#[trigger] cats[j]).0 != name,
        i < cats.len() ==> cats[i].0 == name,
    ensures
        category_pos(cats, name) == (if i < cats.len() {
            Some(i)
        } else {
            None
        }),
    decreases cats.len(),
{
    if cats.len() > 0 && i > 0 {
        assert(cats[0].0 != name);
        let rest = cats.drop_first();
        assert forall|j: int| 0 <= j < i - 1 implies (#[trigger] rest[j]).0 != name by {
            assert(rest[j] == cats[j + 1]);
        }
        lemma_category_pos(rest, name, i - 1);
    }
}

proof fn lemma_field_pos(fields: Seq<FieldView>, name: Seq<char>, i: int)
    requires
        0 <= i <= fields.len(),
        forall|j: int| 0 <= j < i ==> (#[trigger] fields[j]).field != name,
        i < fields.len() ==> fields[i].field == name,
    ensures
        field_pos(fields, name) == (if i < fields.len() {
            Some(i)
        } else {
            None
        }),
    decreases fields.len(),
{
    if fields.len() > 0 && i > 0 {
        assert(fields[0].field != name);
        let rest = fields.drop_first();
        assert forall|j: int| 0 <= j < i - 1 implies (#[trigger] rest[j]).field != name by {
            assert(rest[j] == fields[j + 1]);
        }
        lemma_field_pos(rest, name, i - 1);
    }
}

proof fn lemma_category_sum_grows(cats: Seq<(Seq<char>, u64)>, n: int)
    requires
        0 <= n <= cats.len(),
    ensures
        category_sum(cats.take(n)) <= category_sum(cats),
    decreases cats.len() - n,
{
    if n == cats.len() {
        assert(cats.take(n) =~= cats);
    } else {
        assert(cats.take(n + 1).drop_last() =~= cats.take(n));
        lemma_category_sum_grows(cats, n + 1);
    }
}

proof fn lemma_field_sum_grows(fields: Seq<FieldView>, n: int)
    requires
        0 <= n <= fields.len(),
    ensures
        field_sum(fields.take(n)) <= field_sum(fields),
    decreases fields.len() - n,
{
    if n == fields.len() {
        assert(fields.take(n) =~= fields);
    } else {
        assert(fields.take(n + 1).drop_last() =~= fields.take(n));
        lemma_field_sum_grows(fields, n + 1);
    }
}

/// Adds the counts of `more` to `cats`, by category name.
fn add_categories(cats: Vec<(String, u64)>, more: &[(String, u64)], Ghost(bound): Ghost<nat>) -> (out:
    Vec<(String, u64)>)
    requires
        forall|i: int| 0 <= i < cats@.len() ==> (#[trigger] cats@[i]).1 <= bound,
        bound + category_sum(category_views(more@)) <= u64::MAX,
    ensures
        category_views(out@) == with_categories(category_views(cats@), category_views(more@)),
        forall|i: int|
            0 <= i < out@.len() ==> (#[trigger] out@[i]).1 <= bound + category_sum(
                category_views(more@),
            ),
{
    let mut out = cats;
    let ghost start = category_views(cats@);
    let ghost all = category_views(more@);
    let mut i: usize = 0;
    assert(all.take(0) =~= Seq::<(Seq<char>, u64)>::empty());
    while i < more.len()
        invariant
            i <= more@.len(),
            all == category_views(more@),
            bound + category_sum(all) <= u64::MAX,
            category_views(out@) == with_categories(start, all.take(i as int)),
            forall|j: int|
                0 <= j < out@.len() ==> (#[trigger] out@[j]).1 <= bound + category_sum(
                    all.take(i as int),
                ),
        decreases more@.len() - i,
    {
        let n: u64 = more[i].1;
        let ghost before = category_views(out@);
        proof {
            assert(all.take(i + 1).drop_last() =~= all.take(i as int));
            assert(all[i as int] == (more@[i as int].0@, n));
            lemma_category_sum_grows(all, i + 1);
        }
        if n != 0 {
            let mut j: usize = 0;
            while j < out.len() && out[j].0 != more[i].0
                invariant
                    j <= out@.len(),
                    i < more@.len(),
                    before == category_views(out@),
                    forall|k: int| 0 <= k < j ==> (#[trigger] before[k]).0 != more@[i as int].0@,
                decreases out@.len() - j,
            {
                assert(before[j as int].0 == out@[j as int].0@);
                j += 1;
            }
            proof {
                if j < out@.len() {
                    assert(before[j as int].0 == out@[j as int].0@);
                }
                lemma_category_pos(before, more@[i as int].0@, j as int);
            }
            let ghost sofar = out@;
            if j < out.len() {
                let sum: u64 = out[j].1 + n;
                let name = more[i].0.clone();
                out.set(j, (name, sum));
                assert(category_views(out@) =~= before.update(j as int, (name@, sum)));
            } else {
                let name = more[i].0.clone();
                out.push((name, n));
                assert(category_views(out@) =~= before.push((name@, n)));
            }
            assert forall|k: int| 0 <= k < out@.len() implies (#[trigger] out@[k]).1 <= bound
                + category_sum(all.take(i + 1)) by {
                if k != j {
                    assert(out@[k] == sofar[k]);
                }
            }
        }
        i += 1;
    }
    assert(all.take(i as int) =~= all);
    out
}

/// Categories with their names as text.
pub open spec fn category_views(cats: Seq<(String, u64)>) -> Seq<(Seq<char>, u64)> {
    cats.map_values(|c: (String, u64)| (c.0@, c.1))
}

/// Whether no count of `fields` exceeds `bound`.
spec fn bounded(fields: Seq<FieldCounts>, bound: nat) -> bool {
    forall|f: int, c: int|
        #![trigger fields[f].categories@[c]]
        0 <= f < fields.len() && 0 <= c < fields[f].categories@.len() ==> fields[f].categories@[c].1
            <= bound
}

/// Adds the counts of one field of a split.
fn add_field(fields: &mut Vec<FieldCounts>, f: &FieldCounts, Ghost(bound): Ghost<nat>)
    requires
        bounded(old(fields)@, bound),
        bound + category_sum(f@.categories) <= u64::MAX,
    ensures
        field_views(final(fields)@) == with_field(field_views(old(fields)@), f@),
        bounded(final(fields)@, bound + category_sum(f@.categories)),
{
    let ghost before = field_views(fields@);
    let ghost raw = fields@;
    let mut i: usize = 0;
    while i < fields.len() && fields[i].field != f.field
        invariant
            i <= fields@.len(),
            before == field_views(fields@),
            forall|k: int| 0 <= k < i ==> (#[trigger] before[k]).field != f.field@,
        decreases fields@.len() - i,
    {
        assert(before[i as int].field == fields@[i as int].field@);
        i += 1;
    }
    proof {
        if i < fields@.len() {
            assert(before[i as int].field == fields@[i as int].field@);
        }
        lemma_field_pos(before, f.field@, i as int);
    }
    if i < fields.len() {
        let entry = fields.remove(i);
        assert(entry == raw[i as int]);
        let categories = add_categories(entry.categories, f.categories.as_slice(), Ghost(bound));
        let joined = FieldCounts { field: entry.field, categories };
        fields.insert(i, joined);
        proof {
            assert(fields@ =~= raw.update(i as int, joined));
            assert(field_views(fields@) =~= before.update(i as int, joined@));
        }
    } else {
        let categories = add_categories(Vec::new(), f.categories.as_slice(), Ghost(bound));
        let ghost none = category_views(Seq::<(String, u64)>::empty());
        assert(none =~= Seq::<(Seq<char>, u64)>::empty());
        let fresh = FieldCounts { field: f.field.clone(), categories };
        fields.push(fresh);
        assert(field_views(fields@) =~= before.push(fresh@));
    }
    proof {
        let more = category_sum(f@.categories);
        assert forall|a: int, c: int|
            #![trigger fields@[a].categories@[c]]
            0 <= a < fields@.len() && 0 <= c < fields@[a].categories@.len() implies fields@[a].categories@[c].1
            <= bound + more by {
            if a != i {
                assert(fields@[a] == raw[a]);
                assert(raw[a].categories@[c].1 <= bound);
            }
        }
    }
}

/// The fields of the contributing splits, split after split.
pub open spec fn split_fields(splits: Seq<Vec<FieldCounts>>) -> Seq<FieldView>
    decreases splits.len(),
{
    if splits.len() == 0 {
        Seq::empty()
    } else {
        split_fields(splits.drop_last()) + field_views(splits.last()@)
    }
}

proof fn lemma_with_fields_concat(fields: Seq<FieldView>, a: Seq<FieldView>, b: Seq<FieldView>)
    ensures
        with_fields(fields, a + b) == with_fields(with_fields(fields, a), b),
        field_sum(a + b) == field_sum(a) + field_sum(b),
    decreases b.len(),
{
    if b.len() == 0 {
        assert(a + b =~= a);
    } else {
        assert((a + b).drop_last() =~= a + b.drop_last());
        lemma_with_fields_concat(fields, a, b.drop_last());
    }
}

proof fn lemma_split_sum_grows(splits: Seq<Vec<FieldCounts>>, n: int)
    requires
        0 <= n <= splits.len(),
    ensures
        field_sum(split_fields(splits.take(n))) <= field_sum(split_fields(splits)),
    decreases splits.len() - n,
{
    if n == splits.len() {
        assert(splits.take(n) =~= splits);
    } else {
        assert(splits.take(n + 1).drop_last() =~= splits.take(n));
        lemma_with_fields_concat(
            Seq::empty(),
            split_fields(splits.take(n)),
            field_views(splits[n]@),
        );
        lemma_split_sum_grows(splits, n + 1);
    }
}

/// Adds up the facet counts of the contributing splits (each split's fields with the counts of
/// its categories) **by field and category name**. Fields and categories appear in first-seen
/// order; a category with a zero count is omitted, and so is a field without a category.
pub fn aggregate_counts(splits: &[Vec<FieldCounts>]) -> (out: Vec<FieldCounts>)
    requires
        field_sum(split_fields(splits@)) <= u64::MAX,
    ensures
        field_views(out@) == non_empty(with_fields(Seq::empty(), split_fields(splits@))),
{
    let mut fields: Vec<FieldCounts> = Vec::new();
    let mut i: usize = 0;
    proof {
        assert(splits@.take(0) =~= Seq::<Vec<FieldCounts>>::empty());
        assert(field_views(fields@) =~= Seq::<FieldView>::empty());
    }
    while i < splits.len()
        invariant
            i <= splits@.len(),
            field_sum(split_fields(splits@)) <= u64::MAX,
            field_views(fields@) == with_fields(
                Seq::empty(),
                split_fields(splits@.take(i as int)),
            ),
            bounded(fields@, field_sum(split_fields(splits@.take(i as int)))),
        decreases splits@.len() - i,
    {
        let here = &splits[i];
        let ghost done = split_fields(splits@.take(i as int));
        let ghost views = field_views(here@);
        let mut j: usize = 0;
        proof {
            assert(splits@.take(i + 1).drop_last() =~= splits@.take(i as int));
            lemma_split_sum_grows(splits@, i + 1);
            lemma_with_fields_concat(Seq::empty(), done, views);
            assert(done + views.take(0) =~= done);
        }
        while j < here.len()
            invariant
                j <= here@.len(),
                views == field_views(here@),
                field_sum(done + views) <= u64::MAX,
                field_views(fields@) == with_fields(Seq::empty(), done + views.take(j as int)),
                bounded(fields@, field_sum(done + views.take(j as int))),
            decreases here@.len() - j,
        {
            let ghost bound = field_sum(done + views.take(j as int));
            proof {
                assert(views[j as int] == here@[j as int]@);
                assert(views.take(j + 1).drop_last() =~= views.take(j as int));
                lemma_with_fields_concat(Seq::empty(), done, views.take(j as int));
                lemma_with_fields_concat(Seq::empty(), done, views.take(j + 1));
                lemma_with_fields_concat(Seq::empty(), done, views);
                lemma_field_sum_grows(views, j + 1);
                lemma_with_fields_concat(
                    Seq::empty(),
                    done + views.take(j as int),
                    seq![views[j as int]],
                );
                assert(done + views.take(j as int) + seq![views[j as int]] =~= done + views.take(
                    j + 1,
                ));
                assert((done + views.take(j + 1)).drop_last() =~= done + views.take(j as int));
            }
            add_field(&mut fields, &here[j], Ghost(bound));
            j += 1;
        }
        assert(views.take(j as int) =~= views);
        i += 1;
    }
    assert(splits@.take(i as int) =~= splits@);
    keep_non_empty(fields)
}

/// Drops the fields without a category.
fn keep_non_empty(fields: Vec<FieldCounts>) -> (out: Vec<FieldCounts>)
    ensures
        field_views(out@) == non_empty(field_views(fields@)),
{
    let mut out = fields;
    let ghost all = field_views(fields@);
    let ghost mut seen: int = 0;
    let mut i: usize = 0;
    assert(all.take(0) =~= Seq::<FieldView>::empty());
    assert(field_views(out@).take(0) =~= Seq::<FieldView>::empty());
    while i < out.len()
        invariant
            0 <= seen <= all.len(),
            i <= out@.len(),
            field_views(out@).take(i as int) == non_empty(all.take(seen)),
            field_views(out@).skip(i as int) == all.skip(seen),
        decreases all.len() - seen,
    {
        let ghost before = field_views(out@);
        proof {
            assert(before.skip(i as int).len() == all.skip(seen).len());
            assert(seen < all.len());
            assert(before.skip(i as int)[0] == before[i as int]);
            assert(before[i as int] == out@[i as int]@);
            assert(all.skip(seen)[0] == all[seen]);
            assert(all.take(seen + 1).drop_last() =~= all.take(seen));
            assert(all.skip(seen + 1) =~= all.skip(seen).drop_first());
        }
        if out[i].categories.len() == 0 {
            out.remove(i);
            assert(field_views(out@).take(i as int) =~= before.take(i as int));
            assert(field_views(out@).skip(i as int) =~= before.skip(i as int).drop_first());
        } else {
            assert(before.take(i + 1) =~= before.take(i as int).push(before[i as int]));
            assert(before.skip(i + 1) =~= before.skip(i as int).drop_first());
            i += 1;
        }
        proof {
            seen = seen + 1;
        }
    }
    proof {
        assert(field_views(out@).skip(i as int).len() == 0);
        assert(seen == all.len());
        assert(all.take(seen) =~= all);
        assert(field_views(out@).take(i as int) =~= field_views(out@));
    }
    out
}

/// The count of the category `name` in `cats`; zero where it is missing.
pub open spec fn category_count(cats: Seq<(Seq<char>, u64)>, name: Seq<char>) -> u64 {
    match category_pos(cats, name) {
        Some(i) => cats[i].1,
        None => 0,
    }
}

/// The count of the category `name` of `field` in `fields`; zero where it is missing.
pub open spec fn count_in(fields: Seq<FieldView>, field: Seq<char>, name: Seq<char>) -> u64 {
    match field_pos(fields, field) {
        Some(i) => category_count(fields[i].categories, name),
        None => 0,
    }
}

/// The sum of the counts under `name` in `cats`.
pub open spec fn category_total(cats: Seq<(Seq<char>, u64)>, name: Seq<char>) -> nat
    decreases cats.len(),
{
    if cats.len() == 0 {
        0
    } else {
        category_total(cats.drop_last(), name) + if cats.last().0 == name {
            cats.last().1 as nat
        } else {
            0
        }
    }
}

/// The sum of the counts under `field` and `name` in `fields`.
pub open spec fn total_in(fields: Seq<FieldView>, field: Seq<char>, name: Seq<char>) -> nat
    decreases fields.len(),
{
    if fields.len() == 0 {
        0
    } else {
        total_in(fields.drop_last(), field, name) + if fields.last().field == field {
            category_total(fields.last().categories, name)
        } else {
            0
        }
    }
}

proof fn lemma_category_pos_props(cats: Seq<(Seq<char>, u64)>, name: Seq<char>)
    ensures
        match category_pos(cats, name) {
            Some(i) => 0 <= i < cats.len() && cats[i].0 == name && forall|j: int|
                0 <= j < i ==> (#[trigger] cats[j]).0 != name,
            None => forall|j: int| 0 <= j < cats.len() ==> (#[trigger] cats[j]).0 != name,
        },
    decreases cats.len(),
{
    if cats.len() > 0 && cats[0].0 != name {
        let rest = cats.drop_first();
        lemma_category_pos_props(rest, name);
        assert forall|j: int| 0 < j < cats.len() implies #[trigger] cats[j] == rest[j - 1] by {}
    }
}

proof fn lemma_field_pos_props(fields: Seq<FieldView>, name: Seq<char>)
    ensures
        match field_pos(fields, name) {
            Some(i) => 0 <= i < fields.len() && fields[i].field == name && forall|j: int|
                0 <= j < i ==> (#[trigger] fields[j]).field != name,
            None => forall|j: int| 0 <= j < fields.len() ==> (#[trigger] fields[j]).field != name,
        },
    decreases fields.len(),
{
    if fields.len() > 0 && fields[0].field != name {
        let rest = fields.drop_first();
        lemma_field_pos_props(rest, name);
        assert forall|j: int| 0 < j < fields.len() implies #[trigger] fields[j] == rest[j
            - 1] by {}
    }
}

proof fn lemma_with_category(cats: Seq<(Seq<char>, u64)>, name: Seq<char>, n: u64, q: Seq<char>)
    requires
        category_count(cats, name) + n <= u64::MAX,
    ensures
        category_count(with_category(cats, name, n), q) == category_count(cats, q) + (if q == name {
            n as int
        } else {
            0
        }),
{
    if n != 0 {
        let out = with_category(cats, name, n);
        lemma_category_pos_props(cats, name);
        lemma_category_pos_props(cats, q);
        match category_pos(cats, name) {
            Some(i) => {
                match category_pos(cats, q) {
                    Some(k) => {
                        lemma_category_pos(out, q, k);
                    },
                    None => {
                        lemma_category_pos(out, q, out.len() as int);
                    },
                }
            },
            None => {
                match category_pos(cats, q) {
                    Some(k) => {
                        lemma_category_pos(out, q, k);
                    },
                    None => {
                        if q == name {
                            lemma_category_pos(out, q, cats.len() as int);
                        } else {
                            lemma_category_pos(out, q, out.len() as int);
                        }
                    },
                }
            },
        }
    }
}

proof fn lemma_category_total_bound(cats: Seq<(Seq<char>, u64)>, name: Seq<char>)
    ensures
        category_total(cats, name) <= category_sum(cats),
    decreases cats.len(),
{
    if cats.len() > 0 {
        lemma_category_total_bound(cats.drop_last(), name);
    }
}

proof fn lemma_with_categories(
    cats: Seq<(Seq<char>, u64)>,
    more: Seq<(Seq<char>, u64)>,
    q: Seq<char>,
    bound: nat,
)
    requires
        forall|name: Seq<char>| #[trigger] category_count(cats, name) <= bound,
        bound + category_sum(more) <= u64::MAX,
    ensures
        category_count(with_categories(cats, more), q) == category_count(cats, q) + category_total(
            more,
            q,
        ),
        category_count(with_categories(cats, more), q) <= bound + category_sum(more),
    decreases more.len(),
{
    lemma_category_total_bound(more, q);
    if more.len() > 0 {
        let name = more.last().0;
        lemma_with_categories(cats, more.drop_last(), q, bound);
        lemma_with_categories(cats, more.drop_last(), name, bound);
        lemma_with_category(with_categories(cats, more.drop_last()), name, more.last().1, q);
    }
    assert(category_count(cats, q) <= bound);
}

proof fn lemma_with_field(
    fields: Seq<FieldView>,
    f: FieldView,
    field: Seq<char>,
    q: Seq<char>,
    bound: nat,
)
    requires
        forall|field: Seq<char>, name: Seq<char>| #[trigger] count_in(fields, field, name) <= bound,
        bound + category_sum(f.categories) <= u64::MAX,
    ensures
        count_in(with_field(fields, f), field, q) == count_in(fields, field, q) + (if f.field
            == field {
            category_total(f.categories, q)
        } else {
            0
        }),
        count_in(with_field(fields, f), field, q) <= bound + category_sum(f.categories),
{
    let out = with_field(fields, f);
    lemma_field_pos_props(fields, f.field);
    lemma_field_pos_props(fields, field);
    assert(count_in(fields, field, q) <= bound);
    match field_pos(fields, f.field) {
        Some(i) => {
            assert forall|name: Seq<char>| #[trigger] category_count(fields[i].categories, name)
                <= bound by {
                assert(count_in(fields, f.field, name) <= bound);
            }
            lemma_with_categories(fields[i].categories, f.categories, q, bound);
            match field_pos(fields, field) {
                Some(k) => {
                    lemma_field_pos(out, field, k);
                },
                None => {
                    lemma_field_pos(out, field, out.len() as int);
                },
            }
        },
        None => {
            let none = Seq::<(Seq<char>, u64)>::empty();
            lemma_with_categories(none, f.categories, q, bound);
            match field_pos(fields, field) {
                Some(k) => {
                    lemma_field_pos(out, field, k);
                },
                None => {
                    if f.field == field {
                        lemma_field_pos(out, field, fields.len() as int);
                    } else {
                        lemma_field_pos(out, field, out.len() as int);
                    }
                },
            }
        },
    }
}

/// The aggregated count of a category is the sum of its counts over all contributing splits.
pub proof fn law_counts_add_up(more: Seq<FieldView>, field: Seq<char>, q: Seq<char>)
    requires
        field_sum(more) <= u64::MAX,
    ensures
        count_in(with_fields(Seq::empty(), more), field, q) == total_in(more, field, q),
        count_in(with_fields(Seq::empty(), more), field, q) <= field_sum(more),
    decreases more.len(),
{
    if more.len() > 0 {
        let front = more.drop_last();
        let f = more.last();
        let sofar = with_fields(Seq::empty(), front);
        law_counts_add_up(front, field, q);
        assert forall|g: Seq<char>, name: Seq<char>| #[trigger] count_in(sofar, g, name)
            <= field_sum(front) by {
            law_counts_add_up(front, g, name);
        }
        lemma_with_field(sofar, f, field, q, field_sum(front));
    }
}

/// The sums of the first `n` splits' counts of each pair; `counts[s][p]` is split `s`'s count
/// of pair `p`.
pub open spec fn pair_total(counts: Seq<Vec<u64>>, p: int) -> nat
    decreases counts.len(),
{
    if counts.len() == 0 {
        0
    } else {
        pair_total(counts.drop_last(), p) + counts.last()@[p] as nat
    }
}

proof fn lemma_pair_total_grows(counts: Seq<Vec<u64>>, p: int, n: int)
    requires
        0 <= n <= counts.len(),
    ensures
        pair_total(counts.take(n), p) <= pair_total(counts, p),
    decreases counts.len() - n,
{
    if n == counts.len() {
        assert(counts.take(n) =~= counts);
    } else {
        assert(counts.take(n + 1).drop_last() =~= counts.take(n));
        lemma_pair_total_grows(counts, p, n + 1);
    }
}

/// Whether `e` says that a file does not exist.
pub open spec fn absent(e: IndexError) -> bool {
    e matches IndexError::Fetch(f) && f is NotFound
}

/// The first failure among the splits' answers, a missing sidecar not counted as one.
pub open spec fn failure<T>(answers: Seq<Result<T, IndexError>>) -> Option<IndexError>
    decreases answers.len(),
{
    if answers.len() == 0 {
        None
    } else {
        match failure(answers.drop_last()) {
            Some(e) => Some(e),
            None => match answers.last() {
                Err(e) if !absent(e) => Some(e),
                _ => None,
            },
        }
    }
}

/// What the splits that have a sidecar answered, in order.
pub open spec fn answered<T>(answers: Seq<Result<T, IndexError>>) -> Seq<T>
    decreases answers.len(),
{
    if answers.len() == 0 {
        Seq::empty()
    } else {
        match answers.last() {
            Ok(v) => answered(answers.drop_last()).push(v),
            Err(_) => answered(answers.drop_last()),
        }
    }
}

proof fn lemma_failure_stays<T>(answers: Seq<Result<T, IndexError>>, n: int)
    requires
        0 <= n <= answers.len(),
        failure(answers.take(n)) is Some,
    ensures
        failure(answers) == failure(answers.take(n)),
    decreases answers.len() - n,
{
    if n < answers.len() {
        assert(answers.take(n + 1).drop_last() =~= answers.take(n));
        lemma_failure_stays(answers, n + 1);
    } else {
        assert(answers.take(n) =~= answers);
    }
}

/// Collects the splits' answers to a facet question. A split without a facet sidecar contributes
/// nothing; a sidecar that cannot be read fails the whole, since leaving it out would give wrong
/// totals.
pub fn contributions<T>(answers: Vec<Result<T, IndexError>>) -> (r: Result<Vec<T>, IndexError>)
    ensures
        match r {
            Ok(v) => failure(answers@) is None && v@ == answered(answers@),
            Err(e) => failure(answers@) == Some(e),
        },
{
    let ghost all = answers@;
    let mut out: Vec<T> = Vec::new();
    assert(all.take(0) =~= Seq::<Result<T, IndexError>>::empty());
    for a in it: answers
        invariant
            it.seq() == all,
            failure(all.take(it.index() as int)) is None,
            out@ == answered(all.take(it.index() as int)),
    {
        let ghost i = it.index() as int;
        assert(all.take(i + 1).drop_last() =~= all.take(i));
        assert(all.take(i + 1).last() == a);
        match a {
            Ok(v) => out.push(v),
            Err(e) => {
                let missing = match &e {
                    IndexError::Fetch(f) => f.is_not_found(),
                    _ => false,
                };
                if !missing {
                    proof {
                        lemma_failure_stays(all, i + 1);
                    }
                    return Err(e);
                }
            },
        }
    }
    assert(all.take(all.len() as int) =~= all);
    Ok(out)
}

/// Adds up the contributing splits' exact counts of named `(field, category)` pairs: one count
/// per pair, in order. A pair no sidecar carries counts `0`.
pub fn pair_totals(counts: &[Vec<u64>], pairs: usize) -> (totals: Vec<u64>)
    requires
        forall|s: int| 0 <= s < counts@.len() ==> (#[trigger] counts@[s])@.len() == pairs,
        forall|p: int| 0 <= p < pairs ==> #[trigger] pair_total(counts@, p) <= u64::MAX,
    ensures
        totals@.len() == pairs,
        forall|p: int| 0 <= p < pairs ==> #[trigger] totals@[p] == pair_total(counts@, p),
{
    let mut totals: Vec<u64> = Vec::new();
    let mut p: usize = 0;
    while p < pairs
        invariant
            p <= pairs,
            forall|s: int| 0 <= s < counts@.len() ==> (#[trigger] counts@[s])@.len() == pairs,
            forall|q: int| 0 <= q < pairs ==> #[trigger] pair_total(counts@, q) <= u64::MAX,
            totals@.len() == p,
            forall|q: int| 0 <= q < p ==> #[trigger] totals@[q] == pair_total(counts@, q),
        decreases pairs - p,
    {
        let mut sum: u64 = 0;
        let mut s: usize = 0;
        assert(counts@.take(0) =~= Seq::<Vec<u64>>::empty());
        while s < counts.len()
            invariant
                s <= counts@.len(),
                p < pairs,
                forall|s: int| 0 <= s < counts@.len() ==> (#[trigger] counts@[s])@.len() == pairs,
                pair_total(counts@, p as int) <= u64::MAX,
                sum == pair_total(counts@.take(s as int), p as int),
            decreases counts@.len() - s,
        {
            proof {
                assert(counts@.take(s + 1).drop_last() =~= counts@.take(s as int));
                lemma_pair_total_grows(counts@, p as int, s + 1);
            }
            sum = sum + counts[s][p];
            s += 1;
        }
        assert(counts@.take(s as int) =~= counts@);
        totals.push(sum);
        p += 1;
    }
    totals
}

/// Whether the categories `digest` of a field list hold the selection `s`.
pub open spec fn in_digest(digest: Seq<FieldCounts>, s: Selection) -> bool {
    exists|f: int, c: int|
        0 <= f < digest.len() && 0 <= c < digest[f].categories@.len() && digest[f].field@
            == s.field@ && (#[trigger] digest[f].categories@[c]).0@ == s.category@
}

/// Whether a split's resident digest, built with the top `k` categories per field, can price
/// every category of a count capped at `top_per_field` (`0` is no cap, which it cannot).
pub fn digest_covers_top(top_per_field: usize, k: usize) -> (yes: bool)
    ensures
        yes == (top_per_field != 0 && top_per_field <= k),
{
    top_per_field != 0 && top_per_field <= k
}

/// Whether `digest` has the category that `s` selects.
fn digest_has(digest: &[FieldCounts], s: &Selection) -> (yes: bool)
    ensures
        yes == in_digest(digest@, *s),
{
    let mut f: usize = 0;
    while f < digest.len()
        invariant
            f <= digest@.len(),
            forall|g: int, c: int|
                0 <= g < f && 0 <= c < digest@[g].categories@.len() && digest@[g].field@
                    == s.field@ ==> (#[trigger] digest@[g].categories@[c]).0@ != s.category@,
        decreases digest@.len() - f,
    {
        if digest[f].field == s.field {
            let cats = &digest[f].categories;
            let mut c: usize = 0;
            while c < cats.len()
                invariant
                    f < digest@.len(),
                    c <= cats@.len(),
                    cats@ == digest@[f as int].categories@,
                    digest@[f as int].field@ == s.field@,
                    forall|d: int|
                        0 <= d < c ==> (#[trigger] digest@[f as int].categories@[d]).0@
                            != s.category@,
                decreases cats@.len() - c,
            {
                if cats[c].0 == s.category {
                    assert(digest@[f as int].categories@[c as int].0@ == s.category@);
                    return true;
                }
                c += 1;
            }
        }
        f += 1;
    }
    false
}

/// Whether each of `pairs` is in `digest`, or is known to be absent by the presence keys.
pub open spec fn covered(
    digest: Seq<FieldCounts>,
    pairs: Seq<Selection>,
    present: Option<Seq<u64>>,
) -> bool {
    forall|i: int|
        0 <= i < pairs.len() ==> in_digest(digest, #[trigger] pairs[i]) || (present matches Some(
            keys,
        ) && !keys.contains(pairs[i].key))
}

spec fn held_keys(present: Option<Vec<u64>>) -> Option<Seq<u64>> {
    match present {
        Some(keys) => Some(keys@),
        None => None,
    }
}

/// Whether a split's resident digest can price every pair of `pairs`: each is in the digest, or
/// is provably absent from the whole sidecar by the facet-presence keys (then it counts `0`
/// without a read). A pair that is present but past the digest's top categories is genuine long
/// tail, which only the full sidecar can price. Without the facet flag nothing is known of
/// presence.
pub fn digest_covers_pairs(
    set: &SplitSet,
    split: &Split,
    digest: &[FieldCounts],
    pairs: &[Selection],
) -> (r: Result<bool, IndexError>)
    requires
        set@.summary_in_range(split@),
    ensures
        ({
            let known = if set@.has_facets() {
                set@.facet_keys(split@)
            } else {
                Ok(None)
            };
            match known {
                Err(e) => r == Err::<bool, _>(e),
                Ok(None) => r == Ok::<bool, IndexError>(covered(digest@, pairs@, None)),
                Ok(Some(present)) => r matches Ok(yes) && (crate::splitset::sorted_keys(present)
                    ==> yes == covered(digest@, pairs@, Some(present))) && (covered(
                    digest@,
                    pairs@,
                    Some(present),
                ) ==> yes),
            }
        }),
{
    let present = if flag_set(set.flags(), FLAG_FACET) {
        match set.facet_keys(split) {
            Ok(found) => found,
            Err(e) => return Err(e),
        }
    } else {
        None
    };
    let ghost known = held_keys(present);
    let mut i: usize = 0;
    while i < pairs.len()
        invariant
            i <= pairs@.len(),
            known == held_keys(present),
            if set@.has_facets() {
                set@.facet_keys(split@) == Ok::<Option<Seq<u64>>, IndexError>(known)
            } else {
                known is None
            },
            match known {
                None => forall|j: int| 0 <= j < i ==> in_digest(digest@, #[trigger] pairs@[j]),
                Some(keys) => crate::splitset::sorted_keys(keys) ==> forall|j: int|
                    0 <= j < i ==> in_digest(digest@, #[trigger] pairs@[j]) || !keys.contains(
                        pairs@[j].key,
                    ),
            },
        decreases pairs@.len() - i,
    {
        if !digest_has(digest, &pairs[i]) {
            let absent = match &present {
                Some(keys) => !crate::splitset::key_found(keys.as_slice(), pairs[i].key),
                None => false,
            };
            if !absent {
                assert(!in_digest(digest@, pairs@[i as int]));
                return Ok(false);
            }
        }
        i += 1;
    }
    Ok(true)
}

/// The splits that a count must ask: those that the Bloom filters do not rule out, or why there
/// is no count.
pub fn count_targets(set: &SplitSet, keys: &[u64]) -> (r: Result<Vec<usize>, IndexError>)
    ensures
        match r {
            Err(e) => set@.body_kind == BodyKind::Term && e == IndexError::Unsupported(
                "count_estimate is not supported on term-bodied split sets",
            ),
            Ok(at) => {
                &&& set@.body_kind == BodyKind::Trigram
                &&& forall|i: int, j: int| 0 <= i < j < at@.len() ==> at@[i] < at@[j]
                &&& forall|i: int|
                    0 <= i < at@.len() ==> #[trigger] at@[i] < set@.splits.len() && keys@.len() > 0
                        && !set@.pruned_by_bloom(set@.splits[at@[i] as int], keys@)
                &&& forall|s: usize|
                    keys@.len() > 0 && s < set@.splits.len() && !set@.pruned_by_bloom(
                        set@.splits[s as int],
                        keys@,
                    ) ==> #[trigger] at@.contains(s)
            },
        },
{
    if set.body_kind() == BodyKind::Term {
        return Err(
            IndexError::Unsupported("count_estimate is not supported on term-bodied split sets"),
        );
    }
    let mut at: Vec<usize> = Vec::new();
    if keys.len() == 0 {
        return Ok(at);
    }
    let splits = set.splits();
    let mut i: usize = 0;
    while i < splits.len()
        invariant
            i <= splits@.len(),
            set@.wf(),
            crate::splitset::split_views(splits@) == set@.splits,
            forall|a: int, b: int| 0 <= a < b < at@.len() ==> at@[a] < at@[b],
            forall|a: int|
                0 <= a < at@.len() ==> #[trigger] at@[a] < i && !set@.pruned_by_bloom(
                    set@.splits[at@[a] as int],
                    keys@,
                ),
            forall|s: usize|
                s < i && !set@.pruned_by_bloom(set@.splits[s as int], keys@)
                    ==> #[trigger] at@.contains(s),
        decreases splits@.len() - i,
    {
        proof {
            assert(set@.splits[i as int] == splits@[i as int]@);
            assert(set@.summary_in_range(set@.splits[i as int]));
        }
        let ghost before = at@;
        if !set.pruned_by_bloom(&splits[i], keys) {
            at.push(i);
            assert(at@[before.len() as int] == i);
        }
        proof {
            assert forall|s: usize|
                s < i + 1 && !set@.pruned_by_bloom(
                    set@.splits[s as int],
                    keys@,
                ) implies #[trigger] at@.contains(s) by {
                if s < i {
                    assert(before.contains(s));
                    let k = choose|k: int| 0 <= k < before.len() && before[k] == s;
                    assert(at@[k] == s);
                }
            }
        }
        i += 1;
    }
    Ok(at)
}

/// The sum of `counts`.
pub open spec fn sum(counts: Seq<u64>) -> nat
    decreases counts.len(),
{
    if counts.len() == 0 {
        0
    } else {
        sum(counts.drop_last()) + counts.last() as nat
    }
}

/// Puts the splits' header-only counts together: their sum, held at the largest `u64`, and
/// whether it is exact. It is exact for no keys, and for a single key over a base-only,
/// tombstone-free set; otherwise it is an upper bound.
pub fn combine_counts(set: &SplitSet, keys: usize, counts: &[u64]) -> (r: (u64, bool))
    requires
        keys == 0 ==> counts@.len() == 0,
    ensures
        r.0 == (if sum(counts@) <= u64::MAX {
            sum(counts@) as u64
        } else {
            u64::MAX
        }),
        r.1 == (keys == 0 || (keys == 1 && set@.delta_splits().len() == 0
            && !crate::splitset::has_flag(set@.flags as int, FLAG_TOMBSTONES as int))),
{
    let mut total: u64 = 0;
    let mut i: usize = 0;
    assert(counts@.take(0) =~= Seq::<u64>::empty());
    while i < counts.len()
        invariant
            i <= counts@.len(),
            total == (if sum(counts@.take(i as int)) <= u64::MAX {
                sum(counts@.take(i as int)) as u64
            } else {
                u64::MAX
            }),
        decreases counts@.len() - i,
    {
        assert(counts@.take(i + 1).drop_last() =~= counts@.take(i as int));
        total = total.saturating_add(counts[i]);
        i += 1;
    }
    assert(counts@.take(i as int) =~= counts@);
    let delta = set.delta_splits();
    assert(set@.delta_splits().len() == delta@.len());
    let exact = keys == 0 || (keys == 1 && delta.len() == 0 && !flag_set(
        set.flags(),
        FLAG_TOMBSTONES,
    ));
    (total, exact)
}

/// A pair's total is the sum of every split's count of it: that of two groups of splits is the
/// sum of both groups' totals, and that of one split its own count.
pub proof fn law_pair_total(a: Seq<Vec<u64>>, b: Seq<Vec<u64>>, v: Vec<u64>, p: int)
    ensures
        pair_total(a, p) == a.map_values(|v: Vec<u64>| v@[p] as int).fold_left(
            0,
            |n: int, x: int| n + x,
        ),
        pair_total(a + b, p) == pair_total(a, p) + pair_total(b, p),
        pair_total(seq![v], p) == v@[p],
{
    lemma_pair_total_fold(a, p);
    lemma_pair_total_parts(a, b, p);
    reveal_with_fuel(pair_total, 2);
    assert(seq![v].drop_last() =~= Seq::<Vec<u64>>::empty());
}

proof fn lemma_pair_total_fold(a: Seq<Vec<u64>>, p: int)
    ensures
        pair_total(a, p) == a.map_values(|v: Vec<u64>| v@[p] as int).fold_left(
            0,
            |n: int, x: int| n + x,
        ),
    decreases a.len(),
{
    let f = |v: Vec<u64>| v@[p] as int;
    let xs = a.map_values(f);
    if a.len() > 0 {
        lemma_pair_total_fold(a.drop_last(), p);
        assert(xs.drop_last() =~= a.drop_last().map_values(f));
        crate::lists::lemma_fold_last(xs);
    } else {
        reveal_with_fuel(Seq::fold_left, 1);
    }
}

proof fn lemma_pair_total_parts(a: Seq<Vec<u64>>, b: Seq<Vec<u64>>, p: int)
    ensures
        pair_total(a + b, p) == pair_total(a, p) + pair_total(b, p),
    decreases b.len(),
{
    if b.len() == 0 {
        assert(a + b =~= a);
    } else {
        lemma_pair_total_parts(a, b.drop_last(), p);
        assert((a + b).drop_last() =~= a + b.drop_last());
    }
}

/// A doc's home is the first split that contains it, and none exactly where no split does.
pub proof fn law_home(splits: Seq<SplitView>, global: u32)
    ensures
        match home(splits, global) {
            Some(i) => {
                &&& 0 <= i < splits.len()
                &&& splits[i].contains(global)
                &&& forall|j: int| 0 <= j < i ==> !(#[trigger] splits[j]).contains(global)
            },
            None => forall|j: int|
                0 <= j < splits.len() ==> !(#[trigger] splits[j]).contains(global),
        },
    decreases splits.len(),
{
    if splits.len() > 0 && !splits[0].contains(global) {
        let rest = splits.drop_first();
        law_home(rest, global);
        match home(rest, global) {
            Some(i) => {
                assert forall|j: int| 0 <= j < i + 1 implies !(#[trigger] splits[j]).contains(
                    global,
                ) by {
                    if j > 0 {
                        assert(rest[j - 1] == splits[j]);
                    }
                }
            },
            None => {
                assert forall|j: int| 0 <= j < splits.len() implies !(
                #[trigger] splits[j]).contains(global) by {
                    if j > 0 {
                        assert(rest[j - 1] == splits[j]);
                    }
                }
            },
        }
    }
}

/// Grouping docs by split puts each listed doc that some split contains into the group of the
/// first such split, under its own ID there; and a group holds nothing else.
pub proof fn law_ids_grouped(splits: Seq<SplitView>, globals: Seq<u32>, si: int, k: int, l: u32)
    requires
        0 <= si < splits.len(),
        0 <= k < globals.len(),
    ensures
        splits[si].contains(globals[k]) && (forall|j: int|
            0 <= j < si ==> !(#[trigger] splits[j]).contains(globals[k])) ==> locals_in(
            splits,
            globals,
            si,
        ).contains(splits[si].to_local(globals[k])),
        locals_in(splits, globals, si).contains(l) ==> exists|i: int|
            0 <= i < globals.len() && splits[si].contains(#[trigger] globals[i])
                && splits[si].to_local(globals[i]) == l,
{
    law_home(splits, globals[k]);
    if locals_in(splits, globals, si).contains(l) {
        let i = choose|i: int|
            0 <= i < globals.len() && home(splits, #[trigger] globals[i]) == Some(si)
                && splits[si].to_local(globals[i]) == l;
        law_home(splits, globals[i]);
        assert(splits[si].contains(globals[i]));
    }
}

proof fn lemma_first_field(fields: Seq<FieldView>, name: Seq<char>)
    ensures
        match field_pos(fields, name) {
            Some(i) => 0 <= i < fields.len() && fields[i].field == name && forall|j: int|
                0 <= j < i ==> (#[trigger] fields[j]).field != name,
            None => forall|j: int| 0 <= j < fields.len() ==> (#[trigger] fields[j]).field != name,
        },
    decreases fields.len(),
{
    if fields.len() > 0 && fields[0].field != name {
        let rest = fields.drop_first();
        lemma_first_field(rest, name);
        assert forall|j: int| 0 < j < fields.len() implies #[trigger] fields[j] == rest[j - 1] by {}
    }
}

proof fn lemma_first_category(cats: Seq<(Seq<char>, u64)>, name: Seq<char>)
    ensures
        match category_pos(cats, name) {
            Some(i) => 0 <= i < cats.len() && cats[i].0 == name && forall|j: int|
                0 <= j < i ==> (#[trigger] cats[j]).0 != name,
            None => forall|j: int| 0 <= j < cats.len() ==> (#[trigger] cats[j]).0 != name,
        },
    decreases cats.len(),
{
    if cats.len() > 0 && cats[0].0 != name {
        let rest = cats.drop_first();
        lemma_first_category(rest, name);
        assert forall|j: int| 0 < j < cats.len() implies #[trigger] cats[j] == rest[j - 1] by {}
    }
}

spec fn cat_named(cats: Seq<(Seq<char>, u64)>, q: Seq<char>) -> bool {
    exists|c: int| 0 <= c < cats.len() && (#[trigger] cats[c]).0 == q
}

spec fn cats_distinct(cats: Seq<(Seq<char>, u64)>) -> bool {
    forall|a: int, b: int|
        0 <= a < b < cats.len() ==> (#[trigger] cats[a]).0 != (#[trigger] cats[b]).0
}

proof fn lemma_with_category_named(cats: Seq<(Seq<char>, u64)>, name: Seq<char>, n: u64)
    requires
        cats_distinct(cats),
    ensures
        cats_distinct(with_category(cats, name, n)),
        forall|q: Seq<char>| #[trigger]
            cat_named(with_category(cats, name, n), q) <==> cat_named(cats, q) || (n > 0 && q
                == name),
{
    lemma_first_category(cats, name);
    let w = with_category(cats, name, n);
    assert forall|q: Seq<char>| #[trigger] cat_named(w, q) <==> cat_named(cats, q) || (n > 0 && q
        == name) by {
        if cat_named(cats, q) {
            let c = choose|c: int| 0 <= c < cats.len() && (#[trigger] cats[c]).0 == q;
            assert(w[c].0 == q);
        }
        if n > 0 && q == name {
            match category_pos(cats, name) {
                Some(i) => {
                    assert(w[i].0 == q);
                },
                None => {
                    assert(w[cats.len() as int].0 == q);
                },
            }
        }
        if cat_named(w, q) {
            let c = choose|c: int| 0 <= c < w.len() && (#[trigger] w[c]).0 == q;
            if c < cats.len() {
                assert(cats[c].0 == q);
            }
        }
    }
}

proof fn lemma_with_categories_named(cats: Seq<(Seq<char>, u64)>, more: Seq<(Seq<char>, u64)>)
    requires
        cats_distinct(cats),
    ensures
        cats_distinct(with_categories(cats, more)),
        forall|q: Seq<char>| #[trigger]
            cat_named(with_categories(cats, more), q) <==> cat_named(cats, q) || category_total(
                more,
                q,
            ) > 0,
    decreases more.len(),
{
    if more.len() > 0 {
        let sofar = with_categories(cats, more.drop_last());
        lemma_with_categories_named(cats, more.drop_last());
        lemma_with_category_named(sofar, more.last().0, more.last().1);
        assert forall|q: Seq<char>| #[trigger]
            cat_named(with_categories(cats, more), q) <==> cat_named(cats, q) || category_total(
                more,
                q,
            ) > 0 by {
            assert(cat_named(sofar, q) <==> cat_named(cats, q) || category_total(
                more.drop_last(),
                q,
            ) > 0);
        }
    }
}

/// Whether `fields` count `n` under the category `q` of the field `f`.
pub open spec fn counts_entry(fields: Seq<FieldView>, f: Seq<char>, q: Seq<char>, n: u64) -> bool {
    exists|i: int, c: int|
        0 <= i < fields.len() && 0 <= c < fields[i].categories.len() && fields[i].field == f && (
        #[trigger] fields[i].categories[c]) == (q, n)
}

/// Whether no two of `fields` have the same name, and no two categories of one.
pub open spec fn names_once(fields: Seq<FieldView>) -> bool {
    &&& forall|a: int, b: int|
        0 <= a < b < fields.len() ==> (#[trigger] fields[a]).field != (#[trigger] fields[b]).field
    &&& forall|i: int, a: int, b: int|
        #![trigger fields[i].categories[a], fields[i].categories[b]]
        0 <= i < fields.len() && 0 <= a < b < fields[i].categories.len()
            ==> fields[i].categories[a].0 != fields[i].categories[b].0
}

spec fn names_entry(fields: Seq<FieldView>, f: Seq<char>, q: Seq<char>) -> bool {
    exists|i: int|
        0 <= i < fields.len() && (#[trigger] fields[i]).field == f && cat_named(
            fields[i].categories,
            q,
        )
}

spec fn all_cats_distinct(fields: Seq<FieldView>) -> bool {
    forall|i: int| 0 <= i < fields.len() ==> cats_distinct((#[trigger] fields[i]).categories)
}

proof fn lemma_with_field_named(fields: Seq<FieldView>, g: FieldView)
    requires
        all_cats_distinct(fields),
        forall|a: int, b: int|
            0 <= a < b < fields.len() ==> (#[trigger] fields[a]).field != (
            #[trigger] fields[b]).field,
    ensures
        all_cats_distinct(with_field(fields, g)),
        forall|a: int, b: int|
            0 <= a < b < with_field(fields, g).len() ==> (#[trigger] with_field(
                fields,
                g,
            )[a]).field != (#[trigger] with_field(fields, g)[b]).field,
        forall|f: Seq<char>, q: Seq<char>| #[trigger]
            names_entry(with_field(fields, g), f, q) <==> names_entry(fields, f, q) || (f == g.field
                && category_total(g.categories, q) > 0),
{
    lemma_first_field(fields, g.field);
    let w = with_field(fields, g);
    let at = match field_pos(fields, g.field) {
        Some(i) => i,
        None => fields.len() as int,
    };
    let old_cats = if at < fields.len() {
        fields[at].categories
    } else {
        Seq::empty()
    };
    lemma_with_categories_named(old_cats, g.categories);
    assert(w[at].field == g.field && w[at].categories == with_categories(old_cats, g.categories));
    assert forall|i: int| 0 <= i < w.len() && i != at implies #[trigger] w[i] == fields[i] by {}
    assert forall|f: Seq<char>, q: Seq<char>| #[trigger]
        names_entry(w, f, q) <==> names_entry(fields, f, q) || (f == g.field && category_total(
            g.categories,
            q,
        ) > 0) by {
        if names_entry(w, f, q) {
            let i = choose|i: int|
                0 <= i < w.len() && (#[trigger] w[i]).field == f && cat_named(w[i].categories, q);
            if i != at {
                assert(fields[i].field == f);
            } else if cat_named(old_cats, q) {
                assert(at < fields.len() && fields[at].field == f);
            }
        }
        if names_entry(fields, f, q) {
            let i = choose|i: int|
                0 <= i < fields.len() && (#[trigger] fields[i]).field == f && cat_named(
                    fields[i].categories,
                    q,
                );
            assert(w[i].field == f);
            assert(cat_named(w[i].categories, q));
        }
        if f == g.field && category_total(g.categories, q) > 0 {
            assert(cat_named(w[at].categories, q));
            assert(w[at].field == f);
        }
    }
}

proof fn lemma_with_fields_named(more: Seq<FieldView>)
    ensures
        ({
            let w = with_fields(Seq::empty(), more);
            &&& all_cats_distinct(w)
            &&& forall|a: int, b: int|
                0 <= a < b < w.len() ==> (#[trigger] w[a]).field != (#[trigger] w[b]).field
            &&& forall|f: Seq<char>, q: Seq<char>| #[trigger]
                names_entry(w, f, q) <==> total_in(more, f, q) > 0
        }),
    decreases more.len(),
{
    if more.len() > 0 {
        lemma_with_fields_named(more.drop_last());
        let sofar = with_fields(Seq::empty(), more.drop_last());
        lemma_with_field_named(sofar, more.last());
        let w = with_fields(Seq::empty(), more);
        assert forall|f: Seq<char>, q: Seq<char>| #[trigger]
            names_entry(w, f, q) <==> total_in(more, f, q) > 0 by {
            assert(names_entry(sofar, f, q) <==> total_in(more.drop_last(), f, q) > 0);
        }
    }
}

proof fn lemma_non_empty_fields(fields: Seq<FieldView>)
    ensures
        forall|f: FieldView| #[trigger]
            non_empty(fields).contains(f) <==> fields.contains(f) && f.categories.len() > 0,
    decreases fields.len(),
{
    if fields.len() > 0 {
        let front = fields.drop_last();
        let (u, w) = (non_empty(front), non_empty(fields));
        lemma_non_empty_fields(front);
        assert forall|f: FieldView| #[trigger]
            w.contains(f) <==> fields.contains(f) && f.categories.len() > 0 by {
            if fields.contains(f) {
                let k = choose|k: int| 0 <= k < fields.len() && fields[k] == f;
                if k < front.len() {
                    assert(front[k] == f);
                    assert(front.contains(f));
                }
            }
            if front.contains(f) {
                let k = choose|k: int| 0 <= k < front.len() && front[k] == f;
                assert(fields[k] == f);
            }
            assert(u.contains(f) <==> front.contains(f) && f.categories.len() > 0);
            if u.contains(f) {
                let k = choose|k: int| 0 <= k < u.len() && u[k] == f;
                assert(w[k] == f);
            }
            if fields.last() == f && f.categories.len() > 0 {
                assert(w[w.len() - 1] == f);
            }
            if w.contains(f) {
                let k = choose|k: int| 0 <= k < w.len() && w[k] == f;
                if k < u.len() {
                    assert(u[k] == f);
                } else {
                    assert(fields[fields.len() - 1] == f);
                }
            }
        }
    }
}

proof fn lemma_filter_distinct(fields: Seq<FieldView>)
    requires
        forall|a: int, b: int|
            0 <= a < b < fields.len() ==> (#[trigger] fields[a]).field != (
            #[trigger] fields[b]).field,
    ensures
        ({
            let w = non_empty(fields);
            forall|a: int, b: int|
                0 <= a < b < w.len() ==> (#[trigger] w[a]).field != (#[trigger] w[b]).field
        }),
    decreases fields.len(),
{
    if fields.len() > 0 {
        let front = fields.drop_last();
        assert forall|a: int, b: int| 0 <= a < b < front.len() implies (#[trigger] front[a]).field
            != (#[trigger] front[b]).field by {
            assert(front[a] == fields[a] && front[b] == fields[b]);
        }
        lemma_filter_distinct(front);
        lemma_non_empty_fields(front);
        let w = non_empty(fields);
        let u = non_empty(front);
        assert forall|a: int, b: int| 0 <= a < b < w.len() implies (#[trigger] w[a]).field != (
        #[trigger] w[b]).field by {
            if b == u.len() {
                assert(u.contains(u[a]));
                let k = choose|k: int| 0 <= k < front.len() && front[k] == u[a];
                assert(fields[k] == u[a]);
                assert(fields[fields.len() - 1] == w[b]);
            }
        }
    }
}

/// Aggregated counts list a category of a field exactly where the splits count it more than
/// zero times, once and with the sum of all their counts; no field is listed twice, and none
/// without a category.
pub proof fn law_aggregated(more: Seq<FieldView>, f: Seq<char>, q: Seq<char>, n: u64)
    requires
        field_sum(more) <= u64::MAX,
    ensures
        ({
            let out = non_empty(with_fields(Seq::empty(), more));
            &&& counts_entry(out, f, q, n) <==> n > 0 && n == total_in(more, f, q)
            &&& names_once(out)
            &&& forall|i: int| 0 <= i < out.len() ==> (#[trigger] out[i]).categories.len() > 0
        }),
{
    let w = with_fields(Seq::empty(), more);
    let out = non_empty(w);
    lemma_with_fields_named(more);
    lemma_non_empty_fields(w);
    lemma_filter_distinct(w);
    law_counts_add_up(more, f, q);
    lemma_first_field(w, f);
    assert forall|i: int| 0 <= i < out.len() implies (#[trigger] out[i]).categories.len() > 0
        && cats_distinct(out[i].categories) by {
        assert(out.contains(out[i]));
        let k = choose|k: int| 0 <= k < w.len() && w[k] == out[i];
        assert(cats_distinct(w[k].categories));
    }
    if counts_entry(out, f, q, n) {
        let (i, c) = choose|i: int, c: int|
            0 <= i < out.len() && 0 <= c < out[i].categories.len() && out[i].field == f && (
            #[trigger] out[i].categories[c]) == (q, n);
        assert(out.contains(out[i]));
        let k = choose|k: int| 0 <= k < w.len() && w[k] == out[i];
        lemma_entry_count(w, f, q, k, c);
        assert(w[k].field == f && cat_named(w[k].categories, q)) by {
            assert(w[k].categories[c].0 == q);
        }
        assert(names_entry(w, f, q));
    }
    if n > 0 && n == total_in(more, f, q) {
        assert(names_entry(w, f, q));
        let k = choose|k: int|
            0 <= k < w.len() && (#[trigger] w[k]).field == f && cat_named(w[k].categories, q);
        let c = choose|c: int|
            0 <= c < w[k].categories.len() && (#[trigger] w[k].categories[c]).0 == q;
        lemma_entry_count(w, f, q, k, c);
        assert(w.contains(w[k]));
        assert(out.contains(w[k]));
        let i = choose|i: int| 0 <= i < out.len() && out[i] == w[k];
        assert(out[i].categories[c] == (q, n));
    }
}

proof fn lemma_entry_count(w: Seq<FieldView>, f: Seq<char>, q: Seq<char>, k: int, c: int)
    requires
        all_cats_distinct(w),
        forall|a: int, b: int|
            0 <= a < b < w.len() ==> (#[trigger] w[a]).field != (#[trigger] w[b]).field,
        0 <= k < w.len(),
        w[k].field == f,
        0 <= c < w[k].categories.len(),
        w[k].categories[c].0 == q,
    ensures
        count_in(w, f, q) == w[k].categories[c].1,
{
    lemma_first_field(w, f);
    lemma_first_category(w[k].categories, q);
    assert(field_pos(w, f) == Some(k));
    assert(cats_distinct(w[k].categories));
    assert(category_pos(w[k].categories, q) == Some(c));
}

/// The total of a category over two groups of fields is the sum of the groups' totals; that of
/// one field is the sum over its categories, and a field or category of another name adds
/// nothing.
pub proof fn law_totals(
    a: Seq<FieldView>,
    b: Seq<FieldView>,
    g: FieldView,
    x: Seq<(Seq<char>, u64)>,
    y: Seq<(Seq<char>, u64)>,
    e: (Seq<char>, u64),
    f: Seq<char>,
    q: Seq<char>,
)
    ensures
        total_in(a + b, f, q) == total_in(a, f, q) + total_in(b, f, q),
        total_in(seq![g], f, q) == (if g.field == f {
            category_total(g.categories, q)
        } else {
            0
        }),
        category_total(x + y, q) == category_total(x, q) + category_total(y, q),
        category_total(seq![e], q) == (if e.0 == q {
            e.1 as nat
        } else {
            0
        }),
{
    lemma_total_parts(a, b, f, q);
    lemma_category_total_parts(x, y, q);
    reveal_with_fuel(total_in, 2);
    reveal_with_fuel(category_total, 2);
    assert(seq![g].drop_last() =~= Seq::<FieldView>::empty());
    assert(seq![e].drop_last() =~= Seq::<(Seq<char>, u64)>::empty());
}

proof fn lemma_total_parts(a: Seq<FieldView>, b: Seq<FieldView>, f: Seq<char>, q: Seq<char>)
    ensures
        total_in(a + b, f, q) == total_in(a, f, q) + total_in(b, f, q),
    decreases b.len(),
{
    if b.len() == 0 {
        assert(a + b =~= a);
    } else {
        lemma_total_parts(a, b.drop_last(), f, q);
        assert((a + b).drop_last() =~= a + b.drop_last());
    }
}

proof fn lemma_category_total_parts(
    x: Seq<(Seq<char>, u64)>,
    y: Seq<(Seq<char>, u64)>,
    q: Seq<char>,
)
    ensures
        category_total(x + y, q) == category_total(x, q) + category_total(y, q),
    decreases y.len(),
{
    if y.len() == 0 {
        assert(x + y =~= x);
    } else {
        lemma_category_total_parts(x, y.drop_last(), q);
        assert((x + y).drop_last() =~= x + y.drop_last());
    }
}

/// The fields of two groups of splits are those of both, in order, and those of one split its
/// own.
pub proof fn law_split_fields(
    a: Seq<Vec<FieldCounts>>,
    b: Seq<Vec<FieldCounts>>,
    v: Vec<FieldCounts>,
)
    ensures
        split_fields(a + b) == split_fields(a) + split_fields(b),
        split_fields(seq![v]) == v@.map_values(|f: FieldCounts| f@),
    decreases b.len(),
{
    reveal_with_fuel(split_fields, 2);
    assert(seq![v].drop_last() =~= Seq::<Vec<FieldCounts>>::empty());
    assert(split_fields(seq![v]) =~= v@.map_values(|f: FieldCounts| f@));
    if b.len() == 0 {
        assert(a + b =~= a);
        assert(split_fields(a) + split_fields(b) =~= split_fields(a));
    } else {
        law_split_fields(a, b.drop_last(), v);
        assert((a + b).drop_last() =~= a + b.drop_last());
        assert(split_fields(a + b) =~= split_fields(a) + split_fields(b));
    }
}

/// The counts of the splits add up to the sum over both parts of their list, and one split's
/// count is its own sum.
pub proof fn law_sum(a: Seq<u64>, b: Seq<u64>, x: u64)
    ensures
        sum(a + b) == sum(a) + sum(b),
        sum(seq![x]) == x,
    decreases b.len(),
{
    reveal_with_fuel(sum, 2);
    assert(seq![x].drop_last() =~= Seq::<u64>::empty());
    if b.len() == 0 {
        assert(a + b =~= a);
    } else {
        law_sum(a, b.drop_last(), x);
        assert((a + b).drop_last() =~= a + b.drop_last());
    }
}

/// The splits' answers are taken together in order, with those passed over that have no sidecar.
/// They fail exactly where some split fails otherwise, with the error of the first such.
pub proof fn law_contributions<T>(
    a: Seq<Result<T, IndexError>>,
    b: Seq<Result<T, IndexError>>,
    v: T,
    e: IndexError,
)
    ensures
        answered(a + b) == answered(a) + answered(b),
        answered(seq![Ok::<T, IndexError>(v)]) == seq![v],
        answered(seq![Err::<T, IndexError>(e)]) == Seq::<T>::empty(),
        match failure(a) {
            Some(e) => exists|i: int|
                {
                    &&& 0 <= i < a.len()
                    &&& #[trigger] a[i] == Err::<T, _>(e)
                    &&& !(e matches IndexError::Fetch(f) && f is NotFound)
                    &&& forall|j: int|
                        0 <= j < i ==> (#[trigger] a[j] matches Err(g) ==> (
                        g matches IndexError::Fetch(f) && f is NotFound))
                },
            None => forall|j: int|
                0 <= j < a.len() ==> (#[trigger] a[j] matches Err(g) ==> (
                g matches IndexError::Fetch(f) && f is NotFound)),
        },
{
    lemma_answered_parts(a, b);
    lemma_failure(a);
    reveal_with_fuel(answered, 2);
    let x = seq![Ok::<T, IndexError>(v)];
    let y = seq![Err::<T, IndexError>(e)];
    assert(x.drop_last() =~= Seq::<Result<T, IndexError>>::empty());
    assert(y.drop_last() =~= Seq::<Result<T, IndexError>>::empty());
    assert(answered(x) =~= seq![v]);
}

proof fn lemma_answered_parts<T>(a: Seq<Result<T, IndexError>>, b: Seq<Result<T, IndexError>>)
    ensures
        answered(a + b) == answered(a) + answered(b),
    decreases b.len(),
{
    if b.len() == 0 {
        assert(a + b =~= a);
        assert(answered(a) + answered(b) =~= answered(a));
    } else {
        lemma_answered_parts(a, b.drop_last());
        assert((a + b).drop_last() =~= a + b.drop_last());
        assert(answered(a + b) =~= answered(a) + answered(b));
    }
}

proof fn lemma_failure<T>(a: Seq<Result<T, IndexError>>)
    ensures
        match failure(a) {
            Some(e) => exists|i: int|
                {
                    &&& 0 <= i < a.len()
                    &&& #[trigger] a[i] == Err::<T, _>(e)
                    &&& !(e matches IndexError::Fetch(f) && f is NotFound)
                    &&& forall|j: int|
                        0 <= j < i ==> (#[trigger] a[j] matches Err(g) ==> (
                        g matches IndexError::Fetch(f) && f is NotFound))
                },
            None => forall|j: int|
                0 <= j < a.len() ==> (#[trigger] a[j] matches Err(g) ==> (
                g matches IndexError::Fetch(f) && f is NotFound)),
        },
    decreases a.len(),
{
    if a.len() > 0 {
        let front = a.drop_last();
        lemma_failure(front);
        assert forall|j: int| 0 <= j < front.len() implies #[trigger] a[j] == front[j] by {}
        match failure(front) {
            Some(e) => {
                let i = choose|i: int|
                    {
                        &&& 0 <= i < front.len()
                        &&& #[trigger] front[i] == Err::<T, _>(e)
                        &&& !(e matches IndexError::Fetch(f) && f is NotFound)
                        &&& forall|j: int|
                            0 <= j < i ==> (#[trigger] front[j] matches Err(g) ==> (
                            g matches IndexError::Fetch(f) && f is NotFound))
                    };
                assert(a[i] == Err::<T, _>(e));
            },
            None => {
                if failure(a) is Some {
                    assert(a[a.len() - 1] is Err);
                }
            },
        }
    }
}

/// In a filter that can be met each selection's field has one of its selected categories among
/// the present ones, and more present categories never make a filter fail.
pub proof fn law_satisfiable(filter: Seq<Selection>, a: Seq<u64>, b: Seq<u64>, i: int)
    requires
        satisfiable(filter, a),
        forall|k: u64| a.contains(k) ==> b.contains(k),
        0 <= i < filter.len(),
    ensures
        satisfiable(filter, b),
        exists|j: int|
            0 <= j < filter.len() && (#[trigger] filter[j]).field@ == filter[i].field@
                && a.contains(filter[j].key),
{
    assert(field_met(filter[i].field@, filter, a));
    assert forall|k: int| 0 <= k < filter.len() implies field_met(
        (#[trigger] filter[k]).field@,
        filter,
        b,
    ) by {
        assert(field_met(filter[k].field@, filter, a));
        lemma_field_met(filter[k].field@, filter, a, b);
    }
}

proof fn lemma_field_met(field: Seq<char>, filter: Seq<Selection>, a: Seq<u64>, b: Seq<u64>)
    requires
        field_met(field, filter, a),
        forall|k: u64| a.contains(k) ==> b.contains(k),
    ensures
        field_met(field, filter, b),
{
    let j = choose|j: int|
        0 <= j < filter.len() && (#[trigger] filter[j]).field@ == field && a.contains(
            filter[j].key,
        );
    assert(b.contains(filter[j].key));
}

/// A filter that can be met still can with a selection that is present, or with one more in a
/// field that it selects in already; the empty filter always can, and a single selection
/// exactly where it is present.
pub proof fn law_selection_added(filter: Seq<Selection>, s: Selection, a: Seq<u64>, j: int)
    ensures
        satisfiable(Seq::empty(), a),
        satisfiable(seq![s], a) <==> a.contains(s.key),
        satisfiable(filter, a) && a.contains(s.key) ==> satisfiable(filter.push(s), a),
        satisfiable(filter, a) && 0 <= j < filter.len() && filter[j].field@ == s.field@
            ==> satisfiable(filter.push(s), a),
{
    let more = filter.push(s);
    assert(seq![s][0] == s);
    if a.contains(s.key) {
        assert(field_met(s.field@, seq![s], a));
    }
    if satisfiable(seq![s], a) {
        assert(field_met(seq![s][0].field@, seq![s], a));
    }
    if satisfiable(filter, a) && (a.contains(s.key) || (0 <= j < filter.len() && filter[j].field@
        == s.field@)) {
        assert forall|i: int| 0 <= i < more.len() implies field_met(
            (#[trigger] more[i]).field@,
            more,
            a,
        ) by {
            if i == filter.len() && a.contains(s.key) {
                assert(more[i] == s);
            } else {
                let k = if i < filter.len() {
                    i
                } else {
                    j
                };
                assert(more[i].field@ == filter[k].field@);
                assert(field_met(filter[k].field@, filter, a));
                let q = choose|q: int|
                    0 <= q < filter.len() && (#[trigger] filter[q]).field@ == filter[k].field@
                        && a.contains(filter[q].key);
                assert(more[q] == filter[q]);
            }
        }
    }
}

/// A digest holds the selections that its parts hold, and one field's those of its categories.
pub proof fn law_in_digest(a: Seq<FieldCounts>, b: Seq<FieldCounts>, f: FieldCounts, s: Selection)
    ensures
        in_digest(a + b, s) <==> in_digest(a, s) || in_digest(b, s),
        in_digest(seq![f], s) <==> f.field@ == s.field@ && exists|c: int|
            0 <= c < f.categories@.len() && (#[trigger] f.categories@[c]).0@ == s.category@,
        !in_digest(Seq::empty(), s),
{
    if in_digest(a, s) {
        let (i, c) = choose|i: int, c: int|
            0 <= i < a.len() && 0 <= c < a[i].categories@.len() && a[i].field@ == s.field@ && (
            #[trigger] a[i].categories@[c]).0@ == s.category@;
        assert((a + b)[i].categories@[c].0@ == s.category@);
    }
    if in_digest(b, s) {
        let (i, c) = choose|i: int, c: int|
            0 <= i < b.len() && 0 <= c < b[i].categories@.len() && b[i].field@ == s.field@ && (
            #[trigger] b[i].categories@[c]).0@ == s.category@;
        assert((a + b)[a.len() + i].categories@[c].0@ == s.category@);
    }
    if in_digest(a + b, s) {
        let (i, c) = choose|i: int, c: int|
            0 <= i < (a + b).len() && 0 <= c < (a + b)[i].categories@.len() && (a + b)[i].field@
                == s.field@ && (#[trigger] (a + b)[i].categories@[c]).0@ == s.category@;
        if i < a.len() {
            assert(a[i].categories@[c].0@ == s.category@);
        } else {
            assert(b[i - a.len()].categories@[c].0@ == s.category@);
        }
    }
    if f.field@ == s.field@ && exists|c: int|
        0 <= c < f.categories@.len() && (#[trigger] f.categories@[c]).0@ == s.category@ {
        let c = choose|c: int|
            0 <= c < f.categories@.len() && (#[trigger] f.categories@[c]).0@ == s.category@;
        assert(seq![f][0].categories@[c].0@ == s.category@);
    }
    if in_digest(seq![f], s) {
        let (i, c) = choose|i: int, c: int|
            0 <= i < seq![f].len() && 0 <= c < seq![f][i].categories@.len() && seq![f][i].field@
                == s.field@ && (#[trigger] seq![f][i].categories@[c]).0@ == s.category@;
        assert(f.categories@[c].0@ == s.category@);
    }
}

/// Two lists of pairs are answered from a digest exactly where each is; a pair is where the
/// digest holds it, or where the presence keys are known and its own is not among them.
pub proof fn law_covered(
    digest: Seq<FieldCounts>,
    a: Seq<Selection>,
    b: Seq<Selection>,
    s: Selection,
    present: Option<Seq<u64>>,
)
    ensures
        covered(digest, a + b, present) <==> covered(digest, a, present) && covered(
            digest,
            b,
            present,
        ),
        covered(digest, seq![s], None) <==> in_digest(digest, s),
        present matches Some(keys) ==> (covered(digest, seq![s], present) <==> in_digest(digest, s)
            || !keys.contains(s.key)),
        covered(digest, Seq::empty(), present),
{
    assert(seq![s][0] == s);
    if covered(digest, a + b, present) {
        assert forall|i: int| 0 <= i < a.len() implies in_digest(digest, #[trigger] a[i]) || (
        present matches Some(keys) && !keys.contains(a[i].key)) by {
            assert(a[i] == (a + b)[i]);
        }
        assert forall|i: int| 0 <= i < b.len() implies in_digest(digest, #[trigger] b[i]) || (
        present matches Some(keys) && !keys.contains(b[i].key)) by {
            assert(b[i] == (a + b)[a.len() + i]);
        }
    }
    if covered(digest, a, present) && covered(digest, b, present) {
        assert forall|i: int| 0 <= i < (a + b).len() implies in_digest(
            digest,
            #[trigger] (a + b)[i],
        ) || (present matches Some(keys) && !keys.contains((a + b)[i].key)) by {
            if i < a.len() {
                assert((a + b)[i] == a[i]);
            } else {
                assert((a + b)[i] == b[i - a.len()]);
            }
        }
    }
    if covered(digest, seq![s], present) {
        assert(in_digest(digest, seq![s][0]) || (present matches Some(keys) && !keys.contains(
            seq![s][0].key,
        )));
    }
    if covered(digest, seq![s], None) {
        assert(in_digest(digest, seq![s][0]));
    }
}

/// The counts of two lists of categories sum up to both lists' sums, and a single one to its
/// own.
pub proof fn law_category_sum(a: Seq<(Seq<char>, u64)>, b: Seq<(Seq<char>, u64)>, c: (Seq<char>, u64))
    ensures
        category_sum(a + b) == category_sum(a) + category_sum(b),
        category_sum(seq![c]) == c.1,
    decreases b.len(),
{
    reveal_with_fuel(category_sum, 2);
    assert(seq![c].drop_last() =~= Seq::<(Seq<char>, u64)>::empty());
    if b.len() == 0 {
        assert(a + b =~= a);
    } else {
        law_category_sum(a, b.drop_last(), c);
        assert((a + b).drop_last() =~= a + b.drop_last());
        assert((a + b).last() == b.last());
    }
}

} // verus!
