//! The query paths over a split set.
//!
//! A search alternates reads of split files with decisions. The decisions are here:
//! [`SplitSearch`] says which splits to search next and takes their hits, until it is done. The
//! caller opens and searches the splits it names, probes the global Bloom filter and ranks by
//! the sort column when asked.
//!
//! * **Tiered, base only**: the base splits are in rank order and hold disjoint, increasing
//!   global id ranges, so the top-K is the concatenation of the splits' own hits. The top split
//!   is searched alone; the others in waves, until the page is full.
//! * **Stable-key, base only**: every surviving split is searched, and the sort column ranks.
//! * **Base and delta**: every surviving split is searched; tombstoned docs are dropped, the
//!   base docs ranked by policy, and the delta docs appended in ingest order.

use crate::bitmap;
use crate::bloom;
use crate::error::IndexError;
use crate::splitset::{ManifestView, Policy, Split, SplitSet, SplitView};
use roaring::RoaringBitmap;
use vstd::prelude::*;

verus! {

/// How many tail-tier splits a tiered descent searches **concurrently** once the top tier
/// hasn't filled the page.
pub const DESCENT_WAVE: usize = 8;

/// `v` in ascending order.
pub open spec fn ascending(v: Seq<u32>) -> Seq<u32> {
    v.sort_by(|a: u32, b: u32| a <= b)
}

/// The first `limit` of `v`.
pub open spec fn truncated(v: Seq<u32>, limit: nat) -> Seq<u32> {
    if v.len() <= limit {
        v
    } else {
        v.take(limit as int)
    }
}

/// The IDs of `v` that are not `dead`, in order.
pub open spec fn alive(v: Seq<u32>, dead: Set<u32>) -> Seq<u32>
    decreases v.len(),
{
    if v.len() == 0 {
        Seq::empty()
    } else if dead.contains(v.last()) {
        alive(v.drop_last(), dead)
    } else {
        alive(v.drop_last(), dead).push(v.last())
    }
}

/// `slice::sort_unstable`: the same values in ascending order.
#[verifier::external_body]
fn sort_unstable(v: &mut Vec<u32>)
    ensures
        forall|i: int, j: int| 0 <= i <= j < final(v)@.len() ==> final(v)@[i] <= final(v)@[j],
        final(v)@.to_multiset() == old(v)@.to_multiset(),
{
    v.sort_unstable();
}

/// Sorts `v` into ascending order.
pub fn sort_ascending(v: &mut Vec<u32>)
    ensures
        final(v)@ == ascending(old(v)@),
{
    let ghost before = v@;
    sort_unstable(v);
    proof {
        let leq = |a: u32, b: u32| a <= b;
        before.lemma_sort_by_ensures(leq);
        vstd::seq_lib::lemma_sorted_unique(v@, before.sort_by(leq), leq);
    }
}

/// Keeps the IDs of `v` that are not in `dead`.
fn retain_alive(v: Vec<u32>, dead: &RoaringBitmap) -> (out: Vec<u32>)
    ensures
        out@ == alive(v@, bitmap::ids(*dead)),
{
    let mut out: Vec<u32> = Vec::new();
    let mut i: usize = 0;
    assert(v@.take(0) =~= Seq::<u32>::empty());
    while i < v.len()
        invariant
            i <= v@.len(),
            out@ == alive(v@.take(i as int), bitmap::ids(*dead)),
        decreases v@.len() - i,
    {
        assert(v@.take(i + 1).drop_last() =~= v@.take(i as int));
        if !dead.contains(v[i]) {
            out.push(v[i]);
        }
        i += 1;
    }
    assert(v@.take(i as int) =~= v@);
    out
}

/// The global IDs of the docs `locals` of split `s`.
pub open spec fn globals(s: SplitView, locals: Seq<u32>) -> Seq<u32> {
    locals.map_values(|l: u32| s.to_global(l))
}

/// The hits of the splits `targets`, as global IDs, split after split.
pub open spec fn gathered(m: ManifestView, targets: Seq<usize>, hits: Seq<Vec<u32>>) -> Seq<u32>
    decreases targets.len(),
{
    if targets.len() == 0 {
        Seq::empty()
    } else {
        gathered(m, targets.drop_last(), hits.drop_last()) + globals(
            m.splits[targets.last() as int],
            hits.last()@,
        )
    }
}

/// The IDs that the tombstones of the first `n` splits name, or the error of the first bad
/// one.
pub open spec fn dead_ids(m: ManifestView, n: nat) -> Result<Set<u32>, IndexError>
    decreases n,
{
    if n == 0 {
        Ok(Set::empty())
    } else {
        match dead_ids(m, (n - 1) as nat) {
            Err(e) => Err(e),
            Ok(dead) => match m.tombstone(m.splits[n - 1]) {
                Err(e) => Err(e),
                Ok(Some(t)) => Ok(dead.union(t)),
                Ok(None) => Ok(dead),
            },
        }
    }
}

proof fn lemma_dead_err(m: ManifestView, i: nat, n: nat, e: IndexError)
    requires
        i < n,
        dead_ids(m, i) is Ok,
        m.tombstone(m.splits[i as int]) == Err::<Option<Set<u32>>, _>(e),
    ensures
        dead_ids(m, n) == Err::<Set<u32>, _>(e),
    decreases n,
{
    if i + 1 < n {
        lemma_dead_err(m, i, (n - 1) as nat, e);
    }
}

/// Every superseded doc: the union of all tombstones.
pub fn superseded(set: &SplitSet) -> (r: Result<RoaringBitmap, IndexError>)
    ensures
        match r {
            Ok(dead) => dead_ids(set@, set@.splits.len()) == Ok::<_, IndexError>(
                bitmap::ids(dead),
            ),
            Err(e) => dead_ids(set@, set@.splits.len()) == Err::<Set<u32>, _>(e),
        },
{
    let splits = set.splits();
    let mut dead = RoaringBitmap::new();
    let mut i: usize = 0;
    while i < splits.len()
        invariant
            i <= splits@.len(),
            set@.wf(),
            crate::splitset::split_views(splits@) == set@.splits,
            dead_ids(set@, i as nat) == Ok::<_, IndexError>(bitmap::ids(dead)),
        decreases splits@.len() - i,
    {
        proof {
            assert(set@.splits[i as int] == splits@[i as int]@);
            assert(set@.summary_in_range(set@.splits[i as int]));
        }
        match set.tombstone(&splits[i]) {
            Ok(Some(t)) => bitmap::union_with(&mut dead, &t),
            Ok(None) => {},
            Err(e) => {
                proof {
                    lemma_dead_err(set@, i as nat, set@.splits.len(), e);
                }
                return Err(e);
            },
        }
        i += 1;
    }
    Ok(dead)
}

/// The splits that must be searched, in order, up to the first whose summary is malformed.
#[derive(Debug)]
pub struct Targets {
    /// The manifest indices of the splits to search, ascending.
    pub splits: Vec<usize>,
    /// How far the splits were considered.
    pub upto: usize,
    /// Why the split at `upto` could not be judged; the search fails with it once the splits
    /// before it have been searched.
    pub error: Option<IndexError>,
}

impl Targets {
    /// Whether these are the splits of `[from, to)` that `keys` and `fields` do not rule out.
    pub open spec fn ok(
        &self,
        m: ManifestView,
        from: int,
        to: int,
        keys: Seq<u64>,
        fields: Seq<Vec<u64>>,
    ) -> bool {
        &&& from <= self.upto <= to <= m.splits.len()
        &&& forall|i: int, j: int|
            0 <= i < j < self.splits@.len() ==> self.splits@[i] < self.splits@[j]
        &&& forall|i: int|
            0 <= i < self.splits@.len() ==> from <= #[trigger] self.splits@[i] < self.upto
        &&& forall|i: int|
            from <= i < self.upto ==> m.survival(
                #[trigger] m.splits[i],
                keys,
                fields,
                Ok(self.splits@.contains(i as usize)),
            )
        &&& match self.error {
            None => self.upto == to,
            Some(e) => self.upto < to && m.survival(
                m.splits[self.upto as int],
                keys,
                fields,
                Err(e),
            ),
        }
    }
}

/// Whether `split` survives both the term-Bloom prune and the facet-presence prune.
fn survives(set: &SplitSet, split: &Split, keys: &[u64], fields: &[Vec<u64>]) -> (r: Result<
    bool,
    IndexError,
>)
    requires
        set@.summary_in_range(split@),
    ensures
        set@.survival(split@, keys@, fields@, r),
{
    if set.pruned_by_bloom(split, keys) {
        return Ok(false);
    }
    match set.facet_pruned(split, fields) {
        Ok(pruned) => {
            let searched = !pruned;
            assert(!searched == pruned);
            Ok(searched)
        },
        Err(e) => Err(e),
    }
}

/// The splits of `[from, to)` to search.
fn targets(set: &SplitSet, from: usize, to: usize, keys: &[u64], fields: &[Vec<u64>]) -> (t: Targets)
    requires
        from <= to <= set@.splits.len(),
    ensures
        t.ok(set@, from as int, to as int, keys@, fields@),
{
    let splits = set.splits();
    let mut found: Vec<usize> = Vec::new();
    let mut i: usize = from;
    while i < to
        invariant
            from <= i <= to <= splits@.len(),
            set@.wf(),
            crate::splitset::split_views(splits@) == set@.splits,
            forall|a: int, b: int| 0 <= a < b < found@.len() ==> found@[a] < found@[b],
            forall|a: int| 0 <= a < found@.len() ==> from <= #[trigger] found@[a] < i,
            forall|a: int|
                from <= a < i ==> set@.survival(
                    #[trigger] set@.splits[a],
                    keys@,
                    fields@,
                    Ok(found@.contains(a as usize)),
                ),
        decreases to - i,
    {
        proof {
            assert(set@.splits[i as int] == splits@[i as int]@);
            assert(set@.summary_in_range(set@.splits[i as int]));
        }
        let ghost before = found@;
        match survives(set, &splits[i], keys, fields) {
            Ok(yes) => {
                if yes {
                    found.push(i);
                    assert(found@[found@.len() - 1] == i);
                }
                proof {
                    assert(found@.contains(i) == yes) by {
                        if !yes && found@.contains(i) {
                            let k = choose|k: int| 0 <= k < found@.len() && found@[k] == i;
                            assert(found@[k] < i);
                        }
                    }
                    assert forall|a: usize| from <= a < i implies #[trigger] found@.contains(a)
                        == before.contains(a) by {
                        if before.contains(a) {
                            let k = choose|k: int| 0 <= k < before.len() && before[k] == a;
                            assert(found@[k] == a);
                        }
                        if found@.contains(a) {
                            let k = choose|k: int| 0 <= k < found@.len() && found@[k] == a;
                            assert(before[k] == a);
                        }
                    }
                }
            },
            Err(e) => {
                return Targets { splits: found, upto: i, error: Some(e) };
            },
        }
        i += 1;
    }
    Targets { splits: found, upto: i, error: None }
}

/// Why a split cannot be judged for `keys` and `fields`: its Bloom filter does not rule it out,
/// and its facet-presence summary is malformed.
pub open spec fn malformed(
    m: ManifestView,
    s: SplitView,
    keys: Seq<u64>,
    fields: Seq<Vec<u64>>,
) -> Option<IndexError> {
    if m.pruned_by_bloom(s, keys) || fields.len() == 0 || !m.has_facets() {
        None
    } else {
        match m.facet_keys(s) {
            Err(e) => Some(e),
            Ok(_) => None,
        }
    }
}

/// The first reason why one of the first `n` splits cannot be judged.
pub open spec fn first_malformed(
    m: ManifestView,
    n: nat,
    keys: Seq<u64>,
    fields: Seq<Vec<u64>>,
) -> Option<IndexError>
    decreases n,
{
    if n == 0 {
        None
    } else {
        match first_malformed(m, (n - 1) as nat, keys, fields) {
            Some(e) => Some(e),
            None => malformed(m, m.splits[n - 1], keys, fields),
        }
    }
}

proof fn lemma_first_malformed(
    m: ManifestView,
    i: nat,
    n: nat,
    keys: Seq<u64>,
    fields: Seq<Vec<u64>>,
)
    requires
        i <= n,
        forall|j: int| 0 <= j < i ==> malformed(m, #[trigger] m.splits[j], keys, fields) is None,
        i < n ==> malformed(m, m.splits[i as int], keys, fields) is Some,
    ensures
        first_malformed(m, n, keys, fields) == (if i < n {
            malformed(m, m.splits[i as int], keys, fields)
        } else {
            None
        }),
    decreases n,
{
    if n > 0 {
        if i == n {
            lemma_first_malformed(m, (n - 1) as nat, (n - 1) as nat, keys, fields);
        } else {
            lemma_first_malformed(m, i, (n - 1) as nat, keys, fields);
        }
    }
}

/// Where a search stands.
#[verifier::ext_equal]
pub enum StageView {
    /// Tiered: waiting for the hits of the top split.
    Top,
    /// Tiered: the top split has none; waiting for the global Bloom filter's answer.
    Probe,
    /// Tiered: waiting for the hits of the splits `[from, to)`.
    Wave {
        /// The hits so far.
        out: Seq<u32>,
        /// The first split of the wave.
        from: int,
        /// The end of the wave.
        to: int,
    },
    /// Waiting for the hits of all base splits.
    Base,
    /// Waiting for the hits of all delta splits.
    Delta {
        /// The base hits.
        base: Seq<u32>,
    },
    /// Waiting for the sort column's ranking.
    Rank {
        /// The IDs to rank.
        candidates: Seq<u32>,
        /// How many to keep.
        limit: nat,
        /// Whether `delta` follows and the whole is truncated.
        merge: bool,
        /// The delta hits, ascending.
        delta: Seq<u32>,
    },
    /// Done.
    Finished {
        /// The result.
        ids: Seq<u32>,
    },
}

impl StageView {
    /// The splits whose hits are awaited.
    pub open spec fn range(self, m: ManifestView) -> Option<(int, int)> {
        match self {
            StageView::Top => Some((0, 1)),
            StageView::Wave { out, from, to } => Some((from, to)),
            StageView::Base => Some((0, m.base_count as int)),
            StageView::Delta { base } => Some((m.base_count as int, m.splits.len() as int)),
            _ => None,
        }
    }
}

/// Where a search starts: nothing is asked for no results; a tiered base is descended; else all
/// base splits are searched.
pub open spec fn start_stage(m: ManifestView, limit: nat) -> StageView {
    if limit == 0 {
        StageView::Finished { ids: Seq::empty() }
    } else if m.delta_splits().len() == 0 && m.policy == Policy::Tiered {
        if m.base_count == 0 {
            StageView::Finished { ids: Seq::empty() }
        } else {
            StageView::Top
        }
    } else {
        StageView::Base
    }
}

/// Whether the base hits are merged with delta hits and superseded: for a filtered query, or
/// where there are delta splits.
pub open spec fn merges(m: ManifestView, filtered: bool) -> bool {
    filtered || m.delta_splits().len() > 0
}

/// A tiered descent with the hits `out` of the splits before `from`: done where the page is
/// full or no split is left, else the next wave.
pub open spec fn wave_stage(m: ManifestView, out: Seq<u32>, from: int, limit: nat) -> StageView {
    if out.len() >= limit || from >= m.base_count {
        StageView::Finished { ids: truncated(out, limit) }
    } else {
        StageView::Wave {
            out,
            from,
            to: if from + DESCENT_WAVE <= m.base_count {
                from + DESCENT_WAVE
            } else {
                m.base_count as int
            },
        }
    }
}

/// What follows the hits `out` of the top split. None at all is the sign of a rare or absent
/// term: then the global Bloom filter is asked.
pub open spec fn top_stage(m: ManifestView, out: Seq<u32>, limit: nat) -> StageView {
    if out.len() == 0 && limit > 0 {
        StageView::Probe
    } else {
        wave_stage(m, out, 1, limit)
    }
}

/// What follows the global Bloom filter's answer: the descent goes on, or ends with nothing.
pub open spec fn probe_stage(m: ManifestView, present: bool, limit: nat) -> StageView {
    if present {
        wave_stage(m, Seq::empty(), 1, limit)
    } else {
        StageView::Finished { ids: Seq::empty() }
    }
}

/// What follows the base hits.
pub open spec fn base_stage(m: ManifestView, merge: bool, base: Seq<u32>, limit: nat) -> StageView {
    if merge {
        StageView::Delta { base }
    } else if m.sortcol is Some {
        StageView::Rank { candidates: base, limit, merge: false, delta: Seq::empty() }
    } else {
        StageView::Finished { ids: truncated(ascending(base), limit) }
    }
}

/// What follows the delta hits: superseded docs are dropped, the base docs ranked by policy,
/// and the delta docs appended.
pub open spec fn delta_stage(
    m: ManifestView,
    base: Seq<u32>,
    delta: Seq<u32>,
    limit: nat,
) -> Result<StageView, IndexError> {
    match dead_ids(m, m.splits.len()) {
        Err(e) => Err(e),
        Ok(dead) => {
            let b = alive(base, dead);
            let d = ascending(alive(delta, dead));
            if m.policy == Policy::StableKey && m.sortcol is Some {
                Ok(StageView::Rank { candidates: b, limit: b.len(), merge: true, delta: d })
            } else {
                Ok(StageView::Finished { ids: truncated(ascending(b) + d, limit) })
            }
        },
    }
}

/// What follows the hits of the splits that a stage awaits.
pub open spec fn hits_stage(
    m: ManifestView,
    merge: bool,
    limit: nat,
    stage: StageView,
    hits: Seq<u32>,
) -> Result<StageView, IndexError> {
    match stage {
        StageView::Top => Ok(top_stage(m, hits, limit)),
        StageView::Wave { out, from, to } => Ok(wave_stage(m, out + hits, to, limit)),
        StageView::Base => Ok(base_stage(m, merge, hits, limit)),
        StageView::Delta { base } => delta_stage(m, base, hits, limit),
        _ => Ok(stage),
    }
}

enum Stage {
    Top,
    Probe,
    Wave { out: Vec<u32>, from: usize, to: usize },
    Base,
    Delta { base: Vec<u32> },
    Rank { candidates: Vec<u32>, limit: usize, merge: bool, delta: Vec<u32> },
    Finished { ids: Vec<u32> },
}

impl Stage {
    spec fn view(&self) -> StageView {
        match self {
            Stage::Top => StageView::Top,
            Stage::Probe => StageView::Probe,
            Stage::Wave { out, from, to } => StageView::Wave {
                out: out@,
                from: *from as int,
                to: *to as int,
            },
            Stage::Base => StageView::Base,
            Stage::Delta { base } => StageView::Delta { base: base@ },
            Stage::Rank { candidates, limit, merge, delta } => StageView::Rank {
                candidates: candidates@,
                limit: *limit as nat,
                merge: *merge,
                delta: delta@,
            },
            Stage::Finished { ids } => StageView::Finished { ids: ids@ },
        }
    }
}

/// What a search asks of its caller.
pub enum Step<'s> {
    /// Search each of these splits (by manifest index) for the query, for up to `limit` of its
    /// own doc IDs, in its rank order; answer with [`SplitSearch::with_hits`].
    Search {
        /// The splits.
        targets: &'s [usize],
        /// How many IDs of each.
        limit: usize,
    },
    /// Probe the global term Bloom filter, where there is one, for the query's keys; answer
    /// with [`SplitSearch::with_probe`].
    Probe,
    /// Rank these IDs by the manifest's sort column and keep the first `limit`; answer with
    /// [`SplitSearch::with_ranking`].
    Rank {
        /// The IDs.
        candidates: &'s [u32],
        /// How many to keep.
        limit: usize,
    },
    /// The result.
    Done(&'s [u32]),
}

/// A search over a split set.
pub struct SplitSearch<'a> {
    set: &'a SplitSet,
    keys: Vec<u64>,
    fields: Vec<Vec<u64>>,
    merge: bool,
    limit: usize,
    stage: Stage,
    targets: Targets,
}

impl<'a> SplitSearch<'a> {
    /// The manifest that is searched.
    pub closed spec fn manifest(&self) -> ManifestView {
        self.set@
    }

    /// The query's n-gram keys.
    pub closed spec fn keys(&self) -> Seq<u64> {
        self.keys@
    }

    /// The filter's category keys, by field.
    pub closed spec fn fields(&self) -> Seq<Vec<u64>> {
        self.fields@
    }

    /// Whether the base hits are merged and superseded.
    pub closed spec fn merge(&self) -> bool {
        self.merge
    }

    /// How many IDs are wanted.
    pub closed spec fn limit(&self) -> nat {
        self.limit as nat
    }

    /// Where the search stands.
    pub closed spec fn stage(&self) -> StageView {
        self.stage.view()
    }

    /// The splits whose hits are awaited.
    pub closed spec fn targets(&self) -> Targets {
        self.targets
    }

    /// The awaited splits are those of the stage that the query does not rule out.
    pub open spec fn wf(&self) -> bool {
        &&& self.manifest().wf()
        &&& match self.stage().range(self.manifest()) {
            Some((from, to)) => self.targets().ok(
                self.manifest(),
                from,
                to,
                self.keys(),
                self.fields(),
            ),
            None => true,
        }
        &&& self.stage() matches StageView::Wave { out, from, to } ==> to
            <= self.manifest().base_count
        &&& self.stage() is Top || self.stage() is Probe ==> self.manifest().base_count > 0
    }

    /// Whether `next` is the same search, at another stage.
    pub open spec fn continues(&self, next: &SplitSearch<'a>) -> bool {
        &&& next.manifest() == self.manifest()
        &&& next.keys() == self.keys()
        &&& next.fields() == self.fields()
        &&& next.merge() == self.merge()
        &&& next.limit() == self.limit()
        &&& next.wf()
    }

    /// Whether the hits of the awaited splits take the search to `r`: it fails where a split
    /// could not be judged or a tombstone cannot be read, and else moves on.
    pub open spec fn takes_hits(
        &self,
        hits: Seq<Vec<u32>>,
        r: Result<SplitSearch<'a>, IndexError>,
    ) -> bool {
        match self.targets().error {
            Some(e) => r == Err::<SplitSearch<'a>, _>(e),
            None => match hits_stage(
                self.manifest(),
                self.merge(),
                self.limit(),
                self.stage(),
                gathered(self.manifest(), self.targets().splits@, hits),
            ) {
                Err(e) => r == Err::<SplitSearch<'a>, _>(e),
                Ok(stage) => r matches Ok(next) && self.continues(&next) && next.stage() == stage,
            },
        }
    }

    /// Whether the global Bloom filter's answer takes the search to `next`.
    pub open spec fn takes_probe(&self, present: bool, next: SplitSearch<'a>) -> bool {
        &&& self.continues(&next)
        &&& next.stage() == probe_stage(self.manifest(), present, self.limit())
    }

    /// Whether the sort column's ranking takes the search to `next`.
    pub open spec fn takes_ranking(&self, ranked: Seq<u32>, next: SplitSearch<'a>) -> bool {
        &&& self.continues(&next)
        &&& self.stage() matches StageView::Rank { candidates, limit, merge, delta }
            && next.stage() == (StageView::Finished {
            ids: if merge {
                truncated(ranked + delta, self.limit())
            } else {
                ranked
            },
        })
    }

    /// Begins a search for up to `limit` IDs. `keys` are the query's n-gram keys (empty
    /// disables Bloom pruning); `fields` are the category keys of the facet filter, one list
    /// for each selected field, and `filtered` says whether there is a filter at all. A search
    /// of all splits judges them before it asks for any: it fails at the first whose summary is
    /// malformed.
    pub fn begin(
        set: &'a SplitSet,
        keys: Vec<u64>,
        fields: Vec<Vec<u64>>,
        filtered: bool,
        limit: usize,
    ) -> (r: Result<SplitSearch<'a>, IndexError>)
        ensures
            match (
                start_stage(set@, limit as nat) is Base,
                first_malformed(set@, set@.splits.len(), keys@, fields@),
            ) {
                (true, Some(e)) => r == Err::<SplitSearch<'a>, _>(e),
                _ => {
                    &&& r matches Ok(s)
                    &&& s.manifest() == set@
                    &&& s.keys() == keys@
                    &&& s.fields() == fields@
                    &&& s.merge() == merges(set@, filtered)
                    &&& s.limit() == limit
                    &&& s.stage() == start_stage(set@, limit as nat)
                    &&& s.wf()
                },
            },
    {
        let delta = set.delta_splits();
        let no_delta = delta.len() == 0;
        assert(set@.delta_splits().len() == delta@.len());
        let count: usize = set.base_count() as usize;
        let all = set.splits();
        assert(set@.splits.len() == all@.len());
        let stage = if limit == 0 {
            Stage::Finished { ids: Vec::new() }
        } else if no_delta && set.policy() == Policy::Tiered {
            if count == 0 {
                Stage::Finished { ids: Vec::new() }
            } else {
                Stage::Top
            }
        } else {
            Stage::Base
        };
        if let Stage::Base = stage {
            let judged = targets(set, 0, all.len(), keys.as_slice(), fields.as_slice());
            proof {
                let m = set@;
                assert forall|j: int| 0 <= j < judged.upto implies malformed(
                    m,
                    #[trigger] m.splits[j],
                    keys@,
                    fields@,
                ) is None by {
                    assert(m.survival(
                        m.splits[j],
                        keys@,
                        fields@,
                        Ok(judged.splits@.contains(j as usize)),
                    ));
                }
                lemma_first_malformed(m, judged.upto as nat, m.splits.len(), keys@, fields@);
            }
            if let Some(e) = judged.error {
                return Err(e);
            }
        }
        let s = SplitSearch {
            set,
            keys,
            fields,
            merge: filtered || !no_delta,
            limit,
            stage: Stage::Probe,
            targets: Targets { splits: Vec::new(), upto: 0, error: None },
        };
        Ok(s.enter(stage))
    }

    /// Moves on to `stage`.
    fn enter(self, stage: Stage) -> (s: SplitSearch<'a>)
        requires
            self.manifest().wf(),
            stage.view() is Top || stage.view() is Probe ==> self.manifest().base_count > 0,
            stage.view() matches StageView::Wave { out, from, to } ==> 0 <= from <= to
                <= self.manifest().base_count,
        ensures
            self.continues(&s),
            s.stage() == stage.view(),
    {
        let count: usize = self.set.base_count() as usize;
        let all: usize = self.set.splits().len();
        assert(self.set@.splits.len() == all);
        let (from, to): (usize, usize) = match &stage {
            Stage::Top => (0, 1),
            Stage::Wave { from, to, .. } => (*from, *to),
            Stage::Base => (0, count),
            Stage::Delta { .. } => (count, all),
            _ => (0, 0),
        };
        let found = targets(self.set, from, to, self.keys.as_slice(), self.fields.as_slice());
        let mut s = self;
        s.stage = stage;
        s.targets = found;
        s
    }

    /// What is asked of the caller.
    pub fn step(&self) -> (step: Step<'_>)
        ensures
            match step {
                Step::Search { targets, limit } => {
                    &&& self.stage().range(self.manifest()) is Some
                    &&& targets@ == self.targets().splits@
                    &&& limit == (if self.stage() is Base || self.stage() is Delta {
                        usize::MAX as int
                    } else {
                        self.limit() as int
                    })
                },
                Step::Probe => self.stage() is Probe,
                Step::Rank { candidates, limit } => self.stage() matches StageView::Rank {
                    candidates: c,
                    limit: n,
                    merge,
                    delta,
                } && candidates@ == c && limit == n,
                Step::Done(ids) => self.stage() == (StageView::Finished { ids: ids@ }),
            },
    {
        match &self.stage {
            Stage::Top | Stage::Wave { .. } => Step::Search {
                targets: self.targets.splits.as_slice(),
                limit: self.limit,
            },
            Stage::Base | Stage::Delta { .. } => Step::Search {
                targets: self.targets.splits.as_slice(),
                limit: usize::MAX,
            },
            Stage::Probe => Step::Probe,
            Stage::Rank { candidates, limit, .. } => Step::Rank {
                candidates: candidates.as_slice(),
                limit: *limit,
            },
            Stage::Finished { ids } => Step::Done(ids.as_slice()),
        }
    }

    /// The next stage of a tiered descent with the hits `out` of the splits before `from`.
    fn descend(&self, out: Vec<u32>, from: usize) -> (stage: Stage)
        requires
            from <= self.manifest().base_count,
        ensures
            stage.view() == wave_stage(self.manifest(), out@, from as int, self.limit()),
    {
        let count: usize = self.set.base_count() as usize;
        let mut out = out;
        if out.len() >= self.limit || from >= count {
            out.truncate(self.limit);
            return Stage::Finished { ids: out };
        }
        let to: usize = if count - from >= DESCENT_WAVE {
            from + DESCENT_WAVE
        } else {
            count
        };
        Stage::Wave { out, from, to }
    }

    /// Takes the hits of the splits that were asked for: `hits[i]` are the doc IDs of the
    /// `i`-th, its own, in rank order.
    pub fn with_hits(self, hits: Vec<Vec<u32>>) -> (r: Result<SplitSearch<'a>, IndexError>)
        requires
            self.wf(),
            self.stage().range(self.manifest()) is Some,
            hits@.len() == self.targets().splits@.len(),
        ensures
            self.takes_hits(hits@, r),
    {
        let mut this = self;
        let mut error: Option<IndexError> = None;
        std::mem::swap(&mut error, &mut this.targets.error);
        if let Some(e) = error {
            return Err(e);
        }
        let found = this.gather(&hits);
        let mut stage = Stage::Probe;
        std::mem::swap(&mut stage, &mut this.stage);
        let next = match stage {
            Stage::Top => if found.len() == 0 && this.limit > 0 {
                Stage::Probe
            } else {
                this.descend(found, 1)
            },
            Stage::Wave { out, from: _, to } => {
                let mut out = out;
                let mut found = found;
                out.append(&mut found);
                this.descend(out, to)
            },
            Stage::Base => this.ranked_base(found),
            Stage::Delta { base } => match this.supersede(base, found) {
                Ok(stage) => stage,
                Err(e) => return Err(e),
            },
            other => other,
        };
        Ok(this.enter(next))
    }

    /// The hits of the searched splits as global IDs, split after split.
    fn gather(&self, hits: &Vec<Vec<u32>>) -> (out: Vec<u32>)
        requires
            hits@.len() == self.targets().splits@.len(),
            forall|i: int|
                0 <= i < self.targets().splits@.len() ==> #[trigger] self.targets().splits@[i]
                    < self.manifest().splits.len(),
        ensures
            out@ == gathered(self.manifest(), self.targets().splits@, hits@),
    {
        let splits = self.set.splits();
        let ghost ts = self.targets.splits@;
        let ghost m = self.set@;
        let mut out: Vec<u32> = Vec::new();
        let mut i: usize = 0;
        assert(ts.take(0) =~= Seq::<usize>::empty());
        while i < hits.len()
            invariant
                i <= hits@.len() == ts.len(),
                ts == self.targets.splits@,
                m == self.set@,
                crate::splitset::split_views(splits@) == m.splits,
                forall|j: int| 0 <= j < ts.len() ==> #[trigger] ts[j] < m.splits.len(),
                out@ == gathered(m, ts.take(i as int), hits@.take(i as int)),
            decreases hits@.len() - i,
        {
            let at: usize = self.targets.splits[i];
            let split = &splits[at];
            let locals = &hits[i];
            let ghost before = out@;
            let mut j: usize = 0;
            proof {
                assert(m.splits[at as int] == split@);
                assert(ts.take(i + 1).drop_last() =~= ts.take(i as int));
                assert(hits@.take(i + 1).drop_last() =~= hits@.take(i as int));
                assert(globals(split@, locals@.take(0)) =~= Seq::<u32>::empty());
                assert(before + Seq::<u32>::empty() =~= before);
            }
            while j < locals.len()
                invariant
                    j <= locals@.len(),
                    out@ == before + globals(split@, locals@.take(j as int)),
                decreases locals@.len() - j,
            {
                out.push(split.to_global(locals[j]));
                assert(globals(split@, locals@.take(j + 1)) =~= globals(
                    split@,
                    locals@.take(j as int),
                ).push(split@.to_global(locals@[j as int])));
                j += 1;
            }
            assert(locals@.take(j as int) =~= locals@);
            i += 1;
        }
        assert(ts.take(i as int) =~= ts);
        assert(hits@.take(i as int) =~= hits@);
        out
    }

    /// What follows the base hits.
    fn ranked_base(&self, base: Vec<u32>) -> (stage: Stage)
        ensures
            stage.view() == base_stage(self.manifest(), self.merge(), base@, self.limit()),
    {
        if self.merge {
            return Stage::Delta { base };
        }
        match self.set.sortcol() {
            Some(_) => {
                let stage = Stage::Rank {
                    candidates: base,
                    limit: self.limit,
                    merge: false,
                    delta: Vec::new(),
                };
                assert(stage.view() =~= base_stage(
                    self.manifest(),
                    self.merge(),
                    base@,
                    self.limit(),
                ));
                stage
            },
            None => {
                let mut ids = base;
                sort_ascending(&mut ids);
                ids.truncate(self.limit);
                Stage::Finished { ids }
            },
        }
    }

    /// Supersedes and ranks: drops every tombstoned doc, ranks the base survivors by policy,
    /// and appends the delta survivors in ingest order.
    fn supersede(&self, base: Vec<u32>, delta: Vec<u32>) -> (r: Result<Stage, IndexError>)
        ensures
            match r {
                Ok(stage) => delta_stage(self.manifest(), base@, delta@, self.limit()) == Ok::<
                    _,
                    IndexError,
                >(stage.view()),
                Err(e) => delta_stage(self.manifest(), base@, delta@, self.limit()) == Err::<
                    StageView,
                    _,
                >(e),
            },
    {
        let dead = match superseded(self.set) {
            Ok(dead) => dead,
            Err(e) => return Err(e),
        };
        let mut base = retain_alive(base, &dead);
        let mut delta = retain_alive(delta, &dead);
        sort_ascending(&mut delta);
        let by_column = self.set.policy() == Policy::StableKey && self.set.sortcol().is_some();
        if by_column {
            let limit: usize = base.len();
            return Ok(Stage::Rank { candidates: base, limit, merge: true, delta });
        }
        sort_ascending(&mut base);
        let ghost merged = base@ + delta@;
        base.append(&mut delta);
        base.truncate(self.limit);
        assert(base@ =~= truncated(merged, self.limit as nat));
        Ok(Stage::Finished { ids: base })
    }

    /// Takes the global Bloom filter's answer: `false` only on a **definitive** absence of one
    /// of the keys; every other outcome (no filter, an unreadable one, no keys) is `true`.
    pub fn with_probe(self, present: bool) -> (next: SplitSearch<'a>)
        requires
            self.wf(),
            self.stage() is Probe,
        ensures
            self.takes_probe(present, next),
    {
        let out: Vec<u32> = Vec::new();
        let stage = if present {
            self.descend(out, 1)
        } else {
            Stage::Finished { ids: out }
        };
        self.enter(stage)
    }

    /// Takes the sort column's ranking of the candidates.
    pub fn with_ranking(self, ranked: Vec<u32>) -> (next: SplitSearch<'a>)
        requires
            self.wf(),
            self.stage() is Rank,
        ensures
            self.takes_ranking(ranked@, next),
    {
        let mut this = self;
        let mut stage = Stage::Probe;
        std::mem::swap(&mut stage, &mut this.stage);
        let mut ids = ranked;
        if let Stage::Rank { candidates: _, limit: _, merge, delta } = stage {
            if merge {
                let mut delta = delta;
                let ghost behind = delta@;
                ids.append(&mut delta);
                ids.truncate(this.limit);
                assert(ids@ =~= truncated(ranked@ + behind, self.limit()));
            }
        }
        this.enter(Stage::Finished { ids })
    }
}

/// Once the page is full, what follows does not change it: a descent that stops there returns
/// what the whole descent would.
pub proof fn law_full_page(out: Seq<u32>, rest: Seq<u32>, limit: nat)
    requires
        out.len() >= limit,
    ensures
        truncated(out + rest, limit) == truncated(out, limit),
{
    assert(truncated(out + rest, limit) =~= truncated(out, limit));
}

/// The splits' hits, each cut to `limit`.
pub open spec fn each_truncated(hs: Seq<Seq<u32>>, limit: nat) -> Seq<Seq<u32>> {
    hs.map_values(|h: Seq<u32>| truncated(h, limit))
}

/// Asking every split for `limit` hits only, and cutting the concatenation, gives the first
/// `limit` of all hits: waves return what a serial descent over complete hits would.
pub proof fn law_waves_as_serial(hs: Seq<Seq<u32>>, limit: nat)
    ensures
        truncated(each_truncated(hs, limit).flatten(), limit) == truncated(hs.flatten(), limit),
    decreases hs.len(),
{
    let ts = each_truncated(hs, limit);
    if hs.len() > 0 {
        let a = hs.first();
        let b = hs.drop_first().flatten();
        let rest = each_truncated(hs.drop_first(), limit);
        assert(ts.drop_first() =~= rest);
        assert(ts.first() == truncated(a, limit));
        if a.len() >= limit {
            law_full_page(a, b, limit);
            law_full_page(truncated(a, limit), rest.flatten(), limit);
            assert(truncated(truncated(a, limit), limit) =~= truncated(a, limit));
        } else {
            let left = (limit - a.len()) as nat;
            law_waves_as_serial(hs.drop_first(), limit);
            let c = rest.flatten();
            assert(truncated(a + c, limit) =~= a + truncated(c, left));
            assert(truncated(a + b, limit) =~= a + truncated(b, left));
            lemma_truncated_less(b, c, left, limit);
        }
    }
}

proof fn lemma_truncated_less(b: Seq<u32>, c: Seq<u32>, left: nat, limit: nat)
    requires
        left <= limit,
        truncated(b, limit) == truncated(c, limit),
    ensures
        truncated(b, left) == truncated(c, left),
{
    assert(truncated(b, left) =~= truncated(truncated(b, limit), left));
    assert(truncated(c, left) =~= truncated(truncated(c, limit), left));
}

/// How far a descent still has to go.
pub open spec fn steps_left(m: ManifestView, stage: StageView) -> int {
    match stage {
        StageView::Top => m.base_count + 2,
        StageView::Probe => m.base_count + 1,
        StageView::Wave { out, from, to } => if from < to {
            m.base_count - from
        } else {
            0
        },
        _ => 0,
    }
}

/// What a tiered descent returns from `stage` on, where `hs` are the hits of each base split and
/// the global Bloom filter rules nothing out.
pub open spec fn descended(
    m: ManifestView,
    merge: bool,
    limit: nat,
    stage: StageView,
    hs: Seq<Seq<u32>>,
) -> Seq<u32>
    decreases steps_left(m, stage),
{
    match stage {
        StageView::Top => match hits_stage(m, merge, limit, stage, hs[0]) {
            Ok(next) => if steps_left(m, next) < steps_left(m, stage) && 0 <= steps_left(m, next) {
                descended(m, merge, limit, next, hs)
            } else {
                Seq::empty()
            },
            Err(_) => Seq::empty(),
        },
        StageView::Probe => {
            let next = wave_stage(m, Seq::empty(), 1, limit);
            if steps_left(m, next) < steps_left(m, stage) && 0 <= steps_left(m, next) {
                descended(m, merge, limit, next, hs)
            } else {
                Seq::empty()
            }
        },
        StageView::Wave { out, from, to } => match hits_stage(
            m,
            merge,
            limit,
            stage,
            hs.subrange(from, to).flatten(),
        ) {
            Ok(next) => if steps_left(m, next) < steps_left(m, stage) && 0 <= steps_left(m, next) {
                descended(m, merge, limit, next, hs)
            } else {
                Seq::empty()
            },
            Err(_) => Seq::empty(),
        },
        StageView::Finished { ids } => ids,
        _ => Seq::empty(),
    }
}

pub proof fn lemma_flatten_concat(a: Seq<Seq<u32>>, b: Seq<Seq<u32>>)
    ensures
        (a + b).flatten() == a.flatten() + b.flatten(),
    decreases a.len(),
{
    if a.len() == 0 {
        assert(a + b =~= b);
    } else {
        lemma_flatten_concat(a.drop_first(), b);
        assert((a + b).drop_first() =~= a.drop_first() + b);
        assert((a + b).flatten() =~= a.flatten() + b.flatten());
    }
}

proof fn lemma_descended(
    m: ManifestView,
    merge: bool,
    limit: nat,
    out: Seq<u32>,
    from: int,
    hs: Seq<Seq<u32>>,
)
    requires
        1 <= from <= m.base_count,
        hs.len() == m.base_count,
    ensures
        descended(m, merge, limit, wave_stage(m, out, from, limit), hs) == truncated(
            out + hs.subrange(from, m.base_count as int).flatten(),
            limit,
        ),
    decreases m.base_count - from,
{
    let n = m.base_count as int;
    let rest = hs.subrange(from, n).flatten();
    let stage = wave_stage(m, out, from, limit);
    if out.len() >= limit {
        law_full_page(out, rest, limit);
    } else if from >= n {
        assert(hs.subrange(from, n) =~= Seq::<Seq<u32>>::empty());
        assert(out + rest =~= out);
    } else {
        let to = stage->to;
        let a = hs.subrange(from, to);
        let b = hs.subrange(to, n);
        lemma_flatten_concat(a, b);
        assert(hs.subrange(from, n) =~= a + b);
        assert(out + rest =~= out + a.flatten() + b.flatten());
        lemma_descended(m, merge, limit, out + a.flatten(), to, hs);
    }
}

/// A tiered search returns the first `limit` of all hits, split after split, wherever its waves
/// fall and though each split is asked for no more than `limit` of its hits.
pub proof fn law_descent(m: ManifestView, merge: bool, limit: nat, hs: Seq<Seq<u32>>)
    requires
        start_stage(m, limit) is Top,
        hs.len() == m.base_count,
    ensures
        descended(m, merge, limit, StageView::Top, each_truncated(hs, limit)) == truncated(
            hs.flatten(),
            limit,
        ),
{
    let ts = each_truncated(hs, limit);
    let n = m.base_count as int;
    let rest = ts.subrange(1, n).flatten();
    assert(ts.drop_first() =~= ts.subrange(1, n));
    assert(ts.flatten() == ts[0] + rest);
    law_waves_as_serial(hs, limit);
    if ts[0].len() == 0 {
        assert(ts[0] =~= Seq::<u32>::empty());
        lemma_descended(m, merge, limit, Seq::empty(), 1, ts);
    } else {
        lemma_descended(m, merge, limit, ts[0], 1, ts);
    }
    reveal_with_fuel(descended, 3);
}

/// What a tiered search returns, where `hs` are the hits of each base split as it is asked for
/// them, and `present` is what the global Bloom filter answers if it is asked.
pub open spec fn answered(
    m: ManifestView,
    merge: bool,
    limit: nat,
    hs: Seq<Seq<u32>>,
    present: bool,
) -> Seq<u32> {
    match hits_stage(m, merge, limit, StageView::Top, hs[0]) {
        Ok(StageView::Probe) => descended(m, merge, limit, probe_stage(m, present, limit), hs),
        Ok(next) => descended(m, merge, limit, next, hs),
        Err(_) => Seq::empty(),
    }
}

/// The hits `hs` of the splits that the query for `keys` is not spared by their Bloom filters,
/// and none of the others.
pub open spec fn kept_hits(m: ManifestView, keys: Seq<u64>, hs: Seq<Seq<u32>>) -> Seq<Seq<u32>> {
    Seq::new(
        hs.len(),
        |i: int|
            if m.pruned_by_bloom(m.splits[i], keys) {
                Seq::empty()
            } else {
                hs[i]
            },
    )
}

/// Whether the summaries of the splits are those of the keys `vocab` that they hold, and `hs`
/// are hits for `keys`: each Bloom filter is over its split's keys, and a split with a hit holds
/// all of `keys`.
pub open spec fn summarised(
    m: ManifestView,
    keys: Seq<u64>,
    vocab: Seq<Seq<u64>>,
    bits_per_key: u32,
    hs: Seq<Seq<u32>>,
) -> bool {
    &&& hs.len() == m.base_count
    &&& vocab.len() == m.base_count
    &&& forall|i: int|
        #![trigger m.splits[i]]
        0 <= i < m.base_count ==> (m.bloom(m.splits[i]) matches Some(b) ==> bloom::is_filter(
            b,
            vocab[i],
            bits_per_key,
        ))
    &&& forall|i: int, k: int|
        #![trigger hs[i], keys[k]]
        0 <= i < m.base_count && hs[i].len() > 0 && 0 <= k < keys.len() ==> vocab[i].contains(
            keys[k],
        )
}

/// Whether `present` is what a global Bloom filter may answer for `keys`: `true` always, and
/// `false` only where there is a filter over every split's keys that lacks one of them.
pub open spec fn probed(keys: Seq<u64>, vocab: Seq<Seq<u64>>, present: bool) -> bool {
    present || exists|filter: Seq<u8>, all: Seq<u64>, bits: u32, k: int|
        {
            &&& #[trigger] bloom::is_filter(filter, all, bits)
            &&& 0 <= k < keys.len()
            &&& !#[trigger] bloom::may_contain(filter, keys[k])
            &&& forall|i: int, x: u64|
                0 <= i < vocab.len() && #[trigger] vocab[i].contains(x) ==> all.contains(x)
        }
}

proof fn lemma_kept_hits(
    m: ManifestView,
    keys: Seq<u64>,
    vocab: Seq<Seq<u64>>,
    bits_per_key: u32,
    hs: Seq<Seq<u32>>,
)
    requires
        summarised(m, keys, vocab, bits_per_key, hs),
    ensures
        kept_hits(m, keys, hs) == hs,
{
    assert forall|i: int| 0 <= i < hs.len() implies kept_hits(m, keys, hs)[i] == hs[i] by {
        let s = m.splits[i];
        if m.pruned_by_bloom(s, keys) && hs[i].len() > 0 {
            assert forall|k: int| 0 <= k < keys.len() implies vocab[i].contains(
                #[trigger] keys[k],
            ) by {
                assert(hs[i].len() > 0);
            }
            crate::splitset::law_bloom_keeps_matches(m, s, vocab[i], bits_per_key, keys);
        }
        if hs[i].len() == 0 {
            assert(hs[i] =~= Seq::<u32>::empty());
        }
    }
    assert(kept_hits(m, keys, hs) =~= hs);
}

pub proof fn lemma_flatten_empty(hs: Seq<Seq<u32>>)
    requires
        forall|i: int| 0 <= i < hs.len() ==> (#[trigger] hs[i]).len() == 0,
    ensures
        hs.flatten() == Seq::<u32>::empty(),
    decreases hs.len(),
{
    if hs.len() > 0 {
        assert forall|i: int| 0 <= i < hs.drop_first().len() implies (
            #[trigger] hs.drop_first()[i]).len() == 0 by {
            assert(hs.drop_first()[i] == hs[i + 1]);
        }
        lemma_flatten_empty(hs.drop_first());
        assert(hs[0].len() == 0);
        assert(hs.flatten() =~= Seq::<u32>::empty());
    }
}

/// A tiered search returns the first `limit` of all hits, whatever summaries the splits carry
/// and whatever a global Bloom filter answers: present, missing or unreadable.
pub proof fn law_summaries_change_nothing(
    m: ManifestView,
    merge: bool,
    limit: nat,
    keys: Seq<u64>,
    vocab: Seq<Seq<u64>>,
    bits_per_key: u32,
    hs: Seq<Seq<u32>>,
    present: bool,
)
    requires
        start_stage(m, limit) is Top,
        summarised(m, keys, vocab, bits_per_key, hs),
        probed(keys, vocab, present),
    ensures
        answered(m, merge, limit, each_truncated(kept_hits(m, keys, hs), limit), present)
            == truncated(hs.flatten(), limit),
{
    lemma_kept_hits(m, keys, vocab, bits_per_key, hs);
    let ts = each_truncated(hs, limit);
    law_descent(m, merge, limit, hs);
    reveal_with_fuel(descended, 3);
    if !present && ts[0].len() == 0 {
        let (filter, all, bits, k) = choose|filter: Seq<u8>, all: Seq<u64>, bits: u32, k: int|
            {
                &&& #[trigger] bloom::is_filter(filter, all, bits)
                &&& 0 <= k < keys.len()
                &&& !#[trigger] bloom::may_contain(filter, keys[k])
                &&& forall|i: int, x: u64|
                    0 <= i < vocab.len() && #[trigger] vocab[i].contains(x) ==> all.contains(x)
            };
        assert forall|i: int| 0 <= i < hs.len() implies (#[trigger] hs[i]).len() == 0 by {
            if hs[i].len() > 0 {
                assert(vocab[i].contains(keys[k]));
                bloom::law_no_false_negative(filter, all, bits, keys[k]);
            }
        }
        lemma_flatten_empty(hs);
        assert(truncated(hs.flatten(), limit) =~= Seq::<u32>::empty());
    }
}

/// The search of two sets that differ in their summaries, with different answers of a global
/// Bloom filter, returns the same.
pub proof fn law_same_answer(
    a: ManifestView,
    b: ManifestView,
    limit: nat,
    keys: Seq<u64>,
    vocab: Seq<Seq<u64>>,
    bits: (u32, u32),
    hs: Seq<Seq<u32>>,
    present: (bool, bool),
)
    requires
        start_stage(a, limit) is Top,
        start_stage(b, limit) is Top,
        summarised(a, keys, vocab, bits.0, hs),
        summarised(b, keys, vocab, bits.1, hs),
        probed(keys, vocab, present.0),
        probed(keys, vocab, present.1),
    ensures
        answered(a, false, limit, each_truncated(kept_hits(a, keys, hs), limit), present.0)
            == answered(b, false, limit, each_truncated(kept_hits(b, keys, hs), limit), present.1),
{
    law_summaries_change_nothing(a, false, limit, keys, vocab, bits.0, hs, present.0);
    law_summaries_change_nothing(b, false, limit, keys, vocab, bits.1, hs, present.1);
}

/// Of a set whose base splits hold increasing id ranges, all hits come in ascending order, and a
/// page of them is the first of all, whatever summaries the splits carry.
pub proof fn law_pages(
    m: ManifestView,
    keys: Seq<u64>,
    vocab: Seq<Seq<u64>>,
    bits_per_key: u32,
    hs: Seq<Seq<u32>>,
    limits: (nat, nat),
    present: (bool, bool),
)
    requires
        start_stage(m, limits.0) is Top,
        limits.0 <= limits.1,
        summarised(m, keys, vocab, bits_per_key, hs),
        probed(keys, vocab, present.0),
        probed(keys, vocab, present.1),
        forall|s: int, t: int|
            0 <= s < t < m.base_count ==> (#[trigger] m.splits[s]).doc_id_hi < (
            #[trigger] m.splits[t]).doc_id_lo,
        forall|s: int, i: int|
            0 <= s < hs.len() && 0 <= i < hs[s].len() ==> m.splits[s].doc_id_lo
                <= #[trigger] hs[s][i] <= m.splits[s].doc_id_hi,
        forall|s: int, i: int, j: int|
            #![trigger hs[s][i], hs[s][j]]
            0 <= s < hs.len() && 0 <= i < j < hs[s].len() ==> hs[s][i] < hs[s][j],
    ensures
        ({
            let kept = kept_hits(m, keys, hs);
            let page = answered(m, false, limits.0, each_truncated(kept, limits.0), present.0);
            let all = answered(m, false, limits.1, each_truncated(kept, limits.1), present.1);
            &&& page == truncated(all, limits.0)
            &&& forall|i: int, j: int| 0 <= i < j < all.len() ==> all[i] < all[j]
        }),
{
    law_summaries_change_nothing(
        m,
        false,
        limits.0,
        keys,
        vocab,
        bits_per_key,
        hs,
        present.0,
    );
    law_summaries_change_nothing(
        m,
        false,
        limits.1,
        keys,
        vocab,
        bits_per_key,
        hs,
        present.1,
    );
    assert forall|s: int, t: int, i: int, j: int|
        #![trigger hs[s][i], hs[t][j]]
        0 <= s < t < hs.len() && 0 <= i < hs[s].len() && 0 <= j < hs[t].len() implies hs[s][i]
        < hs[t][j] by {
        assert(m.splits[s].doc_id_hi < m.splits[t].doc_id_lo);
    }
    law_tiers_in_rank_order(hs);
    let f = hs.flatten();
    assert(truncated(truncated(f, limits.1), limits.0) =~= truncated(f, limits.0));
}

proof fn lemma_split_hits(
    m: ManifestView,
    keys: Seq<u64>,
    targets: Seq<usize>,
    hits: Seq<Vec<u32>>,
    from: int,
    to: int,
    hs: Seq<Seq<u32>>,
    limit: nat,
)
    requires
        0 <= from <= to <= hs.len(),
        hits.len() == targets.len(),
        forall|i: int, j: int| 0 <= i < j < targets.len() ==> targets[i] < targets[j],
        forall|i: int| 0 <= i < targets.len() ==> from <= #[trigger] targets[i] < to,
        forall|i: int|
            from <= i < to ==> targets.contains(i as usize) == !m.pruned_by_bloom(
                #[trigger] m.splits[i],
                keys,
            ),
        forall|i: int|
            #![trigger targets[i]]
            0 <= i < targets.len() ==> globals(m.splits[targets[i] as int], hits[i]@) == truncated(
                hs[targets[i] as int],
                limit,
            ),
        hs.len() <= usize::MAX,
    ensures
        split_hits(m, targets, hits, from, to) == each_truncated(
            kept_hits(m, keys, hs),
            limit,
        ).subrange(from, to),
    decreases to - from,
{
    let want = each_truncated(kept_hits(m, keys, hs), limit);
    if to > from {
        let last = to - 1;
        let ends = targets.len() > 0 && targets.last() == last;
        assert(ends == targets.contains(last as usize)) by {
            if targets.contains(last as usize) {
                let k = choose|k: int| 0 <= k < targets.len() && targets[k] == last;
                if k < targets.len() - 1 {
                    assert(targets[k] < targets[targets.len() - 1]);
                }
            }
            if ends {
                assert(targets[targets.len() - 1] == last as usize);
            }
        }
        assert(targets.contains(last as usize) == !m.pruned_by_bloom(m.splits[last], keys));
        let ts = if ends {
            targets.drop_last()
        } else {
            targets
        };
        let rest = if ends {
            hits.drop_last()
        } else {
            hits
        };
        assert forall|i: int| 0 <= i < ts.len() implies from <= #[trigger] ts[i] < last by {
            assert(ts[i] == targets[i]);
            if i < targets.len() - 1 {
                assert(targets[i] < targets[targets.len() - 1]);
            }
        }
        assert forall|i: int| from <= i < last implies ts.contains(i as usize)
            == !m.pruned_by_bloom(#[trigger] m.splits[i], keys) by {
            if targets.contains(i as usize) {
                let k = choose|k: int| 0 <= k < targets.len() && targets[k] == i;
                assert(ts[k] == i as usize);
            }
            if ts.contains(i as usize) {
                let k = choose|k: int| 0 <= k < ts.len() && ts[k] == i;
                assert(targets[k] == i as usize);
            }
        }
        assert forall|i: int|
            #![trigger ts[i]]
            0 <= i < ts.len() implies globals(m.splits[ts[i] as int], rest[i]@) == truncated(
            hs[ts[i] as int],
            limit,
        ) by {
            assert(ts[i] == targets[i]);
        }
        lemma_split_hits(m, keys, ts, rest, from, last, hs, limit);
        if ends {
            assert(targets[targets.len() - 1] == last);
            assert(want[last] == truncated(hs[last], limit));
        } else {
            assert(want[last] =~= Seq::<u32>::empty());
        }
        assert(want.subrange(from, to) =~= want.subrange(from, last).push(want[last]));
    } else {
        assert(want.subrange(from, to) =~= Seq::<Seq<u32>>::empty());
    }
}

/// What an unfiltered stage gathers of the splits that it asks for is what the Bloom filters
/// leave of the hits of its splits.
pub proof fn law_awaited_hits(
    m: ManifestView,
    keys: Seq<u64>,
    t: Targets,
    hits: Seq<Vec<u32>>,
    from: int,
    to: int,
    hs: Seq<Seq<u32>>,
    limit: nat,
)
    requires
        t.ok(m, from, to, keys, Seq::empty()),
        0 <= from <= to <= hs.len() <= usize::MAX,
        hits.len() == t.splits@.len(),
        forall|i: int|
            #![trigger t.splits@[i]]
            0 <= i < hits.len() ==> globals(m.splits[t.splits@[i] as int], hits[i]@) == truncated(
                hs[t.splits@[i] as int],
                limit,
            ),
    ensures
        t.error is None,
        gathered(m, t.splits@, hits) == each_truncated(kept_hits(m, keys, hs), limit).subrange(
            from,
            to,
        ).flatten(),
{
    assert(t.error is None) by {
        if let Some(e) = t.error {
            assert(m.survival(m.splits[t.upto as int], keys, Seq::empty(), Err(e)));
        }
    }
    assert forall|i: int| from <= i < to implies t.splits@.contains(i as usize)
        == !m.pruned_by_bloom(#[trigger] m.splits[i], keys) by {
        assert(m.survival(m.splits[i], keys, Seq::empty(), Ok(t.splits@.contains(i as usize))));
    }
    law_hits_by_split(m, t.splits@, hits, from, to);
    lemma_split_hits(m, keys, t.splits@, hits, from, to, hs, limit);
}

/// The hits of each of the splits `[from, to)`, where the ascending `targets` are the splits
/// that were searched: none for the others.
pub open spec fn split_hits(
    m: ManifestView,
    targets: Seq<usize>,
    hits: Seq<Vec<u32>>,
    from: int,
    to: int,
) -> Seq<Seq<u32>>
    decreases to - from,
{
    if to <= from {
        Seq::empty()
    } else if targets.len() > 0 && targets.last() == to - 1 {
        split_hits(m, targets.drop_last(), hits.drop_last(), from, to - 1).push(
            globals(m.splits[to - 1], hits.last()@),
        )
    } else {
        split_hits(m, targets, hits, from, to - 1).push(Seq::empty())
    }
}

/// What a wave gathers is the hits of its splits, split after split.
pub proof fn law_hits_by_split(
    m: ManifestView,
    targets: Seq<usize>,
    hits: Seq<Vec<u32>>,
    from: int,
    to: int,
)
    requires
        from <= to,
        hits.len() == targets.len(),
        forall|i: int, j: int| 0 <= i < j < targets.len() ==> targets[i] < targets[j],
        forall|i: int| 0 <= i < targets.len() ==> from <= #[trigger] targets[i] < to,
    ensures
        split_hits(m, targets, hits, from, to).len() == to - from,
        gathered(m, targets, hits) == split_hits(m, targets, hits, from, to).flatten(),
    decreases to - from,
{
    if to > from {
        if targets.len() > 0 && targets.last() == to - 1 {
            let ts = targets.drop_last();
            let hs = hits.drop_last();
            assert forall|i: int| 0 <= i < ts.len() implies from <= #[trigger] ts[i] < to - 1 by {
                assert(targets[i] < targets[targets.len() - 1]);
            }
            law_hits_by_split(m, ts, hs, from, to - 1);
            split_hits(m, ts, hs, from, to - 1).lemma_flatten_push(
                globals(m.splits[to - 1], hits.last()@),
            );
        } else {
            assert forall|i: int| 0 <= i < targets.len() implies from <= #[trigger] targets[i] < to
                - 1 by {
                if i < targets.len() - 1 {
                    assert(targets[i] < targets[targets.len() - 1]);
                }
            }
            law_hits_by_split(m, targets, hits, from, to - 1);
            split_hits(m, targets, hits, from, to - 1).lemma_flatten_push(Seq::empty());
        }
    } else {
        assert(targets.len() == 0) by {
            if targets.len() > 0 {
                assert(from <= targets[0] < to);
            }
        }
    }
}

/// Splits that hold increasing id ranges, each listing its hits ascending, concatenate to an
/// ascending list: the tiered result is in rank order.
pub proof fn law_tiers_in_rank_order(hs: Seq<Seq<u32>>)
    requires
        forall|s: int, i: int, j: int|
            #![trigger hs[s][i], hs[s][j]]
            0 <= s < hs.len() && 0 <= i < j < hs[s].len() ==> hs[s][i] < hs[s][j],
        forall|s: int, t: int, i: int, j: int|
            #![trigger hs[s][i], hs[t][j]]
            0 <= s < t < hs.len() && 0 <= i < hs[s].len() && 0 <= j < hs[t].len() ==> hs[s][i]
                < hs[t][j],
    ensures
        forall|i: int, j: int|
            0 <= i < j < hs.flatten().len() ==> hs.flatten()[i] < hs.flatten()[j],
    decreases hs.len(),
{
    if hs.len() > 0 {
        let a = hs.first();
        let rest = hs.drop_first();
        assert forall|s: int, i: int, j: int|
            #![trigger rest[s][i], rest[s][j]]
            0 <= s < rest.len() && 0 <= i < j < rest[s].len() implies rest[s][i] < rest[s][j] by {
            assert(rest[s] == hs[s + 1]);
            assert(hs[s + 1][i] < hs[s + 1][j]);
        }
        assert forall|s: int, t: int, i: int, j: int|
            #![trigger rest[s][i], rest[t][j]]
            0 <= s < t < rest.len() && 0 <= i < rest[s].len() && 0 <= j
                < rest[t].len() implies rest[s][i] < rest[t][j] by {
            assert(rest[s] == hs[s + 1] && rest[t] == hs[t + 1]);
            assert(hs[s + 1][i] < hs[t + 1][j]);
        }
        law_tiers_in_rank_order(rest);
        let f = hs.flatten();
        let b = rest.flatten();
        assert(f == a + b);
        assert forall|i: int, j: int| 0 <= i < j < f.len() implies f[i] < f[j] by {
            if j < a.len() {
                assert(hs[0][i] < hs[0][j]);
            } else if i < a.len() {
                let (t, k) = lemma_flatten_index(rest, j - a.len());
                assert(rest[t] == hs[t + 1]);
                assert(hs[0][i] < hs[t + 1][k]);
            } else {
                assert(b[i - a.len()] < b[j - a.len()]);
            }
        }
    }
}

proof fn lemma_flatten_index(hs: Seq<Seq<u32>>, i: int) -> (at: (int, int))
    requires
        0 <= i < hs.flatten().len(),
    ensures
        0 <= at.0 < hs.len(),
        0 <= at.1 < hs[at.0].len(),
        hs.flatten()[i] == hs[at.0][at.1],
    decreases hs.len(),
{
    let a = hs.first();
    if i < a.len() {
        (0, i)
    } else {
        let (s, k) = lemma_flatten_index(hs.drop_first(), i - a.len());
        assert(hs.drop_first()[s] == hs[s + 1]);
        (s + 1, k)
    }
}

proof fn lemma_alive(v: Seq<u32>, dead: Set<u32>)
    ensures
        forall|x: u32| alive(v, dead).contains(x) <==> v.contains(x) && !dead.contains(x),
    decreases v.len(),
{
    if v.len() > 0 {
        let front = v.drop_last();
        lemma_alive(front, dead);
        assert forall|x: u32| alive(v, dead).contains(x) <==> v.contains(x) && !dead.contains(
            x,
        ) by {
            let a = alive(front, dead);
            if v.contains(x) {
                let k = choose|k: int| 0 <= k < v.len() && v[k] == x;
                if k < front.len() {
                    assert(front[k] == x);
                }
            }
            if front.contains(x) {
                let k = choose|k: int| 0 <= k < front.len() && front[k] == x;
                assert(v[k] == x);
            }
            if a.contains(x) {
                let k = choose|k: int| 0 <= k < a.len() && a[k] == x;
                assert(a.push(v.last())[k] == x);
            }
            assert(a.push(v.last())[a.len() as int] == v.last());
            assert(v[v.len() - 1] == v.last());
            if a.push(v.last()).contains(x) && x != v.last() {
                let k = choose|k: int|
                    0 <= k < a.push(v.last()).len() && a.push(v.last())[k] == x;
                assert(a[k] == x);
            }
        }
    }
}

proof fn lemma_ascending_contains(v: Seq<u32>)
    ensures
        forall|x: u32| ascending(v).contains(x) ==> v.contains(x),
{
    v.lemma_sort_by_ensures(|a: u32, b: u32| a <= b);
}

/// A superseded doc is never returned: after the merge no tombstoned ID is among the ranked
/// candidates, the delta docs or the result.
pub proof fn law_superseded_never_returned(
    m: ManifestView,
    base: Seq<u32>,
    delta: Seq<u32>,
    limit: nat,
    x: u32,
)
    requires
        dead_ids(m, m.splits.len()) matches Ok(dead) && dead.contains(x),
    ensures
        match delta_stage(m, base, delta, limit) {
            Ok(StageView::Finished { ids }) => !ids.contains(x),
            Ok(StageView::Rank { candidates, limit: n, merge, delta: d }) => !candidates.contains(x)
                && !d.contains(x),
            _ => false,
        },
{
    let dead = dead_ids(m, m.splits.len())->Ok_0;
    let b = alive(base, dead);
    let d = ascending(alive(delta, dead));
    lemma_alive(base, dead);
    lemma_alive(delta, dead);
    lemma_ascending_contains(alive(delta, dead));
    lemma_ascending_contains(b);
    let all = ascending(b) + d;
    if truncated(all, limit).contains(x) {
        let t = truncated(all, limit);
        let k = choose|k: int| 0 <= k < t.len() && t[k] == x;
        assert(all[k] == x);
        if k < ascending(b).len() {
            assert(ascending(b).contains(x));
        } else {
            assert(d[k - ascending(b).len()] == x);
            assert(d.contains(x));
        }
    }
}

/// The superseded docs are exactly those that some split's tombstone names, be it the first, the
/// last or any between; and the tombstones are refused exactly where one cannot be read, with
/// the error of the first such.
pub proof fn law_superseded(m: ManifestView)
    ensures
        match dead_ids(m, m.splits.len()) {
            Ok(dead) => {
                &&& forall|i: int|
                    0 <= i < m.splits.len() ==> m.tombstone(#[trigger] m.splits[i]) is Ok
                &&& forall|x: u32| #[trigger] dead.contains(x) <==> exists|i: int|
                    0 <= i < m.splits.len() && (m.tombstone(#[trigger] m.splits[i]) matches Ok(
                        Some(t),
                    ) && t.contains(x))
            },
            Err(e) => exists|i: int|
                {
                    &&& 0 <= i < m.splits.len()
                    &&& m.tombstone(#[trigger] m.splits[i]) == Err::<Option<Set<u32>>, _>(e)
                    &&& forall|j: int| 0 <= j < i ==> m.tombstone(#[trigger] m.splits[j]) is Ok
                },
        },
{
    lemma_dead_ids(m, m.splits.len());
}

proof fn lemma_dead_ids(m: ManifestView, n: nat)
    ensures
        match dead_ids(m, n) {
            Ok(dead) => {
                &&& forall|i: int| 0 <= i < n ==> m.tombstone(#[trigger] m.splits[i]) is Ok
                &&& forall|x: u32| #[trigger] dead.contains(x) <==> exists|i: int|
                    0 <= i < n && (m.tombstone(#[trigger] m.splits[i]) matches Ok(Some(t))
                        && t.contains(x))
            },
            Err(e) => exists|i: int|
                {
                    &&& 0 <= i < n
                    &&& m.tombstone(#[trigger] m.splits[i]) == Err::<Option<Set<u32>>, _>(e)
                    &&& forall|j: int| 0 <= j < i ==> m.tombstone(#[trigger] m.splits[j]) is Ok
                },
        },
    decreases n,
{
    if n > 0 {
        let k = (n - 1) as nat;
        lemma_dead_ids(m, k);
        match dead_ids(m, k) {
            Err(e) => {
                let i = choose|i: int|
                    {
                        &&& 0 <= i < k
                        &&& m.tombstone(#[trigger] m.splits[i]) == Err::<Option<Set<u32>>, _>(e)
                        &&& forall|j: int| 0 <= j < i ==> m.tombstone(#[trigger] m.splits[j]) is Ok
                    };
                assert(0 <= i < n);
            },
            Ok(sofar) => {
                let t = m.tombstone(m.splits[n - 1]);
                if t is Ok {
                    let dead = dead_ids(m, n)->Ok_0;
                    assert forall|x: u32| #[trigger] dead.contains(x) <==> exists|i: int|
                        0 <= i < n && (m.tombstone(#[trigger] m.splits[i]) matches Ok(Some(t))
                            && t.contains(x)) by {
                        if sofar.contains(x) {
                            let i = choose|i: int|
                                0 <= i < k && (m.tombstone(#[trigger] m.splits[i]) matches Ok(
                                    Some(t),
                                ) && t.contains(x));
                            assert(0 <= i < n);
                        }
                        if t matches Ok(Some(last)) && last.contains(x) {
                            assert(0 <= n - 1 < n && m.tombstone(m.splits[n - 1]) == t);
                        }
                    }
                } else {
                    assert(0 <= n - 1 < n && m.tombstone(m.splits[n - 1]) is Err);
                }
            },
        }
    }
}

/// Dropping dead docs from a list keeps exactly the others, each as often as it is listed and in
/// the order of the list.
pub proof fn law_alive(v: Seq<u32>, dead: Set<u32>)
    ensures
        alive(v, dead) == v.filter(|x: u32| !dead.contains(x)),
        forall|x: u32| alive(v, dead).contains(x) <==> v.contains(x) && !dead.contains(x),
    decreases v.len(),
{
    lemma_alive(v, dead);
    reveal(Seq::filter);
    if v.len() > 0 {
        law_alive(v.drop_last(), dead);
    } else {
        assert(v =~= Seq::<u32>::empty());
    }
}

/// A page is the front of a list, as long as asked for or as the list.
pub proof fn law_page(v: Seq<u32>, limit: nat)
    ensures
        truncated(v, limit).len() == vstd::math::min(v.len() as int, limit as int),
        forall|i: int| 0 <= i < truncated(v, limit).len() ==> truncated(v, limit)[i] == v[i],
{
}

/// Sorting IDs keeps them, each as often, and puts them in ascending order.
pub proof fn law_ascending(v: Seq<u32>)
    ensures
        ascending(v).to_multiset() == v.to_multiset(),
        ascending(v).len() == v.len(),
        forall|x: u32| ascending(v).contains(x) <==> v.contains(x),
        forall|i: int, j: int| 0 <= i <= j < ascending(v).len() ==> ascending(v)[i] <= ascending(
            v,
        )[j],
{
    let leq = |a: u32, b: u32| a <= b;
    v.lemma_sort_by_ensures(leq);
    v.to_multiset_ensures();
    ascending(v).to_multiset_ensures();
    assert forall|x: u32| ascending(v).contains(x) <==> v.contains(x) by {
        assert(ascending(v).to_multiset().count(x) > 0 <==> ascending(v).contains(x));
        assert(v.to_multiset().count(x) > 0 <==> v.contains(x));
    }
    assert forall|i: int, j: int| 0 <= i <= j < ascending(v).len() implies ascending(v)[i]
        <= ascending(v)[j] by {
        if i < j {
            assert(leq(ascending(v)[i], ascending(v)[j]));
        }
    }
}

/// What is gathered of the splits that were asked is each one's hits by global ID, one behind
/// the other and none left out.
pub proof fn law_gathered_hits(m: ManifestView, targets: Seq<usize>, hits: Seq<Vec<u32>>)
    requires
        hits.len() == targets.len(),
    ensures
        gathered(m, targets, hits) == Seq::new(
            targets.len(),
            |i: int| hits[i]@.map_values(|l: u32| m.splits[targets[i] as int].to_global(l)),
        ).flatten(),
    decreases targets.len(),
{
    let all = Seq::new(
        targets.len(),
        |i: int| hits[i]@.map_values(|l: u32| m.splits[targets[i] as int].to_global(l)),
    );
    if targets.len() > 0 {
        let (ts, hs) = (targets.drop_last(), hits.drop_last());
        law_gathered_hits(m, ts, hs);
        let front = Seq::new(
            ts.len(),
            |i: int| hs[i]@.map_values(|l: u32| m.splits[ts[i] as int].to_global(l)),
        );
        let last = hits.last()@.map_values(|l: u32| m.splits[targets.last() as int].to_global(l));
        assert forall|i: int| 0 <= i < front.len() implies front[i] == all[i] by {
            assert(front[i] =~= all[i]);
        }
        assert(all.last() =~= last);
        assert(all =~= front.push(last));
        front.lemma_flatten_push(last);
    } else {
        assert(all =~= Seq::<Seq<u32>>::empty());
    }
}

/// A search of all splits fails beforehand exactly where a split that its Bloom filter does not
/// rule out has a facet summary that cannot be read, with the error of the first such split.
pub proof fn law_first_malformed(
    m: ManifestView,
    n: nat,
    keys: Seq<u64>,
    fields: Seq<Vec<u64>>,
)
    ensures
        match first_malformed(m, n, keys, fields) {
            Some(e) => exists|i: int|
                {
                    &&& 0 <= i < n
                    &&& fields.len() > 0 && m.has_facets()
                    &&& !m.pruned_by_bloom(#[trigger] m.splits[i], keys)
                    &&& m.facet_keys(m.splits[i]) == Err::<Option<Seq<u64>>, _>(e)
                    &&& forall|j: int|
                        0 <= j < i ==> m.pruned_by_bloom(#[trigger] m.splits[j], keys)
                            || m.facet_keys(m.splits[j]) is Ok
                },
            None => fields.len() > 0 && m.has_facets() ==> forall|i: int|
                0 <= i < n ==> m.pruned_by_bloom(#[trigger] m.splits[i], keys) || m.facet_keys(
                    m.splits[i],
                ) is Ok,
        },
    decreases n,
{
    if n > 0 {
        let k = (n - 1) as nat;
        law_first_malformed(m, k, keys, fields);
        if let Some(e) = first_malformed(m, k, keys, fields) {
            let i = choose|i: int|
                {
                    &&& 0 <= i < k
                    &&& fields.len() > 0 && m.has_facets()
                    &&& !m.pruned_by_bloom(#[trigger] m.splits[i], keys)
                    &&& m.facet_keys(m.splits[i]) == Err::<Option<Seq<u64>>, _>(e)
                    &&& forall|j: int|
                        0 <= j < i ==> m.pruned_by_bloom(#[trigger] m.splits[j], keys)
                            || m.facet_keys(m.splits[j]) is Ok
                };
            assert(0 <= i < n);
        } else if malformed(m, m.splits[n - 1], keys, fields) is Some {
            assert(!m.pruned_by_bloom(m.splits[n - 1], keys));
        }
    }
}

} // verus!
