//! What a search over a split set returns: its steps taken together, whatever the summaries of
//! the splits spare it.

use crate::bloom;
use crate::facet_build::{law_facets_keep_matches, lists_presence, FacetView};
use crate::search::{
    alive, ascending, dead_ids, each_truncated, gathered, globals, law_alive, law_ascending,
    law_full_page, law_hits_by_split, law_superseded, law_tiers_in_rank_order,
    law_waves_as_serial, lemma_flatten_concat, lemma_flatten_empty, merges, probed, split_hits,
    start_stage, truncated, wave_stage, SplitSearch, StageView,
};
use crate::splitset::{law_bloom_keeps_matches, ManifestView, Policy};
use vstd::prelude::*;

verus! {

/// What a search asks of a split with the hits `h`: the first `limit` of them in a tiered
/// descent, else all.
pub open spec fn asked(stage: StageView, limit: nat, h: Seq<u32>) -> Seq<u32> {
    if stage is Base || stage is Delta {
        h
    } else {
        truncated(h, limit)
    }
}

/// Whether `hits` answer the search `s`, where `hs` are the hits of each split by global ID.
pub open spec fn given(s: SplitSearch, hits: Seq<Vec<u32>>, hs: Seq<Seq<u32>>) -> bool {
    let ts = s.targets().splits@;
    &&& hits.len() == ts.len()
    &&& forall|i: int|
        #![trigger ts[i]]
        0 <= i < ts.len() ==> globals(s.manifest().splits[ts[i] as int], hits[i]@) == asked(
            s.stage(),
            s.limit(),
            hs[ts[i] as int],
        )
}

/// Whether the search `a` becomes `b` in one step, where `hs` are the hits of each split by
/// global ID, `present` is what the global Bloom filter answers, and `rank` is what the sort
/// column makes of IDs and a limit.
pub open spec fn steps<'a>(
    a: SplitSearch<'a>,
    b: SplitSearch<'a>,
    hs: Seq<Seq<u32>>,
    present: bool,
    rank: spec_fn(Seq<u32>, nat) -> Seq<u32>,
) -> bool {
    match a.stage() {
        StageView::Probe => a.takes_probe(present, b),
        StageView::Rank { candidates, limit, merge, delta } => a.takes_ranking(
            rank(candidates, limit),
            b,
        ),
        StageView::Finished { ids } => false,
        _ => exists|hits: Seq<Vec<u32>>| #[trigger]
            given(a, hits, hs) && a.takes_hits(hits, Ok(b)),
    }
}

/// Whether the summaries tell the truth about the hits `hs`: a split that `keys` or `fields` rule
/// out has none, and no base split has any where the global Bloom filter answers with an
/// absence.
pub open spec fn truthful(
    m: ManifestView,
    keys: Seq<u64>,
    fields: Seq<Vec<u64>>,
    hs: Seq<Seq<u32>>,
    present: bool,
) -> bool {
    &&& hs.len() == m.splits.len()
    &&& forall|i: int|
        #![trigger m.splits[i]]
        0 <= i < hs.len() && m.survival(m.splits[i], keys, fields, Ok(false)) ==> hs[i].len() == 0
    &&& !present ==> forall|i: int| 0 <= i < m.base_count ==> (#[trigger] hs[i]).len() == 0
}

/// What a search is to return where `hs` are the hits of each split. A tiered base without delta
/// splits: the first `limit` of all, split after split. Else the base hits by the policy's rank,
/// and where they are merged, without the superseded docs and with the delta hits behind them.
pub open spec fn wanted(
    m: ManifestView,
    merge: bool,
    limit: nat,
    hs: Seq<Seq<u32>>,
    rank: spec_fn(Seq<u32>, nat) -> Seq<u32>,
) -> Seq<u32> {
    let base = hs.subrange(0, m.base_count as int).flatten();
    let delta = hs.subrange(m.base_count as int, m.splits.len() as int).flatten();
    if limit == 0 {
        Seq::empty()
    } else if m.policy == Policy::Tiered && m.base_count == m.splits.len() {
        truncated(base, limit)
    } else if !merge {
        if m.sortcol is Some {
            rank(base, limit)
        } else {
            truncated(ascending(base), limit)
        }
    } else {
        match dead_ids(m, m.splits.len()) {
            Err(_) => Seq::empty(),
            Ok(dead) => {
                let b = alive(base, dead);
                let d = ascending(alive(delta, dead));
                if m.policy == Policy::StableKey && m.sortcol is Some {
                    truncated(rank(b, b.len()) + d, limit)
                } else {
                    truncated(ascending(b) + d, limit)
                }
            },
        }
    }
}

/// The hits of the base splits as a descent asks for them.
spec fn base_hits(m: ManifestView, limit: nat, hs: Seq<Seq<u32>>) -> Seq<Seq<u32>> {
    each_truncated(hs.subrange(0, m.base_count as int), limit)
}

/// Whether what is left of a search at `stage` ends in what is wanted.
spec fn on_course(
    m: ManifestView,
    merge: bool,
    limit: nat,
    stage: StageView,
    hs: Seq<Seq<u32>>,
    rank: spec_fn(Seq<u32>, nat) -> Seq<u32>,
) -> bool {
    let ts = base_hits(m, limit, hs);
    let n = m.base_count as int;
    let want = wanted(m, merge, limit, hs, rank);
    match stage {
        StageView::Top => start_stage(m, limit) is Top,
        StageView::Probe => start_stage(m, limit) is Top && ts[0].len() == 0,
        StageView::Wave { out, from, to } => {
            &&& start_stage(m, limit) is Top
            &&& 1 <= from < to <= n
            &&& truncated(out + ts.subrange(from, n).flatten(), limit) == want
        },
        StageView::Base => start_stage(m, limit) is Base,
        StageView::Delta { base } => {
            &&& start_stage(m, limit) is Base
            &&& merge
            &&& base == hs.subrange(0, n).flatten()
        },
        StageView::Rank { candidates, limit: k, merge: both, delta } => want == (if both {
            truncated(rank(candidates, k) + delta, limit)
        } else {
            rank(candidates, k)
        }),
        StageView::Finished { ids } => ids == want,
    }
}

/// How many steps a search still takes at most.
pub open spec fn steps_due(m: ManifestView, stage: StageView) -> int {
    match stage {
        StageView::Top => m.base_count + 2,
        StageView::Probe => m.base_count + 1,
        StageView::Wave { out, from, to } => m.base_count - from,
        StageView::Base => 3,
        StageView::Delta { base } => 2,
        StageView::Rank { candidates, limit, merge, delta } => 1,
        StageView::Finished { ids } => 0,
    }
}

proof fn lemma_own_hits(
    m: ManifestView,
    targets: Seq<usize>,
    hits: Seq<Vec<u32>>,
    from: int,
    to: int,
    want: Seq<Seq<u32>>,
)
    requires
        0 <= from <= to <= want.len(),
        to <= usize::MAX,
        hits.len() == targets.len(),
        forall|i: int, j: int| 0 <= i < j < targets.len() ==> targets[i] < targets[j],
        forall|i: int| 0 <= i < targets.len() ==> from <= #[trigger] targets[i] < to,
        forall|i: int|
            from <= i < to && !targets.contains(i as usize) ==> (#[trigger] want[i]).len() == 0,
        forall|i: int|
            #![trigger targets[i]]
            0 <= i < targets.len() ==> globals(m.splits[targets[i] as int], hits[i]@)
                == want[targets[i] as int],
    ensures
        split_hits(m, targets, hits, from, to) == want.subrange(from, to),
    decreases to - from,
{
    if to > from {
        let last = to - 1;
        let ends = targets.len() > 0 && targets.last() == last;
        let ts = if ends {
            targets.drop_last()
        } else {
            targets
        };
        let rest = if ends {
            hits.drop_last()
        } else {
            hits
        };
        assert forall|i: int| 0 <= i < ts.len() implies from <= #[trigger] ts[i] < last by {
            assert(ts[i] == targets[i]);
            if i < targets.len() - 1 {
                assert(targets[i] < targets[targets.len() - 1]);
            }
        }
        assert forall|i: int| from <= i < last && !ts.contains(i as usize) implies (
        #[trigger] want[i]).len() == 0 by {
            if targets.contains(i as usize) {
                let k = choose|k: int| 0 <= k < targets.len() && targets[k] == i as usize;
                assert(ts[k] == i as usize);
            }
        }
        assert forall|i: int|
            #![trigger ts[i]]
            0 <= i < ts.len() implies globals(m.splits[ts[i] as int], rest[i]@)
            == want[ts[i] as int] by {
            assert(ts[i] == targets[i]);
        }
        lemma_own_hits(m, ts, rest, from, last, want);
        if ends {
            assert(targets[targets.len() - 1] == last);
        } else {
            assert(!targets.contains(last as usize)) by {
                if targets.contains(last as usize) {
                    let k = choose|k: int| 0 <= k < targets.len() && targets[k] == last as usize;
                    assert(ts[k] == last);
                }
            }
            assert(want[last] =~= Seq::<u32>::empty());
        }
        assert(want.subrange(from, to) =~= want.subrange(from, last).push(want[last]));
    } else {
        assert(want.subrange(from, to) =~= Seq::<Seq<u32>>::empty());
    }
}

/// What a stage gathers is what it asks of each of its splits, split after split.
proof fn lemma_gathered(
    s: SplitSearch,
    hits: Seq<Vec<u32>>,
    hs: Seq<Seq<u32>>,
    present: bool,
    from: int,
    to: int,
    want: Seq<Seq<u32>>,
)
    requires
        s.wf(),
        s.stage().range(s.manifest()) == Some((from, to)),
        0 <= from <= to,
        s.targets().error is None,
        truthful(s.manifest(), s.keys(), s.fields(), hs, present),
        given(s, hits, hs),
        want.len() >= to,
        forall|i: int| from <= i < to ==> #[trigger] want[i] == asked(s.stage(), s.limit(), hs[i]),
    ensures
        gathered(s.manifest(), s.targets().splits@, hits) == want.subrange(from, to).flatten(),
{
    let m = s.manifest();
    let t = s.targets();
    let ts = t.splits@;
    assert forall|i: int| from <= i < to && !ts.contains(i as usize) implies (
    #[trigger] want[i]).len() == 0 by {
        assert(m.survival(m.splits[i], s.keys(), s.fields(), Ok(ts.contains(i as usize))));
        assert(hs[i].len() == 0);
    }
    law_hits_by_split(m, ts, hits, from, to);
    lemma_own_hits(m, ts, hits, from, to, want);
}

proof fn lemma_wave_on_course(
    m: ManifestView,
    merge: bool,
    limit: nat,
    out: Seq<u32>,
    from: int,
    hs: Seq<Seq<u32>>,
    rank: spec_fn(Seq<u32>, nat) -> Seq<u32>,
)
    requires
        start_stage(m, limit) is Top,
        m.base_count <= hs.len(),
        1 <= from <= m.base_count,
        truncated(
            out + base_hits(m, limit, hs).subrange(from, m.base_count as int).flatten(),
            limit,
        ) == wanted(m, merge, limit, hs, rank),
    ensures
        on_course(m, merge, limit, wave_stage(m, out, from, limit), hs, rank),
{
    let n = m.base_count as int;
    let rest = base_hits(m, limit, hs).subrange(from, n).flatten();
    if out.len() >= limit {
        law_full_page(out, rest, limit);
    } else if from >= n {
        assert(base_hits(m, limit, hs).subrange(from, n) =~= Seq::<Seq<u32>>::empty());
        assert(out + rest =~= out);
    }
}

/// The whole descent is wanted, be each split asked for the first of its hits only.
proof fn lemma_descent_wanted(
    m: ManifestView,
    merge: bool,
    limit: nat,
    hs: Seq<Seq<u32>>,
    rank: spec_fn(Seq<u32>, nat) -> Seq<u32>,
)
    requires
        start_stage(m, limit) is Top,
        m.base_count <= m.splits.len(),
        m.base_count <= hs.len(),
    ensures
        ({
            let ts = base_hits(m, limit, hs);
            truncated(ts[0] + ts.subrange(1, m.base_count as int).flatten(), limit) == wanted(
                m,
                merge,
                limit,
                hs,
                rank,
            )
        }),
{
    let ts = base_hits(m, limit, hs);
    law_waves_as_serial(hs.subrange(0, m.base_count as int), limit);
    assert(ts.drop_first() =~= ts.subrange(1, m.base_count as int));
    assert(ts.flatten() == ts[0] + ts.drop_first().flatten());
}

/// The hits of the awaited splits keep a descent on its course.
proof fn lemma_descent_step<'a>(
    a: SplitSearch<'a>,
    b: SplitSearch<'a>,
    hits: Seq<Vec<u32>>,
    hs: Seq<Seq<u32>>,
    present: bool,
    rank: spec_fn(Seq<u32>, nat) -> Seq<u32>,
)
    requires
        a.wf(),
        a.stage() is Top || a.stage() is Wave,
        truthful(a.manifest(), a.keys(), a.fields(), hs, present),
        on_course(a.manifest(), a.merge(), a.limit(), a.stage(), hs, rank),
        given(a, hits, hs),
        a.takes_hits(hits, Ok(b)),
    ensures
        on_course(b.manifest(), b.merge(), b.limit(), b.stage(), hs, rank),
        0 <= steps_due(b.manifest(), b.stage()) < steps_due(a.manifest(), a.stage()),
{
    let m = a.manifest();
    let (merge, limit) = (a.merge(), a.limit());
    let n = m.base_count as int;
    let ts = base_hits(m, limit, hs);
    lemma_descent_wanted(m, merge, limit, hs, rank);
    match a.stage() {
        StageView::Wave { out, from, to } => {
            lemma_gathered(a, hits, hs, present, from, to, ts);
            let found = ts.subrange(from, to);
            let rest = ts.subrange(to, n);
            lemma_flatten_concat(found, rest);
            assert(found + rest =~= ts.subrange(from, n));
            assert(out + (found.flatten() + rest.flatten()) =~= out + found.flatten()
                + rest.flatten());
            lemma_wave_on_course(m, merge, limit, out + found.flatten(), to, hs, rank);
        },
        _ => {
            lemma_gathered(a, hits, hs, present, 0, 1, ts);
            let found = ts.subrange(0, 1);
            lemma_flatten_empty(found.drop_first());
            assert(found.flatten() == found.first() + found.drop_first().flatten());
            assert(found.flatten() =~= ts[0]);
            if ts[0].len() > 0 {
                lemma_wave_on_course(m, merge, limit, ts[0], 1, hs, rank);
            }
        },
    }
}

/// The hits of all base splits, or of all delta splits, keep a search on its course.
proof fn lemma_whole_step<'a>(
    a: SplitSearch<'a>,
    b: SplitSearch<'a>,
    hits: Seq<Vec<u32>>,
    hs: Seq<Seq<u32>>,
    present: bool,
    rank: spec_fn(Seq<u32>, nat) -> Seq<u32>,
)
    requires
        a.wf(),
        a.stage() is Base || a.stage() is Delta,
        truthful(a.manifest(), a.keys(), a.fields(), hs, present),
        on_course(a.manifest(), a.merge(), a.limit(), a.stage(), hs, rank),
        given(a, hits, hs),
        a.takes_hits(hits, Ok(b)),
    ensures
        on_course(b.manifest(), b.merge(), b.limit(), b.stage(), hs, rank),
        0 <= steps_due(b.manifest(), b.stage()) < steps_due(a.manifest(), a.stage()),
{
    let m = a.manifest();
    let n = m.base_count as int;
    if a.stage() is Base {
        lemma_gathered(a, hits, hs, present, 0, n, hs);
    } else {
        lemma_gathered(a, hits, hs, present, n, m.splits.len() as int, hs);
    }
}

/// The global Bloom filter's answer keeps a descent on its course.
proof fn lemma_probe_step<'a>(
    a: SplitSearch<'a>,
    b: SplitSearch<'a>,
    hs: Seq<Seq<u32>>,
    present: bool,
    rank: spec_fn(Seq<u32>, nat) -> Seq<u32>,
)
    requires
        a.wf(),
        a.stage() is Probe,
        truthful(a.manifest(), a.keys(), a.fields(), hs, present),
        on_course(a.manifest(), a.merge(), a.limit(), a.stage(), hs, rank),
        a.takes_probe(present, b),
    ensures
        on_course(b.manifest(), b.merge(), b.limit(), b.stage(), hs, rank),
        0 <= steps_due(b.manifest(), b.stage()) < steps_due(a.manifest(), a.stage()),
{
    let m = a.manifest();
    let (merge, limit) = (a.merge(), a.limit());
    let n = m.base_count as int;
    let ts = base_hits(m, limit, hs);
    lemma_descent_wanted(m, merge, limit, hs, rank);
    assert(ts[0] =~= Seq::<u32>::empty());
    if present {
        lemma_wave_on_course(m, merge, limit, Seq::empty(), 1, hs, rank);
    } else {
        let base = hs.subrange(0, n);
        assert forall|i: int| 0 <= i < base.len() implies (#[trigger] base[i]).len() == 0 by {
            assert(base[i] == hs[i]);
        }
        lemma_flatten_empty(base);
        assert(truncated(base.flatten(), limit) =~= Seq::<u32>::empty());
    }
}

proof fn lemma_step<'a>(
    a: SplitSearch<'a>,
    b: SplitSearch<'a>,
    hs: Seq<Seq<u32>>,
    present: bool,
    rank: spec_fn(Seq<u32>, nat) -> Seq<u32>,
)
    requires
        a.wf(),
        truthful(a.manifest(), a.keys(), a.fields(), hs, present),
        on_course(a.manifest(), a.merge(), a.limit(), a.stage(), hs, rank),
        steps(a, b, hs, present, rank),
    ensures
        a.continues(&b),
        on_course(b.manifest(), b.merge(), b.limit(), b.stage(), hs, rank),
        0 <= steps_due(b.manifest(), b.stage()) < steps_due(a.manifest(), a.stage()),
{
    match a.stage() {
        StageView::Probe => {
            lemma_probe_step(a, b, hs, present, rank);
        },
        StageView::Rank { candidates, limit, merge, delta } => {},
        StageView::Finished { ids } => {},
        StageView::Top | StageView::Wave { .. } => {
            let hits = choose|hits: Seq<Vec<u32>>| #[trigger]
                given(a, hits, hs) && a.takes_hits(hits, Ok(b));
            lemma_descent_step(a, b, hits, hs, present, rank);
        },
        StageView::Base | StageView::Delta { .. } => {
            let hits = choose|hits: Seq<Vec<u32>>| #[trigger]
                given(a, hits, hs) && a.takes_hits(hits, Ok(b));
            lemma_whole_step(a, b, hits, hs, present, rank);
        },
    }
}

/// Whether `ss` are the states of one search from its beginning on, answered truthfully.
pub open spec fn runs<'a>(
    ss: Seq<SplitSearch<'a>>,
    hs: Seq<Seq<u32>>,
    present: bool,
    rank: spec_fn(Seq<u32>, nat) -> Seq<u32>,
) -> bool {
    &&& ss.len() > 0
    &&& ss[0].wf()
    &&& ss[0].stage() == start_stage(ss[0].manifest(), ss[0].limit())
    &&& truthful(ss[0].manifest(), ss[0].keys(), ss[0].fields(), hs, present)
    &&& forall|i: int, j: int|
        #![trigger ss[i], ss[j]]
        0 <= i && j == i + 1 && j < ss.len() ==> steps(ss[i], ss[j], hs, present, rank)
}

/// A search that is answered truthfully returns what is wanted of all hits, through every one of
/// its steps, whatever the summaries of the splits and the global Bloom filter spare it. It takes
/// three steps at most, or in a tiered descent two and one for each base split.
pub proof fn law_search_run<'a>(
    ss: Seq<SplitSearch<'a>>,
    hs: Seq<Seq<u32>>,
    present: bool,
    rank: spec_fn(Seq<u32>, nat) -> Seq<u32>,
)
    requires
        runs(ss, hs, present, rank),
    ensures
        ss.last().stage() matches StageView::Finished { ids } ==> ids == wanted(
            ss[0].manifest(),
            ss[0].merge(),
            ss[0].limit(),
            hs,
            rank,
        ),
        ss.len() - 1 <= steps_due(ss[0].manifest(), ss[0].stage()),
{
    lemma_run(ss, hs, present, rank, ss.len() - 1);
}

proof fn lemma_run<'a>(
    ss: Seq<SplitSearch<'a>>,
    hs: Seq<Seq<u32>>,
    present: bool,
    rank: spec_fn(Seq<u32>, nat) -> Seq<u32>,
    k: int,
)
    requires
        runs(ss, hs, present, rank),
        0 <= k < ss.len(),
    ensures
        ss[k].wf(),
        ss[0].continues(&ss[k]),
        on_course(ss[k].manifest(), ss[k].merge(), ss[k].limit(), ss[k].stage(), hs, rank),
        0 <= steps_due(ss[k].manifest(), ss[k].stage()) <= steps_due(
            ss[0].manifest(),
            ss[0].stage(),
        ) - k,
    decreases k,
{
    if k > 0 {
        lemma_run(ss, hs, present, rank, k - 1);
        lemma_step(ss[k - 1], ss[k], hs, present, rank);
    } else {
        let m = ss[0].manifest();
        if m.base_count == 0 {
            lemma_flatten_empty(hs.subrange(0, m.base_count as int));
        }
    }
}

/// Of two tiered searches with the same hits, run to their ends in sets that may carry different
/// summaries and with different answers of a global Bloom filter, the one for fewer IDs returns
/// the first of those that the other returns. Where the splits hold increasing ID ranges, and
/// each its hits in order, they come in ascending order.
pub proof fn law_pages_run<'a, 'b>(
    ss: Seq<SplitSearch<'a>>,
    zs: Seq<SplitSearch<'b>>,
    hs: Seq<Seq<u32>>,
    present: (bool, bool),
    rank: spec_fn(Seq<u32>, nat) -> Seq<u32>,
    page: Seq<u32>,
    all: Seq<u32>,
)
    requires
        runs(ss, hs, present.0, rank),
        runs(zs, hs, present.1, rank),
        ss[0].stage() is Top,
        zs[0].stage() is Top,
        ss[0].limit() <= zs[0].limit(),
        ss.last().stage() == (StageView::Finished { ids: page }),
        zs.last().stage() == (StageView::Finished { ids: all }),
        ({
            let m = ss[0].manifest();
            &&& forall|s: int, t: int|
                0 <= s < t < m.base_count ==> (#[trigger] m.splits[s]).doc_id_hi < (
                #[trigger] m.splits[t]).doc_id_lo
            &&& forall|s: int, i: int|
                0 <= s < hs.len() && 0 <= i < hs[s].len() ==> m.splits[s].doc_id_lo
                    <= #[trigger] hs[s][i] <= m.splits[s].doc_id_hi
            &&& forall|s: int, i: int, j: int|
                #![trigger hs[s][i], hs[s][j]]
                0 <= s < hs.len() && 0 <= i < j < hs[s].len() ==> hs[s][i] < hs[s][j]
        }),
    ensures
        page == truncated(all, ss[0].limit()),
        forall|i: int, j: int| 0 <= i < j < all.len() ==> all[i] < all[j],
{
    law_search_run(ss, hs, present.0, rank);
    law_search_run(zs, hs, present.1, rank);
    let (m, w) = (ss[0].manifest(), zs[0].manifest());
    assert(m.delta_splits().len() == 0 && w.delta_splits().len() == 0);
    assert(hs.subrange(0, m.base_count as int) =~= hs);
    assert(hs.subrange(0, w.base_count as int) =~= hs);
    assert forall|s: int, t: int, i: int, j: int|
        #![trigger hs[s][i], hs[t][j]]
        0 <= s < t < hs.len() && 0 <= i < hs[s].len() && 0 <= j < hs[t].len() implies hs[s][i]
        < hs[t][j] by {
        assert(m.splits[s].doc_id_hi < m.splits[t].doc_id_lo);
    }
    law_tiers_in_rank_order(hs);
    let f = hs.flatten();
    assert(truncated(truncated(f, zs[0].limit()), ss[0].limit()) =~= truncated(f, ss[0].limit()));
}

/// Whether the summaries of the splits are those of their docs, and `hs` are hits: each Bloom
/// filter is over its split's keys `vocab`, each facet presence lists its split's categories
/// `views`, and a split with a hit holds all of `keys` and a category of each of `fields`.
pub open spec fn summaries_hold(
    m: ManifestView,
    keys: Seq<u64>,
    fields: Seq<Vec<u64>>,
    vocab: Seq<Seq<u64>>,
    bits_per_key: u32,
    views: Seq<Seq<FacetView>>,
    hs: Seq<Seq<u32>>,
) -> bool {
    &&& hs.len() == m.splits.len()
    &&& vocab.len() == m.splits.len()
    &&& views.len() == m.splits.len()
    &&& forall|i: int|
        #![trigger m.splits[i]]
        0 <= i < hs.len() ==> (m.bloom(m.splits[i]) matches Some(b) ==> bloom::is_filter(
            b,
            vocab[i],
            bits_per_key,
        ))
    &&& forall|i: int, k: int|
        #![trigger hs[i], keys[k]]
        0 <= i < hs.len() && hs[i].len() > 0 && 0 <= k < keys.len() ==> vocab[i].contains(keys[k])
    &&& fields.len() > 0 && m.has_facets() ==> forall|i: int|
        #![trigger m.splits[i]]
        0 <= i < hs.len() && hs[i].len() > 0 ==> {
            &&& m.facet_keys(m.splits[i]) matches Ok(Some(ks)) && lists_presence(ks, views[i])
            &&& forall|f: int|
                0 <= f < fields.len() ==> exists|j: int|
                    0 <= j < views[i].len() && (#[trigger] fields[f])@.contains(
                        (#[trigger] views[i][j]).key,
                    )
        }
}

/// Summaries that are those of the splits' docs, and a global Bloom filter over all their keys,
/// tell the truth: no split with a hit is spared.
pub proof fn law_summaries_truthful(
    m: ManifestView,
    keys: Seq<u64>,
    fields: Seq<Vec<u64>>,
    vocab: Seq<Seq<u64>>,
    bits_per_key: u32,
    views: Seq<Seq<FacetView>>,
    hs: Seq<Seq<u32>>,
    present: bool,
)
    requires
        m.base_count <= m.splits.len(),
        summaries_hold(m, keys, fields, vocab, bits_per_key, views, hs),
        probed(keys, vocab, present),
    ensures
        truthful(m, keys, fields, hs, present),
{
    assert forall|i: int|
        #![trigger m.splits[i]]
        0 <= i < hs.len() && m.survival(m.splits[i], keys, fields, Ok(false)) implies hs[i].len()
        == 0 by {
        let s = m.splits[i];
        if hs[i].len() > 0 {
            assert forall|k: int| 0 <= k < keys.len() implies vocab[i].contains(
                #[trigger] keys[k],
            ) by {
                assert(hs[i].len() > 0);
            }
            if m.pruned_by_bloom(s, keys) {
                law_bloom_keeps_matches(m, s, vocab[i], bits_per_key, keys);
            }
            if fields.len() > 0 && m.has_facets() {
                law_facets_keep_matches(m, s, views[i], fields, Ok(true));
            }
        }
    }
    if !present {
        let (filter, all, bits, k) = choose|filter: Seq<u8>, all: Seq<u64>, bits: u32, k: int|
            {
                &&& #[trigger] bloom::is_filter(filter, all, bits)
                &&& 0 <= k < keys.len()
                &&& !#[trigger] bloom::may_contain(filter, keys[k])
                &&& forall|i: int, x: u64|
                    0 <= i < vocab.len() && #[trigger] vocab[i].contains(x) ==> all.contains(x)
            };
        assert forall|i: int| 0 <= i < m.base_count implies (#[trigger] hs[i]).len() == 0 by {
            if hs[i].len() > 0 {
                assert(vocab[i].contains(keys[k]));
                bloom::law_no_false_negative(filter, all, bits, keys[k]);
            }
        }
    }
}

/// An unfiltered search of a sound set does not fail for want of a summary: each of its steps
/// that asks for hits goes on, but for a tombstone that cannot be read.
pub proof fn law_search_goes_on<'a>(
    s: SplitSearch<'a>,
    hits: Seq<Vec<u32>>,
    r: Result<SplitSearch<'a>, crate::error::IndexError>,
)
    requires
        s.wf(),
        s.fields().len() == 0,
        s.stage().range(s.manifest()) is Some,
        s.takes_hits(hits, r),
        dead_ids(s.manifest(), s.manifest().splits.len()) is Ok,
    ensures
        r is Ok,
{
    let m = s.manifest();
    if let Some(e) = s.targets().error {
        assert(m.survival(m.splits[s.targets().upto as int], s.keys(), s.fields(), Err(e)));
    }
}

proof fn lemma_flatten_members(hs: Seq<Seq<u32>>)
    ensures
        forall|x: u32| #[trigger] hs.flatten().contains(x) <==> exists|i: int|
            0 <= i < hs.len() && (#[trigger] hs[i]).contains(x),
    decreases hs.len(),
{
    if hs.len() > 0 {
        let (a, rest) = (hs.first(), hs.drop_first());
        lemma_flatten_members(rest);
        assert(hs.flatten() == a + rest.flatten());
        assert forall|x: u32| #[trigger] hs.flatten().contains(x) <==> exists|i: int|
            0 <= i < hs.len() && (#[trigger] hs[i]).contains(x) by {
            let f = hs.flatten();
            if f.contains(x) {
                let k = choose|k: int| 0 <= k < f.len() && f[k] == x;
                if k < a.len() {
                    assert(hs[0].contains(x)) by {
                        assert(a[k] == x);
                    }
                } else {
                    assert(rest.flatten()[k - a.len()] == x);
                    assert(rest.flatten().contains(x));
                    let i = choose|i: int| 0 <= i < rest.len() && (#[trigger] rest[i]).contains(x);
                    assert(hs[i + 1].contains(x));
                }
            }
            if exists|i: int| 0 <= i < hs.len() && (#[trigger] hs[i]).contains(x) {
                let i = choose|i: int| 0 <= i < hs.len() && (#[trigger] hs[i]).contains(x);
                if i == 0 {
                    let k = choose|k: int| 0 <= k < a.len() && a[k] == x;
                    assert(f[k] == x);
                } else {
                    assert(rest[i - 1].contains(x));
                    let r = rest.flatten();
                    assert(r.contains(x));
                    let k = choose|k: int| 0 <= k < r.len() && r[k] == x;
                    assert(f[a.len() + k] == x);
                }
            }
        }
    }
}

proof fn lemma_page_members(v: Seq<u32>, limit: nat)
    ensures
        forall|x: u32| truncated(v, limit).contains(x) ==> v.contains(x),
        v.len() <= limit ==> truncated(v, limit) == v,
        truncated(v, limit).len() <= limit,
{
    assert forall|x: u32| truncated(v, limit).contains(x) implies v.contains(x) by {
        let t = truncated(v, limit);
        let k = choose|k: int| 0 <= k < t.len() && t[k] == x;
        assert(v[k] == x);
    }
}

proof fn lemma_concat_members(a: Seq<u32>, b: Seq<u32>)
    ensures
        forall|x: u32| #[trigger] (a + b).contains(x) <==> a.contains(x) || b.contains(x),
{
    assert forall|x: u32| #[trigger] (a + b).contains(x) <==> a.contains(x) || b.contains(x) by {
        if a.contains(x) {
            let k = choose|k: int| 0 <= k < a.len() && a[k] == x;
            assert((a + b)[k] == x);
        }
        if b.contains(x) {
            let k = choose|k: int| 0 <= k < b.len() && b[k] == x;
            assert((a + b)[a.len() + k] == x);
        }
        if (a + b).contains(x) {
            let k = choose|k: int| 0 <= k < (a + b).len() && (a + b)[k] == x;
            if k >= a.len() {
                assert(b[k - a.len()] == x);
            }
        }
    }
}

/// Whether some split has the hit `x`.
pub open spec fn is_hit(hs: Seq<Seq<u32>>, x: u32) -> bool {
    exists|i: int| 0 <= i < hs.len() && (#[trigger] hs[i]).contains(x)
}

proof fn lemma_merged(
    base: Seq<u32>,
    delta: Seq<u32>,
    dead: Set<u32>,
    ranked: Seq<u32>,
    limit: nat,
    x: u32,
)
    requires
        forall|y: u32| ranked.contains(y) ==> alive(base, dead).contains(y),
    ensures
        ({
            let ids = truncated(ranked + ascending(alive(delta, dead)), limit);
            &&& ids.len() <= limit
            &&& ids.contains(x) ==> !dead.contains(x) && (base.contains(x) || delta.contains(x))
            &&& ranked.to_multiset() == alive(base, dead).to_multiset() && base.len() + delta.len()
                <= limit && !dead.contains(x) && (base.contains(x) || delta.contains(x))
                ==> ids.contains(x)
        }),
{
    let b = alive(base, dead);
    let d = alive(delta, dead);
    law_alive(base, dead);
    law_alive(delta, dead);
    law_ascending(d);
    let all = ranked + ascending(d);
    lemma_concat_members(ranked, ascending(d));
    lemma_page_members(all, limit);
    base.lemma_filter_len(|y: u32| !dead.contains(y));
    delta.lemma_filter_len(|y: u32| !dead.contains(y));
    if ranked.to_multiset() == b.to_multiset() {
        ranked.to_multiset_ensures();
        b.to_multiset_ensures();
        assert(ranked.len() == b.len());
        assert(ranked.contains(x) <==> ranked.to_multiset().count(x) > 0);
        assert(b.contains(x) <==> b.to_multiset().count(x) > 0);
        if base.len() + delta.len() <= limit && !dead.contains(x) && (base.contains(x)
            || delta.contains(x)) {
            assert(alive(base, dead).contains(x) || alive(delta, dead).contains(x));
            assert(ranked.contains(x) || ascending(d).contains(x));
            assert(all.contains(x));
            assert(all.len() <= limit);
        }
    }
    if truncated(all, limit).contains(x) {
        assert(all.contains(x));
        assert(ranked.contains(x) || ascending(d).contains(x));
        assert(alive(base, dead).contains(x) || alive(delta, dead).contains(x));
    }
}

/// What a search over a set with delta splits returns, run to its end with the ranking of a sort
/// column that hands back only what it was given: hits that no tombstone of any split names, no
/// more than asked for. Where there is room for all hits, every hit that no tombstone names is
/// among them, if the ranking hands back all that it was given.
pub proof fn law_search_merged<'a>(
    ss: Seq<SplitSearch<'a>>,
    hs: Seq<Seq<u32>>,
    present: bool,
    rank: spec_fn(Seq<u32>, nat) -> Seq<u32>,
    filtered: bool,
    ids: Seq<u32>,
    x: u32,
)
    requires
        runs(ss, hs, present, rank),
        ss[0].merge() == merges(ss[0].manifest(), filtered),
        ss[0].manifest().base_count < ss[0].manifest().splits.len(),
        dead_ids(ss[0].manifest(), ss[0].manifest().splits.len()) is Ok,
        forall|c: Seq<u32>, n: nat, y: u32| #[trigger] rank(c, n).contains(y) ==> c.contains(y),
        ss.last().stage() == (StageView::Finished { ids }),
    ensures
        ids.len() <= ss[0].limit(),
        ids.contains(x) ==> is_hit(hs, x),
        ids.contains(x) ==> forall|i: int|
            0 <= i < ss[0].manifest().splits.len() ==> !(ss[0].manifest().tombstone(
                #[trigger] ss[0].manifest().splits[i],
            ) matches Ok(Some(t)) && t.contains(x)),
        ({
            &&& is_hit(hs, x)
            &&& hs.flatten().len() <= ss[0].limit()
            &&& forall|c: Seq<u32>| (#[trigger] rank(c, c.len())).to_multiset() == c.to_multiset()
            &&& forall|i: int|
                0 <= i < ss[0].manifest().splits.len() ==> !(ss[0].manifest().tombstone(
                    #[trigger] ss[0].manifest().splits[i],
                ) matches Ok(Some(t)) && t.contains(x))
        }) ==> ids.contains(x),
{
    let m = ss[0].manifest();
    let limit = ss[0].limit();
    let n = m.base_count as int;
    law_search_run(ss, hs, present, rank);
    law_superseded(m);
    let dead = dead_ids(m, m.splits.len())->Ok_0;
    assert(m.delta_splits().len() > 0);
    let base = hs.subrange(0, n);
    let delta = hs.subrange(n, m.splits.len() as int);
    assert(base + delta =~= hs);
    lemma_flatten_concat(base, delta);
    lemma_flatten_members(hs);
    lemma_concat_members(base.flatten(), delta.flatten());
    assert(is_hit(hs, x) <==> hs.flatten().contains(x));
    let b = alive(base.flatten(), dead);
    let ranked = if m.policy == Policy::StableKey && m.sortcol is Some {
        rank(b, b.len())
    } else {
        ascending(b)
    };
    law_ascending(b);
    lemma_merged(base.flatten(), delta.flatten(), dead, ranked, limit, x);
    if limit == 0 {
        assert(ids =~= truncated(ranked + ascending(alive(delta.flatten(), dead)), limit));
    }
}

/// What a search of a stable-key base without delta splits or a filter returns: the hits of all
/// splits, the first `limit` in ascending order, or as the sort column ranks them.
pub proof fn law_search_stable<'a>(
    ss: Seq<SplitSearch<'a>>,
    hs: Seq<Seq<u32>>,
    present: bool,
    rank: spec_fn(Seq<u32>, nat) -> Seq<u32>,
    ids: Seq<u32>,
)
    requires
        runs(ss, hs, present, rank),
        ss[0].merge() == merges(ss[0].manifest(), false),
        ss[0].manifest().base_count == ss[0].manifest().splits.len(),
        ss[0].manifest().policy == Policy::StableKey,
        ss[0].limit() > 0,
        ss.last().stage() == (StageView::Finished { ids }),
    ensures
        ss[0].manifest().sortcol is Some ==> ids == rank(hs.flatten(), ss[0].limit()),
        ss[0].manifest().sortcol is None ==> {
            &&& ids.len() == vstd::math::min(hs.flatten().len() as int, ss[0].limit() as int)
            &&& forall|i: int, j: int| 0 <= i <= j < ids.len() ==> ids[i] <= ids[j]
            &&& forall|x: u32| ids.contains(x) ==> is_hit(hs, x)
            &&& forall|x: u32, i: int|
                #![trigger hs.flatten().contains(x), ids[i]]
                hs.flatten().contains(x) && !ids.contains(x) && 0 <= i < ids.len() ==> ids[i] <= x
        },
{
    let m = ss[0].manifest();
    let limit = ss[0].limit();
    law_search_run(ss, hs, present, rank);
    assert(m.delta_splits().len() == 0);
    assert(hs.subrange(0, m.base_count as int) =~= hs);
    let f = hs.flatten();
    law_ascending(f);
    lemma_flatten_members(hs);
    lemma_page_members(ascending(f), limit);
    if m.sortcol is None {
        let s = ascending(f);
        assert(ids == truncated(s, limit));
        assert forall|x: u32| ids.contains(x) implies is_hit(hs, x) by {
            assert(s.contains(x));
            assert(f.contains(x));
        }
        assert forall|x: u32, i: int|
            #![trigger f.contains(x), ids[i]]
            f.contains(x) && !ids.contains(x) && 0 <= i < ids.len() implies ids[i] <= x by {
            let k = choose|k: int| 0 <= k < s.len() && s[k] == x;
            assert(s.contains(x));
            if k < ids.len() {
                assert(ids[k] == x);
            }
            assert(s[i] <= s[k]);
        }
    }
}

} // verus!
