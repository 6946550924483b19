//! The itemizer's model and its laws.
//!
//! [`itemize_runs`] and [`itemize_gaps`] define, cluster by cluster, the runs
//! and gaps any itemize call produces: a cluster resolves through the static
//! index (single codepoint) or the priority scan, extends the last run when it
//! touches it with the same family, opens a new run otherwise, and becomes an
//! explicit gap when every family rejects it. The lemmas at the end state what
//! always holds of the result: resolved runs and gaps exactly partition the
//! text without overlaps, runs are maximal, and the whole computation is a
//! pure function of its inputs.

use vstd::prelude::*;

use crate::cluster::{cluster_seq_wf, clusters_chained, graphemes_of, ClusterModel};
use crate::family::FamilyModel;
use crate::index::static_owner;
use crate::select::{first_eligible_from, first_lang_match_from, selected_family};

verus! {

/// Mathematical model of a [`Run`].
pub struct RunModel {
    pub family: int,
    pub start: int,
    pub end: int,
}

/// Mathematical model of a [`Gap`].
pub struct GapModel {
    pub start: int,
    pub end: int,
}

/// A half-open byte span of the input text rendered by one family, identified
/// by its index in the chain's ordered family list.
#[derive(Debug, Clone, Copy, PartialEq, Eq, Structural)]
pub struct Run {
    pub family: usize,
    pub start: usize,
    pub end: usize,
}

impl View for Run {
    type V = RunModel;

    open spec fn view(&self) -> RunModel {
        RunModel { family: self.family as int, start: self.start as int, end: self.end as int }
    }
}

/// A half-open byte span holding one grapheme cluster that no family of the
/// chain supports: an explicit, observable hole in the itemization.
#[derive(Debug, Clone, Copy, PartialEq, Eq, Structural)]
pub struct Gap {
    pub start: usize,
    pub end: usize,
}

impl View for Gap {
    type V = GapModel;

    open spec fn view(&self) -> GapModel {
        GapModel { start: self.start as int, end: self.end as int }
    }
}

/// The views of a run vector.
pub open spec fn run_views(rs: Seq<Run>) -> Seq<RunModel> {
    rs.map_values(|r: Run| r@)
}

/// The views of a gap vector.
pub open spec fn gap_views(gs: Seq<Gap>) -> Seq<GapModel> {
    gs.map_values(|g: Gap| g@)
}

/// How one cluster resolves: a single codepoint the static index answers for
/// resolves there, independent of the language; everything else goes to the
/// priority scan.
pub open spec fn resolve_cluster(
    fams: Seq<FamilyModel>,
    lang: Seq<char>,
    cps: Seq<u32>,
) -> Option<int> {
    if cps.len() == 1 && static_owner(fams, cps[0]) is Some {
        static_owner(fams, cps[0])
    } else {
        selected_family(fams, lang, cps)
    }
}

/// The runs of an itemization, built cluster by cluster: a resolved cluster
/// extends the last run when it starts exactly at its end with the same
/// family, and opens a new run otherwise. Empty clusters (which a correct
/// segmenter never produces) are skipped defensively.
pub open spec fn itemize_runs(
    fams: Seq<FamilyModel>,
    lang: Seq<char>,
    cs: Seq<ClusterModel>,
) -> Seq<RunModel>
    decreases cs.len(),
{
    if cs.len() == 0 {
        Seq::empty()
    } else {
        let runs = itemize_runs(fams, lang, cs.drop_last());
        let c = cs.last();
        if c.cps.len() == 0 {
            runs
        } else {
            match resolve_cluster(fams, lang, c.cps) {
                Some(f) => {
                    if runs.len() > 0 && runs.last().family == f && runs.last().end == c.start {
                        runs.drop_last().push(
                            RunModel { family: f, start: runs.last().start, end: c.end },
                        )
                    } else {
                        runs.push(RunModel { family: f, start: c.start, end: c.end })
                    }
                },
                None => runs,
            }
        }
    }
}

/// The gaps of an itemization: one per cluster that no family supports, in
/// text order, never merged.
pub open spec fn itemize_gaps(
    fams: Seq<FamilyModel>,
    lang: Seq<char>,
    cs: Seq<ClusterModel>,
) -> Seq<GapModel>
    decreases cs.len(),
{
    if cs.len() == 0 {
        Seq::empty()
    } else {
        let gaps = itemize_gaps(fams, lang, cs.drop_last());
        let c = cs.last();
        if c.cps.len() == 0 {
            gaps
        } else {
            match resolve_cluster(fams, lang, c.cps) {
                Some(_) => gaps,
                None => gaps.push(GapModel { start: c.start, end: c.end }),
            }
        }
    }
}

/// Point `p` lies in some run's span.
pub open spec fn covers_run(runs: Seq<RunModel>, p: int) -> bool {
    exists|k: int| 0 <= k < runs.len() && (#[trigger] runs[k]).start <= p < runs[k].end
}

/// Point `p` lies in some gap's span.
pub open spec fn covers_gap(gaps: Seq<GapModel>, p: int) -> bool {
    exists|k: int| 0 <= k < gaps.len() && (#[trigger] gaps[k]).start <= p < gaps[k].end
}

/// Well-formed run sequence: non-empty spans, pairwise disjoint and in text
/// order, and maximal: a run never touches the next one with the same family.
pub open spec fn runs_wf(runs: Seq<RunModel>) -> bool {
    &&& forall|k: int| 0 <= k < runs.len() ==> (#[trigger] runs[k]).start < runs[k].end
    &&& forall|k1: int, k2: int|
        0 <= k1 < k2 < runs.len() ==> runs[k1].end <= runs[k2].start
    &&& forall|k: int|
        0 <= k < runs.len() - 1 ==> ((#[trigger] runs[k]).end == runs[k + 1].start ==> runs[k].family
            != runs[k + 1].family)
}

/// Well-formed gap sequence: non-empty spans, pairwise disjoint and in text
/// order.
pub open spec fn gaps_wf(gaps: Seq<GapModel>) -> bool {
    &&& forall|k: int| 0 <= k < gaps.len() ==> (#[trigger] gaps[k]).start < gaps[k].end
    &&& forall|k1: int, k2: int|
        0 <= k1 < k2 < gaps.len() ==> gaps[k1].end <= gaps[k2].start
}

/// Runs and gaps exactly partition `[lo, hi)`: both are well-formed, every
/// point of the span lies in a run or a gap and in nothing outside it, and no
/// point lies in both a run and a gap.
pub open spec fn partitioned(
    runs: Seq<RunModel>,
    gaps: Seq<GapModel>,
    lo: int,
    hi: int,
) -> bool {
    &&& runs_wf(runs)
    &&& gaps_wf(gaps)
    &&& forall|p: int| lo <= p < hi <==> (covers_run(runs, p) || covers_gap(gaps, p))
    &&& forall|p: int| !(covers_run(runs, p) && covers_gap(gaps, p))
}

/// Appending a cluster that extends the last run keeps the partition, now up
/// to the cluster's end.
proof fn lemma_extend_partitioned(
    runs: Seq<RunModel>,
    gaps: Seq<GapModel>,
    lo: int,
    mid: int,
    hi: int,
    f: int,
)
    requires
        partitioned(runs, gaps, lo, mid),
        lo <= mid < hi,
        runs.len() > 0,
        runs.last().family == f,
        runs.last().end == mid,
    ensures
        partitioned(
            runs.drop_last().push(RunModel { family: f, start: runs.last().start, end: hi }),
            gaps,
            lo,
            hi,
        ),
{
    let n = runs.len();
    let new_runs = runs.drop_last().push(RunModel { family: f, start: runs.last().start, end: hi });
    assert(new_runs.len() == n);
    assert(forall|k: int| 0 <= k < n - 1 ==> new_runs[k] == runs[k]);
    assert(new_runs[n - 1] == RunModel { family: f, start: runs.last().start, end: hi });
    assert forall|p: int| covers_run(new_runs, p) implies (covers_run(runs, p) || (mid <= p
        < hi)) by {
        let k = choose|k: int| 0 <= k < new_runs.len() && (#[trigger] new_runs[k]).start <= p < new_runs[k].end;
        if k < n - 1 {
            assert(runs[k].start <= p < runs[k].end);
        } else if p < mid {
            assert(runs[n - 1].start <= p < runs[n - 1].end);
        }
    }
    assert forall|p: int| (covers_run(runs, p) || (mid <= p < hi)) implies covers_run(
        new_runs,
        p,
    ) by {
        if covers_run(runs, p) {
            let k = choose|k: int| 0 <= k < runs.len() && (#[trigger] runs[k]).start <= p < runs[k].end;
            if k < n - 1 {
                assert(new_runs[k].start <= p < new_runs[k].end);
            } else {
                assert(new_runs[n - 1].start <= p < new_runs[n - 1].end);
            }
        } else {
            assert(runs[n - 1].start < runs[n - 1].end);
            assert(new_runs[n - 1].start <= p < new_runs[n - 1].end);
        }
    }
    assert forall|k1: int, k2: int| 0 <= k1 < k2 < new_runs.len() implies new_runs[k1].end
        <= new_runs[k2].start by {
        if k2 < n - 1 {
            assert(new_runs[k1] == runs[k1]);
            assert(new_runs[k2] == runs[k2]);
        } else {
            assert(new_runs[k1] == runs[k1]);
            assert(runs[k1].end <= runs[k2].start);
        }
    }
    assert forall|k: int|
        0 <= k < new_runs.len() - 1 && (#[trigger] new_runs[k]).end == new_runs[k + 1].start
        implies new_runs[k].family != new_runs[k + 1].family by {
        if k < n - 2 {
            assert(new_runs[k] == runs[k]);
            assert(new_runs[k + 1] == runs[k + 1]);
        } else {
            assert(k == n - 2);
            assert(new_runs[k] == runs[k]);
        }
    }
    assert forall|p: int| lo <= p < hi implies (covers_run(new_runs, p) || covers_gap(
        gaps,
        p,
    )) by {
        if p < mid {
            assert(covers_run(runs, p) || covers_gap(gaps, p));
        }
    }
    assert forall|p: int| (covers_run(new_runs, p) || covers_gap(gaps, p)) implies lo <= p
        < hi by {
        if covers_run(new_runs, p) {
            if covers_run(runs, p) {
                assert(lo <= p < mid);
            } else {
                assert(mid <= p < hi);
            }
        } else {
            assert(covers_gap(gaps, p));
            assert(lo <= p < mid);
        }
    }
    assert forall|p: int| !(covers_run(new_runs, p) && covers_gap(gaps, p)) by {
        if covers_run(new_runs, p) && covers_gap(gaps, p) {
            assert(lo <= p < mid);
            assert(covers_run(runs, p) || (mid <= p < hi));
        }
    }
}

/// Every span of a partition of `[lo, mid)` ends at or before `mid`.
proof fn lemma_spans_bounded(runs: Seq<RunModel>, gaps: Seq<GapModel>, lo: int, mid: int)
    requires
        partitioned(runs, gaps, lo, mid),
    ensures
        forall|k: int| 0 <= k < runs.len() ==> (#[trigger] runs[k]).end <= mid,
        forall|k: int| 0 <= k < gaps.len() ==> (#[trigger] gaps[k]).end <= mid,
{
    assert forall|k: int| 0 <= k < runs.len() implies (#[trigger] runs[k]).end <= mid by {
        let p = runs[k].end - 1;
        assert(runs[k].start <= p < runs[k].end);
        assert(covers_run(runs, p));
        assert(lo <= p < mid);
    }
    assert forall|k: int| 0 <= k < gaps.len() implies (#[trigger] gaps[k]).end <= mid by {
        let p = gaps[k].end - 1;
        assert(gaps[k].start <= p < gaps[k].end);
        assert(covers_gap(gaps, p));
        assert(lo <= p < mid);
    }
}

/// Appending a cluster as a fresh run keeps the partition, now up to the
/// cluster's end.
proof fn lemma_push_run_partitioned(
    runs: Seq<RunModel>,
    gaps: Seq<GapModel>,
    lo: int,
    mid: int,
    hi: int,
    f: int,
)
    requires
        partitioned(runs, gaps, lo, mid),
        lo <= mid < hi,
        runs.len() > 0 ==> !(runs.last().family == f && runs.last().end == mid),
    ensures
        partitioned(runs.push(RunModel { family: f, start: mid, end: hi }), gaps, lo, hi),
{
    let n = runs.len();
    let new_runs = runs.push(RunModel { family: f, start: mid, end: hi });
    lemma_spans_bounded(runs, gaps, lo, mid);
    assert(forall|k: int| 0 <= k < n ==> new_runs[k] == runs[k]);
    assert(new_runs[n as int] == RunModel { family: f, start: mid, end: hi });
    assert forall|p: int| covers_run(new_runs, p) implies (covers_run(runs, p) || (mid <= p
        < hi)) by {
        let k = choose|k: int| 0 <= k < new_runs.len() && (#[trigger] new_runs[k]).start <= p < new_runs[k].end;
        if k < n {
            assert(runs[k].start <= p < runs[k].end);
        }
    }
    assert forall|p: int| (covers_run(runs, p) || (mid <= p < hi)) implies covers_run(
        new_runs,
        p,
    ) by {
        if covers_run(runs, p) {
            let k = choose|k: int| 0 <= k < runs.len() && (#[trigger] runs[k]).start <= p < runs[k].end;
            assert(new_runs[k].start <= p < new_runs[k].end);
        } else {
            assert(new_runs[n as int].start <= p < new_runs[n as int].end);
        }
    }
    assert forall|k1: int, k2: int| 0 <= k1 < k2 < new_runs.len() implies new_runs[k1].end
        <= new_runs[k2].start by {
        if k2 < n {
            assert(new_runs[k1] == runs[k1]);
            assert(new_runs[k2] == runs[k2]);
        } else {
            assert(new_runs[k1] == runs[k1]);
            assert(runs[k1].end <= mid);
        }
    }
    assert forall|k: int|
        0 <= k < new_runs.len() - 1 && (#[trigger] new_runs[k]).end == new_runs[k + 1].start
        implies new_runs[k].family != new_runs[k + 1].family by {
        if k < n - 1 {
            assert(new_runs[k] == runs[k]);
            assert(new_runs[k + 1] == runs[k + 1]);
        } else {
            assert(k == n - 1);
            assert(new_runs[k] == runs[k]);
            assert(runs[k] == runs.last());
        }
    }
    assert forall|p: int| lo <= p < hi implies (covers_run(new_runs, p) || covers_gap(
        gaps,
        p,
    )) by {
        if p < mid {
            assert(covers_run(runs, p) || covers_gap(gaps, p));
        }
    }
    assert forall|p: int| (covers_run(new_runs, p) || covers_gap(gaps, p)) implies lo <= p
        < hi by {
        if covers_run(new_runs, p) {
            if covers_run(runs, p) {
                assert(lo <= p < mid);
            } else {
                assert(mid <= p < hi);
            }
        } else {
            assert(covers_gap(gaps, p));
            assert(lo <= p < mid);
        }
    }
    assert forall|p: int| !(covers_run(new_runs, p) && covers_gap(gaps, p)) by {
        if covers_run(new_runs, p) && covers_gap(gaps, p) {
            assert(lo <= p < mid);
            assert(covers_run(runs, p) || (mid <= p < hi));
        }
    }
}

/// Appending an unsupported cluster as a gap keeps the partition, now up to
/// the cluster's end.
proof fn lemma_push_gap_partitioned(
    runs: Seq<RunModel>,
    gaps: Seq<GapModel>,
    lo: int,
    mid: int,
    hi: int,
)
    requires
        partitioned(runs, gaps, lo, mid),
        lo <= mid < hi,
    ensures
        partitioned(runs, gaps.push(GapModel { start: mid, end: hi }), lo, hi),
{
    let n = gaps.len();
    let new_gaps = gaps.push(GapModel { start: mid, end: hi });
    lemma_spans_bounded(runs, gaps, lo, mid);
    assert(forall|k: int| 0 <= k < n ==> new_gaps[k] == gaps[k]);
    assert(new_gaps[n as int] == GapModel { start: mid, end: hi });
    assert forall|p: int| covers_gap(new_gaps, p) implies (covers_gap(gaps, p) || (mid <= p
        < hi)) by {
        let k = choose|k: int| 0 <= k < new_gaps.len() && (#[trigger] new_gaps[k]).start <= p < new_gaps[k].end;
        if k < n {
            assert(gaps[k].start <= p < gaps[k].end);
        }
    }
    assert forall|p: int| (covers_gap(gaps, p) || (mid <= p < hi)) implies covers_gap(
        new_gaps,
        p,
    ) by {
        if covers_gap(gaps, p) {
            let k = choose|k: int| 0 <= k < gaps.len() && (#[trigger] gaps[k]).start <= p < gaps[k].end;
            assert(new_gaps[k].start <= p < new_gaps[k].end);
        } else {
            assert(new_gaps[n as int].start <= p < new_gaps[n as int].end);
        }
    }
    assert forall|k1: int, k2: int| 0 <= k1 < k2 < new_gaps.len() implies new_gaps[k1].end
        <= new_gaps[k2].start by {
        if k2 < n {
            assert(new_gaps[k1] == gaps[k1]);
            assert(new_gaps[k2] == gaps[k2]);
        } else {
            assert(new_gaps[k1] == gaps[k1]);
            assert(gaps[k1].end <= mid);
        }
    }
    assert forall|p: int| lo <= p < hi implies (covers_run(runs, p) || covers_gap(
        new_gaps,
        p,
    )) by {
        if p < mid {
            assert(covers_run(runs, p) || covers_gap(gaps, p));
        }
    }
    assert forall|p: int| (covers_run(runs, p) || covers_gap(new_gaps, p)) implies lo <= p
        < hi by {
        if covers_run(runs, p) {
            assert(lo <= p < mid);
        } else {
            assert(covers_gap(new_gaps, p));
            if covers_gap(gaps, p) {
                assert(lo <= p < mid);
            } else {
                assert(mid <= p < hi);
            }
        }
    }
    assert forall|p: int| !(covers_run(runs, p) && covers_gap(new_gaps, p)) by {
        if covers_run(runs, p) && covers_gap(new_gaps, p) {
            assert(lo <= p < mid);
            assert(covers_gap(gaps, p) || (mid <= p < hi));
        }
    }
}

/// Chained clusters advance: the whole span is non-empty.
proof fn lemma_chained_span(cs: Seq<ClusterModel>)
    requires
        clusters_chained(cs),
        cs.len() > 0,
    ensures
        cs[0].start < cs[cs.len() - 1].end,
    decreases cs.len(),
{
    if cs.len() > 1 {
        let cs0 = cs.drop_last();
        assert(clusters_chained(cs0)) by {
            assert(forall|i: int| 0 <= i < cs0.len() ==> cs0[i] == cs[i]);
        }
        lemma_chained_span(cs0);
        assert(cs[cs.len() - 2].end == cs[cs.len() - 1].start);
    }
}

/// The induction behind the partition law: over any chained cluster sequence
/// spanning `[lo, hi)`, the runs and gaps of the itemization partition
/// `[lo, hi)`.
pub proof fn lemma_itemize_partitions(
    fams: Seq<FamilyModel>,
    lang: Seq<char>,
    cs: Seq<ClusterModel>,
    lo: int,
    hi: int,
)
    requires
        clusters_chained(cs),
        cs.len() > 0 ==> cs[0].start == lo && cs[cs.len() - 1].end == hi,
        cs.len() == 0 ==> lo == hi,
    ensures
        partitioned(itemize_runs(fams, lang, cs), itemize_gaps(fams, lang, cs), lo, hi),
    decreases cs.len(),
{
    let runs = itemize_runs(fams, lang, cs);
    let gaps = itemize_gaps(fams, lang, cs);
    if cs.len() == 0 {
        assert forall|p: int| lo <= p < hi implies (covers_run(runs, p) || covers_gap(
            gaps,
            p,
        )) by {}
    } else {
        let cs0 = cs.drop_last();
        let c = cs.last();
        let mid = if cs0.len() > 0 {
            cs0[cs0.len() - 1].end
        } else {
            lo
        };
        assert(clusters_chained(cs0)) by {
            assert(forall|i: int|
                0 <= i < cs0.len() ==> cs0[i] == cs[i]);
        }
        if cs0.len() > 0 {
            assert(cs[cs.len() - 2].end == cs[cs.len() - 1].start);
            assert(cs0[0] == cs[0]);
        }
        assert(c.start == mid);
        assert(c.end == hi);
        assert(c.start < c.end);
        if cs0.len() > 0 {
            lemma_chained_span(cs0);
        }
        assert(lo <= mid);
        lemma_itemize_partitions(fams, lang, cs0, lo, mid);
        let runs0 = itemize_runs(fams, lang, cs0);
        let gaps0 = itemize_gaps(fams, lang, cs0);
        assert(c.cps.len() > 0);
        match resolve_cluster(fams, lang, c.cps) {
            Some(f) => {
                if runs0.len() > 0 && runs0.last().family == f && runs0.last().end == c.start {
                    lemma_extend_partitioned(runs0, gaps0, lo, mid, hi, f);
                } else {
                    lemma_push_run_partitioned(runs0, gaps0, lo, mid, hi, f);
                }
            },
            None => {
                lemma_push_gap_partitioned(runs0, gaps0, lo, mid, hi);
            },
        }
    }
}

/// Partition law: over a full segmentation of a text of `total` bytes, the
/// resolved run spans plus the unresolved-cluster spans exactly partition
/// `[0, total)`: every byte lies in exactly one of them, runs and gaps are in
/// text order, and no two spans overlap.
pub proof fn lemma_partition_law(
    fams: Seq<FamilyModel>,
    lang: Seq<char>,
    cs: Seq<ClusterModel>,
    total: int,
)
    requires
        cluster_seq_wf(cs, total),
    ensures
        partitioned(itemize_runs(fams, lang, cs), itemize_gaps(fams, lang, cs), 0, total),
{
    lemma_itemize_partitions(fams, lang, cs, 0, total);
}

/// Maximality law: over a full segmentation, no two runs that touch carry the
/// same family; a family repeats in consecutive runs only across a gap.
pub proof fn lemma_maximality_law(
    fams: Seq<FamilyModel>,
    lang: Seq<char>,
    cs: Seq<ClusterModel>,
    total: int,
)
    requires
        cluster_seq_wf(cs, total),
    ensures
        ({
            let runs = itemize_runs(fams, lang, cs);
            forall|k: int|
                0 <= k < runs.len() - 1 ==> ((#[trigger] runs[k]).end == runs[k + 1].start
                    ==> runs[k].family != runs[k + 1].family)
        }),
{
    lemma_partition_law(fams, lang, cs, total);
}

/// Determinism law: itemization is a pure function of the chain's family
/// list, the text, and the requested language; identical inputs give an
/// identical run and gap sequence.
pub proof fn lemma_itemize_deterministic(
    fams1: Seq<FamilyModel>,
    fams2: Seq<FamilyModel>,
    lang1: Seq<char>,
    lang2: Seq<char>,
    text1: Seq<char>,
    text2: Seq<char>,
)
    requires
        fams1 == fams2,
        lang1 == lang2,
        text1 == text2,
    ensures
        itemize_runs(fams1, lang1, graphemes_of(text1)) == itemize_runs(
            fams2,
            lang2,
            graphemes_of(text2),
        ),
        itemize_gaps(fams1, lang1, graphemes_of(text1)) == itemize_gaps(
            fams2,
            lang2,
            graphemes_of(text2),
        ),
{
}

/// Every run of an itemization names a family of the chain.
pub proof fn lemma_runs_families_valid(
    fams: Seq<FamilyModel>,
    lang: Seq<char>,
    cs: Seq<ClusterModel>,
)
    requires
        fams.len() > 0,
    ensures
        ({
            let runs = itemize_runs(fams, lang, cs);
            forall|k: int| 0 <= k < runs.len() ==> 0 <= (#[trigger] runs[k]).family < fams.len()
        }),
    decreases cs.len(),
{
    let runs = itemize_runs(fams, lang, cs);
    if cs.len() > 0 {
        lemma_runs_families_valid(fams, lang, cs.drop_last());
        let runs0 = itemize_runs(fams, lang, cs.drop_last());
        let c = cs.last();
        if c.cps.len() > 0 {
            match resolve_cluster(fams, lang, c.cps) {
                Some(f) => {
                    lemma_resolve_in_range(fams, lang, c.cps);
                },
                None => {},
            }
        }
    }
}

/// A resolved cluster always names a family index of the chain.
pub proof fn lemma_resolve_in_range(fams: Seq<FamilyModel>, lang: Seq<char>, cps: Seq<u32>)
    requires
        fams.len() > 0,
    ensures
        resolve_cluster(fams, lang, cps) matches Some(f) ==> 0 <= f < fams.len(),
{
    if cps.len() == 1 && static_owner(fams, cps[0]) is Some {
        let cp = cps[0];
        if !(fams.len() > 0 && crate::family::covers(fams[0], cp)) {
            let i = choose|i: int| crate::index::sole_coverer(fams, cp, i);
            assert(crate::index::coverer(fams, cp, i));
        }
    } else {
        lemma_first_lang_match_range(fams, lang, cps, 0);
        lemma_first_eligible_range(fams, lang, cps, 0);
    }
}

/// The first-language-match scan only returns indexes of the list.
proof fn lemma_first_lang_match_range(
    fams: Seq<FamilyModel>,
    lang: Seq<char>,
    cps: Seq<u32>,
    i: int,
)
    ensures
        first_lang_match_from(fams, lang, cps, i) matches Some(w) ==> i <= w < fams.len(),
    decreases fams.len() - i,
{
    if 0 <= i < fams.len() {
        lemma_first_lang_match_range(fams, lang, cps, i + 1);
    }
}

/// The first-eligible scan only returns indexes of the list.
proof fn lemma_first_eligible_range(
    fams: Seq<FamilyModel>,
    lang: Seq<char>,
    cps: Seq<u32>,
    i: int,
)
    ensures
        first_eligible_from(fams, lang, cps, i) matches Some(w) ==> i <= w < fams.len(),
    decreases fams.len() - i,
{
    if 0 <= i < fams.len() {
        lemma_first_eligible_range(fams, lang, cps, i + 1);
    }
}

} // verus!
