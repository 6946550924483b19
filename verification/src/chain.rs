//! The fallback chain: an immutable, priority-ordered family list together
//! with its static codepoint index, built once and queried read-only.

use vstd::prelude::*;

use crate::cluster::{byte_len, cluster_seq_wf, cluster_views, graphemes, graphemes_of, Cluster};
use crate::error::Error;
use crate::family::{Family, FamilyModel};
use crate::index::{
    build_mappings, lemma_index_canonical, map_lookup, map_search, mappings_wf, static_owner,
    Mapping,
};
use crate::cluster::ClusterModel;
use crate::itemize::{
    gap_views, itemize_gaps, itemize_runs, resolve_cluster, run_views, Gap, GapModel, Run, RunModel,
};
use crate::select::{select_family, views_of};

verus! {

/// Mathematical model of a chain: its name, the ordered family models, and the
/// ranges of its static index.
pub struct ChainModel {
    pub name: Seq<char>,
    pub families: Seq<FamilyModel>,
    pub mappings: Seq<Mapping>,
}

/// What every chain guarantees: at least one family, every family with
/// non-empty coverage, and a well-formed static index answering exactly as
/// [`static_owner`] does.
pub open spec fn chain_wf(c: ChainModel) -> bool {
    &&& c.families.len() > 0
    &&& forall|i: int|
        0 <= i < c.families.len() ==> (#[trigger] c.families[i]).codepoints.len() > 0
    &&& mappings_wf(c.mappings, c.families.len() as int)
    &&& forall|cp: u32| map_lookup(c.mappings, cp) == static_owner(c.families, cp)
}

/// A fallback chain: the ordered family list (index 0 is the head, the most
/// preferred) plus the derived codepoint index. Immutable once built; any
/// number of readers may query it concurrently.
pub struct FallbackChain {
    name: String,
    families: Vec<Family>,
    mappings: Vec<Mapping>,
}

impl View for FallbackChain {
    type V = ChainModel;

    closed spec fn view(&self) -> ChainModel {
        ChainModel {
            name: self.name@,
            families: views_of(self.families@),
            mappings: self.mappings@,
        }
    }
}

impl FallbackChain {
    #[verifier::type_invariant]
    spec fn type_wf(self) -> bool {
        chain_wf(self@)
    }

    /// Builds a chain for an ordered family list: computes each codepoint's
    /// coverers, applies head-dominance, and indexes the unambiguously
    /// resolved codepoints. A codepoint several families compete for is never
    /// tie-broken into the index, with or without a language signal: the
    /// query-time scan decides it. Fails iff the list is empty or some family
    /// has empty coverage, naming the first such family.
    pub fn for_fonts(name: &str, families: Vec<Family>) -> (r: Result<FallbackChain, Error>)
        ensures
            r is Ok <==> (families@.len() > 0 && forall|i: int|
                0 <= i < families@.len() ==> (#[trigger] views_of(families@)[i]).codepoints.len()
                    > 0),
            r matches Ok(chain) ==> {
                &&& chain@.name == name@
                &&& chain@.families == views_of(families@)
                &&& chain_wf(chain@)
            },
            r matches Err(e) ==> match e {
                Error::NoFamilies => families@.len() == 0,
                Error::EmptyCoverage { family } => {
                    &&& families@.len() > 0
                    &&& family < families@.len()
                    &&& views_of(families@)[family as int].codepoints.len() == 0
                    &&& forall|k: int|
                        0 <= k < family ==> (#[trigger] views_of(families@)[k]).codepoints.len()
                            > 0
                },
                _ => false,
            },
    {
        let ghost fams = views_of(families@);
        if families.len() == 0 {
            return Err(Error::NoFamilies);
        }
        let mut i: usize = 0;
        while i < families.len()
            invariant
                fams == views_of(families@),
                fams.len() == families.len(),
                i <= families.len(),
                forall|k: int| 0 <= k < i ==> (#[trigger] fams[k]).codepoints.len() > 0,
            decreases families.len() - i,
        {
            assert(fams[i as int] == families@[i as int]@);
            if families[i].codepoints.len() == 0 {
                return Err(Error::EmptyCoverage { family: i });
            }
            i = i + 1;
        }
        let mappings = build_mappings(&families);
        Ok(FallbackChain { name: name.to_owned(), families, mappings })
    }

    /// The number of families in the chain.
    pub fn len(&self) -> (r: usize)
        ensures
            r == self@.families.len(),
            r > 0,
    {
        proof {
            use_type_invariant(self);
        }
        self.families.len()
    }

    /// The chain's name.
    pub fn name(&self) -> (r: &str)
        ensures
            r@ == self@.name,
    {
        self.name.as_str()
    }

    /// The family at position `i` of the chain.
    pub fn family(&self, i: usize) -> (r: &Family)
        requires
            i < self@.families.len(),
        ensures
            r@ == self@.families[i as int],
    {
        &self.families[i]
    }

    /// The static index's answer for one codepoint: the single-codepoint fast
    /// path of the itemizer. Independent of any language preference.
    pub fn lookup(&self, cp: u32) -> (r: Option<usize>)
        ensures
            r matches Some(i) ==> Some(i as int) == static_owner(self@.families, cp) && i
                < self@.families.len(),
            r is None ==> static_owner(self@.families, cp) is None,
    {
        proof {
            use_type_invariant(self);
        }
        map_search(&self.mappings, self.families.len(), cp)
    }

    /// Assigns every grapheme cluster of `text` to a family of the chain and
    /// compacts the assignment into maximal runs, written to `dest` in text
    /// order. Clusters no family supports are returned as explicit gaps, in
    /// text order; they are never absorbed into a run.
    pub fn itemize(&self, text: &str, lang: &str, dest: &mut Vec<Run>) -> (gaps: Vec<Gap>)
        ensures
            run_views(final(dest)@) == itemize_runs(self@.families, lang@, graphemes_of(text@)),
            gap_views(gaps@) == itemize_gaps(self@.families, lang@, graphemes_of(text@)),
            cluster_seq_wf(graphemes_of(text@), byte_len(text@)),
    {
        let clusters = graphemes(text);
        self.itemize_clusters(&clusters, lang, dest)
    }

    /// Itemizes an already segmented cluster sequence: the whole itemizer but
    /// for the boundary oracle, so its contract is exact for every input.
    /// Empty clusters, which a correct segmenter never hands over, are skipped
    /// defensively.
    pub fn itemize_clusters(&self, clusters: &Vec<Cluster>, lang: &str, dest: &mut Vec<Run>) -> (gaps:
        Vec<Gap>)
        ensures
            run_views(final(dest)@) == itemize_runs(
                self@.families,
                lang@,
                cluster_views(clusters@),
            ),
            gap_views(gaps@) == itemize_gaps(self@.families, lang@, cluster_views(clusters@)),
    {
        proof {
            use_type_invariant(self);
        }
        let ghost fams = self@.families;
        let ghost cs = cluster_views(clusters@);
        dest.clear();
        let mut gaps: Vec<Gap> = Vec::new();
        proof {
            assert(cs.take(0) =~= Seq::<ClusterModel>::empty());
            assert(run_views(dest@) =~= itemize_runs(fams, lang@, cs.take(0)));
            assert(gap_views(gaps@) =~= itemize_gaps(fams, lang@, cs.take(0)));
        }
        let mut i: usize = 0;
        while i < clusters.len()
            invariant
                chain_wf(self@),
                fams == self@.families,
                cs == cluster_views(clusters@),
                cs.len() == clusters@.len(),
                i <= clusters@.len(),
                run_views(dest@) == itemize_runs(fams, lang@, cs.take(i as int)),
                gap_views(gaps@) == itemize_gaps(fams, lang@, cs.take(i as int)),
            decreases clusters@.len() - i,
        {
            let c = &clusters[i];
            proof {
                assert(cs[i as int] == clusters@[i as int]@);
                assert(cs.take(i as int + 1).drop_last() =~= cs.take(i as int));
                assert(cs.take(i as int + 1).last() == cs[i as int]);
            }
            let ghost prefix = cs.take(i as int);
            let ghost prefix1 = cs.take(i as int + 1);
            if c.codepoints.len() == 0 {
                // a segmenter contract violation; produce nothing for it
                proof {
                    assert(itemize_runs(fams, lang@, prefix1) == itemize_runs(
                        fams,
                        lang@,
                        prefix,
                    ));
                    assert(itemize_gaps(fams, lang@, prefix1) == itemize_gaps(
                        fams,
                        lang@,
                        prefix,
                    ));
                }
            } else {
                let fam: Option<usize>;
                if c.codepoints.len() == 1 {
                    match map_search(&self.mappings, self.families.len(), c.codepoints[0]) {
                        Some(hit) => {
                            fam = Some(hit);
                        },
                        None => {
                            fam = select_family(&self.families, lang, &c.codepoints);
                        },
                    }
                } else {
                    fam = select_family(&self.families, lang, &c.codepoints);
                }
                proof {
                    assert(c.codepoints@ == cs[i as int].cps);
                    match fam {
                        Some(f) => {
                            assert(Some(f as int) == resolve_cluster(fams, lang@, cs[i as int].cps));
                        },
                        None => {
                            assert(resolve_cluster(fams, lang@, cs[i as int].cps) is None);
                        },
                    }
                }
                match fam {
                    Some(f) => {
                        let ghost old_dest = dest@;
                        let r_new: Run;
                        match dest.pop() {
                            None => {
                                r_new = Run { family: f, start: c.start, end: c.end };
                                dest.push(r_new);
                                proof {
                                    assert(dest@ =~= old_dest.push(r_new));
                                }
                            },
                            Some(last) => {
                                if last.family == f && last.end == c.start {
                                    r_new = Run { family: f, start: last.start, end: c.end };
                                    dest.push(r_new);
                                    proof {
                                        assert(dest@ =~= old_dest.drop_last().push(r_new));
                                        assert(run_views(old_dest).last() == old_dest.last()@);
                                    }
                                } else {
                                    dest.push(last);
                                    r_new = Run { family: f, start: c.start, end: c.end };
                                    dest.push(r_new);
                                    proof {
                                        assert(old_dest.drop_last().push(last) =~= old_dest);
                                        assert(dest@ =~= old_dest.push(r_new));
                                        assert(run_views(old_dest).len() > 0 ==> run_views(
                                            old_dest,
                                        ).last() == old_dest.last()@);
                                    }
                                }
                            },
                        }
                        proof {
                            lemma_run_step(
                                old_dest,
                                dest@,
                                r_new,
                                fams,
                                lang@,
                                prefix,
                                prefix1,
                                f as int,
                            );
                        }
                    },
                    None => {
                        let ghost old_gaps = gaps@;
                        gaps.push(Gap { start: c.start, end: c.end });
                        proof {
                            assert(gaps@ =~= old_gaps.push(Gap { start: c.start, end: c.end }));
                            assert(gap_views(gaps@) =~= gap_views(old_gaps).push(
                                GapModel { start: c.start as int, end: c.end as int },
                            ));
                            assert(gap_views(gaps@) == itemize_gaps(fams, lang@, prefix1));
                            assert(itemize_runs(fams, lang@, prefix1) == itemize_runs(
                                fams,
                                lang@,
                                prefix,
                            ));
                        }
                    },
                }
            }
            i = i + 1;
        }
        proof {
            assert(cs.take(cs.len() as int) =~= cs);
        }
        gaps
    }
}

/// Construction idempotence: any two well-formed chains over the same ordered
/// family list answer every single-codepoint lookup identically, and exactly
/// as the static resolution does.
pub proof fn lemma_lookup_idempotent(c1: ChainModel, c2: ChainModel, cp: u32)
    requires
        chain_wf(c1),
        chain_wf(c2),
        c1.families == c2.families,
    ensures
        map_lookup(c1.mappings, cp) == map_lookup(c2.mappings, cp),
        map_lookup(c1.mappings, cp) == static_owner(c1.families, cp),
{
}

/// Construction idempotence, in its strongest form: any two well-formed
/// chains over the same ordered family list hold the very same index, range
/// for range.
pub proof fn lemma_index_idempotent(c1: ChainModel, c2: ChainModel)
    requires
        chain_wf(c1),
        chain_wf(c2),
        c1.families == c2.families,
    ensures
        c1.mappings == c2.mappings,
{
    lemma_index_canonical(c1.mappings, c2.mappings, c1.families.len() as int);
}

/// One emitted cluster turns the run vector into exactly what the model says:
/// the last run extended, or a new run appended.
proof fn lemma_run_step(
    old_dest: Seq<Run>,
    new_dest: Seq<Run>,
    r_new: Run,
    fams: Seq<FamilyModel>,
    lang: Seq<char>,
    prefix: Seq<ClusterModel>,
    prefix1: Seq<ClusterModel>,
    f: int,
)
    requires
        prefix1.drop_last() == prefix,
        prefix1.len() > 0,
        prefix1.last().cps.len() > 0,
        resolve_cluster(fams, lang, prefix1.last().cps) == Some(f),
        run_views(old_dest) == itemize_runs(fams, lang, prefix),
        ({
            let c = prefix1.last();
            let runs = run_views(old_dest);
            if runs.len() > 0 && runs.last().family == f && runs.last().end == c.start {
                &&& new_dest == old_dest.drop_last().push(r_new)
                &&& r_new@ == (RunModel { family: f, start: runs.last().start, end: c.end })
            } else {
                &&& new_dest == old_dest.push(r_new)
                &&& r_new@ == (RunModel { family: f, start: c.start, end: c.end })
            }
        }),
    ensures
        run_views(new_dest) == itemize_runs(fams, lang, prefix1),
{
    let c = prefix1.last();
    let runs = run_views(old_dest);
    if runs.len() > 0 && runs.last().family == f && runs.last().end == c.start {
        assert(run_views(new_dest) =~= runs.drop_last().push(
            RunModel { family: f, start: runs.last().start, end: c.end },
        ));
    } else {
        assert(run_views(new_dest) =~= runs.push(RunModel { family: f, start: c.start, end: c.end }));
    }
}

} // verus!
