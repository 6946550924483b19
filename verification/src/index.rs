//! The static codepoint index of a fallback chain.
//!
//! At construction the chain classifies every covered codepoint: the head
//! family wins outright wherever it covers (head-dominance); a codepoint with
//! exactly one coverer resolves to it; any other codepoint with several
//! coverers is left out of the index and resolved at query time by the scorer.
//! Resolved codepoints are run-length encoded into sorted, non-overlapping,
//! maximal inclusive ranges.

use vstd::prelude::*;

use crate::family::{covers, Family, FamilyModel};
use crate::select::views_of;

verus! {

/// An inclusive range of codepoints `[start, end]`, all statically resolved to
/// the family at index `family` of the chain's ordered list.
#[derive(Debug, Clone, Copy, PartialEq, Eq, Structural)]
pub struct Mapping {
    pub start: u32,
    pub end: u32,
    pub family: usize,
}

/// Family `i` covers `cp`.
pub open spec fn coverer(fams: Seq<FamilyModel>, cp: u32, i: int) -> bool {
    0 <= i < fams.len() && covers(fams[i], cp)
}

/// Family `i` is the only coverer of `cp`.
pub open spec fn sole_coverer(fams: Seq<FamilyModel>, cp: u32, i: int) -> bool {
    coverer(fams, cp, i) && forall|j: int| coverer(fams, cp, j) ==> j == i
}

/// The static resolution of a codepoint: the head family wherever it covers,
/// else the codepoint's only coverer, else none (uncovered codepoints, and
/// codepoints several families compete for, are resolved at query time).
pub open spec fn static_owner(fams: Seq<FamilyModel>, cp: u32) -> Option<int> {
    if fams.len() > 0 && covers(fams[0], cp) {
        Some(0)
    } else if exists|i: int| sole_coverer(fams, cp, i) {
        Some(choose|i: int| sole_coverer(fams, cp, i))
    } else {
        None
    }
}

/// `cp` lies in the inclusive range of `m`.
pub open spec fn in_mapping(m: Mapping, cp: u32) -> bool {
    m.start <= cp <= m.end
}

/// Well-formed index: ranges are non-empty, strictly ascending and disjoint,
/// tagged with a family index of the chain, and maximal: two adjacent ranges
/// never carry the same family.
pub open spec fn mappings_wf(ms: Seq<Mapping>, nfam: int) -> bool {
    &&& forall|k: int|
        0 <= k < ms.len() ==> (#[trigger] ms[k]).start <= ms[k].end && (ms[k].family as int) < nfam
    &&& forall|k: int| 0 <= k < ms.len() - 1 ==> (#[trigger] ms[k]).end < ms[k + 1].start
    &&& forall|k: int|
        0 <= k < ms.len() - 1 ==> ((#[trigger] ms[k]).end + 1 == ms[k + 1].start ==> ms[k].family
            != ms[k + 1].family)
}

/// What the index answers for a codepoint: the family of the range holding it,
/// if any.
pub open spec fn map_lookup(ms: Seq<Mapping>, cp: u32) -> Option<int> {
    if exists|k: int| 0 <= k < ms.len() && in_mapping(ms[k], cp) {
        Some(ms[choose|k: int| 0 <= k < ms.len() && in_mapping(ms[k], cp)].family as int)
    } else {
        None
    }
}

/// Ranges of a well-formed index are ordered across any distance.
proof fn lemma_mappings_ordered(ms: Seq<Mapping>, nfam: int, k1: int, k2: int)
    requires
        mappings_wf(ms, nfam),
        0 <= k1 < k2 < ms.len(),
    ensures
        ms[k1].end < ms[k2].start,
    decreases k2 - k1,
{
    if k1 + 1 < k2 {
        lemma_mappings_ordered(ms, nfam, k1, k2 - 1);
    }
}

/// In a well-formed index at most one range holds a codepoint.
proof fn lemma_mapping_unique(ms: Seq<Mapping>, nfam: int, cp: u32, k1: int, k2: int)
    requires
        mappings_wf(ms, nfam),
        0 <= k1 < ms.len(),
        0 <= k2 < ms.len(),
        in_mapping(ms[k1], cp),
        in_mapping(ms[k2], cp),
    ensures
        k1 == k2,
{
    if k1 < k2 {
        lemma_mappings_ordered(ms, nfam, k1, k2);
    }
    if k2 < k1 {
        lemma_mappings_ordered(ms, nfam, k2, k1);
    }
}

/// A range holding `cp` decides the lookup.
proof fn lemma_map_lookup_hit(ms: Seq<Mapping>, nfam: int, cp: u32, k: int)
    requires
        mappings_wf(ms, nfam),
        0 <= k < ms.len(),
        in_mapping(ms[k], cp),
    ensures
        map_lookup(ms, cp) == Some(ms[k].family as int),
{
    let w = choose|j: int| 0 <= j < ms.len() && in_mapping(ms[j], cp);
    lemma_mapping_unique(ms, nfam, cp, k, w);
}

/// Strictly ascending sequence of codepoints.
pub open spec fn ascending(s: Seq<u32>) -> bool {
    forall|i: int, j: int| 0 <= i < j < s.len() ==> s[i] < s[j]
}

/// Inserts `cp` into an ascending vector, keeping it ascending and changing
/// its contents by at most that one value.
fn insert_sorted(v: &mut Vec<u32>, cp: u32)
    requires
        ascending(old(v)@),
    ensures
        ascending(final(v)@),
        forall|x: u32| final(v)@.contains(x) <==> (old(v)@.contains(x) || x == cp),
{
    let ghost old_seq = v@;
    let mut i: usize = 0;
    while i < v.len() && v[i] < cp
        invariant
            ascending(v@),
            v@ == old_seq,
            i <= v.len(),
            forall|k: int| 0 <= k < i ==> v@[k] < cp,
        decreases v.len() - i,
    {
        i = i + 1;
    }
    if i < v.len() && v[i] == cp {
        proof {
            assert(v@[i as int] == cp);
            assert(v@.contains(cp));
        }
        return ;
    }
    v.insert(i, cp);
    proof {
        old_seq.insert_ensures(i as int, cp);
        assert(v@ == old_seq.insert(i as int, cp));
        assert(v@[i as int] == cp);
        if i < old_seq.len() {
            assert(old_seq[i as int] > cp);
        }
        assert forall|x: u32| v@.contains(x) implies (old_seq.contains(x) || x == cp) by {
            let k = choose|k: int| 0 <= k < v@.len() && v@[k] == x;
            if k < i {
                assert(v@[k] == old_seq[k]);
                assert(old_seq[k] == x);
            } else if k > i {
                assert(v@[(k - 1) + 1] == old_seq[k - 1]);
                assert(old_seq[k - 1] == x);
            }
        }
        assert forall|x: u32| (old_seq.contains(x) || x == cp) implies v@.contains(x) by {
            if old_seq.contains(x) {
                let k = choose|k: int| 0 <= k < old_seq.len() && old_seq[k] == x;
                if k < i {
                    assert(v@[k] == x);
                } else {
                    assert(v@[k + 1] == x);
                }
            } else {
                assert(v@[i as int] == cp);
            }
        }
        assert forall|a: int, b: int| 0 <= a < b < v@.len() implies v@[a] < v@[b] by {
            if a < i {
                assert(v@[a] == old_seq[a]);
            } else if a > i {
                assert(v@[(a - 1) + 1] == old_seq[a - 1]);
            }
            if b < i {
                assert(v@[b] == old_seq[b]);
            } else if b > i {
                assert(v@[(b - 1) + 1] == old_seq[b - 1]);
            }
        }
    }
}

/// Every codepoint any family of the list covers, ascending, each once.
fn all_covered(families: &Vec<Family>) -> (r: Vec<u32>)
    ensures
        ascending(r@),
        forall|cp: u32|
            r@.contains(cp) <==> exists|i: int| coverer(views_of(families@), cp, i),
{
    let ghost fams = views_of(families@);
    let mut r: Vec<u32> = Vec::new();
    let mut fi: usize = 0;
    while fi < families.len()
        invariant
            fams == views_of(families@),
            fams.len() == families.len(),
            ascending(r@),
            fi <= families.len(),
            forall|cp: u32|
                r@.contains(cp) <==> exists|i: int| 0 <= i < fi && coverer(fams, cp, i),
        decreases families.len() - fi,
    {
        let ghost before_family = r@;
        assert(fams[fi as int] == families@[fi as int]@);
        let ncps = families[fi].codepoints.len();
        let mut ci: usize = 0;
        while ci < ncps
            invariant
                fams == views_of(families@),
                fams.len() == families.len(),
                fi < families.len(),
                fams[fi as int] == families@[fi as int]@,
                ncps == fams[fi as int].codepoints.len(),
                ascending(r@),
                ci <= ncps,
                forall|cp: u32|
                    r@.contains(cp) ==> (before_family.contains(cp) || exists|k: int|
                        0 <= k < ci && fams[fi as int].codepoints[k] == cp),
                forall|cp: u32|
                    (before_family.contains(cp) || exists|k: int|
                        0 <= k < ci && fams[fi as int].codepoints[k] == cp) ==> r@.contains(cp),
            decreases ncps - ci,
        {
            let cp = families[fi].codepoints[ci];
            assert(fams[fi as int].codepoints[ci as int] == cp);
            let ghost before_insert = r@;
            let ghost prev_ci = ci as int;
            insert_sorted(&mut r, cp);
            ci = ci + 1;
            proof {
                assert forall|x: u32| r@.contains(x) implies (before_family.contains(x)
                    || exists|k: int| 0 <= k < ci && fams[fi as int].codepoints[k] == x) by {
                    if !before_family.contains(x) {
                        if before_insert.contains(x) {
                            let k = choose|k: int|
                                0 <= k < prev_ci && fams[fi as int].codepoints[k] == x;
                            assert(0 <= k < ci && fams[fi as int].codepoints[k] == x);
                        } else {
                            assert(x == cp);
                            assert(0 <= prev_ci < ci && fams[fi as int].codepoints[prev_ci] == x);
                        }
                    }
                }
                assert forall|x: u32| (before_family.contains(x) || exists|k: int|
                    0 <= k < ci && fams[fi as int].codepoints[k] == x) implies r@.contains(
                    x,
                ) by {
                    if before_family.contains(x) {
                        assert(before_insert.contains(x));
                    } else {
                        let k = choose|k: int|
                            0 <= k < ci && fams[fi as int].codepoints[k] == x;
                        if k < prev_ci {
                            assert(exists|j: int|
                                0 <= j < prev_ci && fams[fi as int].codepoints[j] == x);
                            assert(before_insert.contains(x));
                        } else {
                            assert(x == cp);
                        }
                    }
                }
            }
        }
        proof {
            assert forall|cp: u32| r@.contains(cp) implies (exists|i: int|
                0 <= i < fi + 1 && coverer(fams, cp, i)) by {
                if !before_family.contains(cp) {
                    assert(fams[fi as int].codepoints.contains(cp));
                    assert(coverer(fams, cp, fi as int));
                }
            }
            assert forall|cp: u32| (exists|i: int| 0 <= i < fi + 1 && coverer(fams, cp, i))
                implies r@.contains(cp) by {
                let i = choose|i: int| 0 <= i < fi + 1 && coverer(fams, cp, i);
                if i < fi {
                    assert(before_family.contains(cp));
                } else {
                    let cs = fams[fi as int].codepoints;
                    assert(cs.contains(cp));
                    let k = choose|k: int| 0 <= k < cs.len() && cs[k] == cp;
                    assert(fams[fi as int].codepoints[k] == cp);
                }
            }
        }
        fi = fi + 1;
    }
    r
}

/// The static resolution of one codepoint, computed by scanning the list:
/// head-dominance first, then the only-coverer rule.
fn owner_of(families: &Vec<Family>, cp: u32) -> (r: Option<usize>)
    requires
        families@.len() > 0,
    ensures
        r matches Some(i) ==> i < families@.len() && Some(i as int) == static_owner(
            views_of(families@),
            cp,
        ),
        r is None ==> static_owner(views_of(families@), cp) is None,
{
    let ghost fams = views_of(families@);
    assert(fams[0] == families@[0]@);
    if families[0].contains(cp) {
        proof {
            assert(covers(fams[0], cp));
        }
        return Some(0);
    }
    let mut found: Option<usize> = None;
    let mut second: Option<usize> = None;
    let mut i: usize = 0;
    while i < families.len()
        invariant
            fams == views_of(families@),
            fams.len() == families.len(),
            i <= families.len(),
            found is None ==> forall|k: int| 0 <= k < i ==> !coverer(fams, cp, k),
            found matches Some(f) ==> (f < i && coverer(fams, cp, f as int) && forall|k: int|
                0 <= k < f ==> !coverer(fams, cp, k)),
            second is None ==> forall|k: int|
                0 <= k < i && coverer(fams, cp, k) ==> found == Some(k as usize),
            second matches Some(s) ==> (found matches Some(f) && f != s && s < i && coverer(
                fams,
                cp,
                s as int,
            )),
        decreases families.len() - i,
    {
        assert(fams[i as int] == families@[i as int]@);
        if families[i].contains(cp) {
            if found.is_none() {
                found = Some(i);
            } else if second.is_none() {
                second = Some(i);
            }
        }
        i = i + 1;
    }
    match (found, second) {
        (Some(f), None) => {
            proof {
                assert(sole_coverer(fams, cp, f as int));
                let w = choose|j: int| sole_coverer(fams, cp, j);
                assert(coverer(fams, cp, w));
            }
            Some(f)
        },
        (Some(f), Some(s)) => {
            proof {
                assert(!covers(fams[0], cp));
                if exists|j: int| sole_coverer(fams, cp, j) {
                    let j = choose|j: int| sole_coverer(fams, cp, j);
                    assert(coverer(fams, cp, f as int));
                    assert(coverer(fams, cp, s as int));
                }
            }
            None
        },
        (None, _) => {
            proof {
                assert(!covers(fams[0], cp));
                if exists|j: int| sole_coverer(fams, cp, j) {
                    let j = choose|j: int| sole_coverer(fams, cp, j);
                    assert(coverer(fams, cp, j));
                }
            }
            None
        },
    }
}

/// One run-length-encoding step: the new index either extends the last range
/// by exactly the next codepoint or appends a fresh single-codepoint range.
/// The step keeps the index well-formed and leaves every earlier codepoint's
/// lookup unchanged.
#[verifier::rlimit(50)]
proof fn lemma_index_step(old_ms: Seq<Mapping>, new_ms: Seq<Mapping>, nfam: int, cp: u32, f: int)
    requires
        mappings_wf(old_ms, nfam),
        0 <= f < nfam,
        nfam <= usize::MAX,
        old_ms.len() > 0 ==> old_ms.last().end < cp,
        ({
            ||| (old_ms.len() > 0 && old_ms.last().end + 1 == cp && old_ms.last().family as int
                == f && new_ms == old_ms.drop_last().push(
                Mapping { start: old_ms.last().start, end: cp, family: old_ms.last().family },
            ))
            ||| ((old_ms.len() > 0 ==> !(old_ms.last().end + 1 == cp && old_ms.last().family as int
                == f)) && new_ms == old_ms.push(
                Mapping { start: cp, end: cp, family: f as usize },
            ))
        }),
    ensures
        mappings_wf(new_ms, nfam),
        new_ms.len() > 0,
        new_ms.last().end == cp,
        in_mapping(new_ms.last(), cp),
        new_ms.last().family as int == f,
        forall|cpx: u32| cpx < cp ==> map_lookup(new_ms, cpx) == map_lookup(old_ms, cpx),
{
    let n = old_ms.len();
    if n > 0 && old_ms.last().end + 1 == cp && old_ms.last().family as int == f && new_ms
        == old_ms.drop_last().push(
        Mapping { start: old_ms.last().start, end: cp, family: old_ms.last().family },
    ) {
        assert(new_ms.len() == n);
        assert(forall|k: int| 0 <= k < n - 1 ==> new_ms[k] == old_ms[k]);
        assert(new_ms[n - 1] == Mapping {
            start: old_ms.last().start,
            end: cp,
            family: old_ms.last().family,
        });
        assert(new_ms.last().family as int == f);
        assert forall|k: int| 0 <= k < new_ms.len() implies (#[trigger] new_ms[k]).start
            <= new_ms[k].end && (new_ms[k].family as int) < nfam by {
            if k < n - 1 {
                assert(new_ms[k] == old_ms[k]);
            } else {
                assert(old_ms[n - 1].start <= old_ms[n - 1].end);
            }
        }
        assert forall|k: int| 0 <= k < new_ms.len() - 1 implies (#[trigger] new_ms[k]).end
            < new_ms[k + 1].start by {
            if k < n - 2 {
                assert(new_ms[k] == old_ms[k]);
                assert(new_ms[k + 1] == old_ms[k + 1]);
            } else {
                assert(k == n - 2);
                assert(new_ms[k] == old_ms[k]);
                assert(old_ms[n - 2].end < old_ms[n - 1].start);
            }
        }
        assert forall|k: int|
            0 <= k < new_ms.len() - 1 && (#[trigger] new_ms[k]).end + 1 == new_ms[k + 1].start
            implies new_ms[k].family != new_ms[k + 1].family by {
            if k < n - 2 {
                assert(new_ms[k] == old_ms[k]);
                assert(new_ms[k + 1] == old_ms[k + 1]);
            } else {
                assert(k == n - 2);
                assert(new_ms[k] == old_ms[k]);
            }
        }
        assert forall|cpx: u32| cpx < cp implies map_lookup(new_ms, cpx) == map_lookup(
            old_ms,
            cpx,
        ) by {
            assert forall|k: int| 0 <= k < n implies in_mapping(#[trigger] new_ms[k], cpx)
                == in_mapping(old_ms[k], cpx) by {
                if k < n - 1 {
                    assert(new_ms[k] == old_ms[k]);
                } else {
                    assert(old_ms[k].end + 1 == cp);
                }
            }
            if exists|k: int| 0 <= k < n && in_mapping(old_ms[k], cpx) {
                let k = choose|k: int| 0 <= k < n && in_mapping(old_ms[k], cpx);
                lemma_map_lookup_hit(old_ms, nfam, cpx, k);
                assert(in_mapping(new_ms[k], cpx));
                lemma_map_lookup_hit(new_ms, nfam, cpx, k);
                assert(new_ms[k].family == old_ms[k].family);
            } else {
                assert(forall|k: int| 0 <= k < new_ms.len() ==> !in_mapping(
                    #[trigger] new_ms[k],
                    cpx,
                ));
            }
        }
    } else {
        assert(new_ms == old_ms.push(Mapping { start: cp, end: cp, family: f as usize }));
        assert(new_ms.len() == n + 1);
        assert(forall|k: int| 0 <= k < n ==> new_ms[k] == old_ms[k]);
        assert(new_ms[n as int] == Mapping { start: cp, end: cp, family: f as usize });
        assert(new_ms.last().family as int == f);
        assert forall|k: int| 0 <= k < new_ms.len() implies (#[trigger] new_ms[k]).start
            <= new_ms[k].end && (new_ms[k].family as int) < nfam by {
            if k < n {
                assert(new_ms[k] == old_ms[k]);
            }
        }
        assert forall|k: int| 0 <= k < new_ms.len() - 1 implies (#[trigger] new_ms[k]).end
            < new_ms[k + 1].start by {
            if k < n - 1 {
                assert(new_ms[k] == old_ms[k]);
                assert(new_ms[k + 1] == old_ms[k + 1]);
            } else {
                assert(k == n - 1);
                assert(old_ms.last().end < cp);
            }
        }
        assert forall|k: int|
            0 <= k < new_ms.len() - 1 && (#[trigger] new_ms[k]).end + 1 == new_ms[k + 1].start
            implies new_ms[k].family != new_ms[k + 1].family by {
            if k < n - 1 {
                assert(new_ms[k] == old_ms[k]);
                assert(new_ms[k + 1] == old_ms[k + 1]);
            } else {
                assert(k == n - 1);
            }
        }
        assert forall|cpx: u32| cpx < cp implies map_lookup(new_ms, cpx) == map_lookup(
            old_ms,
            cpx,
        ) by {
            assert(!in_mapping(new_ms[n as int], cpx));
            if exists|k: int| 0 <= k < n && in_mapping(old_ms[k], cpx) {
                let k = choose|k: int| 0 <= k < n && in_mapping(old_ms[k], cpx);
                lemma_map_lookup_hit(old_ms, nfam, cpx, k);
                assert(in_mapping(new_ms[k], cpx));
                lemma_map_lookup_hit(new_ms, nfam, cpx, k);
            } else {
                assert forall|k: int| 0 <= k < new_ms.len() implies !in_mapping(
                    #[trigger] new_ms[k],
                    cpx,
                ) by {
                    if k < n {
                        assert(new_ms[k] == old_ms[k]);
                    }
                }
            }
        }
    }
}

/// Builds the whole static index: classifies every covered codepoint and
/// run-length encodes the resolved ones into maximal ranges.
#[verifier::rlimit(100)]
pub(crate) fn build_mappings(families: &Vec<Family>) -> (ms: Vec<Mapping>)
    requires
        families@.len() > 0,
    ensures
        mappings_wf(ms@, families@.len() as int),
        forall|cp: u32| map_lookup(ms@, cp) == static_owner(views_of(families@), cp),
{
    let ghost fams = views_of(families@);
    let universe = all_covered(families);
    let nfam = families.len();
    let mut ms: Vec<Mapping> = Vec::new();
    proof {
        assert forall|cp: u32| (0 < universe@.len() ==> cp < universe@[0]) implies map_lookup(
            ms@,
            cp,
        ) == static_owner(fams, cp) by {
            lemma_uncontained_unowned(fams, universe@, cp);
        }
    }
    let mut i: usize = 0;
    while i < universe.len()
        invariant
            fams == views_of(families@),
            fams.len() == families.len() == nfam,
            nfam > 0,
            ascending(universe@),
            forall|cp: u32|
                universe@.contains(cp) <==> exists|fk: int| coverer(fams, cp, fk),
            i <= universe.len(),
            mappings_wf(ms@, nfam as int),
            ms@.len() > 0 && i < universe.len() ==> ms@.last().end < universe@[i as int],
            forall|cp: u32|
                (i < universe.len() ==> cp < universe@[i as int]) ==> map_lookup(ms@, cp)
                    == static_owner(fams, cp),
        decreases universe.len() - i,
    {
        let cp = universe[i];
        let ghost old_ms = ms@;
        let owner = owner_of(families, cp);
        match owner {
            Some(f) => {
                match ms.pop() {
                    None => {
                        ms.push(Mapping { start: cp, end: cp, family: f });
                        proof {
                            assert(ms@ == old_ms.push(Mapping { start: cp, end: cp, family: f }));
                            lemma_index_step(old_ms, ms@, nfam as int, cp, f as int);
                        }
                    },
                    Some(last) => {
                        proof {
                            assert(last == old_ms.last());
                            assert(last.end < cp);
                        }
                        if last.end + 1 == cp && last.family == f {
                            ms.push(Mapping { start: last.start, end: cp, family: f });
                            proof {
                                assert(ms@ == old_ms.drop_last().push(
                                    Mapping { start: last.start, end: cp, family: last.family },
                                ));
                                lemma_index_step(old_ms, ms@, nfam as int, cp, f as int);
                            }
                        } else {
                            ms.push(last);
                            ms.push(Mapping { start: cp, end: cp, family: f });
                            proof {
                                assert(old_ms.drop_last().push(last) =~= old_ms);
                                assert(ms@ == old_ms.push(Mapping { start: cp, end: cp, family: f }));
                                lemma_index_step(old_ms, ms@, nfam as int, cp, f as int);
                            }
                        }
                    },
                }
            },
            None => {},
        }
        proof {
            let iplus = i + 1;
            assert forall|cpx: u32| (iplus < universe@.len() ==> cpx < universe@[iplus as int])
                implies map_lookup(ms@, cpx) == static_owner(fams, cpx) by {
                if cpx < universe@[i as int] {
                    assert(map_lookup(ms@, cpx) == map_lookup(old_ms, cpx));
                } else if cpx == universe@[i as int] {
                    match owner {
                        Some(f) => {
                            let k = ms@.len() - 1;
                            assert(in_mapping(ms@[k], cpx));
                            lemma_map_lookup_hit(ms@, nfam as int, cpx, k);
                        },
                        None => {
                            assert(ms@ == old_ms);
                            assert forall|k: int| 0 <= k < ms@.len() implies !in_mapping(
                                #[trigger] ms@[k],
                                cpx,
                            ) by {
                                if k < ms@.len() - 1 {
                                    lemma_mappings_ordered(ms@, nfam as int, k, ms@.len() - 1);
                                }
                            }
                        },
                    }
                } else {
                    assert(!universe@.contains(cpx)) by {
                        if universe@.contains(cpx) {
                            let k = choose|k: int|
                                0 <= k < universe@.len() && universe@[k] == cpx;
                            if k <= i {
                                assert(universe@[k] <= universe@[i as int]);
                            } else {
                                assert(universe@[k] >= universe@[iplus as int]);
                            }
                        }
                    }
                    lemma_static_owner_uncovered(fams, cpx);
                    assert(map_lookup(ms@, cpx) is None) by {
                        assert forall|k: int| 0 <= k < ms@.len() implies !in_mapping(
                            #[trigger] ms@[k],
                            cpx,
                        ) by {
                            if k < ms@.len() - 1 {
                                lemma_mappings_ordered(ms@, nfam as int, k, ms@.len() - 1);
                            }
                        }
                    }
                }
            }
            if iplus < universe.len() {
                assert(universe@[i as int] < universe@[iplus as int]);
            }
        }
        i = i + 1;
    }
    ms
}

/// A codepoint no family covers has no static owner; one outside the covered
/// universe is not answered by an empty index either.
proof fn lemma_uncontained_unowned(fams: Seq<FamilyModel>, universe: Seq<u32>, cp: u32)
    requires
        ascending(universe),
        forall|x: u32| universe.contains(x) <==> exists|fk: int| coverer(fams, x, fk),
        0 < universe.len() ==> cp < universe[0],
    ensures
        static_owner(fams, cp) is None,
{
    assert(!universe.contains(cp)) by {
        if universe.contains(cp) {
            let k = choose|k: int| 0 <= k < universe.len() && universe[k] == cp;
            assert(universe[k] >= universe[0]);
        }
    }
    lemma_static_owner_uncovered(fams, cp);
}

/// Without any coverer there is no static owner.
proof fn lemma_static_owner_uncovered(fams: Seq<FamilyModel>, cp: u32)
    requires
        !(exists|fk: int| coverer(fams, cp, fk)),
    ensures
        static_owner(fams, cp) is None,
{
    if fams.len() > 0 && covers(fams[0], cp) {
        assert(coverer(fams, cp, 0));
    }
    if exists|j: int| sole_coverer(fams, cp, j) {
        let j = choose|j: int| sole_coverer(fams, cp, j);
        assert(coverer(fams, cp, j));
    }
}

/// Head-dominance: where the head family covers a codepoint, the codepoint
/// statically resolves to the head; every other coverer of that codepoint is
/// irrelevant, so any two lists sharing that head resolve it identically.
pub proof fn lemma_head_dominance(fams1: Seq<FamilyModel>, fams2: Seq<FamilyModel>, cp: u32)
    requires
        fams1.len() > 0,
        fams2.len() > 0,
        fams1[0] == fams2[0],
        covers(fams1[0], cp),
    ensures
        static_owner(fams1, cp) == Some(0int),
        static_owner(fams2, cp) == Some(0int),
{
}

/// Dropping the first range keeps an index well-formed.
proof fn lemma_drop_first_wf(ms: Seq<Mapping>, nfam: int)
    requires
        mappings_wf(ms, nfam),
        ms.len() > 0,
    ensures
        mappings_wf(ms.drop_first(), nfam),
{
    let t = ms.drop_first();
    assert(forall|k: int| 0 <= k < t.len() ==> t[k] == ms[k + 1]);
}

/// A codepoint outside the first range looks up in the rest of the index.
proof fn lemma_lookup_skip_head(ms: Seq<Mapping>, nfam: int, cp: u32)
    requires
        mappings_wf(ms, nfam),
        ms.len() > 0,
        !in_mapping(ms[0], cp),
    ensures
        map_lookup(ms, cp) == map_lookup(ms.drop_first(), cp),
{
    let t = ms.drop_first();
    lemma_drop_first_wf(ms, nfam);
    assert(forall|k: int| 0 <= k < t.len() ==> t[k] == ms[k + 1]);
    if exists|k: int| 0 <= k < t.len() && in_mapping(t[k], cp) {
        let k = choose|k: int| 0 <= k < t.len() && in_mapping(t[k], cp);
        lemma_map_lookup_hit(t, nfam, cp, k);
        lemma_map_lookup_hit(ms, nfam, cp, k + 1);
    } else {
        assert forall|k: int| 0 <= k < ms.len() implies !in_mapping(#[trigger] ms[k], cp) by {
            if k >= 1 {
                assert(t[k - 1] == ms[k]);
            }
        }
    }
}

/// The run-length encoding of a resolution is canonical: two well-formed
/// indexes that answer every single-codepoint lookup identically are the same
/// range sequence.
#[verifier::rlimit(60)]
pub proof fn lemma_index_canonical(ms1: Seq<Mapping>, ms2: Seq<Mapping>, nfam: int)
    requires
        mappings_wf(ms1, nfam),
        mappings_wf(ms2, nfam),
        forall|cp: u32| map_lookup(ms1, cp) == map_lookup(ms2, cp),
    ensures
        ms1 == ms2,
    decreases ms1.len(),
{
    if ms1.len() == 0 && ms2.len() == 0 {
        assert(ms1 =~= ms2);
    } else if ms1.len() == 0 {
        let cp = ms2[0].start;
        lemma_map_lookup_hit(ms2, nfam, cp, 0);
        assert(map_lookup(ms1, cp) is None);
        assert(false);
    } else if ms2.len() == 0 {
        let cp = ms1[0].start;
        lemma_map_lookup_hit(ms1, nfam, cp, 0);
        assert(map_lookup(ms2, cp) is None);
        assert(false);
    } else {
        let a = ms1[0];
        let b = ms2[0];
        lemma_heads_equal(ms1, ms2, nfam);
        lemma_heads_equal(ms2, ms1, nfam);
        assert(a == b);
        let t1 = ms1.drop_first();
        let t2 = ms2.drop_first();
        lemma_drop_first_wf(ms1, nfam);
        lemma_drop_first_wf(ms2, nfam);
        assert(forall|k: int| 0 <= k < t1.len() ==> t1[k] == ms1[k + 1]);
        assert(forall|k: int| 0 <= k < t2.len() ==> t2[k] == ms2[k + 1]);
        assert forall|cp: u32| map_lookup(t1, cp) == map_lookup(t2, cp) by {
            if in_mapping(a, cp) {
                assert forall|k: int| 0 <= k < t1.len() implies !in_mapping(
                    #[trigger] t1[k],
                    cp,
                ) by {
                    lemma_mappings_ordered(ms1, nfam, 0, k + 1);
                }
                assert forall|k: int| 0 <= k < t2.len() implies !in_mapping(
                    #[trigger] t2[k],
                    cp,
                ) by {
                    lemma_mappings_ordered(ms2, nfam, 0, k + 1);
                }
            } else {
                lemma_lookup_skip_head(ms1, nfam, cp);
                lemma_lookup_skip_head(ms2, nfam, cp);
            }
        }
        lemma_index_canonical(t1, t2, nfam);
        assert(ms1.len() == ms2.len());
        assert forall|k: int| 0 <= k < ms1.len() implies ms1[k] == ms2[k] by {
            if k > 0 {
                assert(t1[k - 1] == ms1[k]);
                assert(t2[k - 1] == ms2[k]);
            }
        }
        assert(ms1 =~= ms2);
    }
}

/// With equal lookups, the first range of one index starts no earlier, ends no
/// earlier and carries no other family than the other's; used symmetrically.
proof fn lemma_heads_equal(ms1: Seq<Mapping>, ms2: Seq<Mapping>, nfam: int)
    requires
        mappings_wf(ms1, nfam),
        mappings_wf(ms2, nfam),
        forall|cp: u32| map_lookup(ms1, cp) == map_lookup(ms2, cp),
        ms1.len() > 0,
        ms2.len() > 0,
    ensures
        ms2[0].start <= ms1[0].start,
        ms1[0].start == ms2[0].start ==> ms1[0].family == ms2[0].family && ms1[0].end
            <= ms2[0].end,
{
    let a = ms1[0];
    let b = ms2[0];
    if a.start < b.start {
        lemma_map_lookup_hit(ms1, nfam, a.start, 0);
        assert(map_lookup(ms2, a.start) is None) by {
            assert forall|k: int| 0 <= k < ms2.len() implies !in_mapping(
                #[trigger] ms2[k],
                a.start,
            ) by {
                if k > 0 {
                    lemma_mappings_ordered(ms2, nfam, 0, k);
                }
            }
        }
        assert(false);
    }
    if a.start == b.start {
        lemma_map_lookup_hit(ms1, nfam, a.start, 0);
        lemma_map_lookup_hit(ms2, nfam, b.start, 0);
        assert(a.family == b.family);
        if b.end < a.end {
            // the codepoint just past b's end: a still holds it, so the other
            // index must answer with an adjacent range, which maximality
            // forbids carrying the same family
            let cp = (b.end + 1) as u32;
            assert(in_mapping(a, cp));
            lemma_map_lookup_hit(ms1, nfam, cp, 0);
            assert(map_lookup(ms2, cp) == Some(a.family as int));
            assert(exists|k: int| 0 <= k < ms2.len() && in_mapping(ms2[k], cp));
            let k = choose|k: int| 0 <= k < ms2.len() && in_mapping(#[trigger] ms2[k], cp);
            lemma_map_lookup_hit(ms2, nfam, cp, k);
            assert(k >= 1);
            assert(ms2[1].start > b.end);
            assert(ms2[k].start <= cp);
            if k > 1 {
                lemma_mappings_ordered(ms2, nfam, 1, k);
                assert(ms2[1].start <= ms2[1].end);
                assert(false);
            }
            assert(k == 1);
            assert(b.end + 1 == ms2[1].start);
            assert(ms2[1].family != b.family);
            assert(false);
        }
    }
}

/// Binary search of the static index, as the itemizer's fast path uses it.
pub(crate) fn map_search(ms: &Vec<Mapping>, nfam: usize, cp: u32) -> (r: Option<usize>)
    requires
        mappings_wf(ms@, nfam as int),
    ensures
        r matches Some(i) ==> Some(i as int) == map_lookup(ms@, cp) && i < nfam,
        r is None ==> map_lookup(ms@, cp) is None,
{
    let mut lo: usize = 0;
    let mut hi: usize = ms.len();
    while lo < hi
        invariant
            mappings_wf(ms@, nfam as int),
            lo <= hi <= ms@.len(),
            forall|k: int| 0 <= k < lo ==> (#[trigger] ms@[k]).end < cp,
            forall|k: int| hi <= k < ms@.len() ==> (#[trigger] ms@[k]).start > cp,
        decreases hi - lo,
    {
        let mid = lo + (hi - lo) / 2;
        let m = ms[mid];
        if m.end < cp {
            proof {
                assert forall|k: int| 0 <= k < mid + 1 implies (#[trigger] ms@[k]).end < cp by {
                    if k < mid {
                        lemma_mappings_ordered(ms@, nfam as int, k, mid as int);
                    }
                }
            }
            lo = mid + 1;
        } else if m.start > cp {
            proof {
                assert forall|k: int| mid <= k < ms@.len() implies (#[trigger] ms@[k]).start
                    > cp by {
                    if k > mid {
                        lemma_mappings_ordered(ms@, nfam as int, mid as int, k);
                    }
                }
            }
            hi = mid;
        } else {
            proof {
                lemma_map_lookup_hit(ms@, nfam as int, cp, mid as int);
            }
            return Some(m.family);
        }
    }
    proof {
        assert forall|k: int| 0 <= k < ms@.len() implies !in_mapping(#[trigger] ms@[k], cp) by {}
    }
    None
}

} // verus!
