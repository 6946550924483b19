//! Scoring of a family against one grapheme cluster, and the priority scan
//! that picks the best family when the static index does not resolve it.
//!
//! Only three score tiers exist: reject (`i32::MIN`), plain support (`0`) and
//! exact language match (`i32::MAX`). A family is eligible for a cluster iff
//! its score exceeds `i32::MIN`.

use vstd::prelude::*;

use crate::family::{covers, Family, FamilyModel};

verus! {

/// Variation selector 16, exempted from coverage checks when scoring.
pub const VARIATION_SELECTOR: u32 = 0xFE0F;

/// The views of an ordered family list.
pub open spec fn views_of(fams: Seq<Family>) -> Seq<FamilyModel> {
    fams.map_values(|f: Family| f@)
}

/// A family is eligible for a cluster iff it covers every codepoint of the
/// cluster, the variation selector excepted.
pub open spec fn eligible(f: FamilyModel, cps: Seq<u32>) -> bool {
    forall|k: int| 0 <= k < cps.len() && cps[k] != VARIATION_SELECTOR ==> covers(f, cps[k])
}

/// The family's language tag equals the requested language exactly.
pub open spec fn lang_matches(f: FamilyModel, lang: Seq<char>) -> bool {
    f.lang == Some(lang)
}

/// The scoring function: reject, plain support, or exact language match.
pub open spec fn score_spec(f: FamilyModel, lang: Seq<char>, cps: Seq<u32>) -> int {
    if !eligible(f, cps) {
        i32::MIN as int
    } else if lang_matches(f, lang) {
        i32::MAX as int
    } else {
        0
    }
}

/// Index of the first family at or after `i` that is eligible and whose
/// language tag matches, if any.
pub open spec fn first_lang_match_from(
    fams: Seq<FamilyModel>,
    lang: Seq<char>,
    cps: Seq<u32>,
    i: int,
) -> Option<int>
    decreases fams.len() - i,
{
    if i < 0 || i >= fams.len() {
        None
    } else if eligible(fams[i], cps) && lang_matches(fams[i], lang) {
        Some(i)
    } else {
        first_lang_match_from(fams, lang, cps, i + 1)
    }
}

/// Index of the first family at or after `i` that is eligible, if any.
pub open spec fn first_eligible_from(
    fams: Seq<FamilyModel>,
    lang: Seq<char>,
    cps: Seq<u32>,
    i: int,
) -> Option<int>
    decreases fams.len() - i,
{
    if i < 0 || i >= fams.len() {
        None
    } else if eligible(fams[i], cps) {
        Some(i)
    } else {
        first_eligible_from(fams, lang, cps, i + 1)
    }
}

/// The family the priority scan selects for a cluster: the first family with
/// an exact language match, else the first eligible family, else none.
pub open spec fn selected_family(
    fams: Seq<FamilyModel>,
    lang: Seq<char>,
    cps: Seq<u32>,
) -> Option<int> {
    match first_lang_match_from(fams, lang, cps, 0) {
        Some(i) => Some(i),
        None => first_eligible_from(fams, lang, cps, 0),
    }
}

proof fn lemma_first_lang_match_none(fams: Seq<FamilyModel>, lang: Seq<char>, cps: Seq<u32>, i: int)
    requires
        forall|k: int|
            i <= k < fams.len() ==> !(eligible(#[trigger] fams[k], cps) && lang_matches(
                fams[k],
                lang,
            )),
    ensures
        first_lang_match_from(fams, lang, cps, i) is None,
    decreases fams.len() - i,
{
    if 0 <= i < fams.len() {
        lemma_first_lang_match_none(fams, lang, cps, i + 1);
    }
}

proof fn lemma_first_lang_match_some(
    fams: Seq<FamilyModel>,
    lang: Seq<char>,
    cps: Seq<u32>,
    i: int,
    w: int,
)
    requires
        0 <= i <= w < fams.len(),
        eligible(fams[w], cps) && lang_matches(fams[w], lang),
        forall|k: int|
            i <= k < w ==> !(eligible(#[trigger] fams[k], cps) && lang_matches(fams[k], lang)),
    ensures
        first_lang_match_from(fams, lang, cps, i) == Some(w),
    decreases w - i,
{
    if i < w {
        lemma_first_lang_match_some(fams, lang, cps, i + 1, w);
    }
}

proof fn lemma_first_eligible_none(fams: Seq<FamilyModel>, lang: Seq<char>, cps: Seq<u32>, i: int)
    requires
        forall|k: int| i <= k < fams.len() ==> !eligible(#[trigger] fams[k], cps),
    ensures
        first_eligible_from(fams, lang, cps, i) is None,
    decreases fams.len() - i,
{
    if 0 <= i < fams.len() {
        lemma_first_eligible_none(fams, lang, cps, i + 1);
    }
}

proof fn lemma_first_eligible_some(
    fams: Seq<FamilyModel>,
    lang: Seq<char>,
    cps: Seq<u32>,
    i: int,
    w: int,
)
    requires
        0 <= i <= w < fams.len(),
        eligible(fams[w], cps),
        forall|k: int| i <= k < w ==> !eligible(#[trigger] fams[k], cps),
    ensures
        first_eligible_from(fams, lang, cps, i) == Some(w),
    decreases w - i,
{
    if i < w {
        lemma_first_eligible_some(fams, lang, cps, i + 1, w);
    }
}

/// Computes the score of one family for one cluster, given as its codepoints.
pub fn score(family: &Family, lang: &str, cps: &Vec<u32>) -> (r: i32)
    ensures
        r as int == score_spec(family@, lang@, cps@),
{
    let mut i: usize = 0;
    while i < cps.len()
        invariant
            i <= cps.len(),
            forall|k: int|
                0 <= k < i && cps@[k] != VARIATION_SELECTOR ==> covers(family@, #[trigger] cps@[k]),
        decreases cps.len() - i,
    {
        let cp = cps[i];
        if cp != VARIATION_SELECTOR && !family.contains(cp) {
            return i32::MIN;
        }
        i = i + 1;
    }
    match &family.lang {
        None => 0,
        Some(l) => {
            let requested = lang.to_owned();
            if *l == requested {
                i32::MAX
            } else {
                0
            }
        },
    }
}

/// The priority scan of §itemization: walks the chain head-first, tracks the
/// best score, and stops early on an exact language match, which nothing can
/// beat. Returns the selected family's index, or `None` when every family
/// rejects the cluster.
pub fn select_family(families: &Vec<Family>, lang: &str, cps: &Vec<u32>) -> (r: Option<usize>)
    requires
        families.len() > 0,
    ensures
        r matches Some(i) ==> Some(i as int) == selected_family(views_of(families@), lang@, cps@),
        r is None ==> selected_family(views_of(families@), lang@, cps@) is None,
{
    let ghost fams = views_of(families@);
    let mut winner: usize = 0;
    let mut wscore: i32 = score(&families[0], lang, cps);
    let mut j: usize = 1;
    while j < families.len() && wscore != i32::MAX
        invariant
            families.len() > 0,
            fams == views_of(families@),
            fams.len() == families.len(),
            0 <= winner < j <= families.len(),
            wscore as int == score_spec(fams[winner as int], lang@, cps@),
            forall|k: int| 0 <= k < j ==> score_spec(#[trigger] fams[k], lang@, cps@) <= wscore,
            forall|k: int| 0 <= k < winner ==> score_spec(#[trigger] fams[k], lang@, cps@) < wscore,
        decreases families.len() - j,
    {
        assert(fams[j as int] == families@[j as int]@);
        let s = score(&families[j], lang, cps);
        if s > wscore {
            winner = j;
            wscore = s;
        }
        j = j + 1;
    }
    proof {
        assert(forall|k: int|
            0 <= k < fams.len() ==> score_spec(#[trigger] fams[k], lang@, cps@) <= i32::MAX);
        if wscore != i32::MAX {
            assert(j == families.len());
        }
        assert(forall|k: int|
            0 <= k < fams.len() ==> score_spec(#[trigger] fams[k], lang@, cps@) == i32::MIN as int
                || score_spec(fams[k], lang@, cps@) == 0 || score_spec(fams[k], lang@, cps@)
                == i32::MAX as int);
    }
    if wscore == i32::MIN {
        proof {
            lemma_first_lang_match_none(fams, lang@, cps@, 0);
            lemma_first_eligible_none(fams, lang@, cps@, 0);
        }
        None
    } else if wscore == i32::MAX {
        proof {
            lemma_first_lang_match_some(fams, lang@, cps@, 0, winner as int);
        }
        Some(winner)
    } else {
        proof {
            lemma_first_lang_match_none(fams, lang@, cps@, 0);
            lemma_first_eligible_some(fams, lang@, cps@, 0, winner as int);
        }
        Some(winner)
    }
}

} // verus!
