use itemizer::{Error, FallbackChain, Family, Gap, Run};

fn fam(name: &str, lang: Option<&str>, cps: &[u32]) -> Family {
    Family::new(name.to_string(), lang.map(|s| s.to_string()), cps.to_vec())
}

fn runs_of(chain: &FallbackChain, text: &str, lang: &str) -> (Vec<Run>, Vec<Gap>) {
    let mut dest = Vec::new();
    let gaps = chain.itemize(text, lang, &mut dest);
    (dest, gaps)
}

#[test]
fn single_family_single_letter() {
    let chain = FallbackChain::for_fonts("sans", vec![fam("A", None, &[0x41])]).unwrap();
    let (runs, gaps) = runs_of(&chain, "A", "");
    assert_eq!(runs, vec![Run { family: 0, start: 0, end: 1 }]);
    assert!(gaps.is_empty());
}

#[test]
fn head_dominance_wins_over_language_match() {
    // both families cover U+3042; the head covers it, so the static index
    // resolves it to the head whatever language is asked for
    let chain = FallbackChain::for_fonts(
        "sans",
        vec![fam("A", Some("ja"), &[0x3042]), fam("B", Some("ko"), &[0x3042])],
    )
    .unwrap();
    assert_eq!(chain.lookup(0x3042), Some(0));
    let (runs, _) = runs_of(&chain, "\u{3042}", "ko");
    assert_eq!(runs, vec![Run { family: 0, start: 0, end: 3 }]);
}

#[test]
fn language_preference_breaks_ties() {
    // the head does not cover U+3042, and two tagged families compete for it,
    // so the codepoint stays out of the static index and the scorer decides
    let chain = FallbackChain::for_fonts(
        "sans",
        vec![
            fam("H", None, &[0x41]),
            fam("A", Some("ja"), &[0x3042]),
            fam("B", Some("ko"), &[0x3042]),
        ],
    )
    .unwrap();
    assert_eq!(chain.lookup(0x3042), None);
    let (runs, _) = runs_of(&chain, "\u{3042}", "ko");
    assert_eq!(runs, vec![Run { family: 2, start: 0, end: 3 }]);
    // with no language match, the first family with plain support wins
    let (runs, _) = runs_of(&chain, "\u{3042}", "fr");
    assert_eq!(runs, vec![Run { family: 1, start: 0, end: 3 }]);
}

#[test]
fn combining_mark_needs_full_coverage() {
    // "a" + U+0301 is one grapheme cluster; Y covers only the base and must
    // be rejected even though it is first in the chain
    let chain = FallbackChain::for_fonts(
        "sans",
        vec![fam("Y", None, &[0x61]), fam("X", None, &[0x61, 0x301])],
    )
    .unwrap();
    let (runs, gaps) = runs_of(&chain, "a\u{301}", "");
    assert_eq!(runs, vec![Run { family: 1, start: 0, end: 3 }]);
    assert!(gaps.is_empty());
}

#[test]
fn variation_selector_is_exempt_from_coverage() {
    // a family covering only "x" must take "x"+VS16; a family covering only
    // VS16 must not become eligible through it
    let chain = FallbackChain::for_fonts(
        "sans",
        vec![fam("VS", None, &[0xFE0F]), fam("X", None, &[0x78])],
    )
    .unwrap();
    let (runs, gaps) = runs_of(&chain, "x\u{FE0F}", "");
    assert_eq!(runs, vec![Run { family: 1, start: 0, end: 4 }]);
    assert!(gaps.is_empty());
}

#[test]
fn adjacent_same_family_clusters_merge() {
    let chain = FallbackChain::for_fonts("sans", vec![fam("A", None, &[0x61, 0x62])]).unwrap();
    let (runs, gaps) = runs_of(&chain, "ab", "");
    assert_eq!(runs, vec![Run { family: 0, start: 0, end: 2 }]);
    assert!(gaps.is_empty());
}

#[test]
fn family_change_breaks_run_at_cluster_boundary() {
    let chain = FallbackChain::for_fonts(
        "sans",
        vec![fam("A", None, &[0x61]), fam("B", None, &[0x62])],
    )
    .unwrap();
    let (runs, _) = runs_of(&chain, "ab", "");
    assert_eq!(
        runs,
        vec![Run { family: 0, start: 0, end: 1 }, Run { family: 1, start: 1, end: 2 }]
    );
}

#[test]
fn unsupported_cluster_is_an_observable_gap() {
    let chain = FallbackChain::for_fonts("sans", vec![fam("A", None, &[0x41])]).unwrap();
    let (runs, gaps) = runs_of(&chain, "AzA", "");
    assert_eq!(
        runs,
        vec![Run { family: 0, start: 0, end: 1 }, Run { family: 0, start: 2, end: 3 }]
    );
    assert_eq!(gaps, vec![Gap { start: 1, end: 2 }]);
}

#[test]
fn runs_and_gaps_partition_the_text() {
    let chain = FallbackChain::for_fonts(
        "sans",
        vec![fam("A", None, &[0x61, 0x62]), fam("B", Some("ja"), &[0x63])],
    )
    .unwrap();
    let text = "azbca\u{3042}";
    let (runs, gaps) = runs_of(&chain, text, "ja");
    let mut spans: Vec<(usize, usize)> = Vec::new();
    for r in &runs {
        spans.push((r.start, r.end));
    }
    for g in &gaps {
        spans.push((g.start, g.end));
    }
    spans.sort();
    let mut at = 0;
    for (s, e) in spans {
        assert_eq!(s, at);
        assert!(s < e);
        at = e;
    }
    assert_eq!(at, text.len());
}

#[test]
fn no_two_touching_runs_share_a_family() {
    let chain = FallbackChain::for_fonts(
        "sans",
        vec![fam("A", None, &[0x61, 0x62]), fam("B", None, &[0x63])],
    )
    .unwrap();
    let (runs, _) = runs_of(&chain, "abcab", "");
    for w in runs.windows(2) {
        if w[0].end == w[1].start {
            assert_ne!(w[0].family, w[1].family);
        }
    }
}

#[test]
fn itemize_is_deterministic() {
    let chain = FallbackChain::for_fonts(
        "sans",
        vec![fam("A", Some("ja"), &[0x61, 0x3042]), fam("B", None, &[0x62])],
    )
    .unwrap();
    let text = "ab\u{3042}zz";
    let first = runs_of(&chain, text, "ja");
    let second = runs_of(&chain, text, "ja");
    assert_eq!(first, second);
}

#[test]
fn construction_is_idempotent_for_lookups() {
    let families = vec![
        fam("A", None, &[5, 6, 7, 100]),
        fam("B", Some("ja"), &[9, 100, 101]),
        fam("C", Some("ko"), &[101]),
    ];
    let c1 = FallbackChain::for_fonts("sans", families.clone()).unwrap();
    let c2 = FallbackChain::for_fonts("sans", families).unwrap();
    for cp in 0u32..300 {
        assert_eq!(c1.lookup(cp), c2.lookup(cp));
    }
}

#[test]
fn static_index_classification() {
    let chain = FallbackChain::for_fonts(
        "sans",
        vec![
            fam("head", None, &[5, 6, 7, 50]),
            fam("solo", None, &[9]),
            fam("ja", Some("ja"), &[50, 60, 70]),
            fam("ko", Some("ko"), &[60]),
            fam("plain1", None, &[70, 80]),
            fam("plain2", None, &[80]),
        ],
    )
    .unwrap();
    // a range of codepoints only the head covers
    assert_eq!(chain.lookup(5), Some(0));
    assert_eq!(chain.lookup(6), Some(0));
    assert_eq!(chain.lookup(7), Some(0));
    // a sole coverer other than the head
    assert_eq!(chain.lookup(9), Some(1));
    // covered by the head and another family: the head wins
    assert_eq!(chain.lookup(50), Some(0));
    // two coverers, a language tag among them: deferred to the scorer
    assert_eq!(chain.lookup(60), None);
    assert_eq!(chain.lookup(70), None);
    // two coverers, no language signal: also deferred
    assert_eq!(chain.lookup(80), None);
    // not covered at all
    assert_eq!(chain.lookup(8), None);
    assert_eq!(chain.lookup(1000), None);
}

#[test]
fn empty_family_list_is_refused() {
    match FallbackChain::for_fonts("sans", Vec::new()) {
        Err(Error::NoFamilies) => {}
        other => panic!("unexpected: {:?}", other.map(|_| ())),
    }
}

#[test]
fn first_empty_coverage_is_named() {
    let families = vec![fam("A", None, &[0x41]), fam("B", None, &[]), fam("C", None, &[])];
    match FallbackChain::for_fonts("sans", families) {
        Err(Error::EmptyCoverage { family }) => assert_eq!(family, 1),
        other => panic!("unexpected: {:?}", other.map(|_| ())),
    }
}

#[test]
fn empty_text_yields_nothing() {
    let chain = FallbackChain::for_fonts("sans", vec![fam("A", None, &[0x41])]).unwrap();
    let (runs, gaps) = runs_of(&chain, "", "");
    assert!(runs.is_empty());
    assert!(gaps.is_empty());
}

#[test]
fn chain_reports_name_and_families() {
    let chain = FallbackChain::for_fonts(
        "serif",
        vec![fam("A", None, &[0x41]), fam("B", Some("ja"), &[0x42])],
    )
    .unwrap();
    assert_eq!(chain.name(), "serif");
    assert_eq!(chain.len(), 2);
    assert_eq!(chain.family(1).name, "B");
    assert_eq!(chain.family(1).lang.as_deref(), Some("ja"));
}

#[test]
fn score_tiers() {
    let a = fam("A", Some("ja"), &[0x61, 0x62]);
    // full support, exact language match
    assert_eq!(itemizer::select::score(&a, "ja", &vec![0x61, 0x62]), i32::MAX);
    // full support, no language match
    assert_eq!(itemizer::select::score(&a, "ko", &vec![0x61]), 0);
    // a missing codepoint rejects
    assert_eq!(itemizer::select::score(&a, "ja", &vec![0x61, 0x7A]), i32::MIN);
    // the variation selector is exempt
    assert_eq!(itemizer::select::score(&a, "ko", &vec![0x61, 0xFE0F]), 0);
}
