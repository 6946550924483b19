use itemizer::{graphemes, Cluster, FallbackChain, Family, Gap, Run};

#[test]
fn graphemes_split_text_into_clusters() {
    let cs = graphemes("Hello \u{1F5FA}");
    // six one-byte clusters, then the four-byte map emoji
    assert_eq!(cs.len(), 7);
    assert_eq!((cs[0].start, cs[0].end), (0, 1));
    assert_eq!(cs[0].codepoints, vec![0x48]);
    assert_eq!((cs[6].start, cs[6].end), (6, 10));
    assert_eq!(cs[6].codepoints, vec![0x1F5FA]);
}

#[test]
fn graphemes_keep_combining_marks_with_their_base() {
    let cs = graphemes("a\u{301}b");
    assert_eq!(cs.len(), 2);
    assert_eq!((cs[0].start, cs[0].end), (0, 3));
    assert_eq!(cs[0].codepoints, vec![0x61, 0x301]);
    assert_eq!((cs[1].start, cs[1].end), (3, 4));
}

#[test]
fn graphemes_of_empty_text_are_empty() {
    assert!(graphemes("").is_empty());
}

#[test]
fn itemize_clusters_skips_empty_clusters() {
    let chain =
        FallbackChain::for_fonts("sans", vec![Family::new("A".to_string(), None, vec![0x41])])
            .unwrap();
    let clusters = vec![
        Cluster { start: 0, end: 1, codepoints: vec![0x41] },
        Cluster { start: 1, end: 1, codepoints: vec![] },
        Cluster { start: 1, end: 2, codepoints: vec![0x41] },
    ];
    let mut dest = Vec::new();
    let gaps = chain.itemize_clusters(&clusters, "", &mut dest);
    assert_eq!(dest, vec![Run { family: 0, start: 0, end: 2 }]);
    assert!(gaps.is_empty());
}

#[test]
fn itemize_clusters_reports_unresolved_clusters_unmerged() {
    let chain =
        FallbackChain::for_fonts("sans", vec![Family::new("A".to_string(), None, vec![0x41])])
            .unwrap();
    let clusters = vec![
        Cluster { start: 0, end: 1, codepoints: vec![0x5A] },
        Cluster { start: 1, end: 2, codepoints: vec![0x5A] },
    ];
    let mut dest = Vec::new();
    let gaps = chain.itemize_clusters(&clusters, "", &mut dest);
    assert!(dest.is_empty());
    assert_eq!(gaps, vec![Gap { start: 0, end: 1 }, Gap { start: 1, end: 2 }]);
}
