use itemizer::fonts_xml::{
    best_font, googlefonts_adjust, optional_number, optional_string, Entry, Familyset,
    FamilysetBuilder, Font, Style, Variant, XmlEvent,
};
use itemizer::Error;

#[test]
fn optional_number_reads_decimals() {
    assert_eq!(optional_number(b""), None);
    assert_eq!(optional_number(b"123"), Some(123));
    assert_eq!(optional_number(b"-45"), Some(-45));
    assert_eq!(optional_number(b"+7"), Some(7));
    assert_eq!(optional_number(b"007"), Some(7));
    assert_eq!(optional_number(b"0"), Some(0));
}

#[test]
fn optional_number_handles_the_limits() {
    assert_eq!(optional_number(b"2147483647"), Some(i32::MAX));
    assert_eq!(optional_number(b"2147483648"), None);
    assert_eq!(optional_number(b"-2147483648"), Some(i32::MIN));
    assert_eq!(optional_number(b"-2147483649"), None);
    assert_eq!(optional_number(b"99999999999999999999"), None);
}

#[test]
fn optional_number_refuses_junk() {
    assert_eq!(optional_number(b"12a"), None);
    assert_eq!(optional_number(b"a12"), None);
    assert_eq!(optional_number(b"-"), None);
    assert_eq!(optional_number(b"+"), None);
    assert_eq!(optional_number(b"1.5"), None);
    assert_eq!(optional_number(b" 1"), None);
}

#[test]
fn optional_string_reads_text() {
    assert_eq!(optional_string(b""), None);
    assert_eq!(optional_string(b"abc"), Some("abc".to_string()));
    assert_eq!(optional_string("caf\u{e9}".as_bytes()), Some("caf\u{e9}".to_string()));
    assert_eq!(optional_string(&[0xff, 0xfe]), None);
}

const MANIFEST: &str = r#"<?xml version="1.0" encoding="utf-8"?>
<familyset>
    <family name="sans-serif">
        <font weight="400" style="normal">Roboto-Regular.ttf</font>
        <font weight="700" style="italic">Roboto-BoldItalic.ttf</font>
    </family>
    <family lang="ja" variant="compact">
        <font weight="400" style="normal" index="2" postScriptName="NotoSansCJKjp-Regular">NotoSansCJK-Regular.ttc</font>
    </family>
    <alias name="arial" to="sans-serif" weight="400"/>
</familyset>
"#;

#[test]
fn manifest_round_trip() {
    let set = Familyset::from_fonts_xml(MANIFEST).unwrap();
    assert_eq!(set.0.len(), 3);
    let fallbacks = set.fallbacks();
    assert_eq!(fallbacks.len(), 2);

    let sans = set.named("sans-serif").expect("sans-serif exists");
    assert_eq!(sans.fonts.len(), 2);
    assert_eq!(sans.fonts[0].weight, 400);
    assert_eq!(sans.fonts[0].style, Style::Normal);
    assert_eq!(sans.fonts[0].filename, "Roboto-Regular.ttf");
    assert_eq!(sans.fonts[1].weight, 700);
    assert_eq!(sans.fonts[1].style, Style::Italic);
    assert!(matches!(sans.variant, Variant::Default));

    let ja = &fallbacks[1];
    assert_eq!(ja.lang.as_deref(), Some("ja"));
    assert!(matches!(ja.variant, Variant::Compact));
    assert_eq!(ja.fonts[0].index, Some(2));
    assert_eq!(ja.fonts[0].post_script_name.as_deref(), Some("NotoSansCJKjp-Regular"));
    assert_eq!(ja.fonts[0].filename, "NotoSansCJK-Regular.ttc");

    match &set.0[2] {
        Entry::Alias(a) => {
            assert_eq!(a.name.as_deref(), Some("arial"));
            assert_eq!(a.to.as_deref(), Some("sans-serif"));
            assert_eq!(a.weight, Some(400));
        }
        other => panic!("expected an alias, got {:?}", other),
    }
}

#[test]
fn named_misses_are_none() {
    let set = Familyset::from_fonts_xml(MANIFEST).unwrap();
    assert!(set.named("does-not-exist").is_none());
    // fallback families without a name attribute are not found by name
    assert!(set.named("ja").is_none());
}

#[test]
fn unknown_element_is_refused() {
    let doc = "<familyset><wombat/></familyset>";
    assert_eq!(Familyset::from_fonts_xml(doc).unwrap_err(), Error::MalformedManifest);
}

#[test]
fn second_familyset_is_refused() {
    let doc = "<familyset></familyset><familyset></familyset>";
    assert_eq!(Familyset::from_fonts_xml(doc).unwrap_err(), Error::MalformedManifest);
}

#[test]
fn bad_font_weight_is_refused() {
    let doc = r#"<familyset><family><font weight="heavy">F.ttf</font></family></familyset>"#;
    assert_eq!(Familyset::from_fonts_xml(doc).unwrap_err(), Error::MalformedManifest);
}

#[test]
fn unknown_font_attribute_is_refused() {
    let doc = r#"<familyset><family><font weight="400" wobble="1">F.ttf</font></family></familyset>"#;
    assert_eq!(Familyset::from_fonts_xml(doc).unwrap_err(), Error::MalformedManifest);
}

#[test]
fn unknown_variant_is_refused() {
    let doc = r#"<familyset><family variant="giant"/></familyset>"#;
    assert_eq!(Familyset::from_fonts_xml(doc).unwrap_err(), Error::MalformedManifest);
}

#[test]
fn unknown_family_attribute_is_ignored() {
    let doc = r#"<familyset><family wobble="1" name="x"/></familyset>"#;
    let set = Familyset::from_fonts_xml(doc).unwrap();
    assert!(set.named("x").is_some());
}

#[test]
fn ignored_families_leave_the_fallback_chain() {
    let doc = r#"<familyset>
        <family name="a"><font weight="400">A.ttf</font></family>
        <family name="b" ignore="true"><font weight="400">B.ttf</font></family>
        <family name="c" ignore="false"><font weight="400">C.ttf</font></family>
    </familyset>"#;
    let set = Familyset::from_fonts_xml(doc).unwrap();
    let fallbacks = set.fallbacks();
    assert_eq!(fallbacks.len(), 2);
    assert_eq!(fallbacks[0].name.as_deref(), Some("a"));
    assert_eq!(fallbacks[1].name.as_deref(), Some("c"));
    // an ignored family is still in the set and still found by name
    assert_eq!(set.0.len(), 3);
    assert!(set.named("b").is_some());
    assert!(set.named("b").unwrap().ignore);
}

#[test]
fn entity_references_in_font_text_are_resolved() {
    let doc = r#"<familyset><family><font weight="400">A&amp;B&#45;C&#x2D;D.ttf</font></family></familyset>"#;
    let set = Familyset::from_fonts_xml(doc).unwrap();
    let fallbacks = set.fallbacks();
    assert_eq!(fallbacks[0].fonts[0].filename, "A&B-C-D.ttf");
}

#[test]
fn unknown_entity_in_font_text_is_refused() {
    let doc = r#"<familyset><family><font weight="400">A&wombat;B.ttf</font></family></familyset>"#;
    assert_eq!(Familyset::from_fonts_xml(doc).unwrap_err(), Error::MalformedManifest);
}

#[test]
fn references_outside_a_font_are_ignored() {
    let doc = r#"<familyset><family name="x">&amp;</family></familyset>"#;
    let set = Familyset::from_fonts_xml(doc).unwrap();
    assert!(set.named("x").is_some());
}

#[test]
fn builder_refuses_non_utf8_string_attributes() {
    let mut b = FamilysetBuilder::new();
    let r = b.step(&XmlEvent::Open {
        name: "family".to_string(),
        attrs: vec![("name".to_string(), vec![0xff, 0xfe])],
    });
    assert_eq!(r, Err(Error::MalformedManifest));
}

fn plain_font(weight: i32, style: Style, fallback_for: Option<&str>) -> Font {
    Font {
        weight,
        index: None,
        filename: "F.ttf".to_string(),
        style,
        fallback_for: fallback_for.map(|s| s.to_string()),
        post_script_name: None,
    }
}

#[test]
fn best_font_prefers_fallback_name_then_upright_then_weight() {
    let fonts = vec![
        plain_font(400, Style::Normal, Some("serif")),
        plain_font(700, Style::Italic, None),
        plain_font(700, Style::Normal, None),
        plain_font(400, Style::Normal, Some("sans-serif")),
        plain_font(300, Style::Normal, Some("sans-serif")),
    ];
    // the exact fallback name wins over everything; 400 beats 300; the first
    // of equally unwanted fonts wins
    assert_eq!(best_font(&fonts, "sans-serif"), Some(3));
    assert_eq!(best_font(&Vec::new(), "sans-serif"), None);
    let tie = vec![plain_font(400, Style::Normal, None), plain_font(400, Style::Normal, None)];
    assert_eq!(best_font(&tie, "sans-serif"), Some(0));
}

#[test]
fn googlefonts_adjustment_drops_flag_emoji_and_splits_cjk() {
    let doc = r#"<familyset>
        <family name="emoji-flags"><font weight="400">NotoColorEmojiFlags.ttf</font></family>
        <family lang="ja"><font weight="400" index="2">NotoSansCJK-Regular.ttc</font></family>
        <family lang="ko"><font weight="400" index="1">NotoSerifCJK-Regular.ttc</font></family>
        <family name="plain"><font weight="400">Roboto-Regular.ttf</font></family>
    </familyset>"#;
    let set = googlefonts_adjust(Familyset::from_fonts_xml(doc).unwrap());
    assert_eq!(set.0.len(), 3);
    let fallbacks = set.fallbacks();
    assert_eq!(fallbacks[0].fonts[0].filename, "NotoSansJP.ttf");
    assert_eq!(fallbacks[0].fonts[0].index, None);
    assert_eq!(
        fallbacks[0].fonts[0].post_script_name.as_deref(),
        Some("Noto Sans JP.ttf")
    );
    assert_eq!(fallbacks[1].fonts[0].filename, "NotoSerifKR.ttf");
    assert_eq!(fallbacks[2].fonts[0].filename, "Roboto-Regular.ttf");
}

#[test]
fn axis_elements_are_ignored() {
    let doc = r#"<familyset><family><font weight="400"><axis tag="wght" stylevalue="400"/>F.ttf</font></family></familyset>"#;
    let set = Familyset::from_fonts_xml(doc).unwrap();
    let fallbacks = set.fallbacks();
    assert_eq!(fallbacks[0].fonts[0].filename, "F.ttf");
}

#[test]
fn font_outside_family_is_refused() {
    let doc = r#"<familyset><alias name="a"/><font weight="400">F.ttf</font></familyset>"#;
    assert_eq!(Familyset::from_fonts_xml(doc).unwrap_err(), Error::MalformedManifest);
}

#[test]
fn builder_appends_text_to_the_pending_font() {
    let mut b = FamilysetBuilder::new();
    b.step(&XmlEvent::Open { name: "familyset".to_string(), attrs: vec![] }).unwrap();
    b.step(&XmlEvent::Open { name: "family".to_string(), attrs: vec![] }).unwrap();
    b.step(&XmlEvent::Open {
        name: "font".to_string(),
        attrs: vec![("weight".to_string(), b"400".to_vec())],
    })
    .unwrap();
    b.step(&XmlEvent::Text { text: "Half".to_string() }).unwrap();
    b.step(&XmlEvent::Text { text: "Name.ttf".to_string() }).unwrap();
    b.step(&XmlEvent::Close { name: "font".to_string() }).unwrap();
    let set = b.finish();
    let fallbacks = set.fallbacks();
    assert_eq!(fallbacks[0].fonts[0].filename, "HalfName.ttf");
    assert_eq!(fallbacks[0].fonts[0].weight, 400);
}

#[test]
fn later_attributes_override_earlier_ones() {
    let mut b = FamilysetBuilder::new();
    b.step(&XmlEvent::Open {
        name: "family".to_string(),
        attrs: vec![
            ("name".to_string(), b"first".to_vec()),
            ("name".to_string(), b"second".to_vec()),
        ],
    })
    .unwrap();
    let set = b.finish();
    assert!(set.named("second").is_some());
    assert!(set.named("first").is_none());
}
