//! The font-fallback manifest model: the family set a fonts.xml-style manifest
//! describes, with the decoded attribute values the entries carry.
//!
//! The manifest is a data source for the core: an ordered list of families,
//! each with its fonts and an optional language tag. The XML reader itself is
//! an outside crate; [`FamilysetBuilder`] interprets its events, so every
//! structural rule of the manifest is verified here for every event sequence.

use vstd::prelude::*;

use vstd::slice::slice_index_get;
use vstd::utf8::{decode_utf8, valid_utf8};

use quick_xml::events::Event;

use crate::error::Error;

verus! {

/// A whole manifest: its entries in document order.
#[derive(Debug, Clone)]
pub struct Familyset(pub Vec<Entry>);

/// One top-level manifest entry.
#[derive(Debug, Clone)]
pub enum Entry {
    Alias(Alias),
    Family(Family),
}

/// An alias entry: an alternative name for a family, at an optional weight.
#[derive(Debug, Clone, PartialEq)]
pub struct Alias {
    pub name: Option<String>,
    pub to: Option<String>,
    pub weight: Option<i32>,
}

/// A font's style.
#[derive(Default, Debug, Clone, PartialEq, Eq, Structural)]
pub enum Style {
    #[default]
    Normal,
    Italic,
}

/// A family's presentation variant.
#[derive(Default, Debug, Clone, PartialEq, Eq, Structural)]
pub enum Variant {
    #[default]
    Default,
    Compact,
    Elegant,
}

/// A family entry: an optional name, a variant, whether a renderer should
/// skip it, an optional language tag, and its fonts.
#[derive(Debug, Clone, PartialEq)]
pub struct Family {
    pub name: Option<String>,
    pub variant: Variant,
    pub ignore: bool,
    pub lang: Option<String>,
    pub fonts: Vec<Font>,
}

/// One font of a family.
#[derive(Debug, Clone, PartialEq)]
pub struct Font {
    pub weight: i32,
    pub index: Option<i32>,
    pub filename: String,
    pub style: Style,
    pub fallback_for: Option<String>,
    pub post_script_name: Option<String>,
}

/// The entry is a family whose name attribute equals `name`.
pub open spec fn family_named(e: Entry, name: Seq<char>) -> bool {
    e matches Entry::Family(f) && f.name matches Some(n) && n@ == name
}

/// The family entries of the list, in order, aliases and families marked
/// ignored left out.
pub open spec fn family_entries(es: Seq<Entry>) -> Seq<Family>
    decreases es.len(),
{
    if es.len() == 0 {
        Seq::empty()
    } else {
        let rest = family_entries(es.drop_last());
        match es.last() {
            Entry::Family(f) => if f.ignore {
                rest
            } else {
                rest.push(f)
            },
            Entry::Alias(_) => rest,
        }
    }
}

impl Familyset {
    /// The first family entry carrying this name, if any.
    pub fn named(&self, name: &str) -> (r: Option<&Family>)
        ensures
            r matches Some(f) ==> exists|k: int|
                0 <= k < self.0@.len() && (#[trigger] self.0@[k]) == Entry::Family(*f)
                    && family_named(self.0@[k], name@) && (forall|j: int|
                    0 <= j < k ==> !family_named(#[trigger] self.0@[j], name@)),
            r is None ==> forall|k: int|
                0 <= k < self.0@.len() ==> !family_named(#[trigger] self.0@[k], name@),
    {
        let wanted = name.to_owned();
        let mut k: usize = 0;
        while k < self.0.len()
            invariant
                wanted@ == name@,
                k <= self.0@.len(),
                forall|j: int| 0 <= j < k ==> !family_named(#[trigger] self.0@[j], name@),
            decreases self.0@.len() - k,
        {
            match &self.0[k] {
                Entry::Family(f) => {
                    match &f.name {
                        Some(n) => {
                            if *n == wanted {
                                proof {
                                    assert(self.0@[k as int] == Entry::Family(*f));
                                    assert(family_named(self.0@[k as int], name@));
                                }
                                return Some(f);
                            }
                        },
                        None => {},
                    }
                },
                Entry::Alias(_) => {},
            }
            proof {
                assert(!family_named(self.0@[k as int], name@));
            }
            k = k + 1;
        }
        None
    }

    /// The family entries of the manifest that are not marked ignored, in
    /// order: the fallback chain the manifest defines.
    pub fn fallbacks(&self) -> (r: Vec<&Family>)
        ensures
            r@.map_values(|f: &Family| *f) == family_entries(self.0@),
    {
        let mut out: Vec<&Family> = Vec::new();
        let mut k: usize = 0;
        proof {
            assert(self.0@.take(0) =~= Seq::<Entry>::empty());
            assert(out@.map_values(|f: &Family| *f) =~= family_entries(self.0@.take(0)));
        }
        while k < self.0.len()
            invariant
                k <= self.0@.len(),
                out@.map_values(|f: &Family| *f) == family_entries(self.0@.take(k as int)),
            decreases self.0@.len() - k,
        {
            proof {
                assert(self.0@.take(k as int + 1).drop_last() =~= self.0@.take(k as int));
                assert(self.0@.take(k as int + 1).last() == self.0@[k as int]);
            }
            let ghost before = out@;
            match &self.0[k] {
                Entry::Family(f) => {
                    if !f.ignore {
                        out.push(f);
                        proof {
                            assert(out@.map_values(|f: &Family| *f) =~= before.map_values(
                                |f: &Family| *f,
                            ).push(*f));
                        }
                    }
                },
                Entry::Alias(_) => {},
            }
            k = k + 1;
        }
        proof {
            assert(self.0@.take(self.0@.len() as int) =~= self.0@);
        }
        out
    }
}

/// Decodes an attribute value. Relies on `std::str::from_utf8`: it returns the
/// decoded string exactly when the bytes are valid UTF-8.
#[verifier::external_body]
fn utf8_to_string(raw: &[u8]) -> (r: Option<String>)
    ensures
        r matches Some(s) ==> valid_utf8(raw@) && s@ == decode_utf8(raw@),
        r is None ==> !valid_utf8(raw@),
{
    std::str::from_utf8(raw).ok().map(|s| s.to_string())
}

/// An empty attribute value reads as absent; anything else as its decoded
/// text. Bytes that are not UTF-8 also read as absent rather than stopping the
/// parse.
pub fn optional_string(raw: &[u8]) -> (r: Option<String>)
    ensures
        raw@.len() == 0 ==> r is None,
        raw@.len() > 0 && valid_utf8(raw@) ==> (r matches Some(s) && s@ == decode_utf8(raw@)),
        !valid_utf8(raw@) ==> r is None,
{
    if raw.len() == 0 {
        return None;
    }
    utf8_to_string(raw)
}

/// An ASCII decimal digit.
pub open spec fn is_digit(b: u8) -> bool {
    0x30 <= b <= 0x39
}

/// Every byte is a digit.
pub open spec fn all_digits(s: Seq<u8>) -> bool {
    forall|k: int| 0 <= k < s.len() ==> is_digit(#[trigger] s[k])
}

/// The value of a digit string, most significant digit first.
pub open spec fn digits_value(s: Seq<u8>) -> int
    decreases s.len(),
{
    if s.len() == 0 {
        0
    } else {
        digits_value(s.drop_last()) * 10 + (s.last() - 0x30)
    }
}

/// What a decimal literal denotes: an optional sign, then at least one digit,
/// nothing else, within the range of `i32`.
pub open spec fn parsed_i32(s: Seq<u8>) -> Option<int> {
    if s.len() == 0 {
        None
    } else {
        let neg = s[0] == 0x2D;
        let ds = if s[0] == 0x2B || s[0] == 0x2D {
            s.drop_first()
        } else {
            s
        };
        if ds.len() > 0 && all_digits(ds) {
            let v = if neg {
                -digits_value(ds)
            } else {
                digits_value(ds)
            };
            if i32::MIN <= v <= i32::MAX {
                Some(v)
            } else {
                None
            }
        } else {
            None
        }
    }
}

/// The value of a digit string is never negative.
proof fn lemma_digits_value_nonneg(s: Seq<u8>)
    requires
        all_digits(s),
    ensures
        digits_value(s) >= 0,
    decreases s.len(),
{
    if s.len() > 0 {
        assert(all_digits(s.drop_last())) by {
            assert(forall|k: int| 0 <= k < s.len() - 1 ==> s.drop_last()[k] == s[k]);
        }
        lemma_digits_value_nonneg(s.drop_last());
    }
}

/// A digit string is worth at least any of its prefixes.
proof fn lemma_digits_value_monotone(s: Seq<u8>, j: int)
    requires
        all_digits(s),
        0 <= j <= s.len(),
    ensures
        digits_value(s.take(j)) <= digits_value(s),
    decreases s.len(),
{
    if j < s.len() {
        assert(all_digits(s.drop_last())) by {
            assert(forall|k: int| 0 <= k < s.len() - 1 ==> s.drop_last()[k] == s[k]);
        }
        assert(s.take(j) =~= s.drop_last().take(j));
        lemma_digits_value_monotone(s.drop_last(), j);
        lemma_digits_value_nonneg(s.drop_last());
    } else {
        assert(s.take(j) =~= s);
    }
}

/// An empty attribute value reads as absent; anything else as the decimal
/// number it spells. A value that is not a decimal number in the range of
/// `i32` also reads as absent rather than stopping the parse.
pub fn optional_number(raw: &[u8]) -> (r: Option<i32>)
    ensures
        raw@.len() == 0 ==> r is None,
        raw@.len() > 0 ==> match r {
            Some(v) => parsed_i32(raw@) == Some(v as int),
            None => parsed_i32(raw@) is None,
        },
{
    let n = raw.len();
    if n == 0 {
        return None;
    }
    let first = *slice_index_get(raw, 0);
    let neg = first == 0x2D;
    let start: usize = if first == 0x2B || first == 0x2D {
        1
    } else {
        0
    };
    let ghost ds = if neg || first == 0x2B {
        raw@.drop_first()
    } else {
        raw@
    };
    proof {
        assert(ds =~= raw@.subrange(start as int, n as int));
    }
    if n == start {
        return None;
    }
    let mut acc: i64 = 0;
    let mut i: usize = start;
    while i < n
        invariant
            n == raw@.len(),
            start <= i <= n,
            start < n,
            first == raw@[0],
            neg == (first == 0x2D),
            (first == 0x2B || first == 0x2D) ==> start == 1,
            !(first == 0x2B || first == 0x2D) ==> start == 0,
            ds == raw@.subrange(start as int, n as int),
            forall|k: int| start <= k < i ==> is_digit(#[trigger] raw@[k]),
            0 <= acc <= 0x8000_0000,
            acc == digits_value(raw@.subrange(start as int, i as int)),
        decreases n - i,
    {
        let b = *slice_index_get(raw, i);
        if b < 0x30 || b > 0x39 {
            proof {
                assert(raw@.subrange(0, n as int) =~= raw@);
                assert(raw@.drop_first() =~= raw@.subrange(1, n as int));
                assert(!is_digit(raw@[i as int]));
                assert(0 <= (i as int - start as int));
                assert((i as int - start as int) < ds.len());
                assert(ds[i as int - start as int] == raw@[i as int]);
                assert(!all_digits(ds));
                assert(raw@[0] == first);
                assert(parsed_i32(raw@) is None);
            }
            return None;
        }
        proof {
            assert(raw@.subrange(start as int, i as int + 1).drop_last() =~= raw@.subrange(
                start as int,
                i as int,
            ));
            assert(raw@.subrange(start as int, i as int + 1).last() == raw@[i as int]);
        }
        acc = acc * 10 + (b - 0x30) as i64;
        i = i + 1;
        if acc > 0x8000_0000 {
            proof {
                assert(raw@[0] == first);
                assert(raw@.subrange(0, n as int) =~= raw@);
                assert(raw@.drop_first() =~= raw@.subrange(1, n as int));
                if all_digits(ds) {
                    lemma_digits_value_monotone(ds, i as int - start as int);
                    assert(ds.take(i as int - start as int) =~= raw@.subrange(
                        start as int,
                        i as int,
                    ));
                    lemma_digits_value_nonneg(ds);
                    assert(digits_value(ds) >= acc);
                    assert(digits_value(ds) > 0x8000_0000);
                }
                assert(parsed_i32(raw@) is None);
            }
            return None;
        }
    }
    proof {
        assert(all_digits(ds)) by {
            assert(forall|k: int| 0 <= k < ds.len() ==> ds[k] == raw@[k + start]);
        }
        assert(acc == digits_value(ds));
    }
    if neg {
        if acc == 0x8000_0000 {
            Some(i32::MIN)
        } else {
            Some(0i32 - (acc as i32))
        }
    } else {
        if acc >= 0x8000_0000 {
            return None;
        }
        Some(acc as i32)
    }
}

/// Compares a string against an expected spelling.
fn str_is(s: &str, w: &str) -> (r: bool)
    ensures
        r == (s@ == w@),
{
    s.to_owned() == w.to_owned()
}

/// The value of the last attribute carrying `key`, if any: a later attribute
/// overrides an earlier one of the same name.
pub open spec fn attr_val(attrs: Seq<(String, Vec<u8>)>, key: Seq<char>) -> Option<Seq<u8>>
    decreases attrs.len(),
{
    if attrs.len() == 0 {
        None
    } else if attrs.last().0@ == key {
        Some(attrs.last().1@)
    } else {
        attr_val(attrs.drop_last(), key)
    }
}

/// What an attribute value reads as when taken as optional text.
pub open spec fn decoded(b: Seq<u8>) -> Option<Seq<char>> {
    if b.len() > 0 && valid_utf8(b) {
        Some(decode_utf8(b))
    } else {
        None
    }
}

/// A string attribute value is readable: empty or valid UTF-8. The original
/// manifest reader fails fast on anything else.
pub open spec fn text_value_ok(v: Seq<u8>) -> bool {
    v.len() > 0 ==> valid_utf8(v)
}

/// Whether the attributes mark the family as ignored: the last ignore
/// attribute spells exactly `true`.
pub open spec fn ignore_attr(attrs: Seq<(String, Vec<u8>)>) -> bool {
    match attr_val(attrs, "ignore"@) {
        Some(v) => decoded(v) == Some("true"@),
        None => false,
    }
}

/// The text the last attribute carrying `key` reads as.
pub open spec fn str_attr(attrs: Seq<(String, Vec<u8>)>, key: Seq<char>) -> Option<Seq<char>> {
    match attr_val(attrs, key) {
        Some(v) => decoded(v),
        None => None,
    }
}

/// The view of an optional string.
pub open spec fn opt_text(o: Option<String>) -> Option<Seq<char>> {
    match o {
        Some(s) => Some(s@),
        None => None,
    }
}

/// The view of an optional number.
pub open spec fn opt_num(o: Option<i32>) -> Option<int> {
    match o {
        Some(v) => Some(v as int),
        None => None,
    }
}

/// What a variant attribute value denotes, if anything.
pub open spec fn variant_of(v: Seq<u8>) -> Option<Variant> {
    if decoded(v) == Some("compact"@) {
        Some(Variant::Compact)
    } else if decoded(v) == Some("elegant"@) {
        Some(Variant::Elegant)
    } else {
        None
    }
}

/// The variant a family's attributes leave it with.
pub open spec fn variant_attr(attrs: Seq<(String, Vec<u8>)>) -> Option<Variant> {
    match attr_val(attrs, "variant"@) {
        Some(v) => variant_of(v),
        None => Some(Variant::Default),
    }
}

/// A family element's attributes are acceptable: every variant value is
/// known, and every name and lang value is readable text. Unknown attribute
/// names are ignored.
pub open spec fn family_attrs_ok(attrs: Seq<(String, Vec<u8>)>) -> bool {
    &&& forall|k: int|
        0 <= k < attrs.len() && (#[trigger] attrs[k]).0@ == "variant"@ ==> variant_of(
            attrs[k].1@,
        ) is Some
    &&& forall|k: int|
        0 <= k < attrs.len() && ((#[trigger] attrs[k]).0@ == "name"@ || attrs[k].0@ == "lang"@)
            ==> text_value_ok(attrs[k].1@)
}

/// One step of the last-wins attribute fold.
proof fn lemma_attr_val_step(attrs: Seq<(String, Vec<u8>)>, k: int, key: Seq<char>)
    requires
        0 <= k < attrs.len(),
    ensures
        attr_val(attrs.take(k + 1), key) == (if attrs[k].0@ == key {
            Some(attrs[k].1@)
        } else {
            attr_val(attrs.take(k), key)
        }),
{
    assert(attrs.take(k + 1).drop_last() =~= attrs.take(k));
    assert(attrs.take(k + 1).last() == attrs[k]);
}

/// Reads a family element's attributes: its optional name and language tag,
/// its variant, and whether it is marked ignored, a later attribute
/// overriding an earlier one. Refused exactly when some variant value is
/// unknown or some name or lang value is non-empty and not UTF-8.
pub(crate) fn family_attrs(attrs: &Vec<(String, Vec<u8>)>) -> (r: Result<
    (Option<String>, Option<String>, Variant, bool),
    Error,
>)
    ensures
        match r {
            Ok((name, lang, variant, ignore)) => {
                &&& family_attrs_ok(attrs@)
                &&& opt_text(name) == str_attr(attrs@, "name"@)
                &&& opt_text(lang) == str_attr(attrs@, "lang"@)
                &&& Some(variant) == variant_attr(attrs@)
                &&& ignore == ignore_attr(attrs@)
            },
            Err(e) => e == Error::MalformedManifest && !family_attrs_ok(attrs@),
        },
{
    let mut name: Option<String> = None;
    let mut lang: Option<String> = None;
    let mut variant = Variant::Default;
    let mut ignore = false;
    let mut k: usize = 0;
    proof {
        assert(attrs@.take(0) =~= Seq::<(String, Vec<u8>)>::empty());
    }
    while k < attrs.len()
        invariant
            k <= attrs@.len(),
            opt_text(name) == str_attr(attrs@.take(k as int), "name"@),
            opt_text(lang) == str_attr(attrs@.take(k as int), "lang"@),
            Some(variant) == variant_attr(attrs@.take(k as int)),
            ignore == ignore_attr(attrs@.take(k as int)),
            family_attrs_ok(attrs@.take(k as int)),
        decreases attrs@.len() - k,
    {
        proof {
            reveal_strlit("name");
            reveal_strlit("lang");
            reveal_strlit("variant");
            reveal_strlit("ignore");
            reveal_strlit("true");
            reveal_strlit("compact");
            reveal_strlit("elegant");
            assert(attrs@.take(k as int + 1).drop_last() =~= attrs@.take(k as int));
            assert(attrs@.take(k as int + 1).last() == attrs@[k as int]);
        }
        proof {
            lemma_attr_val_step(attrs@, k as int, "name"@);
            lemma_attr_val_step(attrs@, k as int, "lang"@);
            lemma_attr_val_step(attrs@, k as int, "variant"@);
            lemma_attr_val_step(attrs@, k as int, "ignore"@);
            assert("name"@[0] == 'n' && "lang"@[0] == 'l' && "variant"@[0] == 'v'
                && "ignore"@[0] == 'i');
            assert("name"@ != "lang"@ && "name"@ != "variant"@ && "lang"@ != "variant"@
                && "ignore"@ != "name"@ && "ignore"@ != "lang"@ && "ignore"@ != "variant"@);
        }
        let key = &attrs[k].0;
        let val = &attrs[k].1;
        if str_is(key.as_str(), "name") {
            let v = optional_string(val.as_slice());
            if val.len() > 0 && v.is_none() {
                proof {
                    assert(!text_value_ok(attrs@[k as int].1@));
                }
                return Err(Error::MalformedManifest);
            }
            name = v;
        } else if str_is(key.as_str(), "lang") {
            let v = optional_string(val.as_slice());
            if val.len() > 0 && v.is_none() {
                proof {
                    assert(!text_value_ok(attrs@[k as int].1@));
                }
                return Err(Error::MalformedManifest);
            }
            lang = v;
        } else if str_is(key.as_str(), "ignore") {
            match optional_string(val.as_slice()) {
                Some(ivs) => {
                    ignore = str_is(ivs.as_str(), "true");
                },
                None => {
                    ignore = false;
                },
            }
        } else if str_is(key.as_str(), "variant") {
            match optional_string(val.as_slice()) {
                Some(s) => {
                    if str_is(s.as_str(), "compact") {
                        variant = Variant::Compact;
                    } else if str_is(s.as_str(), "elegant") {
                        variant = Variant::Elegant;
                    } else {
                        proof {
                            assert(variant_of(attrs@[k as int].1@) is None);
                        }
                        return Err(Error::MalformedManifest);
                    }
                },
                None => {
                    proof {
                        assert(variant_of(attrs@[k as int].1@) is None);
                    }
                    return Err(Error::MalformedManifest);
                },
            }
        }
        k = k + 1;
        proof {
            assert(attrs@.take(k as int).drop_last() =~= attrs@.take(k as int - 1));
            assert(attrs@.take(k as int).last() == attrs@[k as int - 1]);
            assert(opt_text(name) == str_attr(attrs@.take(k as int), "name"@));
            assert(opt_text(lang) == str_attr(attrs@.take(k as int), "lang"@));
            assert(Some(variant) == variant_attr(attrs@.take(k as int)));
            assert(ignore == ignore_attr(attrs@.take(k as int)));
            assert(family_attrs_ok(attrs@.take(k as int)));
        }
    }
    proof {
        assert(attrs@.take(attrs@.len() as int) =~= attrs@);
    }
    Ok((name, lang, variant, ignore))
}

/// The number the last attribute carrying `key` spells.
pub open spec fn num_attr(attrs: Seq<(String, Vec<u8>)>, key: Seq<char>) -> Option<int> {
    match attr_val(attrs, key) {
        Some(v) => parsed_i32(v),
        None => None,
    }
}

/// What a style attribute value denotes, if anything.
pub open spec fn style_of(v: Seq<u8>) -> Option<Style> {
    if decoded(v) == Some("normal"@) {
        Some(Style::Normal)
    } else if decoded(v) == Some("italic"@) {
        Some(Style::Italic)
    } else {
        None
    }
}

/// The style a font's attributes leave it with.
pub open spec fn style_attr(attrs: Seq<(String, Vec<u8>)>) -> Option<Style> {
    match attr_val(attrs, "style"@) {
        Some(v) => style_of(v),
        None => Some(Style::Normal),
    }
}

/// The weight a font's attributes leave it with; absent reads as zero.
pub open spec fn font_weight_attr(attrs: Seq<(String, Vec<u8>)>) -> int {
    match num_attr(attrs, "weight"@) {
        Some(n) => n,
        None => 0,
    }
}

/// An attribute name a font element may carry.
pub open spec fn font_key_known(key: Seq<char>) -> bool {
    ||| key == "weight"@
    ||| key == "index"@
    ||| key == "style"@
    ||| key == "fallbackFor"@
    ||| key == "postScriptName"@
}

/// A font element's attributes are acceptable: every name is known, every
/// weight spells a number, every non-empty index does too, every style value
/// is known, and every fallbackFor and postScriptName value is readable text.
pub open spec fn font_attrs_ok(attrs: Seq<(String, Vec<u8>)>) -> bool {
    &&& forall|k: int| 0 <= k < attrs.len() ==> font_key_known((#[trigger] attrs[k]).0@)
    &&& forall|k: int|
        0 <= k < attrs.len() && (#[trigger] attrs[k]).0@ == "weight"@ ==> parsed_i32(
            attrs[k].1@,
        ) is Some
    &&& forall|k: int|
        0 <= k < attrs.len() && (#[trigger] attrs[k]).0@ == "index"@ ==> (attrs[k].1@.len() > 0
            ==> parsed_i32(attrs[k].1@) is Some)
    &&& forall|k: int|
        0 <= k < attrs.len() && (#[trigger] attrs[k]).0@ == "style"@ ==> style_of(
            attrs[k].1@,
        ) is Some
    &&& forall|k: int|
        0 <= k < attrs.len() && ((#[trigger] attrs[k]).0@ == "fallbackFor"@ || attrs[k].0@
            == "postScriptName"@) ==> text_value_ok(attrs[k].1@)
}

/// Reads a font element's attributes, a later attribute overriding an earlier
/// one. Refused exactly when some attribute name is unknown or some weight,
/// index, style, fallbackFor or postScriptName value cannot be read.
pub(crate) fn font_attrs(attrs: &Vec<(String, Vec<u8>)>) -> (r: Result<
    (i32, Option<i32>, Style, Option<String>, Option<String>),
    Error,
>)
    ensures
        match r {
            Ok((weight, index, style, fallback_for, post_script_name)) => {
                &&& font_attrs_ok(attrs@)
                &&& weight as int == font_weight_attr(attrs@)
                &&& opt_num(index) == num_attr(attrs@, "index"@)
                &&& Some(style) == style_attr(attrs@)
                &&& opt_text(fallback_for) == str_attr(attrs@, "fallbackFor"@)
                &&& opt_text(post_script_name) == str_attr(attrs@, "postScriptName"@)
            },
            Err(e) => e == Error::MalformedManifest && !font_attrs_ok(attrs@),
        },
{
    let mut weight: i32 = 0;
    let mut index: Option<i32> = None;
    let mut style = Style::Normal;
    let mut fallback_for: Option<String> = None;
    let mut post_script_name: Option<String> = None;
    let mut k: usize = 0;
    proof {
        assert(attrs@.take(0) =~= Seq::<(String, Vec<u8>)>::empty());
    }
    while k < attrs.len()
        invariant
            k <= attrs@.len(),
            weight as int == font_weight_attr(attrs@.take(k as int)),
            opt_num(index) == num_attr(attrs@.take(k as int), "index"@),
            Some(style) == style_attr(attrs@.take(k as int)),
            opt_text(fallback_for) == str_attr(attrs@.take(k as int), "fallbackFor"@),
            opt_text(post_script_name) == str_attr(attrs@.take(k as int), "postScriptName"@),
            font_attrs_ok(attrs@.take(k as int)),
        decreases attrs@.len() - k,
    {
        proof {
            reveal_strlit("weight");
            reveal_strlit("index");
            reveal_strlit("style");
            reveal_strlit("fallbackFor");
            reveal_strlit("postScriptName");
            reveal_strlit("normal");
            reveal_strlit("italic");
            lemma_attr_val_step(attrs@, k as int, "weight"@);
            lemma_attr_val_step(attrs@, k as int, "index"@);
            lemma_attr_val_step(attrs@, k as int, "style"@);
            lemma_attr_val_step(attrs@, k as int, "fallbackFor"@);
            lemma_attr_val_step(attrs@, k as int, "postScriptName"@);
            assert("weight"@[0] == 'w' && "index"@[0] == 'i' && "style"@[0] == 's'
                && "fallbackFor"@[0] == 'f' && "postScriptName"@[0] == 'p');
        }
        let key = &attrs[k].0;
        let val = &attrs[k].1;
        if str_is(key.as_str(), "weight") {
            match optional_number(val.as_slice()) {
                Some(w) => {
                    weight = w;
                },
                None => {
                    proof {
                        assert(parsed_i32(attrs@[k as int].1@) is None);
                    }
                    return Err(Error::MalformedManifest);
                },
            }
        } else if str_is(key.as_str(), "index") {
            let pn = optional_number(val.as_slice());
            if val.len() > 0 && pn.is_none() {
                return Err(Error::MalformedManifest);
            }
            index = pn;
        } else if str_is(key.as_str(), "style") {
            match optional_string(val.as_slice()) {
                Some(s) => {
                    if str_is(s.as_str(), "normal") {
                        style = Style::Normal;
                    } else if str_is(s.as_str(), "italic") {
                        style = Style::Italic;
                    } else {
                        proof {
                            assert(style_of(attrs@[k as int].1@) is None);
                        }
                        return Err(Error::MalformedManifest);
                    }
                },
                None => {
                    proof {
                        assert(style_of(attrs@[k as int].1@) is None);
                    }
                    return Err(Error::MalformedManifest);
                },
            }
        } else if str_is(key.as_str(), "fallbackFor") {
            let v = optional_string(val.as_slice());
            if val.len() > 0 && v.is_none() {
                proof {
                    assert(!text_value_ok(attrs@[k as int].1@));
                }
                return Err(Error::MalformedManifest);
            }
            fallback_for = v;
        } else if str_is(key.as_str(), "postScriptName") {
            let v = optional_string(val.as_slice());
            if val.len() > 0 && v.is_none() {
                proof {
                    assert(!text_value_ok(attrs@[k as int].1@));
                }
                return Err(Error::MalformedManifest);
            }
            post_script_name = v;
        } else {
            proof {
                assert(!font_key_known(attrs@[k as int].0@));
            }
            return Err(Error::MalformedManifest);
        }
        k = k + 1;
        proof {
            assert(weight as int == font_weight_attr(attrs@.take(k as int)));
            assert(opt_num(index) == num_attr(attrs@.take(k as int), "index"@));
            assert(Some(style) == style_attr(attrs@.take(k as int)));
            assert(opt_text(fallback_for) == str_attr(attrs@.take(k as int), "fallbackFor"@));
            assert(opt_text(post_script_name) == str_attr(
                attrs@.take(k as int),
                "postScriptName"@,
            ));
            assert(font_attrs_ok(attrs@.take(k as int)));
        }
    }
    proof {
        assert(attrs@.take(attrs@.len() as int) =~= attrs@);
    }
    Ok((weight, index, style, fallback_for, post_script_name))
}

/// An attribute name an alias element may carry.
pub open spec fn alias_key_known(key: Seq<char>) -> bool {
    ||| key == "name"@
    ||| key == "to"@
    ||| key == "weight"@
}

/// An alias element's attributes are acceptable: every name is known, every
/// non-empty weight spells a number, and every name and to value is readable
/// text.
pub open spec fn alias_attrs_ok(attrs: Seq<(String, Vec<u8>)>) -> bool {
    &&& forall|k: int| 0 <= k < attrs.len() ==> alias_key_known((#[trigger] attrs[k]).0@)
    &&& forall|k: int|
        0 <= k < attrs.len() && (#[trigger] attrs[k]).0@ == "weight"@ ==> (attrs[k].1@.len() > 0
            ==> parsed_i32(attrs[k].1@) is Some)
    &&& forall|k: int|
        0 <= k < attrs.len() && ((#[trigger] attrs[k]).0@ == "name"@ || attrs[k].0@ == "to"@)
            ==> text_value_ok(attrs[k].1@)
}

/// Reads an alias element's attributes, a later attribute overriding an
/// earlier one. Refused exactly when some attribute name is unknown or some
/// weight, name or to value cannot be read.
pub(crate) fn alias_attrs(attrs: &Vec<(String, Vec<u8>)>) -> (r: Result<
    (Option<String>, Option<String>, Option<i32>),
    Error,
>)
    ensures
        match r {
            Ok((name, to, weight)) => {
                &&& alias_attrs_ok(attrs@)
                &&& opt_text(name) == str_attr(attrs@, "name"@)
                &&& opt_text(to) == str_attr(attrs@, "to"@)
                &&& opt_num(weight) == num_attr(attrs@, "weight"@)
            },
            Err(e) => e == Error::MalformedManifest && !alias_attrs_ok(attrs@),
        },
{
    let mut name: Option<String> = None;
    let mut to: Option<String> = None;
    let mut weight: Option<i32> = None;
    let mut k: usize = 0;
    proof {
        assert(attrs@.take(0) =~= Seq::<(String, Vec<u8>)>::empty());
    }
    while k < attrs.len()
        invariant
            k <= attrs@.len(),
            opt_text(name) == str_attr(attrs@.take(k as int), "name"@),
            opt_text(to) == str_attr(attrs@.take(k as int), "to"@),
            opt_num(weight) == num_attr(attrs@.take(k as int), "weight"@),
            alias_attrs_ok(attrs@.take(k as int)),
        decreases attrs@.len() - k,
    {
        proof {
            reveal_strlit("name");
            reveal_strlit("to");
            reveal_strlit("weight");
            lemma_attr_val_step(attrs@, k as int, "name"@);
            lemma_attr_val_step(attrs@, k as int, "to"@);
            lemma_attr_val_step(attrs@, k as int, "weight"@);
            assert("name"@[0] == 'n' && "to"@[0] == 't' && "weight"@[0] == 'w');
        }
        let key = &attrs[k].0;
        let val = &attrs[k].1;
        if str_is(key.as_str(), "name") {
            let v = optional_string(val.as_slice());
            if val.len() > 0 && v.is_none() {
                proof {
                    assert(!text_value_ok(attrs@[k as int].1@));
                }
                return Err(Error::MalformedManifest);
            }
            name = v;
        } else if str_is(key.as_str(), "to") {
            let v = optional_string(val.as_slice());
            if val.len() > 0 && v.is_none() {
                proof {
                    assert(!text_value_ok(attrs@[k as int].1@));
                }
                return Err(Error::MalformedManifest);
            }
            to = v;
        } else if str_is(key.as_str(), "weight") {
            let pn = optional_number(val.as_slice());
            if val.len() > 0 && pn.is_none() {
                return Err(Error::MalformedManifest);
            }
            weight = pn;
        } else {
            proof {
                assert(!alias_key_known(attrs@[k as int].0@));
            }
            return Err(Error::MalformedManifest);
        }
        k = k + 1;
        proof {
            assert(opt_text(name) == str_attr(attrs@.take(k as int), "name"@));
            assert(opt_text(to) == str_attr(attrs@.take(k as int), "to"@));
            assert(opt_num(weight) == num_attr(attrs@.take(k as int), "weight"@));
            assert(alias_attrs_ok(attrs@.take(k as int)));
        }
    }
    proof {
        assert(attrs@.take(attrs@.len() as int) =~= attrs@);
    }
    Ok((name, to, weight))
}

/// One event of the manifest document, reduced to plain values: an element
/// opening (with its attributes decoded to byte strings), an element closing,
/// character data, an entity or character reference (with the reader's
/// resolution of a numeric one), something ignorable, something unsupported,
/// the end of the document, or a malformed document.
#[derive(Debug, Clone)]
pub enum XmlEvent {
    Open { name: String, attrs: Vec<(String, Vec<u8>)> },
    Close { name: String },
    Text { text: String },
    Ref { name: String, resolved: Option<char> },
    Skip,
    Other,
    Eof,
    Malformed,
}

/// The character an entity or character reference stands for: the reader's
/// resolution of a numeric reference, else one of the five predefined XML
/// entities; anything else has none.
pub open spec fn ref_char(name: Seq<char>, resolved: Option<char>) -> Option<char> {
    match resolved {
        Some(c) => Some(c),
        None => if name == "amp"@ {
            Some('&')
        } else if name == "lt"@ {
            Some('<')
        } else if name == "gt"@ {
            Some('>')
        } else if name == "apos"@ {
            Some('\'')
        } else if name == "quot"@ {
            Some('"')
        } else {
            None
        },
    }
}

/// Appends one character. Relies on `String::push`.
#[verifier::external_body]
fn push_char(s: &mut String, c: char)
    ensures
        final(s)@ == old(s)@ + seq![c],
{
    s.push(c);
}

/// Interprets the event stream of a manifest document. Every structural rule
/// of the manifest lives in [`FamilysetBuilder::step`], which is verified for
/// every event sequence, whatever the reader hands over.
#[derive(Debug, Clone)]
pub struct FamilysetBuilder {
    /// The entries read so far, in document order.
    pub entries: Vec<Entry>,
    /// A font element that was opened and not yet closed.
    pub pending_font: Option<Font>,
    /// Whether the single familyset root was seen.
    pub seen_familyset: bool,
}

impl FamilysetBuilder {
    /// An empty builder.
    pub fn new() -> (r: FamilysetBuilder)
        ensures
            r.entries@.len() == 0,
            r.pending_font is None,
            !r.seen_familyset,
    {
        FamilysetBuilder { entries: Vec::new(), pending_font: None, seen_familyset: false }
    }

    /// Interprets one event. Refused exactly on what the manifest format does
    /// not allow: a second familyset root, an unknown element, an unknown
    /// font or alias attribute, an unreadable variant, style or number value,
    /// a font closed outside a family, or a document the reader could not
    /// parse. On refusal the builder is left as it was.
    pub fn step(&mut self, ev: &XmlEvent) -> (r: Result<(), Error>)
        ensures
            r matches Err(e) ==> e == Error::MalformedManifest && final(self).entries@ == old(self).entries@ && final(self).pending_font == old(self).pending_font && final(self).seen_familyset == old(self).seen_familyset,
            (ev matches XmlEvent::Skip || ev matches XmlEvent::Eof) ==> r is Ok && *final(self)
                == *old(self),
            ev matches XmlEvent::Other ==> r is Err,
            ev matches XmlEvent::Malformed ==> r is Err,
            ev matches XmlEvent::Open { name, attrs } ==> (name@ == "familyset"@ ==> ((r is Ok
                <==> !old(self).seen_familyset) && (r is Ok ==> final(self).seen_familyset
                && final(self).entries == old(self).entries && final(self).pending_font == old(self).pending_font))),
            ev matches XmlEvent::Open { name, attrs } ==> (name@ == "family"@ ==> (r is Ok
                <==> family_attrs_ok(attrs@)) && (name@ == "family"@ && r is Ok ==> {
                &&& final(self).entries@.len() == old(self).entries@.len() + 1
                &&& final(self).entries@.drop_last() == old(self).entries@
                &&& (final(self).entries@.last() matches Entry::Family(f) && opt_text(f.name)
                    == str_attr(attrs@, "name"@) && opt_text(f.lang) == str_attr(attrs@, "lang"@)
                    && Some(f.variant) == variant_attr(attrs@) && f.ignore == ignore_attr(attrs@)
                    && f.fonts@.len() == 0)
                &&& final(self).pending_font == old(self).pending_font
                &&& final(self).seen_familyset == old(self).seen_familyset
            })),
            ev matches XmlEvent::Open { name, attrs } ==> (name@ == "font"@ ==> (r is Ok
                <==> font_attrs_ok(attrs@)) && (name@ == "font"@ && r is Ok ==> {
                &&& final(self).entries == old(self).entries
                &&& final(self).seen_familyset == old(self).seen_familyset
                &&& (final(self).pending_font matches Some(ft) && ft.weight as int
                    == font_weight_attr(attrs@) && opt_num(ft.index) == num_attr(
                    attrs@,
                    "index"@,
                ) && Some(ft.style) == style_attr(attrs@) && opt_text(ft.fallback_for)
                    == str_attr(attrs@, "fallbackFor"@) && opt_text(ft.post_script_name)
                    == str_attr(attrs@, "postScriptName"@) && ft.filename@ == Seq::<
                    char,
                >::empty())
            })),
            ev matches XmlEvent::Open { name, attrs } ==> (name@ == "alias"@ ==> (r is Ok
                <==> alias_attrs_ok(attrs@)) && (name@ == "alias"@ && r is Ok ==> {
                &&& final(self).entries@.len() == old(self).entries@.len() + 1
                &&& final(self).entries@.drop_last() == old(self).entries@
                &&& (final(self).entries@.last() matches Entry::Alias(a) && opt_text(a.name)
                    == str_attr(attrs@, "name"@) && opt_text(a.to) == str_attr(attrs@, "to"@)
                    && opt_num(a.weight) == num_attr(attrs@, "weight"@))
                &&& final(self).pending_font == old(self).pending_font
                &&& final(self).seen_familyset == old(self).seen_familyset
            })),
            ev matches XmlEvent::Open { name, attrs } ==> (name@ == "axis"@ ==> (r is Ok && *final(self) == *old(self))),
            ev matches XmlEvent::Open { name, attrs } ==> (!(name@ == "familyset"@ || name@
                == "family"@ || name@ == "font"@ || name@ == "alias"@ || name@ == "axis"@) ==> r
                is Err),
            ev matches XmlEvent::Close { name } ==> (name@ != "font"@ ==> r is Ok && *final(self)
                == *old(self)),
            ev matches XmlEvent::Close { name } ==> (name@ == "font"@ && old(self).pending_font is None ==> r is Ok && *final(self) == *old(self)),
            ev matches XmlEvent::Close { name } ==> (name@ == "font"@ ==> (old(self).pending_font matches Some(ft) ==> ((r is Ok <==> (old(self).entries@.len() > 0
                && old(self).entries@.last() matches Entry::Family(_))) && (r is Ok ==> {
                &&& final(self).pending_font is None
                &&& final(self).seen_familyset == old(self).seen_familyset
                &&& final(self).entries@.len() == old(self).entries@.len()
                &&& final(self).entries@.drop_last() == old(self).entries@.drop_last()
                &&& (final(self).entries@.last() matches Entry::Family(f2) && old(self).entries@.last() matches Entry::Family(f1) && f2.name == f1.name && f2.lang
                    == f1.lang && f2.variant == f1.variant && f2.ignore == f1.ignore
                    && f2.fonts@ == f1.fonts@.push(ft))
            })))),
            ev matches XmlEvent::Ref { name, resolved } ==> (old(self).pending_font is None ==> r
                is Ok && *final(self) == *old(self)),
            ev matches XmlEvent::Ref { name, resolved } ==> (old(self).pending_font matches Some(ft) ==> ((r is Ok <==> ref_char(name@, *resolved) is Some) && (r is Ok ==> final(self).entries == old(self).entries && final(self).seen_familyset == old(self).seen_familyset && (final(self).pending_font matches Some(ft2) && ref_char(
                name@,
                *resolved,
            ) matches Some(c) && ft2.filename@ == ft.filename@ + seq![c] && ft2.weight == ft.weight
                && ft2.index == ft.index && ft2.style == ft.style && ft2.fallback_for
                == ft.fallback_for && ft2.post_script_name == ft.post_script_name)))),
            ev matches XmlEvent::Text { text } ==> (old(self).pending_font is None ==> r is Ok
                && *final(self) == *old(self)),
            ev matches XmlEvent::Text { text } ==> (old(self).pending_font matches Some(ft) ==> (r
                is Ok && final(self).entries == old(self).entries && final(self).seen_familyset
                == old(self).seen_familyset && (final(self).pending_font matches Some(ft2)
                && ft2.filename@ == ft.filename@ + text@ && ft2.weight == ft.weight && ft2.index
                == ft.index && ft2.style == ft.style && ft2.fallback_for == ft.fallback_for
                && ft2.post_script_name == ft.post_script_name))),
    {
        proof {
            reveal_strlit("familyset");
            reveal_strlit("family");
            reveal_strlit("font");
            reveal_strlit("alias");
            reveal_strlit("axis");
            assert("familyset"@.len() == 9 && "family"@.len() == 6 && "font"@.len() == 4
                && "alias"@.len() == 5 && "axis"@.len() == 4);
            assert("font"@[1] == 'o' && "axis"@[1] == 'x');
        }
        match ev {
            XmlEvent::Skip | XmlEvent::Eof => Ok(()),
            XmlEvent::Other | XmlEvent::Malformed => Err(Error::MalformedManifest),
            XmlEvent::Open { name, attrs } => {
                if str_is(name.as_str(), "familyset") {
                    if self.seen_familyset {
                        return Err(Error::MalformedManifest);
                    }
                    self.seen_familyset = true;
                    Ok(())
                } else if str_is(name.as_str(), "family") {
                    let (fname, lang, variant, ignore) = match family_attrs(attrs) {
                        Ok(t) => t,
                        Err(e) => {
                            return Err(e);
                        },
                    };
                    let ghost before = self.entries@;
                    self.entries.push(
                        Entry::Family(
                            Family { name: fname, variant, ignore, lang, fonts: Vec::new() },
                        ),
                    );
                    proof {
                        assert(self.entries@.drop_last() =~= before);
                    }
                    Ok(())
                } else if str_is(name.as_str(), "font") {
                    let (weight, index, style, fallback_for, post_script_name) = match font_attrs(
                        attrs,
                    ) {
                        Ok(t) => t,
                        Err(e) => {
                            return Err(e);
                        },
                    };
                    self.pending_font = Some(
                        Font {
                            weight,
                            index,
                            filename: String::new(),
                            style,
                            fallback_for,
                            post_script_name,
                        },
                    );
                    Ok(())
                } else if str_is(name.as_str(), "alias") {
                    let (aname, to, weight) = match alias_attrs(attrs) {
                        Ok(t) => t,
                        Err(e) => {
                            return Err(e);
                        },
                    };
                    let ghost before = self.entries@;
                    self.entries.push(Entry::Alias(Alias { name: aname, to, weight }));
                    proof {
                        assert(self.entries@.drop_last() =~= before);
                    }
                    Ok(())
                } else if str_is(name.as_str(), "axis") {
                    Ok(())
                } else {
                    Err(Error::MalformedManifest)
                }
            },
            XmlEvent::Close { name } => {
                if str_is(name.as_str(), "font") {
                    match self.pending_font.take() {
                        None => Ok(()),
                        Some(ft) => {
                            let ghost had = ft;
                            match self.entries.pop() {
                                Some(Entry::Family(mut fam)) => {
                                    let ghost before_fonts = fam.fonts@;
                                    fam.fonts.push(ft);
                                    let ghost entries_rest = self.entries@;
                                    self.entries.push(Entry::Family(fam));
                                    proof {
                                        assert(self.entries@.drop_last() =~= entries_rest);
                                    }
                                    Ok(())
                                },
                                Some(other) => {
                                    self.entries.push(other);
                                    self.pending_font = Some(ft);
                                    proof {
                                        assert(self.entries@ =~= old(self).entries@);
                                    }
                                    Err(Error::MalformedManifest)
                                },
                                None => {
                                    self.pending_font = Some(ft);
                                    Err(Error::MalformedManifest)
                                },
                            }
                        },
                    }
                } else {
                    Ok(())
                }
            },
            XmlEvent::Text { text } => {
                match self.pending_font.take() {
                    None => Ok(()),
                    Some(mut ft) => {
                        ft.filename.append(text.as_str());
                        self.pending_font = Some(ft);
                        Ok(())
                    },
                }
            },
            XmlEvent::Ref { name, resolved } => {
                proof {
                    reveal_strlit("amp");
                    reveal_strlit("lt");
                    reveal_strlit("gt");
                    reveal_strlit("apos");
                    reveal_strlit("quot");
                    assert("amp"@.len() == 3 && "lt"@.len() == 2 && "gt"@.len() == 2
                        && "apos"@.len() == 4 && "quot"@.len() == 4);
                    assert("lt"@[0] == 'l' && "gt"@[0] == 'g' && "apos"@[0] == 'a'
                        && "quot"@[0] == 'q');
                }
                match self.pending_font.take() {
                    None => Ok(()),
                    Some(mut ft) => {
                        let c: char;
                        match resolved {
                            Some(rc) => {
                                c = *rc;
                            },
                            None => {
                                if str_is(name.as_str(), "amp") {
                                    c = '&';
                                } else if str_is(name.as_str(), "lt") {
                                    c = '<';
                                } else if str_is(name.as_str(), "gt") {
                                    c = '>';
                                } else if str_is(name.as_str(), "apos") {
                                    c = '\'';
                                } else if str_is(name.as_str(), "quot") {
                                    c = '"';
                                } else {
                                    self.pending_font = Some(ft);
                                    return Err(Error::MalformedManifest);
                                }
                            },
                        }
                        proof {
                            assert(ref_char(name@, *resolved) == Some(c));
                        }
                        push_char(&mut ft.filename, c);
                        self.pending_font = Some(ft);
                        Ok(())
                    },
                }
            },
        }
    }

    /// The family set read so far. The manifest is complete when the reader
    /// reached the end of the document without refusal.
    pub fn finish(self) -> (r: Familyset)
        ensures
            r.0 == self.entries,
    {
        Familyset(self.entries)
    }
}


/// The weight part of [`unwantedness`]: 400 is best; above it the excess
/// counts in full; below it the shortfall is softened by 50 and never counts
/// below zero.
pub open spec fn weight_distance(w: int) -> int {
    if w == 400 {
        0
    } else if w > 400 {
        w - 400
    } else if w - 350 > 0 {
        w - 350
    } else {
        0
    }
}

/// How much a chain builder would rather not use this font: an exact fallback
/// name beats no fallback name beats a wrong one; upright beats italic; and
/// weights near 400 beat the rest.
pub open spec fn unwantedness(f: Font, head: Seq<char>) -> int {
    (match f.fallback_for {
        Some(v) => if v@ == head {
            0int
        } else {
            100000int
        },
        None => 10000int,
    }) + (if f.style == Style::Italic {
        1000int
    } else {
        0int
    }) + weight_distance(f.weight as int)
}

/// Computes [`weight_distance`].
fn weight_badness(w: i32) -> (r: i64)
    ensures
        r == weight_distance(w as int),
        0 <= r < 0x1_0000_0000,
{
    if w == 400 {
        0
    } else if w > 400 {
        (w as i64) - 400
    } else {
        let t = (w as i64) - 350;
        if t > 0 {
            t
        } else {
            0
        }
    }
}

/// Computes [`unwantedness`].
fn font_unwantedness(f: &Font, head: &str) -> (r: i64)
    ensures
        r == unwantedness(*f, head@),
        0 <= r,
{
    let base: i64 = match &f.fallback_for {
        Some(v) => {
            let wanted = head.to_owned();
            if *v == wanted {
                0
            } else {
                100000
            }
        },
        None => 10000,
    };
    let italic: i64 = match f.style {
        Style::Italic => 1000,
        Style::Normal => 0,
    };
    base + italic + weight_badness(f.weight)
}

/// The font a chain builder picks from a family: the first of its least
/// unwanted fonts, none only when the family is fontless.
pub fn best_font(fonts: &Vec<Font>, head: &str) -> (r: Option<usize>)
    ensures
        r is None <==> fonts@.len() == 0,
        r matches Some(i) ==> i < fonts@.len() && (forall|j: int|
            0 <= j < fonts@.len() ==> unwantedness(fonts@[i as int], head@) <= unwantedness(
                #[trigger] fonts@[j],
                head@,
            )) && (forall|j: int|
            0 <= j < i ==> unwantedness(#[trigger] fonts@[j], head@) > unwantedness(
                fonts@[i as int],
                head@,
            )),
{
    if fonts.len() == 0 {
        return None;
    }
    let mut best: usize = 0;
    let mut bscore: i64 = font_unwantedness(&fonts[0], head);
    let mut j: usize = 1;
    while j < fonts.len()
        invariant
            0 < fonts@.len(),
            best < j <= fonts@.len(),
            bscore == unwantedness(fonts@[best as int], head@),
            forall|k: int| 0 <= k < j ==> bscore <= unwantedness(#[trigger] fonts@[k], head@),
            forall|k: int|
                0 <= k < best ==> unwantedness(#[trigger] fonts@[k], head@) > bscore,
        decreases fonts@.len() - j,
    {
        let sc = font_unwantedness(&fonts[j], head);
        if sc < bscore {
            best = j;
            bscore = sc;
        }
        j = j + 1;
    }
    Some(best)
}

/// The name ends in the font-collection extension. Relies on str::ends_with:
/// true exactly when the characters end with the pattern's characters.
#[verifier::external_body]
fn ends_with_ttc(s: &str) -> (r: bool)
    ensures
        r == has_ttc_suffix(s@),
{
    s.ends_with(".ttc")
}

/// The character sequence ends in the font-collection extension.
pub open spec fn has_ttc_suffix(s: Seq<char>) -> bool {
    s.len() >= 4 && s.subrange(s.len() - 4, s.len() as int) == ".ttc"@
}

/// The middle of a known CJK collection file name, if it is one.
pub open spec fn cjk_mid(name: Seq<char>) -> Option<Seq<char>> {
    if name == "NotoSansCJK-Regular.ttc"@ {
        Some("Sans"@)
    } else if name == "NotoSerifCJK-Regular.ttc"@ {
        Some("Serif"@)
    } else if name == "NotoCJK-Regular.ttc"@ {
        Some(""@)
    } else {
        None
    }
}

/// The per-language file suffix a web font service uses for CJK families.
pub open spec fn gf_suffix(lang: Option<Seq<char>>) -> Option<Seq<char>> {
    match lang {
        Some(l) => if l == "ja"@ {
            Some("JP"@)
        } else if l == "ko"@ {
            Some("KR"@)
        } else if l == "zh-Hant,zh-Bopo"@ {
            Some("TC"@)
        } else if l == "zh-Hans"@ {
            Some("SC"@)
        } else {
            None
        },
        None => None,
    }
}

/// How one font of a CJK collection family is renamed for the web service: a
/// known collection name becomes a per-language single file and loses its
/// collection index; any other name is left as it is.
pub open spec fn gf_font(ft: FontModel, sfx: Seq<char>) -> FontModel {
    match cjk_mid(ft.filename) {
        Some(mid) => FontModel {
            weight: ft.weight,
            index: None,
            filename: "Noto"@ + mid + sfx + ".ttf"@,
            style: ft.style,
            fallback_for: ft.fallback_for,
            post_script_name: Some("Noto "@ + mid + " "@ + sfx + ".ttf"@),
        },
        None => ft,
    }
}

/// The entry survives the web-service adjustment: every entry but a family
/// whose every font is the flags-only emoji file.
pub open spec fn gf_keep(e: EntryModel) -> bool {
    match e {
        EntryModel::Family(f) => !(forall|k: int|
            0 <= k < f.fonts.len() ==> (#[trigger] f.fonts[k]).filename
                == "NotoColorEmojiFlags.ttf"@),
        EntryModel::Alias(_) => true,
    }
}

/// What the web-service adjustment makes of one surviving entry: a family
/// holding a font collection, with a language the service splits by, has its
/// fonts renamed; everything else is left as it is.
pub open spec fn gf_entry(e: EntryModel) -> EntryModel {
    match e {
        EntryModel::Family(f) => {
            if exists|k: int|
                0 <= k < f.fonts.len() && has_ttc_suffix((#[trigger] f.fonts[k]).filename) {
                match gf_suffix(f.lang) {
                    Some(sfx) => EntryModel::Family(
                        FamilyEntryModel {
                            name: f.name,
                            variant: f.variant,
                            ignore: f.ignore,
                            lang: f.lang,
                            fonts: f.fonts.map_values(|ft: FontModel| gf_font(ft, sfx)),
                        },
                    ),
                    None => e,
                }
            } else {
                e
            }
        },
        EntryModel::Alias(_) => e,
    }
}

/// The web-service adjustment over a whole entry list, in order.
pub open spec fn gf_entries(es: Seq<EntryModel>) -> Seq<EntryModel>
    decreases es.len(),
{
    if es.len() == 0 {
        Seq::empty()
    } else {
        let rest = gf_entries(es.drop_last());
        if gf_keep(es.last()) {
            rest.push(gf_entry(es.last()))
        } else {
            rest
        }
    }
}

/// Whether the entry survives the web-service adjustment.
fn gf_keep_exec(e: &Entry) -> (r: bool)
    ensures
        r == gf_keep(e@),
{
    match e {
        Entry::Alias(_) => true,
        Entry::Family(f) => {
            let mut k: usize = 0;
            while k < f.fonts.len()
                invariant
                    e@ == EntryModel::Family(f@),
                    k <= f.fonts@.len(),
                    forall|m: int|
                        0 <= m < k ==> (#[trigger] f.fonts@[m])@.filename
                            == "NotoColorEmojiFlags.ttf"@,
                decreases f.fonts@.len() - k,
            {
                if !str_is(f.fonts[k].filename.as_str(), "NotoColorEmojiFlags.ttf") {
                    proof {
                        assert(f@.fonts[k as int] == f.fonts@[k as int]@);
                        assert(f@.fonts[k as int].filename != "NotoColorEmojiFlags.ttf"@);
                        assert(e@ == EntryModel::Family(f@));
                        assert(gf_keep(e@));
                    }
                    return true;
                }
                k = k + 1;
            }
            proof {
                assert forall|m: int| 0 <= m < f@.fonts.len() implies (#[trigger] f@.fonts[m]).filename
                    == "NotoColorEmojiFlags.ttf"@ by {
                    assert(f@.fonts[m] == f.fonts@[m]@);
                }
            }
            false
        },
    }
}

/// Renames one font for the web service.
fn gf_font_exec(ft: Font, sfx: &str) -> (r: Font)
    ensures
        r@ == gf_font(ft@, sfx@),
{
    proof {
        reveal_strlit("NotoSansCJK-Regular.ttc");
        reveal_strlit("NotoSerifCJK-Regular.ttc");
        reveal_strlit("NotoCJK-Regular.ttc");
        assert("NotoSansCJK-Regular.ttc"@.len() == 23 && "NotoSerifCJK-Regular.ttc"@.len() == 24
            && "NotoCJK-Regular.ttc"@.len() == 19);
    }
    let mid: &str;
    if str_is(ft.filename.as_str(), "NotoSansCJK-Regular.ttc") {
        mid = "Sans";
    } else if str_is(ft.filename.as_str(), "NotoSerifCJK-Regular.ttc") {
        mid = "Serif";
    } else if str_is(ft.filename.as_str(), "NotoCJK-Regular.ttc") {
        mid = "";
    } else {
        return ft;
    }
    proof {
        reveal_strlit("Sans");
        reveal_strlit("Serif");
        reveal_strlit("");
        assert(cjk_mid(ft.filename@) == Some(mid@));
    }
    let mut fname = "Noto".to_owned();
    fname.append(mid);
    fname.append(sfx);
    fname.append(".ttf");
    let mut psname = "Noto ".to_owned();
    psname.append(mid);
    psname.append(" ");
    psname.append(sfx);
    psname.append(".ttf");
    Font {
        weight: ft.weight,
        index: None,
        filename: fname,
        style: ft.style,
        fallback_for: ft.fallback_for,
        post_script_name: Some(psname),
    }
}

/// Adjusts a manifest to align with a web font service: drops families whose
/// every font is the flags-only emoji file, and renames the fonts of families
/// that hold a font collection and carry a language the service splits by. A
/// collection font under an unknown name is left as it is rather than
/// refused.
pub fn googlefonts_adjust(set: Familyset) -> (r: Familyset)
    ensures
        entry_views(r.0@) == gf_entries(entry_views(set.0@)),
{
    let ghost orig = set.0@;
    let mut rest = set.0;
    let mut out: Vec<Entry> = Vec::new();
    let total = rest.len();
    let ghost n = orig.len();
    proof {
        assert(orig.skip(0) =~= orig);
        assert(entry_views(orig.take(0)) =~= Seq::<EntryModel>::empty());
        assert(gf_entries(entry_views(orig.take(0))) =~= Seq::<EntryModel>::empty());
        assert(entry_views(out@) =~= Seq::<EntryModel>::empty());
    }
    let mut j: usize = 0;
    while rest.len() > 0
        invariant
            n == orig.len(),
            n == total as int,
            j <= n,
            rest@ == orig.skip(j as int),
            rest@.len() == n - j,
            entry_views(out@) == gf_entries(entry_views(orig.take(j as int))),
        decreases rest@.len(),
    {
        let e = rest.remove(0);
        proof {
            assert(e == orig[j as int]);
            assert(rest@ =~= orig.skip(j as int + 1));
            assert(entry_views(orig.take(j as int + 1)).drop_last() =~= entry_views(
                orig.take(j as int),
            ));
            assert(entry_views(orig.take(j as int + 1)).last() == orig[j as int]@);
        }
        let ghost out_before = out@;
        if gf_keep_exec(&e) {
            let e2 = gf_adjust_entry(e);
            out.push(e2);
            proof {
                assert(entry_views(out@) =~= entry_views(out_before).push(e2@));
            }
        }
        j = j + 1;
    }
    proof {
        assert(orig.take(n as int) =~= orig);
    }
    Familyset(out)
}

/// Applies the web-service adjustment to one surviving entry.
fn gf_adjust_entry(e: Entry) -> (r: Entry)
    ensures
        r@ == gf_entry(e@),
{
    match e {
        Entry::Alias(a) => Entry::Alias(a),
        Entry::Family(f) => {
            let mut has_ttc = false;
            let mut k: usize = 0;
            while k < f.fonts.len()
                invariant
                    k <= f.fonts@.len(),
                    has_ttc == exists|m: int|
                        0 <= m < k && has_ttc_suffix((#[trigger] f.fonts@[m])@.filename),
                decreases f.fonts@.len() - k,
            {
                if ends_with_ttc(f.fonts[k].filename.as_str()) {
                    proof {
                        assert(has_ttc_suffix(f.fonts@[k as int]@.filename));
                    }
                    has_ttc = true;
                }
                k = k + 1;
            }
            proof {
                assert forall|m: int|
                    0 <= m < f@.fonts.len() && has_ttc_suffix(
                        (#[trigger] f@.fonts[m]).filename,
                    ) implies exists|m2: int|
                    0 <= m2 < f.fonts@.len() && has_ttc_suffix(
                        (#[trigger] f.fonts@[m2])@.filename,
                    ) by {
                    assert(f.fonts@[m]@ == f@.fonts[m]);
                }
                assert forall|m: int|
                    0 <= m < f.fonts@.len() && has_ttc_suffix(
                        (#[trigger] f.fonts@[m])@.filename,
                    ) implies exists|m2: int|
                    0 <= m2 < f@.fonts.len() && has_ttc_suffix(
                        (#[trigger] f@.fonts[m2]).filename,
                    ) by {
                    assert(f@.fonts[m] == f.fonts@[m]@);
                }
            }
            if !has_ttc {
                return Entry::Family(f);
            }
            let sfx: &str;
            match &f.lang {
                None => {
                    return Entry::Family(f);
                },
                Some(l) => {
                    proof {
                        reveal_strlit("ja");
                        reveal_strlit("ko");
                        reveal_strlit("zh-Hant,zh-Bopo");
                        reveal_strlit("zh-Hans");
                        assert("ja"@.len() == 2 && "ko"@.len() == 2 && "zh-Hant,zh-Bopo"@.len()
                            == 15 && "zh-Hans"@.len() == 7);
                        assert("ja"@[0] == 'j' && "ko"@[0] == 'k');
                    }
                    if str_is(l.as_str(), "ja") {
                        sfx = "JP";
                    } else if str_is(l.as_str(), "ko") {
                        sfx = "KR";
                    } else if str_is(l.as_str(), "zh-Hant,zh-Bopo") {
                        sfx = "TC";
                    } else if str_is(l.as_str(), "zh-Hans") {
                        sfx = "SC";
                    } else {
                        return Entry::Family(f);
                    }
                },
            }
            proof {
                assert(gf_suffix(f@.lang) == Some(sfx@));
            }
            let Family { name, variant, ignore, lang, fonts } = f;
            let ghost fonts_orig = fonts@;
            let mut rest = fonts;
            let mut out: Vec<Font> = Vec::new();
            let total_f = rest.len();
            let ghost nf = fonts_orig.len();
            proof {
                assert(rest@ =~= fonts_orig.skip(0));
                assert(out@.map_values(|x: Font| x@) =~= Seq::<FontModel>::empty());
                assert(fonts_orig.take(0).map_values(|x: Font| x@).map_values(
                    |ft: FontModel| gf_font(ft, sfx@),
                ) =~= Seq::<FontModel>::empty());
            }
            let mut j: usize = 0;
            while rest.len() > 0
                invariant
                    nf == fonts_orig.len(),
                    nf == total_f as int,
                    j <= nf,
                    rest@ == fonts_orig.skip(j as int),
                    rest@.len() == nf - j,
                    out@.map_values(|x: Font| x@) == fonts_orig.take(j as int).map_values(
                        |x: Font| x@,
                    ).map_values(|ft: FontModel| gf_font(ft, sfx@)),
                decreases rest@.len(),
            {
                let ft = rest.remove(0);
                proof {
                    assert(ft == fonts_orig[j as int]);
                    assert(rest@ =~= fonts_orig.skip(j as int + 1));
                }
                let ghost out_before = out@;
                let ft2 = gf_font_exec(ft, sfx);
                out.push(ft2);
                proof {
                    assert(out@.map_values(|x: Font| x@) =~= out_before.map_values(
                        |x: Font| x@,
                    ).push(ft2@));
                    assert(fonts_orig.take(j as int + 1).map_values(|x: Font| x@).map_values(
                        |ft: FontModel| gf_font(ft, sfx@),
                    ) =~= fonts_orig.take(j as int).map_values(|x: Font| x@).map_values(
                        |ft: FontModel| gf_font(ft, sfx@),
                    ).push(gf_font(fonts_orig[j as int]@, sfx@)));
                }
                j = j + 1;
            }
            proof {
                assert(fonts_orig.take(nf as int) =~= fonts_orig);
            }
            Entry::Family(Family { name, variant, ignore, lang, fonts: out })
        },
    }
}

/// Mathematical model of a [`Font`].
pub struct FontModel {
    pub weight: int,
    pub index: Option<int>,
    pub filename: Seq<char>,
    pub style: Style,
    pub fallback_for: Option<Seq<char>>,
    pub post_script_name: Option<Seq<char>>,
}

/// Mathematical model of an [`Alias`].
pub struct AliasModel {
    pub name: Option<Seq<char>>,
    pub to: Option<Seq<char>>,
    pub weight: Option<int>,
}

/// Mathematical model of a manifest [`Family`].
pub struct FamilyEntryModel {
    pub name: Option<Seq<char>>,
    pub variant: Variant,
    pub ignore: bool,
    pub lang: Option<Seq<char>>,
    pub fonts: Seq<FontModel>,
}

/// Mathematical model of an [`Entry`].
pub enum EntryModel {
    Alias(AliasModel),
    Family(FamilyEntryModel),
}

impl View for Font {
    type V = FontModel;

    open spec fn view(&self) -> FontModel {
        FontModel {
            weight: self.weight as int,
            index: opt_num(self.index),
            filename: self.filename@,
            style: self.style,
            fallback_for: opt_text(self.fallback_for),
            post_script_name: opt_text(self.post_script_name),
        }
    }
}

impl View for Alias {
    type V = AliasModel;

    open spec fn view(&self) -> AliasModel {
        AliasModel {
            name: opt_text(self.name),
            to: opt_text(self.to),
            weight: opt_num(self.weight),
        }
    }
}

impl View for Family {
    type V = FamilyEntryModel;

    open spec fn view(&self) -> FamilyEntryModel {
        FamilyEntryModel {
            name: opt_text(self.name),
            variant: self.variant,
            ignore: self.ignore,
            lang: opt_text(self.lang),
            fonts: self.fonts@.map_values(|f: Font| f@),
        }
    }
}

impl View for Entry {
    type V = EntryModel;

    open spec fn view(&self) -> EntryModel {
        match self {
            Entry::Alias(a) => EntryModel::Alias(a@),
            Entry::Family(f) => EntryModel::Family(f@),
        }
    }
}

/// The views of an entry vector.
pub open spec fn entry_views(es: Seq<Entry>) -> Seq<EntryModel> {
    es.map_values(|e: Entry| e@)
}

/// The variant a family's acceptable attributes leave it with.
pub open spec fn spec_variant(attrs: Seq<(String, Vec<u8>)>) -> Variant {
    match variant_attr(attrs) {
        Some(v) => v,
        None => Variant::Default,
    }
}

/// The style a font's acceptable attributes leave it with.
pub open spec fn spec_style(attrs: Seq<(String, Vec<u8>)>) -> Style {
    match style_attr(attrs) {
        Some(v) => v,
        None => Style::Normal,
    }
}

/// The builder's state, mathematically.
pub struct BuildState {
    pub entries: Seq<EntryModel>,
    pub pending_font: Option<FontModel>,
    pub seen_familyset: bool,
}

/// The state a fresh builder starts from.
pub open spec fn initial_state() -> BuildState {
    BuildState { entries: Seq::empty(), pending_font: None, seen_familyset: false }
}

impl View for FamilysetBuilder {
    type V = BuildState;

    open spec fn view(&self) -> BuildState {
        BuildState {
            entries: entry_views(self.entries@),
            pending_font: match self.pending_font {
                Some(f) => Some(f@),
                None => None,
            },
            seen_familyset: self.seen_familyset,
        }
    }
}

/// What one event does to the builder's state: the transition the verified
/// [`FamilysetBuilder::step`] implements, written over the mathematical state.
pub open spec fn step_model(s: BuildState, ev: XmlEvent) -> Result<BuildState, Error> {
    match ev {
        XmlEvent::Skip | XmlEvent::Eof => Ok(s),
        XmlEvent::Other | XmlEvent::Malformed => Err(Error::MalformedManifest),
        XmlEvent::Open { name, attrs } => {
            if name@ == "familyset"@ {
                if s.seen_familyset {
                    Err(Error::MalformedManifest)
                } else {
                    Ok(BuildState {
                        entries: s.entries,
                        pending_font: s.pending_font,
                        seen_familyset: true,
                    })
                }
            } else if name@ == "family"@ {
                if family_attrs_ok(attrs@) {
                    Ok(BuildState {
                        entries: s.entries.push(EntryModel::Family(FamilyEntryModel {
                            name: str_attr(attrs@, "name"@),
                            variant: spec_variant(attrs@),
                            ignore: ignore_attr(attrs@),
                            lang: str_attr(attrs@, "lang"@),
                            fonts: Seq::empty(),
                        })),
                        pending_font: s.pending_font,
                        seen_familyset: s.seen_familyset,
                    })
                } else {
                    Err(Error::MalformedManifest)
                }
            } else if name@ == "font"@ {
                if font_attrs_ok(attrs@) {
                    Ok(BuildState {
                        entries: s.entries,
                        pending_font: Some(FontModel {
                            weight: font_weight_attr(attrs@),
                            index: num_attr(attrs@, "index"@),
                            filename: Seq::empty(),
                            style: spec_style(attrs@),
                            fallback_for: str_attr(attrs@, "fallbackFor"@),
                            post_script_name: str_attr(attrs@, "postScriptName"@),
                        }),
                        seen_familyset: s.seen_familyset,
                    })
                } else {
                    Err(Error::MalformedManifest)
                }
            } else if name@ == "alias"@ {
                if alias_attrs_ok(attrs@) {
                    Ok(BuildState {
                        entries: s.entries.push(EntryModel::Alias(AliasModel {
                            name: str_attr(attrs@, "name"@),
                            to: str_attr(attrs@, "to"@),
                            weight: num_attr(attrs@, "weight"@),
                        })),
                        pending_font: s.pending_font,
                        seen_familyset: s.seen_familyset,
                    })
                } else {
                    Err(Error::MalformedManifest)
                }
            } else if name@ == "axis"@ {
                Ok(s)
            } else {
                Err(Error::MalformedManifest)
            }
        },
        XmlEvent::Close { name } => {
            if name@ == "font"@ {
                match s.pending_font {
                    None => Ok(s),
                    Some(ft) => {
                        match s.entries.last() {
                            EntryModel::Family(fam) => {
                                if s.entries.len() > 0 {
                                    Ok(BuildState {
                                        entries: s.entries.update(
                                            s.entries.len() - 1,
                                            EntryModel::Family(FamilyEntryModel {
                                                name: fam.name,
                                                variant: fam.variant,
                                                ignore: fam.ignore,
                                                lang: fam.lang,
                                                fonts: fam.fonts.push(ft),
                                            }),
                                        ),
                                        pending_font: None,
                                        seen_familyset: s.seen_familyset,
                                    })
                                } else {
                                    Err(Error::MalformedManifest)
                                }
                            },
                            EntryModel::Alias(_) => Err(Error::MalformedManifest),
                        }
                    },
                }
            } else {
                Ok(s)
            }
        },
        XmlEvent::Text { text } => match s.pending_font {
            None => Ok(s),
            Some(ft) => Ok(BuildState {
                entries: s.entries,
                pending_font: Some(FontModel {
                    weight: ft.weight,
                    index: ft.index,
                    filename: ft.filename + text@,
                    style: ft.style,
                    fallback_for: ft.fallback_for,
                    post_script_name: ft.post_script_name,
                }),
                seen_familyset: s.seen_familyset,
            }),
        },
        XmlEvent::Ref { name, resolved } => match s.pending_font {
            None => Ok(s),
            Some(ft) => match ref_char(name@, resolved) {
                Some(c) => Ok(BuildState {
                    entries: s.entries,
                    pending_font: Some(FontModel {
                        weight: ft.weight,
                        index: ft.index,
                        filename: ft.filename + seq![c],
                        style: ft.style,
                        fallback_for: ft.fallback_for,
                        post_script_name: ft.post_script_name,
                    }),
                    seen_familyset: s.seen_familyset,
                }),
                None => Err(Error::MalformedManifest),
            },
        },
    }
}

/// What processing an event stream from a state yields: the entries at the
/// end of the document, the first refusal, or a refusal when the stream stops
/// before the end of the document.
pub open spec fn build_from(evs: Seq<XmlEvent>, s: BuildState) -> Result<Seq<EntryModel>, Error>
    decreases evs.len(),
{
    if evs.len() == 0 {
        Err(Error::MalformedManifest)
    } else if (evs.first() matches XmlEvent::Eof) {
        Ok(s.entries)
    } else {
        match step_model(s, evs.first()) {
            Ok(s2) => build_from(evs.drop_first(), s2),
            Err(e) => Err(e),
        }
    }
}

/// What parsing a manifest document denotes: the fold of the verified event
/// semantics over the document's event stream.
pub open spec fn manifest_of(s: Seq<char>) -> Result<Seq<EntryModel>, Error> {
    build_from(events_of(s), initial_state())
}

/// The event stream of a document, a pure function of its text. What this
/// crate knows of it is stated by the contract of `xml_events`.
pub uninterp spec fn events_of(s: Seq<char>) -> Seq<XmlEvent>;

/// The opaque opening-tag value of the outside XML crate.
#[verifier::external_type_specification]
#[verifier::external_body]
pub struct ExBytesStart<'a>(quick_xml::events::BytesStart<'a>);

/// The opaque event value of the outside XML crate.
#[verifier::external_type_specification]
#[verifier::external_body]
pub struct ExEvent<'a>(Event<'a>);

/// Relies on quick_xml::events::Event: tells its variants apart, one arm each,
/// moving the element name, the text, or a reference's name and the reader's
/// resolution of a numeric character reference.
#[verifier::external_body]
fn event_to_plain(ev: Event<'_>) -> (r: XmlEvent) {
    match ev {
        Event::Eof => XmlEvent::Eof,
        Event::Start(e) | Event::Empty(e) => open_event(e),
        Event::End(e) => XmlEvent::Close { name: e.local_name().as_ref().to_string() },
        Event::Text(t) => XmlEvent::Text { text: t.xml10_content().into_owned() },
        Event::GeneralRef(t) => XmlEvent::Ref {
            name: t.as_ref().to_string(),
            resolved: t.resolve_char_ref().ok().flatten(),
        },
        Event::Decl(_) | Event::Comment(_) => XmlEvent::Skip,
        _ => XmlEvent::Other,
    }
}

/// The whole event stream of a document, ending at its first end-of-document
/// or unparsable event.
///
/// Relies on quick_xml::Reader::from_str (configured to trim surrounding
/// whitespace from character data, as the manifest format expects) and its
/// read_event: the events of a document are a pure function of its text,
/// named [`events_of`]. What any event means for the manifest is decided by
/// the verified [`FamilysetBuilder::step`], whatever came back.
#[verifier::external_body]
fn xml_events(xml: &str) -> (evs: Vec<XmlEvent>)
    ensures
        evs@ == events_of(xml@),
{
    let mut r = quick_xml::Reader::from_str(xml);
    r.config_mut().trim_text(true);
    let mut evs = Vec::new();
    loop {
        let ev = match r.read_event() {
            Ok(e) => event_to_plain(e),
            Err(_) => XmlEvent::Malformed,
        };
        let done = matches!(ev, XmlEvent::Eof | XmlEvent::Malformed);
        evs.push(ev);
        if done {
            return evs;
        }
    }
}

/// Relies on quick_xml::events::BytesStart: the element's local name and its
/// attributes, each converted to its name and raw value.
#[verifier::external_body]
fn open_event(e: quick_xml::events::BytesStart<'_>) -> (ev: XmlEvent) {
    let name = e.local_name().as_ref().to_string();
    let mut attrs: Vec<(String, Vec<u8>)> = Vec::new();
    for a in e.attributes() {
        match a {
            Ok(a) => attrs.push(
                (a.key.local_name().as_ref().to_string(), a.value.as_bytes().to_vec()),
            ),
            Err(_) => return XmlEvent::Malformed,
        }
    }
    XmlEvent::Open { name, attrs }
}

/// Applies one event to the builder, establishing that the verified step is
/// exactly the mathematical transition [`step_model`].
#[verifier::rlimit(100)]
fn drive_step(b: &mut FamilysetBuilder, ev: &XmlEvent) -> (r: Result<(), Error>)
    ensures
        r matches Ok(()) ==> step_model(old(b)@, *ev) == Ok::<BuildState, Error>(final(b)@),
        r matches Err(e) ==> step_model(old(b)@, *ev) == Err::<BuildState, Error>(e),
{
    let ghost pre = b@;
    let ghost pre_entries = b.entries@;
    let ghost pre_pending = b.pending_font;
    let res = b.step(ev);
    proof {
        let evi = *ev;
        match ev {
            XmlEvent::Open { name, attrs } => {
                if name@ == "familyset"@ {
                    match res {
                        Ok(()) => {
                            assert(step_model(pre, evi) == Ok::<
                                BuildState,
                                Error,
                            >(b@));
                        },
                        Err(e) => {
                            assert(step_model(pre, evi) == Err::<
                                BuildState,
                                Error,
                            >(e));
                        },
                    }
                } else if name@ == "family"@ {
                    match res {
                        Ok(()) => {
                            assert(b.entries@ =~= pre_entries.push(
                                b.entries@.last(),
                            ));
                            assert(entry_views(b.entries@) =~= entry_views(
                                pre_entries,
                            ).push(b.entries@.last()@));
                            match b.entries@.last() {
                                Entry::Family(f) => {
                                    assert(f.fonts@.map_values(|ft: Font| ft@)
                                        =~= Seq::<FontModel>::empty());
                                    assert(b.entries@.last()@
                                        == EntryModel::Family(
                                        FamilyEntryModel {
                                            name: str_attr(attrs@, "name"@),
                                            variant: spec_variant(attrs@),
                                            ignore: ignore_attr(attrs@),
                                            lang: str_attr(attrs@, "lang"@),
                                            fonts: Seq::empty(),
                                        },
                                    ));
                                },
                                Entry::Alias(_) => {
                                    assert(false);
                                },
                            }
                            assert(step_model(pre, evi) == Ok::<
                                BuildState,
                                Error,
                            >(b@));
                        },
                        Err(e) => {
                            assert(step_model(pre, evi) == Err::<
                                BuildState,
                                Error,
                            >(e));
                        },
                    }
                } else if name@ == "font"@ {
                    match res {
                        Ok(()) => {
                            match &b.pending_font {
                                Some(ft) => {
                                    assert(ft@ == FontModel {
                                        weight: font_weight_attr(attrs@),
                                        index: num_attr(attrs@, "index"@),
                                        filename: Seq::empty(),
                                        style: spec_style(attrs@),
                                        fallback_for: str_attr(
                                            attrs@,
                                            "fallbackFor"@,
                                        ),
                                        post_script_name: str_attr(
                                            attrs@,
                                            "postScriptName"@,
                                        ),
                                    });
                                },
                                None => {
                                    assert(false);
                                },
                            }
                            assert(step_model(pre, evi) == Ok::<
                                BuildState,
                                Error,
                            >(b@));
                        },
                        Err(e) => {
                            assert(step_model(pre, evi) == Err::<
                                BuildState,
                                Error,
                            >(e));
                        },
                    }
                } else if name@ == "alias"@ {
                    match res {
                        Ok(()) => {
                            assert(b.entries@ =~= pre_entries.push(
                                b.entries@.last(),
                            ));
                            assert(entry_views(b.entries@) =~= entry_views(
                                pre_entries,
                            ).push(b.entries@.last()@));
                            match b.entries@.last() {
                                Entry::Alias(a) => {
                                    assert(b.entries@.last()@
                                        == EntryModel::Alias(
                                        AliasModel {
                                            name: str_attr(attrs@, "name"@),
                                            to: str_attr(attrs@, "to"@),
                                            weight: num_attr(attrs@, "weight"@),
                                        },
                                    ));
                                },
                                Entry::Family(_) => {
                                    assert(false);
                                },
                            }
                            assert(step_model(pre, evi) == Ok::<
                                BuildState,
                                Error,
                            >(b@));
                        },
                        Err(e) => {
                            assert(step_model(pre, evi) == Err::<
                                BuildState,
                                Error,
                            >(e));
                        },
                    }
                } else if name@ == "axis"@ {
                    match res {
                        Ok(()) => {
                            assert(step_model(pre, evi) == Ok::<
                                BuildState,
                                Error,
                            >(b@));
                        },
                        Err(_) => {
                            assert(false);
                        },
                    }
                } else {
                    match res {
                        Ok(()) => {
                            assert(false);
                        },
                        Err(e) => {
                            assert(step_model(pre, evi) == Err::<
                                BuildState,
                                Error,
                            >(e));
                        },
                    }
                }
            },
            XmlEvent::Close { name } => {
                if name@ == "font"@ {
                    match &pre_pending {
                        None => {
                            match res {
                                Ok(()) => {
                                    assert(step_model(pre, evi) == Ok::<
                                        BuildState,
                                        Error,
                                    >(b@));
                                },
                                Err(_) => {
                                    assert(false);
                                },
                            }
                        },
                        Some(ft) => {
                            match res {
                                Ok(()) => {
                                    assert(pre_entries.len() > 0);
                                    assert forall|k: int|
                                        0 <= k < pre_entries.len()
                                            - 1 implies b.entries@[k]
                                        == pre_entries[k] by {
                                        assert(b.entries@.drop_last()[k]
                                            == b.entries@[k]);
                                        assert(pre_entries.drop_last()[k]
                                            == pre_entries[k]);
                                    }
                                    assert(b.entries@ =~= pre_entries.update(
                                        pre_entries.len() - 1,
                                        b.entries@.last(),
                                    ));
                                    assert(entry_views(b.entries@)
                                        =~= entry_views(pre_entries).update(
                                        pre_entries.len() - 1,
                                        b.entries@.last()@,
                                    ));
                                    assert(pre.entries.last()
                                        == pre_entries.last()@);
                                    match (pre_entries.last(), b.entries@.last()) {
                                        (Entry::Family(f1), Entry::Family(f2)) => {
                                            assert(f2.fonts@.map_values(
                                                |x: Font| x@,
                                            ) =~= f1.fonts@.map_values(
                                                |x: Font| x@,
                                            ).push(ft@));
                                            assert(b.entries@.last()@
                                                == EntryModel::Family(
                                                FamilyEntryModel {
                                                    name: opt_text(f1.name),
                                                    variant: f1.variant,
                                                    ignore: f1.ignore,
                                                    lang: opt_text(f1.lang),
                                                    fonts: f1@.fonts.push(ft@),
                                                },
                                            ));
                                        },
                                        _ => {
                                            assert(false);
                                        },
                                    }
                                    assert(step_model(pre, evi) == Ok::<
                                        BuildState,
                                        Error,
                                    >(b@));
                                },
                                Err(e) => {
                                    assert(pre.entries.len()
                                        == pre_entries.len());
                                    if pre_entries.len() > 0 {
                                        assert(pre.entries.last()
                                            == pre_entries.last()@);
                                        match pre_entries.last() {
                                            Entry::Family(_) => {
                                                assert(false);
                                            },
                                            Entry::Alias(_) => {},
                                        }
                                    }
                                    assert(step_model(pre, evi) == Err::<
                                        BuildState,
                                        Error,
                                    >(e));
                                },
                            }
                        },
                    }
                } else {
                    match res {
                        Ok(()) => {
                            assert(step_model(pre, evi) == Ok::<
                                BuildState,
                                Error,
                            >(b@));
                        },
                        Err(_) => {
                            assert(false);
                        },
                    }
                }
            },
            XmlEvent::Text { text } => {
                match &pre_pending {
                    None => {
                        match res {
                            Ok(()) => {
                                assert(step_model(pre, evi) == Ok::<
                                    BuildState,
                                    Error,
                                >(b@));
                            },
                            Err(_) => {
                                assert(false);
                            },
                        }
                    },
                    Some(ft) => {
                        match res {
                            Ok(()) => {
                                match &b.pending_font {
                                    Some(ft2) => {
                                        assert(ft2@ == FontModel {
                                            weight: ft@.weight,
                                            index: ft@.index,
                                            filename: ft@.filename + text@,
                                            style: ft@.style,
                                            fallback_for: ft@.fallback_for,
                                            post_script_name: ft@.post_script_name,
                                        });
                                    },
                                    None => {
                                        assert(false);
                                    },
                                }
                                assert(step_model(pre, evi) == Ok::<
                                    BuildState,
                                    Error,
                                >(b@));
                            },
                            Err(_) => {
                                assert(false);
                            },
                        }
                    },
                }
            },
            XmlEvent::Ref { name, resolved } => {
                match &pre_pending {
                    None => {
                        match res {
                            Ok(()) => {
                                assert(step_model(pre, evi) == Ok::<
                                    BuildState,
                                    Error,
                                >(b@));
                            },
                            Err(_) => {
                                assert(false);
                            },
                        }
                    },
                    Some(ft) => {
                        match res {
                            Ok(()) => {
                                match ref_char(name@, *resolved) {
                                    Some(c) => {
                                        match &b.pending_font {
                                            Some(ft2) => {
                                                assert(ft2@ == FontModel {
                                                    weight: ft@.weight,
                                                    index: ft@.index,
                                                    filename: ft@.filename
                                                        + seq![c],
                                                    style: ft@.style,
                                                    fallback_for: ft@.fallback_for,
                                                    post_script_name: ft@.post_script_name,
                                                });
                                            },
                                            None => {
                                                assert(false);
                                            },
                                        }
                                    },
                                    None => {
                                        assert(false);
                                    },
                                }
                                assert(step_model(pre, evi) == Ok::<
                                    BuildState,
                                    Error,
                                >(b@));
                            },
                            Err(e) => {
                                assert(ref_char(name@, *resolved) is None);
                                assert(step_model(pre, evi) == Err::<
                                    BuildState,
                                    Error,
                                >(e));
                            },
                        }
                    },
                }
            },
            XmlEvent::Skip => {
                match res {
                    Ok(()) => {
                        assert(step_model(pre, evi) == Ok::<
                            BuildState,
                            Error,
                        >(b@));
                    },
                    Err(_) => {
                        assert(false);
                    },
                }
            },
            XmlEvent::Other | XmlEvent::Malformed => {
                match res {
                    Ok(()) => {
                        assert(false);
                    },
                    Err(e) => {
                        assert(step_model(pre, evi) == Err::<
                            BuildState,
                            Error,
                        >(e));
                    },
                }
            },
            XmlEvent::Eof => {
                match res {
                    Ok(()) => {
                        assert(step_model(pre, evi) == Ok::<
                            BuildState,
                            Error,
                        >(b@));
                    },
                    Err(_) => {
                        assert(false);
                    },
                }
            },
        }
    }
    res
}

impl Familyset {
    /// Reads a whole manifest document into its family set.
    ///
    /// The result is pinned exactly: it equals the fold of the verified
    /// per-event semantics, [`step_model`], over the document's event stream
    /// [`events_of`] — the entries the events build when the document ends
    /// cleanly, and the first refusal otherwise. A document is refused when
    /// its structure is not the manifest's or the reader cannot parse it.
    #[verifier::rlimit(100)]
    pub fn from_fonts_xml(xml: &str) -> (r: Result<Familyset, Error>)
        ensures
            r matches Ok(set) ==> manifest_of(xml@) == Ok::<Seq<EntryModel>, Error>(
                entry_views(set.0@),
            ),
            r matches Err(e) ==> manifest_of(xml@) == Err::<Seq<EntryModel>, Error>(e) && e
                == Error::MalformedManifest,
    {
        let evs = xml_events(xml);
        let mut b = FamilysetBuilder::new();
        proof {
            assert(entry_views(b.entries@) =~= Seq::<EntryModel>::empty());
            assert(b@ == initial_state());
            assert(evs@.skip(0) =~= evs@);
        }
        let mut i: usize = 0;
        while i < evs.len()
            invariant
                evs@ == events_of(xml@),
                i <= evs@.len(),
                build_from(evs@.skip(i as int), b@) == manifest_of(xml@),
            decreases evs@.len() - i,
        {
            let ghost rest = evs@.skip(i as int);
            proof {
                assert(rest.len() == evs@.len() - i);
                assert(rest.first() == evs@[i as int]);
                assert(rest.drop_first() =~= evs@.skip(i as int + 1));
            }
            let ev = &evs[i];
            proof {
                assert(*ev == evs@[i as int]);
            }
            match ev {
                XmlEvent::Eof => {
                    proof {
                        assert(build_from(rest, b@) == Ok::<Seq<EntryModel>, Error>(b@.entries));
                    }
                    return Ok(b.finish());
                },
                _ => {
                    let ghost pre = b@;
                    let res = drive_step(&mut b, ev);
                    proof {
                        let evi = evs@[i as int];
                        match res {
                            Ok(()) => {
                                assert(step_model(pre, evi) == Ok::<BuildState, Error>(b@));
                                assert(build_from(rest, pre) == build_from(
                                    evs@.skip(i as int + 1),
                                    b@,
                                ));
                            },
                            Err(e) => {
                                assert(step_model(pre, evi) == Err::<BuildState, Error>(e));
                                assert(build_from(rest, pre) == Err::<Seq<EntryModel>, Error>(e));
                            },
                        }
                    }
                    if let Err(e) = res {
                        return Err(e);
                    }
                },
            }
            i = i + 1;
        }
        proof {
            assert(evs@.skip(evs@.len() as int) =~= Seq::<XmlEvent>::empty());
        }
        Err(Error::MalformedManifest)
    }
}

} // verus!
