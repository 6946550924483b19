//! Deriving a family name from a font file name: drop the four-character
//! extension, keep what stands before the first dash, and put a space between
//! a lowercase letter and the uppercase letter following it.

use vstd::prelude::*;

verus! {

/// An ASCII lowercase letter.
pub open spec fn is_lower(c: char) -> bool {
    'a' <= c <= 'z'
}

/// An ASCII uppercase letter.
pub open spec fn is_upper(c: char) -> bool {
    'A' <= c <= 'Z'
}

/// The position of the first dash, or the length when there is none.
pub open spec fn dash_cut(s: Seq<char>) -> int
    decreases s.len(),
{
    if s.len() == 0 {
        0
    } else if s.first() == '-' {
        0
    } else {
        1 + dash_cut(s.drop_first())
    }
}

/// The name with a space put between each lowercase letter and the uppercase
/// letter right after it.
pub open spec fn spaced(s: Seq<char>) -> Seq<char>
    decreases s.len(),
{
    if s.len() <= 1 {
        s
    } else {
        spaced(s.drop_last()) + (if is_lower(s[s.len() - 2]) && is_upper(s.last()) {
            seq![' ', s.last()]
        } else {
            seq![s.last()]
        })
    }
}

/// What a font file name reads as when taken as a family name: the name
/// without its four-character extension, cut at the first dash, with spaces
/// between its words.
pub open spec fn family_name_of(s: Seq<char>) -> Seq<char> {
    let stem = if s.len() >= 4 {
        s.take(s.len() - 4)
    } else {
        s
    };
    spaced(stem.take(dash_cut(stem)))
}

/// A prefix without a dash, then a dash or the end, pins [`dash_cut`].
proof fn lemma_dash_cut_at(s: Seq<char>, i: int)
    requires
        0 <= i <= s.len(),
        forall|k: int| 0 <= k < i ==> s[k] != '-',
        i < s.len() ==> s[i] == '-',
    ensures
        dash_cut(s) == i,
    decreases i,
{
    if s.len() == 0 {
    } else if i == 0 {
    } else {
        assert(s.first() != '-');
        let t = s.drop_first();
        assert(forall|k: int| 0 <= k < i - 1 ==> t[k] == s[k + 1]);
        assert(i - 1 < t.len() ==> t[i - 1] == s[i]);
        lemma_dash_cut_at(t, i - 1);
    }
}

/// Derives a family name from a font file name, both as their characters.
pub fn family_name_chars(s: &Vec<char>) -> (r: Vec<char>)
    ensures
        r@ == family_name_of(s@),
{
    let stem_len: usize = if s.len() >= 4 {
        s.len() - 4
    } else {
        s.len()
    };
    let ghost stem = if s@.len() >= 4 {
        s@.take(s@.len() - 4)
    } else {
        s@
    };
    proof {
        assert(stem.len() == stem_len);
        assert(forall|k: int| 0 <= k < stem_len ==> stem[k] == s@[k]);
    }
    let mut cut: usize = 0;
    while cut < stem_len && s[cut] != '-'
        invariant
            stem_len <= s@.len(),
            stem.len() == stem_len,
            forall|k: int| 0 <= k < stem_len ==> stem[k] == s@[k],
            cut <= stem_len,
            forall|k: int| 0 <= k < cut ==> stem[k] != '-',
        decreases stem_len - cut,
    {
        cut = cut + 1;
    }
    proof {
        lemma_dash_cut_at(stem, cut as int);
    }
    let ghost base = stem.take(dash_cut(stem));
    proof {
        assert(base.len() == cut);
        assert(forall|k: int| 0 <= k < cut ==> base[k] == s@[k]);
    }
    let mut out: Vec<char> = Vec::new();
    let mut j: usize = 0;
    proof {
        assert(base.take(0) =~= Seq::<char>::empty());
        assert(out@ =~= spaced(base.take(0)));
    }
    while j < cut
        invariant
            cut <= stem_len <= s@.len(),
            base.len() == cut,
            forall|k: int| 0 <= k < cut ==> base[k] == s@[k],
            j <= cut,
            out@ == spaced(base.take(j as int)),
        decreases cut - j,
    {
        proof {
            assert(base.take(j as int + 1).drop_last() =~= base.take(j as int));
            assert(base.take(j as int + 1).last() == base[j as int]);
        }
        let c = s[j];
        if j > 0 && is_lower_exec(s[j - 1]) && is_upper_exec(c) {
            out.push(' ');
            out.push(c);
            proof {
                assert(out@ =~= spaced(base.take(j as int)) + seq![' ', base[j as int]]);
            }
        } else {
            out.push(c);
            proof {
                if j == 0 {
                    assert(base.take(1int) =~= seq![base[0]]);
                    assert(out@ =~= seq![base[0]]);
                }
                assert(out@ =~= spaced(base.take(j as int)) + seq![base[j as int]]);
            }
        }
        j = j + 1;
    }
    proof {
        assert(base.take(cut as int) =~= base);
    }
    out
}

/// Whether the character is an ASCII lowercase letter.
fn is_lower_exec(c: char) -> (r: bool)
    ensures
        r == is_lower(c),
{
    'a' <= c && c <= 'z'
}

/// Whether the character is an ASCII uppercase letter.
fn is_upper_exec(c: char) -> (r: bool)
    ensures
        r == is_upper(c),
{
    'A' <= c && c <= 'Z'
}

} // verus!
