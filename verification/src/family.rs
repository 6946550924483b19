//! A font family: its identity, an optional language tag, and the set of
//! Unicode scalar values it can render.

use vstd::prelude::*;

verus! {

/// Mathematical model of a [`Family`]: the name and language tag as character
/// sequences, the coverage as a sequence of scalar values.
pub struct FamilyModel {
    pub name: Seq<char>,
    pub lang: Option<Seq<char>>,
    pub codepoints: Seq<u32>,
}

/// One font family of a fallback chain.
///
/// `codepoints` is the family's coverage: the scalar values it can render.
/// Order and duplicates in the vector carry no meaning; coverage is read as a
/// set through [`covers`].
#[derive(Debug, Clone)]
pub struct Family {
    pub name: String,
    pub lang: Option<String>,
    pub codepoints: Vec<u32>,
}

impl View for Family {
    type V = FamilyModel;

    open spec fn view(&self) -> FamilyModel {
        FamilyModel {
            name: self.name@,
            lang: match self.lang {
                Some(ref l) => Some(l@),
                None => None,
            },
            codepoints: self.codepoints@,
        }
    }
}

/// Whether the family can render the codepoint.
pub open spec fn covers(f: FamilyModel, cp: u32) -> bool {
    f.codepoints.contains(cp)
}

impl Family {
    /// Builds a family from its parts.
    pub fn new(name: String, lang: Option<String>, codepoints: Vec<u32>) -> (r: Family)
        ensures
            r@.name == name@,
            r@.lang == (match lang {
                Some(ref l) => Some(l@),
                None => None::<Seq<char>>,
            }),
            r@.codepoints == codepoints@,
    {
        Family { name, lang, codepoints }
    }

    /// Whether this family covers `cp`.
    pub fn contains(&self, cp: u32) -> (r: bool)
        ensures
            r == covers(self@, cp),
    {
        let mut i: usize = 0;
        while i < self.codepoints.len()
            invariant
                i <= self.codepoints.len(),
                forall|k: int| 0 <= k < i ==> self.codepoints@[k] != cp,
            decreases self.codepoints.len() - i,
        {
            if self.codepoints[i] == cp {
                return true;
            }
            i = i + 1;
        }
        false
    }
}

} // verus!
