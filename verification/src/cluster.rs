//! Grapheme clusters of a text, as an outside Unicode segmentation engine
//! delimits them.
//!
//! The itemizer treats the segmenter as an opaque boundary oracle: for a given
//! text the boundaries are a pure function of its characters, named here by
//! [`graphemes_of`]. The facts stated of it are the ones the segmenter
//! documents: boundaries start at zero, end at the byte length of the text,
//! advance strictly, and delimit non-empty clusters.

use vstd::prelude::*;

use vstd::utf8::encode_utf8;

verus! {

/// Mathematical model of one grapheme cluster: its half-open byte span in the
/// text and the scalar values of its characters.
pub struct ClusterModel {
    pub start: int,
    pub end: int,
    pub cps: Seq<u32>,
}

/// One grapheme cluster: its half-open byte span `[start, end)` in the text it
/// was segmented from, and the scalar values of its characters, in order.
#[derive(Debug, Clone)]
pub struct Cluster {
    pub start: usize,
    pub end: usize,
    pub codepoints: Vec<u32>,
}

impl View for Cluster {
    type V = ClusterModel;

    open spec fn view(&self) -> ClusterModel {
        ClusterModel { start: self.start as int, end: self.end as int, cps: self.codepoints@ }
    }
}

/// The views of a cluster vector.
pub open spec fn cluster_views(cs: Seq<Cluster>) -> Seq<ClusterModel> {
    cs.map_values(|c: Cluster| c@)
}

/// The length of a character sequence in UTF-8 bytes.
pub open spec fn byte_len(s: Seq<char>) -> int {
    encode_utf8(s).len() as int
}

/// The grapheme clusters of a text, a pure function of its characters. What
/// this crate knows of it is stated by the contract of [`graphemes`].
pub uninterp spec fn graphemes_of(s: Seq<char>) -> Seq<ClusterModel>;

/// The scalar values of a text's characters.
pub open spec fn text_scalars(s: Seq<char>) -> Seq<u32> {
    s.map_values(|c: char| c as u32)
}

/// The codepoints of a cluster sequence, concatenated in cluster order.
pub open spec fn flat_codepoints(cs: Seq<ClusterModel>) -> Seq<u32>
    decreases cs.len(),
{
    if cs.len() == 0 {
        Seq::empty()
    } else {
        flat_codepoints(cs.drop_last()) + cs.last().cps
    }
}

/// Clusters that tile a span without holes: spans are non-empty and each
/// cluster holds at least one codepoint, and consecutive clusters touch.
pub open spec fn clusters_chained(cs: Seq<ClusterModel>) -> bool {
    &&& forall|i: int|
        0 <= i < cs.len() ==> (#[trigger] cs[i]).start < cs[i].end && cs[i].cps.len() > 0
    &&& forall|i: int| 0 <= i < cs.len() - 1 ==> (#[trigger] cs[i]).end == cs[i + 1].start
}

/// A full segmentation of a text of `total` bytes: chained clusters covering
/// exactly `[0, total)`.
pub open spec fn cluster_seq_wf(cs: Seq<ClusterModel>, total: int) -> bool {
    &&& clusters_chained(cs)
    &&& cs.len() > 0 ==> cs[0].start == 0 && cs[cs.len() - 1].end == total
    &&& (cs.len() == 0 <==> total == 0)
}

/// The grapheme clusters of `text`, in order.
///
/// Relies on `icu_segmenter::GraphemeClusterSegmenter::new` and its
/// `segment_str`: the returned break iterator yields byte offsets whose first
/// boundary is always 0 and whose last is the byte length of the text, in
/// strictly ascending order, and successive boundaries delimit the text's
/// grapheme clusters, each a non-empty substring; the clusters' contents
/// concatenate, in order, to the whole text.
#[verifier::external_body]
pub fn graphemes(text: &str) -> (r: Vec<Cluster>)
    ensures
        cluster_views(r@) == graphemes_of(text@),
        cluster_seq_wf(cluster_views(r@), byte_len(text@)),
        flat_codepoints(cluster_views(r@)) == text_scalars(text@),
{
    let bounds: Vec<usize> =
        icu_segmenter::GraphemeClusterSegmenter::new().segment_str(text).collect();
    bounds
        .windows(2)
        .map(|w| Cluster {
            start: w[0],
            end: w[1],
            codepoints: text[w[0]..w[1]].chars().map(|c| c as u32).collect(),
        })
        .collect()
}

} // verus!
