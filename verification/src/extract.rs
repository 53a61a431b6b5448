//! The document structure the markdown extractor hands to the rule
//! families.

use std::ops::Range;
use vstd::prelude::*;
use crate::text::sub_ok;

verus! {

/// A heading: its level, its rendered text, the byte span of that text,
/// and the span of the whole heading line.
#[derive(Debug)]
pub struct Heading {
    pub level: u8,
    pub text: String,
    pub text_range: Range<usize>,
    pub range: Range<usize>,
}

/// The span a heading governs.
#[derive(Debug)]
pub struct Section {
    pub range: Range<usize>,
}

/// A code span or fenced block.
#[derive(Debug)]
pub struct CodeRegion {
    pub range: Range<usize>,
}

/// Counts the extractor keeps.
#[derive(Debug)]
pub struct DocStats {
    pub bold_label_items: u64,
}

/// The structure of a markdown document.
#[derive(Debug)]
pub struct Doc {
    pub headings: Vec<Heading>,
    /// One section per heading, in heading order.
    pub sections: Vec<Section>,
    pub code_regions: Vec<CodeRegion>,
    /// Emphasis spans with their inner text.
    pub emphasis: Vec<(Range<usize>, String)>,
    pub bold_label_ranges: Vec<Range<usize>>,
    pub stats: DocStats,
}

/// `r` is a slice of `b`: in order, in bounds, on character boundaries.
pub open spec fn range_ok(b: Seq<u8>, r: Range<usize>) -> bool {
    sub_ok(b, r.start as int, r.end as int)
}

/// Every span the document records is a slice of the text bytes `b`.
pub open spec fn doc_fits(doc: Doc, b: Seq<u8>) -> bool {
    &&& forall|i: int|
        0 <= i < doc.headings@.len() ==> range_ok(b, (#[trigger] doc.headings@[i]).text_range)
            && range_ok(b, doc.headings@[i].range)
    &&& forall|i: int| 0 <= i < doc.sections@.len() ==> range_ok(b, #[trigger] doc.sections@[i].range)
    &&& forall|i: int|
        0 <= i < doc.code_regions@.len() ==> range_ok(b, #[trigger] doc.code_regions@[i].range)
    &&& forall|i: int| 0 <= i < doc.emphasis@.len() ==> range_ok(b, #[trigger] doc.emphasis@[i].0)
    &&& forall|i: int|
        0 <= i < doc.bold_label_ranges@.len() ==> range_ok(b, #[trigger] doc.bold_label_ranges@[i])
}

} // verus!
