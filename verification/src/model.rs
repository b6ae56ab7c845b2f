//! The data model of a laid-out document.
//!
//! A page is a tree of positioned frames; the leaves that matter for text
//! extraction are text runs with their glyphs.  All geometry is held in
//! integer layout units so that every comparison the extraction heuristics
//! make is exact arithmetic; the well-formedness predicates below bound the
//! magnitudes so that no computation over a well-formed document overflows.

use vstd::prelude::*;

verus! {

/// Bound on any single coordinate, width or font size held by the model,
/// in layout units.
pub const COORD_LIMIT: i64 = 0x100_0000_0000;

/// Bound on a font's cap height, in thousandths of the font size.
pub const CAP_HEIGHT_LIMIT: i64 = 16384;

/// Bound on an accumulated absolute position during traversal: deep nesting
/// sums item offsets, and a well-formed page keeps the sum under this.
pub const POS_LIMIT: i64 = 0x10_0000_0000_0000;

/// Tolerance of the approximate position comparisons, in layout units.
pub const POS_TOLERANCE: i64 = 1;

#[verifier::external_type_specification]
#[verifier::external_body]
pub struct ExSpan(typst::syntax::Span);

/// Provenance token of a glyph: either detached (no source), or a location
/// in a source file.  `file` and `number` are the plain values the
/// extraction logic reads; `token` is the underlying syntax-tree token,
/// kept so that the reverse lookup can hand it back to the syntax layer.
#[derive(Clone, Copy)]
pub enum SpanRef {
    Detached,
    Located { file: u16, number: u64, token: typst::syntax::Span },
}

impl SpanRef {
    /// Whether this token points into `file`.
    pub open spec fn is_in_file(self, file: u16) -> bool {
        match self {
            SpanRef::Detached => false,
            SpanRef::Located { file: f, .. } => f == file,
        }
    }
}

/// Whether two provenance tokens name the same source location, judged by
/// the plain file and number fields.
pub open spec fn same_span(a: SpanRef, b: SpanRef) -> bool {
    match (a, b) {
        (SpanRef::Detached, SpanRef::Detached) => true,
        (
            SpanRef::Located { file: f1, number: n1, .. },
            SpanRef::Located { file: f2, number: n2, .. },
        ) => f1 == f2 && n1 == n2,
        _ => false,
    }
}

/// One shaped glyph of a text run.
pub struct Glyph {
    /// Provenance of the glyph.
    pub span: SpanRef,
    /// Offset of the glyph's text within its source node, in UTF-16 code
    /// units.
    pub offset: u16,
    /// Number of UTF-16 code units of the run's text the glyph covers.
    pub len: u16,
}

/// A positioned run of rendered text.
pub struct TextItem {
    /// The run's plain text, as UTF-16 code units.
    pub text: Vec<u16>,
    /// The advance width of the whole run, in layout units.
    pub width: i64,
    /// The font's cap height, in thousandths of the font size.
    pub cap_height: i64,
    /// The font size, in layout units.
    pub size: i64,
    /// The glyphs, in the same left-to-right order as the text.
    pub glyphs: Vec<Glyph>,
}

/// A position or offset, in layout units.
pub struct Pos {
    pub x: i64,
    pub y: i64,
}

/// One item of a frame.  Only groups and text runs affect extraction;
/// shapes, images and metadata are kept so that documents keep their shape,
/// but the traversal passes over them.
pub enum FrameItem {
    Group(Frame),
    Text(TextItem),
    Shape,
    Image,
    Meta,
}

/// An ordered sequence of positioned items; a page is a top-level frame.
pub struct Frame {
    pub items: Vec<(Pos, FrameItem)>,
}

/// An ordered sequence of pages.
pub struct Document {
    pub pages: Vec<Frame>,
}

pub open spec fn wf_pos(p: Pos) -> bool {
    &&& -COORD_LIMIT <= p.x <= COORD_LIMIT
    &&& -COORD_LIMIT <= p.y <= COORD_LIMIT
}

pub open spec fn wf_glyph(g: Glyph) -> bool {
    g.offset + g.len <= 0xFFFF
}

pub open spec fn wf_text_item(t: TextItem) -> bool {
    &&& 0 <= t.width <= COORD_LIMIT
    &&& 0 <= t.cap_height <= CAP_HEIGHT_LIMIT
    &&& 0 <= t.size <= COORD_LIMIT
    &&& forall|i: int| 0 <= i < t.glyphs@.len() ==> wf_glyph(#[trigger] t.glyphs@[i])
}

pub open spec fn wf_item(it: FrameItem) -> bool
    decreases it,
{
    match it {
        FrameItem::Group(g) => wf_frame(g),
        FrameItem::Text(t) => wf_text_item(t),
        _ => true,
    }
}

pub open spec fn wf_frame(f: Frame) -> bool
    decreases f,
{
    forall|i: int|
        0 <= i < f.items@.len() ==> wf_pos(#[trigger] f.items@[i].0) && wf_item(f.items@[i].1)
}

/// Nesting depth of an item: groups count their child frame, leaves count
/// nothing.
pub open spec fn item_height(it: FrameItem) -> nat
    decreases it,
{
    match it {
        FrameItem::Group(g) => frame_height(g),
        _ => 0,
    }
}

pub open spec fn items_height(s: Seq<(Pos, FrameItem)>) -> nat
    decreases s,
{
    if s.len() == 0 {
        0
    } else {
        let h0 = item_height(s[0].1);
        let hr = items_height(s.drop_first());
        if h0 > hr {
            h0
        } else {
            hr
        }
    }
}

/// Nesting depth of a frame; at least one for any frame.
pub open spec fn frame_height(f: Frame) -> nat
    decreases f,
{
    1 + items_height(f.items@)
}

/// The height of any item of a sequence is bounded by the sequence's height.
pub proof fn lemma_items_height(s: Seq<(Pos, FrameItem)>, i: int)
    requires
        0 <= i < s.len(),
    ensures
        item_height(s[i].1) <= items_height(s),
    decreases s.len(),
{
    if i > 0 {
        lemma_items_height(s.drop_first(), i - 1);
        assert(s.drop_first()[i - 1] == s[i]);
    }
}

/// A page is well formed when its frame tree is, and when its nesting is
/// shallow enough that accumulated positions stay within `POS_LIMIT`.
pub open spec fn wf_page(f: Frame) -> bool {
    &&& wf_frame(f)
    &&& COORD_LIMIT * frame_height(f) <= POS_LIMIT
}

pub open spec fn wf_document(d: Document) -> bool {
    forall|i: int| 0 <= i < d.pages@.len() ==> wf_page(#[trigger] d.pages@[i])
}

} // verus!
