//! Extraction of text chunks with provenance from a document.
//!
//! The converter walks a page's frame tree depth-first, accumulating text
//! (as UTF-16 code units) and one provenance entry per code unit.  Geometry
//! drives reinsertion of the separators that layout discarded: a run at the
//! previous cursor's x continues it, a run one line height below starts a
//! new line of the same paragraph, anything else is a paragraph boundary.
//! At a paragraph boundary a converter holding more than `chunk_size`
//! mapped characters flushes; a flushed chunk is emitted only when some of
//! its characters came from the target file.
//!
//! Every step has a ghost mirror (`cs_*`, over [`CState`]); the contracts
//! pin each emitted chunk, byte for byte and entry for entry, to
//! [`spec_document`].

use vstd::prelude::*;

use crate::model::{
    frame_height, item_height, lemma_items_height, same_span, wf_document, wf_frame, wf_glyph,
    wf_item, wf_text_item, Document, Frame, FrameItem, Glyph, SpanRef, TextItem,
    CAP_HEIGHT_LIMIT, COORD_LIMIT,
    POS_LIMIT, POS_TOLERANCE,
};

verus! {

/// The line-spacing summand of the next-line heuristic, in thousandths of
/// the font size: a run whose baseline sits cap height plus this far below
/// the previous cursor is read as the next line of the same paragraph.
pub const LINE_SPACING_MILLI: i64 = 650;

/// One provenance entry: a token and the half-open sub-range
/// `[start, end)` it covers within its source node, in UTF-16 code units.
pub struct MapEntry {
    pub span: SpanRef,
    pub start: u16,
    pub end: u16,
}

/// The provenance mapping of one chunk: entry `i` describes the chunk
/// text's code unit `i`.
pub struct Mapping {
    pub entries: Vec<MapEntry>,
}

impl View for Mapping {
    type V = Seq<MapEntry>;

    open spec fn view(&self) -> Seq<MapEntry> {
        self.entries@
    }
}

/// A maximal, size-bounded, contiguous unit of extracted text belonging to
/// one page, with its aligned provenance mapping.
pub struct Chunk {
    pub text: Vec<u16>,
    pub mapping: Mapping,
}

/// Ghost image of a chunk.
#[verifier::ext_equal]
pub ghost struct GChunk {
    pub text: Seq<u16>,
    pub map: Seq<MapEntry>,
}

impl View for Chunk {
    type V = GChunk;

    open spec fn view(&self) -> GChunk {
        GChunk { text: self.text@, map: self.mapping@ }
    }
}

pub open spec fn views(s: Seq<Chunk>) -> Seq<GChunk> {
    s.map_values(|c: Chunk| c@)
}

/// Ghost state of a converter.
#[verifier::ext_equal]
pub ghost struct CState {
    pub text: Seq<u16>,
    pub map: Seq<MapEntry>,
    pub x: int,
    pub y: int,
    pub last_span: SpanRef,
    pub last_end: u16,
    pub contains: bool,
    pub chunk_size: nat,
}

pub open spec fn detached_entry() -> MapEntry {
    MapEntry { span: SpanRef::Detached, start: 0, end: 0 }
}

pub open spec fn cs_fresh(chunk_size: nat) -> CState {
    CState {
        text: Seq::empty(),
        map: Seq::empty(),
        x: 0,
        y: 0,
        last_span: SpanRef::Detached,
        last_end: 0,
        contains: false,
        chunk_size,
    }
}

pub open spec fn chunk_of(s: CState) -> GChunk {
    GChunk { text: s.text, map: s.map }
}

/// Approximate equality of two positions, within `POS_TOLERANCE`.
pub open spec fn near(a: int, b: int) -> bool {
    -(POS_TOLERANCE as int) <= a - b <= POS_TOLERANCE as int
}

/// Vertical distance at which a run reads as the next line of the same
/// paragraph: cap height plus the line spacing, at the run's font size.
pub open spec fn line_offset(t: TextItem) -> int {
    (t.cap_height + LINE_SPACING_MILLI) * t.size / 1000
}

/// Whether some entry of `es` points into `file`.
pub open spec fn any_in_file(es: Seq<MapEntry>, file: u16) -> bool {
    exists|i: int| 0 <= i < es.len() && (#[trigger] es[i]).span.is_in_file(file)
}

/// The (token, sub-range end) of the last located entry of `es`, or `prev`
/// if every entry is detached.
pub open spec fn last_loc(es: Seq<MapEntry>, prev: (SpanRef, u16)) -> (SpanRef, u16)
    decreases es.len(),
{
    if es.len() == 0 {
        prev
    } else if !(es.last().span is Detached) {
        (es.last().span, es.last().end)
    } else {
        last_loc(es.drop_last(), prev)
    }
}

/// The entries contributed by the first `take` character positions of one
/// glyph: each position gets a one-unit-wide slice of the glyph's range.
pub open spec fn glyph_piece(g: Glyph, take: int) -> Seq<MapEntry> {
    Seq::new(
        take as nat,
        |j: int|
            MapEntry {
                span: g.span,
                start: (g.offset + j) as u16,
                end: (g.offset + j + 1) as u16,
            },
    )
}

/// The mapping entries of a run of `n` character positions: glyphs are
/// consumed in order, each covering as many positions as its length;
/// positions left after the glyphs are exhausted get detached entries.
pub open spec fn glyph_entries(gs: Seq<Glyph>, n: int) -> Seq<MapEntry>
    decreases gs.len(),
{
    if n <= 0 {
        Seq::empty()
    } else if gs.len() == 0 {
        Seq::new(n as nat, |j: int| detached_entry())
    } else {
        let take = if gs[0].len as int <= n {
            gs[0].len as int
        } else {
            n
        };
        glyph_piece(gs[0], take) + glyph_entries(gs.drop_first(), n - take)
    }
}

/// Inserting a synthetic space: one space code unit, one detached entry.
pub open spec fn cs_insert_space(s: CState) -> CState {
    CState { text: s.text.push(32u16), map: s.map.push(detached_entry()), ..s }
}

/// Handing the accumulated chunk off: it is emitted only when it holds a
/// character of the target file, and the converter starts over.
pub open spec fn cs_separate(s: CState) -> (CState, Seq<GChunk>) {
    (
        cs_fresh(s.chunk_size),
        if s.contains {
            seq![chunk_of(s)]
        } else {
            Seq::empty()
        },
    )
}

/// A paragraph boundary: flush if the converter already exceeds its chunk
/// size, else append a blank line (two newline units, detached entries).
pub open spec fn cs_parbreak(s: CState) -> (CState, Seq<GChunk>) {
    if s.map.len() > s.chunk_size {
        cs_separate(s)
    } else {
        (
            CState {
                text: s.text + seq![10u16, 10u16],
                map: s.map + seq![detached_entry(), detached_entry()],
                ..s
            },
            Seq::empty(),
        )
    }
}

/// The whitespace heuristic, run before a text run at `(px, py)`:
/// a run at the previous x continues the same run; a run one line height
/// below continues the paragraph (and continues the very same source run,
/// with nothing inserted, when its first glyph starts exactly where the
/// last located glyph ended); anything else is a paragraph boundary.
pub open spec fn cs_whitespace(s: CState, t: TextItem, px: int, py: int) -> (CState, Seq<
    GChunk,
>) {
    if near(s.x, px) {
        (s, Seq::empty())
    } else if near(s.y + line_offset(t), py) {
        if t.glyphs@.len() > 0 && same_span(t.glyphs@[0].span, s.last_span)
            && t.glyphs@[0].offset == s.last_end {
            (s, Seq::empty())
        } else {
            (cs_insert_space(s), Seq::empty())
        }
    } else {
        cs_parbreak(s)
    }
}

/// Processing one text run: the whitespace heuristic, then the run's text
/// and its per-unit provenance entries; the cursor moves to the run's end.
pub open spec fn cs_text(s: CState, t: TextItem, px: int, py: int, file: u16) -> (CState, Seq<
    GChunk,
>) {
    let (s1, em) = cs_whitespace(s, t, px, py);
    let entries = glyph_entries(t.glyphs@, t.text@.len() as int);
    let tracked_loc = last_loc(entries, (s1.last_span, s1.last_end));
    (
        CState {
            text: s1.text + t.text@,
            map: s1.map + entries,
            x: px + t.width,
            y: py,
            last_span: tracked_loc.0,
            last_end: tracked_loc.1,
            contains: s1.contains || any_in_file(entries, file),
            chunk_size: s1.chunk_size,
        },
        em,
    )
}

/// Processing one frame item at absolute position `(px, py)`: groups
/// recurse, text runs extract, everything else is passed over.
pub open spec fn cs_item(s: CState, px: int, py: int, it: FrameItem, file: u16) -> (CState, Seq<
    GChunk,
>)
    decreases it, 0int,
{
    match it {
        FrameItem::Group(g) => cs_frame_upto(s, g, g.items@.len() as int, px, py, file),
        FrameItem::Text(t) => cs_text(s, t, px, py, file),
        _ => (s, Seq::empty()),
    }
}

/// Fold of the first `i` items of `f`, each at `base` plus its offset.
pub open spec fn cs_frame_upto(s: CState, f: Frame, i: int, px: int, py: int, file: u16) -> (
    CState,
    Seq<GChunk>,
)
    decreases f, i,
{
    if i <= 0 || f.items@.len() < i {
        (s, Seq::empty())
    } else {
        let prev = cs_frame_upto(s, f, i - 1, px, py, file);
        let slot = f.items@[i - 1];
        let step = cs_item(prev.0, px + slot.0.x, py + slot.0.y, slot.1, file);
        (step.0, prev.1 + step.1)
    }
}

/// One page: a fresh converter walks the page frame from the origin, and
/// what remains at the end is emitted if it holds the target file.
pub open spec fn spec_page(f: Frame, chunk_size: nat, file: u16) -> Seq<GChunk> {
    let end = cs_frame_upto(cs_fresh(chunk_size), f, f.items@.len() as int, 0, 0, file);
    if end.0.contains {
        end.1.push(chunk_of(end.0))
    } else {
        end.1
    }
}

pub open spec fn spec_document_upto(d: Document, i: int, chunk_size: nat, file: u16) -> Seq<
    GChunk,
>
    decreases i,
{
    if i <= 0 {
        Seq::empty()
    } else {
        spec_document_upto(d, i - 1, chunk_size, file) + spec_page(
            d.pages@[i - 1],
            chunk_size,
            file,
        )
    }
}

/// The chunks of a whole document: each page's chunks, in page order.
pub open spec fn spec_document(d: Document, chunk_size: nat, file: u16) -> Seq<GChunk> {
    spec_document_upto(d, d.pages@.len() as int, chunk_size, file)
}

/// The converter invariant: text and mapping are aligned code unit for
/// entry, the target-file flag agrees with the mapping's contents, and the
/// cursor stays within the bounds traversal maintains.
pub open spec fn cs_inv(s: CState, file: u16) -> bool {
    &&& s.text.len() == s.map.len()
    &&& s.contains == any_in_file(s.map, file)
    &&& -(POS_LIMIT + COORD_LIMIT) <= s.x <= POS_LIMIT + COORD_LIMIT
    &&& -POS_LIMIT <= s.y <= POS_LIMIT
}

/// A chunk is good for `file` when its mapping is aligned with its text
/// and some entry points into `file`.
pub open spec fn good_chunk(c: GChunk, file: u16) -> bool {
    &&& c.map.len() == c.text.len()
    &&& any_in_file(c.map, file)
}

pub open spec fn good_chunks(cs: Seq<GChunk>, file: u16) -> bool {
    forall|i: int| 0 <= i < cs.len() ==> good_chunk(#[trigger] cs[i], file)
}

proof fn lemma_any_in_file_append(a: Seq<MapEntry>, b: Seq<MapEntry>, file: u16)
    ensures
        any_in_file(a + b, file) == (any_in_file(a, file) || any_in_file(b, file)),
{
    if any_in_file(a, file) {
        let i = choose|i: int| 0 <= i < a.len() && (#[trigger] a[i]).span.is_in_file(file);
        assert((a + b)[i].span.is_in_file(file));
    }
    if any_in_file(b, file) {
        let i = choose|i: int| 0 <= i < b.len() && (#[trigger] b[i]).span.is_in_file(file);
        assert((a + b)[a.len() + i].span.is_in_file(file));
    }
    if any_in_file(a + b, file) {
        let i = choose|i: int|
            0 <= i < (a + b).len() && (#[trigger] (a + b)[i]).span.is_in_file(file);
        if i < a.len() {
            assert(a[i].span.is_in_file(file));
        } else {
            assert(b[i - a.len()].span.is_in_file(file));
        }
    }
}

/// Appending one entry updates the tracked location and the target-file
/// test in the obvious way.
proof fn lemma_track_push(es: Seq<MapEntry>, e: MapEntry, prev: (SpanRef, u16), file: u16)
    ensures
        last_loc(es.push(e), prev) == if !(e.span is Detached) {
            (e.span, e.end)
        } else {
            last_loc(es, prev)
        },
        any_in_file(es.push(e), file) == (any_in_file(es, file) || e.span.is_in_file(file)),
{
    assert(es.push(e).last() == e);
    assert(es.push(e).drop_last() =~= es);
    lemma_any_in_file_append(es, seq![e], file);
    assert(es.push(e) =~= es + seq![e]);
    if any_in_file(seq![e], file) {
        assert(seq![e][0] == e);
    }
    if e.span.is_in_file(file) {
        assert(seq![e][0].span.is_in_file(file));
    }
}

/// The flush policy preserves the converter invariant, and what it emits
/// is a good chunk.
proof fn lemma_parbreak_inv(s: CState, file: u16)
    requires
        cs_inv(s, file),
    ensures
        cs_inv(cs_parbreak(s).0, file),
        good_chunks(cs_parbreak(s).1, file),
        cs_parbreak(s).0.chunk_size == s.chunk_size,
{
    if s.map.len() > s.chunk_size {
        assert(!any_in_file(Seq::<MapEntry>::empty(), file));
    } else {
        let dd = seq![detached_entry(), detached_entry()];
        lemma_any_in_file_append(s.map, dd, file);
        assert(!any_in_file(dd, file)) by {
            assert(forall|i: int| 0 <= i < dd.len() ==> !(#[trigger] dd[i]).span.is_in_file(file));
        }
    }
}

/// A run's entries cover exactly its character positions.
proof fn lemma_glyph_entries_len(gs: Seq<Glyph>, n: int)
    ensures
        glyph_entries(gs, n).len() == if n <= 0 {
            0int
        } else {
            n
        },
    decreases gs.len(),
{
    if n > 0 && gs.len() > 0 {
        let take = if gs[0].len as int <= n {
            gs[0].len as int
        } else {
            n
        };
        lemma_glyph_entries_len(gs.drop_first(), n - take);
    }
}

/// The whitespace heuristic preserves the converter invariant, and what it
/// emits is good.
proof fn lemma_whitespace_inv(s: CState, t: TextItem, px: int, py: int, file: u16)
    requires
        cs_inv(s, file),
    ensures
        cs_inv(cs_whitespace(s, t, px, py).0, file),
        good_chunks(cs_whitespace(s, t, px, py).1, file),
        cs_whitespace(s, t, px, py).0.chunk_size == s.chunk_size,
{
    if near(s.x, px) {
    } else if near(s.y + line_offset(t), py) {
        if t.glyphs@.len() > 0 && same_span(t.glyphs@[0].span, s.last_span)
            && t.glyphs@[0].offset == s.last_end {
        } else {
            lemma_track_push(s.map, detached_entry(), (s.last_span, s.last_end), file);
        }
    } else {
        lemma_parbreak_inv(s, file);
    }
}

/// Position budget of the traversal: entering a subtree of height `h`, the
/// accumulated position leaves room for `h` more item offsets.
pub open spec fn budget_ok(p: int, h: nat) -> bool {
    -POS_LIMIT + COORD_LIMIT * h <= p <= POS_LIMIT - COORD_LIMIT * h
}

fn near_i64(a: i64, b: i64) -> (r: bool)
    requires
        -0x80_0000_0000_0000 <= a <= 0x80_0000_0000_0000,
        -0x80_0000_0000_0000 <= b <= 0x80_0000_0000_0000,
    ensures
        r == near(a as int, b as int),
{
    if a >= b {
        a - b <= POS_TOLERANCE
    } else {
        b - a <= POS_TOLERANCE
    }
}

fn line_offset_i64(t: &TextItem) -> (r: i64)
    requires
        wf_text_item(*t),
    ensures
        r == line_offset(*t),
        0 <= r <= 0x4000_0000_0000,
{
    proof {
        assert((t.cap_height + LINE_SPACING_MILLI) * t.size <= (CAP_HEIGHT_LIMIT
            + LINE_SPACING_MILLI) * COORD_LIMIT) by (nonlinear_arith)
            requires
                0 <= t.cap_height <= CAP_HEIGHT_LIMIT,
                0 <= t.size <= COORD_LIMIT,
        ;
        assert(0 <= (t.cap_height + LINE_SPACING_MILLI) * t.size) by (nonlinear_arith)
            requires
                0 <= t.cap_height,
                0 <= t.size,
        ;
    }
    let prod = (t.cap_height + LINE_SPACING_MILLI) * t.size;
    prod / 1000
}

/// The transient accumulator of one page's (or, after a flush, one
/// chunk's) extraction.
struct Converter {
    text: Vec<u16>,
    mapping: Mapping,
    x: i64,
    y: i64,
    last_span: SpanRef,
    last_end: u16,
    chunk_size: usize,
    contains_file: bool,
}

impl View for Converter {
    type V = CState;

    closed spec fn view(&self) -> CState {
        CState {
            text: self.text@,
            map: self.mapping@,
            x: self.x as int,
            y: self.y as int,
            last_span: self.last_span,
            last_end: self.last_end,
            contains: self.contains_file,
            chunk_size: self.chunk_size as nat,
        }
    }
}

impl Converter {
    fn new(chunk_size: usize) -> (r: Self)
        ensures
            r@ == cs_fresh(chunk_size as nat),
    {
        let r = Converter {
            text: Vec::new(),
            mapping: Mapping { entries: Vec::new() },
            x: 0,
            y: 0,
            last_span: SpanRef::Detached,
            last_end: 0,
            chunk_size,
            contains_file: false,
        };
        proof {
            assert(r@ =~= cs_fresh(chunk_size as nat));
        }
        r
    }

    fn insert_space(&mut self)
        ensures
            final(self)@ == cs_insert_space(old(self)@),
    {
        let ghost s0 = self@;
        self.text.push(32);
        self.mapping.entries.push(MapEntry { span: SpanRef::Detached, start: 0, end: 0 });
        proof {
            assert(self@ =~= cs_insert_space(s0));
        }
    }

    fn separate(&mut self, res: &mut Vec<Chunk>)
        ensures
            final(self)@ == cs_separate(old(self)@).0,
            views(final(res)@) == views(old(res)@) + cs_separate(old(self)@).1,
    {
        let ghost s0 = self@;
        let ghost r0 = res@;
        let mut prev = Converter::new(self.chunk_size);
        core::mem::swap(self, &mut prev);
        if prev.contains_file {
            res.push(Chunk { text: prev.text, mapping: prev.mapping });
        }
        proof {
            assert(self@ =~= cs_separate(s0).0);
            if s0.contains {
                assert(res@.last()@ =~= chunk_of(s0));
                assert(views(res@) =~= views(r0) + cs_separate(s0).1);
            } else {
                assert(views(res@) =~= views(r0) + cs_separate(s0).1);
            }
        }
    }

    fn insert_parbreak(&mut self, res: &mut Vec<Chunk>)
        ensures
            final(self)@ == cs_parbreak(old(self)@).0,
            views(final(res)@) == views(old(res)@) + cs_parbreak(old(self)@).1,
    {
        if self.mapping.entries.len() > self.chunk_size {
            self.separate(res);
            return ;
        }
        let ghost s0 = self@;
        let ghost r0 = res@;
        self.text.push(10);
        self.text.push(10);
        self.mapping.entries.push(MapEntry { span: SpanRef::Detached, start: 0, end: 0 });
        self.mapping.entries.push(MapEntry { span: SpanRef::Detached, start: 0, end: 0 });
        proof {
            assert(self@.text =~= s0.text + seq![10u16, 10u16]);
            assert(self@.map =~= s0.map + seq![detached_entry(), detached_entry()]);
            assert(self@ =~= cs_parbreak(s0).0);
            assert(views(res@) =~= views(r0) + cs_parbreak(s0).1);
        }
    }

    fn whitespace(&mut self, t: &TextItem, px: i64, py: i64, res: &mut Vec<Chunk>)
        requires
            wf_text_item(*t),
            -POS_LIMIT <= px <= POS_LIMIT,
            -POS_LIMIT <= py <= POS_LIMIT,
            -(POS_LIMIT + COORD_LIMIT) <= old(self)@.x <= POS_LIMIT + COORD_LIMIT,
            -POS_LIMIT <= old(self)@.y <= POS_LIMIT,
        ensures
            final(self)@ == cs_whitespace(old(self)@, *t, px as int, py as int).0,
            views(final(res)@) == views(old(res)@) + cs_whitespace(old(self)@, *t, px as int, py as int).1,
    {
        let ghost s0 = self@;
        if near_i64(self.x, px) {
            proof {
                assert(views(res@) =~= views(res@) + Seq::<GChunk>::empty());
            }
            return ;
        }
        let lo = line_offset_i64(t);
        if !near_i64(self.y + lo, py) {
            self.insert_parbreak(res);
            return ;
        }
        let continues = if t.glyphs.len() > 0 {
            let g0_offset = t.glyphs[0].offset;
            let matches_last = match (&t.glyphs[0].span, &self.last_span) {
                (
                    SpanRef::Located { file: f1, number: n1, .. },
                    SpanRef::Located { file: f2, number: n2, .. },
                ) => *f1 == *f2 && *n1 == *n2,
                (SpanRef::Detached, SpanRef::Detached) => true,
                _ => false,
            };
            matches_last && g0_offset == self.last_end
        } else {
            false
        };
        proof {
            assert(continues == (t.glyphs@.len() > 0 && same_span(t.glyphs@[0].span, s0.last_span)
                && t.glyphs@[0].offset == s0.last_end));
        }
        if continues {
            proof {
                assert(views(res@) =~= views(res@) + Seq::<GChunk>::empty());
            }
            return ;
        }
        self.insert_space();
        proof {
            assert(views(res@) =~= views(res@) + Seq::<GChunk>::empty());
        }
    }

    fn item(&mut self, px: i64, py: i64, it: &FrameItem, res: &mut Vec<Chunk>, file_id: u16)
        requires
            wf_item(*it),
            cs_inv(old(self)@, file_id),
            budget_ok(px as int, item_height(*it)),
            budget_ok(py as int, item_height(*it)),
        ensures
            cs_inv(final(self)@, file_id),
            final(self)@ == cs_item(old(self)@, px as int, py as int, *it, file_id).0,
            views(final(res)@) == views(old(res)@) + cs_item(
                old(self)@,
                px as int,
                py as int,
                *it,
                file_id,
            ).1,
            good_chunks(cs_item(old(self)@, px as int, py as int, *it, file_id).1, file_id),
        decreases *it,
    {
        let ghost s0 = self@;
        let ghost r0 = res@;
        match it {
            FrameItem::Group(g) => {
                self.frame(g, px, py, res, file_id);
            },
            FrameItem::Text(t) => {
                self.whitespace(t, px, py, res);
                proof {
                    lemma_whitespace_inv(s0, *t, px as int, py as int, file_id);
                }
                let ghost s1 = self@;
                let ghost em = cs_whitespace(s0, *t, px as int, py as int).1;
                self.x = px + t.width;
                self.y = py;
                let n = t.text.len();
                let mut ci: usize = 0;
                while ci < n
                    invariant
                        ci <= n,
                        n == t.text@.len(),
                        self.text@ == s1.text + t.text@.take(ci as int),
                        self.mapping@ == s1.map,
                        self.x == px + t.width,
                        self.y == py,
                        self.last_span == s1.last_span,
                        self.last_end == s1.last_end,
                        self.contains_file == s1.contains,
                        self.chunk_size as nat == s1.chunk_size,
                    decreases n - ci,
                {
                    let u = t.text[ci];
                    self.text.push(u);
                    proof {
                        assert(s1.text + t.text@.take(ci + 1) =~= (s1.text + t.text@.take(
                            ci as int,
                        )).push(u));
                    }
                    ci += 1;
                }
                proof {
                    assert(t.text@.take(n as int) =~= t.text@);
                }
                let ghost entries = glyph_entries(t.glyphs@, n as int);
                let ghost prev0 = (s1.last_span, s1.last_end);
                let ghost mut pushed: Seq<MapEntry> = Seq::empty();
                proof {
                    assert(s1.map + pushed =~= s1.map);
                    assert(t.glyphs@.skip(0) =~= t.glyphs@);
                    assert(pushed + glyph_entries(t.glyphs@.skip(0), n as int) =~= entries);
                }
                let mut produced: usize = 0;
                let mut gi: usize = 0;
                while gi < t.glyphs.len() && produced < n
                    invariant
                        produced <= n,
                        gi <= t.glyphs@.len(),
                        n == t.text@.len(),
                        wf_text_item(*t),
                        pushed.len() == produced,
                        self.mapping@ == s1.map + pushed,
                        pushed + glyph_entries(t.glyphs@.skip(gi as int), n - produced)
                            == entries,
                        self.last_span == last_loc(pushed, prev0).0,
                        self.last_end == last_loc(pushed, prev0).1,
                        self.contains_file == (s1.contains || any_in_file(pushed, file_id)),
                        self.text@ == s1.text + t.text@,
                        self.x == px + t.width,
                        self.y == py,
                        self.chunk_size as nat == s1.chunk_size,
                    decreases t.glyphs@.len() - gi,
                {
                    let g_len = t.glyphs[gi].len;
                    let g_off = t.glyphs[gi].offset;
                    let g_span = t.glyphs[gi].span;
                    let ghost g = t.glyphs@[gi as int];
                    let rem = n - produced;
                    let take: usize = if (g_len as usize) <= rem {
                        g_len as usize
                    } else {
                        rem
                    };
                    let ghost pushed_base = pushed;
                    let mut j: usize = 0;
                    while j < take
                        invariant
                            j <= take,
                            take == if g.len as int <= n - produced {
                                g.len as int
                            } else {
                                n - produced
                            },
                            produced + take <= n,
                            n == t.text@.len(),
                            wf_glyph(g),
                            g == t.glyphs@[gi as int],
                            gi < t.glyphs@.len(),
                            g_len == g.len,
                            g_off == g.offset,
                            g_span == g.span,
                            pushed == pushed_base + glyph_piece(g, j as int),
                            pushed.len() == produced + j,
                            self.mapping@ == s1.map + pushed,
                            self.last_span == last_loc(pushed, prev0).0,
                            self.last_end == last_loc(pushed, prev0).1,
                            self.contains_file == (s1.contains || any_in_file(pushed, file_id)),
                            self.text@ == s1.text + t.text@,
                            self.x == px + t.width,
                            self.y == py,
                            self.chunk_size as nat == s1.chunk_size,
                        decreases take - j,
                    {
                        let start = g_off + (j as u16);
                        let e = MapEntry { span: g_span, start, end: start + 1 };
                        self.mapping.entries.push(e);
                        match &g_span {
                            SpanRef::Located { file, .. } => {
                                self.last_span = g_span;
                                self.last_end = start + 1;
                                if *file == file_id {
                                    self.contains_file = true;
                                }
                            },
                            SpanRef::Detached => {},
                        }
                        proof {
                            lemma_track_push(pushed, e, prev0, file_id);
                            assert(glyph_piece(g, j + 1) =~= glyph_piece(g, j as int).push(e));
                            assert(pushed_base + glyph_piece(g, j + 1) =~= (pushed_base
                                + glyph_piece(g, j as int)).push(e));
                            pushed = pushed.push(e);
                        }
                        j += 1;
                    }
                    proof {
                        let gs_rest = t.glyphs@.skip(gi as int);
                        assert(gs_rest[0] == g);
                        assert(gs_rest.drop_first() =~= t.glyphs@.skip(gi + 1));
                        assert(glyph_entries(gs_rest, n - produced) == glyph_piece(g, take as int)
                            + glyph_entries(t.glyphs@.skip(gi + 1), n - produced - take));
                        assert(pushed_base + (glyph_piece(g, take as int) + glyph_entries(
                            t.glyphs@.skip(gi + 1),
                            n - produced - take,
                        )) =~= (pushed_base + glyph_piece(g, take as int)) + glyph_entries(
                            t.glyphs@.skip(gi + 1),
                            n - produced - take,
                        ));
                    }
                    produced = produced + take;
                    gi += 1;
                }
                while produced < n
                    invariant
                        produced <= n,
                        n == t.text@.len(),
                        gi <= t.glyphs@.len(),
                        gi == t.glyphs@.len() || produced == n,
                        pushed.len() == produced,
                        self.mapping@ == s1.map + pushed,
                        pushed + glyph_entries(t.glyphs@.skip(gi as int), n - produced)
                            == entries,
                        self.last_span == last_loc(pushed, prev0).0,
                        self.last_end == last_loc(pushed, prev0).1,
                        self.contains_file == (s1.contains || any_in_file(pushed, file_id)),
                        self.text@ == s1.text + t.text@,
                        self.x == px + t.width,
                        self.y == py,
                        self.chunk_size as nat == s1.chunk_size,
                    decreases n - produced,
                {
                    let e = MapEntry { span: SpanRef::Detached, start: 0, end: 0 };
                    self.mapping.entries.push(e);
                    proof {
                        lemma_track_push(pushed, e, prev0, file_id);
                        let gs_rest = t.glyphs@.skip(gi as int);
                        assert(gs_rest.len() == 0);
                        assert(pushed.push(e) + glyph_entries(gs_rest, n - produced - 1) =~= pushed
                            + glyph_entries(gs_rest, n - produced));
                        pushed = pushed.push(e);
                    }
                    produced += 1;
                }
                proof {
                    if produced == n && n > 0 {
                        assert(glyph_entries(t.glyphs@.skip(gi as int), 0) =~= Seq::<
                            MapEntry,
                        >::empty());
                    }
                    assert(pushed + glyph_entries(t.glyphs@.skip(gi as int), n - produced)
                        =~= pushed);
                    assert(pushed =~= entries);
                    assert(self@ =~= cs_text(s0, *t, px as int, py as int, file_id).0);
                    assert(views(res@) == views(r0) + cs_text(
                        s0,
                        *t,
                        px as int,
                        py as int,
                        file_id,
                    ).1);
                    lemma_glyph_entries_len(t.glyphs@, n as int);
                    lemma_any_in_file_append(s1.map, entries, file_id);
                    assert(cs_inv(self@, file_id));
                }
            },
            FrameItem::Shape => {
                proof {
                    assert(views(res@) =~= views(r0) + Seq::<GChunk>::empty());
                }
            },
            FrameItem::Image => {
                proof {
                    assert(views(res@) =~= views(r0) + Seq::<GChunk>::empty());
                }
            },
            FrameItem::Meta => {
                proof {
                    assert(views(res@) =~= views(r0) + Seq::<GChunk>::empty());
                }
            },
        }
    }

    fn frame(&mut self, f: &Frame, px: i64, py: i64, res: &mut Vec<Chunk>, file_id: u16)
        requires
            wf_frame(*f),
            cs_inv(old(self)@, file_id),
            budget_ok(px as int, frame_height(*f)),
            budget_ok(py as int, frame_height(*f)),
        ensures
            cs_inv(final(self)@, file_id),
            final(self)@ == cs_frame_upto(
                old(self)@,
                *f,
                f.items@.len() as int,
                px as int,
                py as int,
                file_id,
            ).0,
            views(final(res)@) == views(old(res)@) + cs_frame_upto(
                old(self)@,
                *f,
                f.items@.len() as int,
                px as int,
                py as int,
                file_id,
            ).1,
            good_chunks(
                cs_frame_upto(
                    old(self)@,
                    *f,
                    f.items@.len() as int,
                    px as int,
                    py as int,
                    file_id,
                ).1,
                file_id,
            ),
        decreases *f,
    {
        let ghost s0 = self@;
        let ghost r0 = res@;
        let mut i: usize = 0;
        while i < f.items.len()
            invariant
                i <= f.items@.len(),
                wf_frame(*f),
                budget_ok(px as int, frame_height(*f)),
                budget_ok(py as int, frame_height(*f)),
                cs_inv(self@, file_id),
                self@ == cs_frame_upto(s0, *f, i as int, px as int, py as int, file_id).0,
                views(res@) == views(r0) + cs_frame_upto(
                    s0,
                    *f,
                    i as int,
                    px as int,
                    py as int,
                    file_id,
                ).1,
                good_chunks(
                    cs_frame_upto(s0, *f, i as int, px as int, py as int, file_id).1,
                    file_id,
                ),
            decreases f.items@.len() - i,
        {
            let ghost before = cs_frame_upto(s0, *f, i as int, px as int, py as int, file_id);
            proof {
                lemma_items_height(f.items@, i as int);
            }
            let ox = f.items[i].0.x;
            let oy = f.items[i].0.y;
            let cx = px + ox;
            let cy = py + oy;
            let it = &f.items[i].1;
            self.item(cx, cy, it, res, file_id);
            proof {
                let step = cs_item(before.0, cx as int, cy as int, *it, file_id);
                let after = cs_frame_upto(s0, *f, i + 1, px as int, py as int, file_id);
                assert(after.0 == step.0);
                assert(after.1 =~= before.1 + step.1);
                assert(views(res@) =~= (views(r0) + before.1) + step.1);
                assert(views(res@) =~= views(r0) + after.1);
            }
            i += 1;
        }
    }
}

/// Converts a laid-out document into chunks of plain text, each aligned,
/// code unit for entry, with the provenance mapping that records which
/// source location produced every character.  Only chunks holding at least
/// one character of `file_id` are emitted, in page order; a chunk's mapped
/// size exceeds `chunk_size` only by the single paragraph that overflowed
/// it.  The result is pinned to [`spec_document`], a function of the
/// inputs alone.
pub fn document(doc: &Document, chunk_size: usize, file_id: u16) -> (res: Vec<Chunk>)
    requires
        wf_document(*doc),
    ensures
        views(res@) == spec_document(*doc, chunk_size as nat, file_id),
        forall|i: int|
            0 <= i < res@.len() ==> (#[trigger] res@[i])@.map.len() == res@[i]@.text.len(),
        forall|i: int| 0 <= i < res@.len() ==> any_in_file((#[trigger] res@[i])@.map, file_id),
{
    let mut res: Vec<Chunk> = Vec::new();
    proof {
        assert(views(res@) =~= spec_document_upto(*doc, 0, chunk_size as nat, file_id));
    }
    let mut p: usize = 0;
    while p < doc.pages.len()
        invariant
            p <= doc.pages@.len(),
            wf_document(*doc),
            views(res@) == spec_document_upto(*doc, p as int, chunk_size as nat, file_id),
            good_chunks(views(res@), file_id),
        decreases doc.pages@.len() - p,
    {
        let ghost r0 = res@;
        let page = &doc.pages[p];
        let mut conv = Converter::new(chunk_size);
        proof {
            assert(cs_inv(conv@, file_id));
            assert(COORD_LIMIT * frame_height(*page) <= POS_LIMIT);
            assert(budget_ok(0, frame_height(*page)));
        }
        conv.frame(page, 0, 0, &mut res, file_id);
        let ghost r1 = res@;
        let ghost cend = conv@;
        let ghost walked = cs_frame_upto(
            cs_fresh(chunk_size as nat),
            *page,
            page.items@.len() as int,
            0,
            0,
            file_id,
        );
        if conv.contains_file {
            let Converter { text, mapping, .. } = conv;
            res.push(Chunk { text, mapping });
            proof {
                assert(res@.last()@ =~= chunk_of(walked.0));
                assert(views(res@) =~= views(r1).push(res@.last()@));
                assert(views(res@) =~= (views(r0) + walked.1).push(chunk_of(walked.0)));
                assert(views(res@) =~= views(r0) + walked.1.push(chunk_of(walked.0)));
                assert(good_chunk(chunk_of(walked.0), file_id));
                assert(views(res@) =~= views(r0) + spec_page(*page, chunk_size as nat, file_id));
            }
        } else {
            proof {
                assert(views(res@) =~= views(r0) + spec_page(*page, chunk_size as nat, file_id));
            }
        }
        proof {
            assert(spec_document_upto(*doc, p + 1, chunk_size as nat, file_id) =~= views(res@));
        }
        p += 1;
    }
    proof {
        assert forall|i: int| 0 <= i < res@.len() implies (#[trigger] res@[i])@.map.len()
            == res@[i]@.text.len() && any_in_file(res@[i]@.map, file_id) by {
            assert(views(res@)[i] == res@[i]@);
            assert(good_chunk(views(res@)[i], file_id));
        }
    }
    res
}

/// The extraction is deterministic: its chunks are pinned to a function
/// of the document, the chunk size and the target file alone, so
/// identical inputs yield identical output on repeated calls.
pub proof fn lemma_document_deterministic(d1: Document, d2: Document, chunk_size: nat, file: u16)
    requires
        d1 == d2,
    ensures
        spec_document(d1, chunk_size, file) == spec_document(d2, chunk_size, file),
{
}

/// A paragraph boundary flushes only when the accumulated mapped count
/// already exceeds the chunk size — reaching it exactly still grows the
/// chunk — and a flush hands the whole accumulated chunk off unsplit.
pub proof fn lemma_flush_only_on_excess(s: CState)
    ensures
        s.map.len() <= s.chunk_size ==> cs_parbreak(s).1.len() == 0,
        s.map.len() <= s.chunk_size ==> cs_parbreak(s).0.text == s.text + seq![10u16, 10u16],
        s.map.len() <= s.chunk_size ==> cs_parbreak(s).0.map == s.map + seq![
            detached_entry(),
            detached_entry(),
        ],
        s.map.len() <= s.chunk_size ==> cs_parbreak(s).0.x == s.x && cs_parbreak(s).0.y == s.y
            && cs_parbreak(s).0.last_span == s.last_span && cs_parbreak(s).0.last_end
            == s.last_end && cs_parbreak(s).0.contains == s.contains
            && cs_parbreak(s).0.chunk_size == s.chunk_size,
        s.map.len() > s.chunk_size ==> cs_parbreak(s).0 == cs_fresh(s.chunk_size),
        s.map.len() > s.chunk_size && s.contains ==> cs_parbreak(s).1 == seq![chunk_of(s)],
        s.map.len() > s.chunk_size && !s.contains ==> cs_parbreak(s).1.len() == 0,
{
}

/// The whitespace heuristic inserts nothing for a run starting at the
/// previous cursor's x: converter state and output are untouched.
pub proof fn lemma_same_x_no_separator(s: CState, t: TextItem, py: int)
    ensures
        cs_whitespace(s, t, s.x, py).0 == s,
        cs_whitespace(s, t, s.x, py).1.len() == 0,
{
}

/// A text run can emit a chunk only through the paragraph boundary in
/// front of it, and then only when the converter already held more than
/// `chunk_size` mapped characters: a run never splits mid-paragraph.
pub proof fn lemma_no_mid_paragraph_flush(s: CState, t: TextItem, px: int, py: int, file: u16)
    ensures
        cs_text(s, t, px, py, file).1.len() > 0 ==> s.map.len() > s.chunk_size,
{
}

/// A run starting exactly at the previous cursor's x continues it: no
/// separator is inserted, nothing is flushed, and the mapping grows by
/// exactly the run's character count.
pub proof fn lemma_continuation_run(s: CState, t: TextItem, py: int, file: u16)
    ensures
        cs_text(s, t, s.x, py, file).1.len() == 0,
        cs_text(s, t, s.x, py, file).0.text == s.text + t.text@,
        cs_text(s, t, s.x, py, file).0.map == s.map + glyph_entries(
            t.glyphs@,
            t.text@.len() as int,
        ),
        cs_text(s, t, s.x, py, file).0.map.len() == s.map.len() + t.text@.len(),
        cs_text(s, t, s.x, py, file).0.text.len() == s.text.len() + t.text@.len(),
{
    lemma_glyph_entries_len(t.glyphs@, t.text@.len() as int);
}

/// Shapes, images and metadata are inert: they change neither the
/// converter's state (the cursor included) nor the output.
pub proof fn lemma_passive_item(s: CState, px: int, py: int, it: FrameItem, file: u16)
    requires
        it is Shape || it is Image || it is Meta,
    ensures
        cs_item(s, px, py, it, file).0 == s,
        cs_item(s, px, py, it, file).1.len() == 0,
{
}


} // verus!
