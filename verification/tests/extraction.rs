//! Tests of the chunk extraction: separator heuristics, provenance
//! alignment, chunk-size policy and page handling.

use typst_extract::convert::{document, Chunk, MapEntry};
use typst_extract::model::{Document, Frame, FrameItem, Glyph, Pos, SpanRef, TextItem};

fn tok() -> typst::syntax::Span {
    typst::syntax::Span::detached()
}

fn located(file: u16, number: u64) -> SpanRef {
    SpanRef::Located { file, number, token: tok() }
}

fn units(s: &str) -> Vec<u16> {
    s.encode_utf16().collect()
}

fn glyphs_per_unit(file: u16, number: u64, count: u16) -> Vec<Glyph> {
    let mut v = Vec::new();
    let mut i: u16 = 0;
    while i < count {
        v.push(Glyph { span: located(file, number), offset: i, len: 1 });
        i += 1;
    }
    v
}

/// A run with cap height 0.700 em at size 1000 units: its next-line
/// offset is (700 + 650) * 1000 / 1000 = 1350 units.
fn run(text: &str, width: i64, glyphs: Vec<Glyph>) -> TextItem {
    TextItem { text: units(text), width, cap_height: 700, size: 1000, glyphs }
}

fn at(x: i64, y: i64) -> Pos {
    Pos { x, y }
}

fn one_page(items: Vec<(Pos, FrameItem)>) -> Document {
    Document { pages: vec![Frame { items }] }
}

fn span_eq(a: &SpanRef, b: &SpanRef) -> bool {
    match (a, b) {
        (SpanRef::Detached, SpanRef::Detached) => true,
        (
            SpanRef::Located { file: f1, number: n1, .. },
            SpanRef::Located { file: f2, number: n2, .. },
        ) => f1 == f2 && n1 == n2,
        _ => false,
    }
}

fn entry_is(e: &MapEntry, s: &SpanRef, start: u16, end: u16) -> bool {
    span_eq(&e.span, s) && e.start == start && e.end == end
}

fn is_detached(e: &MapEntry) -> bool {
    matches!(e.span, SpanRef::Detached) && e.start == 0 && e.end == 0
}

fn chunks_eq(a: &[Chunk], b: &[Chunk]) -> bool {
    a.len() == b.len()
        && a.iter().zip(b.iter()).all(|(x, y)| {
            x.text == y.text
                && x.mapping.entries.len() == y.mapping.entries.len()
                && x.mapping.entries.iter().zip(y.mapping.entries.iter()).all(|(p, q)| {
                    entry_is(p, &q.span, q.start, q.end)
                })
        })
}

fn two_runs_same_line() -> Document {
    one_page(vec![
        (at(0, 0), FrameItem::Text(run("ab", 100, glyphs_per_unit(1, 5, 2)))),
        (at(100, 0), FrameItem::Text(run("cd", 100, glyphs_per_unit(1, 6, 2)))),
    ])
}

#[test]
fn single_run_extracts_text_and_mapping() {
    let d = one_page(vec![(at(0, 0), FrameItem::Text(run("Hi", 100, glyphs_per_unit(1, 5, 2))))]);
    let chunks = document(&d, 100, 1);
    assert_eq!(chunks.len(), 1);
    assert_eq!(chunks[0].text, units("Hi"));
    assert_eq!(chunks[0].mapping.entries.len(), 2);
    assert!(entry_is(&chunks[0].mapping.entries[0], &located(1, 5), 0, 1));
    assert!(entry_is(&chunks[0].mapping.entries[1], &located(1, 5), 1, 2));
}

#[test]
fn chunk_requires_target_file() {
    let d = one_page(vec![(at(0, 0), FrameItem::Text(run("Hi", 100, glyphs_per_unit(1, 5, 2))))]);
    let chunks = document(&d, 100, 9);
    assert_eq!(chunks.len(), 0);
}

#[test]
fn document_is_deterministic() {
    let d1 = two_runs_same_line();
    let d2 = two_runs_same_line();
    let c1 = document(&d1, 100, 1);
    let c2 = document(&d2, 100, 1);
    assert!(chunks_eq(&c1, &c2));
}

#[test]
fn continuation_at_end_x_inserts_nothing() {
    let d = two_runs_same_line();
    let chunks = document(&d, 100, 1);
    assert_eq!(chunks.len(), 1);
    assert_eq!(chunks[0].text, units("abcd"));
    assert_eq!(chunks[0].mapping.entries.len(), 4);
    assert!(chunks[0].mapping.entries.iter().all(|e| !is_detached(e)));
}

#[test]
fn next_line_inserts_space() {
    let d = one_page(vec![
        (at(0, 0), FrameItem::Text(run("ab", 100, glyphs_per_unit(1, 5, 2)))),
        (at(0, 1350), FrameItem::Text(run("cd", 100, glyphs_per_unit(1, 6, 2)))),
    ]);
    let chunks = document(&d, 100, 1);
    assert_eq!(chunks.len(), 1);
    assert_eq!(chunks[0].text, units("ab cd"));
    assert_eq!(chunks[0].mapping.entries.len(), 5);
    assert!(is_detached(&chunks[0].mapping.entries[2]));
}

#[test]
fn next_line_rejoins_split_run() {
    // The second run's first glyph starts exactly where the first run's
    // last glyph ended, in the same source node: the line wrap re-split
    // one logical run, so nothing is inserted.
    let mut tail = Vec::new();
    tail.push(Glyph { span: located(1, 5), offset: 2, len: 1 });
    tail.push(Glyph { span: located(1, 5), offset: 3, len: 1 });
    let d = one_page(vec![
        (at(0, 0), FrameItem::Text(run("ab", 100, glyphs_per_unit(1, 5, 2)))),
        (at(0, 1350), FrameItem::Text(run("cd", 100, tail))),
    ]);
    let chunks = document(&d, 100, 1);
    assert_eq!(chunks.len(), 1);
    assert_eq!(chunks[0].text, units("abcd"));
    assert_eq!(chunks[0].mapping.entries.len(), 4);
}

#[test]
fn paragraph_break_inserts_blank_line() {
    let d = one_page(vec![
        (at(0, 0), FrameItem::Text(run("ab", 100, glyphs_per_unit(1, 5, 2)))),
        (at(0, 5000), FrameItem::Text(run("cd", 100, glyphs_per_unit(1, 6, 2)))),
    ]);
    let chunks = document(&d, 100, 1);
    assert_eq!(chunks.len(), 1);
    assert_eq!(chunks[0].text, units("ab\n\ncd"));
    assert_eq!(chunks[0].mapping.entries.len(), 6);
    assert!(is_detached(&chunks[0].mapping.entries[2]));
    assert!(is_detached(&chunks[0].mapping.entries[3]));
}

#[test]
fn chunk_flushes_after_exceeding_limit() {
    // Eleven mapped characters exceed a chunk size of ten, so the next
    // paragraph boundary flushes a chunk of eleven characters and a new
    // chunk accumulates the rest.
    let d = one_page(vec![
        (at(0, 0), FrameItem::Text(run("abcdefghijk", 100, glyphs_per_unit(1, 5, 11)))),
        (at(0, 5000), FrameItem::Text(run("xy", 100, glyphs_per_unit(1, 6, 2)))),
    ]);
    let chunks = document(&d, 10, 1);
    assert_eq!(chunks.len(), 2);
    assert_eq!(chunks[0].text, units("abcdefghijk"));
    assert_eq!(chunks[0].mapping.entries.len(), 11);
    assert_eq!(chunks[1].text, units("xy"));
    assert_eq!(chunks[1].mapping.entries.len(), 2);
}

#[test]
fn chunk_at_limit_keeps_accumulating() {
    // Exactly reaching the chunk size does not flush.
    let d = one_page(vec![
        (at(0, 0), FrameItem::Text(run("abcdefghijk", 100, glyphs_per_unit(1, 5, 11)))),
        (at(0, 5000), FrameItem::Text(run("xy", 100, glyphs_per_unit(1, 6, 2)))),
    ]);
    let chunks = document(&d, 11, 1);
    assert_eq!(chunks.len(), 1);
    assert_eq!(chunks[0].text, units("abcdefghijk\n\nxy"));
}

#[test]
fn shape_between_runs_is_inert() {
    let with_shape = one_page(vec![
        (at(0, 0), FrameItem::Text(run("ab", 100, glyphs_per_unit(1, 5, 2)))),
        (at(50, 70), FrameItem::Shape),
        (at(100, 0), FrameItem::Text(run("cd", 100, glyphs_per_unit(1, 6, 2)))),
    ]);
    let plain = two_runs_same_line();
    let c1 = document(&with_shape, 100, 1);
    let c2 = document(&plain, 100, 1);
    assert!(chunks_eq(&c1, &c2));
    assert_eq!(c1[0].text, units("abcd"));
}

#[test]
fn missing_glyphs_get_detached_entries() {
    let d = one_page(vec![(at(0, 0), FrameItem::Text(run("abc", 100, glyphs_per_unit(1, 5, 1))))]);
    let chunks = document(&d, 100, 1);
    assert_eq!(chunks.len(), 1);
    assert_eq!(chunks[0].mapping.entries.len(), 3);
    assert!(entry_is(&chunks[0].mapping.entries[0], &located(1, 5), 0, 1));
    assert!(is_detached(&chunks[0].mapping.entries[1]));
    assert!(is_detached(&chunks[0].mapping.entries[2]));
}

#[test]
fn wide_glyph_covers_consecutive_units() {
    let glyphs = vec![Glyph { span: located(1, 5), offset: 4, len: 2 }];
    let d = one_page(vec![(at(0, 0), FrameItem::Text(run("fi", 100, glyphs)))]);
    let chunks = document(&d, 100, 1);
    assert_eq!(chunks[0].mapping.entries.len(), 2);
    assert!(entry_is(&chunks[0].mapping.entries[0], &located(1, 5), 4, 5));
    assert!(entry_is(&chunks[0].mapping.entries[1], &located(1, 5), 5, 6));
}

#[test]
fn zero_length_glyph_is_passed_over() {
    let glyphs = vec![
        Glyph { span: located(1, 5), offset: 0, len: 0 },
        Glyph { span: located(1, 6), offset: 3, len: 1 },
    ];
    let d = one_page(vec![(at(0, 0), FrameItem::Text(run("a", 100, glyphs)))]);
    let chunks = document(&d, 100, 1);
    assert_eq!(chunks[0].mapping.entries.len(), 1);
    assert!(entry_is(&chunks[0].mapping.entries[0], &located(1, 6), 3, 4));
}

#[test]
fn flushed_chunk_without_target_is_discarded() {
    let d = one_page(vec![
        (at(0, 0), FrameItem::Text(run("ab", 100, glyphs_per_unit(2, 5, 2)))),
        (at(0, 5000), FrameItem::Text(run("cd", 100, glyphs_per_unit(1, 6, 2)))),
    ]);
    let chunks = document(&d, 1, 1);
    assert_eq!(chunks.len(), 1);
    assert_eq!(chunks[0].text, units("cd"));
}

#[test]
fn group_offsets_accumulate() {
    let inner = Frame {
        items: vec![(at(90, 0), FrameItem::Text(run("cd", 100, glyphs_per_unit(1, 6, 2))))],
    };
    let d = one_page(vec![
        (at(0, 0), FrameItem::Text(run("ab", 100, glyphs_per_unit(1, 5, 2)))),
        (at(10, 0), FrameItem::Group(inner)),
    ]);
    let chunks = document(&d, 100, 1);
    assert_eq!(chunks.len(), 1);
    assert_eq!(chunks[0].text, units("abcd"));
}

#[test]
fn pages_emit_in_order() {
    let page1 = Frame {
        items: vec![(at(0, 0), FrameItem::Text(run("ab", 100, glyphs_per_unit(1, 5, 2))))],
    };
    let page2 = Frame {
        items: vec![(at(0, 0), FrameItem::Text(run("cd", 100, glyphs_per_unit(1, 6, 2))))],
    };
    let d = Document { pages: vec![page1, page2] };
    let chunks = document(&d, 100, 1);
    assert_eq!(chunks.len(), 2);
    assert_eq!(chunks[0].text, units("ab"));
    assert_eq!(chunks[1].text, units("cd"));
}

#[test]
fn empty_and_inert_pages_emit_nothing() {
    let page1 = Frame { items: vec![] };
    let page2 = Frame { items: vec![(at(5, 5), FrameItem::Image), (at(9, 9), FrameItem::Meta)] };
    let d = Document { pages: vec![page1, page2] };
    let chunks = document(&d, 100, 1);
    assert_eq!(chunks.len(), 0);
}

#[test]
fn mapping_always_aligned_with_text() {
    let d = one_page(vec![
        (at(0, 0), FrameItem::Text(run("abc", 100, glyphs_per_unit(1, 5, 1)))),
        (at(0, 1350), FrameItem::Text(run("wxyz", 100, glyphs_per_unit(1, 6, 4)))),
        (at(0, 5000), FrameItem::Text(run("q", 100, glyphs_per_unit(1, 7, 1)))),
    ]);
    let chunks = document(&d, 100, 1);
    for c in &chunks {
        assert_eq!(c.text.len(), c.mapping.entries.len());
    }
    let any_target = chunks.iter().all(|c| {
        c.mapping.entries.iter().any(|e| matches!(e.span, SpanRef::Located { file: 1, .. }))
    });
    assert!(any_target);
}
