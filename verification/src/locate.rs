//! Reverse lookup from chunk offsets to source ranges.
//!
//! A text-analysis collaborator flags a span of one chunk's text; the
//! entries of the chunk's mapping tie every flagged character back to a
//! provenance token.  [`Mapping::location`] resolves each token against the
//! given source — skipping detached tokens, tokens of other files and
//! tokens the syntax tree no longer knows — and coalesces what remains
//! into minimal source ranges: contiguous sub-ranges of one literal text
//! node extend the previous range in place, and a structural node's range
//! is pushed only when it differs from the one pushed last.
//!
//! Only the two calls into the syntax layer — the file test over
//! `Span::id` and `Source::id`, and span-to-node resolution over
//! `Source::find` — are trusted.  Both are deterministic functions of the
//! source and the span, so their results carry names (`source_accepts`,
//! `source_node_of`); the lookup's contract then pins its result to the
//! exact per-character fold [`resolve_slice`], coalesced by
//! [`spec_coalesce`].

use vstd::prelude::*;

use crate::convert::{MapEntry, Mapping};
use crate::model::SpanRef;

verus! {

/// A flagged half-open range `[start, end)` into one chunk's text, in the
/// mapping's indexing unit, as the analysis collaborator reports it.
pub struct Suggestion {
    pub start: usize,
    pub end: usize,
}

/// A half-open byte range into a source file's text.
#[derive(Clone, Copy, Debug, PartialEq, Eq, Structural)]
pub struct SrcRange {
    pub start: usize,
    pub end: usize,
}

/// What the syntax layer reports for one resolved provenance token:
/// whether the node is a literal text node, and the node's byte range in
/// the file's text.
#[derive(Clone, Copy)]
pub struct NodeInfo {
    pub is_text: bool,
    pub start: usize,
    pub end: usize,
}

/// One suggestion character successfully resolved against the target
/// source: the node it came from and, for text nodes, the sub-range of
/// the node's text the character covers.
#[derive(Clone, Copy)]
pub struct ResolvedEntry {
    pub node: NodeInfo,
    pub sub_start: u16,
    pub sub_end: u16,
}

/// The absolute positions a resolved character names stay addressable.
pub open spec fn wf_resolved(e: ResolvedEntry) -> bool {
    &&& e.node.start + e.sub_start <= usize::MAX
    &&& e.node.start + e.sub_end <= usize::MAX
}

pub open spec fn ranges_view(v: Seq<SrcRange>) -> Seq<(int, int)> {
    v.map_values(|r: SrcRange| (r.start as int, r.end as int))
}

/// One coalescing step: a text node's sub-range extends the last range
/// when contiguous with it; a structural node's range is dropped when it
/// repeats the last range.
pub open spec fn loc_step(acc: Seq<(int, int)>, e: ResolvedEntry) -> Seq<(int, int)> {
    if e.node.is_text {
        let lo = e.node.start + e.sub_start;
        let hi = e.node.start + e.sub_end;
        if acc.len() > 0 && acc.last().1 == lo {
            acc.update(acc.len() - 1, (acc.last().0, hi))
        } else {
            acc.push((lo, hi))
        }
    } else {
        let r = (e.node.start as int, e.node.end as int);
        if acc.len() > 0 && acc.last() == r {
            acc
        } else {
            acc.push(r)
        }
    }
}

/// The ordered, minimally coalesced source ranges of a run of resolved
/// characters.
pub open spec fn spec_coalesce(es: Seq<ResolvedEntry>) -> Seq<(int, int)>
    decreases es.len(),
{
    if es.len() == 0 {
        Seq::empty()
    } else {
        loc_step(spec_coalesce(es.drop_last()), es.last())
    }
}

/// Coalesces the resolved characters of a suggestion into minimal source
/// ranges.
pub fn coalesce_resolved(entries: &Vec<ResolvedEntry>) -> (res: Vec<SrcRange>)
    requires
        forall|i: int| 0 <= i < entries@.len() ==> wf_resolved(#[trigger] entries@[i]),
    ensures
        ranges_view(res@) == spec_coalesce(entries@),
{
    let mut res: Vec<SrcRange> = Vec::new();
    proof {
        assert(entries@.take(0) =~= Seq::<ResolvedEntry>::empty());
        assert(ranges_view(res@) =~= spec_coalesce(entries@.take(0)));
    }
    let mut i: usize = 0;
    while i < entries.len()
        invariant
            i <= entries@.len(),
            forall|k: int| 0 <= k < entries@.len() ==> wf_resolved(#[trigger] entries@[k]),
            ranges_view(res@) == spec_coalesce(entries@.take(i as int)),
        decreases entries@.len() - i,
    {
        let ghost acc = ranges_view(res@);
        let e = entries[i];
        if e.node.is_text {
            let lo = e.node.start + (e.sub_start as usize);
            let hi = e.node.start + (e.sub_end as usize);
            let rlen = res.len();
            if rlen > 0 && res[rlen - 1].end == lo {
                let start0 = res[rlen - 1].start;
                res[rlen - 1] = SrcRange { start: start0, end: hi };
                proof {
                    assert(ranges_view(res@) =~= acc.update(
                        acc.len() - 1,
                        (acc.last().0, hi as int),
                    ));
                }
            } else {
                res.push(SrcRange { start: lo, end: hi });
                proof {
                    assert(ranges_view(res@) =~= acc.push((lo as int, hi as int)));
                }
            }
        } else {
            let rlen = res.len();
            if rlen > 0 && res[rlen - 1].start == e.node.start && res[rlen - 1].end
                == e.node.end {
                proof {
                    assert(acc.last() == (e.node.start as int, e.node.end as int));
                }
            } else {
                res.push(SrcRange { start: e.node.start, end: e.node.end });
                proof {
                    assert(ranges_view(res@) =~= acc.push(
                        (e.node.start as int, e.node.end as int),
                    ));
                }
            }
        }
        proof {
            assert(entries@.take(i + 1).drop_last() =~= entries@.take(i as int));
            assert(entries@.take(i + 1).last() == entries@[i as int]);
            assert(ranges_view(res@) =~= loc_step(acc, entries@[i as int]));
        }
        i += 1;
    }
    proof {
        assert(entries@.take(entries@.len() as int) =~= entries@);
    }
    res
}

#[verifier::external_type_specification]
#[verifier::external_body]
pub struct ExSource(typst::syntax::Source);

/// The identity of a span token: a span is a plain 64-bit value, so its
/// key is a function of the token alone.
pub uninterp spec fn span_key(token: typst::syntax::Span) -> u64;

/// What the file test answers for a span key against a source: whether
/// the span points into the file this source holds.
pub uninterp spec fn source_accepts(source: typst::syntax::Source, key: u64) -> bool;

/// What the syntax layer answers when a span key is resolved against a
/// source's tree: the node's byte range and whether it is a literal text
/// node, or `None` when the span does not resolve there.
pub uninterp spec fn source_node_of(source: typst::syntax::Source, key: u64) -> Option<NodeInfo>;

/// Relies on typst's `Span::id` and `Source::id`: whether the span
/// points into the file this source holds.  Both ids are plain values
/// read off their owners, so the answer is a function of source and
/// span alone.
#[verifier::external_body]
fn span_in_source(source: &typst::syntax::Source, token: typst::syntax::Span) -> (r: bool)
    ensures
        r == source_accepts(*source, span_key(token)),
{
    token.id() == Some(source.id())
}

/// Relies on typst's `Source::find` and `LinkedNode::{kind, range}`:
/// resolves a span to the node it names in this source's syntax tree,
/// reporting the node's byte range and whether it is a literal text node,
/// or `None` when the span does not resolve there.  The search depends on
/// the source's tree and the span alone.
#[verifier::external_body]
fn find_node(source: &typst::syntax::Source, token: typst::syntax::Span) -> (r: Option<NodeInfo>)
    ensures
        r == source_node_of(*source, span_key(token)),
{
    let node = source.find(token)?;
    let range = node.range();
    Some(
        NodeInfo {
            is_text: node.kind() == typst::syntax::SyntaxKind::Text,
            start: range.start,
            end: range.end,
        },
    )
}

/// How one mapping entry resolves against a source: a detached token
/// never resolves; a located token resolves exactly when it passes the
/// file test and the source's lookup yields a node whose start offset is
/// still safely addressable.  A text node contributes the entry's
/// narrowed sub-range; any other node its full range.
pub open spec fn resolve_entry(source: typst::syntax::Source, e: MapEntry) -> Option<
    ResolvedEntry,
> {
    match e.span {
        SpanRef::Detached => None,
        SpanRef::Located { token, .. } => {
            if !source_accepts(source, span_key(token)) {
                None
            } else {
                match source_node_of(source, span_key(token)) {
                    None => None,
                    Some(node) => {
                        if node.start > usize::MAX - 0x1_0000 {
                            None
                        } else if node.is_text {
                            Some(ResolvedEntry { node, sub_start: e.start, sub_end: e.end })
                        } else {
                            Some(ResolvedEntry { node, sub_start: 0, sub_end: 0 })
                        }
                    },
                }
            }
        },
    }
}

/// The left-to-right resolution of a run of mapping entries against a
/// source, entries that do not resolve skipped.
pub open spec fn resolve_slice(source: typst::syntax::Source, slice: Seq<MapEntry>) -> Seq<
    ResolvedEntry,
>
    decreases slice.len(),
{
    if slice.len() == 0 {
        Seq::empty()
    } else {
        let rest = resolve_slice(source, slice.drop_last());
        match resolve_entry(source, slice.last()) {
            Some(e) => rest.push(e),
            None => rest,
        }
    }
}

impl Mapping {
    /// Turns a suggestion — a half-open range into this mapping — back
    /// into the ordered, minimally coalesced source ranges underlying
    /// it: the left-to-right fold over the suggestion's entries that
    /// skips detached tokens, tokens failing the source's file test and
    /// tokens the source's tree cannot resolve, takes a text node's
    /// narrowed sub-range and any other node's full range, and merges
    /// ranges as [`spec_coalesce`] says.
    pub fn location(&self, suggestion: &Suggestion, source: &typst::syntax::Source) -> (res: Vec<
        SrcRange,
    >)
        requires
            suggestion.start <= suggestion.end <= self@.len(),
        ensures
            ranges_view(res@) == spec_coalesce(
                resolve_slice(
                    *source,
                    self@.subrange(suggestion.start as int, suggestion.end as int),
                ),
            ),
    {
        let ghost slice = self@.subrange(suggestion.start as int, suggestion.end as int);
        proof {
            assert(slice.take(0) =~= Seq::<MapEntry>::empty());
        }
        let mut picked: Vec<ResolvedEntry> = Vec::new();
        let mut i: usize = suggestion.start;
        while i < suggestion.end
            invariant
                suggestion.start <= i <= suggestion.end <= self@.len(),
                slice == self@.subrange(suggestion.start as int, suggestion.end as int),
                picked@ == resolve_slice(*source, slice.take(i - suggestion.start)),
                forall|k: int| 0 <= k < picked@.len() ==> wf_resolved(#[trigger] picked@[k]),
            decreases suggestion.end - i,
        {
            let entry_start = self.entries[i].start;
            let entry_end = self.entries[i].end;
            let mut r: Option<ResolvedEntry> = None;
            match &self.entries[i].span {
                SpanRef::Detached => {},
                SpanRef::Located { token, .. } => {
                    if span_in_source(source, *token) {
                        if let Some(node) = find_node(source, *token) {
                            // A node whose range sits at the very top of the
                            // address space cannot be offset safely; treat it
                            // as a failed resolution.
                            if node.start <= usize::MAX - 0x1_0000 {
                                if node.is_text {
                                    r = Some(
                                        ResolvedEntry {
                                            node,
                                            sub_start: entry_start,
                                            sub_end: entry_end,
                                        },
                                    );
                                } else {
                                    r = Some(ResolvedEntry { node, sub_start: 0, sub_end: 0 });
                                }
                            }
                        }
                    }
                },
            }
            proof {
                assert(slice[i - suggestion.start] == self@[i as int]);
                assert(r == resolve_entry(*source, slice[i - suggestion.start]));
            }
            if let Some(re) = r {
                picked.push(re);
            }
            proof {
                let upto = i + 1 - suggestion.start;
                assert(slice.take(upto).drop_last() =~= slice.take(i - suggestion.start));
                assert(slice.take(upto).last() == slice[i - suggestion.start]);
            }
            i += 1;
        }
        proof {
            assert(slice.take(slice.len() as int) =~= slice);
        }
        coalesce_resolved(&picked)
    }
}

/// Two characters whose entries are contiguous sub-ranges of the same
/// literal text node coalesce into a single output range covering both.
pub proof fn lemma_coalesce_contiguous(a: ResolvedEntry, b: ResolvedEntry)
    requires
        a.node.is_text,
        a.node == b.node,
        a.sub_end == b.sub_start,
    ensures
        spec_coalesce(seq![a, b]) =~= seq![
            ((a.node.start + a.sub_start) as int, (b.node.start + b.sub_end) as int),
        ],
{
    let s = seq![a, b];
    let first = ((a.node.start + a.sub_start) as int, (a.node.start + a.sub_end) as int);
    assert(s.drop_last() =~= seq![a]);
    assert(seq![a].drop_last() =~= Seq::<ResolvedEntry>::empty());
    assert(spec_coalesce(Seq::<ResolvedEntry>::empty()) =~= Seq::<(int, int)>::empty());
    assert(seq![a].last() == a);
    assert(spec_coalesce(seq![a]) =~= loc_step(Seq::<(int, int)>::empty(), a));
    assert(loc_step(Seq::<(int, int)>::empty(), a) =~= Seq::<(int, int)>::empty().push(first));
    assert(spec_coalesce(seq![a]) =~= seq![first]);
    assert(s.last() == b);
    assert(spec_coalesce(s) =~= loc_step(seq![first], b));
    assert(seq![first].last() == first);
    assert(loc_step(seq![first], b) =~= seq![first].update(
        0,
        (first.0, (b.node.start + b.sub_end) as int),
    ));
}

/// A suggestion whose characters all resolve to the identical structural
/// (non-text) node yields that node's range exactly once.
pub proof fn lemma_coalesce_dedup(es: Seq<ResolvedEntry>, node: NodeInfo)
    requires
        es.len() > 0,
        !node.is_text,
        forall|i: int| 0 <= i < es.len() ==> (#[trigger] es[i]).node == node,
    ensures
        spec_coalesce(es) =~= seq![(node.start as int, node.end as int)],
    decreases es.len(),
{
    let r = (node.start as int, node.end as int);
    assert(es.last() == es[es.len() - 1]);
    assert(es.last().node == node);
    if es.len() == 1 {
        assert(es.drop_last() =~= Seq::<ResolvedEntry>::empty());
        assert(spec_coalesce(Seq::<ResolvedEntry>::empty()) =~= Seq::<(int, int)>::empty());
        assert(spec_coalesce(es) =~= loc_step(Seq::<(int, int)>::empty(), es.last()));
        assert(loc_step(Seq::<(int, int)>::empty(), es.last()) =~= Seq::<(int, int)>::empty().push(
            r,
        ));
    } else {
        assert(forall|i: int|
            0 <= i < es.drop_last().len() ==> (#[trigger] es.drop_last()[i]).node == node);
        lemma_coalesce_dedup(es.drop_last(), node);
        assert(spec_coalesce(es) =~= loc_step(seq![r], es.last()));
        assert(seq![r].last() == r);
        assert(loc_step(seq![r], es.last()) =~= seq![r]);
    }
}

} // verus!
