//! The document model: lines, segments (stanzas) and chapters, together with
//! the rendering context types and the normalization pass that drops empty
//! segments.

use vstd::prelude::*;

verus! {

/// One verse line: a single opaque unit of text.
#[derive(Debug)]
pub struct Line(pub String);

impl View for Line {
    type V = Seq<char>;

    open spec fn view(&self) -> Seq<char> {
        self.0@
    }
}

impl Clone for Line {
    fn clone(&self) -> (r: Self)
        ensures
            r@ == self@,
    {
        Line(self.0.clone())
    }
}

/// One stanza: an ordered run of lines within a chapter.
#[derive(Debug)]
pub struct Segment(pub Vec<Line>);

impl View for Segment {
    type V = Seq<Seq<char>>;

    open spec fn view(&self) -> Seq<Seq<char>> {
        lines_view(self.0@)
    }
}

/// The views of a sequence of lines: each line's text.
pub open spec fn lines_view(lines: Seq<Line>) -> Seq<Seq<char>> {
    lines.map(|i: int, l: Line| l@)
}

/// The views of a sequence of segments: each segment's lines' texts.
pub open spec fn segs_view(segs: Seq<Segment>) -> Seq<Seq<Seq<char>>> {
    segs.map(|i: int, s: Segment| s@)
}

/// Appending a line appends its text to the view.
pub proof fn lemma_lines_view_push(lines: Seq<Line>, l: Line)
    ensures
        lines_view(lines.push(l)) =~= lines_view(lines).push(l@),
{
    assert forall|i: int| 0 <= i < lines.len() + 1 implies #[trigger] lines_view(lines.push(l))[i]
        == lines_view(lines).push(l@)[i] by {
        assert(lines_view(lines.push(l))[i] == lines.push(l)[i]@);
        if i < lines.len() {
            assert(lines_view(lines)[i] == lines[i]@);
        }
    }
}

/// Appending a segment appends its view to the view.
pub proof fn lemma_segs_view_push(segs: Seq<Segment>, s: Segment)
    ensures
        segs_view(segs.push(s)) =~= segs_view(segs).push(s@),
{
    assert forall|i: int| 0 <= i < segs.len() + 1 implies #[trigger] segs_view(segs.push(s))[i]
        == segs_view(segs).push(s@)[i] by {
        assert(segs_view(segs.push(s))[i] == segs.push(s)[i]@);
        if i < segs.len() {
            assert(segs_view(segs)[i] == segs[i]@);
        }
    }
}

/// A chapter: its creation index and its ordered stanzas.
#[derive(Debug)]
pub struct Chapter {
    pub index: usize,
    pub segments: Vec<Segment>,
}

/// The mathematical model of a chapter: its index and, for each segment in
/// order, the sequence of its lines' texts.
pub ghost struct ChapterModel {
    pub index: nat,
    pub segments: Seq<Seq<Seq<char>>>,
}

impl View for Chapter {
    type V = ChapterModel;

    open spec fn view(&self) -> ChapterModel {
        ChapterModel { index: self.index as nat, segments: segs_view(self.segments@) }
    }
}

/// The rendering mode: the aggregate index page, or one chapter's own page.
#[derive(Debug, Clone)]
pub enum Mode {
    Index,
    Page { page_name: String },
}

/// The positional context threaded through a render: the mode, the 0-based
/// chapter position, and (set while descending) the 0-based segment and line
/// positions.
#[derive(Debug, Clone)]
pub struct Settings {
    pub mode: Option<Mode>,
    pub chapter_ix: usize,
    pub segment_ix: Option<usize>,
    pub line_ix: Option<usize>,
}

impl Default for Settings {
    fn default() -> (r: Self)
        ensures
            r.mode is None,
            r.chapter_ix == 0,
            r.segment_ix is None,
            r.line_ix is None,
    {
        Settings { mode: None, chapter_ix: 0, segment_ix: None, line_ix: None }
    }
}

/// The segments that survive normalization: exactly those with at least one
/// line, in their original order.
pub open spec fn normalize_segments(segs: Seq<Seq<Seq<char>>>) -> Seq<Seq<Seq<char>>> {
    segs.filter(|s: Seq<Seq<char>>| s.len() > 0)
}

/// A sequence of segments that are all nonempty is left unchanged by
/// normalization.
proof fn lemma_normalize_all_nonempty(segs: Seq<Seq<Seq<char>>>)
    requires
        forall|j: int| 0 <= j < segs.len() ==> #[trigger] segs[j].len() > 0,
    ensures
        normalize_segments(segs) == segs,
    decreases segs.len(),
{
    reveal(Seq::filter);
    if segs.len() > 0 {
        lemma_normalize_all_nonempty(segs.drop_last());
        assert(normalize_segments(segs) =~= segs);
    } else {
        assert(normalize_segments(segs) =~= segs);
    }
}

/// Normalization is idempotent — a second pass changes nothing — and leaves
/// no empty segment behind.
pub proof fn lemma_normalize_idempotent(segs: Seq<Seq<Seq<char>>>)
    ensures
        normalize_segments(normalize_segments(segs)) == normalize_segments(segs),
        forall|j: int| 0 <= j < normalize_segments(segs).len()
            ==> #[trigger] normalize_segments(segs)[j].len() > 0,
{
    let pred = |s: Seq<Seq<char>>| s.len() > 0;
    assert forall|j: int| 0 <= j < normalize_segments(segs).len()
        implies #[trigger] normalize_segments(segs)[j].len() > 0 by {
        segs.lemma_filter_pred(pred, j);
    }
    lemma_normalize_all_nonempty(normalize_segments(segs));
}

/// The normalized document: every chapter's empty segments dropped, with
/// chapter order and indices kept.
pub open spec fn normalize_doc(doc: Seq<ChapterModel>) -> Seq<ChapterModel> {
    doc.map(
        |i: int, ch: ChapterModel|
            ChapterModel { index: ch.index, segments: normalize_segments(ch.segments) },
    )
}

/// Normalizing a document twice yields the same chapter sequence as
/// normalizing it once, and no chapter of the result keeps an empty
/// segment.
pub proof fn lemma_normalize_doc_idempotent(doc: Seq<ChapterModel>)
    ensures
        normalize_doc(normalize_doc(doc)) == normalize_doc(doc),
        forall|i: int, j: int|
            0 <= i < normalize_doc(doc).len() && 0 <= j < normalize_doc(doc)[i].segments.len()
                ==> #[trigger] normalize_doc(doc)[i].segments[j].len() > 0,
{
    let once = normalize_doc(doc);
    assert forall|i: int| 0 <= i < once.len() implies #[trigger] normalize_doc(once)[i]
        == once[i] by {
        assert(once[i].segments == normalize_segments(doc[i].segments));
        lemma_normalize_idempotent(doc[i].segments);
    }
    assert(normalize_doc(once) =~= once);
    assert forall|i: int, j: int|
        0 <= i < once.len() && 0 <= j < once[i].segments.len() implies #[trigger] once[i].segments[j].len()
        > 0 by {
        lemma_normalize_idempotent(doc[i].segments);
    }
}

impl Chapter {
    /// Drops this chapter's empty segments; the order of the remaining
    /// segments and the chapter index are kept.
    pub fn normalized(self) -> (r: Chapter)
        ensures
            r@.index == self@.index,
            r@.segments == normalize_segments(self@.segments),
    {
        let Chapter { index, mut segments } = self;
        let ghost orig: Seq<Seq<Seq<char>>> = segs_view(segments@);
        let mut kept: Vec<Segment> = Vec::new();
        let ghost mut k: int = 0;
        proof {
            reveal(Seq::filter);
            assert(orig.subrange(0, 0) =~= Seq::<Seq<Seq<char>>>::empty());
        }
        while segments.len() > 0
            invariant
                0 <= k <= orig.len(),
                segs_view(segments@) =~= orig.subrange(k, orig.len() as int),
                segs_view(kept@) =~= normalize_segments(orig.subrange(0, k)),
            decreases segments.len(),
        {
            let ghost pre = segments@;
            proof {
                assert(segs_view(pre).len() == pre.len());
                assert(k < orig.len());
                assert(segs_view(pre)[0] == pre[0]@);
            }
            let seg = segments.remove(0);
            proof {
                assert(seg@ == orig[k]);
            }
            let ghost prev = orig.subrange(0, k);
            let ghost kept_pre = kept@;
            if seg.0.len() > 0 {
                kept.push(seg);
            }
            proof {
                reveal(Seq::filter);
                assert(seg@.len() == seg.0@.len());
                k = k + 1;
                assert(orig.subrange(0, k).len() == k);
                assert(orig.subrange(0, k).drop_last() =~= prev);
                assert(orig.subrange(0, k).last() == orig[k - 1]);
                assert forall|i: int| 0 <= i < segments@.len() implies #[trigger] segs_view(
                    segments@,
                )[i] == orig.subrange(k, orig.len() as int)[i] by {
                    assert(segments@[i] == pre[i + 1]);
                    assert(segs_view(segments@)[i] == segments@[i]@);
                    assert(segs_view(pre)[i + 1] == pre[i + 1]@);
                }
                assert(segs_view(segments@) =~= orig.subrange(k, orig.len() as int));
                if kept@.len() > kept_pre.len() {
                    assert forall|i: int| 0 <= i < kept@.len() implies #[trigger] segs_view(
                        kept@,
                    )[i] == kept@[i]@ by {}
                    assert(segs_view(kept@) =~= segs_view(kept_pre).push(orig[k - 1]));
                }
                assert(segs_view(kept@) =~= normalize_segments(orig.subrange(0, k)));
            }
        }
        proof {
            assert(orig.subrange(0, k) =~= orig);
        }
        Chapter { index, segments: kept }
    }
}

/// Normalizes every chapter of a document in place, keeping chapter order
/// and indices.
pub fn normalize_chapters(chapters: Vec<Chapter>) -> (r: Vec<Chapter>)
    ensures
        r@.len() == chapters@.len(),
        forall|j: int| 0 <= j < r@.len() ==> #[trigger] r@[j]@.index == chapters@[j]@.index
            && r@[j]@.segments == normalize_segments(chapters@[j]@.segments),
{
    let mut rest = chapters;
    let ghost orig = rest@;
    let mut done: Vec<Chapter> = Vec::new();
    while rest.len() > 0
        invariant
            done@.len() + rest@.len() == orig.len(),
            rest@ =~= orig.subrange(done@.len() as int, orig.len() as int),
            forall|j: int| 0 <= j < done@.len() ==> #[trigger] done@[j]@.index == orig[j]@.index
                && done@[j]@.segments == normalize_segments(orig[j]@.segments),
        decreases rest.len(),
    {
        let ghost pre = rest@;
        let ghost d = done@.len() as int;
        proof {
            assert(pre[0] == orig.subrange(d, orig.len() as int)[0]);
        }
        let ch = rest.remove(0);
        proof {
            assert(ch == orig[d]);
        }
        let norm = ch.normalized();
        done.push(norm);
        proof {
            assert(norm@.index == orig[d]@.index);
            assert(norm@.segments == normalize_segments(orig[d]@.segments));
            assert forall|i: int| 0 <= i < rest@.len() implies rest@[i] == orig.subrange(
                d + 1,
                orig.len() as int,
            )[i] by {
                assert(rest@[i] == pre[i + 1]);
            }
            assert(rest@ =~= orig.subrange(done@.len() as int, orig.len() as int));
        }
    }
    proof {
        assert(orig == chapters@);
        assert(done@.len() == orig.len());
        assert forall|j: int| 0 <= j < done@.len() implies #[trigger] done@[j]@.index
            == chapters@[j]@.index && done@[j]@.segments == normalize_segments(
            chapters@[j]@.segments,
        ) by {
            assert(done@[j]@.index == orig[j]@.index);
        }
    }
    done
}

} // verus!
