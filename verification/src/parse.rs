//! The line classifier and document builder: folds the source text, one
//! physical line at a time, into a sequence of chapters. A line that trims
//! to an unsigned 32-bit numeral opens a new chapter; an empty line opens a
//! new segment in the current chapter; any other line is verse text appended
//! to the current segment.

use crate::model::{
    lemma_lines_view_push, lemma_segs_view_push, segs_view, Chapter, ChapterModel, Line, Segment,
};
use crate::numerals::{digit_val, digits_val, is_digit_char};
use vstd::prelude::*;

verus! {

/// A whitespace character, as `str::trim` understands it: a character with
/// the Unicode `White_Space` property.
pub open spec fn is_space(c: char) -> bool {
    c == ' ' || c == '\t' || c == '\n' || c == '\r' || c == '\u{b}' || c == '\u{c}' || c
        == '\u{85}' || c == '\u{a0}' || c == '\u{1680}' || ('\u{2000}' <= c && c <= '\u{200a}') || c
        == '\u{2028}' || c == '\u{2029}' || c == '\u{202f}' || c == '\u{205f}' || c == '\u{3000}'
}

/// `s` with its leading whitespace removed.
pub open spec fn trim_front(s: Seq<char>) -> Seq<char>
    decreases s.len(),
{
    if s.len() > 0 && is_space(s[0]) {
        trim_front(s.drop_first())
    } else {
        s
    }
}

/// `s` with its trailing whitespace removed.
pub open spec fn trim_back(s: Seq<char>) -> Seq<char>
    decreases s.len(),
{
    if s.len() > 0 && is_space(s.last()) {
        trim_back(s.drop_last())
    } else {
        s
    }
}

/// `s` with surrounding whitespace removed, as `str::trim` leaves it.
pub open spec fn trimmed(s: Seq<char>) -> Seq<char> {
    trim_back(trim_front(s))
}

/// The candidate digit run of `t`: all of it, less an optional leading `+`.
pub open spec fn digit_run(t: Seq<char>) -> Seq<char> {
    if t.len() > 0 && t[0] == '+' {
        t.drop_first()
    } else {
        t
    }
}

/// Every character of `d` is a decimal digit.
pub open spec fn all_digits(d: Seq<char>) -> bool {
    forall|i: int| 0 <= i < d.len() ==> is_digit_char(#[trigger] d[i])
}

/// Whether `t` parses entirely as a `u32`: an optional leading `+`, then at
/// least one decimal digit, with a value that fits in 32 bits.
pub open spec fn parses_as_u32(t: Seq<char>) -> bool {
    digit_run(t).len() > 0 && all_digits(digit_run(t)) && digits_val(digit_run(t)) <= u32::MAX
}

/// A chapter-marker line: one that, after trimming surrounding whitespace,
/// parses entirely as an unsigned 32-bit integer.
pub open spec fn is_marker_line(s: Seq<char>) -> bool {
    parses_as_u32(trimmed(s))
}

/// A content line: neither a chapter marker nor empty.
pub open spec fn is_content_line(s: Seq<char>) -> bool {
    !is_marker_line(s) && s.len() > 0
}

/// A marker line opens a fresh chapter numbered by the count of chapters
/// created so far, this one included. The marker's own numeric value is not
/// retained.
pub open spec fn marker_step(doc: Seq<ChapterModel>) -> Seq<ChapterModel> {
    doc.push(ChapterModel { index: doc.len() + 1, segments: Seq::empty() })
}

/// A blank line opens a fresh (empty) segment in the current chapter; with
/// no chapter yet, it does nothing.
pub open spec fn blank_step(doc: Seq<ChapterModel>) -> Seq<ChapterModel> {
    if doc.len() == 0 {
        doc
    } else {
        let last = doc.last();
        doc.update(
            doc.len() - 1,
            ChapterModel { index: last.index, segments: last.segments.push(Seq::empty()) },
        )
    }
}

/// A content line is appended to the current segment of the current chapter,
/// creating an implicit chapter (index 0) and an empty segment first if
/// either is missing.
pub open spec fn content_step(doc: Seq<ChapterModel>, line: Seq<char>) -> Seq<ChapterModel> {
    let doc1 = if doc.len() == 0 {
        seq![ChapterModel { index: 0, segments: Seq::empty() }]
    } else {
        doc
    };
    let last = doc1.last();
    let segs = if last.segments.len() == 0 {
        last.segments.push(Seq::empty())
    } else {
        last.segments
    };
    let segs2 = segs.update(segs.len() - 1, segs.last().push(line));
    doc1.update(doc1.len() - 1, ChapterModel { index: last.index, segments: segs2 })
}

/// One transition of the document builder on one physical line, by the
/// classification priority: chapter marker, then blank, then content.
pub open spec fn step_line(doc: Seq<ChapterModel>, line: Seq<char>) -> Seq<ChapterModel> {
    if is_marker_line(line) {
        marker_step(doc)
    } else if line.len() == 0 {
        blank_step(doc)
    } else {
        content_step(doc, line)
    }
}

/// The document built from the given physical lines, in order.
pub open spec fn build_doc(lines: Seq<Seq<char>>) -> Seq<ChapterModel>
    decreases lines.len(),
{
    if lines.len() == 0 {
        Seq::empty()
    } else {
        step_line(build_doc(lines.drop_last()), lines.last())
    }
}

/// The texts of a sequence of source lines.
pub open spec fn texts_view(lines: Seq<String>) -> Seq<Seq<char>> {
    lines.map(|i: int, s: String| s@)
}

/// The models of a sequence of chapters.
pub open spec fn chapters_view(chs: Seq<Chapter>) -> Seq<ChapterModel> {
    chs.map(|i: int, c: Chapter| c@)
}

proof fn lemma_chapters_view_push(chs: Seq<Chapter>, c: Chapter)
    ensures
        chapters_view(chs.push(c)) =~= chapters_view(chs).push(c@),
{
    assert forall|i: int| 0 <= i < chs.len() + 1 implies #[trigger] chapters_view(chs.push(c))[i]
        == chapters_view(chs).push(c@)[i] by {
        assert(chapters_view(chs.push(c))[i] == chs.push(c)[i]@);
        if i < chs.len() {
            assert(chapters_view(chs)[i] == chs[i]@);
        }
    }
}

proof fn lemma_chapters_view_drop_last(chs: Seq<Chapter>)
    requires
        chs.len() > 0,
    ensures
        chapters_view(chs.drop_last()) =~= chapters_view(chs).drop_last(),
{
    assert forall|i: int| 0 <= i < chs.len() - 1 implies #[trigger] chapters_view(
        chs.drop_last(),
    )[i] == chapters_view(chs).drop_last()[i] by {
        assert(chapters_view(chs.drop_last())[i] == chs.drop_last()[i]@);
        assert(chapters_view(chs)[i] == chs[i]@);
    }
}

/// Removing leading whitespace leaves the suffix that starts at the first
/// non-whitespace position.
proof fn lemma_trim_front_subrange(s: Seq<char>, lo: int)
    requires
        0 <= lo <= s.len(),
        forall|i: int| 0 <= i < lo ==> is_space(#[trigger] s[i]),
        lo == s.len() || !is_space(s[lo]),
    ensures
        trim_front(s) == s.subrange(lo, s.len() as int),
    decreases lo,
{
    if lo == 0 {
        assert(trim_front(s) =~= s.subrange(0, s.len() as int));
    } else {
        assert(is_space(s[0]));
        lemma_trim_front_subrange(s.drop_first(), lo - 1);
        assert(s.drop_first().subrange(lo - 1, s.drop_first().len() as int) =~= s.subrange(
            lo,
            s.len() as int,
        ));
    }
}

/// Removing trailing whitespace leaves the prefix that ends after the last
/// non-whitespace position.
proof fn lemma_trim_back_subrange(s: Seq<char>, hi: int)
    requires
        0 <= hi <= s.len(),
        forall|i: int| hi <= i < s.len() ==> is_space(#[trigger] s[i]),
        hi == 0 || !is_space(s[hi - 1]),
    ensures
        trim_back(s) == s.subrange(0, hi),
    decreases s.len(),
{
    if hi == s.len() {
        assert(trim_back(s) =~= s.subrange(0, hi));
    } else {
        assert(is_space(s.last()));
        lemma_trim_back_subrange(s.drop_last(), hi);
        assert(s.drop_last().subrange(0, hi) =~= s.subrange(0, hi));
    }
}

/// Whether `c` is whitespace, matching the spec-level class.
fn is_space_char(c: char) -> (b: bool)
    ensures
        b == is_space(c),
{
    c == ' ' || c == '\t' || c == '\n' || c == '\r' || c == '\u{b}' || c == '\u{c}' || c
        == '\u{85}' || c == '\u{a0}' || c == '\u{1680}' || ('\u{2000}' <= c && c <= '\u{200a}') || c
        == '\u{2028}' || c == '\u{2029}' || c == '\u{202f}' || c == '\u{205f}' || c == '\u{3000}'
}

/// The numeric value of a digit character.
fn digit_value(c: char) -> (r: u64)
    requires
        is_digit_char(c),
    ensures
        r == digit_val(c),
{
    if c == '0' {
        0
    } else if c == '1' {
        1
    } else if c == '2' {
        2
    } else if c == '3' {
        3
    } else if c == '4' {
        4
    } else if c == '5' {
        5
    } else if c == '6' {
        6
    } else if c == '7' {
        7
    } else if c == '8' {
        8
    } else {
        9
    }
}

/// Decides whether `s` is a chapter-marker line: trims surrounding
/// whitespace, then checks that what remains parses entirely as a `u32`.
pub fn line_is_marker(s: &String) -> (b: bool)
    ensures
        b == is_marker_line(s@),
{
    let st = s.as_str();
    let n = st.unicode_len();
    let mut lo: usize = 0;
    while lo < n && is_space_char(st.get_char(lo))
        invariant
            0 <= lo <= n,
            n == s@.len(),
            st@ == s@,
            forall|i: int| 0 <= i < lo ==> is_space(#[trigger] s@[i]),
        decreases n - lo,
    {
        lo = lo + 1;
    }
    let mut hi: usize = n;
    while hi > lo && is_space_char(st.get_char(hi - 1))
        invariant
            lo <= hi <= n,
            n == s@.len(),
            st@ == s@,
            forall|i: int| hi <= i < n ==> is_space(#[trigger] s@[i]),
        decreases hi,
    {
        hi = hi - 1;
    }
    let ghost t = trimmed(s@);
    proof {
        lemma_trim_front_subrange(s@, lo as int);
        let u = s@.subrange(lo as int, n as int);
        assert forall|i: int| hi - lo <= i < u.len() implies is_space(#[trigger] u[i]) by {
            assert(u[i] == s@[lo + i]);
        }
        if hi > lo {
            assert(u[hi - lo - 1] == s@[hi - 1]);
        }
        lemma_trim_back_subrange(u, hi - lo);
        assert(u.subrange(0, hi - lo) =~= s@.subrange(lo as int, hi as int));
        assert(t == s@.subrange(lo as int, hi as int));
    }
    let mut i: usize = lo;
    if i < hi {
        let c0 = st.get_char(i);
        if c0 == '+' {
            i = i + 1;
        }
    }
    let ghost dstart = i as int;
    let ghost d = s@.subrange(dstart, hi as int);
    proof {
        if t.len() > 0 && t[0] == '+' {
            assert(t[0] == s@[lo as int]);
            assert(t.drop_first() =~= d);
        } else {
            assert(t =~= d);
        }
    }
    if i == hi {
        return false;
    }
    let mut val: u64 = 0;
    let mut over = false;
    while i < hi
        invariant
            0 <= dstart <= i <= hi <= n,
            n == s@.len(),
            st@ == s@,
            t == trimmed(s@),
            d == digit_run(t),
            d.len() > 0,
            d == s@.subrange(dstart, hi as int),
            forall|j: int| dstart <= j < i ==> is_digit_char(#[trigger] s@[j]),
            over ==> digits_val(s@.subrange(dstart, i as int)) > u32::MAX,
            !over ==> val == digits_val(s@.subrange(dstart, i as int)) && val <= u32::MAX,
        decreases hi - i,
    {
        let c = st.get_char(i);
        if !(c >= '0' && c <= '9') {
            proof {
                assert(d[i - dstart] == s@[i as int]);
                assert(!is_digit_char(d[i - dstart]));
                assert(!all_digits(d));
            }
            return false;
        }
        let dv = digit_value(c);
        let ghost prefix = s@.subrange(dstart, i as int);
        proof {
            assert(s@.subrange(dstart, i + 1).drop_last() =~= prefix);
            assert(s@.subrange(dstart, i + 1).last() == s@[i as int]);
        }
        if !over {
            val = val * 10 + dv;
            if val > 0xFFFF_FFFF {
                over = true;
            }
        } else {
            proof {
                assert(digits_val(s@.subrange(dstart, i + 1)) == digits_val(prefix) * 10
                    + digit_val(s@[i as int]));
            }
        }
        i = i + 1;
    }
    proof {
        assert(s@.subrange(dstart, i as int) == d);
        assert(d.len() > 0);
        assert forall|j: int| 0 <= j < d.len() implies is_digit_char(#[trigger] d[j]) by {
            assert(d[j] == s@[dstart + j]);
        }
        assert(all_digits(d));
        if over {
            assert(!parses_as_u32(t));
        } else {
            assert(parses_as_u32(t));
        }
    }
    !over
}

/// Builds the document model from the source's physical lines: folds every
/// line through the classifier state machine, in order.
pub fn build_chapters(lines: &Vec<String>) -> (r: Vec<Chapter>)
    ensures
        chapters_view(r@) == build_doc(texts_view(lines@)),
{
    let mut chapters: Vec<Chapter> = Vec::new();
    let ghost lv = texts_view(lines@);
    let mut idx: usize = 0;
    proof {
        assert(lv.subrange(0, 0) =~= Seq::<Seq<char>>::empty());
        assert(chapters_view(chapters@) =~= Seq::<ChapterModel>::empty());
    }
    while idx < lines.len()
        invariant
            0 <= idx <= lines.len(),
            lv == texts_view(lines@),
            lv.len() == lines@.len(),
            chapters@.len() <= idx,
            chapters_view(chapters@) == build_doc(lv.subrange(0, idx as int)),
        decreases lines.len() - idx,
    {
        let ghost chs_pre = chapters@;
        let ghost pre = chapters_view(chapters@);
        let ghost prefix = lv.subrange(0, idx as int);
        let line = &lines[idx];
        proof {
            assert(lv[idx as int] == lines@[idx as int]@);
            assert(lv.subrange(0, idx + 1).drop_last() =~= prefix);
            assert(lv.subrange(0, idx + 1).last() == lv[idx as int]);
            assert(pre.len() == chs_pre.len());
        }
        if line_is_marker(line) {
            let ix = chapters.len() + 1;
            let fresh = Chapter { index: ix, segments: Vec::new() };
            proof {
                assert(fresh@.segments =~= Seq::<Seq<Seq<char>>>::empty());
                lemma_chapters_view_push(chs_pre, fresh);
            }
            chapters.push(fresh);
            proof {
                assert(chapters_view(chapters@) =~= marker_step(pre));
            }
        } else if line.as_str().unicode_len() == 0 {
            if chapters.len() > 0 {
                proof {
                    assert(pre[pre.len() - 1] == chs_pre[chs_pre.len() - 1]@);
                }
                let mut ch = chapters.pop().unwrap();
                let empty_seg = Segment(Vec::new());
                proof {
                    assert(ch@ == pre.last());
                    lemma_segs_view_push(ch.segments@, empty_seg);
                    assert(empty_seg@ =~= Seq::<Seq<char>>::empty());
                }
                ch.segments.push(empty_seg);
                proof {
                    lemma_chapters_view_drop_last(chs_pre);
                    lemma_chapters_view_push(chs_pre.drop_last(), ch);
                }
                chapters.push(ch);
                proof {
                    assert(chapters_view(chapters@) =~= blank_step(pre));
                }
            } else {
                proof {
                    assert(chapters_view(chapters@) =~= blank_step(pre));
                }
            }
        } else {
            if chapters.len() == 0 {
                let implicit = Chapter { index: 0, segments: Vec::new() };
                proof {
                    assert(implicit@.segments =~= Seq::<Seq<Seq<char>>>::empty());
                    lemma_chapters_view_push(chapters@, implicit);
                }
                chapters.push(implicit);
            }
            let ghost doc1 = chapters_view(chapters@);
            let ghost chs1 = chapters@;
            proof {
                assert(doc1 =~= (if pre.len() == 0 {
                    seq![ChapterModel { index: 0, segments: Seq::<Seq<Seq<char>>>::empty() }]
                } else {
                    pre
                }));
                assert(doc1[doc1.len() - 1] == chs1[chs1.len() - 1]@);
            }
            let mut ch = chapters.pop().unwrap();
            proof {
                assert(ch@ == doc1.last());
            }
            if ch.segments.len() == 0 {
                let empty_seg = Segment(Vec::new());
                proof {
                    lemma_segs_view_push(ch.segments@, empty_seg);
                    assert(empty_seg@ =~= Seq::<Seq<char>>::empty());
                }
                ch.segments.push(empty_seg);
            }
            let ghost segs = ch@.segments;
            proof {
                assert(segs =~= (if doc1.last().segments.len() == 0 {
                    doc1.last().segments.push(Seq::<Seq<char>>::empty())
                } else {
                    doc1.last().segments
                }));
                assert(segs.len() == ch.segments@.len());
                assert(segs[segs.len() - 1] == ch.segments@[ch.segments@.len() - 1]@);
            }
            let mut seg = ch.segments.pop().unwrap();
            let ghost seg_pre = seg@;
            let new_line = Line(line.clone());
            proof {
                assert(seg@ == segs.last());
                assert(new_line@ == lv[idx as int]);
                lemma_lines_view_push(seg.0@, new_line);
            }
            seg.0.push(new_line);
            proof {
                assert(seg@ =~= seg_pre.push(lv[idx as int]));
                lemma_segs_view_push(ch.segments@, seg);
            }
            ch.segments.push(seg);
            proof {
                assert(ch@.segments =~= segs.update(segs.len() - 1, segs.last().push(
                    lv[idx as int],
                )));
                lemma_chapters_view_drop_last(chs1);
                lemma_chapters_view_push(chs1.drop_last(), ch);
            }
            chapters.push(ch);
            proof {
                assert(chapters_view(chapters@) =~= content_step(pre, lv[idx as int]));
            }
        }
        proof {
            assert(chapters_view(chapters@) =~= build_doc(lv.subrange(0, idx + 1)));
        }
        idx = idx + 1;
    }
    proof {
        assert(lv.subrange(0, idx as int) =~= lv);
    }
    chapters
}

/// Number of chapter-marker lines in the source.
pub open spec fn count_markers(lines: Seq<Seq<char>>) -> nat
    decreases lines.len(),
{
    if lines.len() == 0 {
        0
    } else {
        count_markers(lines.drop_last()) + if is_marker_line(lines.last()) {
            1nat
        } else {
            0nat
        }
    }
}

/// Whether some content line appears before the first chapter marker (such
/// content is gathered into an implicit leading chapter).
pub open spec fn content_before_marker(lines: Seq<Seq<char>>) -> bool
    decreases lines.len(),
{
    if lines.len() == 0 {
        false
    } else {
        content_before_marker(lines.drop_last()) || (count_markers(lines.drop_last()) == 0
            && is_content_line(lines.last()))
    }
}

/// The number of chapters the builder produces equals the number of
/// marker lines, plus one if any content line precedes the first marker.
pub proof fn lemma_chapter_count(lines: Seq<Seq<char>>)
    ensures
        build_doc(lines).len() == count_markers(lines) + if content_before_marker(lines) {
            1nat
        } else {
            0nat
        },
    decreases lines.len(),
{
    if lines.len() > 0 {
        let prev = lines.drop_last();
        let last = lines.last();
        lemma_chapter_count(prev);
        let doc = build_doc(prev);
        if is_marker_line(last) {
        } else if last.len() == 0 {
        } else {
            if doc.len() == 0 {
                assert(count_markers(prev) == 0 && !content_before_marker(prev));
            }
        }
    }
}

} // verus!
