//! The hierarchical renderer: walks the document model top-down, threading
//! positional context, and produces HTML with deterministic, uniquely
//! addressable anchor identifiers and mode-sensitive navigation links.
//!
//! The context carries 0-based positions (chapter, then segment, then line),
//! each converted to a 1-based display number where it is rendered; a
//! chapter's own navigation link is labeled by its creation index instead.

use crate::model::{Chapter, ChapterModel, Line, Mode, Segment, Settings};
use crate::numerals::{dec, is_digit_char, lemma_dec_digits, lemma_dec_injective, render_number};
use vstd::prelude::*;

verus! {

/// The deployment root that every generated link points beneath.
pub open spec fn root_spec() -> Seq<char> {
    "https://colbyn.github.io/tao-te-ching-rs"@
}

fn site_root() -> (r: &'static str)
    ensures
        r@ == root_spec(),
{
    "https://colbyn.github.io/tao-te-ching-rs"
}

/// The globally unique anchor identifier of a line: the 1-based chapter,
/// segment and line numbers, hyphen-joined.
pub open spec fn anchor_id(c: nat, s: nat, l: nat) -> Seq<char> {
    dec(c) + "-"@ + dec(s) + "-"@ + dec(l)
}

/// The human-readable local label of a line: the 1-based segment and line
/// numbers, dot-joined.
pub open spec fn line_label(s: nat, l: nat) -> Seq<char> {
    dec(s) + "."@ + dec(l)
}

/// The self-link of a line: anchor target its own identifier, visible text
/// its local label.
pub open spec fn line_anchor_elem(c: nat, s: nat, l: nat) -> Seq<char> {
    "<a href=\"#"@ + anchor_id(c, s, l) + "\">"@ + line_label(s, l) + "</a>"@
}

/// The addressable block of one rendered line: its self-link followed by its
/// text content.
pub open spec fn line_block(text: Seq<char>, c: nat, s: nat, l: nat) -> Seq<char> {
    "<p id=\""@ + anchor_id(c, s, l) + "\" line>"@ + line_anchor_elem(c, s, l) + " "@ + text
        + "</p>"@
}

/// Parts joined by single newlines, in order.
pub open spec fn join_nl(parts: Seq<Seq<char>>) -> Seq<char>
    decreases parts.len(),
{
    if parts.len() == 0 {
        Seq::empty()
    } else if parts.len() == 1 {
        parts[0]
    } else {
        join_nl(parts.drop_last()) + "\n"@ + parts.last()
    }
}

/// The rendered blocks of a segment's lines, each with its 1-based position.
pub open spec fn segment_line_blocks(lines: Seq<Seq<char>>, c: nat, s: nat) -> Seq<Seq<char>> {
    Seq::new(lines.len(), |k: int| line_block(lines[k], c, s, (k + 1) as nat))
}

/// One rendered stanza: its lines' blocks joined by newlines, wrapped in a
/// section container.
pub open spec fn segment_block(lines: Seq<Seq<char>>, c: nat, s: nat) -> Seq<char> {
    "<section>"@ + join_nl(segment_line_blocks(lines, c, s)) + "</section>"@
}

/// The navigation link back to the aggregate index page.
pub open spec fn index_link_elem() -> Seq<char> {
    "<a href=\""@ + root_spec() + "/index.html\">Tao Te Ching</a>"@
}

/// The navigation link to a chapter's own page, labeled by its index.
pub open spec fn page_link_elem(index: nat) -> Seq<char> {
    "<a href=\""@ + root_spec() + "/chapters/chapter-"@ + dec(index) + ".html\">Chapter "@ + dec(
        index,
    ) + "</a>"@
}

/// A chapter's header: in page mode a link back to the index and the
/// chapter's own link, bullet-separated; in index mode (or any other) the
/// chapter's own link alone.
pub open spec fn chapter_header(index: nat, page_mode: bool) -> Seq<char> {
    if page_mode {
        "<h1>"@ + index_link_elem() + " • "@ + page_link_elem(index) + "</h1>"@
    } else {
        "<h1>"@ + page_link_elem(index) + "</h1>"@
    }
}

/// The rendered blocks of a chapter's segments, each with its 1-based
/// position.
pub open spec fn chapter_segment_blocks(segs: Seq<Seq<Seq<char>>>, c: nat) -> Seq<Seq<char>> {
    Seq::new(segs.len(), |j: int| segment_block(segs[j], c, (j + 1) as nat))
}

/// One rendered chapter: its mode-dependent header, then its segments'
/// blocks joined by newlines, wrapped in an article container.
pub open spec fn chapter_block(ch: ChapterModel, c: nat, page_mode: bool) -> Seq<char> {
    "<article chapter>"@ + chapter_header(ch.index, page_mode) + "\n<div content>\n"@ + join_nl(
        chapter_segment_blocks(ch.segments, c),
    ) + "\n</div>\n</article>"@
}

/// Whether the settings select page-mode rendering.
pub open spec fn is_page_mode(m: Option<Mode>) -> bool {
    match m {
        Some(Mode::Page { .. }) => true,
        _ => false,
    }
}

/// The fixed head boilerplate: charset and font links.
pub open spec fn shell_deps() -> Seq<char> {
    "\n        <meta charset=\"UTF-8\">\n        <link rel=\"preconnect\" href=\"https://fonts.googleapis.com\">\n        <link rel=\"preconnect\" href=\"https://fonts.gstatic.com\">\n        <link href=\"https://fonts.googleapis.com/css2?family=Noto+Serif:ital,wght@0,400;0,700;1,400;1,700&family=Playfair+Display+SC:ital,wght@0,400;0,700;0,900;1,400;1,700;1,900&family=Playfair+Display:ital,wght@0,400;0,500;0,600;0,700;0,800;0,900;1,400;1,500;1,600;1,700;1,800;1,900&family=Source+Sans+Pro:ital,wght@0,200;0,300;0,400;0,600;0,700;0,900;1,200;1,300;1,400;1,600;1,700;1,900&display=swap\" rel=\"stylesheet\">\n        <link href=\"https://fonts.googleapis.com/css2?family=Noto+Serif:ital,wght@0,400;0,700;1,400;1,700&family=Playfair+Display+SC:ital,wght@0,400;0,700;0,900;1,400;1,700;1,900&family=Playfair+Display:ital,wght@0,400;0,500;0,600;0,700;0,800;0,900;1,400;1,500;1,600;1,700;1,800;1,900&family=Source+Sans+Pro:ital,wght@0,200;0,300;0,400;0,600;0,700;0,900;1,200;1,300;1,400;1,600;1,700;1,900&display=swap\" rel=\"stylesheet\">\n    "@
}

/// The full page shell around rendered content: head with the stylesheet
/// link, then the content inside main, body and html wrappers.
pub open spec fn pack_spec(contents: Seq<char>) -> Seq<char> {
    "<html>\n"@ + "<head>"@ + shell_deps() + "<link rel=\"stylesheet\" href=\""@ + root_spec()
        + "/styling.css\"></head>"@ + "\n"@ + "<body>\n"@ + "<main>\n"@ + contents + "\n</main>"@
        + "\n</body>"@ + "\n</html>"@
}

/// Wraps a rendered HTML fragment in the fixed page shell.
pub fn pack(contents: String) -> (r: String)
    ensures
        r@ == pack_spec(contents@),
{
    let mut r = String::from_str("<html>\n");
    r.append("<head>");
    r.append(
        "\n        <meta charset=\"UTF-8\">\n        <link rel=\"preconnect\" href=\"https://fonts.googleapis.com\">\n        <link rel=\"preconnect\" href=\"https://fonts.gstatic.com\">\n        <link href=\"https://fonts.googleapis.com/css2?family=Noto+Serif:ital,wght@0,400;0,700;1,400;1,700&family=Playfair+Display+SC:ital,wght@0,400;0,700;0,900;1,400;1,700;1,900&family=Playfair+Display:ital,wght@0,400;0,500;0,600;0,700;0,800;0,900;1,400;1,500;1,600;1,700;1,800;1,900&family=Source+Sans+Pro:ital,wght@0,200;0,300;0,400;0,600;0,700;0,900;1,200;1,300;1,400;1,600;1,700;1,900&display=swap\" rel=\"stylesheet\">\n        <link href=\"https://fonts.googleapis.com/css2?family=Noto+Serif:ital,wght@0,400;0,700;1,400;1,700&family=Playfair+Display+SC:ital,wght@0,400;0,700;0,900;1,400;1,700;1,900&family=Playfair+Display:ital,wght@0,400;0,500;0,600;0,700;0,800;0,900;1,400;1,500;1,600;1,700;1,800;1,900&family=Source+Sans+Pro:ital,wght@0,200;0,300;0,400;0,600;0,700;0,900;1,200;1,300;1,400;1,600;1,700;1,900&display=swap\" rel=\"stylesheet\">\n    ",
    );
    r.append("<link rel=\"stylesheet\" href=\"");
    r.append(site_root());
    r.append("/styling.css\"></head>");
    r.append("\n");
    r.append("<body>\n");
    r.append("<main>\n");
    r.append(contents.as_str());
    r.append("\n</main>");
    r.append("\n</body>");
    r.append("\n</html>");
    proof {
        assert(r@ =~= pack_spec(contents@));
    }
    r
}

/// Rendering to HTML text under a positional context.
pub trait ToText {
    /// Whether the settings carry the positional context this node needs.
    spec fn renderable(&self, settings: Settings) -> bool;

    /// The HTML text this node renders to under the given settings.
    spec fn text_spec(&self, settings: Settings) -> Seq<char>;

    /// Renders this node to HTML text.
    fn to_text(&self, settings: Settings) -> (r: String)
        requires
            self.renderable(settings),
        ensures
            r@ == self.text_spec(settings),
    ;
}

impl ToText for Line {
    open spec fn renderable(&self, settings: Settings) -> bool {
        &&& settings.segment_ix is Some
        &&& settings.line_ix is Some
        &&& settings.chapter_ix < usize::MAX
        &&& settings.segment_ix.unwrap() < usize::MAX
        &&& settings.line_ix.unwrap() < usize::MAX
    }

    open spec fn text_spec(&self, settings: Settings) -> Seq<char> {
        line_block(
            self@,
            (settings.chapter_ix + 1) as nat,
            (settings.segment_ix.unwrap() + 1) as nat,
            (settings.line_ix.unwrap() + 1) as nat,
        )
    }

    fn to_text(&self, settings: Settings) -> (r: String) {
        let chapter_ix = settings.chapter_ix + 1;
        let segment_ix = settings.segment_ix.unwrap() + 1;
        let line_ix = settings.line_ix.unwrap() + 1;
        let mut local_id = render_number(chapter_ix as u64);
        local_id.append("-");
        local_id.append(render_number(segment_ix as u64).as_str());
        local_id.append("-");
        local_id.append(render_number(line_ix as u64).as_str());
        let mut local_id_txt = render_number(segment_ix as u64);
        local_id_txt.append(".");
        local_id_txt.append(render_number(line_ix as u64).as_str());
        proof {
            assert(local_id@ =~= anchor_id(
                chapter_ix as nat,
                segment_ix as nat,
                line_ix as nat,
            ));
            assert(local_id_txt@ =~= line_label(segment_ix as nat, line_ix as nat));
        }
        let mut r = String::from_str("<p id=\"");
        r.append(local_id.as_str());
        r.append("\" line>");
        r.append("<a href=\"#");
        r.append(local_id.as_str());
        r.append("\">");
        r.append(local_id_txt.as_str());
        r.append("</a>");
        r.append(" ");
        r.append(self.0.as_str());
        r.append("</p>");
        proof {
            assert(r@ =~= self.text_spec(settings));
        }
        r
    }
}

impl ToText for Segment {
    open spec fn renderable(&self, settings: Settings) -> bool {
        &&& settings.segment_ix is Some
        &&& settings.chapter_ix < usize::MAX
        &&& settings.segment_ix.unwrap() < usize::MAX
    }

    open spec fn text_spec(&self, settings: Settings) -> Seq<char> {
        segment_block(
            self@,
            (settings.chapter_ix + 1) as nat,
            (settings.segment_ix.unwrap() + 1) as nat,
        )
    }

    fn to_text(&self, settings: Settings) -> (r: String) {
        let ghost c = (settings.chapter_ix + 1) as nat;
        let ghost s = (settings.segment_ix.unwrap() + 1) as nat;
        let ghost blocks = segment_line_blocks(self@, c, s);
        let mut r = String::from_str("<section>");
        let mut k: usize = 0;
        proof {
            assert(blocks.len() == self@.len());
            assert(self@.len() == self.0@.len());
            assert(blocks.subrange(0, 0) =~= Seq::<Seq<char>>::empty());
            assert(r@ =~= "<section>"@ + join_nl(blocks.subrange(0, 0)));
        }
        while k < self.0.len()
            invariant
                0 <= k <= self.0@.len(),
                blocks == segment_line_blocks(self@, c, s),
                blocks.len() == self.0@.len(),
                self.renderable(settings),
                c == (settings.chapter_ix + 1) as nat,
                s == (settings.segment_ix.unwrap() + 1) as nat,
                r@ == "<section>"@ + join_nl(blocks.subrange(0, k as int)),
            decreases self.0@.len() - k,
        {
            let st = Settings {
                mode: settings.mode.clone(),
                chapter_ix: settings.chapter_ix,
                segment_ix: settings.segment_ix,
                line_ix: Some(k),
            };
            let piece = self.0[k].to_text(st);
            proof {
                assert(self@[k as int] == self.0@[k as int]@);
                assert(piece@ == blocks[k as int]);
                assert(blocks.subrange(0, k + 1).drop_last() =~= blocks.subrange(0, k as int));
                assert(blocks.subrange(0, k + 1).last() == blocks[k as int]);
            }
            if k > 0 {
                r.append("\n");
            }
            r.append(piece.as_str());
            proof {
                assert(r@ =~= "<section>"@ + join_nl(blocks.subrange(0, k + 1)));
            }
            k = k + 1;
        }
        proof {
            assert(blocks.subrange(0, k as int) =~= blocks);
        }
        r.append("</section>");
        proof {
            assert(r@ =~= self.text_spec(settings));
        }
        r
    }
}

impl ToText for Chapter {
    open spec fn renderable(&self, settings: Settings) -> bool {
        settings.chapter_ix < usize::MAX
    }

    open spec fn text_spec(&self, settings: Settings) -> Seq<char> {
        chapter_block(self@, (settings.chapter_ix + 1) as nat, is_page_mode(settings.mode))
    }

    fn to_text(&self, settings: Settings) -> (r: String) {
        let ghost c = (settings.chapter_ix + 1) as nat;
        let ghost blocks = chapter_segment_blocks(self@.segments, c);
        let mut contents = String::new();
        let mut j: usize = 0;
        proof {
            assert(blocks.len() == self@.segments.len());
            assert(self@.segments.len() == self.segments@.len());
            assert(blocks.subrange(0, 0) =~= Seq::<Seq<char>>::empty());
            assert(contents@ =~= join_nl(blocks.subrange(0, 0)));
        }
        while j < self.segments.len()
            invariant
                0 <= j <= self.segments@.len(),
                blocks == chapter_segment_blocks(self@.segments, c),
                blocks.len() == self.segments@.len(),
                self.renderable(settings),
                c == (settings.chapter_ix + 1) as nat,
                contents@ == join_nl(blocks.subrange(0, j as int)),
            decreases self.segments@.len() - j,
        {
            let st = Settings {
                mode: settings.mode.clone(),
                chapter_ix: settings.chapter_ix,
                segment_ix: Some(j),
                line_ix: None,
            };
            let piece = self.segments[j].to_text(st);
            proof {
                assert(self@.segments[j as int] == self.segments@[j as int]@);
                assert(piece@ == blocks[j as int]);
                assert(blocks.subrange(0, j + 1).drop_last() =~= blocks.subrange(0, j as int));
                assert(blocks.subrange(0, j + 1).last() == blocks[j as int]);
            }
            if j > 0 {
                contents.append("\n");
            }
            contents.append(piece.as_str());
            proof {
                assert(contents@ =~= join_nl(blocks.subrange(0, j + 1)));
            }
            j = j + 1;
        }
        proof {
            assert(blocks.subrange(0, j as int) =~= blocks);
        }
        let chapter_num = render_number(self.index as u64);
        let mut index_link = String::from_str("<a href=\"");
        index_link.append(site_root());
        index_link.append("/index.html\">Tao Te Ching</a>");
        let mut page_link = String::from_str("<a href=\"");
        page_link.append(site_root());
        page_link.append("/chapters/chapter-");
        page_link.append(chapter_num.as_str());
        page_link.append(".html\">Chapter ");
        page_link.append(chapter_num.as_str());
        page_link.append("</a>");
        proof {
            assert(index_link@ =~= index_link_elem());
            assert(page_link@ =~= page_link_elem(self@.index));
        }
        let mut header = String::from_str("<h1>");
        let page_mode = match &settings.mode {
            Some(Mode::Page { .. }) => true,
            _ => false,
        };
        if page_mode {
            header.append(index_link.as_str());
            header.append(" • ");
            header.append(page_link.as_str());
        } else {
            header.append(page_link.as_str());
        }
        header.append("</h1>");
        proof {
            assert(page_mode == is_page_mode(settings.mode));
            assert(header@ =~= chapter_header(self@.index, is_page_mode(settings.mode)));
        }
        let mut r = String::from_str("<article chapter>");
        r.append(header.as_str());
        r.append("\n<div content>\n");
        r.append(contents.as_str());
        r.append("\n</div>\n</article>");
        proof {
            assert(r@ =~= self.text_spec(settings));
        }
        r
    }
}

/// Splitting a hyphen-joined pair is unambiguous when the left part is all
/// digits: the hyphen after it is the first non-digit.
proof fn lemma_hyphen_split(a1: Seq<char>, b1: Seq<char>, a2: Seq<char>, b2: Seq<char>)
    requires
        forall|i: int| 0 <= i < a1.len() ==> is_digit_char(#[trigger] a1[i]),
        forall|i: int| 0 <= i < a2.len() ==> is_digit_char(#[trigger] a2[i]),
        a1 + "-"@ + b1 == a2 + "-"@ + b2,
    ensures
        a1 == a2,
        b1 == b2,
{
    reveal_strlit("-");
    assert("-"@.len() == 1 && "-"@[0] == '-');
    let x = a1 + "-"@ + b1;
    if a1.len() < a2.len() {
        assert(x[a1.len() as int] == '-');
        assert((a2 + "-"@ + b2)[a1.len() as int] == a2[a1.len() as int]);
        assert(is_digit_char('-'));
        assert(false);
    } else if a2.len() < a1.len() {
        assert((a2 + "-"@ + b2)[a2.len() as int] == '-');
        assert(x[a2.len() as int] == a1[a2.len() as int]);
        assert(is_digit_char('-'));
        assert(false);
    }
    assert(a1.len() == a2.len());
    assert forall|i: int| 0 <= i < a1.len() implies a1[i] == a2[i] by {
        assert((a1 + "-"@ + b1)[i] == a1[i]);
        assert((a2 + "-"@ + b2)[i] == a2[i]);
    }
    assert(a1 =~= a2);
    assert((a1 + "-"@ + b1).len() == a1.len() + 1 + b1.len());
    assert((a2 + "-"@ + b2).len() == a2.len() + 1 + b2.len());
    assert(b1.len() == b2.len());
    assert forall|i: int| 0 <= i < b1.len() implies b1[i] == b2[i] by {
        assert((a1 + "-"@ + b1)[a1.len() + 1 + i] == b1[i]);
        assert((a2 + "-"@ + b2)[a2.len() + 1 + i] == b2[i]);
    }
    assert(b1 =~= b2);
}

/// Anchor identifiers are injective in the position triple: two lines at
/// distinct (chapter, segment, line) positions never share an identifier.
/// In particular they are unique within a single chapter's rendering, and —
/// the chapter number included — unique across the whole document.
pub proof fn lemma_anchor_ids_unique(c1: nat, s1: nat, l1: nat, c2: nat, s2: nat, l2: nat)
    requires
        c1 != c2 || s1 != s2 || l1 != l2,
    ensures
        anchor_id(c1, s1, l1) != anchor_id(c2, s2, l2),
{
    if anchor_id(c1, s1, l1) == anchor_id(c2, s2, l2) {
        lemma_dec_digits(c1);
        lemma_dec_digits(c2);
        lemma_dec_digits(s1);
        lemma_dec_digits(s2);
        lemma_dec_digits(l1);
        lemma_dec_digits(l2);
        let r1 = dec(s1) + "-"@ + dec(l1);
        let r2 = dec(s2) + "-"@ + dec(l2);
        assert(anchor_id(c1, s1, l1) =~= dec(c1) + "-"@ + r1);
        assert(anchor_id(c2, s2, l2) =~= dec(c2) + "-"@ + r2);
        lemma_hyphen_split(dec(c1), r1, dec(c2), r2);
        lemma_dec_injective(c1, c2);
        lemma_hyphen_split(dec(s1), dec(l1), dec(s2), dec(l2));
        lemma_dec_injective(s1, s2);
        lemma_dec_injective(l1, l2);
        assert(false);
    }
}

/// Within a single chapter's rendering, no two lines at distinct (segment,
/// line) positions share an anchor identifier.
pub proof fn lemma_chapter_anchor_ids_unique(c: nat, s1: nat, l1: nat, s2: nat, l2: nat)
    requires
        s1 != s2 || l1 != l2,
    ensures
        anchor_id(c, s1, l1) != anchor_id(c, s2, l2),
{
    lemma_anchor_ids_unique(c, s1, l1, c, s2, l2);
}

/// Round-trip addressing: in a normalized chapter rendered at chapter
/// number `c`, the k-th line of the j-th surviving segment (both 0-based)
/// is rendered as the block whose visible label is the 1-based
/// `"<j+1>.<k+1>"` — numbering is computed strictly after normalization, so
/// empty segments removed before it never shift it.
pub proof fn lemma_label_round_trip(segs: Seq<Seq<Seq<char>>>, c: nat, j: int, k: int)
    requires
        0 <= j < crate::model::normalize_segments(segs).len(),
        0 <= k < crate::model::normalize_segments(segs)[j].len(),
    ensures
        chapter_segment_blocks(crate::model::normalize_segments(segs), c)[j] == segment_block(
            crate::model::normalize_segments(segs)[j],
            c,
            (j + 1) as nat,
        ),
        segment_line_blocks(crate::model::normalize_segments(segs)[j], c, (j + 1) as nat)[k]
            == line_block(
            crate::model::normalize_segments(segs)[j][k],
            c,
            (j + 1) as nat,
            (k + 1) as nat,
        ),
        line_block(crate::model::normalize_segments(segs)[j][k], c, (j + 1) as nat, (k + 1) as nat)
            == "<p id=\""@ + anchor_id(c, (j + 1) as nat, (k + 1) as nat) + "\" line>"@
            + "<a href=\"#"@ + anchor_id(c, (j + 1) as nat, (k + 1) as nat) + "\">"@ + line_label(
            (j + 1) as nat,
            (k + 1) as nat,
        ) + "</a>"@ + " "@ + crate::model::normalize_segments(segs)[j][k] + "</p>"@,
{
    let nsegs = crate::model::normalize_segments(segs);
    let t = nsegs[j][k];
    assert(line_block(t, c, (j + 1) as nat, (k + 1) as nat) =~= "<p id=\""@ + anchor_id(
        c,
        (j + 1) as nat,
        (k + 1) as nat,
    ) + "\" line>"@ + "<a href=\"#"@ + anchor_id(c, (j + 1) as nat, (k + 1) as nat) + "\">"@
        + line_label((j + 1) as nat, (k + 1) as nat) + "</a>"@ + " "@ + t + "</p>"@);
}

/// An anchor element opens at position `i` of `s`: the characters `<a`
/// stand there.
pub open spec fn link_opens_at(s: Seq<char>, i: int) -> bool {
    0 <= i < s.len() - 1 && s[i] == '<' && s[i + 1] == 'a'
}

/// The number of anchor-element openings `<a` in `s`: the number of
/// navigation links an HTML fragment contains, for fragments (such as
/// chapter headers) whose only `<a` pairs open anchor elements.
pub open spec fn link_count(s: Seq<char>) -> nat
    decreases s.len(),
{
    if s.len() < 2 {
        0
    } else {
        (if s[0] == '<' && s[1] == 'a' {
            1nat
        } else {
            0nat
        }) + link_count(s.drop_first())
    }
}

/// No anchor element opens anywhere in `s`.
pub open spec fn no_link_open(s: Seq<char>) -> bool {
    forall|i: int| !link_opens_at(s, i)
}

proof fn lemma_no_link_open_zero(s: Seq<char>)
    requires
        no_link_open(s),
    ensures
        link_count(s) == 0,
    decreases s.len(),
{
    if s.len() >= 2 {
        assert(!link_opens_at(s, 0));
        assert forall|i: int| !link_opens_at(s.drop_first(), i) by {
            if 0 <= i < s.drop_first().len() - 1 {
                assert(s.drop_first()[i] == s[i + 1]);
                assert(s.drop_first()[i + 1] == s[i + 2]);
                assert(!link_opens_at(s, i + 1));
            }
        }
        lemma_no_link_open_zero(s.drop_first());
    }
}

proof fn lemma_no_open_concat(a: Seq<char>, b: Seq<char>)
    requires
        no_link_open(a),
        no_link_open(b),
        !(a.len() > 0 && b.len() > 0 && a.last() == '<' && b[0] == 'a'),
    ensures
        no_link_open(a + b),
{
    assert forall|i: int| !link_opens_at(a + b, i) by {
        if 0 <= i < (a + b).len() - 1 {
            if i < a.len() - 1 {
                assert((a + b)[i] == a[i] && (a + b)[i + 1] == a[i + 1]);
                assert(!link_opens_at(a, i));
            } else if i == a.len() - 1 {
                assert((a + b)[i] == a.last() && (a + b)[i + 1] == b[0]);
            } else {
                assert((a + b)[i] == b[i - a.len()] && (a + b)[i + 1] == b[i + 1 - a.len()]);
                assert(!link_opens_at(b, i - a.len()));
            }
        }
    }
}

proof fn lemma_link_count_concat(a: Seq<char>, b: Seq<char>)
    requires
        a.len() == 0 || a.last() != '<',
    ensures
        link_count(a + b) == link_count(a) + link_count(b),
    decreases a.len(),
{
    if a.len() == 0 {
        assert(a + b =~= b);
    } else {
        assert((a + b).drop_first() =~= a.drop_first() + b);
        if a.len() >= 2 {
            assert(a.drop_first().last() == a.last());
        }
        lemma_link_count_concat(a.drop_first(), b);
        if a.len() == 1 {
            assert((a + b)[0] == a[0]);
        } else {
            assert((a + b)[0] == a[0] && (a + b)[1] == a[1]);
        }
    }
}

/// A fragment that opens an anchor element at its start and nowhere else
/// contains exactly one link.
proof fn lemma_link_count_single(s: Seq<char>)
    requires
        s.len() >= 2,
        s[0] == '<',
        s[1] == 'a',
        forall|i: int| i != 0 ==> !link_opens_at(s, i),
    ensures
        link_count(s) == 1,
{
    assert forall|i: int| !link_opens_at(s.drop_first(), i) by {
        if 0 <= i < s.drop_first().len() - 1 {
            assert(s.drop_first()[i] == s[i + 1]);
            assert(s.drop_first()[i + 1] == s[i + 2]);
            assert(!link_opens_at(s, i + 1));
        }
    }
    lemma_no_link_open_zero(s.drop_first());
}

proof fn lemma_root_no_open()
    ensures
        no_link_open(root_spec()),
        root_spec().len() > 0,
        root_spec()[0] != 'a',
        root_spec().last() != '<',
{
    reveal_strlit("https://colbyn.github.io/tao-te-ching-rs");
    assert forall|i: int| !link_opens_at(root_spec(), i) by {
        if 0 <= i < root_spec().len() - 1 {
            assert(root_spec()[i] != '<');
        }
    }
}

/// A decimal numeral opens no anchor element: all its characters are
/// digits.
proof fn lemma_dec_no_open(n: nat)
    ensures
        no_link_open(dec(n)),
        dec(n).len() > 0,
        dec(n)[0] != 'a',
        dec(n).last() != '<',
{
    lemma_dec_digits(n);
    assert forall|i: int| !link_opens_at(dec(n), i) by {
        if 0 <= i < dec(n).len() - 1 {
            assert(is_digit_char(dec(n)[i]));
        }
    }
}

proof fn lemma_index_link_count()
    ensures
        link_count(index_link_elem()) == 1,
        index_link_elem().len() > 0,
        index_link_elem()[0] != 'a',
        index_link_elem().last() != '<',
        forall|i: int| i != 0 ==> !link_opens_at(index_link_elem(), i),
{
    reveal_strlit("<a href=\"");
    reveal_strlit("/index.html\">Tao Te Ching</a>");
    lemma_root_no_open();
    let p1 = "<a href=\""@;
    let p3 = "/index.html\">Tao Te Ching</a>"@;
    assert forall|i: int| i != 0 ==> !link_opens_at(p1, i) by {
        if 1 <= i < p1.len() - 1 {
            assert(p1[i] != '<');
        }
    }
    assert forall|i: int| !link_opens_at(p3, i) by {
        if 0 <= i < p3.len() - 1 {
            if p3[i] == '<' {
                assert(i == 25);
                assert(p3[26] == '/');
            }
        }
    }
    let q = root_spec() + p3;
    lemma_no_open_concat(root_spec(), p3);
    let e = index_link_elem();
    assert(e =~= p1 + q);
    assert forall|i: int| i != 0 ==> !link_opens_at(e, i) by {
        if 1 <= i < e.len() - 1 {
            if i < p1.len() - 1 {
                assert(e[i] == p1[i] && e[i + 1] == p1[i + 1]);
                assert(!link_opens_at(p1, i));
            } else if i == p1.len() - 1 {
                assert(e[i] == p1.last() && e[i + 1] == q[0]);
                assert(p1.last() == '\"');
            } else {
                assert(e[i] == q[i - p1.len()] && e[i + 1] == q[i + 1 - p1.len()]);
                assert(!link_opens_at(q, i - p1.len()));
            }
        }
    }
    assert(e[0] == '<' && e[1] == 'a');
    lemma_link_count_single(e);
    assert(e.last() == p3.last());
}

proof fn lemma_page_link_count(ix: nat)
    ensures
        link_count(page_link_elem(ix)) == 1,
        page_link_elem(ix).len() > 0,
        page_link_elem(ix)[0] != 'a',
        page_link_elem(ix).last() != '<',
        forall|i: int| i != 0 ==> !link_opens_at(page_link_elem(ix), i),
{
    reveal_strlit("<a href=\"");
    reveal_strlit("/chapters/chapter-");
    reveal_strlit(".html\">Chapter ");
    reveal_strlit("</a>");
    lemma_root_no_open();
    lemma_dec_no_open(ix);
    let p1 = "<a href=\""@;
    let p3 = "/chapters/chapter-"@;
    let p5 = ".html\">Chapter "@;
    let p7 = "</a>"@;
    assert forall|i: int| i != 0 ==> !link_opens_at(p1, i) by {
        if 1 <= i < p1.len() - 1 {
            assert(p1[i] != '<');
        }
    }
    assert forall|i: int| !link_opens_at(p3, i) by {
        if 0 <= i < p3.len() - 1 {
            assert(p3[i] != '<');
        }
    }
    assert forall|i: int| !link_opens_at(p5, i) by {
        if 0 <= i < p5.len() - 1 {
            if p5[i] == '<' {
                assert(i == 5);
                assert(p5[6] == 'C');
            }
        }
    }
    assert forall|i: int| !link_opens_at(p7, i) by {
        if 0 <= i < p7.len() - 1 {
            if p7[i] == '<' {
                assert(i == 0);
                assert(p7[1] == '/');
            }
        }
    }
    let q4 = dec(ix) + p7;
    lemma_no_open_concat(dec(ix), p7);
    let q3 = p5 + q4;
    lemma_no_open_concat(p5, q4);
    let q2 = dec(ix) + q3;
    lemma_no_open_concat(dec(ix), q3);
    let q1 = p3 + q2;
    lemma_no_open_concat(p3, q2);
    let q0 = root_spec() + q1;
    lemma_no_open_concat(root_spec(), q1);
    let e = page_link_elem(ix);
    assert(e =~= p1 + q0);
    assert forall|i: int| i != 0 ==> !link_opens_at(e, i) by {
        if 1 <= i < e.len() - 1 {
            if i < p1.len() - 1 {
                assert(e[i] == p1[i] && e[i + 1] == p1[i + 1]);
                assert(!link_opens_at(p1, i));
            } else if i == p1.len() - 1 {
                assert(e[i] == p1.last() && e[i + 1] == q0[0]);
                assert(p1.last() == '\"');
            } else {
                assert(e[i] == q0[i - p1.len()] && e[i + 1] == q0[i + 1 - p1.len()]);
                assert(!link_opens_at(q0, i - p1.len()));
            }
        }
    }
    assert(e[0] == '<' && e[1] == 'a');
    lemma_link_count_single(e);
    assert(e.last() == p7.last());
}

/// The page-mode header contains exactly two navigation links; the
/// index-mode (or any other) header contains exactly one.
pub proof fn lemma_header_link_count(ix: nat)
    ensures
        link_count(chapter_header(ix, true)) == 2,
        link_count(chapter_header(ix, false)) == 1,
{
    reveal_strlit("<h1>");
    reveal_strlit("</h1>");
    reveal_strlit(" • ");
    let h1 = "<h1>"@;
    let h2 = "</h1>"@;
    let sep = " • "@;
    lemma_index_link_count();
    lemma_page_link_count(ix);
    let il = index_link_elem();
    let pl = page_link_elem(ix);
    assert forall|i: int| !link_opens_at(h1, i) by {
        if 0 <= i < h1.len() - 1 {
            if h1[i] == '<' {
                assert(i == 0);
                assert(h1[1] == 'h');
            }
        }
    }
    assert forall|i: int| !link_opens_at(h2, i) by {
        if 0 <= i < h2.len() - 1 {
            if h2[i] == '<' {
                assert(i == 0);
                assert(h2[1] == '/');
            }
        }
    }
    assert forall|i: int| !link_opens_at(sep, i) by {
        if 0 <= i < sep.len() - 1 {
            assert(sep[i] != '<');
        }
    }
    lemma_no_link_open_zero(h1);
    lemma_no_link_open_zero(h2);
    lemma_no_link_open_zero(sep);
    // page mode: <h1> + il + sep + pl + </h1>
    let page = chapter_header(ix, true);
    assert(page =~= h1 + (il + (sep + (pl + h2))));
    lemma_link_count_concat(pl, h2);
    lemma_link_count_concat(sep, pl + h2);
    lemma_link_count_concat(il, sep + (pl + h2));
    assert(sep + (pl + h2) =~= (sep + pl) + h2);
    assert(il + (sep + (pl + h2)) =~= ((il + sep) + pl) + h2);
    lemma_link_count_concat(h1, il + (sep + (pl + h2)));
    assert(link_count(page) == 2);
    // index mode: <h1> + pl + </h1>
    let index = chapter_header(ix, false);
    assert(index =~= h1 + (pl + h2));
    lemma_link_count_concat(h1, pl + h2);
    assert(link_count(index) == 1);
}

/// The index-mode fragments of a document's chapters, each rendered at its
/// 1-based position.
pub open spec fn index_fragments(chs: Seq<ChapterModel>) -> Seq<Seq<char>> {
    Seq::new(chs.len(), |i: int| chapter_block(chs[i], (i + 1) as nat, false))
}

/// Renders one chapter's standalone page: the chapter in page mode at the
/// given 0-based position, wrapped in the page shell.
pub fn render_chapter_page(chapter: &Chapter, position: usize) -> (r: String)
    requires
        position < usize::MAX,
    ensures
        r@ == pack_spec(chapter_block(chapter@, (position + 1) as nat, true)),
{
    let mut page_name = String::from_str("Chapter ");
    page_name.append(render_number(chapter.index as u64).as_str());
    let settings = Settings {
        mode: Some(Mode::Page { page_name }),
        chapter_ix: position,
        segment_ix: None,
        line_ix: None,
    };
    let body = chapter.to_text(settings);
    pack(body)
}

/// Renders the whole site from a normalized document: for each chapter, in
/// order, the text of its standalone page (page mode), and then the
/// aggregate index document (every chapter's index-mode fragment joined in
/// chapter order).
pub fn render_site(chapters: &Vec<Chapter>) -> (r: (Vec<String>, String))
    ensures
        r.0@.len() == chapters@.len(),
        forall|i: int| 0 <= i < r.0@.len() ==> #[trigger] r.0@[i]@ == pack_spec(
            chapter_block(chapters@[i]@, (i + 1) as nat, true),
        ),
        r.1@ == pack_spec(join_nl(index_fragments(crate::parse::chapters_view(chapters@)))),
{
    let mut pages: Vec<String> = Vec::new();
    let mut position: usize = 0;
    while position < chapters.len()
        invariant
            0 <= position <= chapters@.len(),
            pages@.len() == position,
            forall|i: int| 0 <= i < pages@.len() ==> #[trigger] pages@[i]@ == pack_spec(
                chapter_block(chapters@[i]@, (i + 1) as nat, true),
            ),
        decreases chapters@.len() - position,
    {
        let page = render_chapter_page(&chapters[position], position);
        pages.push(page);
        position = position + 1;
    }
    let index = render_index(chapters);
    (pages, index)
}

/// Renders the aggregate index document: every chapter's index-mode
/// fragment, joined by newlines in chapter order, wrapped in the page shell.
pub fn render_index(chapters: &Vec<Chapter>) -> (r: String)
    ensures
        r@ == pack_spec(join_nl(index_fragments(crate::parse::chapters_view(chapters@)))),
{
    let ghost chs = crate::parse::chapters_view(chapters@);
    let ghost frags = index_fragments(chs);
    let mut contents = String::new();
    let mut i: usize = 0;
    proof {
        assert(chs.len() == chapters@.len());
        assert(frags.subrange(0, 0) =~= Seq::<Seq<char>>::empty());
        assert(contents@ =~= join_nl(frags.subrange(0, 0)));
    }
    while i < chapters.len()
        invariant
            0 <= i <= chapters@.len(),
            chs == crate::parse::chapters_view(chapters@),
            frags == index_fragments(chs),
            frags.len() == chapters@.len(),
            contents@ == join_nl(frags.subrange(0, i as int)),
        decreases chapters@.len() - i,
    {
        let settings = Settings {
            mode: Some(Mode::Index),
            chapter_ix: i,
            segment_ix: None,
            line_ix: None,
        };
        let piece = chapters[i].to_text(settings);
        proof {
            assert(chs[i as int] == chapters@[i as int]@);
            assert(piece@ == frags[i as int]);
            assert(frags.subrange(0, i + 1).drop_last() =~= frags.subrange(0, i as int));
            assert(frags.subrange(0, i + 1).last() == frags[i as int]);
        }
        if i > 0 {
            contents.append("\n");
        }
        contents.append(piece.as_str());
        proof {
            assert(contents@ =~= join_nl(frags.subrange(0, i + 1)));
        }
        i = i + 1;
    }
    proof {
        assert(frags.subrange(0, i as int) =~= frags);
    }
    pack(contents)
}

} // verus!
