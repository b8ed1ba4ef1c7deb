use verse_pages::numerals::render_number;
use verse_pages::{
    build_chapters, normalize_chapters, pack, render_chapter_page, render_index, render_site,
    Chapter, Line, Mode, Segment, Settings, ToText,
};

const ROOT: &str = "https://colbyn.github.io/tao-te-ching-rs";

fn shell_deps() -> String {
    let fonts = "https://fonts.googleapis.com/css2?family=Noto+Serif:ital,wght@0,400;0,700;1,400;1,700&family=Playfair+Display+SC:ital,wght@0,400;0,700;0,900;1,400;1,700;1,900&family=Playfair+Display:ital,wght@0,400;0,500;0,600;0,700;0,800;0,900;1,400;1,500;1,600;1,700;1,800;1,900&family=Source+Sans+Pro:ital,wght@0,200;0,300;0,400;0,600;0,700;0,900;1,200;1,300;1,400;1,600;1,700;1,900&display=swap";
    format!(
        "\n        <meta charset=\"UTF-8\">\n        <link rel=\"preconnect\" href=\"https://fonts.googleapis.com\">\n        <link rel=\"preconnect\" href=\"https://fonts.gstatic.com\">\n        <link href=\"{f}\" rel=\"stylesheet\">\n        <link href=\"{f}\" rel=\"stylesheet\">\n    ",
        f = fonts
    )
}

fn expected_pack(contents: &str) -> String {
    format!(
        "<html>\n<head>{deps}<link rel=\"stylesheet\" href=\"{root}/styling.css\"></head>\n<body>\n<main>\n{c}\n</main>\n</body>\n</html>",
        deps = shell_deps(),
        root = ROOT,
        c = contents
    )
}

fn chapter_of(index: usize, segments: &[&[&str]]) -> Chapter {
    Chapter {
        index,
        segments: segments
            .iter()
            .map(|seg| Segment(seg.iter().map(|l| Line(l.to_string())).collect()))
            .collect(),
    }
}

fn page_settings(position: usize) -> Settings {
    Settings {
        mode: Some(Mode::Page { page_name: format!("Chapter {}", position + 1) }),
        chapter_ix: position,
        segment_ix: None,
        line_ix: None,
    }
}

fn index_settings(position: usize) -> Settings {
    Settings { mode: Some(Mode::Index), chapter_ix: position, segment_ix: None, line_ix: None }
}

#[test]
fn line_block_is_exact() {
    let line = Line("alpha".to_string());
    let settings = Settings {
        mode: None,
        chapter_ix: 0,
        segment_ix: Some(0),
        line_ix: Some(0),
    };
    assert_eq!(
        line.to_text(settings),
        "<p id=\"1-1-1\" line><a href=\"#1-1-1\">1.1</a> alpha</p>"
    );
}

#[test]
fn segment_block_is_exact() {
    let seg = Segment(vec![Line("alpha".to_string()), Line("beta".to_string())]);
    let settings = Settings { mode: None, chapter_ix: 0, segment_ix: Some(0), line_ix: None };
    assert_eq!(
        seg.to_text(settings),
        "<section><p id=\"1-1-1\" line><a href=\"#1-1-1\">1.1</a> alpha</p>\n<p id=\"1-1-2\" line><a href=\"#1-1-2\">1.2</a> beta</p></section>"
    );
}

#[test]
fn chapter_page_is_exact_for_small_chapter() {
    let ch = chapter_of(2, &[&["delta"]]);
    let header = format!(
        "<h1><a href=\"{root}/index.html\">Tao Te Ching</a> \u{2022} <a href=\"{root}/chapters/chapter-2.html\">Chapter 2</a></h1>",
        root = ROOT
    );
    let body = format!(
        "<article chapter>{h}\n<div content>\n<section><p id=\"2-1-1\" line><a href=\"#2-1-1\">1.1</a> delta</p></section>\n</div>\n</article>",
        h = header
    );
    assert_eq!(render_chapter_page(&ch, 1), expected_pack(&body));
}

#[test]
fn end_to_end_example_pages_and_index() {
    let src: Vec<String> =
        ["1", "alpha", "beta", "", "gamma", "2", "delta"].iter().map(|s| s.to_string()).collect();
    let chapters = normalize_chapters(build_chapters(&src));
    assert_eq!(chapters.len(), 2);

    let page1 = render_chapter_page(&chapters[0], 0);
    assert!(page1.contains("<p id=\"1-1-1\" line><a href=\"#1-1-1\">1.1</a> alpha</p>"));
    assert!(page1.contains("<p id=\"1-2-1\" line><a href=\"#1-2-1\">2.1</a> gamma</p>"));

    let page2 = render_chapter_page(&chapters[1], 1);
    assert!(page2.contains("<p id=\"2-1-1\" line><a href=\"#2-1-1\">1.1</a> delta</p>"));

    // The index concatenates both chapters' index-mode fragments in order.
    let frag1 = chapters[0].to_text(index_settings(0));
    let frag2 = chapters[1].to_text(index_settings(1));
    let index = render_index(&chapters);
    assert_eq!(index, expected_pack(&format!("{}\n{}", frag1, frag2)));
    let pos1 = index.find(&frag1).expect("first fragment present");
    let pos2 = index.find(&frag2).expect("second fragment present");
    assert!(pos1 < pos2);
}

#[test]
fn empty_input_produces_shell_wrapped_empty_index() {
    let chapters = normalize_chapters(build_chapters(&Vec::new()));
    assert_eq!(chapters.len(), 0);
    assert_eq!(render_index(&chapters), expected_pack(""));
}

#[test]
fn page_header_has_two_links_index_header_has_one() {
    // A chapter with no segments renders its header and nothing else, so
    // every anchor element in the output belongs to the header.
    let ch = chapter_of(3, &[]);
    let page = ch.to_text(page_settings(2));
    let index = ch.to_text(index_settings(2));
    assert_eq!(page.matches("<a ").count(), 2);
    assert_eq!(index.matches("<a ").count(), 1);
    // The page header links back to the index and to its own page; the
    // index header only links to the page.
    assert!(page.contains(&format!("<a href=\"{}/index.html\">Tao Te Ching</a>", ROOT)));
    assert!(page.contains(&format!("<a href=\"{}/chapters/chapter-3.html\">Chapter 3</a>", ROOT)));
    assert!(!index.contains("index.html"));
    assert!(index.contains(&format!("<a href=\"{}/chapters/chapter-3.html\">Chapter 3</a>", ROOT)));
}

#[test]
fn labels_are_computed_after_normalization() {
    let src: Vec<String> =
        ["1", "", "x", "", "", "y", "z"].iter().map(|s| s.to_string()).collect();
    let chapters = normalize_chapters(build_chapters(&src));
    assert_eq!(chapters.len(), 1);
    let page = render_chapter_page(&chapters[0], 0);
    // "x" sat in the second raw segment and "y"/"z" in the fourth, but
    // numbering follows the surviving segments: 1 and 2.
    assert!(page.contains(">1.1</a> x"));
    assert!(page.contains(">2.1</a> y"));
    assert!(page.contains(">2.2</a> z"));
    assert!(!page.contains(">3.1</a>"));
    assert!(!page.contains(">4.1</a>"));
}

#[test]
fn anchor_identifiers_are_unique_within_a_chapter() {
    let ch = chapter_of(1, &[&["a", "b"], &["c"], &["d", "e", "f"]]);
    let page = ch.to_text(page_settings(0));
    let mut ids: Vec<&str> = Vec::new();
    for part in page.split("<p id=\"").skip(1) {
        let id = part.split('"').next().expect("closing quote");
        ids.push(id);
    }
    assert_eq!(ids.len(), 6);
    let mut sorted = ids.clone();
    sorted.sort();
    sorted.dedup();
    assert_eq!(sorted.len(), 6, "duplicate anchor identifier in {:?}", ids);
}

#[test]
fn render_site_gives_one_page_per_chapter_plus_index() {
    let src: Vec<String> =
        ["1", "alpha", "beta", "", "gamma", "2", "delta"].iter().map(|s| s.to_string()).collect();
    let chapters = normalize_chapters(build_chapters(&src));
    let (pages, index) = render_site(&chapters);
    assert_eq!(pages.len(), 2);
    assert_eq!(pages[0], render_chapter_page(&chapters[0], 0));
    assert_eq!(pages[1], render_chapter_page(&chapters[1], 1));
    assert_eq!(index, render_index(&chapters));
}

#[test]
fn implicit_chapter_keeps_index_zero_in_header_but_positional_anchors() {
    let src: Vec<String> = ["alpha", "1", "beta"].iter().map(|s| s.to_string()).collect();
    let chapters = normalize_chapters(build_chapters(&src));
    assert_eq!(chapters.len(), 2);
    // The implicit leading container carries index 0; the marker chapter is
    // numbered by creation count (second created).
    let page0 = render_chapter_page(&chapters[0], 0);
    assert!(page0.contains("chapter-0.html\">Chapter 0</a>"));
    assert!(page0.contains("<p id=\"1-1-1\" line><a href=\"#1-1-1\">1.1</a> alpha</p>"));
    let page1 = render_chapter_page(&chapters[1], 1);
    assert!(page1.contains("chapter-2.html\">Chapter 2</a>"));
    assert!(page1.contains("<p id=\"2-1-1\" line><a href=\"#2-1-1\">1.1</a> beta</p>"));
}

#[test]
fn pack_wraps_arbitrary_content() {
    assert_eq!(pack("hello".to_string()), expected_pack("hello"));
    assert_eq!(pack(String::new()), expected_pack(""));
}

#[test]
fn render_number_gives_exact_decimals() {
    assert_eq!(render_number(0), "0");
    assert_eq!(render_number(7), "7");
    assert_eq!(render_number(10), "10");
    assert_eq!(render_number(81), "81");
    assert_eq!(render_number(123456789), "123456789");
    assert_eq!(render_number(u64::MAX), "18446744073709551615");
}

#[test]
fn default_settings_are_empty() {
    let s = Settings::default();
    assert!(s.mode.is_none());
    assert_eq!(s.chapter_ix, 0);
    assert!(s.segment_ix.is_none());
    assert!(s.line_ix.is_none());
}

#[test]
fn mode_none_renders_like_index_mode() {
    // Any mode other than page mode shows the single-link header.
    let ch = chapter_of(1, &[]);
    let with_none = ch.to_text(Settings { mode: None, chapter_ix: 0, segment_ix: None, line_ix: None });
    let with_index = ch.to_text(index_settings(0));
    assert_eq!(with_none, with_index);
}
