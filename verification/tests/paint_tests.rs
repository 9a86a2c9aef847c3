use mehweb::cascade::Config;
use mehweb::cascade::apply_css;
use mehweb::color::Rgba;
use mehweb::color::get_color;
use mehweb::css;
use mehweb::flow::FontMetrics;
use mehweb::flow::flow;
use mehweb::html::parse;
use mehweb::render::Doc;
use mehweb::layout::Content;
use mehweb::render::PaintOp;

fn paint_config() -> Config {
    Config {
        default_css: Vec::new(),
        inherited: vec![String::from("color")],
        colors: vec![(String::from("green"), String::from("#008000"))],
        font_size: 16,
    }
}

fn paint_metrics() -> FontMetrics {
    FontMetrics {
        advances: vec![(' ', 10)],
        default_advance: 20,
        ascent: 8,
        descent: 4,
        kerning: Vec::new(),
    }
}

fn rects(ops: &[PaintOp]) -> Vec<(i32, i32, i32, i32)> {
    let mut out = Vec::new();
    for op in ops {
        if let PaintOp::Rect { x, y, width, height, .. } = op {
            out.push((*x, *y, *width, *height));
        }
    }
    out
}

#[test]
fn word_wrap_two_lines() {
    // Budget 100, each word 40 wide, a space 10: `aa bb` fills the
    // first line (40+10+40+10 = 100) and `cc` wraps to the second.
    let m = paint_metrics();
    let (glyphs, height) = flow("aa bb cc", 0, 0, 100, &m);
    // Two lines of line height 12.
    assert_eq!(height, 24);
    // a a ␣ b b ␣ c c ␣ (a space glyph follows each placed word when
    // it fits; the one after `bb` lands exactly at the budget).
    let chars: Vec<char> = glyphs.iter().map(|g| g.ch).collect();
    assert_eq!(chars, vec!['a', 'a', ' ', 'b', 'b', ' ', 'c', 'c', ' ']);
    let xs: Vec<i32> = glyphs.iter().map(|g| g.x).collect();
    assert_eq!(xs, vec![0, 20, 40, 50, 70, 90, 0, 20, 40]);
    // The wrapped word sits one line height lower, on the baseline.
    assert_eq!(glyphs[6].y, 20);
    assert_eq!(glyphs[0].y, 8);
}

#[test]
fn word_wrap_never_ends_line_with_space() {
    // A budget where a word fits but its trailing space does not:
    // the pen wraps without placing the space.
    let m = paint_metrics();
    let (glyphs, _h) = flow("aa bb", 0, 0, 45, &m);
    let chars: Vec<char> = glyphs.iter().map(|g| g.ch).collect();
    // aa fits (40 <= 45); its trailing space does not (50 > 45), so no
    // space glyph is placed and bb starts at the left of line two.
    assert_eq!(chars, vec!['a', 'a', 'b', 'b']);
    assert_eq!(glyphs[2].x, 0);
    assert_eq!(glyphs[2].y, 12 + 8);
}

#[test]
fn margin_collapsing_uses_larger_margin() {
    // Two sibling boxes with bottom margin 10 and top margin 6 are
    // separated by exactly 10 (the larger), not 16.
    let html = String::from(
        "<div><p style=\"margin-bottom: 10px\"></p><p style=\"margin-top: 6px\"></p></div>",
    );
    let doc = parse(html);
    let rules = css::parse(doc.find_css());
    let styled = apply_css(&rules, doc, &paint_config());
    let ops = Doc::Web(styled).draw(800, 600, &paint_metrics(), &paint_config());
    let rs = rects(&ops);
    // root box, outer div, then the two paragraphs.
    assert_eq!(rs.len(), 4);
    let first_p = rs[2];
    let second_p = rs[3];
    assert_eq!(first_p.1, 0);
    assert_eq!(second_p.1, 10);
}

#[test]
fn margin_collapsing_keeps_larger_top_margin() {
    // With bottom 6 and top 10 the gap is 10 again: 6 + max(0, 10-6).
    let html = String::from(
        "<div><p style=\"margin-bottom: 6px\"></p><p style=\"margin-top: 10px\"></p></div>",
    );
    let doc = parse(html);
    let rules = css::parse(doc.find_css());
    let styled = apply_css(&rules, doc, &paint_config());
    let ops = Doc::Web(styled).draw(800, 600, &paint_metrics(), &paint_config());
    let rs = rects(&ops);
    assert_eq!(rs[3].1, 10);
}

#[test]
fn display_none_subtree_emits_nothing() {
    // A hidden container with three children emits zero primitives and
    // contributes zero height to its parent's flow.
    let html = String::from(
        "<div><section style=\"display: none\"><p>a</p><p>b</p><p>c</p></section><p style=\"margin-top: 5px\"></p></div>",
    );
    let doc = parse(html);
    let rules = css::parse(doc.find_css());
    let styled = apply_css(&rules, doc, &paint_config());
    let ops = Doc::Web(styled).draw(800, 600, &paint_metrics(), &paint_config());
    let rs = rects(&ops);
    // Only the root box, the outer div, and the visible paragraph.
    assert_eq!(rs.len(), 3);
    assert_eq!(ops.len(), 3);
    // The visible sibling's flow position ignores the hidden subtree.
    assert_eq!(rs[2].1, 5);
}

#[test]
fn body_margin_becomes_padding() {
    // The body quirk: its margin indents its children like padding.
    let html = String::from(
        "<body style=\"margin: 8px; width: 100px\"><p></p></body>",
    );
    let doc = parse(html);
    let rules = css::parse(doc.find_css());
    let styled = apply_css(&rules, doc, &paint_config());
    let ops = Doc::Web(styled).draw(800, 600, &paint_metrics(), &paint_config());
    let rs = rects(&ops);
    // The body box itself sits at the origin and spans its margins.
    assert_eq!(rs[1].0, 0);
    assert_eq!(rs[1].2, 116);
    // Its child is indented by the margin-as-padding.
    assert_eq!(rs[2].0, 8);
    assert_eq!(rs[2].1, 8);
}

#[test]
fn text_color_and_glyph_run() {
    let html = String::from("<p style=\"color: green\">hi</p>");
    let doc = parse(html);
    let rules = css::parse(doc.find_css());
    let styled = apply_css(&rules, doc, &paint_config());
    let ops = Doc::Web(styled).draw(800, 600, &paint_metrics(), &paint_config());
    let mut found = false;
    for op in &ops {
        if let PaintOp::Glyphs { positions, color } = op {
            found = true;
            // `h`, `i`, and the trailing space glyph.
            assert_eq!(positions.len(), 3);
            assert_eq!(*color, Rgba { r: 0, g: 128, b: 0, a: 255 });
        }
    }
    assert!(found);
}

#[test]
fn percentage_width_resolves_against_parent() {
    // Nested percentages compound at the emission boundary.
    let html = String::from(
        "<div style=\"width: 50%\"><div style=\"width: 50%; height: 10px\"></div></div>",
    );
    let doc = parse(html);
    let rules = css::parse(doc.find_css());
    let styled = apply_css(&rules, doc, &paint_config());
    let ops = Doc::Web(styled).draw(800, 600, &paint_metrics(), &paint_config());
    let rs = rects(&ops);
    assert_eq!(rs[1].2, 400);
    assert_eq!(rs[2].2, 200);
}

#[test]
fn color_parsing_forms() {
    let table = vec![(String::from("rebeccapurple"), String::from("#663399"))];
    assert_eq!(
        get_color("#0a0B0c", &table),
        Rgba { r: 10, g: 11, b: 12, a: 255 }
    );
    assert_eq!(
        get_color("rgb(1, 2, 3)", &table),
        Rgba { r: 1, g: 2, b: 3, a: 255 }
    );
    assert_eq!(
        get_color("rebeccapurple", &table),
        Rgba { r: 102, g: 51, b: 153, a: 255 }
    );
    // Unknown names and unresolvable syntax fall back to opaque black.
    assert_eq!(get_color("nosuch", &table), Rgba { r: 0, g: 0, b: 0, a: 255 });
    assert_eq!(get_color("#12", &table), Rgba { r: 0, g: 0, b: 0, a: 255 });
    assert_eq!(
        get_color("rgb(300, 0, 0)", &table),
        Rgba { r: 0, g: 0, b: 0, a: 255 }
    );
}

#[test]
fn doc_render_builds_geometry_tree() {
    let doc = parse(String::from("<div style=\"width: 40px\"></div>"));
    let rules = css::parse(doc.find_css());
    let styled = apply_css(&rules, doc, &paint_config());
    let root = Doc::Web(styled).render(&paint_config());
    assert!(!root.hidden);
    assert_eq!(root.children.len(), 1);
    let div = &root.children[0];
    assert_eq!(div.visual_width, mehweb::distance::Distance::Absolute(40));
    assert!(matches!(div.content, Content::Solid(_)));

    let blank = Doc::Blank.render(&paint_config());
    assert_eq!(blank.children.len(), 0);
}

#[test]
fn blank_document_draws_nothing() {
    let ops = Doc::Blank.draw(100, 100, &paint_metrics(), &paint_config());
    assert_eq!(ops.len(), 0);
}
