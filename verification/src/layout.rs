//! The box layout engine: walks the styled tree and produces the
//! geometry tree of `LayoutBox` values.  Lengths stay symbolic
//! `Distance` values through this pass; they become concrete pixels
//! only at the paint-emission boundary.

use vstd::prelude::*;

use crate::cascade::Config;
use crate::color::Rgba;
use crate::color::spec_get_color;
use crate::color::spec_transparent;
use crate::css::pairs_view;
use crate::distance::Distance;
use crate::distance::Insets;
use crate::distance::spec_parse_distance;
use crate::distance::spec_shorthand;
use crate::distance::spec_sub;
use crate::html::Node;
use crate::html::NodeType;
use crate::html::SNode;
use crate::html::SNodeKind;
use crate::html::node_view;
use crate::html::nodes_view;
use crate::stylemap::map_lookup;
use crate::strutil::str_eq;

verus! {

/// Font weight of a text run.
#[derive(Clone, Copy, PartialEq, Eq, Structural, Debug)]
pub enum FontWeight {
    Normal,
    Bold,
}

/// Font slant of a text run.
#[derive(Clone, Copy, PartialEq, Eq, Structural, Debug)]
pub enum FontSlant {
    Normal,
    Italic,
    Oblique,
}

/// A text run with its resolved font properties.
pub struct Label {
    pub text: String,
    pub font_size: Distance,
    pub font_color: Rgba,
    pub weight: FontWeight,
    pub slant: FontSlant,
}

/// What a box paints: a filled rectangle, or a text run.
pub enum Content {
    Solid(Rgba),
    Text(Label),
}

/// A node of the geometry tree: resolved margin and padding insets, a
/// width and an optional explicit height (both still symbolic), the
/// content classification, and the owned child boxes.  A box produced
/// from a `display: none` node is `hidden`: it paints nothing and
/// contributes nothing to its parent's flow.
pub struct LayoutBox {
    pub margin_left: Distance,
    pub margin_top: Distance,
    pub margin_right: Distance,
    pub margin_bottom: Distance,
    pub padding_left: Distance,
    pub padding_top: Distance,
    pub padding_right: Distance,
    pub padding_bottom: Distance,
    pub visual_width: Distance,
    pub visual_height: Option<Distance>,
    pub hidden: bool,
    pub content: Content,
    pub children: Vec<LayoutBox>,
}

/// The mathematical mirror of a `Label`.
pub struct SLabel {
    pub text: Seq<char>,
    pub font_size: Distance,
    pub font_color: Rgba,
    pub weight: FontWeight,
    pub slant: FontSlant,
}

/// The mathematical mirror of `Content`.
pub enum SContent {
    Solid(Rgba),
    Text(SLabel),
}

/// The mathematical mirror of a `LayoutBox`.
pub struct SBox {
    pub margin_left: Distance,
    pub margin_top: Distance,
    pub margin_right: Distance,
    pub margin_bottom: Distance,
    pub padding_left: Distance,
    pub padding_top: Distance,
    pub padding_right: Distance,
    pub padding_bottom: Distance,
    pub visual_width: Distance,
    pub visual_height: Option<Distance>,
    pub hidden: bool,
    pub content: SContent,
    pub children: Seq<SBox>,
}

/// The mathematical value of a content classification.
pub open spec fn content_view(c: Content) -> SContent {
    match c {
        Content::Solid(col) => SContent::Solid(col),
        Content::Text(l) => SContent::Text(
            SLabel {
                text: l.text@,
                font_size: l.font_size,
                font_color: l.font_color,
                weight: l.weight,
                slant: l.slant,
            },
        ),
    }
}

/// The mathematical value of a layout box.
pub open spec fn box_view(b: LayoutBox) -> SBox
    decreases b,
{
    SBox {
        margin_left: b.margin_left,
        margin_top: b.margin_top,
        margin_right: b.margin_right,
        margin_bottom: b.margin_bottom,
        padding_left: b.padding_left,
        padding_top: b.padding_top,
        padding_right: b.padding_right,
        padding_bottom: b.padding_bottom,
        visual_width: b.visual_width,
        visual_height: b.visual_height,
        hidden: b.hidden,
        content: content_view(b.content),
        children: boxes_view(b.children@),
    }
}

/// The mathematical value of a box sequence.
pub open spec fn boxes_view(bs: Seq<LayoutBox>) -> Seq<SBox>
    decreases bs,
{
    if bs.len() == 0 {
        Seq::empty()
    } else {
        seq![box_view(bs[0])] + boxes_view(bs.drop_first())
    }
}

pub broadcast proof fn lemma_boxes_view_len(bs: Seq<LayoutBox>)
    ensures
        (#[trigger] boxes_view(bs)).len() == bs.len(),
    decreases bs,
{
    if bs.len() > 0 {
        lemma_boxes_view_len(bs.drop_first());
    }
}

pub broadcast proof fn lemma_boxes_view_index(bs: Seq<LayoutBox>, i: int)
    requires
        0 <= i < bs.len(),
    ensures
        #[trigger] boxes_view(bs)[i] == box_view(bs[i]),
    decreases bs,
{
    lemma_boxes_view_len(bs);
    if i > 0 {
        lemma_boxes_view_index(bs.drop_first(), i - 1);
    }
}

pub broadcast proof fn lemma_boxes_view_push(bs: Seq<LayoutBox>, b: LayoutBox)
    ensures
        #[trigger] boxes_view(bs.push(b)) == boxes_view(bs).push(box_view(b)),
    decreases bs,
{
    if bs.len() == 0 {
        assert(bs.push(b)[0] == b);
        assert(bs.push(b).drop_first() =~= Seq::<LayoutBox>::empty());
        assert(boxes_view(Seq::<LayoutBox>::empty()) =~= Seq::<SBox>::empty());
        assert(boxes_view(bs.push(b)) =~= boxes_view(bs).push(box_view(b)));
    } else {
        assert(bs.push(b)[0] == bs[0]);
        assert(bs.push(b).drop_first() =~= bs.drop_first().push(b));
        lemma_boxes_view_push(bs.drop_first(), b);
        assert(boxes_view(bs.push(b)) == seq![box_view(bs[0])] + boxes_view(
            bs.drop_first().push(b),
        ));
        assert(boxes_view(bs.push(b)) =~= boxes_view(bs).push(box_view(b)));
    }
}

/// Four zero insets.
pub open spec fn zero_insets() -> Insets {
    Insets {
        top: Distance::Absolute(0),
        right: Distance::Absolute(0),
        bottom: Distance::Absolute(0),
        left: Distance::Absolute(0),
    }
}

/// The empty mirror box: zero insets, zero width, no explicit height,
/// a transparent fill, no children.
pub open spec fn empty_sbox() -> SBox {
    SBox {
        margin_left: Distance::Absolute(0),
        margin_top: Distance::Absolute(0),
        margin_right: Distance::Absolute(0),
        margin_bottom: Distance::Absolute(0),
        padding_left: Distance::Absolute(0),
        padding_top: Distance::Absolute(0),
        padding_right: Distance::Absolute(0),
        padding_bottom: Distance::Absolute(0),
        visual_width: Distance::Absolute(0),
        visual_height: None,
        hidden: false,
        content: SContent::Solid(spec_transparent()),
        children: Seq::empty(),
    }
}

impl LayoutBox {
    /// An empty box: zero insets, zero width, no explicit height, a
    /// transparent fill, no children.
    pub fn empty() -> (r: LayoutBox)
        ensures
            box_view(r) == empty_sbox(),
    {
        let r = LayoutBox {
            margin_left: Distance::Absolute(0),
            margin_top: Distance::Absolute(0),
            margin_right: Distance::Absolute(0),
            margin_bottom: Distance::Absolute(0),
            padding_left: Distance::Absolute(0),
            padding_top: Distance::Absolute(0),
            padding_right: Distance::Absolute(0),
            padding_bottom: Distance::Absolute(0),
            visual_width: Distance::Absolute(0),
            visual_height: None,
            hidden: false,
            content: Content::Solid(Rgba::transparent()),
            children: Vec::new(),
        };
        proof {
            assert(boxes_view(Seq::<LayoutBox>::empty()) =~= Seq::<SBox>::empty());
        }
        r
    }
}

/// The distance a style value for `key` denotes, or `dflt` when the
/// key is unset or its value fails to parse.
pub open spec fn style_distance(
    css: Seq<(Seq<char>, Seq<char>)>,
    key: Seq<char>,
    fs: i32,
    dflt: Distance,
) -> Distance {
    match map_lookup(css, key) {
        Some(v) => match spec_parse_distance(v, fs) {
            Some(d) => d,
            None => dflt,
        },
        None => dflt,
    }
}

/// The four insets of a shorthand property (`margin` or `padding`) and
/// its per-side overrides: the shorthand expansion first, then each
/// side's own property on top of it.
pub open spec fn style_insets(
    css: Seq<(Seq<char>, Seq<char>)>,
    shorthand: Seq<char>,
    top: Seq<char>,
    right: Seq<char>,
    bottom: Seq<char>,
    left: Seq<char>,
    fs: i32,
) -> Insets {
    let base = match map_lookup(css, shorthand) {
        Some(v) => match spec_shorthand(v, fs) {
            Some(ins) => ins,
            None => zero_insets(),
        },
        None => zero_insets(),
    };
    Insets {
        top: style_distance(css, top, fs, base.top),
        right: style_distance(css, right, fs, base.right),
        bottom: style_distance(css, bottom, fs, base.bottom),
        left: style_distance(css, left, fs, base.left),
    }
}

/// Whether the resolved style hides the node (`display: none`).
pub open spec fn style_hidden(css: Seq<(Seq<char>, Seq<char>)>) -> bool {
    map_lookup(css, "display"@) == Some("none"@)
}

/// The label of a text node under its resolved style: the text color
/// (or opaque black), the font size (or the root font size), and the
/// `bold` / `italic` / `oblique` keywords.
pub open spec fn style_label(
    t: Seq<char>,
    css: Seq<(Seq<char>, Seq<char>)>,
    colors: Seq<(Seq<char>, Seq<char>)>,
    fs: i32,
) -> SLabel {
    SLabel {
        text: t,
        font_size: style_distance(css, "font-size"@, fs, Distance::Absolute(fs)),
        font_color: match map_lookup(css, "color"@) {
            Some(v) => spec_get_color(v, colors),
            None => crate::color::spec_black(),
        },
        weight: match map_lookup(css, "font-weight"@) {
            Some(v) => if v == "bold"@ {
                FontWeight::Bold
            } else {
                FontWeight::Normal
            },
            None => FontWeight::Normal,
        },
        slant: match map_lookup(css, "font-style"@) {
            Some(v) => if v == "italic"@ {
                FontSlant::Italic
            } else if v == "oblique"@ {
                FontSlant::Oblique
            } else {
                FontSlant::Normal
            },
            None => FontSlant::Normal,
        },
    }
}

/// The geometry of an element box: margins and paddings from the
/// shorthand-and-override pattern, the explicit width or else the
/// available width minus the horizontal insets, the explicit height or
/// none, and the background fill (or transparent).  For the `body` tag
/// the margin values are instead applied as padding — a deliberately
/// kept quirk that the rest of the layout math depends on: its
/// specified padding is discarded, its margins become the padding, and
/// its width spans the margin area.
pub open spec fn element_sbox(
    tag: Seq<char>,
    css: Seq<(Seq<char>, Seq<char>)>,
    children: Seq<SBox>,
    max_w: Distance,
    colors: Seq<(Seq<char>, Seq<char>)>,
    fs: i32,
) -> SBox {
    let m = style_insets(
        css,
        "margin"@,
        "margin-top"@,
        "margin-right"@,
        "margin-bottom"@,
        "margin-left"@,
        fs,
    );
    let p = style_insets(
        css,
        "padding"@,
        "padding-top"@,
        "padding-right"@,
        "padding-bottom"@,
        "padding-left"@,
        fs,
    );
    let fallback_w = spec_sub(
        spec_sub(spec_sub(spec_sub(max_w, m.left), m.right), p.left),
        p.right,
    );
    let width = style_distance(css, "width"@, fs, fallback_w);
    let height = match map_lookup(css, "height"@) {
        Some(v) => spec_parse_distance(v, fs),
        None => None,
    };
    let color = match map_lookup(css, "background-color"@) {
        Some(v) => spec_get_color(v, colors),
        None => spec_transparent(),
    };
    if tag == "body"@ {
        SBox {
            margin_left: Distance::Absolute(0),
            margin_top: Distance::Absolute(0),
            margin_right: Distance::Absolute(0),
            margin_bottom: Distance::Absolute(0),
            padding_left: m.left,
            padding_top: m.top,
            padding_right: m.right,
            padding_bottom: m.bottom,
            visual_width: crate::distance::spec_add(
                crate::distance::spec_add(width, m.left),
                m.right,
            ),
            visual_height: height,
            hidden: false,
            content: SContent::Solid(color),
            children,
        }
    } else {
        SBox {
            margin_left: m.left,
            margin_top: m.top,
            margin_right: m.right,
            margin_bottom: m.bottom,
            padding_left: p.left,
            padding_top: p.top,
            padding_right: p.right,
            padding_bottom: p.bottom,
            visual_width: width,
            visual_height: height,
            hidden: false,
            content: SContent::Solid(color),
            children,
        }
    }
}

/// A hidden box: the zero-size, fully transparent, childless box a
/// `display: none` node is laid out as.
pub open spec fn hidden_sbox() -> SBox {
    SBox { hidden: true, ..empty_sbox() }
}

/// The inner available size handed to an element's children: the outer
/// size minus the element's margins and paddings on that axis.
pub open spec fn inner_size(outer: Distance, a: Distance, b: Distance, c: Distance, d: Distance) -> Distance {
    spec_sub(spec_sub(spec_sub(spec_sub(outer, a), b), c), d)
}

/// The geometry tree of a styled node against the available width and
/// height.  A text node becomes a text box spanning the available
/// width; the document root becomes a transparent container spanning
/// it; an element resolves its geometry and recurses with the reduced
/// available size; a `display: none` node becomes a hidden box and its
/// subtree is not laid out.
pub open spec fn spec_render(
    n: SNode,
    max_w: Distance,
    max_h: Distance,
    colors: Seq<(Seq<char>, Seq<char>)>,
    fs: i32,
) -> SBox
    decreases n,
{
    match n.kind {
        SNodeKind::Text(t) => if style_hidden(n.css) {
            hidden_sbox()
        } else {
            SBox {
                visual_width: max_w,
                content: SContent::Text(style_label(t, n.css, colors, fs)),
                ..empty_sbox()
            }
        },
        SNodeKind::Document(cs) => SBox {
            visual_width: max_w,
            children: spec_render_seq(cs, max_w, max_h, colors, fs),
            ..empty_sbox()
        },
        SNodeKind::Container(tag, cs, _attrs) => if style_hidden(n.css) {
            hidden_sbox()
        } else {
            let m = style_insets(
                n.css,
                "margin"@,
                "margin-top"@,
                "margin-right"@,
                "margin-bottom"@,
                "margin-left"@,
                fs,
            );
            let p = style_insets(
                n.css,
                "padding"@,
                "padding-top"@,
                "padding-right"@,
                "padding-bottom"@,
                "padding-left"@,
                fs,
            );
            let new_w = inner_size(max_w, m.left, m.right, p.left, p.right);
            let new_h = inner_size(max_h, m.top, m.bottom, p.top, p.bottom);
            element_sbox(
                tag,
                n.css,
                spec_render_seq(cs, new_w, new_h, colors, fs),
                max_w,
                colors,
                fs,
            )
        },
    }
}

/// The geometry of a node list, in order.
pub open spec fn spec_render_seq(
    cs: Seq<SNode>,
    max_w: Distance,
    max_h: Distance,
    colors: Seq<(Seq<char>, Seq<char>)>,
    fs: i32,
) -> Seq<SBox>
    decreases cs,
{
    if cs.len() == 0 {
        Seq::empty()
    } else {
        seq![spec_render(cs[0], max_w, max_h, colors, fs)] + spec_render_seq(
            cs.drop_first(),
            max_w,
            max_h,
            colors,
            fs,
        )
    }
}

proof fn lemma_render_seq_take(
    cs: Seq<SNode>,
    max_w: Distance,
    max_h: Distance,
    colors: Seq<(Seq<char>, Seq<char>)>,
    fs: i32,
    i: int,
)
    requires
        0 <= i < cs.len(),
    ensures
        spec_render_seq(cs.take(i + 1), max_w, max_h, colors, fs) == spec_render_seq(
            cs.take(i),
            max_w,
            max_h,
            colors,
            fs,
        ).push(spec_render(cs[i], max_w, max_h, colors, fs)),
    decreases i,
{
    let a = cs.take(i + 1);
    let b = cs.take(i);
    if i == 0 {
        assert(a[0] == cs[0]);
        assert(a.drop_first() =~= Seq::<SNode>::empty());
        assert(b =~= Seq::<SNode>::empty());
        assert(spec_render_seq(a, max_w, max_h, colors, fs) =~= spec_render_seq(
            b,
            max_w,
            max_h,
            colors,
            fs,
        ).push(spec_render(cs[0], max_w, max_h, colors, fs)));
    } else {
        lemma_render_seq_take(cs.drop_first(), max_w, max_h, colors, fs, i - 1);
        assert(a[0] == cs[0] && b[0] == cs[0]);
        assert(a.drop_first() =~= cs.drop_first().take(i));
        assert(b.drop_first() =~= cs.drop_first().take(i - 1));
        assert(cs.drop_first()[i - 1] == cs[i]);
        assert(spec_render_seq(a, max_w, max_h, colors, fs) =~= spec_render_seq(
            b,
            max_w,
            max_h,
            colors,
            fs,
        ).push(spec_render(cs[i], max_w, max_h, colors, fs)));
    }
}

/// Look a style value up and parse it as a distance, with a fallback.
fn style_distance_exec(css: &crate::stylemap::StyleMap, key: &str, fs: i32, dflt: Distance) -> (r:
    Distance)
    ensures
        r == style_distance(css@, key@, fs, dflt),
{
    match css.get(key) {
        Some(v) => match Distance::from_text(v.as_str(), fs) {
            Some(d) => d,
            None => dflt,
        },
        None => dflt,
    }
}

/// Resolve a shorthand property and its per-side overrides.
fn style_insets_exec(
    css: &crate::stylemap::StyleMap,
    shorthand: &str,
    top: &str,
    right: &str,
    bottom: &str,
    left: &str,
    fs: i32,
) -> (r: Insets)
    ensures
        r == style_insets(css@, shorthand@, top@, right@, bottom@, left@, fs),
{
    let base: Insets = match css.get(shorthand) {
        Some(v) => match crate::distance::parse_shorthand(v.as_str(), fs) {
            Some(ins) => ins,
            None => Insets {
                top: Distance::Absolute(0),
                right: Distance::Absolute(0),
                bottom: Distance::Absolute(0),
                left: Distance::Absolute(0),
            },
        },
        None => Insets {
            top: Distance::Absolute(0),
            right: Distance::Absolute(0),
            bottom: Distance::Absolute(0),
            left: Distance::Absolute(0),
        },
    };
    Insets {
        top: style_distance_exec(css, top, fs, base.top),
        right: style_distance_exec(css, right, fs, base.right),
        bottom: style_distance_exec(css, bottom, fs, base.bottom),
        left: style_distance_exec(css, left, fs, base.left),
    }
}

/// Whether the computed style hides the node.
fn style_hidden_exec(css: &crate::stylemap::StyleMap) -> (r: bool)
    ensures
        r == style_hidden(css@),
{
    match css.get("display") {
        Some(v) => str_eq(v.as_str(), "none"),
        None => false,
    }
}

/// Lay a styled node out against the available width and height,
/// producing its geometry tree.
#[verifier::rlimit(100)]
pub fn render_node(node: &Node, max_width: Distance, max_height: Distance, config: &Config) -> (r:
    LayoutBox)
    ensures
        box_view(r) == spec_render(
            node_view(*node),
            max_width,
            max_height,
            pairs_view(config.colors@),
            config.font_size,
        ),
    decreases *node,
{
    let ghost colors = pairs_view(config.colors@);
    let fs: i32 = config.font_size;
    match &node.node_type {
        NodeType::Text(t) => {
            if style_hidden_exec(&node.css) {
                let mut b = LayoutBox::empty();
                b.hidden = true;
                return b;
            }
            let color: Rgba = match node.css.get("color") {
                Some(v) => crate::color::get_color(v.as_str(), &config.colors),
                None => Rgba::black(),
            };
            let font_size: Distance = style_distance_exec(
                &node.css,
                "font-size",
                fs,
                Distance::Absolute(fs),
            );
            let weight: FontWeight = match node.css.get("font-weight") {
                Some(v) => if str_eq(v.as_str(), "bold") {
                    FontWeight::Bold
                } else {
                    FontWeight::Normal
                },
                None => FontWeight::Normal,
            };
            let slant: FontSlant = match node.css.get("font-style") {
                Some(v) => if str_eq(v.as_str(), "italic") {
                    FontSlant::Italic
                } else if str_eq(v.as_str(), "oblique") {
                    FontSlant::Oblique
                } else {
                    FontSlant::Normal
                },
                None => FontSlant::Normal,
            };
            let mut b = LayoutBox::empty();
            b.visual_width = max_width;
            b.content = Content::Text(
                Label { text: t.clone(), font_size, font_color: color, weight, slant },
            );
            b
        },
        NodeType::Document(children) => {
            let kids: Vec<LayoutBox> = render_children(
                children,
                max_width,
                max_height,
                config,
            );
            let mut b = LayoutBox::empty();
            b.visual_width = max_width;
            b.children = kids;
            b
        },
        NodeType::Container(tag, children, _attrs) => {
            if style_hidden_exec(&node.css) {
                let mut b = LayoutBox::empty();
                b.hidden = true;
                return b;
            }
            let m: Insets = style_insets_exec(
                &node.css,
                "margin",
                "margin-top",
                "margin-right",
                "margin-bottom",
                "margin-left",
                fs,
            );
            let p: Insets = style_insets_exec(
                &node.css,
                "padding",
                "padding-top",
                "padding-right",
                "padding-bottom",
                "padding-left",
                fs,
            );
            let new_w: Distance = max_width.sub(m.left).sub(m.right).sub(p.left).sub(p.right);
            let new_h: Distance = max_height.sub(m.top).sub(m.bottom).sub(p.top).sub(p.bottom);
            let kids: Vec<LayoutBox> = render_children(children, new_w, new_h, config);

            let fallback_w: Distance = max_width.sub(m.left).sub(m.right).sub(p.left).sub(p.right);
            let width: Distance = style_distance_exec(&node.css, "width", fs, fallback_w);
            let height: Option<Distance> = match node.css.get("height") {
                Some(v) => Distance::from_text(v.as_str(), fs),
                None => None,
            };
            let color: Rgba = match node.css.get("background-color") {
                Some(v) => crate::color::get_color(v.as_str(), &config.colors),
                None => Rgba::transparent(),
            };
            let mut b = LayoutBox::empty();
            // Deliberately kept quirk: the body element's margin is
            // applied as padding, and its width spans it.
            if str_eq(tag.as_str(), "body") {
                b.padding_left = m.left;
                b.padding_top = m.top;
                b.padding_right = m.right;
                b.padding_bottom = m.bottom;
                b.visual_width = width.add(m.left).add(m.right);
            } else {
                b.margin_left = m.left;
                b.margin_top = m.top;
                b.margin_right = m.right;
                b.margin_bottom = m.bottom;
                b.padding_left = p.left;
                b.padding_top = p.top;
                b.padding_right = p.right;
                b.padding_bottom = p.bottom;
                b.visual_width = width;
            }
            b.visual_height = height;
            b.content = Content::Solid(color);
            b.children = kids;
            b
        },
    }
}

/// Lay a node list out, in order.
#[verifier::rlimit(100)]
fn render_children(
    children: &Vec<Node>,
    max_width: Distance,
    max_height: Distance,
    config: &Config,
) -> (r: Vec<LayoutBox>)
    ensures
        boxes_view(r@) == spec_render_seq(
            nodes_view(children@),
            max_width,
            max_height,
            pairs_view(config.colors@),
            config.font_size,
        ),
    decreases children@,
{
    let ghost colors = pairs_view(config.colors@);
    let ghost fs = config.font_size;
    let ghost sv = nodes_view(children@);
    let mut out: Vec<LayoutBox> = Vec::new();
    let n: usize = children.len();
    proof {
        crate::html::lemma_nodes_view_len(children@);
        assert(sv.take(0) =~= Seq::<SNode>::empty());
        assert(spec_render_seq(sv.take(0), max_width, max_height, colors, fs) =~= Seq::<
            SBox,
        >::empty());
        assert(boxes_view(out@) =~= Seq::<SBox>::empty());
    }
    let mut i: usize = 0;
    while i < n
        invariant
            i <= n,
            n == children@.len(),
            sv == nodes_view(children@),
            colors == pairs_view(config.colors@),
            fs == config.font_size,
            boxes_view(out@) == spec_render_seq(
                sv.take(i as int),
                max_width,
                max_height,
                colors,
                fs,
            ),
        decreases n - i,
    {
        let b: LayoutBox = render_node(&children[i], max_width, max_height, config);
        let ghost pre = out@;
        out.push(b);
        proof {
            crate::html::lemma_nodes_view_len(children@);
            crate::html::lemma_nodes_view_index(children@, i as int);
            lemma_render_seq_take(sv, max_width, max_height, colors, fs, i as int);
            lemma_boxes_view_push(pre, b);
            assert(sv.take(i + 1) =~= sv.take(i as int).push(sv[i as int]));
        }
        i = i + 1;
    }
    proof {
        assert(sv.take(n as int) =~= sv);
    }
    out
}

} // verus!
