//! The paint-primitive emitter: a depth-first pre-order walk of the
//! geometry tree that resolves the symbolic distances against concrete
//! container sizes and emits ordered fill and glyph-run primitives in
//! back-to-front paint order.  Percentage components resolve against
//! the nearest box that already has a concrete pixel size, so nested
//! percentages compound multiplicatively here and never earlier.
//!
//! Margin collapsing happens in this pass: before each child is
//! positioned, its effective top margin is the excess of its top margin
//! over the previous sibling's bottom margin, never negative.

use vstd::prelude::*;

use crate::cascade::Config;
use crate::color::Rgba;
use crate::distance::Distance;
use crate::distance::add32;
use crate::distance::add_clip;
use crate::distance::spec_resolve;
use crate::distance::sub32;
use crate::distance::sub_clip;
use crate::flow::FontMetrics;
use crate::flow::GlyphPos;
use crate::html::Node;
use crate::html::node_view;
use crate::layout::LayoutBox;
use crate::layout::SBox;
use crate::layout::SContent;
use crate::layout::box_view;
use crate::layout::spec_render;

verus! {

/// A paint primitive: a filled rectangle, or a run of placed glyphs,
/// each with its color.  Primitives are emitted in back-to-front paint
/// order.
pub enum PaintOp {
    Rect { x: i32, y: i32, width: i32, height: i32, color: Rgba },
    Glyphs { positions: Vec<GlyphPos>, color: Rgba },
}

/// The mathematical mirror of a paint primitive.
pub enum SPaintOp {
    Rect { x: i32, y: i32, width: i32, height: i32, color: Rgba },
    Glyphs { positions: Seq<GlyphPos>, color: Rgba },
}

/// The mathematical value of a paint primitive.
pub open spec fn op_view(op: PaintOp) -> SPaintOp {
    match op {
        PaintOp::Rect { x, y, width, height, color } => SPaintOp::Rect { x, y, width, height, color },
        PaintOp::Glyphs { positions, color } => SPaintOp::Glyphs { positions: positions@, color },
    }
}

/// The mathematical value of a primitive list.
pub open spec fn ops_view(ops: Seq<PaintOp>) -> Seq<SPaintOp> {
    ops.map_values(|op: PaintOp| op_view(op))
}

/// The larger of two values.
pub open spec fn max32(a: i32, b: i32) -> i32 {
    if a >= b {
        a
    } else {
        b
    }
}

/// A distance resolved against a concrete container side; `Auto`
/// defers to the container and resolves to the side itself.
pub open spec fn resolve_or(d: Distance, side: i32) -> i32 {
    match spec_resolve(d, side as int) {
        Some(v) => v,
        None => side,
    }
}

/// The primitives and the content height of a box drawn with its
/// border-box origin at (x, y) inside a container of concrete size
/// (cw, ch).  A hidden box emits nothing, not even a transparent
/// rectangle, and has zero height.  A text box emits one glyph run
/// flowed against its resolved width.  A filled box emits its own
/// rectangle first (so children paint in front), using the explicit
/// height when given and the accumulated content height otherwise,
/// plus its vertical padding; its content height is the accumulated
/// flow of its children with margins collapsed.
pub open spec fn spec_emit(b: SBox, x: i32, y: i32, cw: i32, ch: i32, m: FontMetrics) -> (
    Seq<SPaintOp>,
    i32,
)
    decreases b,
{
    if b.hidden {
        (Seq::empty(), 0)
    } else {
        match b.content {
            SContent::Text(label) => {
                let budget = resolve_or(b.visual_width, cw);
                let fl = crate::flow::spec_flow(label.text, x, y, budget, m);
                (
                    seq![mk_glyph_op(fl.glyphs, label.font_color)],
                    crate::flow::spec_flow_height(label.text, x, y, budget, m),
                )
            },
            SContent::Solid(color) => {
                let inner_w = resolve_or(b.visual_width, cw);
                let inner_h = match b.visual_height {
                    Some(d) => resolve_or(d, ch),
                    None => ch,
                };
                let content_x = add32(x, resolve_or(b.padding_left, cw));
                let content_y = add32(y, resolve_or(b.padding_top, ch));
                let kids = spec_emit_kids(b.children, content_x, content_y, inner_w, inner_h, m, 0, 0);
                let content_h = kids.1;
                let vh = add32(
                    add32(
                        match b.visual_height {
                            Some(d) => resolve_or(d, ch),
                            None => content_h,
                        },
                        resolve_or(b.padding_top, ch),
                    ),
                    resolve_or(b.padding_bottom, ch),
                );
                (seq![mk_rect_op(x, y, inner_w, vh, color)] + kids.0, content_h)
            },
        }
    }
}

/// A rectangle primitive.
pub open spec fn mk_rect_op(x: i32, y: i32, width: i32, height: i32, color: Rgba) -> SPaintOp {
    SPaintOp::Rect { x, y, width, height, color }
}

/// A glyph-run primitive.
pub open spec fn mk_glyph_op(positions: Seq<GlyphPos>, color: Rgba) -> SPaintOp {
    SPaintOp::Glyphs { positions, color }
}

/// The primitives and the final running offset of a child list flowed
/// inside a content area with origin (cx, cy) and concrete size
/// (iw, ih).  Each visible child advances the offset by its collapsed
/// effective top margin, its content height, and its bottom margin,
/// and records its bottom margin for the next sibling's collapse; a
/// hidden child emits nothing, advances nothing, and leaves the
/// recorded bottom margin unchanged.
pub open spec fn spec_emit_kids(
    kids: Seq<SBox>,
    cx: i32,
    cy: i32,
    iw: i32,
    ih: i32,
    m: FontMetrics,
    offset: i32,
    prev_bottom: i32,
) -> (Seq<SPaintOp>, i32)
    decreases kids,
{
    if kids.len() == 0 {
        (Seq::empty(), offset)
    } else {
        let k = kids[0];
        if k.hidden {
            spec_emit_kids(kids.drop_first(), cx, cy, iw, ih, m, offset, prev_bottom)
        } else {
            let mt = resolve_or(k.margin_top, ih);
            let mb = resolve_or(k.margin_bottom, ih);
            let eff = max32(0, sub32(mt, prev_bottom));
            let kx = add32(cx, resolve_or(k.margin_left, iw));
            let ky = add32(add32(cy, offset), eff);
            let drawn = spec_emit(k, kx, ky, iw, ih, m);
            let offset2 = add32(add32(add32(offset, eff), drawn.1), mb);
            let rest = spec_emit_kids(kids.drop_first(), cx, cy, iw, ih, m, offset2, mb);
            (drawn.0 + rest.0, rest.1)
        }
    }
}

/// A hidden box paints nothing — not even a transparent rectangle —
/// and has zero content height.
pub proof fn lemma_hidden_box_paints_nothing(b: SBox, x: i32, y: i32, cw: i32, ch: i32, m: FontMetrics)
    requires
        b.hidden,
    ensures
        spec_emit(b, x, y, cw, ch, m).0 == Seq::<SPaintOp>::empty(),
        spec_emit(b, x, y, cw, ch, m).1 == 0,
{
}

/// A hidden child contributes nothing to its parent's flow: the
/// emitted primitives, the running offset, and the recorded bottom
/// margin for the next sibling's collapse are all exactly those of the
/// flow without it.
pub proof fn lemma_hidden_child_skipped(
    kids: Seq<SBox>,
    cx: i32,
    cy: i32,
    iw: i32,
    ih: i32,
    m: FontMetrics,
    offset: i32,
    prev_bottom: i32,
)
    requires
        kids.len() > 0,
        kids[0].hidden,
    ensures
        spec_emit_kids(kids, cx, cy, iw, ih, m, offset, prev_bottom) == spec_emit_kids(
            kids.drop_first(),
            cx,
            cy,
            iw,
            ih,
            m,
            offset,
            prev_bottom,
        ),
{
}

/// Margin collapsing: two adjacent visible sibling boxes (childless
/// filled boxes, so their own content heights are zero) are separated
/// by exactly the larger of the first box's bottom margin and the
/// second box's top margin — never their sum — and the flow they
/// consume together is the first top margin, that collapsed gap, and
/// the second bottom margin.  The bounds keep every sum far from the
/// saturation range.
pub proof fn lemma_margin_collapse(a: SBox, b: SBox, cx: i32, cy: i32, iw: i32, ih: i32, m: FontMetrics)
    requires
        !a.hidden,
        !b.hidden,
        a.content is Solid,
        b.content is Solid,
        a.children.len() == 0,
        b.children.len() == 0,
        a.visual_height is None,
        b.visual_height is None,
        0 <= resolve_or(a.margin_top, ih) <= 0x10_0000,
        0 <= resolve_or(a.margin_bottom, ih) <= 0x10_0000,
        0 <= resolve_or(b.margin_top, ih) <= 0x10_0000,
        0 <= resolve_or(b.margin_bottom, ih) <= 0x10_0000,
        -0x10_0000 <= cy <= 0x10_0000,
        -0x10_0000 <= cx <= 0x10_0000,
        -0x10_0000 <= resolve_or(a.margin_left, iw) <= 0x10_0000,
        -0x10_0000 <= resolve_or(b.margin_left, iw) <= 0x10_0000,
        -0x10_0000 <= resolve_or(a.padding_top, ih) <= 0x10_0000,
        -0x10_0000 <= resolve_or(a.padding_bottom, ih) <= 0x10_0000,
    ensures
        ({
            let mt_a = resolve_or(a.margin_top, ih);
            let mb_a = resolve_or(a.margin_bottom, ih);
            let mt_b = resolve_or(b.margin_top, ih);
            let mb_b = resolve_or(b.margin_bottom, ih);
            let r = spec_emit_kids(seq![a, b], cx, cy, iw, ih, m, 0, 0);
            // The total flow: the two boxes plus one collapsed gap.
            &&& r.1 == mt_a + max32(mb_a, mt_b) + mb_b
            // The second box sits exactly the collapsed gap below the
            // first box's bottom edge.
            &&& r.0.len() == 2
            &&& (match (r.0[0], r.0[1]) {
                (
                    SPaintOp::Rect { y: y0, .. },
                    SPaintOp::Rect { y: y1, .. },
                ) => y1 - y0 == max32(mb_a, mt_b),
                _ => false,
            })
        }),
{
    let mt_a = resolve_or(a.margin_top, ih);
    let mb_a = resolve_or(a.margin_bottom, ih);
    let mt_b = resolve_or(b.margin_top, ih);
    let mb_b = resolve_or(b.margin_bottom, ih);
    let kids = seq![a, b];
    assert(kids[0] == a);
    assert(kids.drop_first() =~= seq![b]);
    assert(seq![b][0] == b);
    assert(seq![b].drop_first() =~= Seq::<SBox>::empty());

    // The first box: no children, so its content height is zero.
    let ya = add32(add32(cy, 0), max32(0, sub32(mt_a, 0)));
    let xa = add32(cx, resolve_or(a.margin_left, iw));
    let ea = spec_emit(a, xa, ya, iw, ih, m);
    assert(a.children =~= Seq::<SBox>::empty());
    assert(spec_emit_kids(
        a.children,
        add32(xa, resolve_or(a.padding_left, iw)),
        add32(ya, resolve_or(a.padding_top, ih)),
        resolve_or(a.visual_width, iw),
        ih,
        m,
        0,
        0,
    ).1 == 0);
    assert(ea.1 == 0);
    assert(ea.0.len() == 1);
    assert(ea.0[0] matches SPaintOp::Rect { y, .. } && y == ya);

    let off1 = add32(add32(add32(0, max32(0, sub32(mt_a, 0))), ea.1), mb_a);
    assert(off1 == mt_a + mb_a);

    // The second box.
    let eb_eff = max32(0, sub32(mt_b, mb_a));
    let yb = add32(add32(cy, off1), eb_eff);
    let xb = add32(cx, resolve_or(b.margin_left, iw));
    let eb = spec_emit(b, xb, yb, iw, ih, m);
    assert(b.children =~= Seq::<SBox>::empty());
    assert(eb.1 == 0);
    assert(eb.0.len() == 1);
    assert(eb.0[0] matches SPaintOp::Rect { y, .. } && y == yb);

    let r = spec_emit_kids(kids, cx, cy, iw, ih, m, 0, 0);
    let off2 = add32(add32(add32(off1, eb_eff), eb.1), mb_b);
    let rest2 = spec_emit_kids(Seq::<SBox>::empty(), cx, cy, iw, ih, m, off2, mb_b);
    assert(rest2 == (Seq::<SPaintOp>::empty(), off2));
    let rest1 = spec_emit_kids(seq![b], cx, cy, iw, ih, m, off1, mb_a);
    assert(rest1 == (eb.0 + rest2.0, rest2.1));
    assert(r == (ea.0 + rest1.0, rest1.1));
    assert(eb.0 + Seq::<SPaintOp>::empty() =~= eb.0);
    assert(r.0 =~= ea.0 + eb.0);
    assert(r.0.len() == 2);
    assert(r.0[0] == ea.0[0]);
    assert(r.0[1] == eb.0[0]);
    assert(mb_a + max32(0, sub32(mt_b, mb_a)) == max32(mb_a, mt_b));
    assert(yb - ya == max32(mb_a, mt_b));
    assert(r.1 == mt_a + max32(mb_a, mt_b) + mb_b);
}

/// Resolve a distance against a side, deferring `Auto` to the side.
fn resolve_or_exec(d: Distance, side: i32) -> (r: i32)
    ensures
        r == resolve_or(d, side),
{
    match d.to_absolute(side) {
        Some(v) => v,
        None => side,
    }
}

/// Draw a box with its border-box origin at (x, y) inside a container
/// of concrete size (cw, ch): its ordered primitives in back-to-front
/// paint order, and its content height.  A hidden box draws nothing and
/// contributes zero height.
pub fn draw_node(b: &LayoutBox, x: i32, y: i32, cw: i32, ch: i32, metrics: &FontMetrics) -> (r: (
    Vec<PaintOp>,
    i32,
))
    ensures
        ops_view(r.0@) == spec_emit(box_view(*b), x, y, cw, ch, *metrics).0,
        r.1 == spec_emit(box_view(*b), x, y, cw, ch, *metrics).1,
    decreases *b,
{
    let ghost sb = box_view(*b);
    if b.hidden {
        let ops: Vec<PaintOp> = Vec::new();
        proof {
            assert(ops_view(ops@) =~= Seq::<SPaintOp>::empty());
        }
        return (ops, 0);
    }
    match &b.content {
        crate::layout::Content::Text(label) => {
            let budget: i32 = resolve_or_exec(b.visual_width, cw);
            let (glyphs, h) = crate::flow::flow(label.text.as_str(), x, y, budget, metrics);
            let mut ops: Vec<PaintOp> = Vec::new();
            ops.push(PaintOp::Glyphs { positions: glyphs, color: label.font_color });
            proof {
                assert(ops_view(ops@) =~= seq![
                    mk_glyph_op(
                        crate::flow::spec_flow(label.text@, x, y, budget, *metrics).glyphs,
                        label.font_color,
                    ),
                ]);
            }
            (ops, h)
        },
        crate::layout::Content::Solid(color) => {
            let inner_w: i32 = resolve_or_exec(b.visual_width, cw);
            let inner_h: i32 = match b.visual_height {
                Some(d) => resolve_or_exec(d, ch),
                None => ch,
            };
            let content_x: i32 = add_clip(x, resolve_or_exec(b.padding_left, cw));
            let content_y: i32 = add_clip(y, resolve_or_exec(b.padding_top, ch));

            let ghost kids_v = crate::layout::boxes_view(b.children@);
            let mut kid_ops: Vec<PaintOp> = Vec::new();
            let mut offset: i32 = 0;
            let mut prev_bottom: i32 = 0;
            let n: usize = b.children.len();
            let mut i: usize = 0;
            proof {
                crate::layout::lemma_boxes_view_len(b.children@);
                assert(kids_v.skip(0) =~= kids_v);
                assert(ops_view(kid_ops@) =~= Seq::<SPaintOp>::empty());
            }
            while i < n
                invariant
                    i <= n,
                    n == b.children@.len(),
                    kids_v == crate::layout::boxes_view(b.children@),
                    kids_v.len() == n,
                    ({
                        let whole = spec_emit_kids(
                            kids_v,
                            content_x,
                            content_y,
                            inner_w,
                            inner_h,
                            *metrics,
                            0,
                            0,
                        );
                        let rest = spec_emit_kids(
                            kids_v.skip(i as int),
                            content_x,
                            content_y,
                            inner_w,
                            inner_h,
                            *metrics,
                            offset,
                            prev_bottom,
                        );
                        whole.0 == ops_view(kid_ops@) + rest.0 && whole.1 == rest.1
                    }),
                decreases n - i,
            {
                proof {
                    crate::layout::lemma_boxes_view_index(b.children@, i as int);
                    assert(kids_v.skip(i as int)[0] == kids_v[i as int]);
                    assert(kids_v.skip(i as int).drop_first() =~= kids_v.skip(i + 1));
                }
                let child: &LayoutBox = &b.children[i];
                if !child.hidden {
                    let mt: i32 = resolve_or_exec(child.margin_top, inner_h);
                    let mb: i32 = resolve_or_exec(child.margin_bottom, inner_h);
                    let diff: i32 = sub_clip(mt, prev_bottom);
                    let eff: i32 = if diff >= 0 {
                        diff
                    } else {
                        0
                    };
                    let kx: i32 = add_clip(content_x, resolve_or_exec(child.margin_left, inner_w));
                    let ky: i32 = add_clip(add_clip(content_y, offset), eff);
                    let (mut cops, chh) = draw_node(child, kx, ky, inner_w, inner_h, metrics);
                    let ghost pre_ops = kid_ops@;
                    let ghost drawn_ops = cops@;
                    kid_ops.append(&mut cops);
                    proof {
                        assert(ops_view(kid_ops@) =~= ops_view(pre_ops) + ops_view(drawn_ops));
                    }
                    offset = add_clip(add_clip(add_clip(offset, eff), chh), mb);
                    prev_bottom = mb;
                }
                i = i + 1;
            }
            proof {
                assert(kids_v.skip(n as int) =~= Seq::<SBox>::empty());
            }

            let vh_base: i32 = match b.visual_height {
                Some(d) => resolve_or_exec(d, ch),
                None => offset,
            };
            let vh: i32 = add_clip(
                add_clip(vh_base, resolve_or_exec(b.padding_top, ch)),
                resolve_or_exec(b.padding_bottom, ch),
            );
            let mut ops: Vec<PaintOp> = Vec::new();
            ops.push(PaintOp::Rect { x, y, width: inner_w, height: vh, color: *color });
            let ghost rect_only = ops@;
            let ghost pre_kid = kid_ops@;
            ops.append(&mut kid_ops);
            proof {
                assert(ops_view(ops@) =~= ops_view(rect_only) + ops_view(pre_kid));
                assert(ops_view(rect_only) =~= seq![mk_rect_op(x, y, inner_w, vh, *color)]);
            }
            (ops, offset)
        },
    }
}

/// A document to render: nothing, or a parsed markup tree.
pub enum Doc {
    Blank,
    Web(Node),
}

impl Doc {
    /// Lay the document out against the full container (the whole
    /// width and height of whatever surface it is drawn on).
    pub fn render(&self, config: &Config) -> (r: LayoutBox)
        ensures
            match self {
                Doc::Blank => box_view(r) == crate::layout::empty_sbox(),
                Doc::Web(node) => box_view(r) == spec_render(
                    node_view(*node),
                    Distance::Relative(crate::distance::FRAC_UNIT),
                    Distance::Relative(crate::distance::FRAC_UNIT),
                    crate::css::pairs_view(config.colors@),
                    config.font_size,
                ),
            },
    {
        match self {
            Doc::Blank => LayoutBox::empty(),
            Doc::Web(node) => crate::layout::render_node(
                node,
                Distance::Relative(crate::distance::FRAC_UNIT),
                Distance::Relative(crate::distance::FRAC_UNIT),
                config,
            ),
        }
    }

    /// Lay the document out and emit its paint primitives for a
    /// viewport of the given concrete pixel size.
    pub fn draw(&self, width: i32, height: i32, metrics: &FontMetrics, config: &Config) -> (r: Vec<
        PaintOp,
    >)
        ensures
            match self {
                Doc::Blank => r@.len() == 0,
                Doc::Web(node) => ops_view(r@) == spec_emit(
                    spec_render(
                        node_view(*node),
                        Distance::Relative(crate::distance::FRAC_UNIT),
                        Distance::Relative(crate::distance::FRAC_UNIT),
                        crate::css::pairs_view(config.colors@),
                        config.font_size,
                    ),
                    0,
                    0,
                    width,
                    height,
                    *metrics,
                ).0,
            },
    {
        match self {
            Doc::Blank => Vec::new(),
            Doc::Web(_) => {
                let root: LayoutBox = self.render(config);
                let (ops, _h) = draw_node(&root, 0, 0, width, height, metrics);
                ops
            },
        }
    }
}

} // verus!
