//! The text flow engine: word-wraps a run of text against a horizontal
//! budget using font metrics supplied as plain values, producing placed
//! glyph positions and the total flow height.
//!
//! Each word is measured and placed at the pen; when it would cross the
//! budget the pen wraps to the next line first.  After a word, a single
//! space glyph is placed with the same overflow check, except that a
//! space that does not fit wraps without being placed, so a line never
//! ends with a forced space.

use vstd::prelude::*;

use crate::distance::add32;
use crate::distance::add_clip;
use crate::distance::sub32;
use crate::distance::sub_clip;
use crate::stream::Stream;
use crate::strutil::split_ws;

verus! {

/// Font metrics supplied by the embedder: per-character advance widths,
/// a default advance for characters not listed, the font's ascent and
/// descent (including any line gap), and optional kerning between
/// character pairs.  All values are in pixels.
pub struct FontMetrics {
    pub advances: Vec<(char, i32)>,
    pub default_advance: i32,
    pub ascent: i32,
    pub descent: i32,
    pub kerning: Vec<(char, char, i32)>,
}

/// A placed glyph: its pen position and its character.
#[derive(Clone, Copy, PartialEq, Eq, Structural, Debug)]
pub struct GlyphPos {
    pub x: i32,
    pub y: i32,
    pub ch: char,
}

/// The first advance entry for the character.
pub open spec fn adv_lookup(table: Seq<(char, i32)>, c: char) -> Option<i32>
    decreases table.len(),
{
    if table.len() == 0 {
        None
    } else if table[0].0 == c {
        Some(table[0].1)
    } else {
        adv_lookup(table.drop_first(), c)
    }
}

/// The advance width of a character: its table entry, or the default.
pub open spec fn advance_of(m: FontMetrics, c: char) -> i32 {
    match adv_lookup(m.advances@, c) {
        Some(a) => a,
        None => m.default_advance,
    }
}

/// The kerning between a character pair, or zero when none is listed.
pub open spec fn kern_lookup(table: Seq<(char, char, i32)>, a: char, b: char) -> i32
    decreases table.len(),
{
    if table.len() == 0 {
        0
    } else if table[0].0 == a && table[0].1 == b {
        table[0].2
    } else {
        kern_lookup(table.drop_first(), a, b)
    }
}

/// The kerning applied between two consecutive glyphs.
pub open spec fn kern_of(m: FontMetrics, a: char, b: char) -> i32 {
    kern_lookup(m.kerning@, a, b)
}

/// The line height: ascent plus descent (and line gap).
pub open spec fn line_height(m: FontMetrics) -> i32 {
    add32(m.ascent, m.descent)
}

/// The measured advance of a word: the sum of its characters' advances
/// with kerning between consecutive pairs, saturating.
pub open spec fn word_advance(m: FontMetrics, w: Seq<char>) -> i32
    decreases w.len(),
{
    if w.len() == 0 {
        0
    } else {
        let prev = word_advance(m, w.drop_last());
        let k: i32 = if w.len() >= 2 {
            kern_of(m, w[w.len() - 2], w.last())
        } else {
            0
        };
        add32(add32(prev, advance_of(m, w.last())), k)
    }
}

/// The glyphs of one word placed at pen position (x, y): each glyph
/// sits at the pen plus the measured advance of the characters before
/// it, on the baseline `y + ascent`.
/// A glyph at a pen position.
pub open spec fn glyph(gx: i32, gy: i32, c: char) -> GlyphPos {
    GlyphPos { x: gx, y: gy, ch: c }
}

pub open spec fn place_word(m: FontMetrics, w: Seq<char>, px: i32, py: i32) -> Seq<GlyphPos>
    decreases w.len(),
{
    if w.len() == 0 {
        Seq::empty()
    } else {
        place_word(m, w.drop_last(), px, py).push(
            glyph(add32(px, word_advance(m, w.drop_last())), add32(py, m.ascent), w.last()),
        )
    }
}

/// The flow state: the glyphs placed so far and the pen position.
pub struct FlowState {
    pub glyphs: Seq<GlyphPos>,
    pub x: i32,
    pub y: i32,
}

/// Whether the pen at `x` can advance by `w` within the budget.
pub open spec fn fits(x: i32, w: i32, start_x: i32, budget: i32) -> bool {
    x as int + w as int <= start_x as int + budget as int
}

/// Flow one word: wrap first if the word would cross the budget, place
/// the word's glyphs and advance; then place a single space glyph with
/// the same check, wrapping without placing it when it does not fit.
pub open spec fn flow_word(
    st: FlowState,
    m: FontMetrics,
    w: Seq<char>,
    start_x: i32,
    budget: i32,
) -> FlowState {
    let ww = word_advance(m, w);
    let (x1, y1): (i32, i32) = if !fits(st.x, ww, start_x, budget) {
        (start_x, add32(st.y, line_height(m)))
    } else {
        (st.x, st.y)
    };
    let glyphs1 = st.glyphs + place_word(m, w, x1, y1);
    let x2 = add32(x1, ww);
    let sa = advance_of(m, ' ');
    if !fits(x2, sa, start_x, budget) {
        FlowState { glyphs: glyphs1, x: start_x, y: add32(y1, line_height(m)) }
    } else {
        FlowState {
            glyphs: glyphs1.push(GlyphPos { x: x2, y: add32(y1, m.ascent), ch: ' ' }),
            x: add32(x2, sa),
            y: y1,
        }
    }
}

/// The flow folded over the words.
pub open spec fn flow_scan(
    st: FlowState,
    m: FontMetrics,
    words: Seq<Seq<char>>,
    start_x: i32,
    budget: i32,
) -> FlowState
    decreases words.len(),
{
    if words.len() == 0 {
        st
    } else {
        flow_scan(flow_word(st, m, words[0], start_x, budget), m, words.drop_first(), start_x, budget)
    }
}

/// The flow of a text run: its words placed in order starting at the
/// box origin.
pub open spec fn spec_flow(
    text: Seq<char>,
    origin_x: i32,
    origin_y: i32,
    budget: i32,
    m: FontMetrics,
) -> FlowState {
    flow_scan(
        FlowState { glyphs: Seq::empty(), x: origin_x, y: origin_y },
        m,
        split_ws(text),
        origin_x,
        budget,
    )
}

/// The total flow height: the distance from the origin to the last
/// line's top, plus one line height.
pub open spec fn spec_flow_height(
    text: Seq<char>,
    origin_x: i32,
    origin_y: i32,
    budget: i32,
    m: FontMetrics,
) -> i32 {
    add32(sub32(spec_flow(text, origin_x, origin_y, budget, m).y, origin_y), line_height(m))
}

/// A line never ends with a forced space: when the single space after
/// a placed word would cross the budget, the pen wraps to the next
/// line without placing a space glyph, so the word's glyphs are the
/// last ones on their line.
pub proof fn lemma_no_forced_space(
    st: FlowState,
    m: FontMetrics,
    w: Seq<char>,
    start_x: i32,
    budget: i32,
)
    requires
        ({
            let ww = word_advance(m, w);
            let x1: i32 = if !fits(st.x, ww, start_x, budget) {
                start_x
            } else {
                st.x
            };
            !fits(add32(x1, ww), advance_of(m, ' '), start_x, budget)
        }),
    ensures
        ({
            let ww = word_advance(m, w);
            let (x1, y1): (i32, i32) = if !fits(st.x, ww, start_x, budget) {
                (start_x, add32(st.y, line_height(m)))
            } else {
                (st.x, st.y)
            };
            let f = flow_word(st, m, w, start_x, budget);
            f.glyphs == st.glyphs + place_word(m, w, x1, y1) && f.x == start_x && f.y == add32(
                y1,
                line_height(m),
            )
        }),
{
}

proof fn lemma_flow_scan_snoc(
    st: FlowState,
    m: FontMetrics,
    words: Seq<Seq<char>>,
    w: Seq<char>,
    start_x: i32,
    budget: i32,
)
    ensures
        flow_scan(st, m, words.push(w), start_x, budget) == flow_word(
            flow_scan(st, m, words, start_x, budget),
            m,
            w,
            start_x,
            budget,
        ),
    decreases words.len(),
{
    if words.len() == 0 {
        assert(words.push(w)[0] == w);
        assert(words.push(w).drop_first() =~= Seq::<Seq<char>>::empty());
        assert(flow_scan(flow_word(st, m, w, start_x, budget), m, Seq::empty(), start_x, budget)
            == flow_word(st, m, w, start_x, budget));
    } else {
        assert(words.push(w)[0] == words[0]);
        assert(words.push(w).drop_first() =~= words.drop_first().push(w));
        lemma_flow_scan_snoc(
            flow_word(st, m, words[0], start_x, budget),
            m,
            words.drop_first(),
            w,
            start_x,
            budget,
        );
    }
}

/// The advance width of a character.
fn advance_exec(m: &FontMetrics, c: char) -> (r: i32)
    ensures
        r == advance_of(*m, c),
{
    let n: usize = m.advances.len();
    let mut i: usize = 0;
    proof {
        assert(m.advances@.skip(0) =~= m.advances@);
    }
    while i < n
        invariant
            i <= n,
            n == m.advances@.len(),
            adv_lookup(m.advances@, c) == adv_lookup(m.advances@.skip(i as int), c),
        decreases n - i,
    {
        proof {
            assert(m.advances@.skip(i as int)[0] == m.advances@[i as int]);
            assert(m.advances@.skip(i as int).drop_first() =~= m.advances@.skip(i + 1));
        }
        if m.advances[i].0 == c {
            return m.advances[i].1;
        }
        i = i + 1;
    }
    proof {
        assert(m.advances@.skip(n as int) =~= Seq::<(char, i32)>::empty());
    }
    m.default_advance
}

/// The kerning between two characters.
fn kern_exec(m: &FontMetrics, a: char, b: char) -> (r: i32)
    ensures
        r == kern_of(*m, a, b),
{
    let n: usize = m.kerning.len();
    let mut i: usize = 0;
    proof {
        assert(m.kerning@.skip(0) =~= m.kerning@);
    }
    while i < n
        invariant
            i <= n,
            n == m.kerning@.len(),
            kern_lookup(m.kerning@, a, b) == kern_lookup(m.kerning@.skip(i as int), a, b),
        decreases n - i,
    {
        proof {
            assert(m.kerning@.skip(i as int)[0] == m.kerning@[i as int]);
            assert(m.kerning@.skip(i as int).drop_first() =~= m.kerning@.skip(i + 1));
        }
        if m.kerning[i].0 == a && m.kerning[i].1 == b {
            return m.kerning[i].2;
        }
        i = i + 1;
    }
    proof {
        assert(m.kerning@.skip(n as int) =~= Seq::<(char, char, i32)>::empty());
    }
    0
}

/// Measure a word's advance.
fn measure_word(m: &FontMetrics, w: &Vec<char>) -> (r: i32)
    ensures
        r == word_advance(*m, w@),
{
    let n: usize = w.len();
    let mut cum: i32 = 0;
    let mut i: usize = 0;
    proof {
        assert(w@.take(0) =~= Seq::<char>::empty());
    }
    while i < n
        invariant
            i <= n,
            n == w@.len(),
            cum == word_advance(*m, w@.take(i as int)),
        decreases n - i,
    {
        let a: i32 = advance_exec(m, w[i]);
        let k: i32 = if i >= 1 {
            kern_exec(m, w[i - 1], w[i])
        } else {
            0
        };
        proof {
            let t = w@.take(i + 1);
            assert(t.drop_last() =~= w@.take(i as int));
            assert(t.last() == w@[i as int]);
            if i >= 1 {
                assert(t[i - 1] == w@[i - 1]);
            }
        }
        cum = add_clip(add_clip(cum, a), k);
        i = i + 1;
    }
    proof {
        assert(w@.take(n as int) =~= w@);
    }
    cum
}

/// Place one word's glyphs at the pen position.
fn place_word_exec(glyphs: &mut Vec<GlyphPos>, m: &FontMetrics, w: &Vec<char>, x: i32, y: i32)
    ensures
        final(glyphs)@ == old(glyphs)@ + place_word(*m, w@, x, y),
{
    let n: usize = w.len();
    let baseline: i32 = add_clip(y, m.ascent);
    let mut cum: i32 = 0;
    let mut i: usize = 0;
    proof {
        assert(w@.take(0) =~= Seq::<char>::empty());
        assert(old(glyphs)@ + place_word(*m, w@, x, y).take(0) =~= old(glyphs)@);
    }
    while i < n
        invariant
            i <= n,
            n == w@.len(),
            baseline == add32(y, m.ascent),
            cum == word_advance(*m, w@.take(i as int)),
            glyphs@ == old(glyphs)@ + place_word(*m, w@.take(i as int), x, y),
        decreases n - i,
    {
        glyphs.push(GlyphPos { x: add_clip(x, cum), y: baseline, ch: w[i] });
        proof {
            let t = w@.take(i + 1);
            assert(t.drop_last() =~= w@.take(i as int));
            assert(t.last() == w@[i as int]);
            assert(place_word(*m, t, x, y) == place_word(*m, w@.take(i as int), x, y).push(
                glyph(add32(x, word_advance(*m, w@.take(i as int))), add32(y, m.ascent), w@[i as int]),
            ));
            assert(glyphs@ =~= old(glyphs)@ + place_word(*m, w@.take(i + 1), x, y));
        }
        let a: i32 = advance_exec(m, w[i]);
        let k: i32 = if i >= 1 {
            kern_exec(m, w[i - 1], w[i])
        } else {
            0
        };
        proof {
            let t = w@.take(i + 1);
            assert(t.drop_last() =~= w@.take(i as int));
            assert(t.last() == w@[i as int]);
            if i >= 1 {
                assert(t[i - 1] == w@[i - 1]);
            }
        }
        cum = add_clip(add_clip(cum, a), k);
        i = i + 1;
    }
    proof {
        assert(w@.take(n as int) =~= w@);
    }
}

/// Word-wrap a text run against the horizontal budget, starting at the
/// box origin: the placed glyphs in order, and the total flow height.
pub fn flow(text: &str, origin_x: i32, origin_y: i32, budget: i32, metrics: &FontMetrics) -> (r: (
    Vec<GlyphPos>,
    i32,
))
    ensures
        r.0@ == spec_flow(text@, origin_x, origin_y, budget, *metrics).glyphs,
        r.1 == spec_flow_height(text@, origin_x, origin_y, budget, *metrics),
{
    let chars: Vec<char> = crate::strutil::chars_of(text);
    let words: Vec<String> = crate::strutil::split_ws_words(&chars);
    let ghost wv = words@.map_values(|p: String| p@);
    let lh: i32 = add_clip(metrics.ascent, metrics.descent);

    let mut glyphs: Vec<GlyphPos> = Vec::new();
    let mut pen: Stream = Stream::new(origin_x, origin_y, budget, 0);
    let ghost st0 = FlowState { glyphs: Seq::empty(), x: origin_x, y: origin_y };
    let n: usize = words.len();
    let mut i: usize = 0;
    proof {
        assert(wv.take(0) =~= Seq::<Seq<char>>::empty());
        assert(glyphs@ =~= Seq::<GlyphPos>::empty());
    }
    while i < n
        invariant
            i <= n,
            n == words@.len(),
            wv == words@.map_values(|p: String| p@),
            pen.start_x == origin_x,
            pen.width == budget,
            lh == line_height(*metrics),
            st0 == (FlowState { glyphs: Seq::<GlyphPos>::empty(), x: origin_x, y: origin_y }),
            ({
                let st = flow_scan(st0, *metrics, wv.take(i as int), origin_x, budget);
                &&& glyphs@ == st.glyphs
                &&& pen.x == st.x
                &&& pen.y == st.y
            }),
        decreases n - i,
    {
        let ghost st = flow_scan(st0, *metrics, wv.take(i as int), origin_x, budget);
        let w: Vec<char> = crate::strutil::chars_of(words[i].as_str());
        proof {
            assert(wv[i as int] == words@[i as int]@);
            assert(wv.take(i + 1) =~= wv.take(i as int).push(wv[i as int]));
            lemma_flow_scan_snoc(st0, *metrics, wv.take(i as int), wv[i as int], origin_x, budget);
        }
        let ww: i32 = measure_word(metrics, &w);
        if !pen.increase_x_fits(ww) {
            pen.increase_y(lh);
            pen.reset_x();
        }
        place_word_exec(&mut glyphs, metrics, &w, pen.get_x(), pen.get_y());
        pen.increase_x(ww);
        let sa: i32 = advance_exec(metrics, ' ');
        if !pen.increase_x_fits(sa) {
            pen.increase_y(lh);
            pen.reset_x();
        } else {
            glyphs.push(GlyphPos { x: pen.get_x(), y: add_clip(pen.get_y(), metrics.ascent), ch: ' ' });
            pen.increase_x(sa);
        }
        i = i + 1;
    }
    proof {
        assert(wv.take(n as int) =~= wv);
    }
    let height: i32 = add_clip(sub_clip(pen.get_y(), origin_y), lh);
    (glyphs, height)
}

} // verus!
