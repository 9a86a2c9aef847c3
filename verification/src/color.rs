//! Color resolution: `rgb(r,g,b)` and `#rrggbb` forms, and a named
//! color table injected as configuration.  Unknown names and
//! unresolvable syntax silently fall back to opaque black, matching
//! the tolerant-parser philosophy.

use vstd::prelude::*;

use crate::cascade::assoc_first;
use crate::css::pairs_view;
use crate::distance::all_digits;
use crate::distance::digits_val;
use crate::distance::pow10;
use crate::strutil::spec_trim;
use crate::strutil::split_char;

verus! {

/// A color with 8-bit red, green, blue and alpha channels.
#[derive(Clone, Copy, PartialEq, Eq, Structural, Debug)]
pub struct Rgba {
    pub r: u8,
    pub g: u8,
    pub b: u8,
    pub a: u8,
}

/// Opaque black, the fallback for text color.
pub open spec fn spec_black() -> Rgba {
    Rgba { r: 0, g: 0, b: 0, a: 255 }
}

/// Fully transparent, the fallback for background color.
pub open spec fn spec_transparent() -> Rgba {
    Rgba { r: 255, g: 255, b: 255, a: 0 }
}

impl Rgba {
    /// Opaque black.
    pub fn black() -> (r: Rgba)
        ensures
            r == spec_black(),
    {
        Rgba { r: 0, g: 0, b: 0, a: 255 }
    }

    /// Fully transparent.
    pub fn transparent() -> (r: Rgba)
        ensures
            r == spec_transparent(),
    {
        Rgba { r: 255, g: 255, b: 255, a: 0 }
    }
}

/// The value of a hexadecimal digit, or -1 for any other character.
pub open spec fn hex_val(c: char) -> int {
    if '0' <= c && c <= '9' {
        c as u32 - 48
    } else if 'a' <= c && c <= 'f' {
        c as u32 - 87
    } else if 'A' <= c && c <= 'F' {
        c as u32 - 55
    } else {
        -1
    }
}

/// The color of a `#rrggbb` digit string (without the `#`): the first
/// six characters must be hexadecimal digits; extra characters after
/// them are ignored.
pub open spec fn parse_hex(h: Seq<char>) -> Option<Rgba> {
    if h.len() >= 6 && (forall|i: int| 0 <= i < 6 ==> hex_val(#[trigger] h[i]) >= 0) {
        Some(
            Rgba {
                r: (hex_val(h[0]) * 16 + hex_val(h[1])) as u8,
                g: (hex_val(h[2]) * 16 + hex_val(h[3])) as u8,
                b: (hex_val(h[4]) * 16 + hex_val(h[5])) as u8,
                a: 255,
            },
        )
    } else {
        None
    }
}

/// Whether `s` starts with `rgb`.
pub open spec fn starts_rgb(s: Seq<char>) -> bool {
    s.len() >= 3 && s[0] == 'r' && s[1] == 'g' && s[2] == 'b'
}

/// `s` without every trailing `)`.
pub open spec fn strip_close(s: Seq<char>) -> Seq<char>
    decreases s.len(),
{
    if s.len() > 0 && s.last() == ')' {
        strip_close(s.drop_last())
    } else {
        s
    }
}

/// A decimal channel value: trimmed digits denoting at most 255.
pub open spec fn channel_val(s: Seq<char>) -> Option<u8> {
    let t = spec_trim(s);
    if 0 < t.len() <= 3 && all_digits(t) && digits_val(t) <= 255 {
        Some(digits_val(t) as u8)
    } else {
        None
    }
}

/// The color an `rgb(r,g,b)` text denotes: the `rgb(` prefix and the
/// trailing `)` are stripped, and the first three comma-separated
/// pieces must be decimal channel values.
pub open spec fn parse_rgb(s: Seq<char>) -> Option<Rgba> {
    let t1 = if s.len() >= 4 && s[3] == '(' {
        s.skip(4)
    } else {
        s
    };
    let t2 = strip_close(t1);
    let parts = split_char(t2, ',');
    if parts.len() >= 3 {
        match (channel_val(parts[0]), channel_val(parts[1]), channel_val(parts[2])) {
            (Some(r), Some(g), Some(b)) => Some(Rgba { r, g, b, a: 255 }),
            _ => None,
        }
    } else {
        None
    }
}

/// The color of a direct color expression: an `rgb(...)` or `#rrggbb`
/// form, with opaque black for anything unresolvable.
pub open spec fn direct_color(s: Seq<char>) -> Rgba {
    if starts_rgb(s) {
        match parse_rgb(s) {
            Some(c) => c,
            None => spec_black(),
        }
    } else if s.len() > 0 && s[0] == '#' {
        match parse_hex(s.skip(1)) {
            Some(c) => c,
            None => spec_black(),
        }
    } else {
        spec_black()
    }
}

/// The color a style value denotes: a direct `rgb(...)` or `#rrggbb`
/// expression, or a name looked up in the color table (whose entries
/// are themselves direct expressions); everything else is opaque black.
pub open spec fn spec_get_color(s: Seq<char>, table: Seq<(Seq<char>, Seq<char>)>) -> Rgba {
    if starts_rgb(s) || (s.len() > 0 && s[0] == '#') {
        direct_color(s)
    } else {
        match assoc_first(table, s) {
            Some(v) => direct_color(v),
            None => spec_black(),
        }
    }
}

/// The hexadecimal value of a character, or -1.
fn hex_val_exec(c: char) -> (r: i32)
    ensures
        r as int == hex_val(c),
{
    if '0' <= c && c <= '9' {
        ((c as u32) - 48) as i32
    } else if 'a' <= c && c <= 'f' {
        ((c as u32) - 87) as i32
    } else if 'A' <= c && c <= 'F' {
        ((c as u32) - 55) as i32
    } else {
        -1
    }
}

/// Parse the six hex digits after `#`.
fn parse_hex_exec(v: &Vec<char>, from: usize) -> (r: Option<Rgba>)
    requires
        from <= v@.len(),
    ensures
        r == parse_hex(v@.skip(from as int)),
{
    let ghost h = v@.skip(from as int);
    let n: usize = v.len();
    if n - from < 6 {
        return None;
    }
    let d0: i32 = hex_val_exec(v[from]);
    let d1: i32 = hex_val_exec(v[from + 1]);
    let d2: i32 = hex_val_exec(v[from + 2]);
    let d3: i32 = hex_val_exec(v[from + 3]);
    let d4: i32 = hex_val_exec(v[from + 4]);
    let d5: i32 = hex_val_exec(v[from + 5]);
    proof {
        assert(h[0] == v@[from as int]);
        assert(h[1] == v@[from + 1]);
        assert(h[2] == v@[from + 2]);
        assert(h[3] == v@[from + 3]);
        assert(h[4] == v@[from + 4]);
        assert(h[5] == v@[from + 5]);
    }
    if d0 < 0 || d1 < 0 || d2 < 0 || d3 < 0 || d4 < 0 || d5 < 0 {
        return None;
    }
    proof {
        assert(hex_val(h[0]) < 16 && hex_val(h[1]) < 16 && hex_val(h[2]) < 16 && hex_val(h[3]) < 16
            && hex_val(h[4]) < 16 && hex_val(h[5]) < 16);
    }
    Some(
        Rgba {
            r: (d0 * 16 + d1) as u8,
            g: (d2 * 16 + d3) as u8,
            b: (d4 * 16 + d5) as u8,
            a: 255,
        },
    )
}

/// Parse a trimmed decimal channel value.
fn channel_val_exec(v: &Vec<char>, from: usize, to: usize) -> (r: Option<u8>)
    requires
        from <= to <= v@.len(),
    ensures
        r == channel_val(v@.subrange(from as int, to as int)),
{
    let ghost s = v@.subrange(from as int, to as int);
    let (a, b) = crate::strutil::trim_range(v, from, to);
    let ghost t = spec_trim(s);
    proof {
        assert(t == v@.subrange(a as int, b as int));
    }
    let len: usize = b - a;
    if len == 0 || len > 3 {
        return None;
    }
    let mut val: u32 = 0;
    let mut i: usize = a;
    proof {
        assert(t.take(0) =~= Seq::<char>::empty());
    }
    while i < b
        invariant
            from <= a <= i <= b <= to <= v@.len(),
            b - a <= 3,
            t == v@.subrange(a as int, b as int),
            t == spec_trim(v@.subrange(from as int, to as int)),
            all_digits(t.take(i - a)),
            val == digits_val(t.take(i - a)),
            0 <= val < 1000,
        decreases b - i,
    {
        let c: char = v[i];
        if !('0' <= c && c <= '9') {
            proof {
                assert(t[i - a] == c);
                assert(!all_digits(t));
            }
            return None;
        }
        proof {
            assert(t[i - a] == c);
            assert(t.take(i - a + 1) =~= t.take(i - a).push(c));
            assert(t.take(i - a + 1).drop_last() =~= t.take(i - a));
            lemma_channel_bound(t.take(i - a + 1));
        }
        val = val * 10 + ((c as u32) - 48);
        i = i + 1;
    }
    proof {
        assert(t.take(b - a) =~= t);
    }
    if val <= 255 {
        Some(val as u8)
    } else {
        None
    }
}

proof fn lemma_channel_pow_bound(s: Seq<char>)
    requires
        all_digits(s),
    ensures
        0 <= digits_val(s) < pow10(s.len() as nat),
    decreases s.len(),
{
    if s.len() > 0 {
        assert(all_digits(s.drop_last()));
        lemma_channel_pow_bound(s.drop_last());
        assert((s.last() as u32 - 48) < 10);
    }
}

proof fn lemma_channel_bound(s: Seq<char>)
    requires
        all_digits(s),
        s.len() <= 3,
    ensures
        0 <= digits_val(s) < 1000,
{
    lemma_channel_pow_bound(s);
    assert(pow10(3) == 1000) by {
        reveal_with_fuel(pow10, 4);
    }
    if s.len() < 3 {
        assert(pow10(s.len() as nat) <= 1000) by {
            reveal_with_fuel(pow10, 4);
        }
    }
}

/// Resolve a direct `rgb(...)` or `#rrggbb` expression held in
/// `v[from..]`, falling back to opaque black.
fn direct_color_exec(v: &Vec<char>) -> (r: Rgba)
    ensures
        r == direct_color(v@),
{
    let n: usize = v.len();
    if n >= 3 && v[0] == 'r' && v[1] == 'g' && v[2] == 'b' {
        // Strip the `rgb(` prefix and every trailing `)`.
        let start: usize = if n >= 4 && v[3] == '(' {
            4
        } else {
            0
        };
        let ghost t1 = if start == 4 {
            v@.skip(4)
        } else {
            v@
        };
        let mut end: usize = n;
        proof {
            if start == 4 {
                assert(v@.subrange(4, n as int) =~= v@.skip(4));
            } else {
                assert(v@.subrange(0, n as int) =~= v@);
            }
        }
        while end > start && v[end - 1] == ')'
            invariant
                start <= end <= n,
                n == v@.len(),
                t1 == (if start == 4 {
                    v@.skip(4)
                } else {
                    v@
                }),
                strip_close(t1) == strip_close(v@.subrange(start as int, end as int)),
            decreases end,
        {
            proof {
                let cur = v@.subrange(start as int, end as int);
                assert(cur.last() == v@[end - 1]);
                assert(cur.drop_last() =~= v@.subrange(start as int, end - 1));
            }
            end = end - 1;
        }
        let ghost t2 = strip_close(t1);
        proof {
            let cur = v@.subrange(start as int, end as int);
            if end > start {
                assert(cur.last() == v@[end - 1]);
            }
            assert(strip_close(cur) == cur);
            assert(t2 == v@.subrange(start as int, end as int));
            if start == 4 {
                assert(v@.subrange(0, n as int) =~= v@);
            } else {
                assert(v@.subrange(0, n as int) =~= v@);
            }
        }
        // Split the inside at commas and read the first three channels.
        let ghost parts = split_char(t2, ',');
        let pieces: Vec<(usize, usize)> = split_positions(v, start, end, ',');
        proof {
            assert(v@.subrange(start as int, end as int) == t2);
        }
        if pieces.len() < 3 {
            return Rgba::black();
        }
        let (a0, b0) = pieces[0];
        let (a1, b1) = pieces[1];
        let (a2, b2) = pieces[2];
        let c0: Option<u8> = channel_val_exec(v, a0, b0);
        let c1: Option<u8> = channel_val_exec(v, a1, b1);
        let c2: Option<u8> = channel_val_exec(v, a2, b2);
        match (c0, c1, c2) {
            (Some(cr), Some(cg), Some(cb)) => Rgba { r: cr, g: cg, b: cb, a: 255 },
            _ => Rgba::black(),
        }
    } else if n > 0 && v[0] == '#' {
        match parse_hex_exec(v, 1) {
            Some(c) => c,
            None => Rgba::black(),
        }
    } else {
        Rgba::black()
    }
}

/// The piece boundaries of `v[from..to]` split at `c`, so that piece
/// `i` of the split is `v[r[i].0 .. r[i].1]`.
fn split_positions(v: &Vec<char>, from: usize, to: usize, c: char) -> (r: Vec<(usize, usize)>)
    requires
        from <= to <= v@.len(),
    ensures
        r@.len() == split_char(v@.subrange(from as int, to as int), c).len(),
        forall|i: int|
            0 <= i < r@.len() ==> from <= (#[trigger] r@[i]).0 <= r@[i].1 <= to && v@.subrange(
                r@[i].0 as int,
                r@[i].1 as int,
            ) == split_char(v@.subrange(from as int, to as int), c)[i],
{
    let ghost whole = v@.subrange(from as int, to as int);
    let mut r: Vec<(usize, usize)> = Vec::new();
    let mut start: usize = from;
    let mut i: usize = from;
    while i < to
        invariant
            from <= start <= i <= to <= v@.len(),
            whole == v@.subrange(from as int, to as int),
            forall|j: int| start <= j < i ==> v@[j] != c,
            split_char(whole, c) == r@.map_values(|p: (usize, usize)| v@.subrange(p.0 as int, p.1 as int))
                + split_char(v@.subrange(start as int, to as int), c),
            forall|j: int|
                0 <= j < r@.len() ==> from <= (#[trigger] r@[j]).0 <= r@[j].1 <= to,
        decreases to - i,
    {
        if v[i] == c {
            let ghost rest = v@.subrange(start as int, to as int);
            proof {
                crate::strutil::lemma_find_char_found(rest, c, i - start);
                assert(rest.take(i - start) =~= v@.subrange(start as int, i as int));
                assert(rest.skip(i - start + 1) =~= v@.subrange(i + 1, to as int));
            }
            let ghost prev = r@.map_values(|p: (usize, usize)| v@.subrange(p.0 as int, p.1 as int));
            r.push((start, i));
            proof {
                assert(r@.map_values(|p: (usize, usize)| v@.subrange(p.0 as int, p.1 as int))
                    =~= prev.push(v@.subrange(start as int, i as int)));
                assert(prev.push(v@.subrange(start as int, i as int)) =~= prev + seq![
                    v@.subrange(start as int, i as int),
                ]);
            }
            start = i + 1;
        }
        i = i + 1;
    }
    let ghost rest = v@.subrange(start as int, to as int);
    proof {
        crate::strutil::lemma_find_char_missing(rest, c);
        assert(split_char(rest, c) == seq![rest]);
    }
    let ghost prev = r@.map_values(|p: (usize, usize)| v@.subrange(p.0 as int, p.1 as int));
    r.push((start, to));
    proof {
        assert(r@.map_values(|p: (usize, usize)| v@.subrange(p.0 as int, p.1 as int)) =~= prev.push(
            rest,
        ));
        assert(prev.push(rest) =~= prev + seq![rest]);
        let done = r@.map_values(|p: (usize, usize)| v@.subrange(p.0 as int, p.1 as int));
        assert(split_char(whole, c) =~= done);
        assert forall|i2: int| 0 <= i2 < r@.len() implies v@.subrange(
            (#[trigger] r@[i2]).0 as int,
            r@[i2].1 as int,
        ) == split_char(whole, c)[i2] by {
            assert(done[i2] == v@.subrange(r@[i2].0 as int, r@[i2].1 as int));
        }
    }
    r
}

/// Resolve a color value: a direct `rgb(r,g,b)` or `#rrggbb`
/// expression, or a name in the injected color table; anything
/// unresolvable is opaque black.
pub fn get_color(color: &str, table: &Vec<(String, String)>) -> (r: Rgba)
    ensures
        r == spec_get_color(color@, pairs_view(table@)),
{
    let v: Vec<char> = crate::strutil::chars_of(color);
    let n: usize = v.len();
    if (n >= 3 && v[0] == 'r' && v[1] == 'g' && v[2] == 'b') || (n > 0 && v[0] == '#') {
        direct_color_exec(&v)
    } else {
        match crate::cascade::assoc_find(table, color) {
            Some(value) => {
                let vv: Vec<char> = crate::strutil::chars_of(value.as_str());
                direct_color_exec(&vv)
            },
            None => Rgba::black(),
        }
    }
}

} // verus!
