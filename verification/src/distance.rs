//! The length value type used everywhere lengths are computed.
//!
//! A `Distance` is either a concrete pixel amount, a fraction of an
//! as-yet-unresolved container size (stored in thousandths), the pairwise
//! sum of one of each, or `Auto` ("defer to content/container").
//! Distances compose under addition and subtraction component-wise;
//! mixing an absolute and a relative value promotes the result to
//! `Combo`.  A distance is reducible to a concrete pixel number only
//! against a concrete container size, and `Auto` never is.
//!
//! All component arithmetic saturates at the `i32` range, which `clip`
//! makes precise.

use vstd::prelude::*;

use crate::strutil::find_char;
use crate::strutil::lemma_find_char_range;
use crate::strutil::spec_trim;
use crate::strutil::split_char;

verus! {

/// Denominator of the fractional component: a `Relative(f)` stands for
/// `f / 1000` of the container size.
pub const FRAC_UNIT: i32 = 1000;

#[derive(Clone, Copy, PartialEq, Eq, Structural, Debug)]
pub enum Distance {
    /// A concrete pixel amount.
    Absolute(i32),
    /// A fraction of the container size, in thousandths.
    Relative(i32),
    /// The sum of a pixel amount and a fraction (pixels, thousandths).
    Combo(i32, i32),
    /// Defer to the content or the container.
    Auto,
}

/// Result of comparing two distances of the same shape.
#[derive(Clone, Copy, PartialEq, Eq, Structural, Debug)]
pub enum DistanceOrdering {
    Less,
    Equal,
    Greater,
}

/// Saturate a mathematical integer at the `i32` range.
pub open spec fn clip(x: int) -> int {
    if x > i32::MAX as int {
        i32::MAX as int
    } else if x < i32::MIN as int {
        i32::MIN as int
    } else {
        x
    }
}

/// Saturating addition of two components.
pub open spec fn add32(a: i32, b: i32) -> i32 {
    clip(a as int + b as int) as i32
}

/// Saturating subtraction of two components.
pub open spec fn sub32(a: i32, b: i32) -> i32 {
    clip(a as int - b as int) as i32
}

/// Saturating negation of a component.
pub open spec fn neg32(a: i32) -> i32 {
    clip(-(a as int)) as i32
}

/// Component-wise sum with promotion: mixing `Absolute` and `Relative`
/// yields `Combo`; `Auto` absorbs (the sum of anything with `Auto` is
/// `Auto`, since no components are available to add).
pub open spec fn spec_add(a: Distance, b: Distance) -> Distance {
    match (a, b) {
        (Distance::Auto, _) => Distance::Auto,
        (_, Distance::Auto) => Distance::Auto,
        (Distance::Absolute(p), Distance::Absolute(q)) => Distance::Absolute(add32(p, q)),
        (Distance::Absolute(p), Distance::Relative(g)) => Distance::Combo(p, g),
        (Distance::Absolute(p), Distance::Combo(q, g)) => Distance::Combo(add32(p, q), g),
        (Distance::Relative(f), Distance::Absolute(q)) => Distance::Combo(q, f),
        (Distance::Relative(f), Distance::Relative(g)) => Distance::Relative(add32(f, g)),
        (Distance::Relative(f), Distance::Combo(q, g)) => Distance::Combo(q, add32(f, g)),
        (Distance::Combo(p, f), Distance::Absolute(q)) => Distance::Combo(add32(p, q), f),
        (Distance::Combo(p, f), Distance::Relative(g)) => Distance::Combo(p, add32(f, g)),
        (Distance::Combo(p, f), Distance::Combo(q, g)) => Distance::Combo(
            add32(p, q),
            add32(f, g),
        ),
    }
}

/// Component-wise difference with the same promotion rule as `spec_add`.
pub open spec fn spec_sub(a: Distance, b: Distance) -> Distance {
    match (a, b) {
        (Distance::Auto, _) => Distance::Auto,
        (_, Distance::Auto) => Distance::Auto,
        (Distance::Absolute(p), Distance::Absolute(q)) => Distance::Absolute(sub32(p, q)),
        (Distance::Absolute(p), Distance::Relative(g)) => Distance::Combo(p, neg32(g)),
        (Distance::Absolute(p), Distance::Combo(q, g)) => Distance::Combo(sub32(p, q), neg32(g)),
        (Distance::Relative(f), Distance::Absolute(q)) => Distance::Combo(neg32(q), f),
        (Distance::Relative(f), Distance::Relative(g)) => Distance::Relative(sub32(f, g)),
        (Distance::Relative(f), Distance::Combo(q, g)) => Distance::Combo(neg32(q), sub32(f, g)),
        (Distance::Combo(p, f), Distance::Absolute(q)) => Distance::Combo(sub32(p, q), f),
        (Distance::Combo(p, f), Distance::Relative(g)) => Distance::Combo(p, sub32(f, g)),
        (Distance::Combo(p, f), Distance::Combo(q, g)) => Distance::Combo(
            sub32(p, q),
            sub32(f, g),
        ),
    }
}

/// Division truncating toward zero, for a positive divisor.
pub open spec fn div_trunc(n: int, d: int) -> int
    recommends
        d > 0,
{
    if n >= 0 {
        n / d
    } else {
        -((-n) / d)
    }
}

/// The pixel value of the fractional component `f` (in thousandths)
/// against a container of `side` pixels, truncated toward zero.
pub open spec fn frac_pixels(f: i32, side: int) -> int {
    div_trunc(f as int * side, FRAC_UNIT as int)
}

/// Reduce a distance to concrete pixels against a container of `side`
/// pixels.  `Absolute` passes through, `Relative` multiplies by the
/// container size, `Combo` sums both parts, and `Auto` has no pixel
/// value (`None`): callers must special-case `Auto` before resolving.
pub open spec fn spec_resolve(d: Distance, side: int) -> Option<i32> {
    match d {
        Distance::Absolute(p) => Some(p),
        Distance::Relative(f) => Some(clip(frac_pixels(f, side)) as i32),
        Distance::Combo(p, f) => Some(clip(p as int + frac_pixels(f, side)) as i32),
        Distance::Auto => None,
    }
}

/// Numeric comparison of two components.
pub open spec fn cmp32(a: i32, b: i32) -> DistanceOrdering {
    if a < b {
        DistanceOrdering::Less
    } else if a == b {
        DistanceOrdering::Equal
    } else {
        DistanceOrdering::Greater
    }
}

/// Ordering of two distances.  It is defined only between values of the
/// same shape, and for `Combo` only when both components compare the
/// same way; every other pairing (and anything involving `Auto`) is
/// incomparable, `None`.
pub open spec fn spec_compare(a: Distance, b: Distance) -> Option<DistanceOrdering> {
    match (a, b) {
        (Distance::Absolute(p), Distance::Absolute(q)) => Some(cmp32(p, q)),
        (Distance::Relative(f), Distance::Relative(g)) => Some(cmp32(f, g)),
        (Distance::Combo(p, f), Distance::Combo(q, g)) => if cmp32(p, q) == cmp32(f, g) {
            Some(cmp32(p, q))
        } else {
            None
        },
        _ => None,
    }
}

impl Distance {
    /// The zero pixel distance.
    pub fn zero() -> (r: Distance)
        ensures
            r == Distance::Absolute(0i32),
    {
        Distance::Absolute(0)
    }

    /// Component-wise sum with promotion to `Combo` when an absolute
    /// and a relative value mix; `Auto` absorbs.
    pub fn add(self, other: Distance) -> (r: Distance)
        ensures
            r == spec_add(self, other),
    {
        match (self, other) {
            (Distance::Auto, _) => Distance::Auto,
            (_, Distance::Auto) => Distance::Auto,
            (Distance::Absolute(p), Distance::Absolute(q)) => Distance::Absolute(add_clip(p, q)),
            (Distance::Absolute(p), Distance::Relative(g)) => Distance::Combo(p, g),
            (Distance::Absolute(p), Distance::Combo(q, g)) => Distance::Combo(add_clip(p, q), g),
            (Distance::Relative(f), Distance::Absolute(q)) => Distance::Combo(q, f),
            (Distance::Relative(f), Distance::Relative(g)) => Distance::Relative(add_clip(f, g)),
            (Distance::Relative(f), Distance::Combo(q, g)) => Distance::Combo(q, add_clip(f, g)),
            (Distance::Combo(p, f), Distance::Absolute(q)) => Distance::Combo(add_clip(p, q), f),
            (Distance::Combo(p, f), Distance::Relative(g)) => Distance::Combo(p, add_clip(f, g)),
            (Distance::Combo(p, f), Distance::Combo(q, g)) => Distance::Combo(
                add_clip(p, q),
                add_clip(f, g),
            ),
        }
    }

    /// Component-wise difference with the same promotion rule.
    pub fn sub(self, other: Distance) -> (r: Distance)
        ensures
            r == spec_sub(self, other),
    {
        match (self, other) {
            (Distance::Auto, _) => Distance::Auto,
            (_, Distance::Auto) => Distance::Auto,
            (Distance::Absolute(p), Distance::Absolute(q)) => Distance::Absolute(sub_clip(p, q)),
            (Distance::Absolute(p), Distance::Relative(g)) => Distance::Combo(p, neg_clip(g)),
            (Distance::Absolute(p), Distance::Combo(q, g)) => Distance::Combo(
                sub_clip(p, q),
                neg_clip(g),
            ),
            (Distance::Relative(f), Distance::Absolute(q)) => Distance::Combo(neg_clip(q), f),
            (Distance::Relative(f), Distance::Relative(g)) => Distance::Relative(sub_clip(f, g)),
            (Distance::Relative(f), Distance::Combo(q, g)) => Distance::Combo(
                neg_clip(q),
                sub_clip(f, g),
            ),
            (Distance::Combo(p, f), Distance::Absolute(q)) => Distance::Combo(sub_clip(p, q), f),
            (Distance::Combo(p, f), Distance::Relative(g)) => Distance::Combo(p, sub_clip(f, g)),
            (Distance::Combo(p, f), Distance::Combo(q, g)) => Distance::Combo(
                sub_clip(p, q),
                sub_clip(f, g),
            ),
        }
    }

    /// Reduce to concrete pixels against a container of `side` pixels.
    /// `Auto` yields `None`; callers must special-case it.
    pub fn to_absolute(&self, side: i32) -> (r: Option<i32>)
        ensures
            r == spec_resolve(*self, side as int),
    {
        match *self {
            Distance::Absolute(p) => Some(p),
            Distance::Relative(f) => Some(clip_i64(mul_div_frac(f, side))),
            Distance::Combo(p, f) => Some(clip_i64(p as i64 + mul_div_frac(f, side))),
            Distance::Auto => None,
        }
    }

    /// Compare two distances; `None` means incomparable, and callers
    /// must not depend on an ordering between differently shaped values.
    pub fn compare(&self, other: &Distance) -> (r: Option<DistanceOrdering>)
        ensures
            r == spec_compare(*self, *other),
    {
        match (*self, *other) {
            (Distance::Absolute(p), Distance::Absolute(q)) => Some(cmp_exec(p, q)),
            (Distance::Relative(f), Distance::Relative(g)) => Some(cmp_exec(f, g)),
            (Distance::Combo(p, f), Distance::Combo(q, g)) => {
                let cp = cmp_exec(p, q);
                let cf = cmp_exec(f, g);
                if cp == cf {
                    Some(cp)
                } else {
                    None
                }
            },
            _ => None,
        }
    }
}

/// Whether `c` is a decimal digit.
pub open spec fn is_digit(c: char) -> bool {
    '0' <= c && c <= '9'
}

/// Whether every character of `s` is a decimal digit.
pub open spec fn all_digits(s: Seq<char>) -> bool {
    forall|i: int| 0 <= i < s.len() ==> is_digit(s[i])
}

/// The number the digit string denotes.
pub open spec fn digits_val(s: Seq<char>) -> int
    decreases s.len(),
{
    if s.len() == 0 {
        0
    } else {
        digits_val(s.drop_last()) * 10 + (s.last() as u32 - 48)
    }
}

/// The longest digit string a distance number may hold; longer numbers
/// are a parse failure (a machine limit).
pub const MAX_NUM_DIGITS: usize = 7;

/// The number an unsigned digit string denotes, or `None` when the
/// string is empty, holds a non-digit, or is too long to represent.
pub open spec fn parse_uint(s: Seq<char>) -> Option<int> {
    if 0 < s.len() <= MAX_NUM_DIGITS as int && all_digits(s) {
        Some(digits_val(s))
    } else {
        None
    }
}

/// The number an optionally `-`-signed digit string denotes.
pub open spec fn parse_int(s: Seq<char>) -> Option<int> {
    if s.len() > 0 && s[0] == '-' {
        match parse_uint(s.skip(1)) {
            Some(v) => Some(-v),
            None => None,
        }
    } else {
        parse_uint(s)
    }
}

proof fn lemma_digits_val_bound_helper(s: Seq<char>)
    requires
        all_digits(s),
        s.len() <= MAX_NUM_DIGITS as int,
    ensures
        0 <= digits_val(s),
        s.len() == 0 ==> digits_val(s) == 0,
        s.len() >= 1 ==> digits_val(s) < pow10(s.len() as nat),
    decreases s.len(),
{
    if s.len() > 0 {
        assert(all_digits(s.drop_last()));
        lemma_digits_val_bound_helper(s.drop_last());
        assert((s.last() as u32 - 48) < 10);
    }
}

/// Ten to the power `n`.
pub open spec fn pow10(n: nat) -> int
    decreases n,
{
    if n == 0 {
        1
    } else {
        10 * pow10((n - 1) as nat)
    }
}

proof fn lemma_pow10_pos(n: nat)
    ensures
        pow10(n) >= 1,
    decreases n,
{
    if n > 0 {
        lemma_pow10_pos((n - 1) as nat);
    }
}

proof fn lemma_pow10_mono(a: nat, b: nat)
    requires
        a <= b,
    ensures
        pow10(a) <= pow10(b),
    decreases b,
{
    if a < b {
        lemma_pow10_mono(a, (b - 1) as nat);
        lemma_pow10_pos((b - 1) as nat);
    }
}

/// Bound used by callers of `parse_int`: a parsed number lies strictly
/// within ten million.
pub proof fn lemma_parse_int_bound(s: Seq<char>)
    ensures
        match parse_int(s) {
            Some(v) => -10_000_000 < v < 10_000_000,
            None => true,
        },
{
    if s.len() > 0 && s[0] == '-' {
        if parse_uint(s.skip(1)) is Some {
            lemma_digits_val_bound_full(s.skip(1));
        }
    } else {
        if parse_uint(s) is Some {
            lemma_digits_val_bound_full(s);
        }
    }
}

proof fn lemma_digits_val_bound_full(s: Seq<char>)
    requires
        0 < s.len() <= MAX_NUM_DIGITS as int,
        all_digits(s),
    ensures
        0 <= digits_val(s) < 10_000_000,
{
    lemma_digits_val_bound_helper(s);
    lemma_pow10_mono(s.len() as nat, MAX_NUM_DIGITS as nat);
    assert(pow10(MAX_NUM_DIGITS as nat) == 10_000_000) by {
        reveal_with_fuel(pow10, 8);
    }
}

/// The distance a single (already trimmed) unit value denotes:
/// `Npx` is absolute, `N%` is relative, `Nem` is absolute against the
/// root font size `em`, `auto` defers, and a bare `0` is zero pixels;
/// anything else is a parse failure.
pub open spec fn parse_single(s: Seq<char>, em: i32) -> Option<Distance> {
    if s.len() >= 2 && s[s.len() - 2] == 'e' && s[s.len() - 1] == 'm' {
        match parse_int(spec_trim(s.take(s.len() - 2))) {
            Some(v) => Some(Distance::Absolute(clip(v * em as int) as i32)),
            None => None,
        }
    } else if s.len() >= 1 && s[s.len() - 1] == '%' {
        match parse_int(spec_trim(s.take(s.len() - 1))) {
            Some(v) => Some(Distance::Relative(clip(v * 10) as i32)),
            None => None,
        }
    } else if s.len() >= 2 && s[s.len() - 2] == 'p' && s[s.len() - 1] == 'x' {
        match parse_int(spec_trim(s.take(s.len() - 2))) {
            Some(v) => Some(Distance::Absolute(clip(v) as i32)),
            None => None,
        }
    } else if s.len() == 4 && s[0] == 'a' && s[1] == 'u' && s[2] == 't' && s[3] == 'o' {
        Some(Distance::Auto)
    } else if s.len() == 1 && s[0] == '0' {
        Some(Distance::Absolute(0))
    } else {
        None
    }
}

/// The sum of the `+`-separated parts, left to right; `None` when any
/// part fails to parse.
pub open spec fn sum_parts(parts: Seq<Seq<char>>, em: i32) -> Option<Distance>
    decreases parts.len(),
{
    if parts.len() == 0 {
        None
    } else if parts.len() == 1 {
        parse_single(spec_trim(parts[0]), em)
    } else {
        match (sum_parts(parts.drop_last(), em), parse_single(spec_trim(parts.last()), em)) {
            (Some(a), Some(b)) => Some(spec_add(a, b)),
            _ => None,
        }
    }
}

/// The distance a property value denotes: the sum of its `+`-separated,
/// trimmed sub-values.
pub open spec fn spec_parse_distance(s: Seq<char>, em: i32) -> Option<Distance> {
    sum_parts(split_char(s, '+'), em)
}

/// Four per-side distances, in the order top, right, bottom, left.
#[derive(Clone, Copy, PartialEq, Eq, Structural, Debug)]
pub struct Insets {
    pub top: Distance,
    pub right: Distance,
    pub bottom: Distance,
    pub left: Distance,
}

/// Shorthand expansion of space-separated distance values: one value
/// sets all four sides; two set (vertical, horizontal); three set
/// (top, horizontal, bottom); four or more set (top, right, bottom,
/// left).  `None` when a used value fails to parse.
pub open spec fn spec_shorthand(s: Seq<char>, em: i32) -> Option<Insets> {
    let parts = split_char(s, ' ');
    if parts.len() == 1 {
        match spec_parse_distance(parts[0], em) {
            Some(d) => Some(Insets { top: d, right: d, bottom: d, left: d }),
            None => None,
        }
    } else if parts.len() == 2 {
        match (spec_parse_distance(parts[0], em), spec_parse_distance(parts[1], em)) {
            (Some(v), Some(h)) => Some(Insets { top: v, right: h, bottom: v, left: h }),
            _ => None,
        }
    } else if parts.len() == 3 {
        match (
            spec_parse_distance(parts[0], em),
            spec_parse_distance(parts[1], em),
            spec_parse_distance(parts[2], em),
        ) {
            (Some(t), Some(h), Some(b)) => Some(Insets { top: t, right: h, bottom: b, left: h }),
            _ => None,
        }
    } else {
        match (
            spec_parse_distance(parts[0], em),
            spec_parse_distance(parts[1], em),
            spec_parse_distance(parts[2], em),
            spec_parse_distance(parts[3], em),
        ) {
            (Some(t), Some(r), Some(b), Some(l)) => Some(
                Insets { top: t, right: r, bottom: b, left: l },
            ),
            _ => None,
        }
    }
}

/// Parse the digits of `v[from..to]` as an optionally signed number.
fn parse_int_range(v: &Vec<char>, from: usize, to: usize) -> (r: Option<i64>)
    requires
        from <= to <= v@.len(),
    ensures
        match r {
            Some(x) => parse_int(v@.subrange(from as int, to as int)) == Some(x as int)
                && -10_000_000 < x < 10_000_000,
            None => parse_int(v@.subrange(from as int, to as int)) is None,
        },
{
    let ghost s = v@.subrange(from as int, to as int);
    let neg: bool = to > from && v[from] == '-';
    let start: usize = if neg {
        from + 1
    } else {
        from
    };
    let ghost digits = v@.subrange(start as int, to as int);
    proof {
        if neg {
            assert(digits =~= s.skip(1));
        } else {
            assert(digits =~= s);
        }
    }
    let len: usize = to - start;
    if len == 0 || len > MAX_NUM_DIGITS {
        proof {
            if to > from {
                assert(s[0] == v@[from as int]);
            }
        }
        return None;
    }
    let mut val: i64 = 0;
    let mut i: usize = start;
    proof {
        assert(digits.take(0) =~= Seq::<char>::empty());
    }
    while i < to
        invariant
            from <= start <= i <= to,
            start < to <= v@.len(),
            to - start <= MAX_NUM_DIGITS,
            s == v@.subrange(from as int, to as int),
            neg ==> to > from && s.len() > 0 && s[0] == '-' && digits =~= s.skip(1) && start == from
                + 1,
            !neg ==> digits =~= s && start == from && s[0] != '-',
            digits == v@.subrange(start as int, to as int),
            all_digits(digits.take(i - start)),
            val == digits_val(digits.take(i - start)),
            0 <= val < 10_000_000,
        decreases to - i,
    {
        let c: char = v[i];
        if !('0' <= c && c <= '9') {
            proof {
                assert(digits[i - start] == c);
                assert(!all_digits(digits));
                assert(s[0] == v@[from as int]);
                assert(parse_uint(digits) is None);
                if neg {
                    assert(parse_int(s) is None);
                } else {
                    assert(parse_int(s) is None);
                }
            }
            return None;
        }
        proof {
            assert(digits[i - start] == c);
            assert(digits.take(i - start + 1) =~= digits.take(i - start).push(c));
            assert(digits.take(i - start + 1).drop_last() =~= digits.take(i - start));
            lemma_digits_val_bound_full(digits.take(i - start + 1));
        }
        val = val * 10 + ((c as u32) - 48) as i64;
        i = i + 1;
    }
    proof {
        assert(digits.take(to - start) =~= digits);
        assert(s[0] == v@[from as int]);
        assert(parse_uint(digits) == Some(val as int));
    }
    if neg {
        Some(-val)
    } else {
        Some(val)
    }
}

/// Parse a single (possibly untrimmed) unit value.
fn parse_single_range(v: &Vec<char>, from: usize, to: usize, em: i32) -> (r: Option<Distance>)
    requires
        from <= to <= v@.len(),
    ensures
        r == parse_single(spec_trim(v@.subrange(from as int, to as int)), em),
{
    let (a, b) = crate::strutil::trim_range(v, from, to);
    let ghost s = spec_trim(v@.subrange(from as int, to as int));
    proof {
        assert(s == v@.subrange(a as int, b as int));
    }
    let len: usize = b - a;
    if len >= 2 && v[b - 2] == 'e' && v[b - 1] == 'm' {
        proof {
            assert(v@.subrange(a as int, b - 2) =~= s.take(s.len() - 2));
        }
        let (na, nb) = crate::strutil::trim_range(v, a, b - 2);
        proof {
            lemma_parse_int_bound(v@.subrange(na as int, nb as int));
        }
        match parse_int_range(v, na, nb) {
            Some(x) => {
                proof {
                    assert((x as int) * (em as int) <= 0x4000_0000_0000_0000 && (x as int) * (
                    em as int) >= -0x4000_0000_0000_0000) by (nonlinear_arith)
                        requires
                            -10_000_000 < x < 10_000_000,
                            i32::MIN <= em <= i32::MAX,
                    ;
                }
                Some(Distance::Absolute(clip_i64(x * em as i64)))
            },
            None => None,
        }
    } else if len >= 1 && v[b - 1] == '%' {
        proof {
            assert(v@.subrange(a as int, b - 1) =~= s.take(s.len() - 1));
        }
        let (na, nb) = crate::strutil::trim_range(v, a, b - 1);
        match parse_int_range(v, na, nb) {
            Some(x) => Some(Distance::Relative(clip_i64(x * 10))),
            None => None,
        }
    } else if len >= 2 && v[b - 2] == 'p' && v[b - 1] == 'x' {
        proof {
            assert(v@.subrange(a as int, b - 2) =~= s.take(s.len() - 2));
        }
        let (na, nb) = crate::strutil::trim_range(v, a, b - 2);
        match parse_int_range(v, na, nb) {
            Some(x) => Some(Distance::Absolute(clip_i64(x))),
            None => None,
        }
    } else if len == 4 && v[a] == 'a' && v[a + 1] == 'u' && v[a + 2] == 't' && v[a + 3] == 'o' {
        Some(Distance::Auto)
    } else if len == 1 && v[a] == '0' {
        Some(Distance::Absolute(0))
    } else {
        None
    }
}

impl Distance {
    /// Parse a distance value: the sum of its `+`-separated, trimmed
    /// sub-values, each `Npx`, `N%`, `Nem` (against the root font size
    /// `em`), `auto`, or a bare `0`.  Any other form, and any number of
    /// more than seven digits, is a parse failure, `None`.
    pub fn from_text(s: &str, em: i32) -> (r: Option<Distance>)
        ensures
            r == spec_parse_distance(s@, em),
    {
        let v: Vec<char> = crate::strutil::chars_of(s);
        let n: usize = v.len();
        let ghost parts = split_char(s@, '+');
        let mut acc: Option<Distance> = None;
        let mut start: usize = 0;
        let mut i: usize = 0;
        let mut count: usize = 0;
        proof {
            assert(v@.subrange(0, n as int) =~= s@);
            assert(parts.skip(0) =~= parts);
        }
        while i < n
            invariant
                start <= i <= n,
                n == v@.len(),
                v@ == s@,
                count <= i,
                parts == split_char(s@, '+'),
                forall|j: int| start <= j < i ==> v@[j] != '+',
                count < parts.len(),
                parts.skip(count as int) == split_char(v@.subrange(start as int, n as int), '+'),
                count > 0 ==> acc == sum_parts(parts.take(count as int), em),
                count == 0 ==> start == 0 && acc is None,
            decreases n - i,
        {
            if v[i] == '+' {
                let ghost rest = v@.subrange(start as int, n as int);
                proof {
                    crate::strutil::lemma_find_char_found(rest, '+', i - start);
                    assert(rest.take(i - start) =~= v@.subrange(start as int, i as int));
                    assert(rest.skip(i - start + 1) =~= v@.subrange(i + 1, n as int));
                }
                let part: Option<Distance> = parse_single_range(&v, start, i, em);
                proof {
                    assert(parts.skip(count as int)[0] == v@.subrange(start as int, i as int));
                    assert(parts[count as int] == v@.subrange(start as int, i as int));
                    assert(parts.skip(count as int).drop_first() =~= parts.skip(count + 1));
                    lemma_sum_parts_take(parts, em, count as int);
                }
                acc = if count == 0 {
                    part
                } else {
                    match (acc, part) {
                        (Some(x), Some(y)) => Some(x.add(y)),
                        _ => None,
                    }
                };
                count = count + 1;
                start = i + 1;
                proof {
                    assert(count < parts.len()) by {
                        lemma_split_char_len(v@.subrange(start as int, n as int), '+');
                    }
                }
            }
            i = i + 1;
        }
        let ghost rest = v@.subrange(start as int, n as int);
        proof {
            crate::strutil::lemma_find_char_missing(rest, '+');
            assert(split_char(rest, '+') == seq![rest]);
            assert(parts.skip(count as int) =~= seq![rest]);
            assert(parts.skip(count as int)[0] == parts[count as int]);
            assert(parts[count as int] == rest);
            assert(count == parts.len() - 1);
        }
        let part: Option<Distance> = parse_single_range(&v, start, n, em);
        proof {
            lemma_sum_parts_take(parts, em, count as int);
            assert(parts.take(parts.len() as int) =~= parts);
        }
        if count == 0 {
            part
        } else {
            match (acc, part) {
                (Some(x), Some(y)) => Some(x.add(y)),
                _ => None,
            }
        }
    }
}

proof fn lemma_split_char_len(s: Seq<char>, c: char)
    ensures
        split_char(s, c).len() >= 1,
    decreases s.len(),
{
    lemma_find_char_range(s, c);
}

proof fn lemma_sum_parts_take(parts: Seq<Seq<char>>, em: i32, i: int)
    requires
        0 <= i < parts.len(),
    ensures
        sum_parts(parts.take(i + 1), em) == (if i == 0 {
            parse_single(spec_trim(parts[0]), em)
        } else {
            match (sum_parts(parts.take(i), em), parse_single(spec_trim(parts[i]), em)) {
                (Some(a), Some(b)) => Some(spec_add(a, b)),
                _ => None,
            }
        }),
{
    let t = parts.take(i + 1);
    if i == 0 {
        assert(t.len() == 1);
        assert(t[0] == parts[0]);
    } else {
        assert(t.drop_last() =~= parts.take(i));
        assert(t.last() == parts[i]);
    }
}

/// Parse a shorthand of one to four space-separated distance values
/// into the four sides, in standard edge order.
pub fn parse_shorthand(s: &str, em: i32) -> (r: Option<Insets>)
    ensures
        r == spec_shorthand(s@, em),
{
    let v: Vec<char> = crate::strutil::chars_of(s);
    let parts: Vec<String> = crate::strutil::split_buf(&v, 0, v.len(), ' ');
    let ghost pv = parts@.map_values(|p: String| p@);
    proof {
        assert(v@.subrange(0, v@.len() as int) =~= v@);
        assert(pv.len() >= 1);
    }
    let n: usize = parts.len();
    proof {
        assert(pv[0] == parts@[0]@);
    }
    if n == 1 {
        match Distance::from_text(parts[0].as_str(), em) {
            Some(d) => Some(Insets { top: d, right: d, bottom: d, left: d }),
            None => None,
        }
    } else if n == 2 {
        proof {
            assert(pv[1] == parts@[1]@);
        }
        let d0: Option<Distance> = Distance::from_text(parts[0].as_str(), em);
        let d1: Option<Distance> = Distance::from_text(parts[1].as_str(), em);
        match (d0, d1) {
            (Some(t), Some(h)) => Some(Insets { top: t, right: h, bottom: t, left: h }),
            _ => None,
        }
    } else if n == 3 {
        proof {
            assert(pv[1] == parts@[1]@);
            assert(pv[2] == parts@[2]@);
        }
        let d0: Option<Distance> = Distance::from_text(parts[0].as_str(), em);
        let d1: Option<Distance> = Distance::from_text(parts[1].as_str(), em);
        let d2: Option<Distance> = Distance::from_text(parts[2].as_str(), em);
        match (d0, d1, d2) {
            (Some(t), Some(h), Some(b)) => Some(Insets { top: t, right: h, bottom: b, left: h }),
            _ => None,
        }
    } else {
        proof {
            assert(pv[1] == parts@[1]@);
            assert(pv[2] == parts@[2]@);
            assert(pv[3] == parts@[3]@);
        }
        let d0: Option<Distance> = Distance::from_text(parts[0].as_str(), em);
        let d1: Option<Distance> = Distance::from_text(parts[1].as_str(), em);
        let d2: Option<Distance> = Distance::from_text(parts[2].as_str(), em);
        let d3: Option<Distance> = Distance::from_text(parts[3].as_str(), em);
        match (d0, d1, d2, d3) {
            (Some(t), Some(r0), Some(b), Some(l)) => Some(
                Insets { top: t, right: r0, bottom: b, left: l },
            ),
            _ => None,
        }
    }
}

/// Saturate an `i64` at the `i32` range.
fn clip_i64(x: i64) -> (r: i32)
    ensures
        r as int == clip(x as int),
{
    if x > i32::MAX as i64 {
        i32::MAX
    } else if x < i32::MIN as i64 {
        i32::MIN
    } else {
        x as i32
    }
}

/// Saturating `i32` addition.
pub fn add_clip(a: i32, b: i32) -> (r: i32)
    ensures
        r == add32(a, b),
{
    clip_i64(a as i64 + b as i64)
}

/// Saturating `i32` subtraction.
pub fn sub_clip(a: i32, b: i32) -> (r: i32)
    ensures
        r == sub32(a, b),
{
    clip_i64(a as i64 - b as i64)
}

fn neg_clip(a: i32) -> (r: i32)
    ensures
        r == neg32(a),
{
    clip_i64(-(a as i64))
}

/// `f * side / FRAC_UNIT`, truncated toward zero, exact in `i64`.
fn mul_div_frac(f: i32, side: i32) -> (r: i64)
    ensures
        r as int == frac_pixels(f, side as int),
        -0x4000_0000_0000_0000 <= r <= 0x4000_0000_0000_0000,
{
    proof {
        assert((f as int) * (side as int) <= 0x4000_0000_0000_0000 && (f as int) * (side as int)
            >= -0x4000_0000_0000_0000) by (nonlinear_arith)
            requires
                i32::MIN <= f <= i32::MAX,
                i32::MIN <= side <= i32::MAX,
        ;
    }
    let n: i64 = f as i64 * side as i64;
    if n >= 0 {
        let q: u64 = (n as u64) / (FRAC_UNIT as u64);
        proof {
            assert(q <= n);
        }
        q as i64
    } else {
        let q: u64 = ((-n) as u64) / (FRAC_UNIT as u64);
        proof {
            assert(q as int <= -(n as int));
        }
        -(q as i64)
    }
}

fn cmp_exec(a: i32, b: i32) -> (r: DistanceOrdering)
    ensures
        r == cmp32(a, b),
{
    if a < b {
        DistanceOrdering::Less
    } else if a == b {
        DistanceOrdering::Equal
    } else {
        DistanceOrdering::Greater
    }
}

} // verus!
