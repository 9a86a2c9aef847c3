//! Character and string helpers shared by the parsers: whitespace
//! classification, trimming, and conversions between `String` and
//! `Vec<char>`.

use vstd::prelude::*;

verus! {

/// Relies on `String::push`: it appends the given character to the end
/// of the string.
pub assume_specification[ String::push ](s: &mut String, c: char)
    ensures
        final(s)@ == old(s)@.push(c),
;

/// Compare two string slices character by character.
pub fn str_eq(a: &str, b: &str) -> (r: bool)
    ensures
        r == (a@ == b@),
{
    let la: usize = a.unicode_len();
    let lb: usize = b.unicode_len();
    if la != lb {
        return false;
    }
    let mut i: usize = 0;
    while i < la
        invariant
            i <= la,
            la == a@.len(),
            la == b@.len(),
            forall|j: int| 0 <= j < i ==> a@[j] == b@[j],
        decreases la - i,
    {
        if a.get_char(i) != b.get_char(i) {
            return false;
        }
        i = i + 1;
    }
    proof {
        assert(a@ =~= b@);
    }
    true
}

/// The characters the parsers treat as whitespace.
pub open spec fn is_ws(c: char) -> bool {
    c == ' ' || c == '\t' || c == '\n' || c == '\r'
}

/// Whether a character is ASCII whitespace.
pub fn is_ws_char(c: char) -> (r: bool)
    ensures
        r == is_ws(c),
{
    c == ' ' || c == '\t' || c == '\n' || c == '\r'
}

/// `s` without leading whitespace.
pub open spec fn trim_front(s: Seq<char>) -> Seq<char>
    decreases s.len(),
{
    if s.len() > 0 && is_ws(s[0]) {
        trim_front(s.drop_first())
    } else {
        s
    }
}

/// `s` without trailing whitespace.
pub open spec fn trim_back(s: Seq<char>) -> Seq<char>
    decreases s.len(),
{
    if s.len() > 0 && is_ws(s.last()) {
        trim_back(s.drop_last())
    } else {
        s
    }
}

/// `s` without leading and trailing whitespace.
pub open spec fn spec_trim(s: Seq<char>) -> Seq<char> {
    trim_back(trim_front(s))
}

/// Whether `s` consists of whitespace only.
pub open spec fn all_ws(s: Seq<char>) -> bool {
    forall|i: int| 0 <= i < s.len() ==> is_ws(s[i])
}

/// The first index where `c` occurs in `s`, or -1 when it does not.
pub open spec fn find_char(s: Seq<char>, c: char) -> int
    decreases s.len(),
{
    if s.len() == 0 {
        -1
    } else if s[0] == c {
        0
    } else {
        let r = find_char(s.drop_first(), c);
        if r == -1 {
            -1
        } else {
            r + 1
        }
    }
}

pub proof fn lemma_find_char_found(s: Seq<char>, c: char, i: int)
    requires
        0 <= i < s.len(),
        s[i] == c,
        forall|j: int| 0 <= j < i ==> s[j] != c,
    ensures
        find_char(s, c) == i,
    decreases i,
{
    if i > 0 {
        lemma_find_char_found(s.drop_first(), c, i - 1);
    }
}

pub proof fn lemma_find_char_missing(s: Seq<char>, c: char)
    requires
        forall|j: int| 0 <= j < s.len() ==> s[j] != c,
    ensures
        find_char(s, c) == -1,
    decreases s.len(),
{
    if s.len() > 0 {
        lemma_find_char_missing(s.drop_first(), c);
    }
}

pub proof fn lemma_find_char_range(s: Seq<char>, c: char)
    ensures
        find_char(s, c) == -1 || (0 <= find_char(s, c) < s.len()),
    decreases s.len(),
{
    if s.len() > 0 && s[0] != c {
        lemma_find_char_range(s.drop_first(), c);
    }
}

/// `s` split at every occurrence of `c`: the separators are dropped and
/// empty pieces are kept, so the result always holds at least one piece.
pub open spec fn split_char(s: Seq<char>, c: char) -> Seq<Seq<char>>
    decreases s.len(),
    via split_char_decreases
{
    let i = find_char(s, c);
    if i < 0 {
        seq![s]
    } else {
        seq![s.take(i)] + split_char(s.skip(i + 1), c)
    }
}

#[via_fn]
proof fn split_char_decreases(s: Seq<char>, c: char) {
    lemma_find_char_range(s, c);
}

/// Split the characters of `v[from..to]` at every occurrence of `c`.
pub fn split_buf(v: &Vec<char>, from: usize, to: usize, c: char) -> (r: Vec<String>)
    requires
        from <= to <= v@.len(),
    ensures
        r@.map_values(|p: String| p@) == split_char(v@.subrange(from as int, to as int), c),
{
    let mut r: Vec<String> = Vec::new();
    let mut start: usize = from;
    let mut i: usize = from;
    while i < to
        invariant
            from <= start <= i <= to <= v@.len(),
            forall|j: int| start <= j < i ==> v@[j] != c,
            split_char(v@.subrange(from as int, to as int), c) == r@.map_values(|p: String| p@)
                + split_char(v@.subrange(start as int, to as int), c),
        decreases to - i,
    {
        if v[i] == c {
            let piece: String = string_range(v, start, i);
            let ghost rest = v@.subrange(start as int, to as int);
            proof {
                lemma_find_char_found(rest, c, i - start);
                assert(rest.take(i - start) =~= v@.subrange(start as int, i as int));
                assert(rest.skip(i - start + 1) =~= v@.subrange(i + 1, to as int));
                assert(split_char(rest, c) == seq![piece@] + split_char(
                    v@.subrange(i + 1, to as int),
                    c,
                ));
            }
            let ghost prev = r@.map_values(|p: String| p@);
            r.push(piece);
            proof {
                assert(r@.map_values(|p: String| p@) =~= prev.push(piece@));
                assert(prev.push(piece@) =~= prev + seq![piece@]);
            }
            start = i + 1;
        }
        i = i + 1;
    }
    let last: String = string_range(v, start, to);
    let ghost rest = v@.subrange(start as int, to as int);
    proof {
        lemma_find_char_missing(rest, c);
        assert(rest =~= last@);
        assert(split_char(rest, c) == seq![last@]);
    }
    let ghost prev = r@.map_values(|p: String| p@);
    r.push(last);
    proof {
        assert(r@.map_values(|p: String| p@) =~= prev.push(last@));
        assert(prev.push(last@) =~= prev + seq![last@]);
        assert(split_char(v@.subrange(from as int, to as int), c) =~= r@.map_values(
            |p: String| p@,
        ));
    }
    r
}

/// The first index of a whitespace character in `s`, or -1.
pub open spec fn find_ws(s: Seq<char>) -> int
    decreases s.len(),
{
    if s.len() == 0 {
        -1
    } else if is_ws(s[0]) {
        0
    } else {
        let r = find_ws(s.drop_first());
        if r == -1 {
            -1
        } else {
            r + 1
        }
    }
}

pub proof fn lemma_find_ws_range(s: Seq<char>)
    ensures
        find_ws(s) == -1 || (0 <= find_ws(s) < s.len()),
        s.len() > 0 && !is_ws(s[0]) ==> find_ws(s) != 0,
    decreases s.len(),
{
    if s.len() > 0 && !is_ws(s[0]) {
        lemma_find_ws_range(s.drop_first());
    }
}

pub proof fn lemma_find_ws_found(s: Seq<char>, i: int)
    requires
        0 <= i < s.len(),
        is_ws(s[i]),
        forall|j: int| 0 <= j < i ==> !is_ws(s[j]),
    ensures
        find_ws(s) == i,
    decreases i,
{
    if i > 0 {
        lemma_find_ws_found(s.drop_first(), i - 1);
    }
}

pub proof fn lemma_find_ws_missing(s: Seq<char>)
    requires
        forall|j: int| 0 <= j < s.len() ==> !is_ws(s[j]),
    ensures
        find_ws(s) == -1,
    decreases s.len(),
{
    if s.len() > 0 {
        lemma_find_ws_missing(s.drop_first());
    }
}

/// The whitespace-separated words of `s`, in order, with empty words
/// dropped.
pub open spec fn split_ws(s: Seq<char>) -> Seq<Seq<char>>
    decreases s.len(),
    via split_ws_decreases
{
    if s.len() == 0 {
        Seq::empty()
    } else if is_ws(s[0]) {
        split_ws(s.drop_first())
    } else {
        let i = find_ws(s);
        if i < 0 {
            seq![s]
        } else {
            seq![s.take(i)] + split_ws(s.skip(i))
        }
    }
}

#[via_fn]
proof fn split_ws_decreases(s: Seq<char>) {
    lemma_find_ws_range(s);
}

/// Split the characters of `v` into whitespace-separated words.
pub fn split_ws_words(v: &Vec<char>) -> (r: Vec<String>)
    ensures
        r@.map_values(|p: String| p@) == split_ws(v@),
{
    let n: usize = v.len();
    let mut r: Vec<String> = Vec::new();
    let mut i: usize = 0;
    proof {
        assert(v@.skip(0) =~= v@);
    }
    while i < n
        invariant
            i <= n,
            n == v@.len(),
            split_ws(v@) == r@.map_values(|p: String| p@) + split_ws(v@.skip(i as int)),
        decreases n - i,
    {
        let ghost rest = v@.skip(i as int);
        if is_ws_char(v[i]) {
            proof {
                assert(rest[0] == v@[i as int]);
                assert(rest.drop_first() =~= v@.skip(i + 1));
            }
            i = i + 1;
        } else {
            // Scan to the end of the word.
            let mut j: usize = i + 1;
            while j < n && !is_ws_char(v[j])
                invariant
                    i < j <= n,
                    n == v@.len(),
                    forall|l: int| i <= l < j ==> !is_ws(v@[l]),
                decreases n - j,
            {
                j = j + 1;
            }
            proof {
                assert(rest[0] == v@[i as int]);
                if j < n {
                    assert(is_ws(v@[j as int]));
                    assert(rest[j - i] == v@[j as int]);
                    lemma_find_ws_found(rest, j - i);
                    assert(rest.take(j - i) =~= v@.subrange(i as int, j as int));
                    assert(rest.skip(j - i) =~= v@.skip(j as int));
                } else {
                    lemma_find_ws_missing(rest);
                    assert(rest =~= v@.subrange(i as int, j as int));
                }
            }
            let w: String = string_range(v, i, j);
            let ghost prev = r@.map_values(|p: String| p@);
            r.push(w);
            proof {
                assert(r@.map_values(|p: String| p@) =~= prev.push(w@));
                assert(prev.push(w@) =~= prev + seq![w@]);
                if j >= n {
                    assert(v@.skip(n as int) =~= Seq::<char>::empty());
                }
            }
            i = j;
        }
    }
    proof {
        assert(v@.skip(n as int) =~= Seq::<char>::empty());
        assert(r@.map_values(|p: String| p@) =~= split_ws(v@));
    }
    r
}

/// The characters of a string slice, as a vector.
pub fn chars_of(s: &str) -> (r: Vec<char>)
    ensures
        r@ == s@,
{
    let n: usize = s.unicode_len();
    let mut r: Vec<char> = Vec::new();
    let mut i: usize = 0;
    while i < n
        invariant
            i <= n,
            n == s@.len(),
            r@ == s@.take(i as int),
        decreases n - i,
    {
        r.push(s.get_char(i));
        proof {
            assert(s@.take(i as int).push(s@[i as int]) =~= s@.take(i + 1));
        }
        i = i + 1;
    }
    proof {
        assert(s@.take(n as int) =~= s@);
    }
    r
}

/// A `String` holding exactly the characters of a slice of `v`.
pub fn string_range(v: &Vec<char>, from: usize, to: usize) -> (r: String)
    requires
        from <= to <= v@.len(),
    ensures
        r@ == v@.subrange(from as int, to as int),
{
    let mut r: String = String::new();
    let mut i: usize = from;
    while i < to
        invariant
            from <= i <= to <= v@.len(),
            r@ == v@.subrange(from as int, i as int),
        decreases to - i,
    {
        r.push(v[i]);
        proof {
            assert(v@.subrange(from as int, i as int).push(v@[i as int]) =~= v@.subrange(
                from as int,
                i + 1,
            ));
        }
        i = i + 1;
    }
    r
}

/// The first index in `[from, to)` that holds a non-whitespace
/// character, or `to` when there is none.
fn skip_ws_forward(v: &Vec<char>, from: usize, to: usize) -> (r: usize)
    requires
        from <= to <= v@.len(),
    ensures
        from <= r <= to,
        forall|i: int| from <= i < r ==> is_ws(v@[i]),
        r < to ==> !is_ws(v@[r as int]),
{
    let mut i: usize = from;
    while i < to
        invariant
            from <= i <= to <= v@.len(),
            forall|j: int| from <= j < i ==> is_ws(v@[j]),
        decreases to - i,
    {
        if !is_ws_char(v[i]) {
            return i;
        }
        i = i + 1;
    }
    to
}

/// The end of the last non-whitespace character in `[from, to)`, or
/// `from` when all of the range is whitespace.
fn skip_ws_backward(v: &Vec<char>, from: usize, to: usize) -> (r: usize)
    requires
        from <= to <= v@.len(),
    ensures
        from <= r <= to,
        forall|i: int| r <= i < to ==> is_ws(v@[i]),
        r > from ==> !is_ws(v@[r - 1]),
{
    let mut i: usize = to;
    while i > from
        invariant
            from <= i <= to <= v@.len(),
            forall|j: int| i <= j < to ==> is_ws(v@[j]),
        decreases i,
    {
        if !is_ws_char(v[i - 1]) {
            return i;
        }
        i = i - 1;
    }
    from
}

proof fn lemma_trim_front_range(s: Seq<char>, from: int)
    requires
        0 <= from <= s.len(),
        forall|i: int| 0 <= i < from ==> is_ws(s[i]),
        from < s.len() ==> !is_ws(s[from]),
    ensures
        trim_front(s) == s.subrange(from, s.len() as int),
    decreases from,
{
    if from == 0 {
        if s.len() == 0 {
            assert(s.subrange(0, s.len() as int) =~= s);
        } else {
            assert(!is_ws(s[0]));
            assert(s.subrange(0, s.len() as int) =~= s);
        }
    } else {
        assert(is_ws(s[0]));
        let t = s.drop_first();
        assert(forall|i: int| 0 <= i < from - 1 ==> is_ws(t[i]));
        lemma_trim_front_range(t, from - 1);
        assert(t.subrange(from - 1, t.len() as int) =~= s.subrange(from, s.len() as int));
    }
}

proof fn lemma_trim_back_range(s: Seq<char>, to: int)
    requires
        0 <= to <= s.len(),
        forall|i: int| to <= i < s.len() ==> is_ws(s[i]),
        to > 0 ==> !is_ws(s[to - 1]),
    ensures
        trim_back(s) == s.subrange(0, to),
    decreases s.len() - to,
{
    if to == s.len() {
        if s.len() == 0 {
            assert(s.subrange(0, to) =~= s);
        } else {
            assert(!is_ws(s.last()));
            assert(s.subrange(0, to) =~= s);
        }
    } else {
        assert(is_ws(s.last()));
        let t = s.drop_last();
        lemma_trim_back_range(t, to);
        assert(t.subrange(0, to) =~= s.subrange(0, to));
    }
}

/// The bounds of the whitespace-trimmed middle of `v[from..to]`.
pub fn trim_range(v: &Vec<char>, from: usize, to: usize) -> (r: (usize, usize))
    requires
        from <= to <= v@.len(),
    ensures
        from <= r.0 <= r.1 <= to,
        v@.subrange(r.0 as int, r.1 as int) == spec_trim(v@.subrange(from as int, to as int)),
{
    let ghost s = v@.subrange(from as int, to as int);
    let a: usize = skip_ws_forward(v, from, to);
    proof {
        lemma_trim_front_range(s, a - from);
        assert(trim_front(s) =~= v@.subrange(a as int, to as int));
    }
    let ghost f = v@.subrange(a as int, to as int);
    let b: usize = skip_ws_backward(v, a, to);
    proof {
        lemma_trim_back_range(f, b - a);
        assert(trim_back(f) =~= v@.subrange(a as int, b as int));
    }
    (a, b)
}

/// A `String` holding the whitespace-trimmed middle of `v[from..to]`.
pub fn trimmed_string(v: &Vec<char>, from: usize, to: usize) -> (r: String)
    requires
        from <= to <= v@.len(),
    ensures
        r@ == spec_trim(v@.subrange(from as int, to as int)),
{
    let (a, b) = trim_range(v, from, to);
    string_range(v, a, b)
}

} // verus!
