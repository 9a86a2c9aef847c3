//! The style-sheet parser: a single left-to-right scan through the
//! states Selector, Key and Value, with a Comment sub-state reentrant
//! from any of the three.  The output is the ordered list of
//! (selector, declaration block) pairs in source order; order is
//! semantically significant for cascade precedence.

use vstd::prelude::*;

use crate::strutil::spec_trim;

verus! {

/// The view of a (key, value) pair list.
pub open spec fn pairs_view(v: Seq<(String, String)>) -> Seq<(Seq<char>, Seq<char>)> {
    v.map_values(|p: (String, String)| (p.0@, p.1@))
}

/// The view of a rule list: each selector with its declaration block.
pub open spec fn rules_view(v: Seq<(String, Vec<(String, String)>)>) -> Seq<
    (Seq<char>, Seq<(Seq<char>, Seq<char>)>),
> {
    v.map_values(|p: (String, Vec<(String, String)>)| (p.0@, pairs_view(p.1@)))
}

/// Whether `s` ends with the two characters `a`, `b`.
pub open spec fn ends_with2(s: Seq<char>, a: char, b: char) -> bool {
    s.len() >= 2 && s[s.len() - 2] == a && s[s.len() - 1] == b
}

/// The scanner state: the rules emitted so far, the block being
/// collected, the three text buffers, and which state the scan is in.
pub struct CssScan {
    pub rules: Seq<(Seq<char>, Seq<(Seq<char>, Seq<char>)>)>,
    pub params: Seq<(Seq<char>, Seq<char>)>,
    pub in_selector: bool,
    pub in_key: bool,
    pub in_comment: bool,
    pub selector: Seq<char>,
    pub comment: Seq<char>,
    pub key: Seq<char>,
    pub value: Seq<char>,
}

/// The scanner state before any character is read.
pub open spec fn css_init() -> CssScan {
    CssScan {
        rules: Seq::empty(),
        params: Seq::empty(),
        in_selector: true,
        in_key: true,
        in_comment: false,
        selector: Seq::empty(),
        comment: Seq::empty(),
        key: Seq::empty(),
        value: Seq::empty(),
    }
}

/// One step of the scan.  A `/*` already buffered in the current text
/// switches to the Comment state and discards the buffered marker along
/// with the current character; `{` ends the selector, `:` switches from
/// key to value, `;` emits the pending trimmed pair, and `}` emits the
/// completed block under the trimmed selector.
pub open spec fn css_step(st: CssScan, c: char) -> CssScan {
    if st.in_comment {
        let comment = st.comment.push(c);
        if ends_with2(comment, '*', '/') {
            CssScan { in_comment: false, comment: Seq::empty(), ..st }
        } else {
            CssScan { comment, ..st }
        }
    } else if st.in_selector {
        if ends_with2(st.selector, '/', '*') {
            CssScan {
                in_comment: true,
                selector: st.selector.take(st.selector.len() - 2),
                ..st
            }
        } else if c == '{' {
            CssScan { in_selector: false, in_key: true, ..st }
        } else {
            CssScan { selector: st.selector.push(c), ..st }
        }
    } else if st.in_key {
        if ends_with2(st.key, '/', '*') {
            CssScan { in_comment: true, key: st.key.take(st.key.len() - 2), ..st }
        } else if c == ':' {
            CssScan { in_key: false, ..st }
        } else if c == '}' {
            CssScan {
                rules: st.rules.push((spec_trim(st.selector), st.params)),
                params: Seq::empty(),
                selector: Seq::empty(),
                in_selector: true,
                ..st
            }
        } else {
            CssScan { key: st.key.push(c), ..st }
        }
    } else {
        if ends_with2(st.value, '/', '*') {
            CssScan { in_comment: true, value: st.value.take(st.value.len() - 2), ..st }
        } else if c == ';' {
            CssScan {
                in_key: true,
                params: st.params.push((spec_trim(st.key), spec_trim(st.value))),
                key: Seq::empty(),
                value: Seq::empty(),
                ..st
            }
        } else {
            CssScan { value: st.value.push(c), ..st }
        }
    }
}

/// The scan folded over a character sequence.
pub open spec fn css_scan(st: CssScan, s: Seq<char>) -> CssScan
    decreases s.len(),
{
    if s.len() == 0 {
        st
    } else {
        css_scan(css_step(st, s[0]), s.drop_first())
    }
}

/// The rules that scanning the trimmed style text emits, in source
/// order.
pub open spec fn spec_parse_css(css: Seq<char>) -> Seq<
    (Seq<char>, Seq<(Seq<char>, Seq<char>)>),
> {
    css_scan(css_init(), spec_trim(css)).rules
}

proof fn lemma_css_scan_snoc(st: CssScan, s: Seq<char>, c: char)
    ensures
        css_scan(st, s.push(c)) == css_step(css_scan(st, s), c),
    decreases s.len(),
{
    if s.len() == 0 {
        assert(s.push(c)[0] == c);
        assert(s.push(c).drop_first() =~= Seq::<char>::empty());
        assert(css_scan(css_step(st, c), Seq::<char>::empty()) == css_step(st, c));
        assert(css_scan(st, s.push(c)) == css_scan(css_step(st, c), s.push(c).drop_first()));
    } else {
        assert(s.push(c)[0] == s[0]);
        assert(s.push(c).drop_first() =~= s.drop_first().push(c));
        lemma_css_scan_snoc(css_step(st, s[0]), s.drop_first(), c);
        assert(css_scan(st, s.push(c)) == css_scan(css_step(st, s[0]), s.drop_first().push(c)));
        assert(css_scan(st, s) == css_scan(css_step(st, s[0]), s.drop_first()));
    }
}

/// Whether the character vector ends with `a` then `b`.
fn buf_ends_with2(v: &Vec<char>, a: char, b: char) -> (r: bool)
    ensures
        r == ends_with2(v@, a, b),
{
    let n: usize = v.len();
    n >= 2 && v[n - 2] == a && v[n - 1] == b
}

/// Parse a style sheet into the ordered list of (selector, declaration
/// block) pairs, in the order the rules appear in the source text.
pub fn parse(css: String) -> (r: Vec<(String, Vec<(String, String)>)>)
    ensures
        rules_view(r@) == spec_parse_css(css@),
{
    let chars: Vec<char> = crate::strutil::chars_of(css.as_str());
    let (a, b) = crate::strutil::trim_range(&chars, 0, chars.len());
    let ghost s = chars@.subrange(a as int, b as int);
    proof {
        assert(chars@.subrange(0, chars@.len() as int) =~= chars@);
        assert(s == spec_trim(css@));
    }

    let mut rules: Vec<(String, Vec<(String, String)>)> = Vec::new();
    let mut params: Vec<(String, String)> = Vec::new();
    let mut in_selector: bool = true;
    let mut in_key: bool = true;
    let mut in_comment: bool = false;
    let mut selector: Vec<char> = Vec::new();
    let mut comment: Vec<char> = Vec::new();
    let mut key: Vec<char> = Vec::new();
    let mut value: Vec<char> = Vec::new();

    let mut i: usize = a;
    while i < b
        invariant
            a <= i <= b <= chars@.len(),
            s == chars@.subrange(a as int, b as int),
            ({
                let st = css_scan(css_init(), s.take(i - a));
                &&& rules_view(rules@) == st.rules
                &&& pairs_view(params@) == st.params
                &&& in_selector == st.in_selector
                &&& in_key == st.in_key
                &&& in_comment == st.in_comment
                &&& selector@ == st.selector
                &&& comment@ == st.comment
                &&& key@ == st.key
                &&& value@ == st.value
            }),
        decreases b - i,
    {
        let ghost st = css_scan(css_init(), s.take(i - a));
        let c: char = chars[i];
        proof {
            assert(s[i - a] == chars@[i as int]);
            assert(s.take(i + 1 - a) =~= s.take(i - a).push(c));
            lemma_css_scan_snoc(css_init(), s.take(i - a), c);
        }
        let ghost st2 = css_step(st, c);
        if in_comment {
            comment.push(c);
            if buf_ends_with2(&comment, '*', '/') {
                in_comment = false;
                comment = Vec::new();
                proof {
                    assert(comment@ =~= st2.comment);
                }
            }
        } else if in_selector {
            if buf_ends_with2(&selector, '/', '*') {
                in_comment = true;
                let l: usize = selector.len();
                selector.truncate(l - 2);
                proof {
                    assert(selector@ =~= st2.selector);
                }
            } else if c == '{' {
                in_selector = false;
                in_key = true;
            } else {
                selector.push(c);
            }
        } else if in_key {
            if buf_ends_with2(&key, '/', '*') {
                in_comment = true;
                let l: usize = key.len();
                key.truncate(l - 2);
                proof {
                    assert(key@ =~= st2.key);
                }
            } else if c == ':' {
                in_key = false;
            } else if c == '}' {
                let sel: String = crate::strutil::trimmed_string(&selector, 0, selector.len());
                proof {
                    assert(selector@.subrange(0, selector@.len() as int) =~= selector@);
                }
                let block: Vec<(String, String)> = params;
                rules.push((sel, block));
                params = Vec::new();
                selector = Vec::new();
                in_selector = true;
                proof {
                    assert(rules_view(rules@) =~= st2.rules);
                    assert(pairs_view(params@) =~= st2.params);
                    assert(selector@ =~= st2.selector);
                }
            } else {
                key.push(c);
            }
        } else {
            if buf_ends_with2(&value, '/', '*') {
                in_comment = true;
                let l: usize = value.len();
                value.truncate(l - 2);
                proof {
                    assert(value@ =~= st2.value);
                }
            } else if c == ';' {
                in_key = true;
                let k: String = crate::strutil::trimmed_string(&key, 0, key.len());
                let v: String = crate::strutil::trimmed_string(&value, 0, value.len());
                proof {
                    assert(key@.subrange(0, key@.len() as int) =~= key@);
                    assert(value@.subrange(0, value@.len() as int) =~= value@);
                }
                params.push((k, v));
                key = Vec::new();
                value = Vec::new();
                proof {
                    assert(pairs_view(params@) =~= st2.params);
                }
            } else {
                value.push(c);
            }
        }
        i = i + 1;
    }
    proof {
        assert(s.take(b - a) =~= s);
    }
    rules
}

} // verus!
