//! The cascade resolver: selector matching against the tree and the
//! per-node resolution of the computed style map.
//!
//! Resolution order per element, each step overwriting already-set
//! properties with the same key: default declarations for the tag,
//! style-sheet rules whose selector matches (in file order), and inline
//! declarations from the `style` attribute.  After a node resolves, the
//! properties in the inherited set flow down to its subtree before each
//! child resolves, so a child's own declarations still win.

use vstd::prelude::*;

use crate::css::pairs_view;
use crate::html::Node;
use crate::html::NodeType;
use crate::html::node_view;
use crate::strutil::spec_trim;
use crate::strutil::split_char;
use crate::stylemap::StyleMap;
use crate::stylemap::map_lookup;
use crate::strutil::str_eq;

verus! {

/// The read-only configuration the resolver works against: the default
/// per-tag declaration table, the inherited property names, the named
/// color table, and the root font size in pixels.
pub struct Config {
    /// tag name -> `key:value;...` declaration text
    pub default_css: Vec<(String, String)>,
    /// property names copied into a node's subtree
    pub inherited: Vec<String>,
    /// color name -> `#rrggbb`
    pub colors: Vec<(String, String)>,
    /// root font size in pixels; the `em` base and text default
    pub font_size: i32,
}

/// The view of a list of `String` names.
pub open spec fn names_view(v: Seq<String>) -> Seq<Seq<char>> {
    v.map_values(|p: String| p@)
}

/// The value of the first entry with key `k`, searching from the front;
/// configuration tables resolve by first match.
pub open spec fn assoc_first(s: Seq<(Seq<char>, Seq<char>)>, k: Seq<char>) -> Option<Seq<char>>
    decreases s.len(),
{
    if s.len() == 0 {
        None
    } else if s[0].0 == k {
        Some(s[0].1)
    } else {
        assoc_first(s.drop_first(), k)
    }
}

/// Find the first entry with the given key in an association list.
pub fn assoc_find<'a>(table: &'a Vec<(String, String)>, key: &str) -> (r: Option<&'a String>)
    ensures
        match r {
            Some(v) => assoc_first(pairs_view(table@), key@) == Some(v@),
            None => assoc_first(pairs_view(table@), key@) is None,
        },
{
    let n: usize = table.len();
    let mut i: usize = 0;
    proof {
        assert(pairs_view(table@).skip(0) =~= pairs_view(table@));
    }
    while i < n
        invariant
            i <= n,
            n == table@.len(),
            assoc_first(pairs_view(table@), key@) == assoc_first(
                pairs_view(table@).skip(i as int),
                key@,
            ),
        decreases n - i,
    {
        proof {
            assert(pairs_view(table@).skip(i as int)[0] == (table@[i as int].0@, table@[
                i as int
            ].1@));
            assert(pairs_view(table@).skip(i as int).drop_first() =~= pairs_view(table@).skip(
                i + 1,
            ));
        }
        if str_eq(table[i].0.as_str(), key) {
            return Some(&table[i].1);
        }
        i = i + 1;
    }
    proof {
        assert(pairs_view(table@).skip(n as int) =~= Seq::<(Seq<char>, Seq<char>)>::empty());
    }
    None
}

/// The (key, value) pairs a `key:value;...` declaration text denotes:
/// pieces are split at `;`, and a piece splits at `:` into exactly one
/// key and one value (both trimmed) or is silently dropped.
pub open spec fn decl_pairs(pieces: Seq<Seq<char>>) -> Seq<(Seq<char>, Seq<char>)>
    decreases pieces.len(),
{
    if pieces.len() == 0 {
        Seq::empty()
    } else {
        let sub = split_char(pieces[0], ':');
        let rest = decl_pairs(pieces.drop_first());
        if sub.len() == 2 {
            seq![(spec_trim(sub[0]), spec_trim(sub[1]))] + rest
        } else {
            rest
        }
    }
}

/// The declarations of a `key:value;...` text.
pub open spec fn decls_of(s: Seq<char>) -> Seq<(Seq<char>, Seq<char>)> {
    decl_pairs(split_char(s, ';'))
}

proof fn lemma_decl_pairs_snoc(pieces: Seq<Seq<char>>, w: Seq<char>)
    ensures
        decl_pairs(pieces.push(w)) == decl_pairs(pieces) + ({
            let sub = split_char(w, ':');
            if sub.len() == 2 {
                seq![(spec_trim(sub[0]), spec_trim(sub[1]))]
            } else {
                Seq::<(Seq<char>, Seq<char>)>::empty()
            }
        }),
    decreases pieces.len(),
{
    let ghost tail = ({
        let sub = split_char(w, ':');
        if sub.len() == 2 {
            seq![(spec_trim(sub[0]), spec_trim(sub[1]))]
        } else {
            Seq::<(Seq<char>, Seq<char>)>::empty()
        }
    });
    if pieces.len() == 0 {
        assert(pieces.push(w)[0] == w);
        assert(pieces.push(w).drop_first() =~= Seq::<Seq<char>>::empty());
        assert(decl_pairs(Seq::<Seq<char>>::empty()) =~= Seq::<(Seq<char>, Seq<char>)>::empty());
        assert(decl_pairs(pieces.push(w)) =~= decl_pairs(pieces) + tail);
    } else {
        assert(pieces.push(w)[0] == pieces[0]);
        assert(pieces.push(w).drop_first() =~= pieces.drop_first().push(w));
        lemma_decl_pairs_snoc(pieces.drop_first(), w);
        assert(decl_pairs(pieces.push(w)) =~= decl_pairs(pieces) + tail);
    }
}

/// Parse a `key:value;...` declaration text into its (key, value)
/// pairs, in order.
pub fn parse_decls(s: &str) -> (r: Vec<(String, String)>)
    ensures
        pairs_view(r@) == decls_of(s@),
{
    let chars: Vec<char> = crate::strutil::chars_of(s);
    let pieces: Vec<String> = crate::strutil::split_buf(&chars, 0, chars.len(), ';');
    proof {
        assert(chars@.subrange(0, chars@.len() as int) =~= chars@);
    }
    let ghost pv = pieces@.map_values(|p: String| p@);
    let mut r: Vec<(String, String)> = Vec::new();
    let n: usize = pieces.len();
    let mut i: usize = 0;
    proof {
        assert(pv.take(0) =~= Seq::<Seq<char>>::empty());
        assert(decl_pairs(pv.take(0)) =~= Seq::<(Seq<char>, Seq<char>)>::empty());
        assert(pairs_view(r@) =~= Seq::<(Seq<char>, Seq<char>)>::empty());
    }
    while i < n
        invariant
            i <= n,
            n == pieces@.len(),
            pv == pieces@.map_values(|p: String| p@),
            pairs_view(r@) == decl_pairs(pv.take(i as int)),
        decreases n - i,
    {
        let pc: Vec<char> = crate::strutil::chars_of(pieces[i].as_str());
        let sub: Vec<String> = crate::strutil::split_buf(&pc, 0, pc.len(), ':');
        proof {
            assert(pc@.subrange(0, pc@.len() as int) =~= pc@);
            assert(pv.take(i + 1) =~= pv.take(i as int).push(pv[i as int]));
            lemma_decl_pairs_snoc(pv.take(i as int), pv[i as int]);
        }
        if sub.len() == 2 {
            let kc: Vec<char> = crate::strutil::chars_of(sub[0].as_str());
            let vc: Vec<char> = crate::strutil::chars_of(sub[1].as_str());
            let key: String = crate::strutil::trimmed_string(&kc, 0, kc.len());
            let val: String = crate::strutil::trimmed_string(&vc, 0, vc.len());
            proof {
                assert(kc@.subrange(0, kc@.len() as int) =~= kc@);
                assert(vc@.subrange(0, vc@.len() as int) =~= vc@);
                assert(sub@.map_values(|p: String| p@)[0] == sub@[0]@);
                assert(sub@.map_values(|p: String| p@)[1] == sub@[1]@);
            }
            let ghost prev = pairs_view(r@);
            r.push((key, val));
            proof {
                assert(pairs_view(r@) =~= prev.push((key@, val@)));
                assert(prev.push((key@, val@)) =~= prev + seq![(key@, val@)]);
            }
        } else {
            proof {
                assert(sub@.map_values(|p: String| p@).len() == sub@.len());
            }
        }
        i = i + 1;
    }
    proof {
        assert(pv.take(n as int) =~= pv);
    }
    r
}

/// Whether a single selector token matches an element: `*` matches any
/// element, `.name` matches exactly the element's `class` attribute,
/// `#name` matches exactly its `id` attribute, and any other token
/// matches the tag name.  Class matching is literal equality of the
/// whole attribute value, not a space-separated multi-class match.
pub open spec fn basic_matches(
    tag: Seq<char>,
    attrs: Seq<(Seq<char>, Seq<char>)>,
    sel: Seq<char>,
) -> bool {
    if sel == "*"@ {
        true
    } else if sel.len() > 0 && sel[0] == '.' {
        map_lookup(attrs, "class"@) == Some(sel.skip(1))
    } else if sel.len() > 0 && sel[0] == '#' {
        map_lookup(attrs, "id"@) == Some(sel.skip(1))
    } else {
        sel == tag
    }
}

/// Whether a single selector token applies to an element with the given
/// tag name and attributes.  A `.name` token matches if and only if the
/// element's `class` attribute equals `name` exactly.
pub fn basic_selector_applies(tag: &str, attrs: &StyleMap, selector: &str) -> (r: bool)
    ensures
        r == basic_matches(tag@, attrs@, selector@),
{
    if str_eq(selector, "*") {
        return true;
    }
    let sc: Vec<char> = crate::strutil::chars_of(selector);
    let n: usize = sc.len();
    if n > 0 && sc[0] == '.' {
        let rest: String = crate::strutil::string_range(&sc, 1, n);
        proof {
            assert(sc@.subrange(1, n as int) =~= selector@.skip(1));
        }
        match attrs.get("class") {
            Some(v) => str_eq(v.as_str(), rest.as_str()),
            None => false,
        }
    } else if n > 0 && sc[0] == '#' {
        let rest: String = crate::strutil::string_range(&sc, 1, n);
        proof {
            assert(sc@.subrange(1, n as int) =~= selector@.skip(1));
        }
        match attrs.get("id") {
            Some(v) => str_eq(v.as_str(), rest.as_str()),
            None => false,
        }
    } else {
        str_eq(selector, tag)
    }
}

/// The view of an ancestor chain: each element's tag name and
/// attributes, outermost first, the element itself last.
pub open spec fn chain_view(v: Seq<(String, StyleMap)>) -> Seq<
    (Seq<char>, Seq<(Seq<char>, Seq<char>)>),
> {
    v.map_values(|p: (String, StyleMap)| (p.0@, p.1@))
}

/// The nearest position at or below `pos` whose element matches the
/// token, scanning upward (toward position 0), or -1 when none does.
pub open spec fn scan_up(
    chain: Seq<(Seq<char>, Seq<(Seq<char>, Seq<char>)>)>,
    sel: Seq<char>,
    pos: int,
) -> int
    decreases pos + 1,
{
    if pos < 0 || pos >= chain.len() {
        -1
    } else if basic_matches(chain[pos].0, chain[pos].1, sel) {
        pos
    } else {
        scan_up(chain, sel, pos - 1)
    }
}

/// Whether the remaining tokens (innermost first) each match some
/// position, scanning upward from the current match position.  Once a
/// token commits to a match position, an outer token that fails cannot
/// retry at a different position.
pub open spec fn tokens_match(
    chain: Seq<(Seq<char>, Seq<(Seq<char>, Seq<char>)>)>,
    tokens: Seq<Seq<char>>,
    pos: int,
) -> bool
    decreases tokens.len(),
{
    if tokens.len() == 0 {
        true
    } else {
        let p = scan_up(chain, tokens[0], pos);
        p >= 0 && tokens_match(chain, tokens.drop_first(), p)
    }
}

/// Whether a whitespace-separated descendant selector applies to the
/// last element of the chain: the last token must match the element
/// itself, and each remaining token, from innermost to outermost, must
/// match some position found by scanning upward from the current match
/// position (that scan starts at the current position itself).
pub open spec fn spec_selector_applies(
    chain: Seq<(Seq<char>, Seq<(Seq<char>, Seq<char>)>)>,
    selector: Seq<char>,
) -> bool {
    let tokens = split_char(selector, ' ');
    &&& chain.len() > 0
    &&& basic_matches(chain.last().0, chain.last().1, tokens.last())
    &&& tokens_match(chain, tokens.drop_last().reverse(), chain.len() - 1)
}

/// The scan-up loop over the chain.
fn scan_up_exec(chain: &Vec<(String, StyleMap)>, sel: &str, pos: usize) -> (r: Option<usize>)
    requires
        pos < chain@.len(),
    ensures
        match r {
            Some(p) => scan_up(chain_view(chain@), sel@, pos as int) == p && p < chain@.len(),
            None => scan_up(chain_view(chain@), sel@, pos as int) == -1,
        },
{
    let ghost cv = chain_view(chain@);
    let mut p: usize = pos;
    loop
        invariant
            p <= pos < chain@.len(),
            cv == chain_view(chain@),
            scan_up(cv, sel@, pos as int) == scan_up(cv, sel@, p as int),
        decreases p,
    {
        proof {
            assert(cv[p as int] == (chain@[p as int].0@, chain@[p as int].1@));
        }
        if basic_selector_applies(chain[p].0.as_str(), &chain[p].1, sel) {
            return Some(p);
        }
        if p == 0 {
            proof {
                assert(scan_up(cv, sel@, -1) == -1);
                assert(scan_up(cv, sel@, 0) == -1);
            }
            return None;
        }
        p = p - 1;
    }
}

/// Whether the descendant selector applies to the last element of the
/// chain.
pub fn selector_applies(chain: &Vec<(String, StyleMap)>, selector: &str) -> (r: bool)
    ensures
        r == spec_selector_applies(chain_view(chain@), selector@),
{
    let ghost cv = chain_view(chain@);
    let sc: Vec<char> = crate::strutil::chars_of(selector);
    let tokens: Vec<String> = crate::strutil::split_buf(&sc, 0, sc.len(), ' ');
    let ghost tv = tokens@.map_values(|p: String| p@);
    proof {
        assert(sc@.subrange(0, sc@.len() as int) =~= sc@);
        assert(tv.len() > 0);
    }
    let m: usize = chain.len();
    if m == 0 {
        return false;
    }
    let nt: usize = tokens.len();
    proof {
        assert(cv[m - 1] == (chain@[m - 1].0@, chain@[m - 1].1@));
        assert(chain_view(chain@).len() == chain@.len());
        assert(tv[nt - 1] == tokens@[nt - 1]@);
    }
    if !basic_selector_applies(chain[m - 1].0.as_str(), &chain[m - 1].1, tokens[nt - 1].as_str()) {
        return false;
    }
    let ghost rtokens = tv.drop_last().reverse();
    let mut pos: usize = m - 1;
    let mut t: usize = nt - 1;
    proof {
        assert(rtokens.skip(rtokens.len() as int) =~= Seq::<Seq<char>>::empty());
        assert(rtokens.skip(0) =~= rtokens);
    }
    while t > 0
        invariant
            t <= nt - 1,
            nt == tokens@.len(),
            m == chain@.len(),
            pos < m,
            cv == chain_view(chain@),
            tv == tokens@.map_values(|p: String| p@),
            rtokens == tv.drop_last().reverse(),
            spec_selector_applies(cv, selector@) == tokens_match(
                cv,
                rtokens.skip(nt - 1 - t),
                pos as int,
            ),
        decreases t,
    {
        let ghost k = nt - 1 - t;
        proof {
            assert(rtokens.len() == nt - 1);
            assert(rtokens[k as int] == tv.drop_last()[nt - 2 - k]);
            assert(tv.drop_last()[nt - 2 - k] == tv[t - 1]);
            assert(tv[t - 1] == tokens@[t - 1]@);
            assert(rtokens.skip(k as int)[0] == rtokens[k as int]);
            assert(rtokens.skip(k as int).drop_first() =~= rtokens.skip(k + 1));
        }
        match scan_up_exec(chain, tokens[t - 1].as_str(), pos) {
            Some(p) => {
                pos = p;
            },
            None => {
                return false;
            },
        }
        t = t - 1;
    }
    true
}

/// The properties of every rule whose selector applies to the chain, in
/// file order.
pub open spec fn rules_props(
    chain: Seq<(Seq<char>, Seq<(Seq<char>, Seq<char>)>)>,
    rules: Seq<(Seq<char>, Seq<(Seq<char>, Seq<char>)>)>,
) -> Seq<(Seq<char>, Seq<char>)>
    decreases rules.len(),
{
    if rules.len() == 0 {
        Seq::empty()
    } else {
        let head = if spec_selector_applies(chain, rules[0].0) {
            rules[0].1
        } else {
            Seq::empty()
        };
        head + rules_props(chain, rules.drop_first())
    }
}

/// The resolved style entries of an element: the inherited environment,
/// then the default declarations for its tag, then the properties of
/// every matching rule in file order, then the inline declarations of
/// its `style` attribute.  A later entry for a key overwrites an
/// earlier one.
pub open spec fn resolved_style(
    env: Seq<(Seq<char>, Seq<char>)>,
    tag: Seq<char>,
    attrs: Seq<(Seq<char>, Seq<char>)>,
    chain: Seq<(Seq<char>, Seq<(Seq<char>, Seq<char>)>)>,
    rules: Seq<(Seq<char>, Seq<(Seq<char>, Seq<char>)>)>,
    defaults: Seq<(Seq<char>, Seq<char>)>,
) -> Seq<(Seq<char>, Seq<char>)> {
    let d = match assoc_first(defaults, tag) {
        Some(t) => decls_of(t),
        None => Seq::empty(),
    };
    let m = rules_props(chain, rules);
    let inl = match map_lookup(attrs, "style"@) {
        Some(sty) => decls_of(sty),
        None => Seq::empty(),
    };
    env + d + m + inl
}

/// The environment a resolved style hands to its subtree: the value of
/// each inherited property that the style holds, in the order of the
/// inherited-property list.
pub open spec fn inherit_env(
    style: Seq<(Seq<char>, Seq<char>)>,
    inherited: Seq<Seq<char>>,
) -> Seq<(Seq<char>, Seq<char>)>
    decreases inherited.len(),
{
    if inherited.len() == 0 {
        Seq::empty()
    } else {
        let head = match map_lookup(style, inherited[0]) {
            Some(v) => seq![(inherited[0], v)],
            None => Seq::<(Seq<char>, Seq<char>)>::empty(),
        };
        head + inherit_env(style, inherited.drop_first())
    }
}

/// The resolved tree: each element's computed style map is its resolved
/// style; a text node's computed style map is the inherited environment
/// it received; a document node only recurses.
pub open spec fn spec_apply(
    n: crate::html::SNode,
    env: Seq<(Seq<char>, Seq<char>)>,
    chain: Seq<(Seq<char>, Seq<(Seq<char>, Seq<char>)>)>,
    rules: Seq<(Seq<char>, Seq<(Seq<char>, Seq<char>)>)>,
    defaults: Seq<(Seq<char>, Seq<char>)>,
    inherited: Seq<Seq<char>>,
) -> crate::html::SNode
    decreases n,
{
    match n.kind {
        crate::html::SNodeKind::Text(t) => crate::html::SNode {
            kind: crate::html::SNodeKind::Text(t),
            css: env,
        },
        crate::html::SNodeKind::Document(cs) => crate::html::SNode {
            kind: crate::html::SNodeKind::Document(
                spec_apply_seq(cs, env, chain, rules, defaults, inherited),
            ),
            css: n.css,
        },
        crate::html::SNodeKind::Container(tag, cs, attrs) => {
            let chain2 = chain.push((tag, attrs));
            let style = resolved_style(env, tag, attrs, chain2, rules, defaults);
            let env2 = inherit_env(style, inherited);
            crate::html::SNode {
                kind: crate::html::SNodeKind::Container(
                    tag,
                    spec_apply_seq(cs, env2, chain2, rules, defaults, inherited),
                    attrs,
                ),
                css: style,
            }
        },
    }
}

/// The resolved children, in order.
pub open spec fn spec_apply_seq(
    cs: Seq<crate::html::SNode>,
    env: Seq<(Seq<char>, Seq<char>)>,
    chain: Seq<(Seq<char>, Seq<(Seq<char>, Seq<char>)>)>,
    rules: Seq<(Seq<char>, Seq<(Seq<char>, Seq<char>)>)>,
    defaults: Seq<(Seq<char>, Seq<char>)>,
    inherited: Seq<Seq<char>>,
) -> Seq<crate::html::SNode>
    decreases cs,
{
    if cs.len() == 0 {
        Seq::empty()
    } else {
        seq![spec_apply(cs[0], env, chain, rules, defaults, inherited)] + spec_apply_seq(
            cs.drop_first(),
            env,
            chain,
            rules,
            defaults,
            inherited,
        )
    }
}

proof fn lemma_rules_props_take(
    chain: Seq<(Seq<char>, Seq<(Seq<char>, Seq<char>)>)>,
    rules: Seq<(Seq<char>, Seq<(Seq<char>, Seq<char>)>)>,
    i: int,
)
    requires
        0 <= i < rules.len(),
    ensures
        rules_props(chain, rules.take(i + 1)) == rules_props(chain, rules.take(i)) + (
        if spec_selector_applies(chain, rules[i].0) {
            rules[i].1
        } else {
            Seq::<(Seq<char>, Seq<char>)>::empty()
        }),
    decreases i,
{
    let a = rules.take(i + 1);
    let b = rules.take(i);
    if i == 0 {
        assert(a[0] == rules[0]);
        assert(a.drop_first() =~= Seq::<(Seq<char>, Seq<(Seq<char>, Seq<char>)>)>::empty());
        assert(b =~= Seq::<(Seq<char>, Seq<(Seq<char>, Seq<char>)>)>::empty());
        assert(rules_props(chain, a) =~= rules_props(chain, b) + (if spec_selector_applies(
            chain,
            rules[0].0,
        ) {
            rules[0].1
        } else {
            Seq::<(Seq<char>, Seq<char>)>::empty()
        }));
    } else {
        lemma_rules_props_take(chain, rules.drop_first(), i - 1);
        assert(a[0] == rules[0] && b[0] == rules[0]);
        assert(a.drop_first() =~= rules.drop_first().take(i));
        assert(b.drop_first() =~= rules.drop_first().take(i - 1));
        assert(rules.drop_first()[i - 1] == rules[i]);
        assert(rules_props(chain, a) =~= rules_props(chain, b) + (if spec_selector_applies(
            chain,
            rules[i].0,
        ) {
            rules[i].1
        } else {
            Seq::<(Seq<char>, Seq<char>)>::empty()
        }));
    }
}

proof fn lemma_inherit_env_take(
    style: Seq<(Seq<char>, Seq<char>)>,
    inherited: Seq<Seq<char>>,
    i: int,
)
    requires
        0 <= i < inherited.len(),
    ensures
        inherit_env(style, inherited.take(i + 1)) == inherit_env(style, inherited.take(i)) + (
        match map_lookup(style, inherited[i]) {
            Some(v) => seq![(inherited[i], v)],
            None => Seq::<(Seq<char>, Seq<char>)>::empty(),
        }),
    decreases i,
{
    let a = inherited.take(i + 1);
    let b = inherited.take(i);
    let tail = (match map_lookup(style, inherited[i]) {
        Some(v) => seq![(inherited[i], v)],
        None => Seq::<(Seq<char>, Seq<char>)>::empty(),
    });
    if i == 0 {
        assert(a[0] == inherited[0]);
        assert(a.drop_first() =~= Seq::<Seq<char>>::empty());
        assert(b =~= Seq::<Seq<char>>::empty());
        assert(inherit_env(style, a) =~= inherit_env(style, b) + tail);
    } else {
        lemma_inherit_env_take(style, inherited.drop_first(), i - 1);
        assert(a[0] == inherited[0] && b[0] == inherited[0]);
        assert(a.drop_first() =~= inherited.drop_first().take(i));
        assert(b.drop_first() =~= inherited.drop_first().take(i - 1));
        assert(inherited.drop_first()[i - 1] == inherited[i]);
        assert(inherit_env(style, a) =~= inherit_env(style, b) + tail);
    }
}

proof fn lemma_apply_seq_take(
    cs: Seq<crate::html::SNode>,
    env: Seq<(Seq<char>, Seq<char>)>,
    chain: Seq<(Seq<char>, Seq<(Seq<char>, Seq<char>)>)>,
    rules: Seq<(Seq<char>, Seq<(Seq<char>, Seq<char>)>)>,
    defaults: Seq<(Seq<char>, Seq<char>)>,
    inherited: Seq<Seq<char>>,
    i: int,
)
    requires
        0 <= i < cs.len(),
    ensures
        spec_apply_seq(cs.take(i + 1), env, chain, rules, defaults, inherited) == spec_apply_seq(
            cs.take(i),
            env,
            chain,
            rules,
            defaults,
            inherited,
        ).push(spec_apply(cs[i], env, chain, rules, defaults, inherited)),
    decreases i,
{
    let a = cs.take(i + 1);
    let b = cs.take(i);
    if i == 0 {
        assert(a[0] == cs[0]);
        assert(a.drop_first() =~= Seq::<crate::html::SNode>::empty());
        assert(b =~= Seq::<crate::html::SNode>::empty());
        assert(spec_apply_seq(a, env, chain, rules, defaults, inherited) =~= spec_apply_seq(
            b,
            env,
            chain,
            rules,
            defaults,
            inherited,
        ).push(spec_apply(cs[0], env, chain, rules, defaults, inherited)));
    } else {
        lemma_apply_seq_take(cs.drop_first(), env, chain, rules, defaults, inherited, i - 1);
        assert(a[0] == cs[0] && b[0] == cs[0]);
        assert(a.drop_first() =~= cs.drop_first().take(i));
        assert(b.drop_first() =~= cs.drop_first().take(i - 1));
        assert(cs.drop_first()[i - 1] == cs[i]);
        assert(spec_apply_seq(a, env, chain, rules, defaults, inherited) =~= spec_apply_seq(
            b,
            env,
            chain,
            rules,
            defaults,
            inherited,
        ).push(spec_apply(cs[i], env, chain, rules, defaults, inherited)));
    }
}

/// Append every (key, value) pair to the style map, in order.
fn insert_all(css: &mut StyleMap, pairs: &Vec<(String, String)>)
    ensures
        final(css)@ == old(css)@ + pairs_view(pairs@),
{
    let n: usize = pairs.len();
    let mut i: usize = 0;
    proof {
        assert(pairs_view(pairs@).take(0) =~= Seq::<(Seq<char>, Seq<char>)>::empty());
        assert(css@ + pairs_view(pairs@).take(0) =~= css@);
    }
    while i < n
        invariant
            i <= n,
            n == pairs@.len(),
            css@ == old(css)@ + pairs_view(pairs@).take(i as int),
        decreases n - i,
    {
        let k: String = pairs[i].0.clone();
        let v: String = pairs[i].1.clone();
        proof {
            assert(pairs_view(pairs@)[i as int] == (pairs@[i as int].0@, pairs@[i as int].1@));
        }
        css.insert(k, v);
        proof {
            assert(pairs_view(pairs@).take(i + 1) =~= pairs_view(pairs@).take(i as int).push(
                pairs_view(pairs@)[i as int],
            ));
            assert(old(css)@ + pairs_view(pairs@).take(i + 1) =~= (old(css)@ + pairs_view(
                pairs@,
            ).take(i as int)).push(pairs_view(pairs@)[i as int]));
        }
        i = i + 1;
    }
    proof {
        assert(pairs_view(pairs@).take(n as int) =~= pairs_view(pairs@));
    }
}

/// Resolve one element's style map against the configuration, the
/// matching rules and the inline declarations.  `chain` already ends
/// with the element itself.
fn resolve_style(
    rules: &Vec<(String, Vec<(String, String)>)>,
    tag: &str,
    attrs: &StyleMap,
    env: &StyleMap,
    chain: &Vec<(String, StyleMap)>,
    config: &Config,
) -> (r: StyleMap)
    ensures
        r@ == resolved_style(
            env@,
            tag@,
            attrs@,
            chain_view(chain@),
            crate::css::rules_view(rules@),
            pairs_view(config.default_css@),
        ),
{
    let ghost cv = chain_view(chain@);
    let ghost rv = crate::css::rules_view(rules@);
    let mut css: StyleMap = env.duplicate();

    // Default declarations for the tag.
    match assoc_find(&config.default_css, tag) {
        Some(d) => {
            let decls: Vec<(String, String)> = parse_decls(d.as_str());
            insert_all(&mut css, &decls);
        },
        None => {},
    }
    let ghost with_defaults = css@;

    // Style-sheet rules whose selector matches, in file order.
    let n: usize = rules.len();
    let mut i: usize = 0;
    proof {
        assert(rv.take(0) =~= Seq::<(Seq<char>, Seq<(Seq<char>, Seq<char>)>)>::empty());
        assert(rules_props(cv, rv.take(0)) =~= Seq::<(Seq<char>, Seq<char>)>::empty());
        assert(with_defaults + rules_props(cv, rv.take(0)) =~= with_defaults);
    }
    while i < n
        invariant
            i <= n,
            n == rules@.len(),
            cv == chain_view(chain@),
            rv == crate::css::rules_view(rules@),
            css@ == with_defaults + rules_props(cv, rv.take(i as int)),
        decreases n - i,
    {
        proof {
            assert(rv[i as int] == (rules@[i as int].0@, pairs_view(rules@[i as int].1@)));
            lemma_rules_props_take(cv, rv, i as int);
        }
        if selector_applies(chain, rules[i].0.as_str()) {
            insert_all(&mut css, &rules[i].1);
        }
        proof {
            assert(rv.take(i + 1) =~= rv.take(i as int).push(rv[i as int]));
            assert(css@ =~= with_defaults + rules_props(cv, rv.take(i + 1)));
        }
        i = i + 1;
    }
    proof {
        assert(rv.take(n as int) =~= rv);
    }

    // Inline declarations from the `style` attribute, applied last.
    match attrs.get("style") {
        Some(sty) => {
            let decls: Vec<(String, String)> = parse_decls(sty.as_str());
            insert_all(&mut css, &decls);
        },
        None => {},
    }
    proof {
        assert(css@ =~= resolved_style(env@, tag@, attrs@, cv, rv, pairs_view(
            config.default_css@,
        )));
    }
    css
}

/// The environment for a subtree: the resolved values of the inherited
/// properties.
fn inherit_of(style: &StyleMap, inherited: &Vec<String>) -> (r: StyleMap)
    ensures
        r@ == inherit_env(style@, names_view(inherited@)),
{
    let ghost iv = names_view(inherited@);
    let mut env: StyleMap = StyleMap::new();
    let n: usize = inherited.len();
    let mut i: usize = 0;
    proof {
        assert(iv.take(0) =~= Seq::<Seq<char>>::empty());
        assert(inherit_env(style@, iv.take(0)) =~= Seq::<(Seq<char>, Seq<char>)>::empty());
    }
    while i < n
        invariant
            i <= n,
            n == inherited@.len(),
            iv == names_view(inherited@),
            env@ == inherit_env(style@, iv.take(i as int)),
        decreases n - i,
    {
        proof {
            assert(iv[i as int] == inherited@[i as int]@);
            lemma_inherit_env_take(style@, iv, i as int);
            assert(iv.take(i + 1) =~= iv.take(i as int).push(iv[i as int]));
        }
        match style.get(inherited[i].as_str()) {
            Some(v) => {
                let k: String = inherited[i].clone();
                let val: String = v.clone();
                env.insert(k, val);
            },
            None => {},
        }
        i = i + 1;
    }
    proof {
        assert(iv.take(n as int) =~= iv);
    }
    env
}

/// Resolve one node and its subtree.
#[verifier::loop_isolation(false)]
fn apply_node(
    rules: &Vec<(String, Vec<(String, String)>)>,
    node: Node,
    env: &StyleMap,
    chain: &mut Vec<(String, StyleMap)>,
    config: &Config,
) -> (r: Node)
    ensures
        final(chain)@ == old(chain)@,
        node_view(r) == spec_apply(
            node_view(node),
            env@,
            chain_view(old(chain)@),
            crate::css::rules_view(rules@),
            pairs_view(config.default_css@),
            names_view(config.inherited@),
        ),
    decreases node,
{
    let ghost rv = crate::css::rules_view(rules@);
    let ghost dv = pairs_view(config.default_css@);
    let ghost iv = names_view(config.inherited@);
    let ghost cv = chain_view(chain@);
    let ghost nv = node_view(node);
    let ghost node0 = node;
    match node.node_type {
        NodeType::Text(t) => {
            let css: StyleMap = env.duplicate();
            Node { node_type: NodeType::Text(t), css }
        },
        NodeType::Document(mut children) => {
            let ghost children0 = children;
            let ghost orig = children@;
            let ghost sv = crate::html::nodes_view(orig);
            let mut new_children: Vec<Node> = Vec::new();
            let ghost k0: int = 0;
            proof {
                crate::html::lemma_nodes_view_len(orig);
                assert(sv.take(0) =~= Seq::<crate::html::SNode>::empty());
                assert(spec_apply_seq(sv.take(0), env@, cv, rv, dv, iv) =~= Seq::<
                    crate::html::SNode,
                >::empty());
                assert(crate::html::nodes_view(new_children@) =~= Seq::<
                    crate::html::SNode,
                >::empty());
                assert(children@ =~= orig.skip(0));
            }
            while children.len() > 0
                invariant
                    chain@ == old(chain)@,
                    cv == chain_view(chain@),
                    sv == crate::html::nodes_view(orig),
                    children0@ == orig,
                    node0.node_type matches NodeType::Document(cs) && cs == children0,
                    children@.len() <= orig.len(),
                    children@ == orig.skip(orig.len() - children@.len()),
                    crate::html::nodes_view(new_children@) == spec_apply_seq(
                        sv.take(orig.len() - children@.len()),
                        env@,
                        cv,
                        rv,
                        dv,
                        iv,
                    ),
                    rv == crate::css::rules_view(rules@),
                    dv == pairs_view(config.default_css@),
                    iv == names_view(config.inherited@),
                decreases children@.len(),
            {
                let ghost k = orig.len() - children@.len();
                let ghost cvec0 = children;
                let child: Node = children.remove(0);
                proof {
                    crate::html::lemma_nodes_view_len(orig);
                    assert(0 <= k);
                    assert(k < orig.len());
                    assert(sv.len() == orig.len());
                    assert(cvec0@ == orig.skip(k));
                    assert(child == orig[k]);
                    assert(children@ =~= orig.skip(k + 1));
                    crate::html::lemma_nodes_view_index(orig, k);
                    lemma_apply_seq_take(sv, env@, cv, rv, dv, iv, k);
                    assert(decreases_to!(node0 => children0));
                    assert(decreases_to!(children0 => child));
                }
                let done: Node = apply_node(rules, child, env, chain, config);
                let ghost pre = new_children@;
                new_children.push(done);
                proof {
                    crate::html::lemma_nodes_view_push(pre, done);
                    assert(sv.take(k + 1) =~= sv.take(k).push(sv[k]));
                }
            }
            proof {
                assert(sv.take(orig.len() as int) =~= sv);
            }
            Node { node_type: NodeType::Document(new_children), css: node.css }
        },
        NodeType::Container(tag, mut children, attrs) => {
            let ghost children0 = children;
            let tag2: String = tag.clone();
            let attrs2: StyleMap = attrs.duplicate();
            let ghost pre_chain = chain@;
            chain.push((tag2, attrs2));
            let ghost pushed = chain@;
            let ghost cv2 = chain_view(chain@);
            proof {
                assert(cv2 =~= cv.push((tag@, attrs@)));
            }
            let style: StyleMap = resolve_style(rules, tag.as_str(), &attrs, env, chain, config);
            let env2: StyleMap = inherit_of(&style, &config.inherited);
            let ghost orig = children@;
            let ghost sv = crate::html::nodes_view(orig);
            let mut new_children: Vec<Node> = Vec::new();
            proof {
                crate::html::lemma_nodes_view_len(orig);
                assert(sv.take(0) =~= Seq::<crate::html::SNode>::empty());
                assert(spec_apply_seq(sv.take(0), env2@, cv2, rv, dv, iv) =~= Seq::<
                    crate::html::SNode,
                >::empty());
                assert(crate::html::nodes_view(new_children@) =~= Seq::<
                    crate::html::SNode,
                >::empty());
                assert(children@ =~= orig.skip(0));
            }
            while children.len() > 0
                invariant
                    chain@ == pushed,
                    chain_view(chain@) == cv2,
                    sv == crate::html::nodes_view(orig),
                    children0@ == orig,
                    (node0.node_type matches NodeType::Container(t, cs, a) && cs == children0),
                    children@.len() <= orig.len(),
                    children@ == orig.skip(orig.len() - children@.len()),
                    crate::html::nodes_view(new_children@) == spec_apply_seq(
                        sv.take(orig.len() - children@.len()),
                        env2@,
                        cv2,
                        rv,
                        dv,
                        iv,
                    ),
                    rv == crate::css::rules_view(rules@),
                    dv == pairs_view(config.default_css@),
                    iv == names_view(config.inherited@),
                decreases children@.len(),
            {
                let ghost k = orig.len() - children@.len();
                let ghost cvec0 = children;
                let child: Node = children.remove(0);
                proof {
                    crate::html::lemma_nodes_view_len(orig);
                    assert(child == orig[k]);
                    assert(children@ =~= orig.skip(k + 1));
                    crate::html::lemma_nodes_view_index(orig, k);
                    lemma_apply_seq_take(sv, env2@, cv2, rv, dv, iv, k);
                    assert(decreases_to!(node0 => children0));
                    assert(decreases_to!(children0 => child));
                }
                let done: Node = apply_node(rules, child, &env2, chain, config);
                let ghost pre = new_children@;
                new_children.push(done);
                proof {
                    crate::html::lemma_nodes_view_push(pre, done);
                    assert(sv.take(k + 1) =~= sv.take(k).push(sv[k]));
                }
            }
            proof {
                assert(sv.take(orig.len() as int) =~= sv);
            }
            let _ = chain.pop();
            proof {
                assert(chain@ =~= pre_chain);
                assert(chain_view(chain@) =~= cv);
            }
            Node { node_type: NodeType::Container(tag, new_children, attrs), css: style }
        },
    }
}

pub proof fn lemma_lookup_append(a: Seq<(Seq<char>, Seq<char>)>, b: Seq<(Seq<char>, Seq<char>)>, k: Seq<char>)
    ensures
        map_lookup(a + b, k) == (match map_lookup(b, k) {
            Some(v) => Some(v),
            None => map_lookup(a, k),
        }),
    decreases b.len(),
{
    if b.len() == 0 {
        assert(a + b =~= a);
    } else {
        assert((a + b).last() == b.last());
        assert((a + b).drop_last() =~= a + b.drop_last());
        lemma_lookup_append(a, b.drop_last(), k);
    }
}

/// Cascade precedence, inline step: when the node's `style` attribute
/// declares a property, the resolved style holds exactly the inline
/// value, whatever the defaults, the matching rules and the inherited
/// environment say.
pub proof fn lemma_inline_beats_all(
    env: Seq<(Seq<char>, Seq<char>)>,
    tag: Seq<char>,
    attrs: Seq<(Seq<char>, Seq<char>)>,
    chain: Seq<(Seq<char>, Seq<(Seq<char>, Seq<char>)>)>,
    rules: Seq<(Seq<char>, Seq<(Seq<char>, Seq<char>)>)>,
    defaults: Seq<(Seq<char>, Seq<char>)>,
    sty: Seq<char>,
    k: Seq<char>,
)
    requires
        map_lookup(attrs, "style"@) == Some(sty),
        map_lookup(decls_of(sty), k) is Some,
    ensures
        map_lookup(resolved_style(env, tag, attrs, chain, rules, defaults), k) == map_lookup(
            decls_of(sty),
            k,
        ),
{
    let d = match assoc_first(defaults, tag) {
        Some(t) => decls_of(t),
        None => Seq::<(Seq<char>, Seq<char>)>::empty(),
    };
    let m = rules_props(chain, rules);
    lemma_lookup_append(env + d + m, decls_of(sty), k);
}

/// Cascade precedence, rule step: when no inline declaration covers a
/// property, a matching style-sheet rule's value wins over the
/// defaults and the inherited environment.
pub proof fn lemma_rule_beats_default(
    env: Seq<(Seq<char>, Seq<char>)>,
    tag: Seq<char>,
    attrs: Seq<(Seq<char>, Seq<char>)>,
    chain: Seq<(Seq<char>, Seq<(Seq<char>, Seq<char>)>)>,
    rules: Seq<(Seq<char>, Seq<(Seq<char>, Seq<char>)>)>,
    defaults: Seq<(Seq<char>, Seq<char>)>,
    k: Seq<char>,
)
    requires
        match map_lookup(attrs, "style"@) {
            Some(sty) => map_lookup(decls_of(sty), k) is None,
            None => true,
        },
        map_lookup(rules_props(chain, rules), k) is Some,
    ensures
        map_lookup(resolved_style(env, tag, attrs, chain, rules, defaults), k) == map_lookup(
            rules_props(chain, rules),
            k,
        ),
{
    let d = match assoc_first(defaults, tag) {
        Some(t) => decls_of(t),
        None => Seq::<(Seq<char>, Seq<char>)>::empty(),
    };
    let m = rules_props(chain, rules);
    let inl = match map_lookup(attrs, "style"@) {
        Some(sty) => decls_of(sty),
        None => Seq::<(Seq<char>, Seq<char>)>::empty(),
    };
    lemma_lookup_append(env + d + m, inl, k);
    lemma_lookup_append(env + d, m, k);
}

/// Inheritance then override: a property the element declares itself
/// (through its defaults, a matching rule, or inline) resolves the
/// same whatever environment its ancestors pushed down; the inherited
/// value never shadows the element's own declaration.
pub proof fn lemma_own_declaration_beats_inherited(
    env: Seq<(Seq<char>, Seq<char>)>,
    tag: Seq<char>,
    attrs: Seq<(Seq<char>, Seq<char>)>,
    chain: Seq<(Seq<char>, Seq<(Seq<char>, Seq<char>)>)>,
    rules: Seq<(Seq<char>, Seq<(Seq<char>, Seq<char>)>)>,
    defaults: Seq<(Seq<char>, Seq<char>)>,
    k: Seq<char>,
)
    requires
        map_lookup(
            resolved_style(Seq::empty(), tag, attrs, chain, rules, defaults),
            k,
        ) is Some,
    ensures
        map_lookup(resolved_style(env, tag, attrs, chain, rules, defaults), k) == map_lookup(
            resolved_style(Seq::empty(), tag, attrs, chain, rules, defaults),
            k,
        ),
{
    let d = match assoc_first(defaults, tag) {
        Some(t) => decls_of(t),
        None => Seq::<(Seq<char>, Seq<char>)>::empty(),
    };
    let m = rules_props(chain, rules);
    let inl = match map_lookup(attrs, "style"@) {
        Some(sty) => decls_of(sty),
        None => Seq::<(Seq<char>, Seq<char>)>::empty(),
    };
    let own = d + m + inl;
    assert(Seq::<(Seq<char>, Seq<char>)>::empty() + d =~= d);
    assert(env + d + m + inl =~= env + own) by {
        assert(env + d + m + inl =~= (env) + ((d + m) + inl));
        assert((d + m) + inl =~= d + m + inl);
        assert(own =~= d + m + inl);
    }
    assert(d + m + inl =~= own);
    lemma_lookup_append(env, own, k);
    lemma_lookup_append(Seq::empty(), own, k);
    assert(Seq::<(Seq<char>, Seq<char>)>::empty() + own =~= own);
}

/// A class token matches by literal equality of the whole `class`
/// attribute value: `.name` matches exactly the elements whose class
/// attribute equals `name`, never a space-separated multi-class list.
pub proof fn lemma_class_selector_literal(
    tag: Seq<char>,
    attrs: Seq<(Seq<char>, Seq<char>)>,
    name: Seq<char>,
)
    ensures
        basic_matches(tag, attrs, seq!['.'] + name) == (map_lookup(attrs, "class"@) == Some(name)),
{
    let sel = seq!['.'] + name;
    reveal_strlit("*");
    assert(("*"@).len() == 1 && ("*"@)[0] == '*');
    assert(sel[0] == '.');
    assert(sel != "*"@);
    assert(sel.skip(1) =~= name);
}

/// Resolve the computed style map of every node in the tree: each
/// element receives its defaults, the matching style-sheet rules in
/// file order, and its inline declarations, in that order of
/// precedence, and pushes its inherited properties down to its subtree
/// before the subtree's own declarations resolve.
pub fn apply_css(
    rules: &Vec<(String, Vec<(String, String)>)>,
    node: Node,
    config: &Config,
) -> (r: Node)
    ensures
        node_view(r) == spec_apply(
            node_view(node),
            Seq::empty(),
            Seq::empty(),
            crate::css::rules_view(rules@),
            pairs_view(config.default_css@),
            names_view(config.inherited@),
        ),
{
    let env: StyleMap = StyleMap::new();
    let mut chain: Vec<(String, StyleMap)> = Vec::new();
    proof {
        assert(chain_view(chain@) =~= Seq::<(Seq<char>, Seq<(Seq<char>, Seq<char>)>)>::empty());
    }
    apply_node(rules, node, &env, &mut chain, config)
}

} // verus!
