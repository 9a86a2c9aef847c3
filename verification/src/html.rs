//! The markup document tree: a `Node` is a document root, a container
//! element with a tag name, attributes and children, or a text run.
//! Every node owns a computed style map, which stays empty until the
//! cascade resolver fills it.

use vstd::prelude::*;

use crate::strutil::find_char;
use crate::strutil::lemma_find_char_found;
use crate::strutil::lemma_find_char_missing;
use crate::stylemap::StyleMap;
use crate::strutil::str_eq;

verus! {

/// What a node is: a text run, a container element (tag name, children,
/// attribute map), or the document root.
pub enum NodeType {
    Text(String),
    Container(String, Vec<Node>, StyleMap),
    Document(Vec<Node>),
}

/// A node of the document tree, together with its computed style map.
pub struct Node {
    pub node_type: NodeType,
    pub css: StyleMap,
}

/// The mathematical mirror of a node: the same tree over character
/// sequences.  Contracts about trees are stated over this shape.
pub struct SNode {
    pub kind: SNodeKind,
    pub css: Seq<(Seq<char>, Seq<char>)>,
}

/// The mathematical mirror of `NodeType`.
pub enum SNodeKind {
    Text(Seq<char>),
    Container(Seq<char>, Seq<SNode>, Seq<(Seq<char>, Seq<char>)>),
    Document(Seq<SNode>),
}

/// The mathematical value of a node.
pub open spec fn node_view(n: Node) -> SNode
    decreases n,
{
    match n.node_type {
        NodeType::Text(t) => SNode { kind: SNodeKind::Text(t@), css: n.css@ },
        NodeType::Container(tag, children, attrs) => SNode {
            kind: SNodeKind::Container(tag@, nodes_view(children@), attrs@),
            css: n.css@,
        },
        NodeType::Document(children) => SNode {
            kind: SNodeKind::Document(nodes_view(children@)),
            css: n.css@,
        },
    }
}

/// The mathematical value of a node sequence.
pub open spec fn nodes_view(cs: Seq<Node>) -> Seq<SNode>
    decreases cs,
{
    if cs.len() == 0 {
        Seq::empty()
    } else {
        seq![node_view(cs[0])] + nodes_view(cs.drop_first())
    }
}

pub broadcast proof fn lemma_nodes_view_len(cs: Seq<Node>)
    ensures
        (#[trigger] nodes_view(cs)).len() == cs.len(),
    decreases cs,
{
    if cs.len() > 0 {
        lemma_nodes_view_len(cs.drop_first());
    }
}

pub broadcast proof fn lemma_nodes_view_index(cs: Seq<Node>, i: int)
    requires
        0 <= i < cs.len(),
    ensures
        #[trigger] nodes_view(cs)[i] == node_view(cs[i]),
    decreases cs,
{
    lemma_nodes_view_len(cs);
    if i > 0 {
        lemma_nodes_view_index(cs.drop_first(), i - 1);
    }
}

pub broadcast proof fn lemma_nodes_view_push(cs: Seq<Node>, n: Node)
    ensures
        #[trigger] nodes_view(cs.push(n)) == nodes_view(cs).push(node_view(n)),
    decreases cs,
{
    if cs.len() == 0 {
        assert(cs.push(n)[0] == n);
        assert(cs.push(n).drop_first() =~= Seq::<Node>::empty());
        assert(nodes_view(Seq::<Node>::empty()) =~= Seq::<SNode>::empty());
        assert(nodes_view(cs.push(n)) =~= nodes_view(cs).push(node_view(n)));
    } else {
        assert(cs.push(n)[0] == cs[0]);
        assert(cs.push(n).drop_first() =~= cs.drop_first().push(n));
        lemma_nodes_view_push(cs.drop_first(), n);
        assert(nodes_view(cs.push(n)) == seq![node_view(cs[0])] + nodes_view(
            cs.drop_first().push(n),
        ));
        assert(nodes_view(cs.push(n)) =~= nodes_view(cs).push(node_view(n)));
    }
}

/// All text-node content directly under the given nodes, concatenated.
pub open spec fn spec_direct_text(cs: Seq<Node>) -> Seq<char>
    decreases cs.len(),
{
    if cs.len() == 0 {
        Seq::empty()
    } else {
        let head = match cs[0].node_type {
            NodeType::Text(t) => t@,
            _ => Seq::empty(),
        };
        head + spec_direct_text(cs.drop_first())
    }
}

/// The style-sheet text a node contributes: the text content of every
/// `style` container, in document order.
pub open spec fn spec_find_css(n: Node) -> Seq<char>
    decreases n,
{
    match n.node_type {
        NodeType::Text(_) => Seq::empty(),
        NodeType::Document(children) => spec_find_css_seq(children@),
        NodeType::Container(tag, children, _attrs) => if tag@ == "style"@ {
            spec_direct_text(children@)
        } else {
            spec_find_css_seq(children@)
        },
    }
}

/// The style-sheet text contributed by a sequence of nodes.
pub open spec fn spec_find_css_seq(cs: Seq<Node>) -> Seq<char>
    decreases cs,
{
    if cs.len() == 0 {
        Seq::empty()
    } else {
        spec_find_css(cs[0]) + spec_find_css_seq(cs.drop_first())
    }
}

impl Node {
    /// The children of a document or container node.
    pub fn children(&self) -> (r: &Vec<Node>)
        requires
            !(self.node_type is Text),
        ensures
            match self.node_type {
                NodeType::Document(cs) => r == cs,
                NodeType::Container(_, cs, _) => r == cs,
                NodeType::Text(_) => false,
            },
    {
        match &self.node_type {
            NodeType::Document(children) => children,
            NodeType::Container(_, children, _) => children,
            NodeType::Text(_) => unreached(),
        }
    }

    /// Collect the style text of every `style` element in the subtree.
    pub fn find_css(&self) -> (r: String)
        ensures
            r@ == spec_find_css(*self),
        decreases *self,
    {
        let mut css: String = String::new();
        match &self.node_type {
            NodeType::Text(_) => {},
            NodeType::Document(children) => {
                css = find_css_children(children);
            },
            NodeType::Container(tag, children, _) => {
                if crate::strutil::str_eq(tag.as_str(), "style") {
                    css = direct_text(children);
                } else {
                    css = find_css_children(children);
                }
            },
        }
        css
    }
}

/// The concatenated text content of the text nodes among `children`.
fn direct_text(children: &Vec<Node>) -> (r: String)
    ensures
        r@ == spec_direct_text(children@),
{
    let mut out: String = String::new();
    let n: usize = children.len();
    let mut i: usize = 0;
    while i < n
        invariant
            i <= n,
            n == children@.len(),
            out@ == spec_direct_text(children@.take(i as int)),
        decreases n - i,
    {
        match &children[i].node_type {
            NodeType::Text(t) => {
                out.append(t.as_str());
            },
            _ => {},
        }
        proof {
            lemma_direct_text_take(children@, i as int);
        }
        i = i + 1;
    }
    proof {
        assert(children@.take(n as int) =~= children@);
    }
    out
}

/// The style text collected from a node list, in order.
fn find_css_children(children: &Vec<Node>) -> (r: String)
    ensures
        r@ == spec_find_css_seq(children@),
    decreases children@,
{
    let mut out: String = String::new();
    let n: usize = children.len();
    let mut i: usize = 0;
    while i < n
        invariant
            i <= n,
            n == children@.len(),
            out@ == spec_find_css_seq(children@.take(i as int)),
        decreases n - i,
    {
        let part: String = children[i].find_css();
        out.append(part.as_str());
        proof {
            lemma_find_css_seq_take(children@, i as int);
        }
        i = i + 1;
    }
    proof {
        assert(children@.take(n as int) =~= children@);
    }
    out
}

proof fn lemma_direct_text_take(cs: Seq<Node>, i: int)
    requires
        0 <= i < cs.len(),
    ensures
        spec_direct_text(cs.take(i + 1)) == spec_direct_text(cs.take(i)) + (match cs[i].node_type {
            NodeType::Text(t) => t@,
            _ => Seq::<char>::empty(),
        }),
    decreases i,
{
    let a = cs.take(i + 1);
    let b = cs.take(i);
    if i == 0 {
        assert(a.drop_first() =~= Seq::<Node>::empty());
        assert(b =~= Seq::<Node>::empty());
        assert(spec_direct_text(a.drop_first()) =~= Seq::<char>::empty());
        assert(spec_direct_text(a) =~= spec_direct_text(b) + (match cs[0].node_type {
            NodeType::Text(t) => t@,
            _ => Seq::<char>::empty(),
        }));
    } else {
        lemma_direct_text_take(cs.drop_first(), i - 1);
        assert(a.drop_first() =~= cs.drop_first().take(i));
        assert(b.drop_first() =~= cs.drop_first().take(i - 1));
        assert(cs.drop_first()[i - 1] == cs[i]);
        assert(a[0] == cs[0] && b[0] == cs[0]);
        assert(spec_direct_text(a) =~= spec_direct_text(b) + (match cs[i].node_type {
            NodeType::Text(t) => t@,
            _ => Seq::<char>::empty(),
        }));
    }
}

/// The fixed set of void tag names: elements that never expect a
/// matching close tag.
pub open spec fn is_void_tag(tag: Seq<char>) -> bool {
    ||| tag == "area"@
    ||| tag == "base"@
    ||| tag == "br"@
    ||| tag == "col"@
    ||| tag == "embed"@
    ||| tag == "hr"@
    ||| tag == "img"@
    ||| tag == "input"@
    ||| tag == "keygen"@
    ||| tag == "link"@
    ||| tag == "meta"@
    ||| tag == "param"@
    ||| tag == "source"@
    ||| tag == "track"@
    ||| tag == "wbr"@
}

/// Whether the tag names a void element.
pub fn is_empty_element(tag: &str) -> (r: bool)
    ensures
        r == is_void_tag(tag@),
{
    str_eq(tag, "area") || str_eq(tag, "base") || str_eq(tag, "br") || str_eq(tag, "col")
        || str_eq(tag, "embed") || str_eq(tag, "hr") || str_eq(tag, "img") || str_eq(tag, "input")
        || str_eq(tag, "keygen") || str_eq(tag, "link") || str_eq(tag, "meta") || str_eq(
        tag,
        "param",
    ) || str_eq(tag, "source") || str_eq(tag, "track") || str_eq(tag, "wbr")
}

/// Tokenizer state for the content of an open tag: the words split so
/// far, the word being collected, and the quoted-string sub-state.
pub struct TagScan {
    pub parts: Seq<Seq<char>>,
    pub word: Seq<char>,
    pub in_str: bool,
    pub str_char: char,
    pub ignore: bool,
}

/// The tokenizer state before any character is read.
pub open spec fn tag_init() -> TagScan {
    TagScan {
        parts: Seq::empty(),
        word: Seq::empty(),
        in_str: false,
        str_char: '"',
        ignore: false,
    }
}

/// One tokenizer step.  Outside a quoted string, a quote character
/// opens one and a space ends the current word; inside one, the
/// matching quote character closes it and a backslash escapes the
/// following character.  Quote characters and escaping backslashes do
/// not reach the word.
pub open spec fn tag_step(st: TagScan, c: char) -> TagScan {
    if st.in_str {
        if c == st.str_char && !st.ignore {
            TagScan { in_str: false, ignore: false, ..st }
        } else if c == '\\' && !st.ignore {
            TagScan { ignore: true, ..st }
        } else {
            TagScan { word: st.word.push(c), ignore: false, ..st }
        }
    } else {
        if c == '\'' || c == '"' {
            TagScan { in_str: true, str_char: c, ..st }
        } else if c == ' ' {
            TagScan { parts: st.parts.push(st.word), word: Seq::empty(), ..st }
        } else {
            TagScan { word: st.word.push(c), ..st }
        }
    }
}

/// The tokenizer folded over a character sequence.
pub open spec fn tag_scan(st: TagScan, s: Seq<char>) -> TagScan
    decreases s.len(),
{
    if s.len() == 0 {
        st
    } else {
        tag_scan(tag_step(st, s[0]), s.drop_first())
    }
}

/// The space-separated words of a tag's content, with quoting applied.
/// There is always at least one word; the first is the tag name.
pub open spec fn spec_split_tag(s: Seq<char>) -> Seq<Seq<char>> {
    let fin = tag_scan(tag_init(), s);
    fin.parts.push(fin.word)
}

/// The attribute entries of the words after the tag name: each word of
/// the form `key=value` becomes an entry (the value is everything after
/// the first `=`); a word without `=` is silently dropped.
pub open spec fn spec_attrs_of(parts: Seq<Seq<char>>) -> Seq<(Seq<char>, Seq<char>)>
    decreases parts.len(),
{
    if parts.len() == 0 {
        Seq::empty()
    } else {
        let head = parts[0];
        let rest = spec_attrs_of(parts.drop_first());
        let i = find_char(head, '=');
        if i >= 0 {
            seq![(head.take(i), head.skip(i + 1))] + rest
        } else {
            rest
        }
    }
}

/// The tag name and attribute map a tag's content denotes.
pub open spec fn spec_from_tag(s: Seq<char>) -> (Seq<char>, Seq<(Seq<char>, Seq<char>)>) {
    let parts = spec_split_tag(s);
    (parts[0], spec_attrs_of(parts.drop_first()))
}

proof fn lemma_tag_scan_snoc(st: TagScan, s: Seq<char>, c: char)
    ensures
        tag_scan(st, s.push(c)) == tag_step(tag_scan(st, s), c),
    decreases s.len(),
{
    if s.len() == 0 {
        assert(s.push(c)[0] == c);
        assert(s.push(c).drop_first() =~= Seq::<char>::empty());
        assert(tag_scan(tag_step(st, c), Seq::<char>::empty()) == tag_step(st, c));
    } else {
        assert(s.push(c)[0] == s[0]);
        assert(s.push(c).drop_first() =~= s.drop_first().push(c));
        lemma_tag_scan_snoc(tag_step(st, s[0]), s.drop_first(), c);
    }
}

proof fn lemma_attrs_of_snoc(parts: Seq<Seq<char>>, w: Seq<char>)
    ensures
        spec_attrs_of(parts.push(w)) == spec_attrs_of(parts) + (if find_char(w, '=') >= 0 {
            seq![(w.take(find_char(w, '=')), w.skip(find_char(w, '=') + 1))]
        } else {
            Seq::<(Seq<char>, Seq<char>)>::empty()
        }),
    decreases parts.len(),
{
    let tail = if find_char(w, '=') >= 0 {
        seq![(w.take(find_char(w, '=')), w.skip(find_char(w, '=') + 1))]
    } else {
        Seq::<(Seq<char>, Seq<char>)>::empty()
    };
    if parts.len() == 0 {
        assert(parts.push(w)[0] == w);
        assert(parts.push(w).drop_first() =~= Seq::<Seq<char>>::empty());
        assert(spec_attrs_of(Seq::<Seq<char>>::empty()) =~= Seq::<(Seq<char>, Seq<char>)>::empty());
        assert(spec_attrs_of(parts.push(w)) =~= spec_attrs_of(parts) + tail);
    } else {
        assert(parts.push(w)[0] == parts[0]);
        assert(parts.push(w).drop_first() =~= parts.drop_first().push(w));
        lemma_attrs_of_snoc(parts.drop_first(), w);
        let head = parts[0];
        let i = find_char(head, '=');
        if i >= 0 {
            assert(spec_attrs_of(parts.push(w)) == seq![(head.take(i), head.skip(i + 1))]
                + spec_attrs_of(parts.drop_first().push(w)));
            assert(spec_attrs_of(parts) == seq![(head.take(i), head.skip(i + 1))] + spec_attrs_of(
                parts.drop_first(),
            ));
        }
        assert(spec_attrs_of(parts.push(w)) =~= spec_attrs_of(parts) + tail);
    }
}

/// The first position of `=` in the vector, or its length when absent.
fn find_eq(v: &Vec<char>) -> (r: usize)
    ensures
        r <= v@.len(),
        r < v@.len() ==> v@[r as int] == '=',
        forall|j: int| 0 <= j < r ==> v@[j] != '=',
{
    let n: usize = v.len();
    let mut j: usize = 0;
    while j < n
        invariant
            j <= n,
            n == v@.len(),
            forall|l: int| 0 <= l < j ==> v@[l] != '=',
        decreases n - j,
    {
        if v[j] == '=' {
            return j;
        }
        j = j + 1;
    }
    n
}

/// Split a tag's content into the tag name and the attribute map.
pub fn from_tag(content: &Vec<char>) -> (r: (String, StyleMap))
    ensures
        (r.0@, r.1@) == spec_from_tag(content@),
{
    let mut parts: Vec<String> = Vec::new();
    let mut word: Vec<char> = Vec::new();
    let mut in_str: bool = false;
    let mut str_char: char = '"';
    let mut ignore: bool = false;
    let n: usize = content.len();
    let mut i: usize = 0;
    while i < n
        invariant
            i <= n,
            n == content@.len(),
            ({
                let st = tag_scan(tag_init(), content@.take(i as int));
                &&& parts@.map_values(|p: String| p@) == st.parts
                &&& word@ == st.word
                &&& in_str == st.in_str
                &&& str_char == st.str_char
                &&& ignore == st.ignore
            }),
        decreases n - i,
    {
        let ghost st = tag_scan(tag_init(), content@.take(i as int));
        let c: char = content[i];
        proof {
            assert(content@.take(i + 1) =~= content@.take(i as int).push(c));
            lemma_tag_scan_snoc(tag_init(), content@.take(i as int), c);
        }
        let ghost st2 = tag_step(st, c);
        if in_str {
            if c == str_char && !ignore {
                in_str = false;
                ignore = false;
            } else if c == '\\' && !ignore {
                ignore = true;
            } else {
                word.push(c);
                ignore = false;
            }
        } else {
            if c == '\'' || c == '"' {
                in_str = true;
                str_char = c;
            } else if c == ' ' {
                let w: String = crate::strutil::string_range(&word, 0, word.len());
                proof {
                    assert(word@.subrange(0, word@.len() as int) =~= word@);
                }
                parts.push(w);
                word = Vec::new();
                proof {
                    assert(parts@.map_values(|p: String| p@) =~= st2.parts);
                }
            } else {
                word.push(c);
            }
        }
        i = i + 1;
    }
    proof {
        assert(content@.take(n as int) =~= content@);
    }
    let ghost fin = tag_scan(tag_init(), content@);
    let last: String = crate::strutil::string_range(&word, 0, word.len());
    proof {
        assert(word@.subrange(0, word@.len() as int) =~= word@);
    }
    parts.push(last);
    let ghost words = parts@.map_values(|p: String| p@);
    proof {
        assert(words =~= fin.parts.push(fin.word));
        assert(words == spec_split_tag(content@));
    }

    // The first word is the tag name; the rest become attributes.
    let tag: String = parts[0].clone();
    let mut attrs = StyleMap::new();
    let m: usize = parts.len();
    let mut k: usize = 1;
    proof {
        assert(words.subrange(1, 1) =~= Seq::<Seq<char>>::empty());
    }
    while k < m
        invariant
            1 <= k <= m,
            m == parts@.len(),
            m >= 1,
            words == parts@.map_values(|p: String| p@),
            attrs@ == spec_attrs_of(words.subrange(1, k as int)),
        decreases m - k,
    {
        let part: &String = &parts[k];
        let pc: Vec<char> = crate::strutil::chars_of(part.as_str());
        let pn: usize = pc.len();
        let eq_at: usize = find_eq(&pc);
        proof {
            assert(words.subrange(1, k + 1) =~= words.subrange(1, k as int).push(words[k as int]));
            assert(words[k as int] == pc@);
            lemma_attrs_of_snoc(words.subrange(1, k as int), pc@);
        }
        if eq_at < pn {
            proof {
                lemma_find_char_found(pc@, '=', eq_at as int);
            }
            let key: String = crate::strutil::string_range(&pc, 0, eq_at);
            let val: String = crate::strutil::string_range(&pc, eq_at + 1, pn);
            proof {
                assert(pc@.subrange(0, eq_at as int) =~= pc@.take(eq_at as int));
                assert(pc@.subrange(eq_at + 1, pn as int) =~= pc@.skip(eq_at + 1));
            }
            attrs.insert(key, val);
        } else {
            proof {
                lemma_find_char_missing(pc@, '=');
            }
        }
        k = k + 1;
    }
    proof {
        assert(words.subrange(1, m as int) =~= words.drop_first());
    }
    (tag, attrs)
}

/// Whether the buffered tag content announces a comment (`!--`).
pub open spec fn is_comment_open(s: Seq<char>) -> bool {
    s.len() == 3 && s[0] == '!' && s[1] == '-' && s[2] == '-'
}

/// Whether the buffered tag content announces a doctype declaration,
/// in either letter case.
pub open spec fn is_doctype(s: Seq<char>) -> bool {
    s.len() == 8 && s[0] == '!' && (s[1] == 'D' || s[1] == 'd') && (s[2] == 'O' || s[2] == 'o') && (
    s[3] == 'C' || s[3] == 'c') && (s[4] == 'T' || s[4] == 't') && (s[5] == 'Y' || s[5] == 'y') && (
    s[6] == 'P' || s[6] == 'p') && (s[7] == 'E' || s[7] == 'e')
}

/// Whether `s` ends with the three characters `a`, `b`, `d`.
pub open spec fn ends_with3(s: Seq<char>, a: char, b: char, d: char) -> bool {
    s.len() >= 3 && s[s.len() - 3] == a && s[s.len() - 2] == b && s[s.len() - 1] == d
}

/// A fresh container node for the given tag content, with no children
/// and an empty computed style map.
pub open spec fn mk_container(content: Seq<char>) -> SNode {
    let (tag, attrs) = spec_from_tag(content);
    SNode { kind: SNodeKind::Container(tag, Seq::empty(), attrs), css: Seq::empty() }
}

/// A fresh text node with an empty computed style map.
pub open spec fn mk_text(t: Seq<char>) -> SNode {
    SNode { kind: SNodeKind::Text(t), css: Seq::empty() }
}

/// `parent` with `child` appended to its child list.
pub open spec fn push_child(parent: SNode, child: SNode) -> SNode {
    match parent.kind {
        SNodeKind::Container(t, cs, a) => SNode {
            kind: SNodeKind::Container(t, cs.push(child), a),
            css: parent.css,
        },
        SNodeKind::Document(cs) => SNode { kind: SNodeKind::Document(cs.push(child)), css: parent.css },
        SNodeKind::Text(_) => parent,
    }
}

/// The parser state: the document children and open-container stack
/// built so far, the text buffers, and the scanning sub-states.
pub struct HtmlScan {
    pub doc_children: Seq<SNode>,
    pub stack: Seq<SNode>,
    pub in_tag: bool,
    pub tag_open: bool,
    pub tag_content: Seq<char>,
    pub text_content: Seq<char>,
    pub in_comment: bool,
    pub comment: Seq<char>,
    pub in_doctype: bool,
    pub in_str: bool,
    pub str_char: char,
    pub ignore: bool,
}

/// The parser state before any character is read.
pub open spec fn html_init() -> HtmlScan {
    HtmlScan {
        doc_children: Seq::empty(),
        stack: Seq::empty(),
        in_tag: false,
        tag_open: true,
        tag_content: Seq::empty(),
        text_content: Seq::empty(),
        in_comment: false,
        comment: Seq::empty(),
        in_doctype: false,
        in_str: false,
        str_char: '"',
        ignore: false,
    }
}

/// Append a finished node: to the innermost open container, or to the
/// document root when no container is open.
pub open spec fn scan_attach(st: HtmlScan, child: SNode) -> HtmlScan {
    if st.stack.len() > 0 {
        HtmlScan {
            stack: st.stack.update(st.stack.len() - 1, push_child(st.stack.last(), child)),
            ..st
        }
    } else {
        HtmlScan { doc_children: st.doc_children.push(child), ..st }
    }
}

/// One parser step over one character of the document text.
pub open spec fn html_step(st: HtmlScan, c: char) -> HtmlScan {
    if st.in_tag {
        if st.tag_open {
            // The quoted-string sub-state, so that `>` inside a quoted
            // attribute value does not end the tag.
            let st1 = if st.in_str {
                HtmlScan {
                    in_str: !(c == st.str_char && !st.ignore),
                    ignore: c == '\\' && !st.ignore,
                    ..st
                }
            } else if c == '\'' || c == '"' {
                HtmlScan { in_str: true, str_char: c, ..st }
            } else {
                st
            };
            if c == '/' && st.tag_content.len() == 0 {
                HtmlScan { tag_open: false, ..st1 }
            } else if is_comment_open(st.tag_content) && !st1.in_str {
                HtmlScan {
                    in_tag: false,
                    in_comment: true,
                    comment: seq![c],
                    tag_content: Seq::empty(),
                    ..st1
                }
            } else if is_doctype(st.tag_content) && !st1.in_str {
                HtmlScan { in_doctype: true, tag_content: Seq::empty(), ..st1 }
            } else if c == '>' && !st1.in_str {
                let st2 = HtmlScan { in_tag: false, tag_content: Seq::empty(), ..st1 };
                if st.in_doctype {
                    HtmlScan { in_doctype: false, ..st2 }
                } else {
                    let node = mk_container(st.tag_content);
                    if !is_void_tag(spec_from_tag(st.tag_content).0) {
                        HtmlScan { stack: st2.stack.push(node), ..st2 }
                    } else {
                        scan_attach(st2, node)
                    }
                }
            } else {
                HtmlScan { tag_content: st.tag_content.push(c), ..st1 }
            }
        } else {
            if c == '>' {
                let st2 = HtmlScan { in_tag: false, tag_content: Seq::empty(), ..st };
                if st.stack.len() > 1 {
                    let child = st.stack.last();
                    let parent = st.stack[st.stack.len() - 2];
                    HtmlScan {
                        stack: st2.stack.drop_last().update(
                            st.stack.len() - 2,
                            push_child(parent, child),
                        ),
                        ..st2
                    }
                } else if st.stack.len() == 1 {
                    HtmlScan {
                        stack: Seq::empty(),
                        doc_children: st2.doc_children.push(st.stack[0]),
                        ..st2
                    }
                } else {
                    st2
                }
            } else {
                HtmlScan { tag_content: st.tag_content.push(c), ..st }
            }
        }
    } else {
        if st.in_comment {
            let comment = st.comment.push(c);
            if ends_with3(comment, '-', '-', '>') {
                HtmlScan { in_comment: false, comment: Seq::empty(), ..st }
            } else {
                HtmlScan { comment, ..st }
            }
        } else if c == '<' {
            let st1 = HtmlScan { in_tag: true, tag_open: true, text_content: Seq::empty(), ..st };
            if !crate::strutil::all_ws(st.text_content) {
                scan_attach(st1, mk_text(st.text_content))
            } else {
                st1
            }
        } else {
            HtmlScan { text_content: st.text_content.push(c), ..st }
        }
    }
}

/// The parser folded over a character sequence.
pub open spec fn html_scan(st: HtmlScan, s: Seq<char>) -> HtmlScan
    decreases s.len(),
{
    if s.len() == 0 {
        st
    } else {
        html_scan(html_step(st, s[0]), s.drop_first())
    }
}

/// The document the parser builds from the given text: a root document
/// node holding the finished top-level nodes.  Containers still open at
/// the end of the text are dropped.
pub open spec fn spec_parse_html(s: Seq<char>) -> SNode {
    SNode {
        kind: SNodeKind::Document(html_scan(html_init(), s).doc_children),
        css: Seq::empty(),
    }
}

proof fn lemma_html_scan_snoc(st: HtmlScan, s: Seq<char>, c: char)
    ensures
        html_scan(st, s.push(c)) == html_step(html_scan(st, s), c),
    decreases s.len(),
{
    if s.len() == 0 {
        assert(s.push(c)[0] == c);
        assert(s.push(c).drop_first() =~= Seq::<char>::empty());
        assert(html_scan(html_step(st, c), Seq::<char>::empty()) == html_step(st, c));
    } else {
        assert(s.push(c)[0] == s[0]);
        assert(s.push(c).drop_first() =~= s.drop_first().push(c));
        lemma_html_scan_snoc(html_step(st, s[0]), s.drop_first(), c);
    }
}

/// Whether every character of the vector is whitespace.
fn buf_all_ws(v: &Vec<char>) -> (r: bool)
    ensures
        r == crate::strutil::all_ws(v@),
{
    let n: usize = v.len();
    let mut i: usize = 0;
    while i < n
        invariant
            i <= n,
            n == v@.len(),
            forall|j: int| 0 <= j < i ==> crate::strutil::is_ws(v@[j]),
        decreases n - i,
    {
        if !crate::strutil::is_ws_char(v[i]) {
            return false;
        }
        i = i + 1;
    }
    true
}

/// Append a finished node to the innermost open container, or to the
/// document children when no container is open.
fn attach_node(stack: &mut Vec<Node>, doc_children: &mut Vec<Node>, child: Node)
    requires
        forall|i: int|
            0 <= i < old(stack)@.len() ==> !((#[trigger] old(stack)@[i]).node_type is Text),
    ensures
        forall|i: int|
            0 <= i < final(stack)@.len() ==> !((#[trigger] final(stack)@[i]).node_type is Text),
        final(stack)@.len() == old(stack)@.len(),
        old(stack)@.len() > 0 ==> final(doc_children)@ == old(doc_children)@ && nodes_view(
            final(stack)@,
        ) == nodes_view(old(stack)@).update(
            old(stack)@.len() - 1,
            push_child(nodes_view(old(stack)@).last(), node_view(child)),
        ),
        old(stack)@.len() == 0 ==> final(stack)@ == old(stack)@ && nodes_view(final(doc_children)@)
            == nodes_view(old(doc_children)@).push(node_view(child)),
{
    proof {
        broadcast use lemma_nodes_view_len, lemma_nodes_view_index, lemma_nodes_view_push;

    }
    let n: usize = stack.len();
    if n > 0 {
        let ghost old_stack = stack@;
        let top: Node = match stack.pop() {
            Some(t) => t,
            None => unreached(),
        };
        let ghost top_v = node_view(top);
        let ghost child_v = node_view(child);
        let new_top: Node = match top.node_type {
            NodeType::Container(tag, mut children, attrs) => {
                let ghost oc = children@;
                children.push(child);
                proof {
                    lemma_nodes_view_push(oc, child);
                }
                Node { node_type: NodeType::Container(tag, children, attrs), css: top.css }
            },
            NodeType::Document(mut children) => {
                let ghost oc = children@;
                children.push(child);
                proof {
                    lemma_nodes_view_push(oc, child);
                }
                Node { node_type: NodeType::Document(children), css: top.css }
            },
            NodeType::Text(_) => unreached(),
        };
        proof {
            assert(node_view(new_top) == push_child(top_v, child_v));
        }
        stack.push(new_top);
        proof {
            assert(stack@ =~= old_stack.update(old_stack.len() - 1, new_top));
            lemma_nodes_view_update(old_stack, old_stack.len() - 1, new_top);
        }
    } else {
        doc_children.push(child);
    }
}

proof fn lemma_nodes_view_drop_last(cs: Seq<Node>)
    requires
        cs.len() > 0,
    ensures
        nodes_view(cs.drop_last()) == nodes_view(cs).drop_last(),
{
    broadcast use lemma_nodes_view_len, lemma_nodes_view_index;

    assert forall|j: int| 0 <= j < cs.len() - 1 implies nodes_view(cs.drop_last())[j]
        == nodes_view(cs).drop_last()[j] by {
        assert(cs.drop_last()[j] == cs[j]);
    }
    assert(nodes_view(cs.drop_last()) =~= nodes_view(cs).drop_last());
}

proof fn lemma_nodes_view_update(cs: Seq<Node>, i: int, n: Node)
    requires
        0 <= i < cs.len(),
    ensures
        nodes_view(cs.update(i, n)) == nodes_view(cs).update(i, node_view(n)),
    decreases cs,
{
    broadcast use lemma_nodes_view_len, lemma_nodes_view_index;

    let a = nodes_view(cs.update(i, n));
    let b = nodes_view(cs).update(i, node_view(n));
    assert forall|j: int| 0 <= j < cs.len() implies a[j] == b[j] by {
        if j == i {
            assert(cs.update(i, n)[j] == n);
        } else {
            assert(cs.update(i, n)[j] == cs[j]);
        }
    }
    assert(a =~= b);
}

/// Parse a document string into a root document node.  The parser is a
/// single left-to-right scan and is intentionally lenient: a close tag
/// always closes the innermost open container whatever its name, a
/// close tag with no open container is ignored, containers left open at
/// the end of the text are dropped, whitespace-only text between tags
/// is dropped, and comments and doctype declarations are discarded.
#[verifier::rlimit(100)]
pub fn parse(html: String) -> (r: Node)
    ensures
        node_view(r) == spec_parse_html(html@),
{
    proof {
        broadcast use lemma_nodes_view_len, lemma_nodes_view_index, lemma_nodes_view_push;

    }
    let chars: Vec<char> = crate::strutil::chars_of(html.as_str());
    let n: usize = chars.len();

    let mut doc_children: Vec<Node> = Vec::new();
    let mut stack: Vec<Node> = Vec::new();
    let mut in_tag: bool = false;
    let mut tag_open: bool = true;
    let mut tag_content: Vec<char> = Vec::new();
    let mut text_content: Vec<char> = Vec::new();
    let mut in_comment: bool = false;
    let mut comment: Vec<char> = Vec::new();
    let mut in_doctype: bool = false;
    let mut in_str: bool = false;
    let mut str_char: char = '"';
    let mut ignore: bool = false;

    let mut i: usize = 0;
    while i < n
        invariant
            i <= n,
            n == chars@.len(),
            chars@ == html@,
            forall|j: int| 0 <= j < stack@.len() ==> !((#[trigger] stack@[j]).node_type is Text),
            ({
                let st = html_scan(html_init(), chars@.take(i as int));
                &&& nodes_view(doc_children@) == st.doc_children
                &&& nodes_view(stack@) == st.stack
                &&& in_tag == st.in_tag
                &&& tag_open == st.tag_open
                &&& tag_content@ == st.tag_content
                &&& text_content@ == st.text_content
                &&& in_comment == st.in_comment
                &&& comment@ == st.comment
                &&& in_doctype == st.in_doctype
                &&& in_str == st.in_str
                &&& str_char == st.str_char
                &&& ignore == st.ignore
            }),
        decreases n - i,
    {
        let ghost st = html_scan(html_init(), chars@.take(i as int));
        let c: char = chars[i];
        proof {
            assert(chars@.take(i + 1) =~= chars@.take(i as int).push(c));
            lemma_html_scan_snoc(html_init(), chars@.take(i as int), c);
        }
        let ghost st2 = html_step(st, c);
        if in_tag {
            if tag_open {
                if in_str {
                    if c == str_char && !ignore {
                        in_str = false;
                    }
                    ignore = c == '\\' && !ignore;
                } else {
                    if c == '\'' || c == '"' {
                        in_str = true;
                        str_char = c;
                    }
                }
                if c == '/' && tag_content.len() == 0 {
                    tag_open = false;
                } else if tag_is_comment_open(&tag_content) && !in_str {
                    in_tag = false;
                    in_comment = true;
                    comment = Vec::new();
                    comment.push(c);
                    tag_content = Vec::new();
                    proof {
                        assert(comment@ =~= seq![c]);
                    }
                } else if tag_is_doctype(&tag_content) && !in_str {
                    in_doctype = true;
                    tag_content = Vec::new();
                } else if c == '>' && !in_str {
                    in_tag = false;
                    if in_doctype {
                        in_doctype = false;
                    } else {
                        let (tag, attrs) = from_tag(&tag_content);
                        let void: bool = is_empty_element(tag.as_str());
                        let node = Node {
                            node_type: NodeType::Container(tag, Vec::new(), attrs),
                            css: StyleMap::new(),
                        };
                        proof {
                            assert(nodes_view(Seq::<Node>::empty()) =~= Seq::<SNode>::empty());
                            assert(node_view(node) == mk_container(tag_content@));
                        }
                        if !void {
                            let ghost pre_stack = stack@;
                            stack.push(node);
                            proof {
                                lemma_nodes_view_push(pre_stack, node);
                            }
                        } else {
                            let ghost pre_stack = stack@;
                            proof {
                                lemma_nodes_view_len(pre_stack);
                                if pre_stack.len() > 0 {
                                    lemma_nodes_view_index(pre_stack, pre_stack.len() - 1);
                                }
                            }
                            attach_node(&mut stack, &mut doc_children, node);
                        }
                        proof {
                            assert(nodes_view(stack@) == st2.stack);
                            assert(nodes_view(doc_children@) == st2.doc_children);
                        }
                    }
                    tag_content = Vec::new();
                } else {
                    tag_content.push(c);
                }
            } else {
                if c == '>' {
                    in_tag = false;
                    let ghost old_stack = stack@;
                    if stack.len() > 1 {
                        let child: Node = match stack.pop() {
                            Some(t) => t,
                            None => unreached(),
                        };
                        let ghost mid_stack = stack@;
                        proof {
                            lemma_nodes_view_len(old_stack);
                            lemma_nodes_view_len(mid_stack);
                            lemma_nodes_view_index(old_stack, old_stack.len() - 1);
                            lemma_nodes_view_index(old_stack, old_stack.len() - 2);
                            lemma_nodes_view_index(mid_stack, mid_stack.len() - 1);
                            assert(mid_stack == old_stack.drop_last());
                            lemma_nodes_view_drop_last(old_stack);
                            assert(node_view(child) == nodes_view(old_stack).last());
                        }
                        attach_node(&mut stack, &mut doc_children, child);
                        proof {
                            assert(nodes_view(stack@) == nodes_view(mid_stack).update(
                                mid_stack.len() - 1,
                                push_child(nodes_view(mid_stack).last(), node_view(child)),
                            ));
                            assert(nodes_view(mid_stack).last() == nodes_view(
                                old_stack,
                            )[old_stack.len() - 2]);
                            assert(nodes_view(stack@) =~= st2.stack);
                        }
                    } else if stack.len() == 1 {
                        let child: Node = match stack.pop() {
                            Some(t) => t,
                            None => unreached(),
                        };
                        let ghost pre_doc = doc_children@;
                        doc_children.push(child);
                        proof {
                            lemma_nodes_view_len(old_stack);
                            lemma_nodes_view_index(old_stack, 0);
                            lemma_nodes_view_push(pre_doc, child);
                            assert(stack@ =~= Seq::<Node>::empty());
                            assert(nodes_view(stack@) =~= Seq::<SNode>::empty());
                            assert(nodes_view(doc_children@) == st2.doc_children);
                            assert(nodes_view(stack@) == st2.stack);
                        }
                    }
                    tag_content = Vec::new();
                } else {
                    tag_content.push(c);
                }
            }
        } else {
            if in_comment {
                comment.push(c);
                if buf_ends_with3(&comment, '-', '-', '>') {
                    in_comment = false;
                    comment = Vec::new();
                    proof {
                        assert(comment@ =~= Seq::<char>::empty());
                    }
                }
            } else {
                if c == '<' {
                    in_tag = true;
                    tag_open = true;
                    if !buf_all_ws(&text_content) {
                        let t: String = crate::strutil::string_range(
                            &text_content,
                            0,
                            text_content.len(),
                        );
                        proof {
                            assert(text_content@.subrange(0, text_content@.len() as int)
                                =~= text_content@);
                        }
                        let node = Node { node_type: NodeType::Text(t), css: StyleMap::new() };
                        let ghost pre_stack = stack@;
                        proof {
                            assert(node_view(node) == mk_text(text_content@));
                            lemma_nodes_view_len(pre_stack);
                            if pre_stack.len() > 0 {
                                lemma_nodes_view_index(pre_stack, pre_stack.len() - 1);
                            }
                        }
                        attach_node(&mut stack, &mut doc_children, node);
                        proof {
                            assert(nodes_view(stack@) == st2.stack);
                            assert(nodes_view(doc_children@) == st2.doc_children);
                        }
                    }
                    text_content = Vec::new();
                } else {
                    text_content.push(c);
                }
            }
        }
        i = i + 1;
    }
    proof {
        assert(chars@.take(n as int) =~= chars@);
    }
    let root = Node { node_type: NodeType::Document(doc_children), css: StyleMap::new() };
    root
}

/// Whether the tag buffer holds exactly `!--`.
fn tag_is_comment_open(v: &Vec<char>) -> (r: bool)
    ensures
        r == is_comment_open(v@),
{
    v.len() == 3 && v[0] == '!' && v[1] == '-' && v[2] == '-'
}

/// Whether the tag buffer holds a doctype announcement in any case.
fn tag_is_doctype(v: &Vec<char>) -> (r: bool)
    ensures
        r == is_doctype(v@),
{
    v.len() == 8 && v[0] == '!' && (v[1] == 'D' || v[1] == 'd') && (v[2] == 'O' || v[2] == 'o') && (
    v[3] == 'C' || v[3] == 'c') && (v[4] == 'T' || v[4] == 't') && (v[5] == 'Y' || v[5] == 'y') && (
    v[6] == 'P' || v[6] == 'p') && (v[7] == 'E' || v[7] == 'e')
}

/// Whether the buffer ends with the three characters `a`, `b`, `d`.
fn buf_ends_with3(v: &Vec<char>, a: char, b: char, d: char) -> (r: bool)
    ensures
        r == ends_with3(v@, a, b, d),
{
    let n: usize = v.len();
    n >= 3 && v[n - 3] == a && v[n - 2] == b && v[n - 1] == d
}

/// The markup text of one attribute: a space, the key, `=`, and the
/// double-quoted value.
pub open spec fn ser_attr(a: (Seq<char>, Seq<char>)) -> Seq<char> {
    seq![' '] + a.0 + seq!['='] + seq!['"'] + a.1 + seq!['"']
}

/// The markup text of an attribute list, in order.
pub open spec fn ser_attrs(attrs: Seq<(Seq<char>, Seq<char>)>) -> Seq<char>
    decreases attrs.len(),
{
    if attrs.len() == 0 {
        Seq::empty()
    } else {
        ser_attrs(attrs.drop_last()) + ser_attr(attrs.last())
    }
}

/// The markup text of a node: text content stands as it is; a
/// container becomes an open tag with its attributes, its children,
/// and (except for void elements) a close tag; the document root is
/// its children in order.
pub open spec fn spec_serialize(n: SNode) -> Seq<char>
    decreases n,
{
    match n.kind {
        SNodeKind::Text(t) => t,
        SNodeKind::Container(tag, cs, attrs) => seq!['<'] + tag + ser_attrs(attrs) + seq!['>'] + (
        if is_void_tag(tag) {
            Seq::<char>::empty()
        } else {
            ser_seq(cs) + seq!['<', '/'] + tag + seq!['>']
        }),
        SNodeKind::Document(cs) => ser_seq(cs),
    }
}

/// The markup text of a node list, in order.
pub open spec fn ser_seq(cs: Seq<SNode>) -> Seq<char>
    decreases cs,
{
    if cs.len() == 0 {
        Seq::empty()
    } else {
        ser_seq(cs.drop_last()) + spec_serialize(cs.last())
    }
}

/// The characters that may not appear in a tag name or attribute key.
pub open spec fn plain_char(c: char) -> bool {
    c != ' ' && c != '\t' && c != '\n' && c != '\r' && c != '<' && c != '>' && c != '/' && c != '='
        && c != '"' && c != '\'' && c != '\\' && c != '+'
}

/// A well-formed tag name: nonempty, no structural characters, and not
/// starting with `!` (which would announce a comment or doctype).
pub open spec fn ok_tag(tag: Seq<char>) -> bool {
    tag.len() > 0 && tag[0] != '!' && (forall|i: int| 0 <= i < tag.len() ==> plain_char(#[trigger] tag[i]))
}

/// A well-formed attribute key: nonempty with no structural characters.
pub open spec fn ok_key(k: Seq<char>) -> bool {
    k.len() > 0 && (forall|i: int| 0 <= i < k.len() ==> plain_char(#[trigger] k[i]))
}

/// A well-formed attribute value: no markup or quoting characters
/// (spaces are fine, since serialized values are quoted).
pub open spec fn ok_val(v: Seq<char>) -> bool {
    forall|i: int|
        0 <= i < v.len() ==> (#[trigger] v[i]) != '<' && v[i] != '>' && v[i] != '"' && v[i] != '\''
            && v[i] != '\\'
}

/// A well-formed attribute list: every entry has a plain key and a
/// plain value.
pub open spec fn wf_attrs(attrs: Seq<(Seq<char>, Seq<char>)>) -> bool {
    forall|i: int| 0 <= i < attrs.len() ==> ok_key((#[trigger] attrs[i]).0) && ok_val(attrs[i].1)
}

/// A well-formed structural tree node: an element with an empty
/// computed style map, plain names and values, and childless void
/// elements.  This shape carries exactly what the markup round trip
/// speaks of: tag names, attributes and nesting.
pub open spec fn wf_node(n: SNode) -> bool
    decreases n,
{
    n.css == Seq::<(Seq<char>, Seq<char>)>::empty() && match n.kind {
        SNodeKind::Text(_) => false,
        SNodeKind::Container(tag, cs, attrs) => ok_tag(tag) && wf_attrs(attrs) && (is_void_tag(tag)
            ==> cs.len() == 0) && wf_seq(cs),
        SNodeKind::Document(_) => false,
    }
}

/// A well-formed structural node list.
pub open spec fn wf_seq(cs: Seq<SNode>) -> bool
    decreases cs,
{
    if cs.len() == 0 {
        true
    } else {
        wf_node(cs[0]) && wf_seq(cs.drop_first())
    }
}

/// A well-formed structural document: a root document node with an
/// empty style map over well-formed element structure.
pub open spec fn wf_document(n: SNode) -> bool {
    n.css == Seq::<(Seq<char>, Seq<char>)>::empty() && match n.kind {
        SNodeKind::Document(cs) => wf_seq(cs),
        _ => false,
    }
}

/// Serialize an attribute map to markup text.
fn attrs_markup(attrs: &StyleMap) -> (r: String)
    ensures
        r@ == ser_attrs(attrs@),
{
    let mut out: String = String::new();
    let n: usize = attrs.len();
    let mut i: usize = 0;
    proof {
        assert(attrs@.take(0) =~= Seq::<(Seq<char>, Seq<char>)>::empty());
    }
    while i < n
        invariant
            i <= n,
            n == attrs@.len(),
            out@ == ser_attrs(attrs@.take(i as int)),
        decreases n - i,
    {
        out.push(' ');
        out.append(attrs.key_at(i).as_str());
        out.push('=');
        out.push('"');
        out.append(attrs.value_at(i).as_str());
        out.push('"');
        proof {
            let t = attrs@.take(i + 1);
            assert(t.drop_last() =~= attrs@.take(i as int));
            assert(t.last() == attrs@[i as int]);
            assert(out@ =~= ser_attrs(attrs@.take(i + 1)));
        }
        i = i + 1;
    }
    proof {
        assert(attrs@.take(n as int) =~= attrs@);
    }
    out
}

impl Node {
    /// The markup text of this node's structure: tags, attributes and
    /// nesting, with attribute values double-quoted.  Computed styles
    /// do not appear in markup.
    pub fn to_markup(&self) -> (r: String)
        ensures
            r@ == spec_serialize(node_view(*self)),
        decreases *self,
    {
        match &self.node_type {
            NodeType::Text(t) => t.clone(),
            NodeType::Document(children) => markup_children(children),
            NodeType::Container(tag, children, attrs) => {
                let mut out: String = String::new();
                out.push('<');
                out.append(tag.as_str());
                let a: String = attrs_markup(attrs);
                out.append(a.as_str());
                out.push('>');
                if !is_empty_element(tag.as_str()) {
                    let inner: String = markup_children(children);
                    out.append(inner.as_str());
                    out.push('<');
                    out.push('/');
                    out.append(tag.as_str());
                    out.push('>');
                    proof {
                        assert(out@ =~= spec_serialize(node_view(*self)));
                    }
                    out
                } else {
                    proof {
                        assert(out@ =~= spec_serialize(node_view(*self)));
                    }
                    out
                }
            },
        }
    }
}

/// The markup text of a node list, in order.
fn markup_children(children: &Vec<Node>) -> (r: String)
    ensures
        r@ == ser_seq(nodes_view(children@)),
    decreases children@,
{
    let ghost sv = nodes_view(children@);
    let mut out: String = String::new();
    let n: usize = children.len();
    let mut i: usize = 0;
    proof {
        lemma_nodes_view_len(children@);
        assert(sv.take(0) =~= Seq::<SNode>::empty());
        assert(ser_seq(sv.take(0)) =~= Seq::<char>::empty());
    }
    while i < n
        invariant
            i <= n,
            n == children@.len(),
            sv == nodes_view(children@),
            sv.len() == n,
            out@ == ser_seq(sv.take(i as int)),
        decreases n - i,
    {
        let part: String = children[i].to_markup();
        out.append(part.as_str());
        proof {
            lemma_nodes_view_index(children@, i as int);
            let t = sv.take(i + 1);
            assert(t.drop_last() =~= sv.take(i as int));
            assert(t.last() == sv[i as int]);
        }
        i = i + 1;
    }
    proof {
        assert(sv.take(n as int) =~= sv);
    }
    out
}

proof fn lemma_tag_scan_app(st: TagScan, a: Seq<char>, b: Seq<char>)
    ensures
        tag_scan(st, a + b) == tag_scan(tag_scan(st, a), b),
    decreases a.len(),
{
    if a.len() == 0 {
        assert(a + b =~= b);
    } else {
        assert((a + b)[0] == a[0]);
        assert((a + b).drop_first() =~= a.drop_first() + b);
        lemma_tag_scan_app(tag_step(st, a[0]), a.drop_first(), b);
    }
}

/// A character the tag tokenizer passes straight into the word.
pub open spec fn tok_plain(c: char) -> bool {
    c != '\'' && c != '"' && c != ' ' && c != '\\'
}

proof fn lemma_tag_scan_plain(st: TagScan, s: Seq<char>)
    requires
        !st.in_str,
        forall|i: int| 0 <= i < s.len() ==> tok_plain(#[trigger] s[i]),
    ensures
        tag_scan(st, s) == (TagScan { word: st.word + s, ..st }),
    decreases s.len(),
{
    if s.len() == 0 {
        assert(st.word + s =~= st.word);
        assert(tag_scan(st, s) =~= (TagScan { word: st.word + s, ..st }));
    } else {
        let st1 = tag_step(st, s[0]);
        assert(st1 == (TagScan { word: st.word.push(s[0]), ..st }));
        lemma_tag_scan_plain(st1, s.drop_first());
        assert(st.word.push(s[0]) + s.drop_first() =~= st.word + s);
    }
}

proof fn lemma_tag_scan_quoted(st: TagScan, s: Seq<char>)
    requires
        st.in_str,
        !st.ignore,
        forall|i: int| 0 <= i < s.len() ==> (#[trigger] s[i]) != st.str_char && s[i] != '\\',
    ensures
        tag_scan(st, s) == (TagScan { word: st.word + s, ..st }),
    decreases s.len(),
{
    if s.len() == 0 {
        assert(st.word + s =~= st.word);
        assert(tag_scan(st, s) =~= (TagScan { word: st.word + s, ..st }));
    } else {
        let st1 = tag_step(st, s[0]);
        assert(st1 == (TagScan { word: st.word.push(s[0]), ignore: false, ..st }));
        assert(st1 == (TagScan { word: st.word.push(s[0]), ..st }));
        lemma_tag_scan_quoted(st1, s.drop_first());
        assert(st.word.push(s[0]) + s.drop_first() =~= st.word + s);
    }
}

proof fn lemma_tag_scan_attr(st: TagScan, k: Seq<char>, v: Seq<char>)
    requires
        !st.in_str,
        !st.ignore,
        ok_key(k),
        ok_val(v),
    ensures
        tag_scan(st, ser_attr((k, v))) == (TagScan {
            parts: st.parts.push(st.word),
            word: k + seq!['='] + v,
            in_str: false,
            str_char: '"',
            ignore: false,
            ..st
        }),
{
    let a = ser_attr((k, v));
    // The leading space ends the current word.
    let st1 = tag_step(st, ' ');
    assert(st1 == (TagScan { parts: st.parts.push(st.word), word: Seq::empty(), ..st }));
    // The key and the `=` pass straight through.
    assert(forall|i: int| 0 <= i < k.len() ==> tok_plain(#[trigger] k[i])) by {
        assert(forall|i: int| 0 <= i < k.len() ==> plain_char(#[trigger] k[i]));
    }
    lemma_tag_scan_plain(st1, k + seq!['=']);
    let st2 = tag_scan(st1, k + seq!['=']);
    assert(st2.word =~= k + seq!['=']);
    // The opening quote enters the string sub-state.
    let st3 = tag_step(st2, '"');
    assert(st3 == (TagScan { in_str: true, str_char: '"', ..st2 }));
    // The value passes through inside the string.
    lemma_tag_scan_quoted(st3, v);
    let st4 = tag_scan(st3, v);
    // The closing quote leaves the string sub-state.
    let st5 = tag_step(st4, '"');
    assert(st5 == (TagScan { in_str: false, ignore: false, ..st4 }));
    // Stitch the pieces together.
    assert(a =~= seq![' '] + ((k + seq!['=']) + (seq!['"'] + (v + seq!['"']))));
    assert(seq![' '].drop_first() =~= Seq::<char>::empty());
    lemma_tag_scan_app(st1, k + seq!['='], seq!['"'] + (v + seq!['"']));
    assert((seq![' '] + ((k + seq!['=']) + (seq!['"'] + (v + seq!['"'])))).drop_first() =~= (k
        + seq!['=']) + (seq!['"'] + (v + seq!['"'])));
    assert(seq!['"'] + (v + seq!['"']) =~= seq!['"'] + v + seq!['"']);
    assert((seq!['"'] + v + seq!['"'])[0] == '"');
    assert((seq!['"'] + v + seq!['"']).drop_first() =~= v + seq!['"']);
    lemma_tag_scan_app(st3, v, seq!['"']);
    assert((v + seq!['"']).len() == v.len() + 1);
    assert(seq!['"'][0] == '"');
    assert(seq!['"'].drop_first() =~= Seq::<char>::empty());
    assert(tag_scan(st4, seq!['"']) == tag_scan(tag_step(st4, '"'), seq!['"'].drop_first()));
    assert(tag_scan(st5, Seq::<char>::empty()) == st5);
    assert(st4.word =~= (k + seq!['=']) + v);
    assert((k + seq!['=']) + v =~= k + seq!['='] + v);
}

proof fn lemma_tag_scan_attrs(st: TagScan, attrs: Seq<(Seq<char>, Seq<char>)>)
    requires
        !st.in_str,
        !st.ignore,
        wf_attrs(attrs),
        attrs.len() > 0,
    ensures
        tag_scan(st, ser_attrs(attrs)) == (TagScan {
            parts: st.parts.push(st.word) + attrs_words(attrs.drop_last()),
            word: attr_word(attrs.last()),
            in_str: false,
            str_char: '"',
            ignore: false,
            ..st
        }),
    decreases attrs.len(),
{
    if attrs.len() == 1 {
        assert(attrs.drop_last() =~= Seq::<(Seq<char>, Seq<char>)>::empty());
        assert(ser_attrs(Seq::<(Seq<char>, Seq<char>)>::empty()) =~= Seq::<char>::empty());
        assert(attrs.last() == attrs[0]);
        assert(ser_attrs(attrs) =~= ser_attr(attrs[0]));
        assert(attrs_words(attrs.drop_last()) =~= Seq::<Seq<char>>::empty());
        lemma_tag_scan_attr(st, attrs[0].0, attrs[0].1);
        assert(st.parts.push(st.word) + attrs_words(attrs.drop_last()) =~= st.parts.push(st.word));
    } else {
        let pre = attrs.drop_last();
        assert(wf_attrs(pre));
        lemma_tag_scan_attrs(st, pre);
        let stp = tag_scan(st, ser_attrs(pre));
        lemma_tag_scan_app(st, ser_attrs(pre), ser_attr(attrs.last()));
        lemma_tag_scan_attr(stp, attrs.last().0, attrs.last().1);
        assert(stp.word == attr_word(pre.last()));
        assert(attrs_words(pre) =~= attrs_words(pre.drop_last()).push(attr_word(pre.last())));
        assert(stp.parts.push(stp.word) =~= (st.parts.push(st.word) + attrs_words(pre.drop_last())).push(
            attr_word(pre.last()),
        ));
        assert((st.parts.push(st.word) + attrs_words(pre.drop_last())).push(attr_word(pre.last()))
            =~= st.parts.push(st.word) + attrs_words(pre));
    }
}

/// The tokenizer word one attribute becomes: `key=value`.
pub open spec fn attr_word(a: (Seq<char>, Seq<char>)) -> Seq<char> {
    a.0 + seq!['='] + a.1
}

/// The tokenizer words of an attribute list.
pub open spec fn attrs_words(attrs: Seq<(Seq<char>, Seq<char>)>) -> Seq<Seq<char>>
    decreases attrs.len(),
{
    if attrs.len() == 0 {
        Seq::empty()
    } else {
        attrs_words(attrs.drop_last()).push(attr_word(attrs.last()))
    }
}

proof fn lemma_attr_word_splits(a: (Seq<char>, Seq<char>))
    requires
        ok_key(a.0),
    ensures
        find_char(attr_word(a), '=') == a.0.len(),
        attr_word(a).take(a.0.len() as int) == a.0,
        attr_word(a).skip(a.0.len() as int + 1) == a.1,
{
    let w = attr_word(a);
    assert(w[a.0.len() as int] == '=');
    assert(forall|j: int| 0 <= j < a.0.len() ==> w[j] == a.0[j] && plain_char(#[trigger] a.0[j]));
    lemma_find_char_found(w, '=', a.0.len() as int);
    assert(w.take(a.0.len() as int) =~= a.0);
    assert(w.skip(a.0.len() as int + 1) =~= a.1);
}

proof fn lemma_attrs_of_words(attrs: Seq<(Seq<char>, Seq<char>)>)
    requires
        wf_attrs(attrs),
    ensures
        spec_attrs_of(attrs_words(attrs)) == attrs,
    decreases attrs.len(),
{
    if attrs.len() == 0 {
        assert(attrs_words(attrs) =~= Seq::<Seq<char>>::empty());
        assert(spec_attrs_of(attrs_words(attrs)) =~= attrs);
    } else {
        let pre = attrs.drop_last();
        assert(wf_attrs(pre));
        lemma_attrs_of_words(pre);
        lemma_attrs_of_snoc(attrs_words(pre), attr_word(attrs.last()));
        lemma_attr_word_splits(attrs.last());
        assert(spec_attrs_of(attrs_words(attrs)) == pre + seq![
            (attrs.last().0, attrs.last().1),
        ]);
        assert((attrs.last().0, attrs.last().1) == attrs.last());
        assert(pre + seq![attrs.last()] =~= attrs);
    }
}

/// The tag tokenizer recovers a tag name and attribute list exactly
/// from their serialized form.
proof fn lemma_from_tag_round_trip(tag: Seq<char>, attrs: Seq<(Seq<char>, Seq<char>)>)
    requires
        ok_tag(tag),
        wf_attrs(attrs),
    ensures
        spec_from_tag(tag + ser_attrs(attrs)) == (tag, attrs),
{
    let s = tag + ser_attrs(attrs);
    assert(forall|i: int| 0 <= i < tag.len() ==> tok_plain(#[trigger] tag[i])) by {
        assert(forall|i: int| 0 <= i < tag.len() ==> plain_char(#[trigger] tag[i]));
    }
    lemma_tag_scan_plain(tag_init(), tag);
    let st1 = tag_scan(tag_init(), tag);
    assert(st1.word =~= tag);
    lemma_tag_scan_app(tag_init(), tag, ser_attrs(attrs));
    if attrs.len() == 0 {
        assert(ser_attrs(attrs) =~= Seq::<char>::empty());
        assert(s =~= tag);
        assert(spec_split_tag(s) == st1.parts.push(st1.word));
        assert(st1.parts =~= Seq::<Seq<char>>::empty());
        let parts = spec_split_tag(s);
        assert(parts[0] == tag);
        assert(parts.drop_first() =~= Seq::<Seq<char>>::empty());
        assert(spec_attrs_of(parts.drop_first()) =~= attrs);
    } else {
        lemma_tag_scan_attrs(st1, attrs);
        let fin = tag_scan(st1, ser_attrs(attrs));
        assert(fin.parts == st1.parts.push(tag) + attrs_words(attrs.drop_last()));
        assert(fin.word == attr_word(attrs.last()));
        let parts = spec_split_tag(s);
        assert(parts == fin.parts.push(fin.word));
        assert(st1.parts.push(tag) =~= seq![tag]);
        assert(parts =~= seq![tag] + attrs_words(attrs));
        assert(parts[0] == tag);
        assert(parts.drop_first() =~= attrs_words(attrs));
        lemma_attrs_of_words(attrs);
    }
}

proof fn lemma_html_scan_app(st: HtmlScan, a: Seq<char>, b: Seq<char>)
    ensures
        html_scan(st, a + b) == html_scan(html_scan(st, a), b),
    decreases a.len(),
{
    if a.len() == 0 {
        assert(a + b =~= b);
    } else {
        assert((a + b)[0] == a[0]);
        assert((a + b).drop_first() =~= a.drop_first() + b);
        lemma_html_scan_app(html_step(st, a[0]), a.drop_first(), b);
    }
}

proof fn lemma_ser_seq_front(cs: Seq<SNode>)
    requires
        cs.len() > 0,
    ensures
        ser_seq(cs) == spec_serialize(cs[0]) + ser_seq(cs.drop_first()),
    decreases cs.len(),
{
    if cs.len() == 1 {
        assert(cs.drop_last() =~= Seq::<SNode>::empty());
        assert(cs.drop_first() =~= Seq::<SNode>::empty());
        assert(ser_seq(Seq::<SNode>::empty()) =~= Seq::<char>::empty());
        assert(cs.last() == cs[0]);
        assert(ser_seq(cs) =~= spec_serialize(cs[0]) + ser_seq(cs.drop_first()));
    } else {
        lemma_ser_seq_front(cs.drop_last());
        assert(cs.drop_last()[0] == cs[0]);
        assert(cs.drop_last().drop_first() =~= cs.drop_first().drop_last());
        assert(cs.drop_first().last() == cs.last());
        assert(ser_seq(cs) == ser_seq(cs.drop_last()) + spec_serialize(cs.last()));
        assert(ser_seq(cs.drop_first()) == ser_seq(cs.drop_first().drop_last()) + spec_serialize(
            cs.drop_first().last(),
        ));
        assert(ser_seq(cs) =~= spec_serialize(cs[0]) + ser_seq(cs.drop_first()));
    }
}

/// The parser state between constructs: in text mode, with no pending
/// tag or text content and no sub-state active.
pub open spec fn scan_ready(st: HtmlScan) -> bool {
    !st.in_tag && !st.in_comment && !st.in_doctype && !st.in_str && !st.ignore && st.tag_content
        == Seq::<char>::empty() && st.text_content == Seq::<char>::empty()
}

/// Attach a list of finished nodes, in order.
pub open spec fn attach_list(st: HtmlScan, cs: Seq<SNode>) -> HtmlScan
    decreases cs,
{
    if cs.len() == 0 {
        st
    } else {
        attach_list(scan_attach(st, cs[0]), cs.drop_first())
    }
}

proof fn lemma_attach_list_obs(a: HtmlScan, b: HtmlScan, cs: Seq<SNode>)
    requires
        a.stack == b.stack,
        a.doc_children == b.doc_children,
    ensures
        attach_list(a, cs).stack == attach_list(b, cs).stack,
        attach_list(a, cs).doc_children == attach_list(b, cs).doc_children,
    decreases cs,
{
    if cs.len() > 0 {
        lemma_attach_list_obs(scan_attach(a, cs[0]), scan_attach(b, cs[0]), cs.drop_first());
    }
}

proof fn lemma_attach_list_top(st: HtmlScan, cs: Seq<SNode>)
    requires
        st.stack.len() > 0,
        st.stack.last().kind is Container,
    ensures
        ({
            let top = st.stack.last();
            match top.kind {
                SNodeKind::Container(tag, kids, attrs) => attach_list(st, cs).stack
                    == st.stack.update(
                    st.stack.len() - 1,
                    SNode { kind: SNodeKind::Container(tag, kids + cs, attrs), css: top.css },
                ) && attach_list(st, cs).doc_children == st.doc_children,
                _ => false,
            }
        }),
    decreases cs,
{
    let top = st.stack.last();
    match top.kind {
        SNodeKind::Container(tag, kids, attrs) => {
            if cs.len() == 0 {
                assert(kids + cs =~= kids);
                assert(st.stack.update(
                    st.stack.len() - 1,
                    SNode { kind: SNodeKind::Container(tag, kids, attrs), css: top.css },
                ) =~= st.stack);
            } else {
                let st1 = scan_attach(st, cs[0]);
                assert(st1.stack == st.stack.update(
                    st.stack.len() - 1,
                    push_child(top, cs[0]),
                ));
                assert(push_child(top, cs[0]) == SNode {
                    kind: SNodeKind::Container(tag, kids.push(cs[0]), attrs),
                    css: top.css,
                });
                assert(st1.stack.last() == push_child(top, cs[0]));
                lemma_attach_list_top(st1, cs.drop_first());
                assert(kids.push(cs[0]) + cs.drop_first() =~= kids + cs);
                assert(st1.stack.update(
                    st1.stack.len() - 1,
                    SNode { kind: SNodeKind::Container(tag, kids + cs, attrs), css: top.css },
                ) =~= st.stack.update(
                    st.stack.len() - 1,
                    SNode { kind: SNodeKind::Container(tag, kids + cs, attrs), css: top.css },
                ));
            }
        },
        _ => {},
    }
}

proof fn lemma_attach_list_doc(st: HtmlScan, cs: Seq<SNode>)
    requires
        st.stack.len() == 0,
    ensures
        attach_list(st, cs).stack == st.stack,
        attach_list(st, cs).doc_children == st.doc_children + cs,
    decreases cs,
{
    if cs.len() == 0 {
        assert(st.doc_children + cs =~= st.doc_children);
    } else {
        let st1 = scan_attach(st, cs[0]);
        lemma_attach_list_doc(st1, cs.drop_first());
        assert(st.doc_children.push(cs[0]) + cs.drop_first() =~= st.doc_children + cs);
    }
}

/// A character the open-tag scanner passes straight into the tag
/// content, outside a quoted string.
pub open spec fn open_plain(c: char) -> bool {
    c != '>' && c != '\'' && c != '"'
}

proof fn lemma_open_plain(st: HtmlScan, s: Seq<char>)
    requires
        st.in_tag,
        st.tag_open,
        !st.in_str,
        !st.ignore,
        !st.in_doctype,
        st.tag_content.len() > 0,
        st.tag_content[0] != '!',
        forall|i: int| 0 <= i < s.len() ==> open_plain(#[trigger] s[i]),
    ensures
        html_scan(st, s) == (HtmlScan { tag_content: st.tag_content + s, ..st }),
    decreases s.len(),
{
    if s.len() == 0 {
        assert(st.tag_content + s =~= st.tag_content);
        assert(html_scan(st, s) =~= (HtmlScan { tag_content: st.tag_content + s, ..st }));
    } else {
        let c = s[0];
        let st1 = html_step(st, c);
        assert(!is_comment_open(st.tag_content));
        assert(!is_doctype(st.tag_content));
        assert(st1 == (HtmlScan { tag_content: st.tag_content.push(c), ..st }));
        assert(st1.tag_content[0] == st.tag_content[0]);
        lemma_open_plain(st1, s.drop_first());
        assert(st.tag_content.push(c) + s.drop_first() =~= st.tag_content + s);
    }
}

proof fn lemma_open_quoted(st: HtmlScan, s: Seq<char>)
    requires
        st.in_tag,
        st.tag_open,
        st.in_str,
        !st.ignore,
        !st.in_doctype,
        st.tag_content.len() > 0,
        st.tag_content[0] != '!',
        forall|i: int| 0 <= i < s.len() ==> (#[trigger] s[i]) != st.str_char && s[i] != '\\',
    ensures
        html_scan(st, s) == (HtmlScan { tag_content: st.tag_content + s, ..st }),
    decreases s.len(),
{
    if s.len() == 0 {
        assert(st.tag_content + s =~= st.tag_content);
        assert(html_scan(st, s) =~= (HtmlScan { tag_content: st.tag_content + s, ..st }));
    } else {
        let c = s[0];
        let st1 = html_step(st, c);
        assert(!is_comment_open(st.tag_content));
        assert(!is_doctype(st.tag_content));
        assert(st1 == (HtmlScan { tag_content: st.tag_content.push(c), ignore: false, ..st }));
        assert(st1 == (HtmlScan { tag_content: st.tag_content.push(c), ..st }));
        lemma_open_quoted(st1, s.drop_first());
        assert(st.tag_content.push(c) + s.drop_first() =~= st.tag_content + s);
    }
}

proof fn lemma_open_attr(st: HtmlScan, k: Seq<char>, v: Seq<char>)
    requires
        st.in_tag,
        st.tag_open,
        !st.in_str,
        !st.ignore,
        !st.in_doctype,
        st.tag_content.len() > 0,
        st.tag_content[0] != '!',
        ok_key(k),
        ok_val(v),
    ensures
        html_scan(st, ser_attr((k, v))) == (HtmlScan {
            tag_content: st.tag_content + ser_attr((k, v)),
            in_str: false,
            str_char: '"',
            ignore: false,
            ..st
        }),
{
    let a = ser_attr((k, v));
    let head = seq![' '] + k + seq!['='];
    assert(forall|i: int| 0 <= i < head.len() ==> open_plain(#[trigger] head[i])) by {
        assert(head[0] == ' ');
        assert(forall|i: int| 0 < i < head.len() - 1 ==> head[i] == k[i - 1]);
        assert(head[head.len() - 1] == '=');
        assert(forall|j: int| 0 <= j < k.len() ==> plain_char(#[trigger] k[j]));
    }
    lemma_open_plain(st, head);
    let st1 = html_scan(st, head);
    // The opening quote enters the string sub-state and is kept in the
    // tag content.
    let st2 = html_step(st1, '"');
    assert(st1.tag_content[0] == st.tag_content[0]);
    assert(!is_comment_open(st1.tag_content));
    assert(!is_doctype(st1.tag_content));
    assert(st2 == (HtmlScan {
        in_str: true,
        str_char: '"',
        tag_content: st1.tag_content.push('"'),
        ..st1
    }));
    assert(st2.tag_content[0] == st.tag_content[0]);
    // The value passes through inside the string.
    assert(forall|i: int| 0 <= i < v.len() ==> (#[trigger] v[i]) != '"' && v[i] != '\\') by {
        assert(ok_val(v));
    }
    lemma_open_quoted(st2, v);
    let st3 = html_scan(st2, v);
    assert(st3.tag_content[0] == st.tag_content[0]);
    // The closing quote leaves the string sub-state.
    let st4 = html_step(st3, '"');
    assert(!is_comment_open(st3.tag_content));
    assert(!is_doctype(st3.tag_content));
    assert(st4 == (HtmlScan {
        in_str: false,
        ignore: false,
        tag_content: st3.tag_content.push('"'),
        ..st3
    }));
    // Stitch the pieces together.
    assert(a =~= head + (seq!['"'] + (v + seq!['"'])));
    lemma_html_scan_app(st, head, seq!['"'] + (v + seq!['"']));
    assert((seq!['"'] + (v + seq!['"'])).drop_first() =~= v + seq!['"']);
    assert((seq!['"'] + (v + seq!['"']))[0] == '"');
    lemma_html_scan_app(st2, v, seq!['"']);
    assert(seq!['"'][0] == '"');
    assert(seq!['"'].drop_first() =~= Seq::<char>::empty());
    assert(html_scan(st3, seq!['"']) == html_scan(st4, Seq::<char>::empty()));
    assert(st4.tag_content =~= st.tag_content + a);
}

proof fn lemma_open_attrs(st: HtmlScan, attrs: Seq<(Seq<char>, Seq<char>)>)
    requires
        st.in_tag,
        st.tag_open,
        !st.in_str,
        !st.ignore,
        !st.in_doctype,
        st.tag_content.len() > 0,
        st.tag_content[0] != '!',
        wf_attrs(attrs),
    ensures
        ({
            let f = html_scan(st, ser_attrs(attrs));
            f.tag_content == st.tag_content + ser_attrs(attrs) && !f.in_str && !f.ignore
                && f.in_tag && f.tag_open && !f.in_doctype && !f.in_comment == !st.in_comment
                && f.in_comment == st.in_comment && f.stack == st.stack && f.doc_children
                == st.doc_children && f.text_content == st.text_content
        }),
    decreases attrs.len(),
{
    if attrs.len() == 0 {
        assert(ser_attrs(attrs) =~= Seq::<char>::empty());
        assert(st.tag_content + ser_attrs(attrs) =~= st.tag_content);
    } else {
        let pre = attrs.drop_last();
        assert(wf_attrs(pre));
        lemma_open_attrs(st, pre);
        let stp = html_scan(st, ser_attrs(pre));
        lemma_html_scan_app(st, ser_attrs(pre), ser_attr(attrs.last()));
        assert(stp.tag_content[0] == st.tag_content[0]);
        lemma_open_attr(stp, attrs.last().0, attrs.last().1);
        assert(stp.tag_content + ser_attr(attrs.last()) =~= st.tag_content + ser_attrs(attrs));
    }
}

proof fn lemma_close_chars(st: HtmlScan, s: Seq<char>)
    requires
        st.in_tag,
        !st.tag_open,
        forall|i: int| 0 <= i < s.len() ==> (#[trigger] s[i]) != '>',
    ensures
        html_scan(st, s) == (HtmlScan { tag_content: st.tag_content + s, ..st }),
    decreases s.len(),
{
    if s.len() == 0 {
        assert(st.tag_content + s =~= st.tag_content);
        assert(html_scan(st, s) =~= (HtmlScan { tag_content: st.tag_content + s, ..st }));
    } else {
        let st1 = html_step(st, s[0]);
        assert(st1 == (HtmlScan { tag_content: st.tag_content.push(s[0]), ..st }));
        lemma_close_chars(st1, s.drop_first());
        assert(st.tag_content.push(s[0]) + s.drop_first() =~= st.tag_content + s);
    }
}

proof fn lemma_parse_container(n: SNode, st: HtmlScan)
    requires
        wf_node(n),
        scan_ready(st),
    ensures
        ({
            let f = html_scan(st, spec_serialize(n));
            scan_ready(f) && f.stack == scan_attach(st, n).stack && f.doc_children == scan_attach(
                st,
                n,
            ).doc_children
        }),
    decreases n, 1int,
{
    match n.kind {
        SNodeKind::Container(tag, cs, attrs) => {
            let ser = spec_serialize(n);
            // `<` enters the tag; there is no pending text to flush.
            let st_a = html_step(st, '<');
            assert(st_a == (HtmlScan { in_tag: true, tag_open: true, ..st }));
            // The first tag character is plain and the content is empty.
            let c0 = tag[0];
            let st_b = html_step(st_a, c0);
            assert(plain_char(c0));
            assert(!is_comment_open(st_a.tag_content));
            assert(!is_doctype(st_a.tag_content));
            assert(st_b == (HtmlScan { tag_content: st_a.tag_content.push(c0), ..st_a }));
            assert(st_b.tag_content =~= seq![c0]);
            assert(st_b.tag_content[0] == c0);
            // The rest of the tag name.
            let tag_rest = tag.drop_first();
            assert(forall|i: int| 0 <= i < tag_rest.len() ==> open_plain(#[trigger] tag_rest[i]))
                by {
                assert(forall|i: int|
                    0 <= i < tag_rest.len() ==> tag_rest[i] == tag[i + 1] && plain_char(
                        #[trigger] tag[i + 1],
                    ));
            }
            lemma_open_plain(st_b, tag_rest);
            let st_c = html_scan(st_b, tag_rest);
            assert(st_c.tag_content =~= tag);
            // The attributes.
            lemma_open_attrs(st_c, attrs);
            let st_d = html_scan(st_c, ser_attrs(attrs));
            assert(st_d.tag_content == tag + ser_attrs(attrs));
            assert(st_d.tag_content[0] == tag[0]);
            // `>` finishes the open tag and builds the node.
            let st_e = html_step(st_d, '>');
            assert(!is_comment_open(st_d.tag_content));
            assert(!is_doctype(st_d.tag_content));
            lemma_from_tag_round_trip(tag, attrs);
            assert(spec_from_tag(st_d.tag_content) == (tag, attrs));
            assert(mk_container(st_d.tag_content) == SNode {
                kind: SNodeKind::Container(tag, Seq::empty(), attrs),
                css: Seq::empty(),
            });
            let node0 = mk_container(st_d.tag_content);
            // Assemble the full text scanned so far.
            assert(seq!['<'] + tag =~= (seq!['<'] + seq![c0]) + tag_rest);
            assert((seq!['<'] + seq![c0])[0] == '<');
            assert((seq!['<'] + seq![c0]).drop_first() =~= seq![c0]);
            assert(seq![c0][0] == c0);
            assert(seq![c0].drop_first() =~= Seq::<char>::empty());
            assert(html_scan(st, seq!['<'] + seq![c0]) == st_b) by {
                lemma_html_scan_app(st, seq!['<'] + seq![c0], Seq::empty());
                assert(html_scan(st, (seq!['<'] + seq![c0])) == html_scan(
                    html_step(st, '<'),
                    (seq!['<'] + seq![c0]).drop_first(),
                ));
                assert(html_scan(st_a, seq![c0]) == html_scan(st_b, Seq::<char>::empty()));
            }
            lemma_html_scan_app(st, (seq!['<'] + seq![c0]) + tag_rest, ser_attrs(attrs));
            lemma_html_scan_app(st, seq!['<'] + seq![c0], tag_rest);
            assert(html_scan(st, ((seq!['<'] + seq![c0]) + tag_rest) + ser_attrs(attrs)) == st_d);
            let open_text = ((seq!['<'] + seq![c0]) + tag_rest) + ser_attrs(attrs);
            lemma_html_scan_app(st, open_text, seq!['>']);
            assert(seq!['>'][0] == '>');
            assert(seq!['>'].drop_first() =~= Seq::<char>::empty());
            assert(html_scan(st_d, seq!['>']) == html_scan(st_e, Seq::<char>::empty()));
            assert(html_scan(st, open_text + seq!['>']) == st_e);
            let opened = open_text + seq!['>'];
            assert(opened =~= seq!['<'] + tag + ser_attrs(attrs) + seq!['>']);

            if is_void_tag(tag) {
                // A void element attaches at once, with no close tag.
                assert(cs.len() == 0);
                assert(node0 == n) by {
                    assert(n.css =~= Seq::<(Seq<char>, Seq<char>)>::empty());
                    assert(cs =~= Seq::<SNode>::empty());
                }
                assert(scan_ready(st_e));
                assert(st_e.stack == scan_attach(st, n).stack);
                assert(st_e.doc_children == scan_attach(st, n).doc_children);
                assert(ser =~= opened);
            } else {
                // The node is pushed as the innermost open container.
                assert(st_e.stack == st.stack.push(node0));
                assert(st_e.doc_children == st.doc_children);
                assert(scan_ready(st_e));
                // The children attach themselves into the open container.
                lemma_parse_seq(cs, st_e);
                let st_f = html_scan(st_e, ser_seq(cs));
                assert(scan_ready(st_f));
                lemma_attach_list_top(st_e, cs);
                assert(st_e.stack.last() == node0);
                assert(st_f.stack == st_e.stack.update(
                    st_e.stack.len() - 1,
                    SNode {
                        kind: SNodeKind::Container(tag, Seq::empty() + cs, attrs),
                        css: Seq::empty(),
                    },
                ));
                assert(Seq::empty() + cs =~= cs);
                let full = SNode { kind: SNodeKind::Container(tag, cs, attrs), css: Seq::empty() };
                assert(full == n);
                assert(st_f.stack =~= st.stack.push(full));
                assert(st_f.doc_children == st.doc_children);
                // The close tag pops the container and attaches it.
                let st_g = html_step(st_f, '<');
                assert(st_g == (HtmlScan { in_tag: true, tag_open: true, ..st_f }));
                let st_h = html_step(st_g, '/');
                assert(st_h == (HtmlScan { tag_open: false, ..st_g }));
                assert(forall|i: int| 0 <= i < tag.len() ==> (#[trigger] tag[i]) != '>') by {
                    assert(forall|i: int| 0 <= i < tag.len() ==> plain_char(#[trigger] tag[i]));
                }
                lemma_close_chars(st_h, tag);
                let st_i = html_scan(st_h, tag);
                let st_j = html_step(st_i, '>');
                assert(st_i.stack == st.stack.push(full));
                assert(st_i.stack.len() == st.stack.len() + 1);
                if st.stack.len() > 0 {
                    assert(st_i.stack.last() == full);
                    assert(st_i.stack[st_i.stack.len() - 2] == st.stack.last()) by {
                        assert(st.stack.push(full)[st.stack.len() - 1] == st.stack[st.stack.len()
                            - 1]);
                    }
                    assert(st_i.stack.drop_last() =~= st.stack);
                    assert(st_j.stack =~= scan_attach(st, n).stack);
                    assert(st_j.doc_children == scan_attach(st, n).doc_children);
                } else {
                    assert(st_i.stack[0] == full);
                    assert(st_j.stack =~= Seq::<SNode>::empty());
                    assert(st_j.doc_children =~= st.doc_children.push(full));
                    assert(st_j.stack =~= scan_attach(st, n).stack);
                }
                assert(scan_ready(st_j));
                // Assemble the close-tag text.
                let close_text = seq!['<', '/'] + tag + seq!['>'];
                assert(html_scan(st_f, close_text) == st_j) by {
                    assert(close_text =~= (seq!['<', '/'] + tag) + seq!['>']);
                    lemma_html_scan_app(st_f, seq!['<', '/'] + tag, seq!['>']);
                    assert((seq!['<', '/'] + tag)[0] == '<');
                    assert((seq!['<', '/'] + tag).drop_first() =~= seq!['/'] + tag);
                    assert((seq!['/'] + tag)[0] == '/');
                    assert((seq!['/'] + tag).drop_first() =~= tag);
                    assert(html_scan(st_f, seq!['<', '/'] + tag) == html_scan(st_g, seq!['/']
                        + tag));
                    assert(html_scan(st_g, seq!['/'] + tag) == html_scan(st_h, tag));
                    assert(seq!['>'][0] == '>');
                    assert(seq!['>'].drop_first() =~= Seq::<char>::empty());
                    assert(html_scan(st_i, seq!['>']) == html_scan(st_j, Seq::<char>::empty()));
                    assert(html_scan(st_i, seq!['>']) == st_j);
                }
                assert(ser =~= opened + (ser_seq(cs) + close_text));
                lemma_html_scan_app(st, opened, ser_seq(cs) + close_text);
                lemma_html_scan_app(st_e, ser_seq(cs), close_text);
                assert(html_scan(st, ser) == st_j);
            }
        },
        _ => {},
    }
}

proof fn lemma_parse_seq(cs: Seq<SNode>, st: HtmlScan)
    requires
        wf_seq(cs),
        scan_ready(st),
    ensures
        ({
            let f = html_scan(st, ser_seq(cs));
            scan_ready(f) && f.stack == attach_list(st, cs).stack && f.doc_children == attach_list(
                st,
                cs,
            ).doc_children
        }),
    decreases cs, 0int,
{
    if cs.len() == 0 {
        assert(ser_seq(cs) =~= Seq::<char>::empty());
        assert(html_scan(st, ser_seq(cs)) == st);
    } else {
        lemma_ser_seq_front(cs);
        lemma_html_scan_app(st, spec_serialize(cs[0]), ser_seq(cs.drop_first()));
        lemma_parse_container(cs[0], st);
        let f0 = html_scan(st, spec_serialize(cs[0]));
        lemma_parse_seq(cs.drop_first(), f0);
        let f = html_scan(f0, ser_seq(cs.drop_first()));
        lemma_attach_list_obs(f0, scan_attach(st, cs[0]), cs.drop_first());
    }
}

/// Markup round trip: parsing the serialized form of any well-formed
/// element structure reproduces the tree exactly — the same tag names,
/// the same attributes, the same nesting.
pub proof fn lemma_markup_round_trip(t: SNode)
    requires
        wf_document(t),
    ensures
        spec_parse_html(spec_serialize(t)) == t,
{
    match t.kind {
        SNodeKind::Document(cs) => {
            let init = html_init();
            assert(scan_ready(init));
            lemma_parse_seq(cs, init);
            let f = html_scan(init, ser_seq(cs));
            lemma_attach_list_doc(init, cs);
            assert(f.doc_children == Seq::<SNode>::empty() + cs);
            assert(Seq::<SNode>::empty() + cs =~= cs);
            assert(spec_parse_html(spec_serialize(t)) == SNode {
                kind: SNodeKind::Document(cs),
                css: Seq::empty(),
            });
            assert(t.css =~= Seq::<(Seq<char>, Seq<char>)>::empty());
        },
        _ => {},
    }
}

proof fn lemma_find_css_seq_take(cs: Seq<Node>, i: int)
    requires
        0 <= i < cs.len(),
    ensures
        spec_find_css_seq(cs.take(i + 1)) == spec_find_css_seq(cs.take(i)) + spec_find_css(cs[i]),
    decreases i,
{
    let a = cs.take(i + 1);
    let b = cs.take(i);
    if i == 0 {
        assert(a.drop_first() =~= Seq::<Node>::empty());
        assert(b =~= Seq::<Node>::empty());
        assert(spec_find_css_seq(a) =~= spec_find_css_seq(b) + spec_find_css(cs[0]));
    } else {
        lemma_find_css_seq_take(cs.drop_first(), i - 1);
        assert(a.drop_first() =~= cs.drop_first().take(i));
        assert(b.drop_first() =~= cs.drop_first().take(i - 1));
        assert(cs.drop_first()[i - 1] == cs[i]);
        assert(a[0] == cs[0] && b[0] == cs[0]);
        assert(spec_find_css_seq(a) =~= spec_find_css_seq(b) + spec_find_css(cs[i]));
    }
}

} // verus!
