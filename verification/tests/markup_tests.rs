use mehweb::html::Node;
use mehweb::html::NodeType;
use mehweb::html::parse;

fn tag_of(n: &Node) -> &str {
    match &n.node_type {
        NodeType::Container(tag, _, _) => tag.as_str(),
        _ => panic!("not a container"),
    }
}

fn text_of(n: &Node) -> &str {
    match &n.node_type {
        NodeType::Text(t) => t.as_str(),
        _ => panic!("not a text node"),
    }
}

#[test]
fn parse_builds_nested_tree() {
    let doc = parse(String::from("<html><body><p>hello</p></body></html>"));
    let roots = doc.children();
    assert_eq!(roots.len(), 1);
    assert_eq!(tag_of(&roots[0]), "html");
    let html_kids = roots[0].children();
    assert_eq!(html_kids.len(), 1);
    assert_eq!(tag_of(&html_kids[0]), "body");
    let body_kids = html_kids[0].children();
    assert_eq!(tag_of(&body_kids[0]), "p");
    let p_kids = body_kids[0].children();
    assert_eq!(p_kids.len(), 1);
    assert_eq!(text_of(&p_kids[0]), "hello");
}

#[test]
fn parse_reads_attributes() {
    let doc = parse(String::from("<p class=\"cool\" id=aa>x</p>"));
    let roots = doc.children();
    match &roots[0].node_type {
        NodeType::Container(tag, _, attrs) => {
            assert_eq!(tag.as_str(), "p");
            assert_eq!(attrs.get("class").unwrap().as_str(), "cool");
            assert_eq!(attrs.get("id").unwrap().as_str(), "aa");
        },
        _ => panic!("expected container"),
    }
}

#[test]
fn parse_quoted_attribute_keeps_spaces() {
    let doc = parse(String::from("<p title='a b' id=z></p>"));
    let roots = doc.children();
    match &roots[0].node_type {
        NodeType::Container(_, _, attrs) => {
            assert_eq!(attrs.get("title").unwrap().as_str(), "a b");
            assert_eq!(attrs.get("id").unwrap().as_str(), "z");
        },
        _ => panic!("expected container"),
    }
}

#[test]
fn parse_drops_malformed_attribute_token() {
    let doc = parse(String::from("<p broken class=ok></p>"));
    let roots = doc.children();
    match &roots[0].node_type {
        NodeType::Container(_, _, attrs) => {
            assert!(attrs.get("broken").is_none());
            assert_eq!(attrs.get("class").unwrap().as_str(), "ok");
        },
        _ => panic!("expected container"),
    }
}

#[test]
fn parse_void_element_is_leaf() {
    let doc = parse(String::from("<div><br><p>t</p></div>"));
    let roots = doc.children();
    let kids = roots[0].children();
    assert_eq!(kids.len(), 2);
    assert_eq!(tag_of(&kids[0]), "br");
    assert_eq!(kids[0].children().len(), 0);
    assert_eq!(tag_of(&kids[1]), "p");
}

#[test]
fn parse_mismatched_close_closes_innermost() {
    // The close tag's name is not validated: it pops the innermost.
    let doc = parse(String::from("<div><p>x</wrong></div>"));
    let roots = doc.children();
    assert_eq!(tag_of(&roots[0]), "div");
    let kids = roots[0].children();
    assert_eq!(kids.len(), 1);
    assert_eq!(tag_of(&kids[0]), "p");
}

#[test]
fn parse_discards_comments_and_doctype() {
    let doc = parse(String::from(
        "<!DOCTYPE html><!-- a <p>ignored</p> comment --><div>x</div>",
    ));
    let roots = doc.children();
    assert_eq!(roots.len(), 1);
    assert_eq!(tag_of(&roots[0]), "div");
}

#[test]
fn parse_comment_of_only_dashes_still_closes() {
    let doc = parse(String::from("<!----><p>x</p>"));
    let roots = doc.children();
    assert_eq!(roots.len(), 1);
    assert_eq!(tag_of(&roots[0]), "p");
}

#[test]
fn parse_drops_whitespace_only_text() {
    let doc = parse(String::from("<div>  \n\t  <p>x</p>  </div>"));
    let roots = doc.children();
    let kids = roots[0].children();
    assert_eq!(kids.len(), 1);
    assert_eq!(tag_of(&kids[0]), "p");
}

#[test]
fn parse_unclosed_container_is_dropped() {
    let doc = parse(String::from("<div><p>x"));
    assert_eq!(doc.children().len(), 0);
}

#[test]
fn parse_stray_close_tag_is_ignored() {
    let doc = parse(String::from("</div><p>x</p>"));
    let roots = doc.children();
    assert_eq!(roots.len(), 1);
    assert_eq!(tag_of(&roots[0]), "p");
}

#[test]
fn markup_round_trip_reproduces_structure() {
    // Parsing the re-serialized tree gives the same markup again:
    // the same tags, the same attributes, the same nesting.
    let src = String::from(
        "<html><body class=\"main\"><div id=\"a\" title=\"x y\"><br><p>some text</p></div></body></html>",
    );
    let once = parse(src);
    let text1 = once.to_markup();
    let twice = parse(text1.clone());
    let text2 = twice.to_markup();
    assert_eq!(text1, text2);
}

#[test]
fn find_css_collects_style_elements() {
    let doc = parse(String::from(
        "<html><head><style>p{color:red;}</style></head><body><style>a{x:y;}</style></body></html>",
    ));
    assert_eq!(doc.find_css().as_str(), "p{color:red;}a{x:y;}");
}
