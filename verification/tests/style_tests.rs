use mehweb::cascade::Config;
use mehweb::cascade::apply_css;
use mehweb::cascade::basic_selector_applies;
use mehweb::cascade::parse_decls;
use mehweb::cascade::selector_applies;
use mehweb::css;
use mehweb::html::Node;
use mehweb::html::NodeType;
use mehweb::html::parse;
use mehweb::stylemap::StyleMap;

fn style_config() -> Config {
    Config {
        default_css: Vec::new(),
        inherited: vec![String::from("color"), String::from("font-size")],
        colors: Vec::new(),
        font_size: 16,
    }
}

fn child<'a>(n: &'a Node, i: usize) -> &'a Node {
    &n.children()[i]
}

fn resolved<'a>(n: &'a Node, key: &str) -> &'a str {
    n.css.get(key).expect("property not resolved").as_str()
}

#[test]
fn css_parse_keeps_rule_order() {
    let rules = css::parse(String::from(
        "p { color: red; margin: 4px; }  div.x { a: b; } ",
    ));
    assert_eq!(rules.len(), 2);
    assert_eq!(rules[0].0.as_str(), "p");
    assert_eq!(rules[0].1.len(), 2);
    assert_eq!(rules[0].1[0].0.as_str(), "color");
    assert_eq!(rules[0].1[0].1.as_str(), "red");
    assert_eq!(rules[0].1[1].0.as_str(), "margin");
    assert_eq!(rules[0].1[1].1.as_str(), "4px");
    assert_eq!(rules[1].0.as_str(), "div.x");
}

#[test]
fn css_parse_discards_comments() {
    let rules = css::parse(String::from(
        "p /* note */ { color: /* inner */ red; }",
    ));
    assert_eq!(rules.len(), 1);
    // The comment opener and its content vanish from the buffered text;
    // the character right after `/*` is consumed with it.
    assert_eq!(rules[0].0.as_str(), "p");
    assert_eq!(rules[0].1[0].1.as_str(), "red");
}

#[test]
fn css_parse_drops_pending_pair_without_semicolon() {
    // `}` closes a block only from the key state, so a declaration not
    // ended by `;` swallows the brace into its value and the rule is
    // never emitted.
    let rules = css::parse(String::from("p { color: red }"));
    assert_eq!(rules.len(), 0);
    // With the `;` present the block closes normally.
    let ok = css::parse(String::from("p { color: red; }"));
    assert_eq!(ok.len(), 1);
    assert_eq!(ok[0].1.len(), 1);
}

#[test]
fn decls_parse_requires_single_colon() {
    let d = parse_decls("color: red; broken; margin : 4px ;");
    assert_eq!(d.len(), 2);
    assert_eq!((d[0].0.as_str(), d[0].1.as_str()), ("color", "red"));
    assert_eq!((d[1].0.as_str(), d[1].1.as_str()), ("margin", "4px"));
}

#[test]
fn stylemap_insert_overwrites() {
    let mut m = StyleMap::new();
    m.insert(String::from("color"), String::from("red"));
    m.insert(String::from("width"), String::from("4px"));
    m.insert(String::from("color"), String::from("blue"));
    assert_eq!(m.get("color").unwrap().as_str(), "blue");
    assert_eq!(m.get("width").unwrap().as_str(), "4px");
    assert!(m.get("margin").is_none());
}

#[test]
fn selector_matches_class_literally() {
    // `.cool` matches exactly the class attribute value, not a
    // space-separated multi-class list.
    let mut attrs = StyleMap::new();
    attrs.insert(String::from("class"), String::from("cool"));
    assert!(basic_selector_applies("p", &attrs, ".cool"));
    assert!(basic_selector_applies("p", &attrs, "*"));
    assert!(basic_selector_applies("p", &attrs, "p"));
    assert!(!basic_selector_applies("p", &attrs, ".coo"));
    assert!(!basic_selector_applies("p", &attrs, "div"));

    let mut multi = StyleMap::new();
    multi.insert(String::from("class"), String::from("cool extra"));
    assert!(!basic_selector_applies("p", &multi, ".cool"));
}

#[test]
fn selector_matches_id() {
    let mut attrs = StyleMap::new();
    attrs.insert(String::from("id"), String::from("main"));
    assert!(basic_selector_applies("div", &attrs, "#main"));
    assert!(!basic_selector_applies("div", &attrs, "#other"));
}

#[test]
fn descendant_selector_walks_ancestors() {
    let body = (String::from("body"), StyleMap::new());
    let mut p_attrs = StyleMap::new();
    p_attrs.insert(String::from("class"), String::from("cool"));
    let p = (String::from("p"), p_attrs);
    let chain = vec![body, p];
    assert!(selector_applies(&chain, "body .cool"));
    assert!(selector_applies(&chain, ".cool"));
    assert!(!selector_applies(&chain, "div .cool"));
}

#[test]
fn cascade_precedence_inline_beats_selector_beats_default() {
    let html = String::from(
        "<html><head><style>*{color:green;} body{color:blue;} body .cool{color:red;}</style></head><body><p class=\"cool\" style=\"color: yellow\">t</p></body></html>",
    );
    let doc = parse(html);
    let rules = css::parse(doc.find_css());
    let styled = apply_css(&rules, doc, &style_config());
    let html_el = child(&styled, 0);
    let body = child(html_el, 1);
    let p = child(body, 0);
    assert_eq!(resolved(p, "color"), "yellow");
    // Without the inline declaration the most specific matching rule,
    // in file order, would have won: drop it and check red.
    let html2 = String::from(
        "<html><head><style>*{color:green;} body{color:blue;} body .cool{color:red;}</style></head><body><p class=\"cool\">t</p></body></html>",
    );
    let doc2 = parse(html2);
    let rules2 = css::parse(doc2.find_css());
    let styled2 = apply_css(&rules2, doc2, &style_config());
    let p2 = child(child(child(&styled2, 0), 1), 0);
    assert_eq!(resolved(p2, "color"), "red");
}

#[test]
fn inheritance_then_override() {
    // blue flows down from body, but the child's own declaration wins.
    let html = String::from(
        "<html><head><style>body{color:blue;}</style></head><body><p class=\"cool\" style=\"color: green\">t</p><p>u</p></body></html>",
    );
    let doc = parse(html);
    let rules = css::parse(doc.find_css());
    let styled = apply_css(&rules, doc, &style_config());
    let body = child(child(&styled, 0), 1);
    assert_eq!(resolved(body, "color"), "blue");
    let p = child(body, 0);
    assert_eq!(resolved(p, "color"), "green");
    // The overriding value flows on down to the text run.
    let t = child(p, 0);
    assert_eq!(resolved(t, "color"), "green");
    // A sibling without its own declaration keeps the inherited blue.
    let q = child(body, 1);
    assert_eq!(resolved(q, "color"), "blue");
}

#[test]
fn cascade_applies_tag_defaults_first() {
    let config = Config {
        default_css: vec![(String::from("p"), String::from("color: black; margin: 4px;"))],
        inherited: vec![String::from("color")],
        colors: Vec::new(),
        font_size: 16,
    };
    let doc = parse(String::from("<p style=\"color: red\">x</p>"));
    let styled = apply_css(&Vec::new(), doc, &config);
    let p = child(&styled, 0);
    // The default margin stays; the default color is overwritten.
    assert_eq!(resolved(p, "margin"), "4px");
    assert_eq!(resolved(p, "color"), "red");
}
