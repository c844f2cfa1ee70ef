use xml::{escape, unescape, EndTag, Element, Event, StartTag, Xml};

#[test]
fn unescape_escape_roundtrip() {
    for s in ["", "plain", "a<b>&c'd\"e", "&amp;", "x;y&z", "\u{201c}quoted\u{201d}"] {
        assert_eq!(unescape(&escape(s)), Ok(s.to_string()));
    }
}

#[test]
fn escape_leaves_other_characters() {
    assert_eq!(escape("abc xyz;#"), "abc xyz;#");
    assert_eq!(escape(""), "");
}

#[test]
fn unescape_plain_text() {
    assert_eq!(unescape("no entities; here"), Ok("no entities; here".to_string()));
}

#[test]
fn unescape_numeric_references() {
    assert_eq!(unescape("&#65;&#x42;&#x6a;&#x6A;"), Ok("ABjj".to_string()));
    assert_eq!(unescape("&#x10FFFF;"), Ok("\u{10FFFF}".to_string()));
}

#[test]
fn unescape_text_after_entity() {
    assert_eq!(unescape("a&amp;b;c"), Ok("a&b;c".to_string()));
}

#[test]
fn unescape_errors() {
    assert_eq!(unescape("&"), Err("&".to_string()));
    assert_eq!(unescape("a&foo"), Err("&foo".to_string()));
    assert_eq!(unescape("&foo;bar"), Err("&foo;".to_string()));
    assert_eq!(unescape("&#xZZ;"), Err("&#xZZ;".to_string()));
    assert_eq!(unescape("&#;"), Err("&#;".to_string()));
    assert_eq!(unescape("&#x;"), Err("&#x;".to_string()));
    assert_eq!(unescape("&#X41;"), Err("&#X41;".to_string()));
    assert_eq!(unescape("&#xD800;"), Err("&#xD800;".to_string()));
    assert_eq!(unescape("&#x110000;"), Err("&#x110000;".to_string()));
    assert_eq!(unescape("&#99999999999;"), Err("&#99999999999;".to_string()));
    // the first error is reported
    assert_eq!(unescape("&lt;&bad;&worse;"), Err("&bad;".to_string()));
}

#[test]
fn attributes_set_get_remove() {
    let mut e = Element::new("a", None, &[("k", None, "1"), ("n", Some("urn:x"), "2")]);
    assert_eq!(e.get_attribute("k", None), Some("1"));
    assert_eq!(e.get_attribute("n", Some("urn:x")), Some("2"));
    assert_eq!(e.get_attribute("n", None), None);
    assert_eq!(e.set_attribute("k", None, "3"), Some("1".to_string()));
    assert_eq!(e.get_attribute("k", None), Some("3"));
    assert_eq!(e.set_attribute("new", None, "4"), None);
    assert_eq!(e.get_attribute("new", None), Some("4"));
    assert_eq!(e.get_attribute("n", Some("urn:x")), Some("2"));
    assert_eq!(e.remove_attribute("k", None), Some("3".to_string()));
    assert_eq!(e.get_attribute("k", None), None);
    assert_eq!(e.remove_attribute("k", None), None);
    assert_eq!(e.get_attribute("new", None), Some("4"));
}

#[test]
fn new_later_attribute_wins() {
    let e = Element::new("a", None, &[("k", None, "1"), ("k", None, "2")]);
    assert_eq!(e.get_attribute("k", None), Some("2"));
    assert_eq!(e.attributes.len(), 1);
}

#[test]
fn new_sets_fields() {
    let e = Element::new("a", Some("urn:x"), &[]);
    assert_eq!(e.name, "a");
    assert_eq!(e.ns, Some("urn:x".to_string()));
    assert_eq!(e.default_ns, Some("urn:x".to_string()));
    assert!(e.prefixes.is_empty());
    assert!(e.children.is_empty());
}

#[test]
fn get_child_and_children() {
    let mut e = Element::new("root", None, &[]);
    e.tag_stay(Element::new("b", None, &[("i", None, "1")]))
        .text("t")
        .tag_stay(Element::new("b", Some("urn:x"), &[("i", None, "2")]))
        .tag_stay(Element::new("b", None, &[("i", None, "3")]))
        .tag_stay(Element::new("c", None, &[]));
    let first = e.get_child("b", None).unwrap();
    assert_eq!(first.get_attribute("i", None), Some("1"));
    let all = e.get_children("b", None);
    assert_eq!(all.len(), 2);
    assert_eq!(all[0].get_attribute("i", None), Some("1"));
    assert_eq!(all[1].get_attribute("i", None), Some("3"));
    let ns = e.get_children("b", Some("urn:x"));
    assert_eq!(ns.len(), 1);
    assert_eq!(ns[0].get_attribute("i", None), Some("2"));
    assert!(e.get_child("d", None).is_none());
    assert!(e.get_children("d", None).is_empty());
}

#[test]
fn tag_gives_the_new_child() {
    let mut e = Element::new("a", None, &[]);
    e.tag(Element::new("b", None, &[])).text("x");
    e.text("y");
    assert_eq!(e.to_string(), "<a><b>x</b>y</a>");
    assert_eq!(e.content_str(), "xy");
}

#[test]
fn content_of_nested_elements() {
    let mut inner = Element::new("b", None, &[]);
    inner.text("in").cdata("<c>");
    let mut e = Element::new("a", None, &[]);
    e.text("1").tag_stay(inner).comment("no").pi("no").text("2");
    assert_eq!(e.content_str(), "1in<c>2");
}

#[test]
fn show_escapes_text_and_attributes() {
    let mut e = Element::new("a", None, &[("t", None, "<&>'")]);
    e.text("x<y&z");
    assert_eq!(e.to_string(), "<a t='&lt;&amp;&gt;&apos;'>x&lt;y&amp;z</a>");
    assert_eq!(Xml::CharacterNode("a<b".to_string()).to_string(), "a&lt;b");
}

#[test]
fn show_default_namespaces() {
    let mut e = Element::new("a", Some("urn:x"), &[]);
    e.tag_stay(Element::new("b", Some("urn:x"), &[]))
        .tag_stay(Element::new("c", Some("urn:y"), &[]))
        .tag_stay(Element::new("d", None, &[]));
    assert_eq!(
        e.to_string(),
        "<a xmlns='urn:x'><b/><c xmlns='urn:y'/><d xmlns=''/></a>"
    );
}

#[test]
fn show_prefixed_names() {
    let mut e = Element::new("a", None, &[("href", Some("urn:p"), "v")]);
    e.prefixes.push(("urn:p".to_string(), "p".to_string()));
    e.ns = Some("urn:p".to_string());
    let mut child = Element::new("b", None, &[]);
    child.ns = Some("urn:p".to_string());
    e.tag_stay(child);
    assert_eq!(e.to_string(), "<p:a p:href='v'><p:b/></p:a>");
}

#[test]
fn show_inner_prefix_hides_outer() {
    let mut e = Element::new("a", None, &[]);
    e.prefixes.push(("urn:p".to_string(), "p".to_string()));
    let mut child = Element::new("b", None, &[("k", Some("urn:p"), "1")]);
    child.prefixes.push(("urn:p".to_string(), "q".to_string()));
    e.tag_stay(child);
    assert_eq!(e.to_string(), "<a><b q:k='1'/></a>");
}

#[test]
fn show_element_node() {
    let node = Xml::ElementNode(Element::new("a", None, &[]));
    assert_eq!(node.to_string(), "<a/>");
}

#[test]
fn clone_is_deep() {
    let mut e = Element::new("a", None, &[("k", None, "v")]);
    e.tag(Element::new("b", None, &[])).text("t");
    let c = e.clone();
    assert_eq!(c, e);
    assert_eq!(c.to_string(), e.to_string());
    assert_eq!(c.content_str(), e.content_str());
    let n = Xml::CommentNode("x".to_string());
    assert_eq!(n.clone(), n);
}

#[test]
fn get_after_set_law() {
    let mut e = Element::new("a", None, &[("other", None, "o")]);
    e.set_attribute("k", Some("urn:x"), "v");
    assert_eq!(e.get_attribute("k", Some("urn:x")), Some("v"));
    assert_eq!(e.get_attribute("other", None), Some("o"));
}

#[test]
fn get_after_remove_law() {
    let mut e = Element::new("a", None, &[("k", None, "v"), ("other", None, "o")]);
    e.remove_attribute("k", None);
    assert_eq!(e.get_attribute("k", None), None);
    assert_eq!(e.get_attribute("other", None), Some("o"));
}

#[test]
fn set_same_value_law() {
    let mut e = Element::new("a", None, &[("k", None, "v")]);
    let before = e.clone();
    e.set_attribute("k", None, "v");
    assert_eq!(e, before);
}

#[test]
fn children_after_tag_law() {
    let mut e = Element::new("a", None, &[]);
    e.tag_stay(Element::new("b", None, &[("i", None, "1")]));
    let before = e.get_children("b", None).len();
    e.tag(Element::new("b", None, &[("i", None, "2")]));
    let after = e.get_children("b", None);
    assert_eq!(after.len(), before + 1);
    assert_eq!(after[after.len() - 1].get_attribute("i", None), Some("2"));
}

#[test]
fn character_text_unescapes_law() {
    let data = "1 < 2 & \"x\"";
    let text = Xml::CharacterNode(data.to_string()).to_string();
    assert_eq!(unescape(&text), Ok(data.to_string()));
}

#[test]
fn events_compare() {
    let start = StartTag {
        name: "a".to_string(),
        ns: None,
        prefix: None,
        attributes: vec![(("k".to_string(), None), "v".to_string())],
    };
    let end = EndTag { name: "a".to_string(), ns: None, prefix: None };
    assert_eq!(Event::ElementStart(start), Event::ElementStart(StartTag {
        name: "a".to_string(),
        ns: None,
        prefix: None,
        attributes: vec![(("k".to_string(), None), "v".to_string())],
    }));
    assert_ne!(Event::ElementEnd(end), Event::Characters("a".to_string()));
}

#[test]
fn new_keeps_one_pair_per_key() {
    let e = Element::new("a", None, &[("k", None, "1"), ("k", Some("u"), "2"), ("k", None, "3")]);
    assert_eq!(e.attributes.len(), 2);
    assert_eq!(e.get_attribute("k", None), Some("3"));
    assert_eq!(e.get_attribute("k", Some("u")), Some("2"));
    assert_eq!(e.attributes[0].1, "3");
}

#[test]
fn set_replaces_in_place_or_appends_once() {
    let mut e = Element::new("a", None, &[("x", None, "1"), ("y", None, "2")]);
    e.set_attribute("x", None, "9");
    assert_eq!(e.attributes.len(), 2);
    assert_eq!(e.attributes[0], (("x".to_string(), None), "9".to_string()));
    e.set_attribute("z", None, "3");
    assert_eq!(e.attributes.len(), 3);
    assert_eq!(e.attributes[2], (("z".to_string(), None), "3".to_string()));
    assert_eq!(e.to_string(), "<a x='9' y='2' z='3'/>");
}

#[test]
fn remove_keeps_other_pairs_in_order() {
    let mut e = Element::new("a", None, &[("x", None, "1"), ("y", None, "2"), ("z", None, "3")]);
    e.remove_attribute("y", None);
    assert_eq!(e.attributes.len(), 2);
    assert_eq!(e.to_string(), "<a x='1' z='3'/>");
}

#[test]
fn attribute_order_does_not_matter_law() {
    let a = Element::new("a", None, &[("x", None, "1"), ("y", None, "2")]);
    let b = Element::new("a", None, &[("y", None, "2"), ("x", None, "1")]);
    assert_eq!(a, b);
    let c = Element::new("a", None, &[("y", None, "2"), ("x", None, "3")]);
    assert_ne!(a, c);
}

#[test]
fn element_equality_compares_children_and_prefixes() {
    let mut a = Element::new("a", None, &[]);
    a.text("t");
    let mut b = Element::new("a", None, &[]);
    b.text("t");
    assert_eq!(a, b);
    b.comment("c");
    assert_ne!(a, b);
    let mut p = Element::new("a", None, &[]);
    p.prefixes.push(("urn:x".to_string(), "x".to_string()));
    p.prefixes.push(("urn:y".to_string(), "y".to_string()));
    let mut q = Element::new("a", None, &[]);
    q.prefixes.push(("urn:y".to_string(), "y".to_string()));
    q.prefixes.push(("urn:x".to_string(), "x".to_string()));
    assert_eq!(p, q);
    assert_ne!(Xml::CharacterNode("a".to_string()), Xml::CDATANode("a".to_string()));
}

#[test]
fn clone_is_equal_law() {
    let mut e = Element::new("a", Some("urn:x"), &[("k", None, "v")]);
    e.tag(Element::new("b", None, &[])).cdata("d");
    assert!(e.clone() == e);
}

#[test]
fn start_tag_attributes_compare_as_map() {
    let a = StartTag {
        name: "a".to_string(),
        ns: None,
        prefix: None,
        attributes: vec![(("x".to_string(), None), "1".to_string()), (("y".to_string(), None), "2".to_string())],
    };
    let b = StartTag {
        name: "a".to_string(),
        ns: None,
        prefix: None,
        attributes: vec![(("y".to_string(), None), "2".to_string()), (("x".to_string(), None), "1".to_string())],
    };
    assert!(a == b);
    assert_eq!(Event::ElementStart(a), Event::ElementStart(b));
}

#[test]
fn escape_distributes_law() {
    let (a, b) = ("x<'", "&y\"");
    assert_eq!(escape(&format!("{}{}", a, b)), format!("{}{}", escape(a), escape(b)));
}

#[test]
fn element_node_text_law() {
    let mut e = Element::new("a", Some("urn:x"), &[("k", None, "v")]);
    e.text("t");
    let s = e.to_string();
    assert_eq!(Xml::ElementNode(e).to_string(), s);
}
