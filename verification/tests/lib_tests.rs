use xml::{escape, unescape, Element, Xml};

#[test]
fn test_escape() {
    let esc = escape("&<>'\"");
    assert_eq!(esc, "&amp;&lt;&gt;&apos;&quot;".to_string());
}

#[test]
fn test_unescape() {
    let unesc = unescape("&amp;lt;&lt;&gt;&apos;&quot;&#x201c;&#x201d;&#38;&#34;");
    assert_eq!(unesc, Ok("&lt;<>'\"\u{201c}\u{201d}&\"".to_string()));
}

#[test]
fn test_unescape_invalid() {
    let unesc = unescape("&amp;&nbsp;");
    assert_eq!(unesc, Err("&nbsp;".to_string()));
}

#[test]
fn test_show_element() {
    let elem = Element::new("a", None, &[]);
    assert_eq!(elem.to_string(), "<a/>");

    let elem = Element::new("a", None, &[("href", None, "http://rust-lang.org")]);
    assert_eq!(elem.to_string(), "<a href='http://rust-lang.org'/>");

    let mut elem = Element::new("a", None, &[]);
    elem.tag(Element::new("b", None, &[]));
    assert_eq!(elem.to_string(), "<a><b/></a>");

    let mut elem = Element::new("a", None, &[("href", None, "http://rust-lang.org")]);
    elem.tag(Element::new("b", None, &[]));
    assert_eq!(elem.to_string(), "<a href='http://rust-lang.org'><b/></a>");
}

#[test]
fn test_show_characters() {
    let chars = Xml::CharacterNode("some text".to_string());
    assert_eq!(chars.to_string(), "some text");
}

#[test]
fn test_show_cdata() {
    let chars = Xml::CDATANode("some text".to_string());
    assert_eq!(chars.to_string(), "<![CDATA[some text]]>");
}

#[test]
fn test_show_comment() {
    let chars = Xml::CommentNode("some text".to_string());
    assert_eq!(chars.to_string(), "<!--some text-->");
}

#[test]
fn test_show_pi() {
    let chars = Xml::PINode("xml version='1.0'".to_string());
    assert_eq!(chars.to_string(), "<?xml version='1.0'?>");
}

#[test]
fn test_content_str() {
    let mut elem = Element::new("a", None, &[]);
    elem.pi("processing information")
        .cdata("<hello/>")
        .tag_stay(Element::new("b", None, &[]))
        .text("World")
        .comment("Nothing to see");
    assert_eq!(elem.content_str(), "<hello/>World".to_string());
}
