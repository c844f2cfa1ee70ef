//! Laws that relate the operations on elements to one another.
use vstd::prelude::*;
use crate::assoc::{as_map, find, find_last};
use crate::display::{
    attr_text, attrs_text, child_text, elem_printable, elem_text, needs_prefix, node_printable,
    nodes_printable, nodes_text, scope_of, xml_text,
};
use crate::element::{
    appended_child, attr_entries, content_of_node, content_of_nodes, named_children, opt_view,
    prefix_entries, same_element, same_node, same_nodes, Element, Xml,
};
use crate::equality::{
    element_eq, lemma_nodes_eq_at, node_eq, nodes_eq, same_attributes, same_prefixes, start_tag_eq,
};
use crate::event::StartTag;
use crate::text::{escaped, is_infix, unescape_inverts_escape, unescaped};

verus! {

/// Reading one attribute agrees with the map of all attributes: the
/// attribute is there exactly when the map holds its key, with the map's value.
pub proof fn attribute_agrees_with_map(e: Element, name: Seq<char>, ns: Option<Seq<char>>)
    ensures
        e.attribute(name, ns) is Some <==> e.attribute_map().contains_key((name, ns)),
        e.attribute(name, ns) is Some ==> e.attribute(name, ns) == Some(
            e.attribute_map()[(name, ns)],
        ),
{
}

/// After `set_attribute(name, ns, value)`, `get_attribute(name, ns)` gives
/// `value`, and every other attribute reads as before.
pub proof fn get_after_set(
    before: Element,
    after: Element,
    name: Seq<char>,
    ns: Option<Seq<char>>,
    value: Seq<char>,
)
    requires
        after.attribute_map() == before.attribute_map().insert((name, ns), value),
    ensures
        after.attribute(name, ns) == Some(value),
        forall|n2: Seq<char>, ns2: Option<Seq<char>>|
            (n2, ns2) != (name, ns) ==> #[trigger] after.attribute(n2, ns2) == before.attribute(
                n2,
                ns2,
            ),
{
    attribute_agrees_with_map(after, name, ns);
    assert(after.attribute_map().contains_key((name, ns)));
    assert forall|n2: Seq<char>, ns2: Option<Seq<char>>|
        (n2, ns2) != (name, ns) implies #[trigger] after.attribute(n2, ns2) == before.attribute(
        n2,
        ns2,
    ) by {
        attribute_agrees_with_map(after, n2, ns2);
        attribute_agrees_with_map(before, n2, ns2);
        assert(after.attribute_map().contains_key((n2, ns2)) == before.attribute_map().contains_key(
            (n2, ns2),
        ));
    }
}

/// After `remove_attribute(name, ns)`, `get_attribute(name, ns)` gives
/// nothing, and every other attribute reads as before.
pub proof fn get_after_remove(before: Element, after: Element, name: Seq<char>, ns: Option<Seq<char>>)
    requires
        after.attribute_map() == before.attribute_map().remove((name, ns)),
    ensures
        after.attribute(name, ns) is None,
        forall|n2: Seq<char>, ns2: Option<Seq<char>>|
            (n2, ns2) != (name, ns) ==> #[trigger] after.attribute(n2, ns2) == before.attribute(
                n2,
                ns2,
            ),
{
    attribute_agrees_with_map(after, name, ns);
    assert(!after.attribute_map().contains_key((name, ns)));
    assert forall|n2: Seq<char>, ns2: Option<Seq<char>>|
        (n2, ns2) != (name, ns) implies #[trigger] after.attribute(n2, ns2) == before.attribute(
        n2,
        ns2,
    ) by {
        attribute_agrees_with_map(after, n2, ns2);
        attribute_agrees_with_map(before, n2, ns2);
        assert(after.attribute_map().contains_key((n2, ns2)) == before.attribute_map().contains_key(
            (n2, ns2),
        ));
    }
}

/// Setting an attribute to the value it already has leaves the attributes as they were.
pub proof fn set_same_value_changes_nothing(e: Element, name: Seq<char>, ns: Option<Seq<char>>)
    requires
        e.attribute(name, ns) is Some,
    ensures
        e.attribute_map().insert((name, ns), e.attribute(name, ns).unwrap()) == e.attribute_map(),
{
    assert(e.attribute_map().insert((name, ns), e.attribute(name, ns).unwrap()) =~= e.attribute_map());
}

/// Appending a child adds that child's character data and CDATA to the end
/// of `content_str`: text and CDATA add their data, a child element its own
/// content, and comments and processing information nothing.
pub proof fn content_after_append(before: Element, after: Element)
    requires
        appended_child(before, after),
    ensures
        content_of_nodes(after.children@) == content_of_nodes(before.children@) + content_of_node(
            after.children@.last(),
        ),
        after.children@.last() matches Xml::CharacterNode(t) ==> content_of_nodes(after.children@)
            == content_of_nodes(before.children@) + t@,
        after.children@.last() matches Xml::CDATANode(t) ==> content_of_nodes(after.children@)
            == content_of_nodes(before.children@) + t@,
        after.children@.last() matches Xml::CommentNode(_) ==> content_of_nodes(after.children@)
            == content_of_nodes(before.children@),
        after.children@.last() matches Xml::PINode(_) ==> content_of_nodes(after.children@)
            == content_of_nodes(before.children@),
{
    let c = content_of_nodes(before.children@);
    assert(c + Seq::<char>::empty() =~= c);
}

/// After `tag` or `tag_stay` with `child`, asking for the children with the
/// child's name and namespace gives the former ones and then `child`.
pub proof fn children_after_tag(before: Seq<Xml>, child: Element)
    ensures
        named_children(before.push(Xml::ElementNode(child)), child.name@, opt_view(child.ns))
            == named_children(before, child.name@, opt_view(child.ns)).push(child),
{
    let after = before.push(Xml::ElementNode(child));
    assert(after.drop_last() =~= before);
}

/// The text of a character node unescapes back to the node's data.
pub proof fn character_text_unescapes(data: String)
    ensures
        unescaped(xml_text(Xml::CharacterNode(data))) == Ok::<Seq<char>, Seq<char>>(data@),
{
    unescape_inverts_escape(data@);
}

proof fn lemma_same_content_nodes(s: Seq<Xml>, t: Seq<Xml>)
    requires
        same_nodes(s, t),
    ensures
        content_of_nodes(s) == content_of_nodes(t),
    decreases s,
{
    if s.len() > 0 {
        lemma_same_content_nodes(s.drop_last(), t.drop_last());
        lemma_same_content_node(s.last(), t.last());
    }
}

proof fn lemma_same_content_node(x: Xml, y: Xml)
    requires
        same_node(x, y),
    ensures
        content_of_node(x) == content_of_node(y),
    decreases x,
{
    match x {
        Xml::ElementNode(a) => {
            let b = y->ElementNode_0;
            lemma_same_content_nodes(a.children@, b.children@);
        },
        _ => {},
    }
}

/// A copy made by `clone` has the same `content_str` as the element it copies.
pub proof fn clone_keeps_content(a: Element, b: Element)
    requires
        same_element(a, b),
    ensures
        content_of_nodes(a.children@) == content_of_nodes(b.children@),
{
    lemma_same_content_nodes(a.children@, b.children@);
}

proof fn lemma_same_text_elem(
    a: Element,
    b: Element,
    parent_ns: Option<Option<Seq<char>>>,
    outer: Seq<(Seq<char>, Seq<char>)>,
)
    requires
        same_element(a, b),
    ensures
        elem_text(a, parent_ns, outer) == elem_text(b, parent_ns, outer),
        elem_printable(a, outer) == elem_printable(b, outer),
    decreases a,
{
    let scope = outer + crate::element::prefix_entries(a.prefixes@);
    lemma_same_text_nodes(a.children@, b.children@, opt_view(a.default_ns), scope);
}

proof fn lemma_same_text_nodes(
    s: Seq<Xml>,
    t: Seq<Xml>,
    parent_ns: Option<Seq<char>>,
    scope: Seq<(Seq<char>, Seq<char>)>,
)
    requires
        same_nodes(s, t),
    ensures
        nodes_text(s, parent_ns, scope) == nodes_text(t, parent_ns, scope),
        nodes_printable(s, scope) == nodes_printable(t, scope),
    decreases s,
{
    if s.len() > 0 {
        lemma_same_text_nodes(s.drop_last(), t.drop_last(), parent_ns, scope);
        lemma_same_text_node(s.last(), t.last(), parent_ns, scope);
    }
}

proof fn lemma_same_text_node(
    x: Xml,
    y: Xml,
    parent_ns: Option<Seq<char>>,
    scope: Seq<(Seq<char>, Seq<char>)>,
)
    requires
        same_node(x, y),
    ensures
        child_text(x, parent_ns, scope) == child_text(y, parent_ns, scope),
        node_printable(x, scope) == node_printable(y, scope),
    decreases x,
{
    match x {
        Xml::ElementNode(a) => {
            lemma_same_text_elem(a, y->ElementNode_0, Some(parent_ns), scope);
        },
        _ => {},
    }
}

/// A copy made by `clone` is written as the same XML text as the element it copies,
/// and can be written exactly when that element can.
pub proof fn clone_keeps_text(a: Element, b: Element)
    requires
        same_element(a, b),
    ensures
        elem_text(a, None, Seq::empty()) == elem_text(b, None, Seq::empty()),
        elem_printable(a, Seq::empty()) == elem_printable(b, Seq::empty()),
{
    lemma_same_text_elem(a, b, None, Seq::empty());
}

proof fn lemma_same_is_eq_elem(a: Element, b: Element)
    requires
        same_element(a, b),
    ensures
        element_eq(a, b),
    decreases a,
{
    lemma_same_is_eq_nodes(a.children@, b.children@);
}

proof fn lemma_same_is_eq_nodes(s: Seq<Xml>, t: Seq<Xml>)
    requires
        same_nodes(s, t),
    ensures
        nodes_eq(s, t),
    decreases s,
{
    if s.len() > 0 {
        lemma_same_is_eq_nodes(s.drop_last(), t.drop_last());
        lemma_same_is_eq_node(s.last(), t.last());
    }
}

proof fn lemma_same_is_eq_node(x: Xml, y: Xml)
    requires
        same_node(x, y),
    ensures
        node_eq(x, y),
    decreases x,
{
    match x {
        Xml::ElementNode(a) => {
            lemma_same_is_eq_elem(a, y->ElementNode_0);
        },
        _ => {},
    }
}

/// A copy made by `clone` is `==` to the element it copies.
pub proof fn clone_is_equal(a: Element, b: Element)
    requires
        same_element(a, b),
    ensures
        element_eq(a, b),
{
    lemma_same_is_eq_elem(a, b);
}

/// An element built with the same attributes in another order is `==`:
/// attributes compare by key, not by position.
pub proof fn attribute_order_does_not_matter(a: Element, b: Element)
    requires
        a.name@ == b.name@,
        opt_view(a.ns) == opt_view(b.ns),
        opt_view(a.default_ns) == opt_view(b.default_ns),
        a.prefixes@.len() == 0,
        b.prefixes@.len() == 0,
        a.children@.len() == 0,
        b.children@.len() == 0,
        a.attribute_map() == b.attribute_map(),
    ensures
        element_eq(a, b),
{
    assert forall|k: (Seq<char>, Option<Seq<char>>)| #[trigger]
        crate::assoc::find(attr_entries(a.attributes@), k) == crate::assoc::find(
            attr_entries(b.attributes@),
            k,
        ) by {
        attribute_agrees_with_map(a, k.0, k.1);
        attribute_agrees_with_map(b, k.0, k.1);
    }
    assert(crate::element::prefix_entries(a.prefixes@) =~= Seq::empty());
    assert(crate::element::prefix_entries(b.prefixes@) =~= Seq::empty());
}

/// An element node is written as its element is written on its own, and can
/// be written exactly when the element can.
pub proof fn element_node_text(e: Element)
    ensures
        xml_text(Xml::ElementNode(e)) == elem_text(e, None, Seq::empty()),
        crate::display::xml_printable(Xml::ElementNode(e)) == elem_printable(e, Seq::empty()),
{
}

// ---------------------------------------------------------------------------
// Equality
// ---------------------------------------------------------------------------

/// Elements that are `==` agree on every part: the name, the namespace, the
/// default namespace, every attribute, every namespace prefix binding, and
/// child by child.
pub proof fn equal_elements_agree(a: Element, b: Element)
    requires
        element_eq(a, b),
    ensures
        a.name@ == b.name@,
        opt_view(a.ns) == opt_view(b.ns),
        opt_view(a.default_ns) == opt_view(b.default_ns),
        a.attribute_map() == b.attribute_map(),
        forall|n: Seq<char>|
            #[trigger] find_last(prefix_entries(a.prefixes@), n) == find_last(
                prefix_entries(b.prefixes@),
                n,
            ),
        a.children@.len() == b.children@.len(),
        forall|i: int|
            0 <= i < a.children@.len() ==> node_eq(#[trigger] a.children@[i], b.children@[i]),
{
    assert(a.attribute_map() =~= b.attribute_map());
    assert forall|i: int| 0 <= i < a.children@.len() implies node_eq(
        #[trigger] a.children@[i],
        b.children@[i],
    ) by {
        lemma_nodes_eq_at(a.children@, b.children@, i);
    }
}

/// Nodes that are `==` are of the same kind: text, CDATA, comments and
/// processing information with the same data, elements that are `==`.
pub proof fn equal_nodes_agree(x: Xml, y: Xml)
    requires
        node_eq(x, y),
    ensures
        x matches Xml::ElementNode(a) ==> y matches Xml::ElementNode(b) && element_eq(a, b),
        x matches Xml::CharacterNode(d) ==> y matches Xml::CharacterNode(e) && d@ == e@,
        x matches Xml::CDATANode(d) ==> y matches Xml::CDATANode(e) && d@ == e@,
        x matches Xml::CommentNode(d) ==> y matches Xml::CommentNode(e) && d@ == e@,
        x matches Xml::PINode(d) ==> y matches Xml::PINode(e) && d@ == e@,
{
}

proof fn lemma_nodes_eq_pairwise(s: Seq<Xml>, t: Seq<Xml>)
    requires
        s.len() == t.len(),
        forall|i: int| 0 <= i < s.len() ==> node_eq(#[trigger] s[i], t[i]),
    ensures
        nodes_eq(s, t),
    decreases s.len(),
{
    if s.len() > 0 {
        assert forall|i: int| 0 <= i < s.drop_last().len() implies node_eq(
            #[trigger] s.drop_last()[i],
            t.drop_last()[i],
        ) by {
            assert(s.drop_last()[i] == s[i]);
            assert(t.drop_last()[i] == t[i]);
        }
        lemma_nodes_eq_pairwise(s.drop_last(), t.drop_last());
        assert(node_eq(s[s.len() - 1], t[t.len() - 1]));
    }
}

/// Elements that agree on every part (name, namespaces, attributes and
/// prefix bindings as maps, and child by child) are `==`.
pub proof fn agreeing_elements_are_equal(a: Element, b: Element)
    requires
        a.name@ == b.name@,
        opt_view(a.ns) == opt_view(b.ns),
        opt_view(a.default_ns) == opt_view(b.default_ns),
        a.attribute_map() == b.attribute_map(),
        forall|n: Seq<char>|
            #[trigger] find_last(prefix_entries(a.prefixes@), n) == find_last(
                prefix_entries(b.prefixes@),
                n,
            ),
        a.children@.len() == b.children@.len(),
        forall|i: int|
            0 <= i < a.children@.len() ==> node_eq(#[trigger] a.children@[i], b.children@[i]),
    ensures
        element_eq(a, b),
{
    assert forall|k: (Seq<char>, Option<Seq<char>>)| #[trigger]
        find(attr_entries(a.attributes@), k) == find(attr_entries(b.attributes@), k) by {
        attribute_agrees_with_map(a, k.0, k.1);
        attribute_agrees_with_map(b, k.0, k.1);
    }
    lemma_nodes_eq_pairwise(a.children@, b.children@);
}

proof fn lemma_eq_reflexive_elem(a: Element)
    ensures
        element_eq(a, a),
    decreases a,
{
    lemma_eq_reflexive_nodes(a.children@);
}

proof fn lemma_eq_reflexive_nodes(s: Seq<Xml>)
    ensures
        nodes_eq(s, s),
    decreases s,
{
    if s.len() > 0 {
        lemma_eq_reflexive_nodes(s.drop_last());
        lemma_eq_reflexive_node(s.last());
    }
}

proof fn lemma_eq_reflexive_node(x: Xml)
    ensures
        node_eq(x, x),
    decreases x,
{
    match x {
        Xml::ElementNode(a) => lemma_eq_reflexive_elem(a),
        _ => {},
    }
}

/// Every element and every node is `==` to itself.
pub proof fn equality_is_reflexive(a: Element, x: Xml)
    ensures
        element_eq(a, a),
        node_eq(x, x),
{
    lemma_eq_reflexive_elem(a);
    lemma_eq_reflexive_node(x);
}

// ---------------------------------------------------------------------------
// Children by name
// ---------------------------------------------------------------------------

/// What `get_children(name, ns)` returns (and `get_child` the first of) are
/// exactly the child elements with that name and namespace: each returned
/// element has the name and the namespace asked for and stands among the
/// children, and each child element that has them is returned.
pub proof fn named_children_are_the_matching_children(
    nodes: Seq<Xml>,
    name: Seq<char>,
    ns: Option<Seq<char>>,
)
    ensures
        forall|i: int|
            0 <= i < named_children(nodes, name, ns).len() ==> {
                let r = #[trigger] named_children(nodes, name, ns)[i];
                &&& r.name@ == name
                &&& opt_view(r.ns) == ns
                &&& nodes.contains(Xml::ElementNode(r))
            },
        forall|j: int|
            0 <= j < nodes.len() && (#[trigger] nodes[j] matches Xml::ElementNode(e) && e.name@
                == name && opt_view(e.ns) == ns) ==> named_children(nodes, name, ns).contains(
                nodes[j]->ElementNode_0,
            ),
    decreases nodes.len(),
{
    if nodes.len() > 0 {
        let d = nodes.drop_last();
        named_children_are_the_matching_children(d, name, ns);
        let rd = named_children(d, name, ns);
        let r = named_children(nodes, name, ns);
        assert forall|i: int| 0 <= i < r.len() implies {
            let x = #[trigger] r[i];
            &&& x.name@ == name
            &&& opt_view(x.ns) == ns
            &&& nodes.contains(Xml::ElementNode(x))
        } by {
            if i < rd.len() {
                assert(r[i] == rd[i]);
                let j = choose|j: int| 0 <= j < d.len() && d[j] == Xml::ElementNode(rd[i]);
                assert(nodes[j] == d[j]);
            } else {
                assert(nodes[nodes.len() - 1] == nodes.last());
            }
        }
        assert forall|j: int|
            0 <= j < nodes.len() && (#[trigger] nodes[j] matches Xml::ElementNode(e) && e.name@
                == name && opt_view(e.ns) == ns) implies r.contains(nodes[j]->ElementNode_0) by {
            if j < d.len() {
                assert(nodes[j] == d[j]);
                let i = choose|i: int| 0 <= i < rd.len() && rd[i] == d[j]->ElementNode_0;
                assert(r[i] == rd[i]);
            } else {
                assert(r[r.len() - 1] == nodes.last()->ElementNode_0);
            }
        }
    }
}

// ---------------------------------------------------------------------------
// Character content
// ---------------------------------------------------------------------------

/// The content of nodes in a row is the content of the first ones and then
/// that of the others.
pub proof fn content_of_concat(a: Seq<Xml>, b: Seq<Xml>)
    ensures
        content_of_nodes(a + b) == content_of_nodes(a) + content_of_nodes(b),
    decreases b.len(),
{
    if b.len() == 0 {
        assert(a + b =~= a);
        assert(content_of_nodes(a) + content_of_nodes(b) =~= content_of_nodes(a));
    } else {
        assert((a + b).drop_last() =~= a + b.drop_last());
        assert((a + b).last() == b.last());
        content_of_concat(a, b.drop_last());
        assert(content_of_nodes(a + b) =~= content_of_nodes(a) + content_of_nodes(b));
    }
}

/// Appending a node to the children adds to the content: a child element
/// its own content (whatever its name and namespace), text and CDATA their
/// data, comments and processing information nothing.
pub proof fn content_of_appended(before: Seq<Xml>, node: Xml)
    ensures
        node matches Xml::ElementNode(c) ==> content_of_nodes(before.push(node)) == content_of_nodes(
            before,
        ) + content_of_nodes(c.children@),
        node matches Xml::CharacterNode(t) ==> content_of_nodes(before.push(node))
            == content_of_nodes(before) + t@,
        node matches Xml::CDATANode(t) ==> content_of_nodes(before.push(node)) == content_of_nodes(
            before,
        ) + t@,
        node matches Xml::CommentNode(_) ==> content_of_nodes(before.push(node)) == content_of_nodes(
            before,
        ),
        node matches Xml::PINode(_) ==> content_of_nodes(before.push(node)) == content_of_nodes(
            before,
        ),
{
    let after = before.push(node);
    assert(after.drop_last() =~= before);
    assert(after.last() == node);
    let c = content_of_nodes(before);
    assert(content_of_nodes(after) == c + content_of_node(node));
    assert(c + Seq::<char>::empty() =~= c);
    match node {
        Xml::ElementNode(e) => {
            assert(content_of_node(node) == content_of_nodes(e.children@));
        },
        _ => {},
    }
}

// ---------------------------------------------------------------------------
// Written text
// ---------------------------------------------------------------------------


proof fn lemma_infix(a: Seq<char>, w: Seq<char>, b: Seq<char>)
    ensures
        is_infix(w, a + w + b),
{
    let t = a + w + b;
    assert(t.subrange(a.len() as int, (a.len() + w.len()) as int) =~= w);
}

proof fn lemma_nodes_text_concat(
    a: Seq<Xml>,
    b: Seq<Xml>,
    p: Option<Seq<char>>,
    scope: Seq<(Seq<char>, Seq<char>)>,
)
    ensures
        nodes_text(a + b, p, scope) == nodes_text(a, p, scope) + nodes_text(b, p, scope),
    decreases b.len(),
{
    if b.len() == 0 {
        assert(a + b =~= a);
        assert(nodes_text(a, p, scope) + nodes_text(b, p, scope) =~= nodes_text(a, p, scope));
    } else {
        assert((a + b).drop_last() =~= a + b.drop_last());
        assert((a + b).last() == b.last());
        lemma_nodes_text_concat(a, b.drop_last(), p, scope);
        assert(nodes_text(a + b, p, scope) =~= nodes_text(a, p, scope) + nodes_text(b, p, scope));
    }
}

proof fn lemma_attrs_text_concat(
    a: Seq<((Seq<char>, Option<Seq<char>>), Seq<char>)>,
    b: Seq<((Seq<char>, Option<Seq<char>>), Seq<char>)>,
    scope: Seq<(Seq<char>, Seq<char>)>,
)
    ensures
        attrs_text(a + b, scope) == attrs_text(a, scope) + attrs_text(b, scope),
    decreases b.len(),
{
    if b.len() == 0 {
        assert(a + b =~= a);
        assert(attrs_text(a, scope) + attrs_text(b, scope) =~= attrs_text(a, scope));
    } else {
        assert((a + b).drop_last() =~= a + b.drop_last());
        assert((a + b).last() == b.last());
        lemma_attrs_text_concat(a, b.drop_last(), scope);
        assert(attrs_text(a + b, scope) =~= attrs_text(a, scope) + attrs_text(b, scope));
    }
}

/// How nodes other than elements are written on their own: text escaped,
/// CDATA as `<![CDATA[..]]>`, comments as `<!--..-->`, processing
/// information as `<?..?>`.
pub proof fn leaf_node_texts(d: String)
    ensures
        xml_text(Xml::CharacterNode(d)) == escaped(d@),
        xml_text(Xml::CDATANode(d)) == "<![CDATA["@ + d@ + "]]>"@,
        xml_text(Xml::CommentNode(d)) == "<!--"@ + d@ + "-->"@,
        xml_text(Xml::PINode(d)) == "<?"@ + d@ + "?>"@,
{
}

/// Every child of an element is written inside the element's text: a node
/// that is not an element exactly as it is written on its own, a child
/// element as it is written below its parent.
pub proof fn children_appear_in_parent_text(
    e: Element,
    parent_ns: Option<Option<Seq<char>>>,
    outer: Seq<(Seq<char>, Seq<char>)>,
    i: int,
)
    requires
        0 <= i < e.children@.len(),
    ensures
        !(e.children@[i] is ElementNode) ==> child_text(
            e.children@[i],
            opt_view(e.default_ns),
            scope_of(e, outer),
        ) == xml_text(e.children@[i]),
        !(e.children@[i] is ElementNode) ==> is_infix(
            xml_text(e.children@[i]),
            elem_text(e, parent_ns, outer),
        ),
        e.children@[i] matches Xml::ElementNode(c) ==> is_infix(
            elem_text(c, Some(opt_view(e.default_ns)), scope_of(e, outer)),
            elem_text(e, parent_ns, outer),
        ),
{
    let cs = e.children@;
    let p = opt_view(e.default_ns);
    let scope = scope_of(e, outer);
    let x = cs[i];
    assert(cs =~= cs.take(i) + seq![x] + cs.skip(i + 1));
    lemma_nodes_text_concat(cs.take(i) + seq![x], cs.skip(i + 1), p, scope);
    lemma_nodes_text_concat(cs.take(i), seq![x], p, scope);
    assert(seq![x].drop_last() =~= Seq::<Xml>::empty());
    assert(seq![x].last() == x);
    assert(nodes_text(Seq::<Xml>::empty(), p, scope) == Seq::<char>::empty());
    assert(nodes_text(seq![x], p, scope) =~= child_text(x, p, scope));
    let n1 = nodes_text(cs.take(i), p, scope);
    let n2 = nodes_text(cs.skip(i + 1), p, scope);
    let w = child_text(x, p, scope);
    let t = elem_text(e, parent_ns, outer);
    let head = "<"@ + crate::display::tag_name(e, scope) + crate::display::xmlns_text(e, parent_ns)
        + attrs_text(attr_entries(e.attributes@), scope) + ">"@;
    let tail = "</"@ + crate::display::tag_name(e, scope) + ">"@;
    assert(t =~= (head + n1) + w + (n2 + tail));
    lemma_infix(head + n1, w, n2 + tail);
}

/// Every attribute without a namespace is written in the element's start tag
/// as ` name='value'`, its value escaped.
pub proof fn attributes_appear_in_text(
    e: Element,
    parent_ns: Option<Option<Seq<char>>>,
    outer: Seq<(Seq<char>, Seq<char>)>,
    i: int,
)
    requires
        0 <= i < e.attributes@.len(),
        e.attributes@[i].0.1 is None,
    ensures
        is_infix(
            " "@ + e.attributes@[i].0.0@ + "='"@ + escaped(e.attributes@[i].1@) + "'"@,
            elem_text(e, parent_ns, outer),
        ),
{
    let es = attr_entries(e.attributes@);
    let scope = scope_of(e, outer);
    let a = es[i];
    assert(a == crate::element::attr_entry(e.attributes@[i]));
    assert(es =~= es.take(i) + seq![a] + es.skip(i + 1));
    lemma_attrs_text_concat(es.take(i) + seq![a], es.skip(i + 1), scope);
    lemma_attrs_text_concat(es.take(i), seq![a], scope);
    assert(seq![a].drop_last() =~= Seq::<((Seq<char>, Option<Seq<char>>), Seq<char>)>::empty());
    let w = attr_text(a, scope);
    assert(seq![a].last() == a);
    assert(attrs_text(Seq::<((Seq<char>, Option<Seq<char>>), Seq<char>)>::empty(), scope)
        == Seq::<char>::empty());
    assert(attrs_text(seq![a], scope) =~= w);
    assert(w =~= " "@ + e.attributes@[i].0.0@ + "='"@ + escaped(e.attributes@[i].1@) + "'"@);
    let a1 = attrs_text(es.take(i), scope);
    let a2 = attrs_text(es.skip(i + 1), scope);
    let t = elem_text(e, parent_ns, outer);
    let head = "<"@ + crate::display::tag_name(e, scope) + crate::display::xmlns_text(e, parent_ns);
    let rest = t.skip((head.len() + a1.len() + w.len() + a2.len()) as int);
    assert(t =~= (head + a1) + w + (a2 + rest));
    lemma_infix(head + a1, w, a2 + rest);
}

/// An element whose name needs no prefix starts with `<` and its name, and
/// ends with `/>` where it has no children, else with `</`, its name and `>`.
pub proof fn element_text_bounds(
    e: Element,
    parent_ns: Option<Option<Seq<char>>>,
    outer: Seq<(Seq<char>, Seq<char>)>,
)
    requires
        !needs_prefix(e),
    ensures
        ("<"@ + e.name@).is_prefix_of(elem_text(e, parent_ns, outer)),
        e.children@.len() == 0 ==> "/>"@.is_suffix_of(elem_text(e, parent_ns, outer)),
        e.children@.len() > 0 ==> ("</"@ + e.name@ + ">"@).is_suffix_of(
            elem_text(e, parent_ns, outer),
        ),
{
    let t = elem_text(e, parent_ns, outer);
    let scope = scope_of(e, outer);
    let start = "<"@ + e.name@;
    let mid = crate::display::xmlns_text(e, parent_ns) + attrs_text(attr_entries(e.attributes@), scope);
    if e.children@.len() == 0 {
        assert(t =~= start + (mid + "/>"@));
        assert(t.take(start.len() as int) =~= start);
        let end = "/>"@;
        assert(t.subrange(t.len() - end.len(), t.len() as int) =~= end);
    } else {
        let end = "</"@ + e.name@ + ">"@;
        let body = mid + ">"@ + nodes_text(e.children@, opt_view(e.default_ns), scope);
        assert(t =~= start + body + end);
        assert(t.take(start.len() as int) =~= start);
        assert(t.subrange(t.len() - end.len(), t.len() as int) =~= end);
    }
}

/// Start tags are `==` exactly when they have the same name, namespace and
/// prefix, and the same value (or none) for every attribute key.
pub proof fn start_tag_equality(a: StartTag, b: StartTag)
    ensures
        start_tag_eq(a, b) <==> {
            &&& a.name@ == b.name@
            &&& opt_view(a.ns) == opt_view(b.ns)
            &&& opt_view(a.prefix) == opt_view(b.prefix)
            &&& as_map(attr_entries(a.attributes@)) == as_map(attr_entries(b.attributes@))
        },
{
    let ea = attr_entries(a.attributes@);
    let eb = attr_entries(b.attributes@);
    if as_map(ea) == as_map(eb) {
        assert forall|k: (Seq<char>, Option<Seq<char>>)| #[trigger] find(ea, k) == find(eb, k) by {
            assert(as_map(ea).contains_key(k) == as_map(eb).contains_key(k));
            if find(ea, k) is Some {
                assert(as_map(ea)[k] == as_map(eb)[k]);
            }
        }
    }
    if same_attributes(ea, eb) {
        assert(as_map(ea) =~= as_map(eb));
    }
}

/// The start tag of an element written without a prefix declares its
/// default namespace `ns` right after the name, as ` xmlns='ns'`, where the
/// element is the root or its parent's default namespace differs; where the
/// parent's is the same, the attributes follow the name directly.
pub proof fn default_namespace_declared(
    e: Element,
    parent_ns: Option<Option<Seq<char>>>,
    outer: Seq<(Seq<char>, Seq<char>)>,
)
    requires
        !needs_prefix(e),
    ensures
        e.default_ns is Some && parent_ns != Some(opt_view(e.default_ns)) ==> ("<"@ + e.name@
            + " xmlns='"@ + e.default_ns->0@ + "'"@).is_prefix_of(elem_text(e, parent_ns, outer)),
        e.default_ns is None && parent_ns is Some && parent_ns->0 is Some ==> ("<"@ + e.name@
            + " xmlns=''"@).is_prefix_of(elem_text(e, parent_ns, outer)),
        parent_ns == Some(opt_view(e.default_ns)) ==> ("<"@ + e.name@ + attrs_text(
            attr_entries(e.attributes@),
            scope_of(e, outer),
        )).is_prefix_of(elem_text(e, parent_ns, outer)),
{
    let t = elem_text(e, parent_ns, outer);
    let scope = scope_of(e, outer);
    let x = crate::display::xmlns_text(e, parent_ns);
    let a = attrs_text(attr_entries(e.attributes@), scope);
    let rest = t.skip(("<"@ + e.name@ + x + a).len() as int);
    assert(t =~= ("<"@ + e.name@ + x + a) + rest);
    if parent_ns == Some(opt_view(e.default_ns)) {
        assert(x == Seq::<char>::empty());
        let w = "<"@ + e.name@ + a;
        assert(t.take(w.len() as int) =~= w);
    } else {
        let w = "<"@ + e.name@ + x;
        assert(t =~= w + (a + rest));
        assert(t.take(w.len() as int) =~= w);
    }
}

/// An element written with a prefix starts with `<`, the prefix bound last
/// to its namespace in scope, `:` and its name.
pub proof fn prefixed_name_written(
    e: Element,
    parent_ns: Option<Option<Seq<char>>>,
    outer: Seq<(Seq<char>, Seq<char>)>,
)
    requires
        needs_prefix(e),
        e.ns is Some,
        find_last(scope_of(e, outer), e.ns->0@) is Some,
    ensures
        ("<"@ + find_last(scope_of(e, outer), e.ns->0@)->0 + ":"@ + e.name@).is_prefix_of(
            elem_text(e, parent_ns, outer),
        ),
{
    let t = elem_text(e, parent_ns, outer);
    let scope = scope_of(e, outer);
    let w = "<"@ + find_last(scope, e.ns->0@)->0 + ":"@ + e.name@;
    assert(crate::display::tag_name(e, scope) == find_last(scope, e.ns->0@)->0 + ":"@ + e.name@);
    let rest = t.skip(w.len() as int);
    assert(t =~= w + rest);
    assert(t.take(w.len() as int) =~= w);
}

/// An attribute with a namespace is written in the start tag as
/// ` prefix:name='value'`, with the prefix bound last to the namespace in
/// scope and the value escaped.
#[verifier::rlimit(30)]
pub proof fn prefixed_attribute_written(
    e: Element,
    parent_ns: Option<Option<Seq<char>>>,
    outer: Seq<(Seq<char>, Seq<char>)>,
    i: int,
)
    requires
        0 <= i < e.attributes@.len(),
        e.attributes@[i].0.1 is Some,
    ensures
        is_infix(
            " "@ + find_last(scope_of(e, outer), e.attributes@[i].0.1->0@).unwrap() + ":"@
                + e.attributes@[i].0.0@ + "='"@ + escaped(e.attributes@[i].1@) + "'"@,
            elem_text(e, parent_ns, outer),
        ),
{
    let t = elem_text(e, parent_ns, outer);
    let scope = scope_of(e, outer);
    let es = attr_entries(e.attributes@);
    let a = es[i];
    assert(a == crate::element::attr_entry(e.attributes@[i]));
    assert(es =~= es.take(i) + seq![a] + es.skip(i + 1));
    lemma_attrs_text_concat(es.take(i) + seq![a], es.skip(i + 1), scope);
    lemma_attrs_text_concat(es.take(i), seq![a], scope);
    assert(seq![a].drop_last() =~= Seq::<((Seq<char>, Option<Seq<char>>), Seq<char>)>::empty());
    assert(seq![a].last() == a);
    assert(attrs_text(Seq::<((Seq<char>, Option<Seq<char>>), Seq<char>)>::empty(), scope)
        == Seq::<char>::empty());
    let wa = attr_text(a, scope);
    assert(attrs_text(seq![a], scope) =~= wa);
    assert(a.0.1 == Some(e.attributes@[i].0.1->0@));
    assert(wa =~= " "@ + find_last(scope, e.attributes@[i].0.1->0@).unwrap() + ":"@
        + e.attributes@[i].0.0@ + "='"@ + escaped(e.attributes@[i].1@) + "'"@);
    let a1 = attrs_text(es.take(i), scope);
    let a2 = attrs_text(es.skip(i + 1), scope);
    let head = "<"@ + crate::display::tag_name(e, scope) + crate::display::xmlns_text(e, parent_ns);
    let tail = t.skip((head.len() + a1.len() + wa.len() + a2.len()) as int);
    assert(t =~= (head + a1) + wa + (a2 + tail));
    lemma_infix(head + a1, wa, a2 + tail);
}

} // verus!
