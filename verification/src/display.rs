//! Serialization of nodes and elements to XML text.
use vstd::prelude::*;
use crate::assoc::{find_last, lemma_find_last_take};
use crate::element::{attr_entries, opt_view, prefix_entries, Element, Xml};
use crate::text::{escape, escaped};

verus! {

// ---------------------------------------------------------------------------
// Specification
// ---------------------------------------------------------------------------

/// The namespace prefixes in scope inside `e`: the enclosing ones, then the
/// element's own; a later binding of a namespace hides an earlier one.
pub open spec fn scope_of(e: Element, outer: Seq<(Seq<char>, Seq<char>)>) -> Seq<(Seq<char>, Seq<char>)> {
    outer + prefix_entries(e.prefixes@)
}

/// The element's namespace differs from its default namespace, so its name
/// is written with a prefix.
pub open spec fn needs_prefix(e: Element) -> bool {
    opt_view(e.ns) != opt_view(e.default_ns)
}

/// The namespace whose prefix the element's name is written with (the empty
/// one where the element has none).
pub open spec fn ns_key(e: Element) -> Seq<char> {
    match opt_view(e.ns) {
        Some(n) => n,
        None => Seq::empty(),
    }
}

/// The element's name as its tags write it.
pub open spec fn tag_name(e: Element, scope: Seq<(Seq<char>, Seq<char>)>) -> Seq<char> {
    if needs_prefix(e) {
        find_last(scope, ns_key(e)).unwrap() + ":"@ + e.name@
    } else {
        e.name@
    }
}

/// The declaration of the default namespace that the start tag carries:
/// at the root where it has one, below it where it differs from the parent's.
pub open spec fn xmlns_text(e: Element, parent_ns: Option<Option<Seq<char>>>) -> Seq<char> {
    match parent_ns {
        None => match opt_view(e.default_ns) {
            Some(ns) => " xmlns='"@ + ns + "'"@,
            None => Seq::empty(),
        },
        Some(p) => if p != opt_view(e.default_ns) {
            match opt_view(e.default_ns) {
                Some(ns) => " xmlns='"@ + ns + "'"@,
                None => " xmlns=''"@,
            }
        } else {
            Seq::empty()
        },
    }
}

/// One attribute as the start tag writes it, its value escaped.
pub open spec fn attr_text(
    a: ((Seq<char>, Option<Seq<char>>), Seq<char>),
    scope: Seq<(Seq<char>, Seq<char>)>,
) -> Seq<char> {
    " "@ + match a.0.1 {
        Some(ns) => find_last(scope, ns).unwrap() + ":"@,
        None => Seq::empty(),
    } + a.0.0 + "='"@ + escaped(a.1) + "'"@
}

/// The attributes as the start tag writes them, in order.
pub open spec fn attrs_text(
    attrs: Seq<((Seq<char>, Option<Seq<char>>), Seq<char>)>,
    scope: Seq<(Seq<char>, Seq<char>)>,
) -> Seq<char>
    decreases attrs.len(),
{
    if attrs.len() == 0 {
        Seq::empty()
    } else {
        attrs_text(attrs.drop_last(), scope) + attr_text(attrs.last(), scope)
    }
}

/// A node other than an element, as text.
pub open spec fn leaf_text(node: Xml) -> Seq<char> {
    match node {
        Xml::CharacterNode(d) => escaped(d@),
        Xml::CDATANode(d) => "<![CDATA["@ + d@ + "]]>"@,
        Xml::CommentNode(d) => "<!--"@ + d@ + "-->"@,
        Xml::PINode(d) => "<?"@ + d@ + "?>"@,
        Xml::ElementNode(_) => Seq::empty(),
    }
}

/// An element as text, below a parent with default namespace `parent_ns`
/// (`None` at the root) and with the namespace prefixes `outer` in scope.
pub open spec fn elem_text(
    e: Element,
    parent_ns: Option<Option<Seq<char>>>,
    outer: Seq<(Seq<char>, Seq<char>)>,
) -> Seq<char>
    decreases e,
{
    let scope = scope_of(e, outer);
    "<"@ + tag_name(e, scope) + xmlns_text(e, parent_ns) + attrs_text(attr_entries(e.attributes@), scope)
        + if e.children@.len() == 0 {
        "/>"@
    } else {
        ">"@ + nodes_text(e.children@, opt_view(e.default_ns), scope) + "</"@ + tag_name(e, scope)
            + ">"@
    }
}

/// The children of an element with default namespace `parent_ns`, as text.
pub open spec fn nodes_text(
    nodes: Seq<Xml>,
    parent_ns: Option<Seq<char>>,
    scope: Seq<(Seq<char>, Seq<char>)>,
) -> Seq<char>
    decreases nodes,
{
    if nodes.len() == 0 {
        Seq::empty()
    } else {
        nodes_text(nodes.drop_last(), parent_ns, scope) + child_text(nodes.last(), parent_ns, scope)
    }
}

/// One child of an element with default namespace `parent_ns`, as text.
pub open spec fn child_text(
    node: Xml,
    parent_ns: Option<Seq<char>>,
    scope: Seq<(Seq<char>, Seq<char>)>,
) -> Seq<char>
    decreases node,
{
    match node {
        Xml::ElementNode(c) => elem_text(c, Some(parent_ns), scope),
        _ => leaf_text(node),
    }
}

/// A node on its own, as text.
pub open spec fn xml_text(node: Xml) -> Seq<char> {
    match node {
        Xml::ElementNode(e) => elem_text(e, None, Seq::empty()),
        _ => leaf_text(node),
    }
}

/// Every namespace that the element's text needs a prefix for has one in
/// scope, and an element written with a prefix and children has a namespace
/// (its end tag names it).
pub open spec fn elem_printable(e: Element, outer: Seq<(Seq<char>, Seq<char>)>) -> bool
    decreases e,
{
    let scope = scope_of(e, outer);
    let attrs = attr_entries(e.attributes@);
    &&& needs_prefix(e) ==> find_last(scope, ns_key(e)) is Some
    &&& needs_prefix(e) && e.children@.len() > 0 ==> e.ns is Some
    &&& forall|i: int|
        0 <= i < attrs.len() && (#[trigger] attrs[i]).0.1 is Some ==> find_last(
            scope,
            attrs[i].0.1.unwrap(),
        ) is Some
    &&& nodes_printable(e.children@, scope)
}

/// Every element among the nodes is printable in the scope.
pub open spec fn nodes_printable(nodes: Seq<Xml>, scope: Seq<(Seq<char>, Seq<char>)>) -> bool
    decreases nodes,
{
    if nodes.len() == 0 {
        true
    } else {
        nodes_printable(nodes.drop_last(), scope) && node_printable(nodes.last(), scope)
    }
}

/// The node, if an element, is printable in the scope.
pub open spec fn node_printable(node: Xml, scope: Seq<(Seq<char>, Seq<char>)>) -> bool
    decreases node,
{
    match node {
        Xml::ElementNode(c) => elem_printable(c, scope),
        _ => true,
    }
}

/// The node can be written on its own.
pub open spec fn xml_printable(node: Xml) -> bool {
    node_printable(node, Seq::empty())
}

/// The default namespace of the parent, seen as a sequence.
pub open spec fn parent_view(parent_ns: Option<&Option<String>>) -> Option<Option<Seq<char>>> {
    match parent_ns {
        Some(p) => Some(opt_view(*p)),
        None => None,
    }
}

proof fn lemma_nodes_printable(nodes: Seq<Xml>, scope: Seq<(Seq<char>, Seq<char>)>, i: int)
    requires
        nodes_printable(nodes, scope),
        0 <= i < nodes.len(),
    ensures
        node_printable(nodes[i], scope),
    decreases nodes.len(),
{
    if i < nodes.len() - 1 {
        lemma_nodes_printable(nodes.drop_last(), scope, i);
    }
}

// ---------------------------------------------------------------------------
// Executable code
// ---------------------------------------------------------------------------

/// Appends copies of the pairs of `more` to `scope`.
fn extend_scope(scope: &mut Vec<(String, String)>, more: &Vec<(String, String)>)
    ensures
        prefix_entries(final(scope)@) == prefix_entries(old(scope)@) + prefix_entries(more@),
{
    let ghost start = prefix_entries(scope@);
    let mut i: usize = 0;
    while i < more.len()
        invariant
            i <= more@.len(),
            prefix_entries(scope@) == start + prefix_entries(more@).take(i as int),
        decreases more.len() - i,
    {
        let ghost before = scope@;
        let pair = &more[i];
        scope.push((pair.0.clone(), pair.1.clone()));
        assert(prefix_entries(scope@) =~= prefix_entries(before).push((pair.0@, pair.1@)));
        assert(prefix_entries(more@).take(i + 1) =~= prefix_entries(more@).take(i as int).push(
            (pair.0@, pair.1@),
        ));
        i = i + 1;
    }
    assert(prefix_entries(more@).take(more@.len() as int) =~= prefix_entries(more@));
}

/// The prefix bound last to the namespace `ns` in the scope.
pub(crate) fn lookup_prefix<'a>(scope: &'a Vec<(String, String)>, ns: &String) -> (r: Option<&'a String>)
    ensures
        match r {
            Some(p) => find_last(prefix_entries(scope@), ns@) == Some(p@),
            None => find_last(prefix_entries(scope@), ns@) is None,
        },
{
    let ghost es = prefix_entries(scope@);
    let mut i = scope.len();
    proof {
        lemma_find_last_take(es, ns@, i as int);
    }
    while i > 0
        invariant
            i <= scope@.len(),
            es == prefix_entries(scope@),
            find_last(es, ns@) == find_last(es.take(i as int), ns@),
        decreases i,
    {
        i = i - 1;
        assert(es.take(i + 1).drop_last() =~= es.take(i as int));
        assert(es.take(i + 1).last() == es[i as int]);
        if scope[i].0 == *ns {
            return Some(&scope[i].1);
        }
    }
    None
}

/// Writes the element's name with its prefix where it needs one.
fn write_tag_name(elem: &Element, scope: &Vec<(String, String)>, out: &mut String)
    requires
        needs_prefix(*elem) ==> find_last(prefix_entries(scope@), ns_key(*elem)) is Some,
    ensures
        final(out)@ == old(out)@ + tag_name(*elem, prefix_entries(scope@)),
{
    let same = match (&elem.ns, &elem.default_ns) {
        (Some(x), Some(y)) => *x == *y,
        (None, None) => true,
        _ => false,
    };
    if !same {
        let key = match &elem.ns {
            Some(n) => n.clone(),
            None => String::new(),
        };
        match lookup_prefix(scope, &key) {
            Some(p) => {
                out.append(p.as_str());
                out.append(":");
            },
            None => {},
        }
    }
    out.append(elem.name.as_str());
}

/// Writes the declaration of the element's default namespace, where it needs one.
fn write_xmlns(elem: &Element, parent_ns: Option<&Option<String>>, out: &mut String)
    ensures
        final(out)@ == old(out)@ + xmlns_text(*elem, parent_view(parent_ns)),
{
    let differs = match parent_ns {
        None => elem.default_ns.is_some(),
        Some(p) => !match (p, &elem.default_ns) {
            (Some(x), Some(y)) => *x == *y,
            (None, None) => true,
            _ => false,
        },
    };
    if differs {
        match &elem.default_ns {
            Some(ns) => {
                out.append(" xmlns='");
                out.append(ns.as_str());
                out.append("'");
            },
            None => {
                out.append(" xmlns=''");
            },
        }
    }
}

/// Writes the attributes of the element.
fn write_attrs(elem: &Element, scope: &Vec<(String, String)>, out: &mut String)
    requires
        forall|i: int|
            0 <= i < attr_entries(elem.attributes@).len() && (#[trigger] attr_entries(
                elem.attributes@,
            )[i]).0.1 is Some ==> find_last(
                prefix_entries(scope@),
                attr_entries(elem.attributes@)[i].0.1.unwrap(),
            ) is Some,
    ensures
        final(out)@ == old(out)@ + attrs_text(attr_entries(elem.attributes@), prefix_entries(scope@)),
{
    let ghost attrs = attr_entries(elem.attributes@);
    let ghost sv = prefix_entries(scope@);
    let ghost start = out@;
    let mut i: usize = 0;
    proof {
        assert(attrs.take(0) =~= Seq::empty());
    }
    while i < elem.attributes.len()
        invariant
            i <= elem.attributes@.len(),
            attrs == attr_entries(elem.attributes@),
            sv == prefix_entries(scope@),
            forall|j: int|
                0 <= j < attrs.len() && (#[trigger] attrs[j]).0.1 is Some ==> find_last(
                    sv,
                    attrs[j].0.1.unwrap(),
                ) is Some,
            out@ == start + attrs_text(attrs.take(i as int), sv),
        decreases elem.attributes.len() - i,
    {
        let ghost before = out@;
        let entry = &elem.attributes[i];
        assert(attrs[i as int] == ((entry.0.0@, opt_view(entry.0.1)), entry.1@));
        out.append(" ");
        match &entry.0.1 {
            Some(ns) => {
                match lookup_prefix(scope, ns) {
                    Some(p) => {
                        out.append(p.as_str());
                        out.append(":");
                    },
                    None => {},
                }
            },
            None => {},
        }
        out.append(entry.0.0.as_str());
        out.append("='");
        let value = escape(entry.1.as_str());
        out.append(value.as_str());
        out.append("'");
        assert(out@ =~= before + attr_text(attrs[i as int], sv));
        assert(attrs.take(i + 1).drop_last() =~= attrs.take(i as int));
        i = i + 1;
    }
    assert(attrs.take(elem.attributes@.len() as int) =~= attrs);
}

/// Writes a node other than an element.
fn write_leaf(node: &Xml, out: &mut String)
    requires
        !(node is ElementNode),
    ensures
        final(out)@ == old(out)@ + leaf_text(*node),
{
    match node {
        Xml::CharacterNode(data) => {
            let e = escape(data.as_str());
            out.append(e.as_str());
        },
        Xml::CDATANode(data) => {
            out.append("<![CDATA[");
            out.append(data.as_str());
            out.append("]]>");
        },
        Xml::CommentNode(data) => {
            out.append("<!--");
            out.append(data.as_str());
            out.append("-->");
        },
        Xml::PINode(data) => {
            out.append("<?");
            out.append(data.as_str());
            out.append("?>");
        },
        Xml::ElementNode(_) => {},
    }
}

/// Writes the element below a parent with default namespace `parent_ns`
/// (`None` at the root), with the namespace prefixes `outer` in scope.
fn write_elem(
    elem: &Element,
    parent_ns: Option<&Option<String>>,
    outer: &Vec<(String, String)>,
    out: &mut String,
)
    requires
        elem_printable(*elem, prefix_entries(outer@)),
    ensures
        final(out)@ == old(out)@ + elem_text(*elem, parent_view(parent_ns), prefix_entries(outer@)),
    decreases elem,
{
    let ghost start = out@;
    let mut scope: Vec<(String, String)> = Vec::new();
    proof {
        assert(prefix_entries(scope@) =~= Seq::empty());
    }
    extend_scope(&mut scope, outer);
    extend_scope(&mut scope, &elem.prefixes);
    let ghost sv = prefix_entries(scope@);
    assert(sv =~= scope_of(*elem, prefix_entries(outer@)));
    out.append("<");
    write_tag_name(elem, &scope, out);
    write_xmlns(elem, parent_ns, out);
    write_attrs(elem, &scope, out);
    let ghost head = out@;
    assert(head =~= start + "<"@ + tag_name(*elem, sv) + xmlns_text(*elem, parent_view(parent_ns))
        + attrs_text(attr_entries(elem.attributes@), sv));
    if elem.children.len() == 0 {
        out.append("/>");
    } else {
        out.append(">");
        let ghost mid = out@;
        let ghost dns = opt_view(elem.default_ns);
        let mut i: usize = 0;
        proof {
            assert(elem.children@.take(0) =~= Seq::empty());
        }
        while i < elem.children.len()
            invariant
                i <= elem.children@.len(),
                sv == prefix_entries(scope@),
                dns == opt_view(elem.default_ns),
                nodes_printable(elem.children@, sv),
                out@ == mid + nodes_text(elem.children@.take(i as int), dns, sv),
            decreases elem.children.len() - i,
        {
            let ghost before = out@;
            proof {
                lemma_nodes_printable(elem.children@, sv, i as int);
            }
            match &elem.children[i] {
                Xml::ElementNode(child) => {
                    write_elem(child, Some(&elem.default_ns), &scope, out);
                },
                other => {
                    write_leaf(other, out);
                },
            }
            assert(elem.children@.take(i + 1).drop_last() =~= elem.children@.take(i as int));
            assert(out@ =~= before + child_text(elem.children@[i as int], dns, sv));
            i = i + 1;
        }
        assert(elem.children@.take(elem.children@.len() as int) =~= elem.children@);
        out.append("</");
        write_tag_name(elem, &scope, out);
        out.append(">");
    }
    assert(out@ =~= start + elem_text(*elem, parent_view(parent_ns), prefix_entries(outer@)));
}

impl Element {
    /// The element written as XML text.
    pub fn to_string(&self) -> (s: String)
        requires
            elem_printable(*self, Seq::empty()),
        ensures
            s@ == elem_text(*self, None, Seq::empty()),
    {
        let mut out = String::new();
        let scope: Vec<(String, String)> = Vec::new();
        assert(prefix_entries(scope@) =~= Seq::empty());
        write_elem(self, None, &scope, &mut out);
        out
    }
}

impl Xml {
    /// The node written as XML text.
    pub fn to_string(&self) -> (s: String)
        requires
            xml_printable(*self),
        ensures
            s@ == xml_text(*self),
    {
        let mut out = String::new();
        match self {
            Xml::ElementNode(elem) => {
                let scope: Vec<(String, String)> = Vec::new();
                assert(prefix_entries(scope@) =~= Seq::empty());
                write_elem(elem, None, &scope, &mut out);
            },
            other => {
                write_leaf(other, &mut out);
            },
        }
        out
    }
}

} // verus!
