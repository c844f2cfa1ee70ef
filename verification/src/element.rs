//! The XML tree: elements and the nodes they hold.
use vstd::prelude::*;
use crate::assoc::{
    as_map, find, first_key_at, keys_distinct, lemma_find_absent, lemma_find_append, lemma_find_at,
    lemma_find_push, lemma_find_single, lemma_find_update, lemma_first_index_absent,
    lemma_first_index_at, lemma_with_key_set_distinct, lemma_without_key_distinct, with_key_set,
    without_key,
};

verus! {

/// An Enum describing a XML Node
#[derive(Debug)]
pub enum Xml {
    /// An XML Element
    ElementNode(Element),
    /// Character Data
    CharacterNode(String),
    /// CDATA
    CDATANode(String),
    /// A XML Comment
    CommentNode(String),
    /// Processing Information
    PINode(String),
}

/// A struct representing an XML element
#[derive(Debug)]
pub struct Element {
    /// The element's name
    pub name: String,
    /// The element's namespace
    pub ns: Option<String>,
    /// The element's default namespace
    pub default_ns: Option<String>,
    /// The prefixes set for known namespaces, as (namespace, prefix) pairs
    pub prefixes: Vec<(String, String)>,
    /// The element's attributes, as ((name, namespace), value) pairs
    pub attributes: Vec<((String, Option<String>), String)>,
    /// The element's child `Xml` nodes
    pub children: Vec<Xml>,
}


/// An optional value seen through its view.
pub open spec fn opt_view<T: View>(o: Option<T>) -> Option<T::V> {
    match o {
        Some(t) => Some(t@),
        None => None,
    }
}

/// An attribute's (name, namespace) key and its value, seen as character sequences.
pub open spec fn attr_entry(e: ((String, Option<String>), String)) -> (
    (Seq<char>, Option<Seq<char>>),
    Seq<char>,
) {
    ((e.0.0@, opt_view(e.0.1)), e.1@)
}

/// An attribute list seen as a list of (key, value) pairs of character sequences.
pub open spec fn attr_entries(v: Seq<((String, Option<String>), String)>) -> Seq<
    ((Seq<char>, Option<Seq<char>>), Seq<char>),
> {
    v.map_values(|e: ((String, Option<String>), String)| attr_entry(e))
}

/// A namespace prefix list seen as (namespace, prefix) pairs of character sequences.
pub open spec fn prefix_entries(v: Seq<(String, String)>) -> Seq<(Seq<char>, Seq<char>)> {
    v.map_values(|e: (String, String)| (e.0@, e.1@))
}

/// The attributes that `Element::new` is given, applied in turn (a later
/// one with the same key overwrites an earlier one).
pub open spec fn attrs_given(attrs: Seq<(&str, Option<&str>, &str)>) -> Map<
    (Seq<char>, Option<Seq<char>>),
    Seq<char>,
>
    decreases attrs.len(),
{
    if attrs.len() == 0 {
        Map::empty()
    } else {
        let a = attrs.last();
        attrs_given(attrs.drop_last()).insert((a.0@, opt_view(a.1)), a.2@)
    }
}

/// The attribute list that `Element::new` builds from its arguments: each
/// given attribute set in turn, replacing the value of an earlier one with
/// the same key where it stands, or else appended.
pub open spec fn attrs_listed(attrs: Seq<(&str, Option<&str>, &str)>) -> Seq<
    ((Seq<char>, Option<Seq<char>>), Seq<char>),
>
    decreases attrs.len(),
{
    if attrs.len() == 0 {
        Seq::empty()
    } else {
        let a = attrs.last();
        with_key_set(attrs_listed(attrs.drop_last()), (a.0@, opt_view(a.1)), a.2@)
    }
}

/// The node is an element with this name and namespace.
pub open spec fn is_named(node: Xml, name: Seq<char>, ns: Option<Seq<char>>) -> bool {
    match node {
        Xml::ElementNode(e) => e.name@ == name && opt_view(e.ns) == ns,
        _ => false,
    }
}

/// The child elements with this name and namespace, in order.
pub open spec fn named_children(nodes: Seq<Xml>, name: Seq<char>, ns: Option<Seq<char>>) -> Seq<
    Element,
>
    decreases nodes.len(),
{
    if nodes.len() == 0 {
        Seq::empty()
    } else {
        named_children(nodes.drop_last(), name, ns) + if is_named(nodes.last(), name, ns) {
            seq![nodes.last()->ElementNode_0]
        } else {
            Seq::empty()
        }
    }
}

/// The character data and CDATA in the nodes, in order, with that of child
/// elements taken in depth first.
pub open spec fn content_of_nodes(nodes: Seq<Xml>) -> Seq<char>
    decreases nodes,
{
    if nodes.len() == 0 {
        Seq::empty()
    } else {
        content_of_nodes(nodes.drop_last()) + content_of_node(nodes.last())
    }
}

/// The character data and CDATA in one node.
pub open spec fn content_of_node(node: Xml) -> Seq<char>
    decreases node,
{
    match node {
        Xml::ElementNode(e) => content_of_nodes(e.children@),
        Xml::CharacterNode(data) => data@,
        Xml::CDATANode(data) => data@,
        _ => Seq::empty(),
    }
}


/// Two elements agree on everything but their children.
pub open spec fn same_but_children(a: Element, b: Element) -> bool {
    &&& a.name == b.name
    &&& a.ns == b.ns
    &&& a.default_ns == b.default_ns
    &&& a.prefixes == b.prefixes
    &&& a.attributes == b.attributes
}

/// `after` is `before` with one more child at the end.
pub open spec fn appended_child(before: Element, after: Element) -> bool {
    &&& same_but_children(after, before)
    &&& after.children@.len() == before.children@.len() + 1
    &&& after.children@.drop_last() == before.children@
}

/// Two elements hold the same text throughout: name, namespaces, prefixes,
/// attributes and, child by child, the same children.
pub open spec fn same_element(a: Element, b: Element) -> bool
    decreases a,
{
    &&& a.name@ == b.name@
    &&& opt_view(a.ns) == opt_view(b.ns)
    &&& opt_view(a.default_ns) == opt_view(b.default_ns)
    &&& prefix_entries(a.prefixes@) == prefix_entries(b.prefixes@)
    &&& attr_entries(a.attributes@) == attr_entries(b.attributes@)
    &&& same_nodes(a.children@, b.children@)
}

/// Two node lists agree node by node in the sense of `same_node`.
pub open spec fn same_nodes(s: Seq<Xml>, t: Seq<Xml>) -> bool
    decreases s,
{
    &&& s.len() == t.len()
    &&& s.len() > 0 ==> same_nodes(s.drop_last(), t.drop_last()) && same_node(s.last(), t.last())
}

/// Two nodes are of the same kind and hold the same text.
pub open spec fn same_node(x: Xml, y: Xml) -> bool
    decreases x,
{
    match x {
        Xml::ElementNode(a) => match y {
            Xml::ElementNode(b) => same_element(a, b),
            _ => false,
        },
        Xml::CharacterNode(a) => match y {
            Xml::CharacterNode(b) => a@ == b@,
            _ => false,
        },
        Xml::CDATANode(a) => match y {
            Xml::CDATANode(b) => a@ == b@,
            _ => false,
        },
        Xml::CommentNode(a) => match y {
            Xml::CommentNode(b) => a@ == b@,
            _ => false,
        },
        Xml::PINode(a) => match y {
            Xml::PINode(b) => a@ == b@,
            _ => false,
        },
    }
}

fn clone_opt_string(o: &Option<String>) -> (r: Option<String>)
    ensures
        opt_view(r) == opt_view(*o),
{
    match o {
        Some(s) => Some(s.clone()),
        None => None,
    }
}

fn clone_node(node: &Xml) -> (r: Xml)
    ensures
        same_node(*node, r),
    decreases node,
{
    match node {
        Xml::ElementNode(e) => Xml::ElementNode(clone_element(e)),
        Xml::CharacterNode(d) => Xml::CharacterNode(d.clone()),
        Xml::CDATANode(d) => Xml::CDATANode(d.clone()),
        Xml::CommentNode(d) => Xml::CommentNode(d.clone()),
        Xml::PINode(d) => Xml::PINode(d.clone()),
    }
}

fn clone_element(e: &Element) -> (r: Element)
    ensures
        same_element(*e, r),
    decreases e,
{
    let mut prefixes: Vec<(String, String)> = Vec::new();
    let mut i: usize = 0;
    while i < e.prefixes.len()
        invariant
            i <= e.prefixes@.len(),
            prefix_entries(prefixes@) == prefix_entries(e.prefixes@).take(i as int),
        decreases e.prefixes.len() - i,
    {
        let ghost before = prefixes@;
        let pair = &e.prefixes[i];
        prefixes.push((pair.0.clone(), pair.1.clone()));
        assert(prefix_entries(prefixes@) =~= prefix_entries(before).push((pair.0@, pair.1@)));
        assert(prefix_entries(e.prefixes@).take(i + 1) =~= prefix_entries(e.prefixes@).take(i as int).push(
            (pair.0@, pair.1@),
        ));
        i = i + 1;
    }
    let mut attributes: Vec<((String, Option<String>), String)> = Vec::new();
    let mut i: usize = 0;
    while i < e.attributes.len()
        invariant
            i <= e.attributes@.len(),
            attr_entries(attributes@) == attr_entries(e.attributes@).take(i as int),
        decreases e.attributes.len() - i,
    {
        let ghost before = attributes@;
        let a = &e.attributes[i];
        attributes.push(((a.0.0.clone(), clone_opt_string(&a.0.1)), a.1.clone()));
        assert(attr_entries(attributes@) =~= attr_entries(before).push(attr_entry(*a)));
        assert(attr_entries(e.attributes@).take(i + 1) =~= attr_entries(e.attributes@).take(i as int).push(
            attr_entry(*a),
        ));
        i = i + 1;
    }
    let mut children: Vec<Xml> = Vec::new();
    let mut i: usize = 0;
    while i < e.children.len()
        invariant
            i <= e.children@.len(),
            same_nodes(e.children@.take(i as int), children@),
        decreases e.children.len() - i,
    {
        let ghost before = children@;
        let c = clone_node(&e.children[i]);
        children.push(c);
        assert(children@.drop_last() =~= before);
        assert(e.children@.take(i + 1).drop_last() =~= e.children@.take(i as int));
        i = i + 1;
    }
    assert(prefix_entries(e.prefixes@).take(e.prefixes@.len() as int) =~= prefix_entries(e.prefixes@));
    assert(attr_entries(e.attributes@).take(e.attributes@.len() as int) =~= attr_entries(e.attributes@));
    assert(e.children@.take(e.children@.len() as int) =~= e.children@);
    Element {
        name: e.name.clone(),
        ns: clone_opt_string(&e.ns),
        default_ns: clone_opt_string(&e.default_ns),
        prefixes,
        attributes,
        children,
    }
}

impl Clone for Element {
    /// A deep copy: the copy holds the same text throughout.
    fn clone(&self) -> (r: Self)
        ensures
            same_element(*self, r),
    {
        clone_element(self)
    }
}

impl Clone for Xml {
    /// A deep copy: the copy holds the same text throughout.
    fn clone(&self) -> (r: Self)
        ensures
            same_node(*self, r),
    {
        clone_node(self)
    }
}

impl Element {
    /// The value of the attribute with this name and namespace.
    pub open spec fn attribute(self, name: Seq<char>, ns: Option<Seq<char>>) -> Option<Seq<char>> {
        find(attr_entries(self.attributes@), (name, ns))
    }

    /// The attributes as a map from (name, namespace) to value.
    pub open spec fn attribute_map(self) -> Map<(Seq<char>, Option<Seq<char>>), Seq<char>> {
        as_map(attr_entries(self.attributes@))
    }
}

fn string_of(s: &str) -> (r: String)
    ensures
        r@ == s@,
{
    String::from_str(s)
}

fn opt_string_of(o: Option<&str>) -> (r: Option<String>)
    ensures
        opt_view(r) == opt_view(o),
{
    match o {
        Some(s) => Some(string_of(s)),
        None => None,
    }
}

pub(crate) fn opt_string_eq(a: &Option<String>, b: &Option<String>) -> (r: bool)
    ensures
        r == (opt_view(*a) == opt_view(*b)),
{
    match (a, b) {
        (Some(x), Some(y)) => *x == *y,
        (None, None) => true,
        _ => false,
    }
}

/// The position of the first attribute with this name and namespace.
pub(crate) fn attr_position(attrs: &Vec<((String, Option<String>), String)>, name: &String, ns: &Option<String>) -> (r:
    Option<usize>)
    ensures
        match r {
            Some(i) => first_key_at(attr_entries(attrs@), (name@, opt_view(*ns)), i as int),
            None => forall|j: int|
                0 <= j < attrs@.len() ==> (#[trigger] attr_entries(attrs@)[j]).0 != (name@, opt_view(*ns)),
        },
{
    let ghost key = (name@, opt_view(*ns));
    let ghost es = attr_entries(attrs@);
    let mut i: usize = 0;
    while i < attrs.len()
        invariant
            i <= attrs@.len(),
            es == attr_entries(attrs@),
            key == (name@, opt_view(*ns)),
            forall|j: int| 0 <= j < i ==> (#[trigger] es[j]).0 != key,
        decreases attrs.len() - i,
    {
        let entry = &attrs[i];
        if entry.0.0 == *name && opt_string_eq(&entry.0.1, ns) {
            assert(es[i as int] == attr_entry(attrs@[i as int]));
            return Some(i);
        }
        assert(es[i as int] == attr_entry(attrs@[i as int]));
        i = i + 1;
    }
    None
}

/// Sets the attribute `(name, ns)` to `value`, giving back its former value.
fn insert_attr(
    attrs: &mut Vec<((String, Option<String>), String)>,
    name: String,
    ns: Option<String>,
    value: String,
) -> (prev: Option<String>)
    ensures
        opt_view(prev) == find(attr_entries(old(attrs)@), (name@, opt_view(ns))),
        as_map(attr_entries(final(attrs)@)) == as_map(attr_entries(old(attrs)@)).insert(
            (name@, opt_view(ns)),
            value@,
        ),
        attr_entries(final(attrs)@) == with_key_set(
            attr_entries(old(attrs)@),
            (name@, opt_view(ns)),
            value@,
        ),
        keys_distinct(attr_entries(old(attrs)@)) ==> keys_distinct(attr_entries(final(attrs)@)),
{
    let ghost key = (name@, opt_view(ns));
    let ghost es = attr_entries(attrs@);
    let ghost entry = attr_entry(((name, ns), value));
    match attr_position(attrs, &name, &ns) {
        Some(i) => {
            let prev = attrs[i].1.clone();
            attrs.set(i, ((name, ns), value));
            proof {
                lemma_find_at(es, key, i as int);
                lemma_first_index_at(es, key, i as int);
                if keys_distinct(es) {
                    lemma_with_key_set_distinct(es, key, value@);
                }
                assert(attr_entries(attrs@) =~= es.update(i as int, (key, value@)));
                lemma_find_update(es, key, i as int, value@);
                assert(as_map(attr_entries(attrs@)) =~= as_map(es).insert(key, value@));
            }
            Some(prev)
        },
        None => {
            attrs.push(((name, ns), value));
            proof {
                lemma_find_absent(es, key);
                lemma_first_index_absent(es, key);
                if keys_distinct(es) {
                    lemma_with_key_set_distinct(es, key, value@);
                }
                assert(attr_entries(attrs@) =~= es.push((key, value@)));
                assert forall|k2| #[trigger] find(es.push((key, value@)), k2) == (if k2 == key {
                    Some(value@)
                } else {
                    find(es, k2)
                }) by {
                    lemma_find_push(es, (key, value@), k2);
                }
                assert(as_map(attr_entries(attrs@)) =~= as_map(es).insert(key, value@));
            }
            None
        },
    }
}

/// Removes every attribute `(name, ns)`, giving back the value it had.
fn remove_attr(attrs: &mut Vec<((String, Option<String>), String)>, name: &String, ns: &Option<String>) -> (prev:
    Option<String>)
    ensures
        opt_view(prev) == find(attr_entries(old(attrs)@), (name@, opt_view(*ns))),
        as_map(attr_entries(final(attrs)@)) == as_map(attr_entries(old(attrs)@)).remove(
            (name@, opt_view(*ns)),
        ),
        attr_entries(final(attrs)@) == without_key(attr_entries(old(attrs)@), (name@, opt_view(*ns))),
        keys_distinct(attr_entries(old(attrs)@)) ==> keys_distinct(attr_entries(final(attrs)@)),
{
    let ghost key = (name@, opt_view(*ns));
    let ghost orig = attr_entries(attrs@);
    let mut removed: Option<String> = None;
    let mut i: usize = 0;
    let ghost mut j: int = 0;
    proof {
        assert(orig.take(0) =~= Seq::empty());
        assert(attr_entries(attrs@).take(0) =~= Seq::empty());
    }
    while i < attrs.len()
        invariant
            key == (name@, opt_view(*ns)),
            orig == attr_entries(old(attrs)@),
            0 <= j <= orig.len(),
            i <= attrs@.len(),
            attr_entries(attrs@).skip(i as int) == orig.skip(j),
            find(attr_entries(attrs@).take(i as int), key) is None,
            forall|k2|
                k2 != key ==> #[trigger] find(attr_entries(attrs@).take(i as int), k2) == find(
                    orig.take(j),
                    k2,
                ),
            opt_view(removed) == find(orig.take(j), key),
            attr_entries(attrs@).take(i as int) == without_key(orig.take(j), key),
        decreases attrs.len() - i,
    {
        let ghost es = attr_entries(attrs@);
        assert(es.skip(i as int).len() == es.len() - i);
        assert(j < orig.len());
        assert(es[i as int] == es.skip(i as int)[0]);
        assert(orig[j] == orig.skip(j)[0]);
        assert(orig.take(j + 1) =~= orig.take(j) + seq![orig[j]]);
        assert(orig.take(j + 1).drop_last() =~= orig.take(j));
        assert(orig.take(j + 1).last() == orig[j]);
        assert(es[i as int] == attr_entry(attrs@[i as int]));
        assert(es.skip(i + 1) =~= es.skip(i as int).drop_first());
        assert(orig.skip(j + 1) =~= orig.skip(j).drop_first());
        let is_key = attrs[i].0.0 == *name && opt_string_eq(&attrs[i].0.1, ns);
        assert(is_key == (es[i as int].0 == key));
        if is_key {
            let (_, v) = attrs.remove(i);
            proof {
                assert(v@ == orig[j].1);
                let ns2 = attr_entries(attrs@);
                assert(ns2 =~= es.remove(i as int));
                assert(ns2.take(i as int) =~= es.take(i as int));
                assert(ns2.skip(i as int) =~= orig.skip(j + 1));
                lemma_find_append(orig.take(j), seq![orig[j]], key);
                lemma_find_single(orig[j], key);
                assert forall|k2| k2 != key implies #[trigger] find(ns2.take(i as int), k2) == find(
                    orig.take(j + 1),
                    k2,
                ) by {
                    lemma_find_append(orig.take(j), seq![orig[j]], k2);
                    lemma_find_single(orig[j], k2);
                }
            }
            if removed.is_none() {
                removed = Some(v);
            }
        } else {
            proof {
                lemma_find_append(orig.take(j), seq![orig[j]], key);
                lemma_find_single(orig[j], key);
                assert(es.take(i + 1) =~= es.take(i as int) + seq![es[i as int]]);
                assert(es.take(i + 1) =~= es.take(i as int).push(es[i as int]));
                assert(es.skip(i + 1) =~= orig.skip(j + 1));
                lemma_find_append(es.take(i as int), seq![es[i as int]], key);
                lemma_find_single(es[i as int], key);
                assert forall|k2| k2 != key implies #[trigger] find(es.take(i + 1), k2) == find(
                    orig.take(j + 1),
                    k2,
                ) by {
                    lemma_find_append(orig.take(j), seq![orig[j]], k2);
                    lemma_find_single(orig[j], k2);
                    lemma_find_append(es.take(i as int), seq![es[i as int]], k2);
                    lemma_find_single(es[i as int], k2);
                }
            }
            i = i + 1;
        }
        proof {
            j = j + 1;
        }
    }
    proof {
        let es = attr_entries(attrs@);
        assert(es.take(i as int) =~= es);
        assert(orig.skip(j).len() == 0);
        assert(orig.take(j) =~= orig);
        assert(as_map(es) =~= as_map(orig).remove(key));
        if keys_distinct(orig) {
            lemma_without_key_distinct(orig, key);
        }
    }
    removed
}

/// Whether the node is an element with this name and namespace.
fn node_is_named(node: &Xml, name: &String, ns: &Option<String>) -> (r: bool)
    ensures
        r == is_named(*node, name@, opt_view(*ns)),
{
    match node {
        Xml::ElementNode(elem) => elem.name == *name && opt_string_eq(&elem.ns, ns),
        _ => false,
    }
}

proof fn lemma_named_children_append(a: Seq<Xml>, b: Seq<Xml>, name: Seq<char>, ns: Option<Seq<char>>)
    ensures
        named_children(a + b, name, ns) == named_children(a, name, ns) + named_children(b, name, ns),
    decreases b.len(),
{
    if b.len() == 0 {
        assert(a + b =~= a);
        assert(named_children(a, name, ns) + named_children(b, name, ns) =~= named_children(a, name, ns));
    } else {
        assert((a + b).drop_last() =~= a + b.drop_last());
        assert((a + b).last() == b.last());
        lemma_named_children_append(a, b.drop_last(), name, ns);
        assert(named_children(a + b, name, ns) =~= named_children(a, name, ns) + named_children(b, name, ns));
    }
}

impl Element {
    /// Create a new element, with specified name and namespace.
    /// Attributes are specified as a slice of (name, namespace, value) tuples.
    pub fn new(name: &str, ns: Option<&str>, attrs: &[(&str, Option<&str>, &str)]) -> (e: Element)
        ensures
            e.name@ == name@,
            opt_view(e.ns) == opt_view(ns),
            opt_view(e.default_ns) == opt_view(ns),
            e.prefixes@.len() == 0,
            e.attribute_map() == attrs_given(attrs@),
            attr_entries(e.attributes@) == attrs_listed(attrs@),
            keys_distinct(attr_entries(e.attributes@)),
            e.children@.len() == 0,
    {
        let mut attributes: Vec<((String, Option<String>), String)> = Vec::new();
        proof {
            assert(as_map(attr_entries(attributes@)) =~= attrs_given(attrs@.take(0)));
            assert(attr_entries(attributes@) =~= attrs_listed(attrs@.take(0)));
        }
        let mut i: usize = 0;
        while i < attrs.len()
            invariant
                i <= attrs@.len(),
                as_map(attr_entries(attributes@)) == attrs_given(attrs@.take(i as int)),
                keys_distinct(attr_entries(attributes@)),
                attr_entries(attributes@) == attrs_listed(attrs@.take(i as int)),
            decreases attrs.len() - i,
        {
            let (a_name, a_ns, a_value) = attrs[i];
            insert_attr(&mut attributes, string_of(a_name), opt_string_of(a_ns), string_of(a_value));
            assert(attrs@.take(i + 1).drop_last() =~= attrs@.take(i as int));
            i = i + 1;
        }
        assert(attrs@.take(attrs@.len() as int) =~= attrs@);
        let ns = opt_string_of(ns);
        let default_ns = opt_string_of(match &ns {
            Some(s) => Some(s.as_str()),
            None => None,
        });
        Element {
            name: string_of(name),
            ns,
            default_ns,
            prefixes: Vec::new(),
            attributes,
            children: Vec::new(),
        }
    }

    /// Gets an attribute with the specified name and namespace. When an attribute with the
    /// specified name does not exist `None` is returned.
    pub fn get_attribute<'a>(&'a self, name: &str, ns: Option<&str>) -> (r: Option<&'a str>)
        ensures
            opt_view(r) == self.attribute(name@, opt_view(ns)),
    {
        let name = string_of(name);
        let ns = opt_string_of(ns);
        match attr_position(&self.attributes, &name, &ns) {
            Some(i) => {
                proof {
                    lemma_find_at(attr_entries(self.attributes@), (name@, opt_view(ns)), i as int);
                }
                Some(self.attributes[i].1.as_str())
            },
            None => {
                proof {
                    lemma_find_absent(attr_entries(self.attributes@), (name@, opt_view(ns)));
                }
                None
            },
        }
    }

    /// Sets the attribute with the specified name and namespace.
    /// Returns the value it had before.
    pub fn set_attribute(&mut self, name: &str, ns: Option<&str>, value: &str) -> (r: Option<String>)
        ensures
            opt_view(r) == old(self).attribute(name@, opt_view(ns)),
            final(self).attribute_map() == old(self).attribute_map().insert((name@, opt_view(ns)), value@),
            attr_entries(final(self).attributes@) == with_key_set(
                attr_entries(old(self).attributes@),
                (name@, opt_view(ns)),
                value@,
            ),
            keys_distinct(attr_entries(old(self).attributes@)) ==> keys_distinct(
                attr_entries(final(self).attributes@),
            ),
            final(self).name == old(self).name,
            final(self).ns == old(self).ns,
            final(self).default_ns == old(self).default_ns,
            final(self).prefixes == old(self).prefixes,
            final(self).children == old(self).children,
    {
        insert_attr(&mut self.attributes, string_of(name), opt_string_of(ns), string_of(value))
    }

    /// Remove the attribute with the specified name and namespace.
    /// Returns the value it had before.
    pub fn remove_attribute(&mut self, name: &str, ns: Option<&str>) -> (r: Option<String>)
        ensures
            opt_view(r) == old(self).attribute(name@, opt_view(ns)),
            final(self).attribute_map() == old(self).attribute_map().remove((name@, opt_view(ns))),
            attr_entries(final(self).attributes@) == without_key(
                attr_entries(old(self).attributes@),
                (name@, opt_view(ns)),
            ),
            keys_distinct(attr_entries(old(self).attributes@)) ==> keys_distinct(
                attr_entries(final(self).attributes@),
            ),
            final(self).name == old(self).name,
            final(self).ns == old(self).ns,
            final(self).default_ns == old(self).default_ns,
            final(self).prefixes == old(self).prefixes,
            final(self).children == old(self).children,
    {
        let name = string_of(name);
        let ns = opt_string_of(ns);
        remove_attr(&mut self.attributes, &name, &ns)
    }

    /// Gets the first child `Element` with the specified name and namespace. When no child
    /// with the specified name exists `None` is returned.
    pub fn get_child<'a>(&'a self, name: &str, ns: Option<&str>) -> (r: Option<&'a Element>)
        ensures
            ({
                let found = named_children(self.children@, name@, opt_view(ns));
                match r {
                    Some(e) => found.len() > 0 && *e == found[0],
                    None => found.len() == 0,
                }
            }),
    {
        let name_s = string_of(name);
        let ns_s = opt_string_of(ns);
        let ghost key_ns = opt_view(ns);
        let mut i: usize = 0;
        proof {
            assert(self.children@.take(0) =~= Seq::<Xml>::empty());
        }
        while i < self.children.len()
            invariant
                i <= self.children@.len(),
                key_ns == opt_view(ns),
                key_ns == opt_view(ns_s),
                name_s@ == name@,
                named_children(self.children@.take(i as int), name@, key_ns).len() == 0,
            decreases self.children.len() - i,
        {
            let ghost cs = self.children@;
            proof {
                assert(cs.take(i + 1).drop_last() =~= cs.take(i as int));
                assert(cs.take(i + 1).last() == cs[i as int]);
            }
            if node_is_named(&self.children[i], &name_s, &ns_s) {
                match &self.children[i] {
                    Xml::ElementNode(elem) => {
                        proof {
                            assert(named_children(cs.take(i + 1), name@, key_ns) =~= seq![*elem]);
                            lemma_named_children_append(cs.take(i + 1), cs.skip(i + 1), name@, key_ns);
                            assert(cs.take(i + 1) + cs.skip(i + 1) =~= cs);
                            let found = named_children(cs, name@, key_ns);
                            assert(found == named_children(cs.take(i + 1), name@, key_ns) + named_children(cs.skip(i + 1), name@, key_ns));
                            assert(found[0] == *elem);
                        }
                        return Some(elem);
                    },
                    _ => {},
                }
            }
            i = i + 1;
        }
        assert(self.children@.take(self.children@.len() as int) =~= self.children@);
        None
    }

    /// Get all children `Element` with the specified name and namespace. When no child
    /// with the specified name exists an empty vector is returned.
    pub fn get_children<'a>(&'a self, name: &str, ns: Option<&str>) -> (res: Vec<&'a Element>)
        ensures
            res@.map_values(|e: &Element| *e) == named_children(self.children@, name@, opt_view(ns)),
    {
        let name_s = string_of(name);
        let ns_s = opt_string_of(ns);
        let ghost key_ns = opt_view(ns);
        let mut res: Vec<&'a Element> = Vec::new();
        let mut i: usize = 0;
        proof {
            assert(self.children@.take(0) =~= Seq::<Xml>::empty());
            assert(res@.map_values(|e: &Element| *e) =~= Seq::<Element>::empty());
        }
        while i < self.children.len()
            invariant
                i <= self.children@.len(),
                key_ns == opt_view(ns),
                key_ns == opt_view(ns_s),
                name_s@ == name@,
                res@.map_values(|e: &Element| *e) == named_children(
                    self.children@.take(i as int),
                    name@,
                    key_ns,
                ),
            decreases self.children.len() - i,
        {
            let ghost cs = self.children@;
            let ghost before = res@;
            proof {
                assert(cs.take(i + 1).drop_last() =~= cs.take(i as int));
                assert(cs.take(i + 1).last() == cs[i as int]);
            }
            if node_is_named(&self.children[i], &name_s, &ns_s) {
                match &self.children[i] {
                    Xml::ElementNode(elem) => {
                        res.push(elem);
                        assert(res@.map_values(|e: &Element| *e) =~= before.map_values(|e: &Element| *e).push(*elem));
                    },
                    _ => {},
                }
            }
            i = i + 1;
        }
        assert(self.children@.take(self.children@.len() as int) =~= self.children@);
        res
    }

    /// Appends a child element. Returns a reference to the added element.
    pub fn tag(&mut self, child: Element) -> (r: &mut Element)
        ensures
            *r == child,
            same_but_children(*final(self), *old(self)),
            final(self).children@ == old(self).children@.push(Xml::ElementNode(*final(r))),
    {
        self.children.push(Xml::ElementNode(child));
        let n = self.children.len();
        match &mut self.children[n - 1] {
            Xml::ElementNode(elem) => elem,
            _ => vstd::pervasive::unreached(),
        }
    }

    /// Appends a child element. Returns a mutable reference to self.
    pub fn tag_stay(&mut self, child: Element) -> (r: &mut Element)
        ensures
            same_but_children(*r, *old(self)),
            r.children@ == old(self).children@.push(Xml::ElementNode(child)),
            *final(self) == *final(r),
    {
        self.children.push(Xml::ElementNode(child));
        self
    }

    /// Appends characters. Returns a mutable reference to self.
    pub fn text(&mut self, text: &str) -> (r: &mut Element)
        ensures
            appended_child(*old(self), *r),
            r.children@.last() matches Xml::CharacterNode(t) && t@ == text@,
            *final(self) == *final(r),
    {
        self.children.push(Xml::CharacterNode(string_of(text)));
        assert(self.children@.drop_last() =~= old(self).children@);
        self
    }

    /// Appends CDATA. Returns a mutable reference to self.
    pub fn cdata(&mut self, text: &str) -> (r: &mut Element)
        ensures
            appended_child(*old(self), *r),
            r.children@.last() matches Xml::CDATANode(t) && t@ == text@,
            *final(self) == *final(r),
    {
        self.children.push(Xml::CDATANode(string_of(text)));
        assert(self.children@.drop_last() =~= old(self).children@);
        self
    }

    /// Appends a comment. Returns a mutable reference to self.
    pub fn comment(&mut self, text: &str) -> (r: &mut Element)
        ensures
            appended_child(*old(self), *r),
            r.children@.last() matches Xml::CommentNode(t) && t@ == text@,
            *final(self) == *final(r),
    {
        self.children.push(Xml::CommentNode(string_of(text)));
        assert(self.children@.drop_last() =~= old(self).children@);
        self
    }

    /// Appends processing information. Returns a mutable reference to self.
    pub fn pi(&mut self, text: &str) -> (r: &mut Element)
        ensures
            appended_child(*old(self), *r),
            r.children@.last() matches Xml::PINode(t) && t@ == text@,
            *final(self) == *final(r),
    {
        self.children.push(Xml::PINode(string_of(text)));
        assert(self.children@.drop_last() =~= old(self).children@);
        self
    }

    /// Returns the character and CDATA contained in the element.
    pub fn content_str(&self) -> (res: String)
        ensures
            res@ == content_of_nodes(self.children@),
        decreases self,
    {
        let mut res = String::new();
        let mut i: usize = 0;
        while i < self.children.len()
            invariant
                i <= self.children.len(),
                res@ == content_of_nodes(self.children@.take(i as int)),
            decreases self.children.len() - i,
        {
            let ghost before = res@;
            match &self.children[i] {
                Xml::ElementNode(elem) => {
                    let inner = elem.content_str();
                    res.append(inner.as_str());
                },
                Xml::CharacterNode(data) => {
                    res.append(data.as_str());
                },
                Xml::CDATANode(data) => {
                    res.append(data.as_str());
                },
                _ => {},
            }
            assert(self.children@.take(i + 1).drop_last() =~= self.children@.take(i as int));
            assert(res@ =~= before + content_of_node(self.children@[i as int]));
            i = i + 1;
        }
        assert(self.children@.take(self.children.len() as int) =~= self.children@);
        res
    }
}

} // verus!
