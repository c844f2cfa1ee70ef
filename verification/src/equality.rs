//! Equality of nodes, elements and start tags: attributes and namespace
//! prefixes compare as maps, so the order in which their pairs are held does
//! not matter.
use vstd::prelude::*;
use vstd::std_specs::cmp::PartialEqSpecImpl;
use crate::assoc::{find, find_last, lemma_find_at, lemma_find_has_key, lemma_find_last_has_key};
use crate::display::lookup_prefix;
use crate::element::{attr_entries, attr_position, opt_string_eq, opt_view, prefix_entries, Element, Xml};
use crate::event::StartTag;

verus! {

// ---------------------------------------------------------------------------
// Specification
// ---------------------------------------------------------------------------

/// Two attribute lists read the same value (or none) for every key.
pub open spec fn same_attributes(
    a: Seq<((Seq<char>, Option<Seq<char>>), Seq<char>)>,
    b: Seq<((Seq<char>, Option<Seq<char>>), Seq<char>)>,
) -> bool {
    forall|k: (Seq<char>, Option<Seq<char>>)| #[trigger] find(a, k) == find(b, k)
}

/// Two prefix lists bind every namespace to the same prefix (or to none).
pub open spec fn same_prefixes(a: Seq<(Seq<char>, Seq<char>)>, b: Seq<(Seq<char>, Seq<char>)>) -> bool {
    forall|k: Seq<char>| #[trigger] find_last(a, k) == find_last(b, k)
}

/// What `==` means for elements: the same name and namespaces, the same
/// prefix bindings and attributes as maps, and equal children in order.
pub open spec fn element_eq(a: Element, b: Element) -> bool
    decreases a,
{
    &&& a.name@ == b.name@
    &&& opt_view(a.ns) == opt_view(b.ns)
    &&& opt_view(a.default_ns) == opt_view(b.default_ns)
    &&& same_prefixes(prefix_entries(a.prefixes@), prefix_entries(b.prefixes@))
    &&& same_attributes(attr_entries(a.attributes@), attr_entries(b.attributes@))
    &&& nodes_eq(a.children@, b.children@)
}

/// Two node lists are equal node by node in the sense of `node_eq`.
pub open spec fn nodes_eq(s: Seq<Xml>, t: Seq<Xml>) -> bool
    decreases s,
{
    &&& s.len() == t.len()
    &&& s.len() > 0 ==> nodes_eq(s.drop_last(), t.drop_last()) && node_eq(s.last(), t.last())
}

/// What `==` means for nodes: the same kind, with equal elements or equal text.
pub open spec fn node_eq(x: Xml, y: Xml) -> bool
    decreases x,
{
    match x {
        Xml::ElementNode(a) => match y {
            Xml::ElementNode(b) => element_eq(a, b),
            _ => false,
        },
        Xml::CharacterNode(a) => match y {
            Xml::CharacterNode(b) => a@ == b@,
            _ => false,
        },
        Xml::CDATANode(a) => match y {
            Xml::CDATANode(b) => a@ == b@,
            _ => false,
        },
        Xml::CommentNode(a) => match y {
            Xml::CommentNode(b) => a@ == b@,
            _ => false,
        },
        Xml::PINode(a) => match y {
            Xml::PINode(b) => a@ == b@,
            _ => false,
        },
    }
}

/// What `==` means for start tags: the same name, namespace and prefix, and
/// the same attributes as a map.
pub open spec fn start_tag_eq(a: StartTag, b: StartTag) -> bool {
    &&& a.name@ == b.name@
    &&& opt_view(a.ns) == opt_view(b.ns)
    &&& opt_view(a.prefix) == opt_view(b.prefix)
    &&& same_attributes(attr_entries(a.attributes@), attr_entries(b.attributes@))
}

pub(crate) proof fn lemma_nodes_eq_at(s: Seq<Xml>, t: Seq<Xml>, i: int)
    requires
        nodes_eq(s, t),
        0 <= i < s.len(),
    ensures
        node_eq(s[i], t[i]),
    decreases s.len(),
{
    if i < s.len() - 1 {
        lemma_nodes_eq_at(s.drop_last(), t.drop_last(), i);
    }
}

// ---------------------------------------------------------------------------
// Executable code
// ---------------------------------------------------------------------------

/// Every key held in `a` reads the same value in `b` as in `a`.
fn attributes_covered(
    a: &Vec<((String, Option<String>), String)>,
    b: &Vec<((String, Option<String>), String)>,
) -> (r: bool)
    ensures
        r == (forall|i: int|
            0 <= i < a@.len() ==> find(attr_entries(a@), #[trigger] attr_entries(a@)[i].0) == find(
                attr_entries(b@),
                attr_entries(a@)[i].0,
            )),
{
    let ghost ea = attr_entries(a@);
    let ghost eb = attr_entries(b@);
    let mut i: usize = 0;
    while i < a.len()
        invariant
            i <= a@.len(),
            ea == attr_entries(a@),
            eb == attr_entries(b@),
            forall|j: int| 0 <= j < i ==> find(ea, #[trigger] ea[j].0) == find(eb, ea[j].0),
        decreases a.len() - i,
    {
        let name = &a[i].0.0;
        let ns = &a[i].0.1;
        let ghost key = ea[i as int].0;
        assert(key == (name@, opt_view(*ns)));
        let in_a = attr_position(a, name, ns);
        let in_b = attr_position(b, name, ns);
        let same = match (in_a, in_b) {
            (Some(p), Some(q)) => {
                proof {
                    lemma_find_at(ea, key, p as int);
                    lemma_find_at(eb, key, q as int);
                }
                a[p].1 == b[q].1
            },
            (Some(p), None) => {
                proof {
                    lemma_find_at(ea, key, p as int);
                    crate::assoc::lemma_find_absent(eb, key);
                }
                false
            },
            (None, _) => {
                assert(ea[i as int].0 == key);
                false
            },
        };
        if !same {
            return false;
        }
        i = i + 1;
    }
    true
}

/// The attribute lists read the same value for every key.
fn attributes_equal(
    a: &Vec<((String, Option<String>), String)>,
    b: &Vec<((String, Option<String>), String)>,
) -> (r: bool)
    ensures
        r == same_attributes(attr_entries(a@), attr_entries(b@)),
{
    let ghost ea = attr_entries(a@);
    let ghost eb = attr_entries(b@);
    let r = attributes_covered(a, b) && attributes_covered(b, a);
    proof {
        if r {
            assert forall|k: (Seq<char>, Option<Seq<char>>)| #[trigger] find(ea, k) == find(eb, k) by {
                if find(ea, k) is Some {
                    lemma_find_has_key(ea, k);
                    let i = choose|i: int| 0 <= i < ea.len() && ea[i].0 == k;
                    assert(find(ea, ea[i].0) == find(eb, ea[i].0));
                } else if find(eb, k) is Some {
                    lemma_find_has_key(eb, k);
                    let i = choose|i: int| 0 <= i < eb.len() && eb[i].0 == k;
                    assert(find(eb, eb[i].0) == find(ea, eb[i].0));
                }
            }
        } else if same_attributes(ea, eb) {
            assert forall|i: int| 0 <= i < a@.len() implies find(ea, #[trigger] ea[i].0) == find(
                eb,
                ea[i].0,
            ) by {}
            assert forall|i: int| 0 <= i < b@.len() implies find(eb, #[trigger] eb[i].0) == find(
                ea,
                eb[i].0,
            ) by {}
        }
    }
    r
}

/// Every namespace bound in `a` is bound to the same prefix in `b` as in `a`.
fn prefixes_covered(a: &Vec<(String, String)>, b: &Vec<(String, String)>) -> (r: bool)
    ensures
        r == (forall|i: int|
            0 <= i < a@.len() ==> find_last(prefix_entries(a@), #[trigger] prefix_entries(a@)[i].0)
                == find_last(prefix_entries(b@), prefix_entries(a@)[i].0)),
{
    let ghost ea = prefix_entries(a@);
    let ghost eb = prefix_entries(b@);
    let mut i: usize = 0;
    while i < a.len()
        invariant
            i <= a@.len(),
            ea == prefix_entries(a@),
            eb == prefix_entries(b@),
            forall|j: int| 0 <= j < i ==> find_last(ea, #[trigger] ea[j].0) == find_last(eb, ea[j].0),
        decreases a.len() - i,
    {
        let ns = &a[i].0;
        assert(ea[i as int].0 == ns@);
        let same = match (lookup_prefix(a, ns), lookup_prefix(b, ns)) {
            (Some(p), Some(q)) => *p == *q,
            (None, None) => true,
            _ => false,
        };
        if !same {
            return false;
        }
        i = i + 1;
    }
    true
}

/// The prefix lists bind every namespace alike.
fn prefixes_equal(a: &Vec<(String, String)>, b: &Vec<(String, String)>) -> (r: bool)
    ensures
        r == same_prefixes(prefix_entries(a@), prefix_entries(b@)),
{
    let ghost ea = prefix_entries(a@);
    let ghost eb = prefix_entries(b@);
    let r = prefixes_covered(a, b) && prefixes_covered(b, a);
    proof {
        if r {
            assert forall|k: Seq<char>| #[trigger] find_last(ea, k) == find_last(eb, k) by {
                if find_last(ea, k) is Some {
                    lemma_find_last_has_key(ea, k);
                    let i = choose|i: int| 0 <= i < ea.len() && ea[i].0 == k;
                    assert(find_last(ea, ea[i].0) == find_last(eb, ea[i].0));
                } else if find_last(eb, k) is Some {
                    lemma_find_last_has_key(eb, k);
                    let i = choose|i: int| 0 <= i < eb.len() && eb[i].0 == k;
                    assert(find_last(eb, eb[i].0) == find_last(ea, eb[i].0));
                }
            }
        } else if same_prefixes(ea, eb) {
            assert forall|i: int| 0 <= i < a@.len() implies find_last(ea, #[trigger] ea[i].0)
                == find_last(eb, ea[i].0) by {}
            assert forall|i: int| 0 <= i < b@.len() implies find_last(eb, #[trigger] eb[i].0)
                == find_last(ea, eb[i].0) by {}
        }
    }
    r
}

fn node_equal(x: &Xml, y: &Xml) -> (r: bool)
    ensures
        r == node_eq(*x, *y),
    decreases x,
{
    match (x, y) {
        (Xml::ElementNode(a), Xml::ElementNode(b)) => element_equal(a, b),
        (Xml::CharacterNode(a), Xml::CharacterNode(b)) => *a == *b,
        (Xml::CDATANode(a), Xml::CDATANode(b)) => *a == *b,
        (Xml::CommentNode(a), Xml::CommentNode(b)) => *a == *b,
        (Xml::PINode(a), Xml::PINode(b)) => *a == *b,
        _ => false,
    }
}

fn element_equal(a: &Element, b: &Element) -> (r: bool)
    ensures
        r == element_eq(*a, *b),
    decreases a,
{
    if !(a.name == b.name && opt_string_eq(&a.ns, &b.ns) && opt_string_eq(&a.default_ns, &b.default_ns)
        && prefixes_equal(&a.prefixes, &b.prefixes) && attributes_equal(&a.attributes, &b.attributes)) {
        return false;
    }
    if a.children.len() != b.children.len() {
        return false;
    }
    let mut i: usize = 0;
    proof {
        assert(a.children@.take(0) =~= Seq::<Xml>::empty());
        assert(b.children@.take(0) =~= Seq::<Xml>::empty());
    }
    while i < a.children.len()
        invariant
            i <= a.children@.len(),
            a.children@.len() == b.children@.len(),
            nodes_eq(a.children@.take(i as int), b.children@.take(i as int)),
        decreases a.children.len() - i,
    {
        let ghost sa = a.children@.take(i + 1);
        let ghost sb = b.children@.take(i + 1);
        assert(sa.drop_last() =~= a.children@.take(i as int));
        assert(sb.drop_last() =~= b.children@.take(i as int));
        if !node_equal(&a.children[i], &b.children[i]) {
            proof {
                if nodes_eq(a.children@, b.children@) {
                    lemma_nodes_eq_at(a.children@, b.children@, i as int);
                }
            }
            return false;
        }
        i = i + 1;
    }
    assert(a.children@.take(a.children@.len() as int) =~= a.children@);
    assert(b.children@.take(b.children@.len() as int) =~= b.children@);
    true
}

impl PartialEq for Element {
    fn eq(&self, other: &Self) -> (r: bool) {
        element_equal(self, other)
    }
}

impl PartialEqSpecImpl for Element {
    open spec fn obeys_eq_spec() -> bool {
        true
    }

    open spec fn eq_spec(&self, other: &Self) -> bool {
        element_eq(*self, *other)
    }
}

impl PartialEq for Xml {
    fn eq(&self, other: &Self) -> (r: bool) {
        node_equal(self, other)
    }
}

impl PartialEqSpecImpl for Xml {
    open spec fn obeys_eq_spec() -> bool {
        true
    }

    open spec fn eq_spec(&self, other: &Self) -> bool {
        node_eq(*self, *other)
    }
}

impl PartialEq for StartTag {
    fn eq(&self, other: &Self) -> (r: bool) {
        self.name == other.name && opt_string_eq(&self.ns, &other.ns) && opt_string_eq(
            &self.prefix,
            &other.prefix,
        ) && attributes_equal(&self.attributes, &other.attributes)
    }
}

impl PartialEqSpecImpl for StartTag {
    open spec fn obeys_eq_spec() -> bool {
        true
    }

    open spec fn eq_spec(&self, other: &Self) -> bool {
        start_tag_eq(*self, *other)
    }
}

impl Eq for StartTag {
}

} // verus!
