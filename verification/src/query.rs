//! Selectors and the query engine.
//!
//! A [`Selector`] is a tag/id/class constraint triple, each field empty
//! meaning unconstrained. `query` returns the first matching element in a
//! depth-first, pre-order walk; `query_all` collects every matching element,
//! listing the matches inside an element before the element itself.

use vstd::prelude::*;

use crate::{
    attrs_get, attrs_lookup, attrs_view, chars_string, copy_attrs, copy_nodes,
    lemma_node_view_element, node_view, nodes_view, spec_trim_text, str_chars, trim_chars,
};
use crate::{Element, Node, SpecElement, SpecNode};

verus! {

/// Mathematical model of a selector: three constraint texts.
#[verifier::ext_equal]
pub struct SpecSelector {
    pub class: Seq<char>,
    pub id: Seq<char>,
    pub tag: Seq<char>,
}

/// Used in `query()` and `query_all()` methods.
#[derive(Debug, PartialEq)]
pub struct Selector {
    pub class: String,
    pub id: String,
    pub tag: String,
}

impl View for Selector {
    type V = SpecSelector;

    open spec fn view(&self) -> SpecSelector {
        SpecSelector { class: self.class@, id: self.id@, tag: self.tag@ }
    }
}

/// The field of the selector text under accumulation.
#[derive(Clone, Copy, PartialEq, Eq, Structural)]
pub enum SelectorPos {
    Class,
    Id,
    Tag,
}

/// `sel` with the buffered text written into the active field.
pub open spec fn spec_selector_flush(sel: SpecSelector, pos: SelectorPos, buf: Seq<char>) -> SpecSelector {
    match pos {
        SelectorPos::Class => SpecSelector { class: buf, ..sel },
        SelectorPos::Id => SpecSelector { id: buf, ..sel },
        SelectorPos::Tag => SpecSelector { tag: buf, ..sel },
    }
}

/// One left-to-right scan of the selector text from index `k`: `#` flushes
/// the buffer and activates the id field, `.` the class field, any other
/// character accumulates; the end of the text flushes the buffer.
pub open spec fn spec_selector_scan(
    s: Seq<char>,
    k: int,
    pos: SelectorPos,
    buf: Seq<char>,
    sel: SpecSelector,
) -> SpecSelector
    decreases s.len() - k,
{
    if !(0 <= k < s.len()) {
        spec_selector_flush(sel, pos, buf)
    } else if s[k] == '#' {
        spec_selector_scan(s, k + 1, SelectorPos::Id, Seq::empty(), spec_selector_flush(sel, pos, buf))
    } else if s[k] == '.' {
        spec_selector_scan(
            s,
            k + 1,
            SelectorPos::Class,
            Seq::empty(),
            spec_selector_flush(sel, pos, buf),
        )
    } else {
        spec_selector_scan(s, k + 1, pos, buf.push(s[k]), sel)
    }
}

/// The selector that the text denotes: its trimmed characters scanned with
/// the tag field initially active and all fields initially empty.
pub open spec fn spec_selector_from(s: Seq<char>) -> SpecSelector {
    spec_selector_scan(
        spec_trim_text(s),
        0,
        SelectorPos::Tag,
        Seq::empty(),
        SpecSelector { class: Seq::empty(), id: Seq::empty(), tag: Seq::empty() },
    )
}

/// Whether the element satisfies the selector: each non-empty constraint
/// must equal the element's name, `id` attribute or `class` attribute.
pub open spec fn spec_matches(sel: SpecSelector, e: SpecElement) -> bool {
    &&& (sel.tag.len() == 0 || e.name == sel.tag)
    &&& (sel.class.len() == 0 || attrs_lookup(e.attrs, ("class")@) == Some(sel.class))
    &&& (sel.id.len() == 0 || attrs_lookup(e.attrs, ("id")@) == Some(sel.id))
}

impl Selector {
    /// The `selector` only supports type selector, ID selector and class
    /// selector, combined as one tag/id/class constraint.
    ///
    /// For example, `div#app`, `span` would be ok, but `.container > div`,
    /// `#app *` would get unexpected results.
    pub fn from(selector: &str) -> (r: Self)
        ensures
            r@ == spec_selector_from(selector@),
    {
        let cs = str_chars(selector);
        let t = trim_chars(&cs);
        let ghost tv = t@;
        let mut pos = SelectorPos::Tag;
        let mut buf: Vec<char> = Vec::new();
        let mut sel = Selector { class: String::new(), id: String::new(), tag: String::new() };
        let mut k: usize = 0;
        while k < t.len()
            invariant
                0 <= k <= t.len(),
                tv == t@,
                (spec_selector_scan(tv, k as int, pos, buf@, sel@) == spec_selector_scan(
                    tv,
                    0,
                    SelectorPos::Tag,
                    Seq::empty(),
                    SpecSelector { class: Seq::empty(), id: Seq::empty(), tag: Seq::empty() },
                )),
            decreases t.len() - k,
        {
            let c = t[k];
            if c == '#' || c == '.' {
                let text = chars_string(&buf, 0, buf.len());
                proof {
                    assert(text@ =~= buf@);
                }
                match pos {
                    SelectorPos::Class => {
                        sel.class = text;
                    },
                    SelectorPos::Id => {
                        sel.id = text;
                    },
                    SelectorPos::Tag => {
                        sel.tag = text;
                    },
                }
                buf = Vec::new();
                pos = if c == '#' {
                    SelectorPos::Id
                } else {
                    SelectorPos::Class
                };
            } else {
                buf.push(c);
            }
            k = k + 1;
        }
        let text = chars_string(&buf, 0, buf.len());
        proof {
            assert(text@ =~= buf@);
        }
        match pos {
            SelectorPos::Class => {
                sel.class = text;
            },
            SelectorPos::Id => {
                sel.id = text;
            },
            SelectorPos::Tag => {
                sel.tag = text;
            },
        }
        sel
    }

    /// Check if the `element` matches the `selector`.
    pub fn matches(&self, element: &Element) -> (r: bool)
        ensures
            r == spec_matches(self@, element@),
    {
        let mut ok = true;
        if !self.tag.as_str().is_empty() && !(element.name == self.tag) {
            ok = false;
        }
        if !self.class.as_str().is_empty() {
            match attrs_get(&element.attrs, &String::from_str("class")) {
                Some(class) => {
                    if !(self.class == class) {
                        ok = false;
                    }
                },
                None => {
                    ok = false;
                },
            }
        }
        if !self.id.as_str().is_empty() {
            match attrs_get(&element.attrs, &String::from_str("id")) {
                Some(id) => {
                    if !(self.id == id) {
                        ok = false;
                    }
                },
                None => {
                    ok = false;
                },
            }
        }
        ok
    }
}

/// The first match of the selector in the tree rooted at this node model:
/// the node itself when it is a matching element, else the first match among
/// its children; nothing for a non-element node.
pub open spec fn spec_query_node(n: SpecNode, sel: SpecSelector) -> Option<SpecElement>
    decreases n, 0int,
{
    match n {
        SpecNode::Element { name, attrs, children } => {
            let e = SpecElement { name, attrs, children };
            if spec_matches(sel, e) {
                Some(e)
            } else {
                spec_query_nodes(children, sel, 0)
            }
        },
        _ => None,
    }
}

/// The first match of the selector among the trees from index `k` on, in
/// document order, depth before breadth.
pub open spec fn spec_query_nodes(ns: Seq<SpecNode>, sel: SpecSelector, k: int) -> Option<
    SpecElement,
>
    decreases ns, ns.len() - k,
{
    if !(0 <= k < ns.len()) {
        None
    } else {
        match spec_query_node(ns[k], sel) {
            Some(e) => Some(e),
            None => spec_query_nodes(ns, sel, k + 1),
        }
    }
}

/// Every match of the selector in the tree rooted at this node model, the
/// matches among the children before the node itself.
pub open spec fn spec_query_all_node(n: SpecNode, sel: SpecSelector) -> Seq<SpecElement>
    decreases n, 0int,
{
    match n {
        SpecNode::Element { name, attrs, children } => {
            let e = SpecElement { name, attrs, children };
            spec_query_all_nodes(children, sel, 0) + if spec_matches(sel, e) {
                seq![e]
            } else {
                Seq::empty()
            }
        },
        _ => Seq::empty(),
    }
}

/// Every match of the selector among the trees from index `k` on: for each
/// tree the matches among its descendants, then the root itself when it
/// matches.
pub open spec fn spec_query_all_nodes(ns: Seq<SpecNode>, sel: SpecSelector, k: int) -> Seq<
    SpecElement,
>
    decreases ns, ns.len() - k,
{
    if !(0 <= k < ns.len()) {
        Seq::empty()
    } else {
        spec_query_all_node(ns[k], sel) + spec_query_all_nodes(ns, sel, k + 1)
    }
}

/// The models of a sequence of elements.
pub open spec fn elems_view(es: Seq<Element>) -> Seq<SpecElement> {
    es.map_values(|e: Element| e@)
}

/// Copies the element parts of an element node.
fn elem_parts(name: &String, attrs: &Vec<(String, String)>, children: &Vec<Node>) -> (r: Element)
    ensures
        (r@ == SpecElement {
            name: name@,
            attrs: attrs_view(attrs@),
            children: nodes_view(children@),
        }),
{
    Element { name: name.clone(), attrs: copy_attrs(attrs), children: copy_nodes(children) }
}

/// The first match of the selector in the forest, in a depth-first,
/// pre-order walk.
fn query_nodes(ns: &Vec<Node>, selector: &Selector) -> (r: Option<Element>)
    ensures
        (match spec_query_nodes(nodes_view(ns@), selector@, 0) {
            Some(e) => r matches Some(x) && x@ == e,
            None => r is None,
        }),
    decreases ns,
{
    let ghost nv = nodes_view(ns@);
    let mut i: usize = 0;
    while i < ns.len()
        invariant
            0 <= i <= ns.len(),
            nv == nodes_view(ns@),
            nv.len() == ns@.len(),
            spec_query_nodes(nv, selector@, 0) == spec_query_nodes(nv, selector@, i as int),
        decreases ns.len() - i,
    {
        match &ns[i] {
            Node::Element { name, attrs, children } => {
                proof {
                    lemma_node_view_element(*name, *attrs, *children);
                    assert(ns@[i as int] == Node::Element {
                        name: *name,
                        attrs: *attrs,
                        children: *children,
                    });
                    assert(nv[i as int] == SpecNode::Element {
                        name: name@,
                        attrs: attrs_view(attrs@),
                        children: nodes_view(children@),
                    });
                }
                let element = elem_parts(name, attrs, children);
                if selector.matches(&element) {
                    proof {
                        assert(spec_matches(selector@, element@));
                        assert(spec_query_node(nv[i as int], selector@) == Some(element@));
                        assert(spec_query_nodes(nv, selector@, i as int) == Some(element@));
                    }
                    return Some(element);
                } else {
                    match query_nodes(children, selector) {
                        Some(elem) => {
                            return Some(elem);
                        },
                        None => {},
                    }
                }
            },
            _ => {},
        }
        i = i + 1;
    }
    None
}

/// Appends every match of the selector in the forest, descendants of a tree
/// before its root.
fn query_all_nodes(ns: &Vec<Node>, selector: &Selector, out: &mut Vec<Element>)
    ensures
        (elems_view(final(out)@) == elems_view(old(out)@) + spec_query_all_nodes(
            nodes_view(ns@),
            selector@,
            0,
        )),
    decreases ns,
{
    let ghost start = elems_view(out@);
    let ghost nv = nodes_view(ns@);
    let mut i: usize = 0;
    while i < ns.len()
        invariant
            0 <= i <= ns.len(),
            nv == nodes_view(ns@),
            nv.len() == ns@.len(),
            (elems_view(out@) + spec_query_all_nodes(nv, selector@, i as int) == start
                + spec_query_all_nodes(nv, selector@, 0)),
        decreases ns.len() - i,
    {
        match &ns[i] {
            Node::Element { name, attrs, children } => {
                proof {
                    lemma_node_view_element(*name, *attrs, *children);
                    assert(nv[i as int] == SpecNode::Element {
                        name: name@,
                        attrs: attrs_view(attrs@),
                        children: nodes_view(children@),
                    });
                }
                let ghost arm_start = elems_view(out@);
                query_all_nodes(children, selector, out);
                let element = elem_parts(name, attrs, children);
                if selector.matches(&element) {
                    let ghost before = elems_view(out@);
                    out.push(element);
                    proof {
                        assert(elems_view(out@) =~= before.push(out@.last()@));
                    }
                }
                proof {
                    assert(elems_view(out@) =~= arm_start + spec_query_all_node(
                        nv[i as int],
                        selector@,
                    ));
                }
            },
            _ => {
                proof {
                    assert(spec_query_all_node(nv[i as int], selector@)
                        == Seq::<SpecElement>::empty());
                }
            },
        }
        proof {
            assert(elems_view(out@) + spec_query_all_nodes(nv, selector@, i + 1) =~= start
                + spec_query_all_nodes(nv, selector@, 0));
        }
        i = i + 1;
    }
}

/// Implement `query()`, `query_all()` methods for `Vec<Node>` and `Element`.
pub trait Queryable {
    /// The forest of node models that the queries search.
    spec fn query_model(&self) -> Seq<SpecNode>;

    /// Query the node in `self` for the given selector: the first matching
    /// element of a depth-first, pre-order walk.
    fn query(&self, selector: &Selector) -> (r: Option<Element>)
        ensures
            (match spec_query_nodes(self.query_model(), selector@, 0) {
                Some(e) => r matches Some(x) && x@ == e,
                None => r is None,
            }),
    ;

    /// Query all the nodes in `self` for the given selector: every matching
    /// element, the matches inside an element before the element itself.
    fn query_all(&self, selector: &Selector) -> (r: Vec<Element>)
        ensures
            elems_view(r@) == spec_query_all_nodes(self.query_model(), selector@, 0),
    ;
}

impl Queryable for Vec<Node> {
    open spec fn query_model(&self) -> Seq<SpecNode> {
        nodes_view(self@)
    }

    fn query(&self, selector: &Selector) -> (r: Option<Element>) {
        query_nodes(self, selector)
    }

    fn query_all(&self, selector: &Selector) -> (r: Vec<Element>) {
        let mut out: Vec<Element> = Vec::new();
        query_all_nodes(self, selector, &mut out);
        proof {
            assert(elems_view(out@) =~= spec_query_all_nodes(nodes_view(self@), selector@, 0));
        }
        out
    }
}

impl Queryable for Element {
    open spec fn query_model(&self) -> Seq<SpecNode> {
        nodes_view(self.children@)
    }

    fn query(&self, selector: &Selector) -> (r: Option<Element>) {
        query_nodes(&self.children, selector)
    }

    fn query_all(&self, selector: &Selector) -> (r: Vec<Element>) {
        let mut out: Vec<Element> = Vec::new();
        query_all_nodes(&self.children, selector, &mut out);
        proof {
            assert(elems_view(out@) =~= spec_query_all_nodes(
                nodes_view(self.children@),
                selector@,
                0,
            ));
        }
        out
    }
}

} // verus!
