//! Tree trimming: rebuilding a tree without comments and blank text.
//!
//! Trimming drops every comment node and every text node whose content is
//! nothing but whitespace; elements are kept and trimmed recursively, and
//! doctype nodes are always kept.

use vstd::prelude::*;

use crate::{is_blank, is_blank_text, lemma_node_view_element, node_view, nodes_view};
use crate::{copy_attrs, Element, Node, SpecNode};

verus! {

/// One trimmed node model: an element keeps its name and attributes and
/// trims its children; every other node kind is unchanged.
pub open spec fn spec_trim_node(n: SpecNode) -> SpecNode
    decreases n, 0int,
{
    match n {
        SpecNode::Element { name, attrs, children } => SpecNode::Element {
            name,
            attrs,
            children: spec_trim_nodes(children, 0),
        },
        other => other,
    }
}

/// The trimmed node models from index `k` on: blank text and comments are
/// dropped, every other node is kept trimmed.
pub open spec fn spec_trim_nodes(ns: Seq<SpecNode>, k: int) -> Seq<SpecNode>
    decreases ns, ns.len() - k,
{
    if !(0 <= k < ns.len()) {
        Seq::empty()
    } else {
        let rest = spec_trim_nodes(ns, k + 1);
        match ns[k] {
            SpecNode::Text(t) => if is_blank(t) {
                rest
            } else {
                seq![SpecNode::Text(t)] + rest
            },
            SpecNode::Comment(_) => rest,
            _ => seq![spec_trim_node(ns[k])] + rest,
        }
    }
}

/// The trimmed copy of a forest.
fn trim_nodes(ns: &Vec<Node>) -> (r: Vec<Node>)
    ensures
        nodes_view(r@) == spec_trim_nodes(nodes_view(ns@), 0),
    decreases ns,
{
    let ghost nv = nodes_view(ns@);
    let mut r: Vec<Node> = Vec::new();
    let mut i: usize = 0;
    while i < ns.len()
        invariant
            0 <= i <= ns.len(),
            nv == nodes_view(ns@),
            nv.len() == ns@.len(),
            nodes_view(r@) + spec_trim_nodes(nv, i as int) == spec_trim_nodes(nv, 0),
        decreases ns.len() - i,
    {
        let ghost before = nodes_view(r@);
        match &ns[i] {
            Node::Element { name, attrs, children } => {
                proof {
                    lemma_node_view_element(*name, *attrs, *children);
                }
                let cs = trim_nodes(children);
                let node = Node::Element {
                    name: name.clone(),
                    attrs: copy_attrs(attrs),
                    children: cs,
                };
                proof {
                    if let Node::Element { name: n2, attrs: a2, children: c2 } = &node {
                        lemma_node_view_element(*n2, *a2, *c2);
                    }
                    assert(node_view(node) =~= spec_trim_node(nv[i as int]));
                }
                r.push(node);
                proof {
                    crate::lemma_nodes_view_push(r@.drop_last(), r@.last());
                    assert(r@.drop_last().push(r@.last()) =~= r@);
                    assert(nodes_view(r@) =~= before.push(spec_trim_node(nv[i as int])));
                }
            },
            Node::Text(t) => {
                if !is_blank_text(t) {
                    r.push(Node::Text(t.clone()));
                    proof {
                        crate::lemma_nodes_view_push(r@.drop_last(), r@.last());
                        assert(r@.drop_last().push(r@.last()) =~= r@);
                        assert(nodes_view(r@) =~= before.push(SpecNode::Text(t@)));
                    }
                }
            },
            Node::Comment(_) => {},
            Node::Doctype => {
                r.push(Node::Doctype);
                proof {
                    crate::lemma_nodes_view_push(r@.drop_last(), r@.last());
                    assert(r@.drop_last().push(r@.last()) =~= r@);
                    assert(nodes_view(r@) =~= before.push(SpecNode::Doctype));
                }
            },
        }
        proof {
            assert(nodes_view(r@) + spec_trim_nodes(nv, i + 1) =~= spec_trim_nodes(nv, 0));
        }
        i = i + 1;
    }
    r
}

/// Implement `trim()` method for `Vec<Node>` and `Element`.
pub trait Trimable: Sized {
    /// What trimming leaves of `self` in `r`.
    spec fn trim_post(&self, r: &Self) -> bool;

    /// Remove all comment nodes and whitespace-only text nodes from `self`.
    fn trim(self) -> (r: Self)
        ensures
            self.trim_post(&r),
    ;
}

impl Trimable for Vec<Node> {
    open spec fn trim_post(&self, r: &Self) -> bool {
        nodes_view(r@) == spec_trim_nodes(nodes_view(self@), 0)
    }

    fn trim(self) -> (r: Self) {
        trim_nodes(&self)
    }
}

impl Trimable for Element {
    open spec fn trim_post(&self, r: &Self) -> bool {
        &&& r@.name == self@.name
        &&& r@.attrs == self@.attrs
        &&& r@.children == spec_trim_nodes(self@.children, 0)
    }

    fn trim(self) -> (r: Self) {
        let cs = trim_nodes(&self.children);
        Element { name: self.name, attrs: self.attrs, children: cs }
    }
}

/// Whether the node model is droppable filler: a comment, or text that is
/// nothing but whitespace.
pub open spec fn is_filler(n: SpecNode) -> bool {
    match n {
        SpecNode::Text(t) => is_blank(t),
        SpecNode::Comment(_) => true,
        _ => false,
    }
}

/// A forest of nothing but whitespace text and comments trims to nothing.
pub proof fn lemma_trim_filler(ns: Seq<SpecNode>, k: int)
    requires
        forall|j: int| 0 <= j < ns.len() ==> is_filler(ns[j]),
    ensures
        spec_trim_nodes(ns, k) == Seq::<SpecNode>::empty(),
    decreases ns.len() - k,
{
    if 0 <= k < ns.len() {
        lemma_trim_filler(ns, k + 1);
    }
}

/// A tree of only whitespace text and comments under one wrapping element
/// trims to that element with empty children, and a doctype sibling
/// survives the trimming.
pub proof fn lemma_trim_wrapped_filler(
    name: Seq<char>,
    attrs: Seq<(Seq<char>, Seq<char>)>,
    children: Seq<SpecNode>,
)
    requires
        forall|j: int| 0 <= j < children.len() ==> is_filler(children[j]),
    ensures
        (spec_trim_nodes(
            seq![SpecNode::Element { name, attrs, children }, SpecNode::Doctype],
            0,
        ) == seq![
            SpecNode::Element { name, attrs, children: Seq::empty() },
            SpecNode::Doctype,
        ]),
{
    reveal_with_fuel(spec_trim_nodes, 3);
    lemma_trim_filler(children, 0);
    assert(spec_trim_nodes(
        seq![SpecNode::Element { name, attrs, children }, SpecNode::Doctype],
        0,
    ) =~= seq![SpecNode::Element { name, attrs, children: Seq::empty() }, SpecNode::Doctype]);
}

} // verus!
