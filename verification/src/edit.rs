//! Tree editing: trimming and inserting nodes under matching elements.
//!
//! `insert_to` walks into every element's children first and then tests the
//! element itself against the selector; each match gains an independent copy
//! of the new node as its last child.

use vstd::prelude::*;

use crate::query::{spec_matches, Selector, SpecSelector};
use crate::trim::{spec_trim_nodes, Trimable};
use crate::{attrs_view, copy_attrs, copy_node, lemma_node_view_element, node_view, nodes_view};
use crate::spec_elem_of;
use crate::{Element, Node, SpecElement, SpecNode};

verus! {

/// One node model after inserting `x` under every matching element: an
/// element first has `x` inserted throughout its children, then gains `x`
/// as its last child when it matches the selector itself; other node kinds
/// are unchanged.
pub open spec fn spec_insert_node(n: SpecNode, sel: SpecSelector, x: SpecNode) -> SpecNode
    decreases n, 0int,
{
    match n {
        SpecNode::Element { name, attrs, children } => SpecNode::Element {
            name,
            attrs,
            children: spec_insert_nodes(children, sel, x, 0) + if spec_matches(
                sel,
                SpecElement { name, attrs, children },
            ) {
                seq![x]
            } else {
                Seq::empty()
            },
        },
        other => other,
    }
}

/// The node models from index `k` on, each after insertion.
pub open spec fn spec_insert_nodes(ns: Seq<SpecNode>, sel: SpecSelector, x: SpecNode, k: int) -> Seq<
    SpecNode,
>
    decreases ns, ns.len() - k,
{
    if !(0 <= k < ns.len()) {
        Seq::empty()
    } else {
        seq![spec_insert_node(ns[k], sel, x)] + spec_insert_nodes(ns, sel, x, k + 1)
    }
}

/// The forest with `x` inserted under every element matching the selector.
fn insert_nodes(ns: &Vec<Node>, selector: &Selector, x: &Node) -> (r: Vec<Node>)
    ensures
        nodes_view(r@) == spec_insert_nodes(nodes_view(ns@), selector@, x@, 0),
    decreases ns,
{
    let ghost nv = nodes_view(ns@);
    let mut r: Vec<Node> = Vec::new();
    let mut i: usize = 0;
    while i < ns.len()
        invariant
            0 <= i <= ns.len(),
            nv == nodes_view(ns@),
            nv.len() == ns@.len(),
            nodes_view(r@) + spec_insert_nodes(nv, selector@, x@, i as int) == spec_insert_nodes(
                nv,
                selector@,
                x@,
                0,
            ),
        decreases ns.len() - i,
    {
        let ghost before = nodes_view(r@);
        match &ns[i] {
            Node::Element { name, attrs, children } => {
                proof {
                    lemma_node_view_element(*name, *attrs, *children);
                }
                let mut cs = insert_nodes(children, selector, x);
                let probe = Element {
                    name: name.clone(),
                    attrs: copy_attrs(attrs),
                    children: Vec::new(),
                };
                if selector.matches(&probe) {
                    let ghost cs_before = nodes_view(cs@);
                    cs.push(copy_node(x));
                    proof {
                        crate::lemma_nodes_view_push(cs@.drop_last(), cs@.last());
                        assert(cs@.drop_last().push(cs@.last()) =~= cs@);
                        assert(nodes_view(cs@) =~= cs_before.push(x@));
                    }
                }
                let node = Node::Element {
                    name: name.clone(),
                    attrs: copy_attrs(attrs),
                    children: cs,
                };
                proof {
                    if let Node::Element { name: n2, attrs: a2, children: c2 } = &node {
                        lemma_node_view_element(*n2, *a2, *c2);
                    }
                    assert(spec_matches(selector@, probe@) == spec_matches(
                        selector@,
                        SpecElement {
                            name: name@,
                            attrs: attrs_view(attrs@),
                            children: nodes_view(children@),
                        },
                    ));
                    let lhs = node_view(node);
                    let rhs = spec_insert_node(nv[i as int], selector@, x@);
                    assert(lhs->children =~= rhs->children);
                    assert(lhs =~= rhs);
                }
                r.push(node);
            },
            Node::Text(t) => {
                r.push(Node::Text(t.clone()));
            },
            Node::Comment(t) => {
                r.push(Node::Comment(t.clone()));
            },
            Node::Doctype => {
                r.push(Node::Doctype);
            },
        }
        proof {
            crate::lemma_nodes_view_push(r@.drop_last(), r@.last());
            assert(r@.drop_last().push(r@.last()) =~= r@);
            assert(nodes_view(r@) =~= before.push(spec_insert_node(nv[i as int], selector@, x@)));
            assert(nodes_view(r@) + spec_insert_nodes(nv, selector@, x@, i + 1) =~=
                spec_insert_nodes(nv, selector@, x@, 0));
        }
        i = i + 1;
    }
    r
}

/// How many elements in the tree rooted at this node model match the
/// selector, the node itself included.
pub open spec fn spec_count_node(n: SpecNode, sel: SpecSelector) -> nat
    decreases n, 0int,
{
    match n {
        SpecNode::Element { name, attrs, children } => spec_count_nodes(children, sel, 0) + if
        spec_matches(sel, SpecElement { name, attrs, children }) {
            1nat
        } else {
            0nat
        },
        _ => 0nat,
    }
}

/// How many elements in the trees from index `k` on match the selector.
pub open spec fn spec_count_nodes(ns: Seq<SpecNode>, sel: SpecSelector, k: int) -> nat
    decreases ns, ns.len() - k,
{
    if !(0 <= k < ns.len()) {
        0nat
    } else {
        spec_count_node(ns[k], sel) + spec_count_nodes(ns, sel, k + 1)
    }
}

/// A tree without matches is left whole by insertion.
pub proof fn lemma_insert_untouched_node(n: SpecNode, sel: SpecSelector, x: SpecNode)
    requires
        spec_count_node(n, sel) == 0,
    ensures
        spec_insert_node(n, sel, x) == n,
    decreases n, 0int,
{
    match n {
        SpecNode::Element { name, attrs, children } => {
            lemma_insert_untouched_nodes(children, sel, x, 0);
            assert(children.skip(0) =~= children);
            assert(spec_insert_nodes(children, sel, x, 0) + Seq::<SpecNode>::empty() =~= children);
            assert(spec_insert_node(n, sel, x) =~= n);
        },
        _ => {},
    }
}

/// A forest without matches from index `k` on is left whole by insertion.
pub proof fn lemma_insert_untouched_nodes(ns: Seq<SpecNode>, sel: SpecSelector, x: SpecNode, k: int)
    requires
        0 <= k <= ns.len(),
        spec_count_nodes(ns, sel, k) == 0,
    ensures
        spec_insert_nodes(ns, sel, x, k) == ns.skip(k),
    decreases ns, ns.len() - k,
{
    if k < ns.len() {
        lemma_insert_untouched_node(ns[k], sel, x);
        lemma_insert_untouched_nodes(ns, sel, x, k + 1);
        assert(spec_insert_nodes(ns, sel, x, k) =~= ns.skip(k));
    } else {
        assert(spec_insert_nodes(ns, sel, x, k) =~= ns.skip(k));
    }
}

/// A forest counts at least the matches of any one of its trees.
proof fn lemma_count_ge_node(ns: Seq<SpecNode>, sel: SpecSelector, k: int, j: int)
    requires
        0 <= k <= j < ns.len(),
    ensures
        spec_count_nodes(ns, sel, k) >= spec_count_node(ns[j], sel),
    decreases j - k,
{
    if k < j {
        lemma_count_ge_node(ns, sel, k + 1, j);
    }
}

/// A forest counts at least the matches of any two distinct trees.
proof fn lemma_count_ge_pair(ns: Seq<SpecNode>, sel: SpecSelector, k: int, a: int, b: int)
    requires
        0 <= k <= a < b < ns.len(),
    ensures
        (spec_count_nodes(ns, sel, k) >= spec_count_node(ns[a], sel) + spec_count_node(
            ns[b],
            sel,
        )),
    decreases a - k,
{
    if k < a {
        lemma_count_ge_pair(ns, sel, k + 1, a, b);
    } else {
        lemma_count_ge_node(ns, sel, a + 1, b);
    }
}

/// With exactly one match in the whole forest, and that match inside the
/// tree at index `i`, no other tree holds any match.
proof fn lemma_count_others_zero(ns: Seq<SpecNode>, sel: SpecSelector, i: int)
    requires
        0 <= i < ns.len(),
        spec_count_nodes(ns, sel, 0) == 1,
        spec_count_node(ns[i], sel) == 1,
    ensures
        forall|j: int| 0 <= j < ns.len() && j != i ==> spec_count_node(ns[j], sel) == 0,
{
    assert forall|j: int| 0 <= j < ns.len() && j != i implies spec_count_node(ns[j], sel)
        == 0 by {
        if j < i {
            lemma_count_ge_pair(ns, sel, 0, j, i);
        } else {
            lemma_count_ge_pair(ns, sel, 0, i, j);
        }
    }
}

/// When the selector matches exactly one element of the whole forest, and
/// that element is the tree root at index `i`, insertion appends `x` as its
/// last child and leaves everything else, siblings included, unchanged.
pub proof fn lemma_insert_unique_match(
    ns: Seq<SpecNode>,
    sel: SpecSelector,
    x: SpecNode,
    i: int,
)
    requires
        0 <= i < ns.len(),
        spec_count_nodes(ns, sel, 0) == 1,
        ns[i] matches SpecNode::Element { name, attrs, children },
        (spec_matches(sel, SpecElement {
            name: ns[i]->name,
            attrs: ns[i]->attrs,
            children: ns[i]->children,
        })),
    ensures
        (spec_insert_nodes(ns, sel, x, 0) == ns.update(
            i,
            SpecNode::Element {
                name: ns[i]->name,
                attrs: ns[i]->attrs,
                children: ns[i]->children + seq![x],
            },
        )),
{
    lemma_count_ge_node(ns, sel, 0, i);
    assert(spec_count_node(ns[i], sel) == 1);
    assert(spec_count_nodes(ns[i]->children, sel, 0) == 0);
    lemma_count_others_zero(ns, sel, i);
    lemma_insert_unique_match_from(ns, sel, x, i, 0);
    assert(spec_insert_nodes(ns, sel, x, 0) =~= ns.update(
        i,
        SpecNode::Element {
            name: ns[i]->name,
            attrs: ns[i]->attrs,
            children: ns[i]->children + seq![x],
        },
    ));
}

/// The step form of [`lemma_insert_unique_match`], for the trees from index
/// `k` on.
proof fn lemma_insert_unique_match_from(
    ns: Seq<SpecNode>,
    sel: SpecSelector,
    x: SpecNode,
    i: int,
    k: int,
)
    requires
        0 <= k <= ns.len(),
        0 <= i < ns.len(),
        ns[i] matches SpecNode::Element { name, attrs, children },
        (spec_matches(sel, SpecElement {
            name: ns[i]->name,
            attrs: ns[i]->attrs,
            children: ns[i]->children,
        })),
        spec_count_nodes(ns[i]->children, sel, 0) == 0,
        forall|j: int| 0 <= j < ns.len() && j != i ==> spec_count_node(ns[j], sel) == 0,
    ensures
        (spec_insert_nodes(ns, sel, x, k) == ns.update(
            i,
            SpecNode::Element {
                name: ns[i]->name,
                attrs: ns[i]->attrs,
                children: ns[i]->children + seq![x],
            },
        ).skip(k)),
    decreases ns.len() - k,
{
    let target = SpecNode::Element {
        name: ns[i]->name,
        attrs: ns[i]->attrs,
        children: ns[i]->children + seq![x],
    };
    if k < ns.len() {
        lemma_insert_unique_match_from(ns, sel, x, i, k + 1);
        if k == i {
            lemma_insert_untouched_nodes(ns[i]->children, sel, x, 0);
            assert(ns[i]->children.skip(0) =~= ns[i]->children);
            assert(spec_insert_node(ns[k], sel, x) =~= target);
        } else {
            lemma_insert_untouched_node(ns[k], sel, x);
        }
        assert(spec_insert_nodes(ns, sel, x, k) =~= ns.update(i, target).skip(k));
    } else {
        assert(spec_insert_nodes(ns, sel, x, k) =~= ns.update(i, target).skip(k));
    }
}

/// When the selector matches exactly one element anywhere in the forest,
/// and that match lies within the tree at index `i`, insertion rebuilds
/// only that tree: every sibling tree is unchanged. Applied again to the
/// children of each non-matching element on the way down (see
/// [`lemma_insert_unique_step`]), this localizes the edit to the single
/// matching element at any depth.
pub proof fn lemma_insert_unique_tree(ns: Seq<SpecNode>, sel: SpecSelector, x: SpecNode, i: int)
    requires
        0 <= i < ns.len(),
        spec_count_nodes(ns, sel, 0) == 1,
        spec_count_node(ns[i], sel) == 1,
    ensures
        spec_insert_nodes(ns, sel, x, 0) == ns.update(i, spec_insert_node(ns[i], sel, x)),
{
    lemma_count_others_zero(ns, sel, i);
    lemma_insert_unique_tree_from(ns, sel, x, i, 0);
    assert(ns.update(i, spec_insert_node(ns[i], sel, x)).skip(0) =~= ns.update(
        i,
        spec_insert_node(ns[i], sel, x),
    ));
}

/// The step form of [`lemma_insert_unique_tree`], for the trees from index
/// `k` on.
proof fn lemma_insert_unique_tree_from(
    ns: Seq<SpecNode>,
    sel: SpecSelector,
    x: SpecNode,
    i: int,
    k: int,
)
    requires
        0 <= k <= ns.len(),
        0 <= i < ns.len(),
        forall|j: int| 0 <= j < ns.len() && j != i ==> spec_count_node(ns[j], sel) == 0,
    ensures
        (spec_insert_nodes(ns, sel, x, k) == ns.update(i, spec_insert_node(ns[i], sel, x)).skip(
            k,
        )),
    decreases ns.len() - k,
{
    let target = spec_insert_node(ns[i], sel, x);
    if k < ns.len() {
        lemma_insert_unique_tree_from(ns, sel, x, i, k + 1);
        if k != i {
            lemma_insert_untouched_node(ns[k], sel, x);
        }
        assert(spec_insert_nodes(ns, sel, x, k) =~= ns.update(i, target).skip(k));
    } else {
        assert(spec_insert_nodes(ns, sel, x, k) =~= ns.update(i, target).skip(k));
    }
}

/// One descent step of the unique-match property, for an element holding
/// exactly one match in its tree: either the element matches itself — then
/// none of its descendants do, and insertion appends `x` as its last child
/// — or the one match lies deeper, and insertion rebuilds only the
/// children, which again hold exactly one match.
pub proof fn lemma_insert_unique_step(n: SpecNode, sel: SpecSelector, x: SpecNode)
    requires
        n is Element,
        spec_count_node(n, sel) == 1,
    ensures
        (spec_matches(sel, spec_elem_of(n)) ==> spec_count_nodes(n->children, sel, 0) == 0
            && spec_insert_node(n, sel, x) == SpecNode::Element {
            name: n->name,
            attrs: n->attrs,
            children: n->children + seq![x],
        }),
        (!spec_matches(sel, spec_elem_of(n)) ==> spec_count_nodes(n->children, sel, 0) == 1
            && spec_insert_node(n, sel, x) == SpecNode::Element {
            name: n->name,
            attrs: n->attrs,
            children: spec_insert_nodes(n->children, sel, x, 0),
        }),
{
    if spec_matches(sel, spec_elem_of(n)) {
        lemma_insert_untouched_nodes(n->children, sel, x, 0);
        assert(n->children.skip(0) =~= n->children);
        assert(spec_insert_node(n, sel, x) =~= SpecNode::Element {
            name: n->name,
            attrs: n->attrs,
            children: n->children + seq![x],
        });
    } else {
        assert(spec_insert_node(n, sel, x) =~= SpecNode::Element {
            name: n->name,
            attrs: n->attrs,
            children: spec_insert_nodes(n->children, sel, x, 0),
        });
    }
}

/// Implement `trim()` and `insert_to()` methods for `Vec<Node>` and
/// `Element`.
pub trait Editable: Sized {
    /// What trimming leaves of `self` in `r`.
    spec fn edit_trim_post(&self, r: &Self) -> bool;

    /// What `self` becomes when `node` is inserted under every element that
    /// matches `sel`.
    spec fn insert_post(&self, sel: SpecSelector, x: SpecNode, r: &Self) -> bool;

    /// Remove all comment nodes and whitespace-only text nodes from `self`.
    fn trim(self) -> (r: Self)
        ensures
            self.edit_trim_post(&r),
    ;

    /// Insert `node` as the last child of every element that matches the
    /// `selector`, its own children edited first.
    fn insert_to(&mut self, selector: &Selector, node: Node)
        ensures
            old(self).insert_post(selector@, node@, final(self)),
    ;
}

impl Editable for Vec<Node> {
    open spec fn edit_trim_post(&self, r: &Self) -> bool {
        nodes_view(r@) == spec_trim_nodes(nodes_view(self@), 0)
    }

    open spec fn insert_post(&self, sel: SpecSelector, x: SpecNode, r: &Self) -> bool {
        nodes_view(r@) == spec_insert_nodes(nodes_view(self@), sel, x, 0)
    }

    fn trim(self) -> (r: Self) {
        Trimable::trim(self)
    }

    fn insert_to(&mut self, selector: &Selector, node: Node)
        ensures
            old(self).insert_post(selector@, node@, final(self)),
    {
        let r = insert_nodes(self, selector, &node);
        *self = r;
        proof {
            assert(nodes_view(self@) == spec_insert_nodes(
                nodes_view(old(self)@),
                selector@,
                node@,
                0,
            ));
        }
    }
}

impl Editable for Element {
    open spec fn edit_trim_post(&self, r: &Self) -> bool {
        &&& r@.name == self@.name
        &&& r@.attrs == self@.attrs
        &&& r@.children == spec_trim_nodes(self@.children, 0)
    }

    open spec fn insert_post(&self, sel: SpecSelector, x: SpecNode, r: &Self) -> bool {
        &&& r@.name == self@.name
        &&& r@.attrs == self@.attrs
        &&& r@.children == spec_insert_nodes(self@.children, sel, x, 0) + if spec_matches(
            sel,
            self@,
        ) {
            seq![x]
        } else {
            Seq::<SpecNode>::empty()
        }
    }

    fn trim(self) -> (r: Self) {
        Trimable::trim(self)
    }

    fn insert_to(&mut self, selector: &Selector, node: Node) {
        let mut cs = insert_nodes(&self.children, selector, &node);
        let probe = Element {
            name: self.name.clone(),
            attrs: copy_attrs(&self.attrs),
            children: Vec::new(),
        };
        proof {
            assert(spec_matches(selector@, probe@) == spec_matches(selector@, old(self)@));
        }
        if selector.matches(&probe) {
            let ghost cs_before = nodes_view(cs@);
            let ghost xv = node@;
            cs.push(node);
            proof {
                crate::lemma_nodes_view_push(cs@.drop_last(), cs@.last());
                assert(cs@.drop_last().push(cs@.last()) =~= cs@);
                assert(nodes_view(cs@) =~= cs_before.push(xv));
                assert(nodes_view(cs@) =~= cs_before + seq![xv]);
            }
        } else {
            proof {
                assert(nodes_view(cs@) =~= nodes_view(cs@) + Seq::<SpecNode>::empty());
            }
        }
        self.children = cs;
        proof {
            assert(self@.children == nodes_view(self.children@));
            assert(self@.name == old(self)@.name);
            assert(self@.attrs == old(self)@.attrs);
        }
    }
}

} // verus!
