//! Serialization of a document tree back to markup.
//!
//! An element opens as `<name k="v" ...>`; a void element (see
//! [`crate::data`]) stops there and its children are discarded, every other
//! element continues with its serialized children and `</name>`. Text is
//! written verbatim, a comment as `<!--text-->`, and a doctype as the fixed
//! text `<!DOCTYPE html>`. Attribute values escape `"` and `'` with a
//! backslash.

use vstd::prelude::*;

use crate::data::{is_void, is_void_tag};
use crate::{attrs_view, lemma_node_view_element, node_view, nodes_view};
use crate::{Element, Node, SpecElement, SpecNode};

verus! {

/// One escaped character: a quote gains a leading backslash.
pub open spec fn spec_escape_char(c: char) -> Seq<char> {
    if c == '"' {
        seq!['\\', '"']
    } else if c == '\'' {
        seq!['\\', '\'']
    } else {
        seq![c]
    }
}

/// The escaped form of `s[k..]`.
pub open spec fn spec_escape_from(s: Seq<char>, k: int) -> Seq<char>
    decreases s.len() - k,
{
    if !(0 <= k < s.len()) {
        Seq::empty()
    } else {
        spec_escape_char(s[k]) + spec_escape_from(s, k + 1)
    }
}

/// The escaped form of an attribute value.
pub open spec fn spec_escape(s: Seq<char>) -> Seq<char> {
    spec_escape_from(s, 0)
}

/// The serialized attribute pairs from index `k` on, each preceded by one
/// space: ` k="v"`.
pub open spec fn spec_attrs_html(attrs: Seq<(Seq<char>, Seq<char>)>, k: int) -> Seq<char>
    decreases attrs.len() - k,
{
    if !(0 <= k < attrs.len()) {
        Seq::empty()
    } else {
        (" ")@ + attrs[k].0 + ("=\"")@ + spec_escape(attrs[k].1) + ("\"")@ + spec_attrs_html(
            attrs,
            k + 1,
        )
    }
}

/// The serialized form of one node model.
pub open spec fn spec_html_node(n: SpecNode) -> Seq<char>
    decreases n, 0int,
{
    match n {
        SpecNode::Element { name, attrs, children } => {
            let open_tag = ("<")@ + name + spec_attrs_html(attrs, 0) + (">")@;
            if is_void_tag(name) {
                open_tag
            } else {
                open_tag + spec_html_nodes(children, 0) + ("</")@ + name + (">")@
            }
        },
        SpecNode::Text(t) => t,
        SpecNode::Comment(t) => ("<!--")@ + t + ("-->")@,
        SpecNode::Doctype => ("<!DOCTYPE html>")@,
    }
}

/// The serialized forms of the node models from index `k` on, concatenated.
pub open spec fn spec_html_nodes(ns: Seq<SpecNode>, k: int) -> Seq<char>
    decreases ns, ns.len() - k,
{
    if !(0 <= k < ns.len()) {
        Seq::empty()
    } else {
        spec_html_node(ns[k]) + spec_html_nodes(ns, k + 1)
    }
}

/// The serialized form of an element model: the element node's form.
pub open spec fn spec_html_elem(e: SpecElement) -> Seq<char> {
    spec_html_node(SpecNode::Element { name: e.name, attrs: e.attrs, children: e.children })
}

/// Appends the escaped form of `v` to `out`.
fn write_escaped(out: &mut String, v: &String)
    ensures
        final(out)@ == old(out)@ + spec_escape(v@),
{
    let ghost start = out@;
    let n = v.as_str().unicode_len();
    let mut i: usize = 0;
    while i < n
        invariant
            0 <= i <= n,
            n == v@.len(),
            out@ + spec_escape_from(v@, i as int) == start + spec_escape(v@),
        decreases n - i,
    {
        let ghost before = out@;
        let c = v.as_str().get_char(i);
        if c == '"' || c == '\'' {
            push_char_pair(out, '\\', c);
        } else {
            crate::push_char(out, c);
        }
        proof {
            assert(out@ =~= before + spec_escape_char(v@[i as int]));
            assert(out@ + spec_escape_from(v@, i + 1) =~= start + spec_escape(v@));
        }
        i = i + 1;
    }
    proof {
        assert(out@ =~= start + spec_escape(v@));
    }
}

/// Appends two characters to `out`.
fn push_char_pair(out: &mut String, a: char, b: char)
    ensures
        final(out)@ == old(out)@.push(a).push(b),
{
    crate::push_char(out, a);
    crate::push_char(out, b);
}

/// Appends the serialized attribute pairs, each preceded by one space.
fn write_attrs(out: &mut String, attrs: &Vec<(String, String)>)
    ensures
        final(out)@ == old(out)@ + spec_attrs_html(attrs_view(attrs@), 0),
{
    let ghost start = out@;
    let ghost av = attrs_view(attrs@);
    let mut i: usize = 0;
    while i < attrs.len()
        invariant
            0 <= i <= attrs.len(),
            av == attrs_view(attrs@),
            av.len() == attrs@.len(),
            out@ + spec_attrs_html(av, i as int) == start + spec_attrs_html(av, 0),
        decreases attrs.len() - i,
    {
        proof {
            assert(av[i as int] == (attrs@[i as int].0@, attrs@[i as int].1@));
        }
        out.append(" ");
        out.append(attrs[i].0.as_str());
        out.append("=\"");
        write_escaped(out, &attrs[i].1);
        out.append("\"");
        proof {
            assert(out@ + spec_attrs_html(av, i + 1) =~= start + spec_attrs_html(av, 0));
        }
        i = i + 1;
    }
}

/// Appends the serialized form of one node.
fn write_node(out: &mut String, n: &Node)
    ensures
        final(out)@ == old(out)@ + spec_html_node(n@),
    decreases n,
{
    match n {
        Node::Element { name, attrs, children } => {
            proof {
                lemma_node_view_element(*name, *attrs, *children);
            }
            out.append("<");
            out.append(name.as_str());
            write_attrs(out, attrs);
            out.append(">");
            if !is_void(name) {
                write_nodes(out, children);
                out.append("</");
                out.append(name.as_str());
                out.append(">");
            }
            proof {
                assert(out@ =~= old(out)@ + spec_html_node(n@));
            }
        },
        Node::Text(t) => {
            out.append(t.as_str());
        },
        Node::Comment(t) => {
            out.append("<!--");
            out.append(t.as_str());
            out.append("-->");
            proof {
                assert(out@ =~= old(out)@ + spec_html_node(n@));
            }
        },
        Node::Doctype => {
            out.append("<!DOCTYPE html>");
        },
    }
}

/// Appends the serialized forms of all nodes in order.
fn write_nodes(out: &mut String, ns: &Vec<Node>)
    ensures
        final(out)@ == old(out)@ + spec_html_nodes(nodes_view(ns@), 0),
    decreases ns,
{
    let ghost start = out@;
    let ghost nv = nodes_view(ns@);
    let mut i: usize = 0;
    while i < ns.len()
        invariant
            0 <= i <= ns.len(),
            nv == nodes_view(ns@),
            nv.len() == ns@.len(),
            out@ + spec_html_nodes(nv, i as int) == start + spec_html_nodes(nv, 0),
        decreases ns.len() - i,
    {
        write_node(out, &ns[i]);
        proof {
            assert(out@ + spec_html_nodes(nv, i + 1) =~= start + spec_html_nodes(nv, 0));
        }
        i = i + 1;
    }
}

/// Serialization back to markup, for elements, nodes and node sequences.
pub trait Htmlifiable {
    /// The serialized form that `html` returns.
    spec fn html_model(&self) -> Seq<char>;

    /// Convert the object to an HTML string.
    fn html(&self) -> (r: String)
        ensures
            r@ == self.html_model(),
    ;
}

impl Htmlifiable for Element {
    open spec fn html_model(&self) -> Seq<char> {
        spec_html_elem(self@)
    }

    fn html(&self) -> (r: String) {
        let mut out = String::new();
        out.append("<");
        out.append(self.name.as_str());
        write_attrs(&mut out, &self.attrs);
        out.append(">");
        if !is_void(&self.name) {
            write_nodes(&mut out, &self.children);
            out.append("</");
            out.append(self.name.as_str());
            out.append(">");
        }
        proof {
            assert(out@ =~= spec_html_elem(self@));
        }
        out
    }
}

impl Htmlifiable for Node {
    open spec fn html_model(&self) -> Seq<char> {
        spec_html_node(self@)
    }

    fn html(&self) -> (r: String) {
        let mut out = String::new();
        write_node(&mut out, self);
        proof {
            assert(out@ =~= spec_html_node(self@));
        }
        out
    }
}

impl Htmlifiable for Vec<Node> {
    open spec fn html_model(&self) -> Seq<char> {
        spec_html_nodes(nodes_view(self@), 0)
    }

    fn html(&self) -> (r: String) {
        let mut out = String::new();
        write_nodes(&mut out, self);
        proof {
            assert(out@ =~= spec_html_nodes(nodes_view(self@), 0));
        }
        out
    }
}

} // verus!
