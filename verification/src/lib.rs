//! An HTML document model: parsing, querying, editing and serialization.
//!
//! A document is a forest of [`Node`] values. [`parse`] turns markup into
//! such a forest, the [`Queryable`] trait finds elements by a [`Selector`],
//! the [`Htmlifiable`] trait writes a forest back out as markup, and the
//! [`Trimable`] and [`Editable`] traits transform trees.
//!
//! Every structure has a mathematical model ([`SpecNode`], [`SpecElement`]):
//! names and texts are modelled as character sequences and attribute maps as
//! ordered key/value pair sequences. The contracts of the executable
//! functions are stated over these models.

use vstd::prelude::*;

pub mod data;
pub mod edit;
pub mod html;
pub mod parse;
pub mod query;
pub mod trim;

pub use edit::Editable;
pub use html::Htmlifiable;
pub use parse::parse;
pub use query::{Queryable, Selector};
pub use trim::Trimable;

verus! {

/// Error kinds of the document model. The parsing errors abort a whole
/// `parse` call; `NotAnElement` is local to a node-to-element projection.
#[derive(Debug, Clone, Copy, PartialEq, Eq, Structural)]
pub enum HtmlError {
    /// Tag text of no recognized shape, or with an empty name.
    MalformedTag,
    /// A closing tag with no matching open tag at its nesting level.
    UnexpectedEndTag,
    /// An attribute text whose key count differs from its value count.
    AttributeParseError,
    /// The input ended in the middle of a tag.
    UnterminatedTag,
    /// The input ended in the middle of a comment.
    UnterminatedComment,
    /// A non-element node was projected to an element.
    NotAnElement,
}

/// Mathematical model of a document node: names and texts are character
/// sequences, attributes an ordered sequence of key/value pairs, children an
/// ordered sequence of models.
#[verifier::ext_equal]
pub enum SpecNode {
    Element { name: Seq<char>, attrs: Seq<(Seq<char>, Seq<char>)>, children: Seq<SpecNode> },
    Text(Seq<char>),
    Comment(Seq<char>),
    Doctype,
}

/// Mathematical model of a standalone element.
#[verifier::ext_equal]
pub struct SpecElement {
    pub name: Seq<char>,
    pub attrs: Seq<(Seq<char>, Seq<char>)>,
    pub children: Seq<SpecNode>,
}

/// Basic node of the document tree.
#[derive(Debug, PartialEq)]
pub enum Node {
    Element { name: String, attrs: Vec<(String, String)>, children: Vec<Node> },
    Text(String),
    Comment(String),
    Doctype,
}

/// HTML element: a tag name, an attribute map with unique keys in insertion
/// order, and the child nodes in document order.
#[derive(Debug, PartialEq)]
pub struct Element {
    pub name: String,
    pub attrs: Vec<(String, String)>,
    pub children: Vec<Node>,
}

/// The model of an executable attribute map.
pub open spec fn attrs_view(attrs: Seq<(String, String)>) -> Seq<(Seq<char>, Seq<char>)> {
    attrs.map_values(|p: (String, String)| (p.0@, p.1@))
}

/// The model of an executable node.
pub open spec fn node_view(n: Node) -> SpecNode
    decreases n,
{
    match n {
        Node::Element { name, attrs, children } => SpecNode::Element {
            name: name@,
            attrs: attrs_view(attrs@),
            children: Seq::new(
                children@.len(),
                |i: int|
                    if 0 <= i < children@.len() {
                        node_view(children@[i])
                    } else {
                        SpecNode::Doctype
                    },
            ),
        },
        Node::Text(t) => SpecNode::Text(t@),
        Node::Comment(t) => SpecNode::Comment(t@),
        Node::Doctype => SpecNode::Doctype,
    }
}

/// The model of an executable node sequence.
pub open spec fn nodes_view(ns: Seq<Node>) -> Seq<SpecNode> {
    Seq::new(
        ns.len(),
        |i: int| if 0 <= i < ns.len() {
            node_view(ns[i])
        } else {
            SpecNode::Doctype
        },
    )
}

impl View for Node {
    type V = SpecNode;

    open spec fn view(&self) -> SpecNode {
        node_view(*self)
    }
}

/// The model of an element node is the element model of its parts.
pub proof fn lemma_node_view_element(name: String, attrs: Vec<(String, String)>, children: Vec<
    Node,
>)
    ensures
        (node_view(Node::Element { name, attrs, children }) == SpecNode::Element {
            name: name@,
            attrs: attrs_view(attrs@),
            children: nodes_view(children@),
        }),
{
    let a = node_view(Node::Element { name, attrs, children });
    let b = SpecNode::Element {
        name: name@,
        attrs: attrs_view(attrs@),
        children: nodes_view(children@),
    };
    assert(a->children =~= b->children);
    assert(a =~= b);
}

/// Appending a node appends its model.
pub proof fn lemma_nodes_view_push(ns: Seq<Node>, n: Node)
    ensures
        nodes_view(ns.push(n)) == nodes_view(ns).push(node_view(n)),
{
    assert(nodes_view(ns.push(n)) =~= nodes_view(ns).push(node_view(n)));
}

impl View for Element {
    type V = SpecElement;

    open spec fn view(&self) -> SpecElement {
        SpecElement {
            name: self.name@,
            attrs: attrs_view(self.attrs@),
            children: nodes_view(self.children@),
        }
    }
}

/// The element model carried by an `Element` node model; an empty element
/// for the other variants.
pub open spec fn spec_elem_of(n: SpecNode) -> SpecElement {
    match n {
        SpecNode::Element { name, attrs, children } => SpecElement { name, attrs, children },
        _ => SpecElement {
            name: Seq::empty(),
            attrs: Seq::empty(),
            children: Seq::empty(),
        },
    }
}

/// The value of `key` in an attribute pair sequence, scanning from index `k`:
/// the first pair with that key decides.
pub open spec fn attrs_lookup_from(
    attrs: Seq<(Seq<char>, Seq<char>)>,
    key: Seq<char>,
    k: int,
) -> Option<Seq<char>>
    decreases attrs.len() - k,
{
    if !(0 <= k < attrs.len()) {
        None
    } else if attrs[k].0 == key {
        Some(attrs[k].1)
    } else {
        attrs_lookup_from(attrs, key, k + 1)
    }
}

/// The value of `key` in an attribute pair sequence.
pub open spec fn attrs_lookup(attrs: Seq<(Seq<char>, Seq<char>)>, key: Seq<char>) -> Option<
    Seq<char>,
> {
    attrs_lookup_from(attrs, key, 0)
}

/// The value of `key` among the attribute pairs, cloned; `None` when no pair
/// has that key.
pub fn attrs_get(attrs: &Vec<(String, String)>, key: &String) -> (r: Option<String>)
    ensures
        match attrs_lookup(attrs_view(attrs@), key@) {
            Some(v) => r matches Some(s) && s@ == v,
            None => r is None,
        },
{
    let ghost av = attrs_view(attrs@);
    let mut i: usize = 0;
    while i < attrs.len()
        invariant
            0 <= i <= attrs.len(),
            av == attrs_view(attrs@),
            av.len() == attrs@.len(),
            attrs_lookup_from(av, key@, 0) == attrs_lookup_from(av, key@, i as int),
        decreases attrs.len() - i,
    {
        proof {
            assert(av[i as int] == (attrs@[i as int].0@, attrs@[i as int].1@));
        }
        if attrs[i].0 == *key {
            return Some(attrs[i].1.clone());
        }
        i = i + 1;
    }
    None
}

/// Copies an attribute map.
pub fn copy_attrs(attrs: &Vec<(String, String)>) -> (r: Vec<(String, String)>)
    ensures
        attrs_view(r@) == attrs_view(attrs@),
{
    let mut r: Vec<(String, String)> = Vec::new();
    let mut i: usize = 0;
    while i < attrs.len()
        invariant
            0 <= i <= attrs.len(),
            r@.len() == i,
            attrs_view(r@) == attrs_view(attrs@).take(i as int),
        decreases attrs.len() - i,
    {
        r.push((attrs[i].0.clone(), attrs[i].1.clone()));
        proof {
            let j = i as int;
            assert(r@[j] =~= attrs@[j]);
            assert(attrs_view(r@) =~= attrs_view(attrs@).take(j + 1));
        }
        i = i + 1;
    }
    proof {
        assert(attrs_view(attrs@).take(attrs@.len() as int) =~= attrs_view(attrs@));
    }
    r
}

/// Copies a node tree.
pub fn copy_node(n: &Node) -> (r: Node)
    ensures
        r@ == n@,
    decreases n,
{
    match n {
        Node::Element { name, attrs, children } => {
            let name2 = name.clone();
            let attrs2 = copy_attrs(attrs);
            let cs = copy_nodes(children);
            let r = Node::Element { name: name2, attrs: attrs2, children: cs };
            proof {
                if let Node::Element { name: n2, attrs: a2, children: c2 } = &r {
                    lemma_node_view_element(*n2, *a2, *c2);
                }
                lemma_node_view_element(*name, *attrs, *children);
                assert(r@ =~= n@);
            }
            r
        },
        Node::Text(t) => Node::Text(t.clone()),
        Node::Comment(t) => Node::Comment(t.clone()),
        Node::Doctype => Node::Doctype,
    }
}

/// Copies a forest of nodes.
pub fn copy_nodes(ns: &Vec<Node>) -> (r: Vec<Node>)
    ensures
        nodes_view(r@) == nodes_view(ns@),
    decreases ns,
{
    let mut r: Vec<Node> = Vec::new();
    let mut i: usize = 0;
    while i < ns.len()
        invariant
            0 <= i <= ns.len(),
            r@.len() == i,
            nodes_view(r@) == nodes_view(ns@).take(i as int),
        decreases ns.len() - i,
    {
        let ghost old_r = r@;
        let c = copy_node(&ns[i]);
        r.push(c);
        proof {
            lemma_nodes_view_push(old_r, r@[i as int]);
            assert(nodes_view(r@) =~= nodes_view(ns@).take(i + 1));
        }
        i = i + 1;
    }
    proof {
        assert(nodes_view(ns@).take(ns@.len() as int) =~= nodes_view(ns@));
    }
    r
}

impl Node {
    /// Check if it is an element node.
    pub fn is_element(&self) -> (r: bool)
        ensures
            r == (self@ is Element),
    {
        match self {
            Node::Element { .. } => true,
            _ => false,
        }
    }

    /// Project a borrowed node to an element; fails with
    /// [`HtmlError::NotAnElement`] on every other node kind.
    pub fn try_element(&self) -> (r: Result<Element, HtmlError>)
        ensures
            self@ is Element ==> (r matches Ok(e) && e@ == spec_elem_of(self@)),
            !(self@ is Element) ==> (r matches Err(x) && x == HtmlError::NotAnElement),
    {
        match self {
            Node::Element { name, attrs, children } => {
                let e = Element {
                    name: name.clone(),
                    attrs: copy_attrs(attrs),
                    children: copy_nodes(children),
                };
                Ok(e)
            },
            _ => Err(HtmlError::NotAnElement),
        }
    }

    /// Try to convert the node into an element; fails with
    /// [`HtmlError::NotAnElement`] on every other node kind.
    pub fn try_into_element(self) -> (r: Result<Element, HtmlError>)
        ensures
            self@ is Element ==> (r matches Ok(e) && e@ == spec_elem_of(self@)),
            !(self@ is Element) ==> (r matches Err(x) && x == HtmlError::NotAnElement),
    {
        match self {
            Node::Element { name, attrs, children } => Ok(
                Element { name, attrs, children },
            ),
            _ => Err(HtmlError::NotAnElement),
        }
    }
}

/// Whether `c` is a whitespace character: the Unicode `White_Space` set,
/// the same characters that `str::trim` removes.
pub open spec fn is_space(c: char) -> bool {
    ||| c == '\u{0009}'
    ||| c == '\u{000A}'
    ||| c == '\u{000B}'
    ||| c == '\u{000C}'
    ||| c == '\u{000D}'
    ||| c == ' '
    ||| c == '\u{0085}'
    ||| c == '\u{00A0}'
    ||| c == '\u{1680}'
    ||| c == '\u{2000}'
    ||| c == '\u{2001}'
    ||| c == '\u{2002}'
    ||| c == '\u{2003}'
    ||| c == '\u{2004}'
    ||| c == '\u{2005}'
    ||| c == '\u{2006}'
    ||| c == '\u{2007}'
    ||| c == '\u{2008}'
    ||| c == '\u{2009}'
    ||| c == '\u{200A}'
    ||| c == '\u{2028}'
    ||| c == '\u{2029}'
    ||| c == '\u{202F}'
    ||| c == '\u{205F}'
    ||| c == '\u{3000}'
}

/// Whether `c` is a whitespace character (the Unicode `White_Space` set).
pub fn is_space_char(c: char) -> (r: bool)
    ensures
        r == is_space(c),
{
    c == '\u{0009}' || c == '\u{000A}' || c == '\u{000B}' || c == '\u{000C}' || c
        == '\u{000D}' || c == ' ' || c == '\u{0085}' || c == '\u{00A0}' || c == '\u{1680}' || c
        == '\u{2000}' || c == '\u{2001}' || c == '\u{2002}' || c == '\u{2003}' || c
        == '\u{2004}' || c == '\u{2005}' || c == '\u{2006}' || c == '\u{2007}' || c
        == '\u{2008}' || c == '\u{2009}' || c == '\u{200A}' || c == '\u{2028}' || c
        == '\u{2029}' || c == '\u{202F}' || c == '\u{205F}' || c == '\u{3000}'
}

/// Whether `s` holds nothing but whitespace.
pub open spec fn is_blank(s: Seq<char>) -> bool {
    forall|i: int| 0 <= i < s.len() ==> is_space(s[i])
}

/// Whether the string holds nothing but whitespace.
pub fn is_blank_text(t: &String) -> (r: bool)
    ensures
        r == is_blank(t@),
{
    let n = t.as_str().unicode_len();
    let mut i: usize = 0;
    while i < n
        invariant
            0 <= i <= n,
            n == t@.len(),
            forall|j: int| 0 <= j < i ==> is_space(t@[j]),
        decreases n - i,
    {
        if !is_space_char(t.as_str().get_char(i)) {
            return false;
        }
        i = i + 1;
    }
    true
}

/// The first index at or after `k` whose character is not whitespace, or the
/// length of `s`.
pub open spec fn skip_spaces(s: Seq<char>, k: int) -> int
    decreases s.len() - k,
{
    if !(0 <= k < s.len()) {
        k
    } else if is_space(s[k]) {
        skip_spaces(s, k + 1)
    } else {
        k
    }
}

/// The end of the last whitespace-free prefix position scanning back from
/// `k`: the least index `h <= k` with only whitespace in `s[h..k]`.
pub open spec fn rscan_spaces(s: Seq<char>, k: int) -> int
    decreases k,
{
    if k <= 0 {
        0
    } else if is_space(s[k - 1]) {
        rscan_spaces(s, k - 1)
    } else {
        k
    }
}

/// `s` with leading and trailing whitespace removed.
pub open spec fn spec_trim_text(s: Seq<char>) -> Seq<char> {
    let lo = skip_spaces(s, 0);
    let hi = rscan_spaces(s, s.len() as int);
    if lo >= hi {
        Seq::empty()
    } else {
        s.subrange(lo, hi)
    }
}

/// Bounds of `skip_spaces`.
pub proof fn lemma_skip_spaces_bounds(s: Seq<char>, k: int)
    requires
        0 <= k <= s.len(),
    ensures
        k <= skip_spaces(s, k) <= s.len(),
    decreases s.len() - k,
{
    if k < s.len() && is_space(s[k]) {
        lemma_skip_spaces_bounds(s, k + 1);
    }
}

/// The trimmed characters of `v`.
pub(crate) fn trim_chars(v: &Vec<char>) -> (r: Vec<char>)
    ensures
        r@ == spec_trim_text(v@),
{
    let n = v.len();
    let mut lo: usize = 0;
    while lo < n && is_space_char(v[lo])
        invariant
            0 <= lo <= n,
            n == v@.len(),
            skip_spaces(v@, 0) == skip_spaces(v@, lo as int),
        decreases n - lo,
    {
        lo = lo + 1;
    }
    let mut hi: usize = n;
    while hi > 0 && is_space_char(v[hi - 1])
        invariant
            0 <= hi <= n,
            n == v@.len(),
            rscan_spaces(v@, n as int) == rscan_spaces(v@, hi as int),
        decreases hi,
    {
        hi = hi - 1;
    }
    proof {
        assert(skip_spaces(v@, lo as int) == lo);
        assert(rscan_spaces(v@, hi as int) == hi);
    }
    if lo >= hi {
        let r: Vec<char> = Vec::new();
        r
    } else {
        let mut r: Vec<char> = Vec::new();
        let mut i: usize = lo;
        while i < hi
            invariant
                lo <= i <= hi <= v@.len(),
                r@ == v@.subrange(lo as int, i as int),
            decreases hi - i,
        {
            r.push(v[i]);
            proof {
                assert(r@ =~= v@.subrange(lo as int, i + 1));
            }
            i = i + 1;
        }
        r
    }
}

/// Relies on `String::push`: appends exactly one character.
#[verifier::external_body]
pub(crate) fn push_char(s: &mut String, c: char)
    ensures
        final(s)@ == old(s)@.push(c),
{
    s.push(c);
}

/// The characters of `s`, one vector slot each.
pub(crate) fn str_chars(s: &str) -> (v: Vec<char>)
    ensures
        v@ == s@,
{
    let n = s.unicode_len();
    let mut v: Vec<char> = Vec::new();
    let mut i: usize = 0;
    while i < n
        invariant
            0 <= i <= n,
            n == s@.len(),
            v@ == s@.take(i as int),
        decreases n - i,
    {
        v.push(s.get_char(i));
        proof {
            assert(v@ =~= s@.take(i + 1));
        }
        i = i + 1;
    }
    proof {
        assert(s@.take(s@.len() as int) =~= s@);
    }
    v
}

/// The characters `v[from..to]` as a string.
pub(crate) fn chars_string(v: &Vec<char>, from: usize, to: usize) -> (s: String)
    requires
        from <= to <= v@.len(),
    ensures
        s@ == v@.subrange(from as int, to as int),
{
    let mut s = String::new();
    let mut i: usize = from;
    while i < to
        invariant
            from <= i <= to <= v@.len(),
            s@ == v@.subrange(from as int, i as int),
        decreases to - i,
    {
        push_char(&mut s, v[i]);
        proof {
            assert(s@ =~= v@.subrange(from as int, i + 1));
        }
        i = i + 1;
    }
    s
}

impl Element {
    /// Repack the element as a node.
    pub fn into_node(self) -> (r: Node)
        ensures
            (r@ == SpecNode::Element {
                name: self@.name,
                attrs: self@.attrs,
                children: self@.children,
            }),
    {
        let r = Node::Element { name: self.name, attrs: self.attrs, children: self.children };
        proof {
            if let Node::Element { name: n2, attrs: a2, children: c2 } = &r {
                lemma_node_view_element(*n2, *a2, *c2);
            }
        }
        r
    }
}

} // verus!
