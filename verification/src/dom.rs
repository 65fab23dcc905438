//! The document model: a tree of nodes, where an element carries a name,
//! an ordered attribute list and an ordered list of child nodes.
//!
//! Contracts speak of the mathematical image of a tree: `NodeView` and
//! `ElementView`, in which every string is a `Seq<char>` and every list a
//! `Seq`.

use vstd::prelude::*;

verus! {

/// A single unit of the document tree.
#[derive(Debug)]
pub enum Node {
    /// A doctype declaration, with its text.
    Doctype(String),
    /// A comment, with its text.
    Comment(String),
    /// A text node, with its content.
    Text(String),
    /// An element with a name, attributes and children.
    Element(Element),
}

/// A named node carrying attributes and an ordered list of child nodes;
/// the unit selectors match against.
#[derive(Debug)]
pub struct Element {
    /// Tag identifier.
    pub name: String,
    /// Ordered sequence of (key, value) pairs; duplicates permitted and
    /// insertion order preserved.
    pub attrs: Vec<(String, String)>,
    /// Ordered sequence of child nodes, exclusively owned by the element.
    pub children: Vec<Node>,
}

/// Mathematical image of a `Node`.
#[verifier::ext_equal]
pub enum NodeView {
    Doctype(Seq<char>),
    Comment(Seq<char>),
    Text(Seq<char>),
    Element(ElementView),
}

/// Mathematical image of an `Element`.
#[verifier::ext_equal]
pub struct ElementView {
    pub name: Seq<char>,
    pub attrs: Seq<(Seq<char>, Seq<char>)>,
    pub children: Seq<NodeView>,
}

/// The image of an attribute list: each string becomes its `Seq<char>`.
pub open spec fn view_attrs(attrs: Seq<(String, String)>) -> Seq<(Seq<char>, Seq<char>)> {
    Seq::new(attrs.len(), |i: int| (attrs[i].0@, attrs[i].1@))
}

/// The image of one node.
pub open spec fn view_node(n: Node) -> NodeView
    decreases n,
{
    match n {
        Node::Doctype(s) => NodeView::Doctype(s@),
        Node::Comment(s) => NodeView::Comment(s@),
        Node::Text(s) => NodeView::Text(s@),
        Node::Element(e) => NodeView::Element(view_element(e)),
    }
}

/// The image of one element.
pub open spec fn view_element(e: Element) -> ElementView
    decreases e,
{
    ElementView { name: e.name@, attrs: view_attrs(e.attrs@), children: view_nodes(e.children@) }
}

/// The image of a sequence of sibling nodes.
pub open spec fn view_nodes(s: Seq<Node>) -> Seq<NodeView>
    decreases s,
{
    if s.len() == 0 {
        Seq::empty()
    } else {
        view_nodes(s.drop_last()).push(view_node(s.last()))
    }
}

/// `view_nodes` is the pointwise image: it keeps the length and maps
/// each position through `view_node`.
pub proof fn lemma_view_nodes(s: Seq<Node>)
    ensures
        view_nodes(s).len() == s.len(),
        forall|i: int| 0 <= i < s.len() ==> view_nodes(s)[i] == view_node(s[i]),
    decreases s.len(),
{
    if s.len() > 0 {
        lemma_view_nodes(s.drop_last());
    }
}

/// Appending a node on the right appends its image on the right.
pub proof fn lemma_view_nodes_push(s: Seq<Node>, x: Node)
    ensures
        view_nodes(s.push(x)) == view_nodes(s).push(view_node(x)),
{
    assert(s.push(x).drop_last() =~= s);
}

/// The image of a concatenation is the concatenation of the images.
pub proof fn lemma_view_nodes_concat(a: Seq<Node>, b: Seq<Node>)
    ensures
        view_nodes(a + b) == view_nodes(a) + view_nodes(b),
    decreases b.len(),
{
    if b.len() == 0 {
        assert(a + b =~= a);
        assert(view_nodes(a) + view_nodes(b) =~= view_nodes(a));
    } else {
        lemma_view_nodes_concat(a, b.drop_last());
        assert((a + b).drop_last() =~= a + b.drop_last());
        assert((a + b).last() == b.last());
        assert(view_nodes(a) + view_nodes(b) =~= (view_nodes(a) + view_nodes(b.drop_last())).push(
            view_node(b.last()),
        ));
    }
}

/// Number of nodes in a subtree, the element itself included; the
/// termination measure of every traversal.
pub open spec fn size_node(n: Node) -> nat
    decreases n,
{
    match n {
        Node::Element(e) => 1 + size_nodes(e.children@),
        _ => 1,
    }
}

/// Number of nodes in a sequence of sibling trees.
pub open spec fn size_nodes(s: Seq<Node>) -> nat
    decreases s,
{
    if s.len() == 0 {
        0
    } else {
        size_nodes(s.drop_last()) + size_node(s.last())
    }
}

/// Each member's size is bounded by the sequence's size.
pub proof fn lemma_size_nodes_index(s: Seq<Node>, i: int)
    requires
        0 <= i < s.len(),
    ensures
        size_node(s[i]) <= size_nodes(s),
    decreases s.len(),
{
    if i < s.len() - 1 {
        lemma_size_nodes_index(s.drop_last(), i);
    }
}

/// Number of elements in a subtree, the root included when it is one;
/// the termination measure of the visiting traversal, whose recursion
/// walks into what the visitor returned.
pub open spec fn elems_node(n: Node) -> nat
    decreases n,
{
    match n {
        Node::Element(e) => 1 + elems_nodes(e.children@),
        _ => 0,
    }
}

/// Number of elements in a sequence of sibling trees.
pub open spec fn elems_nodes(s: Seq<Node>) -> nat
    decreases s,
{
    if s.len() == 0 {
        0
    } else {
        elems_nodes(s.drop_last()) + elems_node(s.last())
    }
}

/// Each member's element count is bounded by the sequence's.
pub proof fn lemma_elems_nodes_index(s: Seq<Node>, i: int)
    requires
        0 <= i < s.len(),
    ensures
        elems_node(s[i]) <= elems_nodes(s),
    decreases s.len(),
{
    if i < s.len() - 1 {
        lemma_elems_nodes_index(s.drop_last(), i);
    }
}

impl Node {
    /// An independently owned copy with the same image.
    pub fn deep_clone(&self) -> (r: Node)
        ensures
            view_node(r) == view_node(*self),
        decreases size_node(*self), 0nat,
    {
        match self {
            Node::Doctype(s) => Node::Doctype(s.clone()),
            Node::Comment(s) => Node::Comment(s.clone()),
            Node::Text(s) => Node::Text(s.clone()),
            Node::Element(e) => Node::Element(e.deep_clone()),
        }
    }
}

impl Element {
    /// An independently owned copy with the same image.
    pub fn deep_clone(&self) -> (r: Element)
        ensures
            view_element(r) == view_element(*self),
        decreases size_nodes(self.children@), 2nat,
    {
        Element {
            name: self.name.clone(),
            attrs: clone_attrs(&self.attrs),
            children: clone_nodes(&self.children),
        }
    }
}

/// An element-wise copy of an attribute list; the copy is equal, pair for
/// pair, to the original.
pub fn clone_attrs(a: &Vec<(String, String)>) -> (r: Vec<(String, String)>)
    ensures
        r@ == a@,
{
    let mut r: Vec<(String, String)> = Vec::new();
    let n = a.len();
    #[verifier::loop_isolation(false)]
    for i in 0..n
        invariant
            r@ =~= a@.take(i as int),
    {
        let p = &a[i];
        r.push((p.0.clone(), p.1.clone()));
        proof {
            assert(a@.take(i + 1) =~= a@.take(i as int).push(a@[i as int]));
        }
    }
    proof {
        assert(a@.take(n as int) =~= a@);
    }
    r
}

/// An independently owned copy of a sequence of sibling trees, with the
/// same image.
pub fn clone_nodes(s: &Vec<Node>) -> (r: Vec<Node>)
    ensures
        view_nodes(r@) == view_nodes(s@),
    decreases size_nodes(s@), 1nat,
{
    let mut r: Vec<Node> = Vec::new();
    let n = s.len();
    #[verifier::loop_isolation(false)]
    for i in 0..n
        invariant
            view_nodes(r@) == view_nodes(s@.take(i as int)),
        decreases n - i,
    {
        proof {
            lemma_size_nodes_index(s@, i as int);
        }
        let c = s[i].deep_clone();
        proof {
            lemma_view_nodes_push(r@, c);
            assert(s@.take(i + 1) =~= s@.take(i as int).push(s@[i as int]));
            lemma_view_nodes_push(s@.take(i as int), s@[i as int]);
        }
        r.push(c);
    }
    proof {
        assert(s@.take(n as int) =~= s@);
    }
    r
}

/// Whether two attribute lists are equal, pair for pair.
#[verifier::loop_isolation(false)]
pub fn attrs_eq(a: &Vec<(String, String)>, b: &Vec<(String, String)>) -> (r: bool)
    ensures
        r == (view_attrs(a@) == view_attrs(b@)),
{
    if a.len() != b.len() {
        proof {
            assert(view_attrs(a@).len() != view_attrs(b@).len());
        }
        return false;
    }
    let n = a.len();
    for i in 0..n
        invariant
            forall|j: int| 0 <= j < i ==> view_attrs(a@)[j] == view_attrs(b@)[j],
    {
        let x = &a[i];
        let y = &b[i];
        if !(x.0 == y.0 && x.1 == y.1) {
            proof {
                assert(view_attrs(a@)[i as int] != view_attrs(b@)[i as int]);
            }
            return false;
        }
    }
    proof {
        assert(view_attrs(a@) =~= view_attrs(b@));
    }
    true
}

impl Node {
    /// Whether two trees are equal, node for node and character for
    /// character: their images coincide.
    pub fn deep_eq(&self, other: &Node) -> (r: bool)
        ensures
            r == (view_node(*self) == view_node(*other)),
        decreases size_node(*self), 0nat,
    {
        match (self, other) {
            (Node::Doctype(a), Node::Doctype(b)) => *a == *b,
            (Node::Comment(a), Node::Comment(b)) => *a == *b,
            (Node::Text(a), Node::Text(b)) => *a == *b,
            (Node::Element(a), Node::Element(b)) => a.deep_eq(b),
            _ => false,
        }
    }
}

impl Element {
    /// Whether two elements are equal in name, attributes and children:
    /// their images coincide.
    pub fn deep_eq(&self, other: &Element) -> (r: bool)
        ensures
            r == (view_element(*self) == view_element(*other)),
        decreases size_nodes(self.children@), 2nat,
    {
        self.name == other.name && attrs_eq(&self.attrs, &other.attrs) && nodes_eq(
            &self.children,
            &other.children,
        )
    }
}

/// Whether two sequences of sibling trees are equal, node for node.
#[verifier::loop_isolation(false)]
pub fn nodes_eq(a: &Vec<Node>, b: &Vec<Node>) -> (r: bool)
    ensures
        r == (view_nodes(a@) == view_nodes(b@)),
    decreases size_nodes(a@), 1nat,
{
    proof {
        lemma_view_nodes(a@);
        lemma_view_nodes(b@);
    }
    if a.len() != b.len() {
        return false;
    }
    let n = a.len();
    for i in 0..n
        invariant
            forall|j: int| 0 <= j < i ==> view_nodes(a@)[j] == view_nodes(b@)[j],
        decreases n - i,
    {
        proof {
            lemma_size_nodes_index(a@, i as int);
            lemma_view_nodes(a@);
            lemma_view_nodes(b@);
        }
        if !a[i].deep_eq(&b[i]) {
            proof {
                assert(view_nodes(a@)[i as int] != view_nodes(b@)[i as int]);
            }
            return false;
        }
    }
    proof {
        lemma_view_nodes(a@);
        lemma_view_nodes(b@);
        assert(view_nodes(a@) =~= view_nodes(b@));
    }
    true
}

/// An independently owned copy of the trees from position `from` on, with
/// the same image.
#[verifier::loop_isolation(false)]
pub fn clone_range(s: &Vec<Node>, from: usize) -> (r: Vec<Node>)
    requires
        from <= s.len(),
    ensures
        view_nodes(r@) == view_nodes(s@).skip(from as int),
{
    proof {
        lemma_view_nodes(s@);
    }
    let mut r: Vec<Node> = Vec::new();
    let n = s.len();
    let mut j = from;
    while j < n
        invariant
            from <= j <= n,
            view_nodes(r@) == view_nodes(s@).subrange(from as int, j as int),
        decreases n - j,
    {
        let c = s[j].deep_clone();
        proof {
            lemma_view_nodes_push(r@, c);
            assert(view_nodes(s@).subrange(from as int, j + 1) =~= view_nodes(s@).subrange(
                from as int,
                j as int,
            ).push(view_nodes(s@)[j as int]));
        }
        r.push(c);
        j += 1;
    }
    proof {
        assert(view_nodes(s@).subrange(from as int, n as int) =~= view_nodes(s@).skip(from as int));
    }
    r
}

} // verus!
