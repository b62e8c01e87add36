//! XML documents as the library reads them: a flat list of nodes, in
//! document order, each knowing its parent.
use vstd::prelude::*;
use crate::text::{chars_of, string_of, str_eq, trim, trim_chars, join_seq, join_with};
use crate::regex_calls::{regex_replaced_all, regex_replace_all};
use roxmltree::{Document, NodeType};

verus! {

broadcast use vstd::string::group_string_axioms;

/// The kind of a node.
#[derive(PartialEq, Eq, Structural, Clone, Copy)]
pub enum XmlKind {
    Root,
    Element,
    Text,
    Comment,
    Instruction,
}

/// An attribute: namespace, local name, value.
pub struct XmlAttribute {
    pub namespace: Option<String>,
    pub name: String,
    pub value: String,
}

impl XmlAttribute {
    pub fn new(namespace: Option<&str>, name: &str, value: &str) -> (r: XmlAttribute)
        ensures
            attr_view(r) == (match namespace { Some(s) => Some(s@), None => None::<Seq<char>> }, name@, value@),
    {
        let namespace = match namespace {
            Some(s) => Some(string_of(&chars_of(s))),
            None => None,
        };
        XmlAttribute { namespace, name: string_of(&chars_of(name)), value: string_of(&chars_of(value)) }
    }
}

/// A node: kind, local tag name (empty for non-elements), attributes,
/// text, and the position of its parent in the list.
pub struct XmlNode {
    pub kind: XmlKind,
    pub name: String,
    pub attributes: Vec<XmlAttribute>,
    pub text: String,
    pub parent: Option<usize>,
}

pub struct NodeView {
    pub kind: XmlKind,
    pub name: Seq<char>,
    pub attributes: Seq<(Option<Seq<char>>, Seq<char>, Seq<char>)>,
    pub text: Seq<char>,
    pub parent: Option<nat>,
}

pub open spec fn opt_chars(o: Option<String>) -> Option<Seq<char>> {
    match o {
        Some(s) => Some(s@),
        None => None,
    }
}

pub open spec fn attr_view(a: XmlAttribute) -> (Option<Seq<char>>, Seq<char>, Seq<char>) {
    (opt_chars(a.namespace), a.name@, a.value@)
}

pub open spec fn node_view(n: XmlNode) -> NodeView {
    NodeView {
        kind: n.kind,
        name: n.name@,
        attributes: n.attributes@.map_values(|a: XmlAttribute| attr_view(a)),
        text: n.text@,
        parent: match n.parent {
            Some(p) => Some(p as nat),
            None => None,
        },
    }
}

pub open spec fn nodes_view(n: Seq<XmlNode>) -> Seq<NodeView> {
    n.map_values(|x: XmlNode| node_view(x))
}

/// The nodes that `roxmltree::Document::parse(text)` gives, in the order
/// of `Document::descendants` (the root first), or `None` when the text
/// is not well-formed XML.
pub uninterp spec fn xml_nodes(text: Seq<char>) -> Option<Seq<NodeView>>;

/// `roxmltree::Document::parse` followed by a walk over
/// `Document::descendants`: each node's type, local tag name, attributes
/// (namespace, local name, value), `Node::text` and the index of its
/// parent (`NodeId::get_usize`).  The result is only named.
#[verifier::external_body]
pub(crate) fn parse_xml_nodes(text: &str) -> (r: Option<Vec<XmlNode>>)
    ensures
        match r {
            Some(n) => xml_nodes(text@) == Some(nodes_view(n@)),
            None => xml_nodes(text@) is None,
        },
{
    let doc = Document::parse(text).ok()?;
    Some(doc.descendants().map(|n| XmlNode {
        kind: match n.node_type() {
            NodeType::Root => XmlKind::Root,
            NodeType::Element => XmlKind::Element,
            NodeType::Text => XmlKind::Text,
            NodeType::Comment => XmlKind::Comment,
            NodeType::PI => XmlKind::Instruction,
        },
        name: n.tag_name().name().into(),
        attributes: n.attributes().map(|a| XmlAttribute::new(a.namespace(), a.name(), a.value())).collect(),
        text: n.text().unwrap_or("").into(),
        parent: n.parent().map(|p| p.id().get_usize()),
    }).collect())
}

/// A list of nodes that forms a tree: the first node is the root, and
/// every other node has a parent that comes before it.
pub open spec fn tree_shaped(nodes: Seq<NodeView>) -> bool {
    &&& nodes.len() >= 1
    &&& nodes[0].parent is None
    &&& forall|j: int| 1 <= j < nodes.len() ==> ((#[trigger] nodes[j]).parent matches Some(p) && p < j)
}

/// The children of node `i` among the first `n` nodes, in order.
pub open spec fn child_list(nodes: Seq<NodeView>, i: int, n: int) -> Seq<int>
    decreases n,
{
    if n <= 0 {
        Seq::empty()
    } else {
        let rest = child_list(nodes, i, n - 1);
        if n - 1 < nodes.len() && nodes[n - 1].parent == Some(i as nat) && i < n - 1 {
            rest.push(n - 1)
        } else {
            rest
        }
    }
}

pub open spec fn children(nodes: Seq<NodeView>, i: int) -> Seq<int> {
    child_list(nodes, i, nodes.len() as int)
}

pub proof fn lemma_child_list(nodes: Seq<NodeView>, i: int, n: int)
    ensures
        child_list(nodes, i, n).len() <= if n < 0 { 0 } else { n },
        forall|k: int| 0 <= k < child_list(nodes, i, n).len() ==> i < #[trigger] child_list(nodes, i, n)[k] < n
            && child_list(nodes, i, n)[k] < nodes.len(),
    decreases n,
{
    if n > 0 {
        lemma_child_list(nodes, i, n - 1);
        let rest = child_list(nodes, i, n - 1);
        let all = child_list(nodes, i, n);
        assert forall|k: int| 0 <= k < all.len() implies i < #[trigger] all[k] < n && all[k] < nodes.len() by {
            if k < rest.len() {
                assert(all[k] == rest[k]);
            }
        }
    }
}

pub proof fn lemma_children(nodes: Seq<NodeView>, i: int)
    ensures
        children(nodes, i).len() <= nodes.len(),
        forall|k: int| 0 <= k < children(nodes, i).len() ==> i < #[trigger] children(nodes, i)[k] < nodes.len(),
{
    lemma_child_list(nodes, i, nodes.len() as int);
}

/// A parsed document: its nodes, and the children of each node.
pub struct XmlDoc {
    pub nodes: Vec<XmlNode>,
    pub kids: Vec<Vec<usize>>,
}

pub open spec fn usize_seq(v: Seq<usize>) -> Seq<int> {
    v.map_values(|x: usize| x as int)
}

impl XmlDoc {
    pub open spec fn view_nodes(&self) -> Seq<NodeView> {
        nodes_view(self.nodes@)
    }

    /// The document is a tree and `kids` lists each node's children.
    pub open spec fn wf(&self) -> bool {
        &&& tree_shaped(self.view_nodes())
        &&& self.nodes@.len() < usize::MAX
        &&& self.kids@.len() == self.nodes@.len()
        &&& forall|i: int| 0 <= i < self.kids@.len() ==> usize_seq((#[trigger] self.kids@[i])@) == children(self.view_nodes(), i)
    }

    /// The node at position `i`.
    pub open spec fn node(&self, i: int) -> NodeView {
        self.view_nodes()[i]
    }

    pub open spec fn is_element_named(&self, i: int, name: Seq<char>) -> bool {
        self.node(i).kind == XmlKind::Element && self.node(i).name == name
    }
}

/// The document of `text`, when it parses and forms a tree (of fewer
/// than `usize::MAX` nodes, which memory bounds anyway).
pub open spec fn spec_parse_doc(text: Seq<char>) -> Option<Seq<NodeView>> {
    match xml_nodes(text) {
        Some(n) => if tree_shaped(n) && n.len() < usize::MAX { Some(n) } else { None },
        None => None,
    }
}

impl XmlDoc {
    /// Parses `text` into a document.
    pub fn parse(text: &str) -> (r: Option<XmlDoc>)
        ensures
            match r {
                Some(d) => d.wf() && spec_parse_doc(text@) == Some(d.view_nodes()),
                None => spec_parse_doc(text@) is None,
            },
    {
        let nodes = match parse_xml_nodes(text) {
            Some(n) => n,
            None => return None,
        };
        let ghost nv = nodes_view(nodes@);
        assert(nv.len() == nodes@.len());
        if nodes.len() == 0 || nodes.len() == usize::MAX {
            return None;
        }
        assert(nv[0] == node_view(nodes@[0]));
        if nodes[0].parent.is_some() {
            assert(!tree_shaped(nv));
            return None;
        }
        let mut kids: Vec<Vec<usize>> = Vec::new();
        let mut i: usize = 0;
        while i < nodes.len()
            invariant
                i <= nodes@.len(),
                kids@.len() == i,
                forall|k: int| 0 <= k < i ==> (#[trigger] kids@[k])@.len() == 0,
            decreases nodes@.len() - i,
        {
            kids.push(Vec::new());
            i += 1;
        }
        let mut j: usize = 1;
        proof {
            assert forall|k: int| 0 <= k < kids@.len() implies usize_seq((#[trigger] kids@[k])@) == child_list(nv, k, 1) by {
                assert(kids@[k]@.len() == 0);
                assert(usize_seq(kids@[k]@) =~= Seq::<int>::empty());
                assert(child_list(nv, k, 0) =~= Seq::<int>::empty());
                if k == 0 {
                    assert(nv[0].parent is None);
                }
            }
        }
        while j < nodes.len()
            invariant
                1 <= j <= nodes@.len(),
                nv == nodes_view(nodes@),
                xml_nodes(text@) == Some(nv),
                nv.len() == nodes@.len(),
                nv[0].parent is None,
                kids@.len() == nodes@.len(),
                forall|k: int| 0 <= k < kids@.len() ==> usize_seq((#[trigger] kids@[k])@) == child_list(nv, k, j as int),
                forall|q: int| 1 <= q < j ==> ((#[trigger] nv[q]).parent matches Some(p) && p < q),
            decreases nodes@.len() - j,
        {
            assert(nv[j as int] == node_view(nodes@[j as int]));
            let p = match nodes[j].parent {
                Some(p) => p,
                None => {
                    assert(nv[j as int].parent is None);
                    assert(!tree_shaped(nv));
                    return None;
                },
            };
            if p >= j {
                assert(nv[j as int].parent == Some(p as nat));
                assert(!tree_shaped(nv));
                return None;
            }
            assert(nv[j as int].parent == Some(p as nat));
            let ghost before = kids@;
            let mut list = kids[p].clone();
            let ghost lb = list@;
            assert(lb == before[p as int]@);
            list.push(j);
            kids.set(p, list);
            proof {
                assert forall|k: int| 0 <= k < kids@.len() implies usize_seq((#[trigger] kids@[k])@) == child_list(nv, k, j + 1) by {
                    if k == p {
                        assert(usize_seq(list@) =~= usize_seq(lb).push(j as int));
                        assert(child_list(nv, k, j + 1) == child_list(nv, k, j as int).push(j as int));
                    } else {
                        assert(kids@[k] == before[k]);
                        assert(child_list(nv, k, j + 1) == child_list(nv, k, j as int));
                    }
                }
            }
            j += 1;
        }
        let doc = XmlDoc { nodes, kids };
        assert(doc.view_nodes() == nv);
        assert(tree_shaped(nv));
        assert(forall|k: int| 0 <= k < doc.kids@.len() ==> usize_seq((#[trigger] doc.kids@[k])@) == children(nv, k));
        Some(doc)
    }

    pub fn len(&self) -> (r: usize)
        ensures
            r == self.nodes@.len(),
    {
        self.nodes.len()
    }

    pub fn is_element(&self, i: usize) -> (r: bool)
        requires
            i < self.nodes@.len(),
        ensures
            r == (self.node(i as int).kind == XmlKind::Element),
    {
        assert(self.view_nodes()[i as int] == node_view(self.nodes@[i as int]));
        match self.nodes[i].kind {
            XmlKind::Element => true,
            _ => false,
        }
    }

    pub fn is_text(&self, i: usize) -> (r: bool)
        requires
            i < self.nodes@.len(),
        ensures
            r == (self.node(i as int).kind == XmlKind::Text),
    {
        assert(self.view_nodes()[i as int] == node_view(self.nodes@[i as int]));
        match self.nodes[i].kind {
            XmlKind::Text => true,
            _ => false,
        }
    }

    /// Whether node `i` is an element with the local name `name`.
    pub fn element_named(&self, i: usize, name: &str) -> (r: bool)
        requires
            i < self.nodes@.len(),
        ensures
            r == self.is_element_named(i as int, name@),
    {
        assert(self.view_nodes()[i as int] == node_view(self.nodes@[i as int]));
        self.is_element(i) && str_eq(self.nodes[i].name.as_str(), name)
    }

    pub fn name(&self, i: usize) -> (r: &str)
        requires
            i < self.nodes@.len(),
        ensures
            r@ == self.node(i as int).name,
    {
        assert(self.view_nodes()[i as int] == node_view(self.nodes@[i as int]));
        self.nodes[i].name.as_str()
    }

    pub fn text(&self, i: usize) -> (r: &str)
        requires
            i < self.nodes@.len(),
        ensures
            r@ == self.node(i as int).text,
    {
        assert(self.view_nodes()[i as int] == node_view(self.nodes@[i as int]));
        self.nodes[i].text.as_str()
    }

    pub fn parent(&self, i: usize) -> (r: Option<usize>)
        requires
            i < self.nodes@.len(),
        ensures
            match r {
                Some(p) => self.node(i as int).parent == Some(p as nat),
                None => self.node(i as int).parent is None,
            },
    {
        assert(self.view_nodes()[i as int] == node_view(self.nodes@[i as int]));
        self.nodes[i].parent
    }

    /// The children of node `i`, in order.
    pub fn children_of(&self, i: usize) -> (r: &Vec<usize>)
        requires
            self.wf(),
            i < self.nodes@.len(),
        ensures
            usize_seq(r@) == children(self.view_nodes(), i as int),
            forall|k: int| 0 <= k < r@.len() ==> i < #[trigger] r@[k] < self.nodes@.len(),
    {
        let r = &self.kids[i];
        proof {
            lemma_children(self.view_nodes(), i as int);
            assert forall|k: int| 0 <= k < r@.len() implies i < #[trigger] r@[k] < self.nodes@.len() by {
                assert(usize_seq(r@)[k] == r@[k] as int);
            }
        }
        r
    }
}

/// The value of the attribute `name` without a namespace, as
/// `Node::attribute(name)` gives it: the first one.
pub open spec fn attribute_in(attrs: Seq<(Option<Seq<char>>, Seq<char>, Seq<char>)>, name: Seq<char>) -> Option<Seq<char>>
    decreases attrs.len(),
{
    if attrs.len() == 0 {
        None
    } else if attrs[0].0 is None && attrs[0].1 == name {
        Some(attrs[0].2)
    } else {
        attribute_in(attrs.drop_first(), name)
    }
}

impl XmlDoc {
    pub open spec fn attr(&self, i: int, name: Seq<char>) -> Option<Seq<char>> {
        attribute_in(self.node(i).attributes, name)
    }

    pub fn attribute(&self, i: usize, name: &str) -> (r: Option<String>)
        requires
            i < self.nodes@.len(),
        ensures
            opt_chars(r) == self.attr(i as int, name@),
    {
        assert(self.view_nodes()[i as int] == node_view(self.nodes@[i as int]));
        let attrs = &self.nodes[i].attributes;
        let ghost av = attrs@.map_values(|a: XmlAttribute| attr_view(a));
        let mut k: usize = 0;
        assert(av.skip(0) =~= av);
        while k < attrs.len()
            invariant
                k <= attrs@.len(),
                av == attrs@.map_values(|a: XmlAttribute| attr_view(a)),
                self.node(i as int).attributes == av,
                attribute_in(av.skip(k as int), name@) == attribute_in(av, name@),
            decreases attrs@.len() - k,
        {
            assert(av.skip(k as int)[0] == attr_view(attrs@[k as int]));
            if attrs[k].namespace.is_none() && str_eq(attrs[k].name.as_str(), name) {
                return Some(attrs[k].value.clone());
            }
            assert(av.skip(k as int).drop_first() =~= av.skip(k + 1));
            k += 1;
        }
        assert(av.skip(k as int) =~= Seq::<(Option<Seq<char>>, Seq<char>, Seq<char>)>::empty());
        None
    }
}

/// The nodes of the subtree of `i` in document order: `i`, then the
/// subtrees of its children.
pub open spec fn desc(nodes: Seq<NodeView>, i: int) -> Seq<int>
    decreases nodes.len() - i, 1int, 0int,
{
    if 0 <= i < nodes.len() {
        seq![i] + desc_from(nodes, i, 0)
    } else {
        Seq::empty()
    }
}

/// The subtrees of the children of `i` from the `k`-th on.
pub open spec fn desc_from(nodes: Seq<NodeView>, i: int, k: int) -> Seq<int>
    decreases nodes.len() - i, 0int, children(nodes, i).len() - k,
{
    if 0 <= i < nodes.len() && 0 <= k < children(nodes, i).len() {
        let c = children(nodes, i)[k];
        proof { lemma_children(nodes, i); }
        desc(nodes, c) + desc_from(nodes, i, k + 1)
    } else {
        Seq::empty()
    }
}

pub proof fn lemma_desc_bounds(nodes: Seq<NodeView>, i: int)
    ensures
        forall|k: int| 0 <= k < desc(nodes, i).len() ==> i <= #[trigger] desc(nodes, i)[k] < nodes.len(),
        0 <= i < nodes.len() ==> desc(nodes, i).len() >= 1 && desc(nodes, i)[0] == i,
    decreases nodes.len() - i, 1int, 0int,
{
    if 0 <= i < nodes.len() {
        lemma_desc_from_bounds(nodes, i, 0);
        let a = seq![i];
        let b = desc_from(nodes, i, 0);
        assert(desc(nodes, i) == a + b);
        assert forall|k: int| 0 <= k < (a + b).len() implies i <= #[trigger] (a + b)[k] < nodes.len() by {
            if k >= 1 {
                assert((a + b)[k] == b[k - 1]);
            }
        }
    }
}

pub proof fn lemma_desc_from_bounds(nodes: Seq<NodeView>, i: int, k: int)
    ensures
        forall|q: int| 0 <= q < desc_from(nodes, i, k).len() ==> i < #[trigger] desc_from(nodes, i, k)[q] < nodes.len(),
    decreases nodes.len() - i, 0int, children(nodes, i).len() - k,
{
    if 0 <= i < nodes.len() && 0 <= k < children(nodes, i).len() {
        lemma_children(nodes, i);
        let c = children(nodes, i)[k];
        lemma_desc_bounds(nodes, c);
        lemma_desc_from_bounds(nodes, i, k + 1);
        let a = desc(nodes, c);
        let b = desc_from(nodes, i, k + 1);
        assert forall|q: int| 0 <= q < (a + b).len() implies i < #[trigger] (a + b)[q] < nodes.len() by {
            if q < a.len() {
                assert((a + b)[q] == a[q]);
            } else {
                assert((a + b)[q] == b[q - a.len()]);
            }
        }
    }
}

impl XmlDoc {
    fn push_desc(&self, i: usize, out: &mut Vec<usize>)
        requires
            self.wf(),
            i < self.nodes@.len(),
        ensures
            usize_seq(final(out)@) == usize_seq(old(out)@) + desc(self.view_nodes(), i as int),
        decreases self.nodes@.len() - i, 1int, 0int,
    {
        let ghost start = usize_seq(out@);
        out.push(i);
        assert(usize_seq(out@) =~= start.push(i as int));
        self.push_desc_from(i, 0, out);
        assert(usize_seq(out@) =~= start + desc(self.view_nodes(), i as int));
    }

    fn push_desc_from(&self, i: usize, k: usize, out: &mut Vec<usize>)
        requires
            self.wf(),
            i < self.nodes@.len(),
            k <= children(self.view_nodes(), i as int).len(),
        ensures
            usize_seq(final(out)@) == usize_seq(old(out)@) + desc_from(self.view_nodes(), i as int, k as int),
        decreases self.nodes@.len() - i, 0int, children(self.view_nodes(), i as int).len() - k,
    {
        let kids = self.children_of(i);
        if k >= kids.len() {
            assert(usize_seq(out@) =~= usize_seq(out@) + Seq::<int>::empty());
            return;
        }
        let c = kids[k];
        assert(usize_seq(kids@)[k as int] == c as int);
        let ghost start = usize_seq(out@);
        self.push_desc(c, out);
        self.push_desc_from(i, k + 1, out);
        assert(usize_seq(out@) =~= start + desc_from(self.view_nodes(), i as int, k as int));
    }

    /// The nodes of the subtree of `i`, in document order.
    pub fn descendants(&self, i: usize) -> (r: Vec<usize>)
        requires
            self.wf(),
            i < self.nodes@.len(),
        ensures
            usize_seq(r@) == desc(self.view_nodes(), i as int),
            forall|k: int| 0 <= k < r@.len() ==> i <= #[trigger] r@[k] < self.nodes@.len(),
    {
        let mut out: Vec<usize> = Vec::new();
        self.push_desc(i, &mut out);
        assert(usize_seq(out@) =~= desc(self.view_nodes(), i as int));
        proof {
            lemma_desc_bounds(self.view_nodes(), i as int);
            assert forall|k: int| 0 <= k < out@.len() implies i <= #[trigger] out@[k] < self.nodes@.len() by {
                assert(usize_seq(out@)[k] == out@[k] as int);
            }
        }
        out
    }
}

/// The first node of `list` that is an element named `name`.
pub open spec fn first_named(nodes: Seq<NodeView>, list: Seq<int>, name: Seq<char>) -> Option<int>
    decreases list.len(),
{
    if list.len() == 0 {
        None
    } else if 0 <= list[0] < nodes.len() && nodes[list[0]].kind == XmlKind::Element && nodes[list[0]].name == name {
        Some(list[0])
    } else {
        first_named(nodes, list.drop_first(), name)
    }
}

impl XmlDoc {
    /// The first element named `name` in the subtree of `i`.
    pub fn find_descendant(&self, i: usize, name: &str) -> (r: Option<usize>)
        requires
            self.wf(),
            i < self.nodes@.len(),
        ensures
            match r {
                Some(j) => first_named(self.view_nodes(), desc(self.view_nodes(), i as int), name@) == Some(j as int)
                    && i <= j < self.nodes@.len(),
                None => first_named(self.view_nodes(), desc(self.view_nodes(), i as int), name@) is None,
            },
    {
        let d = self.descendants(i);
        self.first_in(&d, name)
    }

    /// The first node of `list` that is an element named `name`.
    pub fn first_in(&self, list: &Vec<usize>, name: &str) -> (r: Option<usize>)
        requires
            forall|k: int| 0 <= k < list@.len() ==> #[trigger] list@[k] < self.nodes@.len(),
        ensures
            match r {
                Some(j) => first_named(self.view_nodes(), usize_seq(list@), name@) == Some(j as int)
                    && j < self.nodes@.len() && exists|k: int| 0 <= k < list@.len() && list@[k] == j,
                None => first_named(self.view_nodes(), usize_seq(list@), name@) is None,
            },
    {
        let ghost lv = usize_seq(list@);
        let mut k: usize = 0;
        assert(lv.skip(0) =~= lv);
        while k < list.len()
            invariant
                k <= list@.len(),
                lv == usize_seq(list@),
                forall|q: int| 0 <= q < list@.len() ==> #[trigger] list@[q] < self.nodes@.len(),
                first_named(self.view_nodes(), lv.skip(k as int), name@) == first_named(self.view_nodes(), lv, name@),
            decreases list@.len() - k,
        {
            let j = list[k];
            assert(lv.skip(k as int)[0] == j as int);
            if self.element_named(j, name) {
                return Some(j);
            }
            assert(lv.skip(k as int).drop_first() =~= lv.skip(k + 1));
            k += 1;
        }
        assert(lv.skip(k as int) =~= Seq::<int>::empty());
        None
    }
}

/// The texts of the text nodes among `list`, in order.
pub open spec fn texts_of(nodes: Seq<NodeView>, list: Seq<int>) -> Seq<Seq<char>>
    decreases list.len(),
{
    if list.len() == 0 {
        Seq::empty()
    } else {
        let rest = texts_of(nodes, list.drop_last());
        let j = list.last();
        if 0 <= j < nodes.len() && nodes[j].kind == XmlKind::Text { rest.push(nodes[j].text) } else { rest }
    }
}

/// All the text under a node, joined by spaces, with whitespace runs
/// collapsed and the ends trimmed; `None` when nothing is left.
pub open spec fn spec_collapsed_text(nodes: Seq<NodeView>, i: int) -> Option<Seq<char>> {
    let joined = join_seq(texts_of(nodes, desc(nodes, i)), seq![' ']);
    let collapsed = trim(regex_replaced_all(r"\s+"@, joined, " "@));
    if collapsed.len() == 0 { None } else { Some(collapsed) }
}

impl XmlDoc {
    pub fn collapsed_text(&self, i: usize) -> (r: Option<String>)
        requires
            self.wf(),
            i < self.nodes@.len(),
        ensures
            opt_chars(r) == spec_collapsed_text(self.view_nodes(), i as int),
    {
        let d = self.descendants(i);
        let ghost dv = usize_seq(d@);
        let mut texts: Vec<Vec<char>> = Vec::new();
        let mut k: usize = 0;
        while k < d.len()
            invariant
                k <= d@.len(),
                dv == usize_seq(d@),
                forall|q: int| 0 <= q < d@.len() ==> #[trigger] d@[q] < self.nodes@.len(),
                texts@.map_values(|v: Vec<char>| v@) == texts_of(self.view_nodes(), dv.take(k as int)),
            decreases d@.len() - k,
        {
            let ghost t = dv.take(k + 1);
            assert(t.drop_last() =~= dv.take(k as int));
            assert(t.last() == d@[k as int] as int);
            let j = d[k];
            if self.is_text(j) {
                let ghost before = texts@.map_values(|v: Vec<char>| v@);
                let c = chars_of(self.text(j));
                texts.push(c);
                assert(texts@.map_values(|v: Vec<char>| v@) =~= before.push(c@));
            }
            k += 1;
        }
        assert(dv.take(d@.len() as int) =~= dv);
        let mut sep: Vec<char> = Vec::new();
        sep.push(' ');
        assert(sep@ =~= seq![' ']);
        let joined = string_of(&join_with(&texts, &sep));
        let collapsed = trim_chars(&chars_of(regex_replace_all(r"\s+", joined.as_str(), " ").as_str()));
        if collapsed.len() == 0 {
            None
        } else {
            Some(string_of(&collapsed))
        }
    }

    /// The collapsed text of the first element named `name` under `i`.
    pub fn first_descendant_text(&self, i: usize, name: &str) -> (r: Option<String>)
        requires
            self.wf(),
            i < self.nodes@.len(),
        ensures
            opt_chars(r) == match first_named(self.view_nodes(), desc(self.view_nodes(), i as int), name@) {
                Some(j) => spec_collapsed_text(self.view_nodes(), j),
                None => None,
            },
    {
        match self.find_descendant(i, name) {
            Some(j) => self.collapsed_text(j),
            None => None,
        }
    }

    /// The first element child of the root: the document element.
    pub fn root_element(&self) -> (r: Option<usize>)
        requires
            self.wf(),
        ensures
            match r {
                Some(j) => first_element(self.view_nodes(), children(self.view_nodes(), 0)) == Some(j as int)
                    && j < self.nodes@.len(),
                None => first_element(self.view_nodes(), children(self.view_nodes(), 0)) is None,
            },
    {
        let kids = self.children_of(0);
        let ghost kv = usize_seq(kids@);
        let mut k: usize = 0;
        assert(kv.skip(0) =~= kv);
        while k < kids.len()
            invariant
                k <= kids@.len(),
                kv == usize_seq(kids@),
                kv == children(self.view_nodes(), 0),
                forall|q: int| 0 <= q < kids@.len() ==> #[trigger] kids@[q] < self.nodes@.len(),
                first_element(self.view_nodes(), kv.skip(k as int)) == first_element(self.view_nodes(), kv),
            decreases kids@.len() - k,
        {
            let j = kids[k];
            assert(kv.skip(k as int)[0] == j as int);
            if self.is_element(j) {
                return Some(j);
            }
            assert(kv.skip(k as int).drop_first() =~= kv.skip(k + 1));
            k += 1;
        }
        assert(kv.skip(k as int) =~= Seq::<int>::empty());
        None
    }
}

/// The first element of `list`.
pub open spec fn first_element(nodes: Seq<NodeView>, list: Seq<int>) -> Option<int>
    decreases list.len(),
{
    if list.len() == 0 {
        None
    } else if 0 <= list[0] < nodes.len() && nodes[list[0]].kind == XmlKind::Element {
        Some(list[0])
    } else {
        first_element(nodes, list.drop_first())
    }
}

} // verus!
