//! The node type of the virtual DOM and its mathematical model.

use crate::vdom::attrs::{as_map, unique_keys, with_entry, AttrMap, Entry};
use vstd::prelude::*;
use vstd::string::*;

verus! {

/// What a node is, as plain mathematical data.
pub struct NodeModel {
    pub tag: Seq<char>,
    pub attrs: Seq<Entry>,
    pub children: Seq<NodeModel>,
    pub text: Option<Seq<char>>,
    pub key: Option<Seq<char>>,
    pub djust_id: Option<Seq<char>>,
}

/// The tag that marks a text node.
pub open spec fn text_tag() -> Seq<char> {
    "#text"@
}

/// The attribute that carries a node's identity in serialized markup.
pub open spec fn id_attr() -> Seq<char> {
    "data-dj-id"@
}

/// The attribute that carries an author-supplied key in markup.
pub open spec fn key_attr() -> Seq<char> {
    "data-key"@
}

/// The attribute that asks for all children to be replaced rather than diffed.
pub open spec fn replace_attr() -> Seq<char> {
    "data-djust-replace"@
}

impl NodeModel {
    pub open spec fn is_text(self) -> bool {
        self.tag == text_tag()
    }

    /// Attribute names are unique in this node and in all nodes below it.
    pub open spec fn wf(self) -> bool
        decreases self,
    {
        &&& unique_keys(self.attrs)
        &&& forall|i: int|
            0 <= i < self.children.len() ==> (#[trigger] self.children[i]).wf()
    }

    /// The number of nodes in the tree.
    pub open spec fn node_count(self) -> nat
        decreases self, 1nat,
    {
        1 + count_nodes(self.children, self.children.len())
    }

    /// The number of attributes in the tree.
    pub open spec fn attr_count(self) -> nat
        decreases self, 1nat,
    {
        self.attrs.len() + count_attrs(self.children, self.children.len())
    }
}

/// The number of nodes in the first `n` trees of `nodes`.
pub open spec fn count_nodes(nodes: Seq<NodeModel>, n: nat) -> nat
    decreases nodes, n,
{
    if n == 0 || n > nodes.len() {
        0
    } else {
        count_nodes(nodes, (n - 1) as nat) + nodes[n - 1].node_count()
    }
}

/// The number of attributes in the first `n` trees of `nodes`.
pub open spec fn count_attrs(nodes: Seq<NodeModel>, n: nat) -> nat
    decreases nodes, n,
{
    if n == 0 || n > nodes.len() {
        0
    } else {
        count_attrs(nodes, (n - 1) as nat) + nodes[n - 1].attr_count()
    }
}

/// The model of an optional string.
pub open spec fn opt_view(s: Option<String>) -> Option<Seq<char>> {
    match s {
        Some(t) => Some(t@),
        None => None,
    }
}

/// A virtual DOM node: an element, or a run of text.
#[derive(Debug, PartialEq)]
pub struct VNode {
    pub tag: String,
    pub attrs: AttrMap,
    pub children: Vec<VNode>,
    pub text: Option<String>,
    pub key: Option<String>,
    pub djust_id: Option<String>,
}

/// The model of a node: its own data, and the models of its children in order.
pub open spec fn node_model(node: VNode) -> NodeModel
    decreases node,
{
    NodeModel {
        tag: node.tag@,
        attrs: node.attrs@,
        children: Seq::new(
            node.children@.len(),
            |i: int|
                if 0 <= i < node.children@.len() {
                    node_model(node.children@[i])
                } else {
                    arbitrary()
                },
        ),
        text: opt_view(node.text),
        key: opt_view(node.key),
        djust_id: opt_view(node.djust_id),
    }
}

impl View for VNode {
    type V = NodeModel;

    open spec fn view(&self) -> NodeModel {
        node_model(*self)
    }
}

/// The models of a sequence of nodes.
pub open spec fn nodes_view(nodes: Seq<VNode>) -> Seq<NodeModel> {
    Seq::new(nodes.len(), |i: int| nodes[i]@)
}

/// A node's children, as models, are the models of its children.
pub proof fn lemma_children_view(node: &VNode)
    ensures
        node@.children == nodes_view(node.children@),
        node@.children.len() == node.children@.len(),
        forall|i: int|
            0 <= i < node.children@.len() ==> (#[trigger] node@.children[i])
                == node.children@[i]@,
{
    let kids = node@.children;
    assert(kids.len() == node.children@.len());
    assert forall|i: int| 0 <= i < kids.len() implies kids[i] == node.children@[i]@ by {}
    assert(kids =~= nodes_view(node.children@));
}

/// Clones an optional string.
pub fn clone_opt(s: &Option<String>) -> (r: Option<String>)
    ensures
        opt_view(r) == opt_view(*s),
{
    match s {
        Some(t) => Some(t.clone()),
        None => None,
    }
}

impl Clone for VNode {
    fn clone(&self) -> (r: Self)
        ensures
            r@ == self@,
        decreases self,
    {
        let mut children: Vec<VNode> = Vec::new();
        let mut i: usize = 0;
        while i < self.children.len()
            invariant
                i <= self.children@.len(),
                children@.len() == i,
                forall|j: int| 0 <= j < i ==> (#[trigger] children@[j])@ == self.children@[j]@,
            decreases self.children@.len() - i,
        {
            let child = self.children[i].clone();
            children.push(child);
            i += 1;
        }
        let r = VNode {
            tag: self.tag.clone(),
            attrs: self.attrs.clone(),
            children,
            text: clone_opt(&self.text),
            key: clone_opt(&self.key),
            djust_id: clone_opt(&self.djust_id),
        };
        proof {
            lemma_children_view(&r);
            lemma_children_view(self);
            assert(r@.children =~= self@.children);
        }
        r
    }
}

impl VNode {
    /// An element with the given tag and nothing else.
    pub fn element(tag: &str) -> (r: Self)
        ensures
            r@ == (NodeModel {
                tag: tag@,
                attrs: Seq::empty(),
                children: Seq::empty(),
                text: None,
                key: None,
                djust_id: None,
            }),
    {
        let r = VNode {
            tag: String::from_str(tag),
            attrs: AttrMap::new(),
            children: Vec::new(),
            text: None,
            key: None,
            djust_id: None,
        };
        proof {
            lemma_children_view(&r);
            assert(r@.children =~= Seq::empty());
        }
        r
    }

    /// A text node with the given content.
    pub fn text(content: &str) -> (r: Self)
        ensures
            r@ == (NodeModel {
                tag: text_tag(),
                attrs: Seq::empty(),
                children: Seq::empty(),
                text: Some(content@),
                key: None,
                djust_id: None,
            }),
    {
        let r = VNode {
            tag: String::from_str("#text"),
            attrs: AttrMap::new(),
            children: Vec::new(),
            text: Some(String::from_str(content)),
            key: None,
            djust_id: None,
        };
        proof {
            lemma_children_view(&r);
            assert(r@.children =~= Seq::empty());
        }
        r
    }

    /// The same node with `value` stored under the attribute `key`.
    pub fn with_attr(self, key: &str, value: &str) -> (r: Self)
        ensures
            r@ == (NodeModel { attrs: with_entry(self@.attrs, key@, value@), ..self@ }),
    {
        let mut node = self;
        node.attrs.insert(String::from_str(key), String::from_str(value));
        proof {
            lemma_children_view(&node);
            lemma_children_view(&self);
            assert(node@.children =~= self@.children);
        }
        node
    }

    /// The same node with the key `key`.
    pub fn with_key(self, key: &str) -> (r: Self)
        ensures
            r@ == (NodeModel { key: Some(key@), ..self@ }),
    {
        let mut node = self;
        node.key = Some(String::from_str(key));
        proof {
            lemma_children_view(&node);
            lemma_children_view(&self);
            assert(node@.children =~= self@.children);
        }
        node
    }

    /// The same node with the identity `id`.
    pub fn with_djust_id(self, id: &str) -> (r: Self)
        ensures
            r@ == (NodeModel { djust_id: Some(id@), ..self@ }),
    {
        let mut node = self;
        node.djust_id = Some(String::from_str(id));
        proof {
            lemma_children_view(&node);
            lemma_children_view(&self);
            assert(node@.children =~= self@.children);
        }
        node
    }

    /// The same node with `child` added after its children.
    pub fn with_child(self, child: VNode) -> (r: Self)
        ensures
            r@ == (NodeModel { children: self@.children.push(child@), ..self@ }),
    {
        let mut node = self;
        node.children.push(child);
        proof {
            lemma_children_view(&node);
            lemma_children_view(&self);
            assert(node@.children =~= self@.children.push(child@));
        }
        node
    }

    /// The same node with `children` in place of its children.
    pub fn with_children(self, children: Vec<VNode>) -> (r: Self)
        ensures
            r@ == (NodeModel { children: nodes_view(children@), ..self@ }),
    {
        let mut node = self;
        node.children = children;
        proof {
            lemma_children_view(&node);
        }
        node
    }

    /// Whether this is a text node.
    pub fn is_text(&self) -> (b: bool)
        ensures
            b == self@.is_text(),
    {
        self.tag == String::from_str("#text")
    }
}

/// Whether two trees are the same but for identities: the same tags, texts
/// and children, and the same attributes, the identity attribute apart.
pub open spec fn same_structure(a: NodeModel, b: NodeModel) -> bool
    decreases a,
{
    &&& a.tag == b.tag
    &&& a.text == b.text
    &&& as_map(a.attrs).remove(id_attr()) == as_map(b.attrs).remove(id_attr())
    &&& a.children.len() == b.children.len()
    &&& forall|i: int|
        0 <= i < a.children.len() ==> same_structure(#[trigger] a.children[i], b.children[i])
}

impl VNode {
    /// Every tree is well formed: no node holds an attribute name twice.
    ///
    /// The attribute maps see to that by themselves; this walk through the
    /// tree is where a caller's proof learns it of a whole tree.
    pub fn well_formed(&self)
        ensures
            self@.wf(),
        decreases self,
    {
        let _ = self.attrs.len();
        let mut i: usize = 0;
        while i < self.children.len()
            invariant
                i <= self.children@.len(),
                forall|j: int| 0 <= j < i ==> (#[trigger] self.children@[j])@.wf(),
            decreases self.children@.len() - i,
        {
            self.children[i].well_formed();
            i += 1;
        }
        proof {
            lemma_children_view(self);
        }
    }

    /// Whether two trees are the same but for the identities of their nodes.
    pub fn structurally_equal(&self, other: &VNode) -> (b: bool)
        ensures
            b == same_structure(self@, other@),
        decreases self,
    {
        proof {
            lemma_children_view(self);
            lemma_children_view(other);
        }
        if !(self.tag == other.tag) {
            return false;
        }
        let same_text = match (&self.text, &other.text) {
            (Some(x), Some(y)) => *x == *y,
            (None, None) => true,
            _ => false,
        };
        if !same_text {
            return false;
        }
        if !self.attrs.same_except(&other.attrs, "data-dj-id") {
            return false;
        }
        if self.children.len() != other.children.len() {
            return false;
        }
        let mut i: usize = 0;
        while i < self.children.len()
            invariant
                i <= self.children@.len(),
                self.children@.len() == other.children@.len(),
                forall|j: int|
                    0 <= j < i ==> same_structure(
                        #[trigger] self.children@[j]@,
                        other.children@[j]@,
                    ),
            decreases self.children@.len() - i,
        {
            if !self.children[i].structurally_equal(&other.children[i]) {
                assert(!same_structure(self@.children[i as int], other@.children[i as int]));
                return false;
            }
            i += 1;
        }
        assert forall|j: int| 0 <= j < self@.children.len() implies same_structure(
            #[trigger] self@.children[j],
            other@.children[j],
        ) by {
            assert(same_structure(self.children@[j]@, other.children@[j]@));
        }
        true
    }
}

} // verus!
