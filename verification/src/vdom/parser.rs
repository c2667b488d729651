//! From an HTML string to a tree.
//!
//! The markup is tokenized and built into a document by `html5ever`; this
//! module picks the root element out of that document and turns it into
//! nodes, giving every element an identity: the next value of a counter that
//! starts at zero for each parse, written in base 62.

use crate::errors::DjangoRustError;
use crate::text::{all_whitespace, base62, is_blank, to_base62};
use crate::vdom::attrs::{with_entry, AttrMap, Entry};
use crate::vdom::node::{
    id_attr, key_attr, lemma_children_view, nodes_view, opt_view, text_tag, NodeModel, VNode,
};
use html5ever::parse_document;
use html5ever::tendril::TendrilSink;
use markup5ever_rcdom::{Node, NodeData, RcDom};
use std::rc::Rc;
use vstd::prelude::*;
use vstd::string::*;

verus! {

/// What a node of a parsed document is, as plain mathematical data.
pub enum DomModel {
    Document { children: Seq<DomModel> },
    Element { name: Seq<char>, attrs: Seq<Entry>, children: Seq<DomModel> },
    Text { contents: Seq<char> },
    Comment,
    Other,
}

impl DomModel {
    /// The children of a document or an element; other nodes have none.
    pub open spec fn children(self) -> Seq<DomModel> {
        match self {
            DomModel::Document { children } => children,
            DomModel::Element { children, .. } => children,
            _ => Seq::empty(),
        }
    }

    /// Whether this is an element with the given name.
    pub open spec fn is_named(self, name: Seq<char>) -> bool {
        self is Element && self->name == name
    }
}

/// A node of a parsed document: the document itself, an element, a run of
/// text, a comment, or anything else (a doctype, a processing instruction).
#[derive(Debug, PartialEq)]
pub enum DomNode {
    Document { children: Vec<DomNode> },
    Element { name: String, attrs: Vec<(String, String)>, children: Vec<DomNode> },
    Text { contents: String },
    Comment,
    Other,
}

/// The models of a list of attributes as they stand in markup.
pub open spec fn entries_view(attrs: Seq<(String, String)>) -> Seq<Entry> {
    Seq::new(attrs.len(), |i: int| (attrs[i].0@, attrs[i].1@))
}

/// The model of a document node.
pub open spec fn dom_view(node: DomNode) -> DomModel
    decreases node,
{
    match node {
        DomNode::Document { children } => DomModel::Document {
            children: Seq::new(
                children@.len(),
                |i: int|
                    if 0 <= i < children@.len() {
                        dom_view(children@[i])
                    } else {
                        arbitrary()
                    },
            ),
        },
        DomNode::Element { name, attrs, children } => DomModel::Element {
            name: name@,
            attrs: entries_view(attrs@),
            children: Seq::new(
                children@.len(),
                |i: int|
                    if 0 <= i < children@.len() {
                        dom_view(children@[i])
                    } else {
                        arbitrary()
                    },
            ),
        },
        DomNode::Text { contents } => DomModel::Text { contents: contents@ },
        DomNode::Comment => DomModel::Comment,
        DomNode::Other => DomModel::Other,
    }
}

impl View for DomNode {
    type V = DomModel;

    open spec fn view(&self) -> DomModel {
        dom_view(*self)
    }
}

/// The models of a sequence of document nodes.
pub open spec fn doms_view(nodes: Seq<DomNode>) -> Seq<DomModel> {
    Seq::new(nodes.len(), |i: int| nodes[i]@)
}

/// The children of a document node, as models, are the models of its children.
pub proof fn lemma_dom_children(node: &DomNode)
    ensures
        match *node {
            DomNode::Document { children } => node@.children() == doms_view(children@),
            DomNode::Element { children, .. } => node@.children() == doms_view(children@),
            _ => node@.children().len() == 0,
        },
{
    match *node {
        DomNode::Document { children } => {
            assert(node@.children() =~= doms_view(children@));
        },
        DomNode::Element { children, .. } => {
            assert(node@.children() =~= doms_view(children@));
        },
        _ => {},
    }
}

/// The first of `f(0)`, ..., `f(n - 1)` that is something.
#[verifier::opaque]
pub open spec fn first_some(n: nat, f: spec_fn(int) -> Option<DomModel>) -> Option<DomModel> {
    if exists|i: int| 0 <= i < n && (#[trigger] f(i)) is Some {
        f(
            choose|i: int|
                0 <= i < n && (#[trigger] f(i)) is Some && forall|j: int|
                    0 <= j < i ==> (#[trigger] f(j)) is None,
        )
    } else {
        None
    }
}

/// Where nothing before `i` is something and `f(i)` is, `f(i)` is the first.
pub proof fn lemma_first_some(n: nat, f: spec_fn(int) -> Option<DomModel>, i: int)
    requires
        0 <= i < n,
        f(i) is Some,
        forall|j: int| 0 <= j < i ==> (#[trigger] f(j)) is None,
    ensures
        first_some(n, f) == f(i),
{
    reveal(first_some);
    let c = choose|c: int|
        0 <= c < n && (#[trigger] f(c)) is Some && forall|j: int|
            0 <= j < c ==> (#[trigger] f(j)) is None;
    assert(0 <= i < n && (#[trigger] f(i)) is Some && forall|j: int|
                    0 <= j < i ==> (#[trigger] f(j)) is None);
    if c < i {
        assert(f(c) is None);
    } else if i < c {
        assert(f(i) is None);
    }
}

/// Where none of them is something, there is no first.
pub proof fn lemma_first_none(n: nat, f: spec_fn(int) -> Option<DomModel>)
    requires
        forall|j: int| 0 <= j < n ==> (#[trigger] f(j)) is None,
    ensures
        first_some(n, f) is None,
{
    reveal(first_some);
}

/// The node itself, if it is an element.
pub open spec fn as_element(node: DomModel) -> Option<DomModel> {
    if node is Element {
        Some(node)
    } else {
        None
    }
}

/// The first element among `nodes`.
pub open spec fn first_element(nodes: Seq<DomModel>) -> Option<DomModel> {
    first_some(nodes.len(), |i: int| as_element(nodes[i]))
}

/// The first element inside `node`, if `node` is a `body` element.
pub open spec fn body_content(node: DomModel) -> Option<DomModel> {
    if node.is_named("body"@) {
        first_element(node.children())
    } else {
        None
    }
}

/// The first element inside a `body` inside `node`, if `node` is an `html`
/// element.
pub open spec fn html_content(node: DomModel) -> Option<DomModel> {
    if node.is_named("html"@) {
        first_some(node.children().len(), |i: int| body_content(node.children()[i]))
    } else {
        None
    }
}

/// The node that a document is parsed into a tree from: the first element
/// of the `body` of the `html` element that the parser wraps fragments in;
/// failing that, the first element of the document; failing that, the
/// document itself.
pub open spec fn find_root_spec(document: DomModel) -> DomModel {
    let kids = document.children();
    match first_some(kids.len(), |i: int| html_content(kids[i])) {
        Some(root) => root,
        None => match first_element(kids) {
            Some(element) => element,
            None => document,
        },
    }
}

/// An element with the tag `div` and nothing else.
pub open spec fn plain_div() -> NodeModel {
    NodeModel {
        tag: "div"@,
        attrs: Seq::empty(),
        children: Seq::empty(),
        text: None,
        key: None,
        djust_id: None,
    }
}

/// The attributes of an element with the identity `id`: the identity
/// attribute, then the attributes of the markup, but for one that is named
/// like the identity attribute.
pub open spec fn element_attrs(attrs: Seq<Entry>, id: Seq<char>, n: nat) -> Seq<Entry>
    decreases n,
{
    if n == 0 {
        seq![(id_attr(), id)]
    } else {
        let before = element_attrs(attrs, id, (n - 1) as nat);
        if attrs[n - 1].0 == id_attr() {
            before
        } else {
            with_entry(before, attrs[n - 1].0, attrs[n - 1].1)
        }
    }
}

/// The key of an element: the value of the last key attribute among the
/// first `n` that is not empty.
pub open spec fn element_key(attrs: Seq<Entry>, n: nat) -> Option<Seq<char>>
    decreases n,
{
    if n == 0 {
        None
    } else if attrs[n - 1].0 == key_attr() && attrs[n - 1].1.len() > 0 {
        Some(attrs[n - 1].1)
    } else {
        element_key(attrs, (n - 1) as nat)
    }
}

/// Whether a node stays among the children of an element: all but text that
/// is missing or holds only white space.
pub open spec fn keeps_child(child: NodeModel) -> bool {
    !child.is_text() || (child.text is Some && !all_whitespace(child.text->0))
}

/// The tree for a document node and the counter after it, where `next` is
/// the counter before it.
///
/// Text becomes a text node. An element takes the identity `next` and gives
/// its children the identities after that, in document order. A document
/// becomes the first of its children that is no text. Anything else becomes
/// an empty `div` without identity.
pub open spec fn vnode_of(dom: DomModel, next: nat) -> (NodeModel, nat)
    decreases dom, 0nat, 0nat,
{
    match dom {
        DomModel::Text { contents } => (
            NodeModel {
                tag: text_tag(),
                attrs: Seq::empty(),
                children: Seq::empty(),
                text: Some(contents),
                key: None,
                djust_id: None,
            },
            next,
        ),
        DomModel::Element { name, attrs, children } => {
            let (kids, after) = element_children(children, next + 1, children.len());
            (
                NodeModel {
                    tag: name,
                    attrs: element_attrs(attrs, base62(next), attrs.len()),
                    children: kids,
                    text: None,
                    key: element_key(attrs, attrs.len()),
                    djust_id: Some(base62(next)),
                },
                after,
            )
        },
        DomModel::Document { children } => document_vnode(children, next, 0),
        _ => (plain_div(), next),
    }
}

/// The children of an element made from the first `n` nodes of `children`:
/// comments are left out, and so is text that holds only white space.
pub open spec fn element_children(children: Seq<DomModel>, next: nat, n: nat) -> (
    Seq<NodeModel>,
    nat,
)
    decreases children, 1nat, n,
{
    if n == 0 || n > children.len() {
        (Seq::empty(), next)
    } else {
        let (kids, current) = element_children(children, next, (n - 1) as nat);
        if children[n - 1] is Comment {
            (kids, current)
        } else {
            let (child, after) = vnode_of(children[n - 1], current);
            if keeps_child(child) {
                (kids.push(child), after)
            } else {
                (kids, after)
            }
        }
    }
}

/// The tree for a document: the first child from `i` on that does not turn
/// into text, or an empty `div`.
pub open spec fn document_vnode(children: Seq<DomModel>, next: nat, i: nat) -> (NodeModel, nat)
    decreases children, 1nat, children.len() - i,
{
    if i >= children.len() {
        (plain_div(), next)
    } else {
        let (child, after) = vnode_of(children[i as int], next);
        if !child.is_text() {
            (child, after)
        } else {
            document_vnode(children, after, i + 1)
        }
    }
}

/// A node of the document that `html5ever` builds. Nothing of it is visible
/// here but through the functions below.
#[verifier::external_type_specification]
#[verifier::external_body]
pub struct ExNode(markup5ever_rcdom::Node);

/// What a node of the outside document holds, with all that is below it.
pub uninterp spec fn dom_model(handle: Rc<markup5ever_rcdom::Node>) -> DomModel;

/// The document that `html5ever` parses a string into, or nothing where it
/// gives none.
pub uninterp spec fn parsed_document(html: Seq<char>) -> Option<DomModel>;

/// A node without what is below it.
pub open spec fn without_children(node: DomModel) -> DomModel {
    match node {
        DomModel::Document { .. } => DomModel::Document { children: Seq::empty() },
        DomModel::Element { name, attrs, .. } => DomModel::Element {
            name,
            attrs,
            children: Seq::empty(),
        },
        other => other,
    }
}

/// Parses a string as an HTML document and returns the document node.
///
/// Trusted: `html5ever::parse_document` into a `markup5ever_rcdom::RcDom`,
/// fed the bytes of `html` through `from_utf8().read_from(..)`. The document
/// depends on the string alone; it is named `parsed_document`. An error
/// comes back as its text.
#[verifier::external_body]
fn parse_document_root(html: &str) -> (r: Result<Rc<Node>, String>)
    ensures
        match r {
            Ok(handle) => parsed_document(html@) == Some(dom_model(handle)),
            Err(_) => parsed_document(html@) is None,
        },
{
    let parser = parse_document(RcDom::default(), Default::default());
    match parser.from_utf8().read_from(&mut html.as_bytes()) {
        Ok(dom) => Ok(dom.document),
        Err(e) => Err(e.to_string()),
    }
}

/// What an outside node holds itself: its kind and, for an element, the
/// local name of its tag and of each attribute with the attribute's value;
/// for text, its contents.
///
/// Trusted: reads the field `data` of `markup5ever_rcdom::Node`, one arm for
/// each variant of `NodeData`.
#[verifier::external_body]
fn shallow_node(handle: &Rc<Node>) -> (node: DomNode)
    ensures
        node@ == without_children(dom_model(*handle)),
{
    match &handle.data {
        NodeData::Document => DomNode::Document { children: Vec::new() },
        NodeData::Element { name, attrs, .. } => DomNode::Element {
            name: name.local.to_string(),
            attrs: attrs.borrow().iter().map(
                |a| (a.name.local.to_string(), a.value.to_string()),
            ).collect(),
            children: Vec::new(),
        },
        NodeData::Text { contents } => DomNode::Text { contents: contents.borrow().to_string() },
        NodeData::Comment { .. } => DomNode::Comment,
        NodeData::Doctype { .. } => DomNode::Other,
        NodeData::ProcessingInstruction { .. } => DomNode::Other,
    }
}

/// The children of an outside document or element, in order.
///
/// Trusted: a copy of the field `children` of `markup5ever_rcdom::Node`.
#[verifier::external_body]
fn child_handles(handle: &Rc<Node>) -> (kids: Vec<Rc<Node>>)
    ensures
        dom_model(*handle) is Document || dom_model(*handle) is Element ==> kids@.len()
            == dom_model(*handle).children().len() && forall|i: int|
            0 <= i < kids@.len() ==> dom_model(#[trigger] kids@[i]) == dom_model(
                *handle,
            ).children()[i],
{
    handle.children.borrow().clone()
}

/// Copies an outside document, from the node `handle` down, into plain data.
fn dom_of(handle: &Rc<Node>) -> (dom: DomNode)
    ensures
        dom@ == dom_model(*handle),
    decreases dom_model(*handle),
{
    let shallow = shallow_node(handle);
    match shallow {
        DomNode::Document { .. } => {
            let children = doms_of(handle);
            let dom = DomNode::Document { children };
            proof {
                lemma_dom_children(&dom);
                assert(dom@.children() =~= dom_model(*handle).children());
            }
            dom
        },
        DomNode::Element { name, attrs, .. } => {
            let children = doms_of(handle);
            let dom = DomNode::Element { name, attrs, children };
            proof {
                lemma_dom_children(&dom);
                assert(dom@.children() =~= dom_model(*handle).children());
            }
            dom
        },
        other => other,
    }
}

/// Copies the children of an outside document or element.
fn doms_of(handle: &Rc<Node>) -> (children: Vec<DomNode>)
    requires
        dom_model(*handle) is Document || dom_model(*handle) is Element,
    ensures
        doms_view(children@) == dom_model(*handle).children(),
    decreases dom_model(*handle).children(),
{
    let handles = child_handles(handle);
    let ghost models = dom_model(*handle).children();
    let mut children: Vec<DomNode> = Vec::new();
    let mut i: usize = 0;
    while i < handles.len()
        invariant
            i <= handles@.len(),
            handles@.len() == models.len(),
            models == dom_model(*handle).children(),
            children@.len() == i,
            forall|j: int| 0 <= j < handles@.len() ==> dom_model(#[trigger] handles@[j]) == models[j],
            forall|j: int| 0 <= j < i ==> (#[trigger] children@[j])@ == models[j],
        decreases handles@.len() - i,
    {
        let child = dom_of(&handles[i]);
        children.push(child);
        i += 1;
    }
    assert(doms_view(children@) =~= models);
    children
}

/// The children of a document or an element; other nodes have none.
fn children_of(node: &DomNode) -> (r: Option<&Vec<DomNode>>)
    ensures
        match r {
            Some(children) => doms_view(children@) == node@.children(),
            None => node@.children().len() == 0,
        },
{
    proof {
        lemma_dom_children(node);
    }
    match node {
        DomNode::Document { children } => Some(children),
        DomNode::Element { children, .. } => Some(children),
        _ => None,
    }
}

/// Whether `node` is an element with the given name.
fn is_named(node: &DomNode, wanted: &str) -> (b: bool)
    ensures
        b == node@.is_named(wanted@),
{
    match node {
        DomNode::Element { name, .. } => *name == String::from_str(wanted),
        _ => false,
    }
}

/// The first element among `nodes`.
fn first_element_of(nodes: &Vec<DomNode>) -> (r: Option<&DomNode>)
    ensures
        match r {
            Some(node) => first_element(doms_view(nodes@)) == Some(node@),
            None => first_element(doms_view(nodes@)) is None,
        },
{
    let ghost models = doms_view(nodes@);
    let ghost f = |i: int| as_element(models[i]);
    let mut i: usize = 0;
    while i < nodes.len()
        invariant
            i <= nodes@.len(),
            models == doms_view(nodes@),
            f == |i: int| as_element(models[i]),
            forall|j: int| 0 <= j < i ==> (#[trigger] f(j)) is None,
        decreases nodes@.len() - i,
    {
        match &nodes[i] {
            DomNode::Element { .. } => {
                proof {
                    lemma_first_some(models.len(), f, i as int);
                }
                return Some(&nodes[i]);
            },
            _ => {},
        }
        i += 1;
    }
    proof {
        lemma_first_none(models.len(), f);
    }
    None
}

/// The first element inside `node`, if `node` is a `body` element.
fn body_content_of(node: &DomNode) -> (r: Option<&DomNode>)
    ensures
        match r {
            Some(found) => body_content(node@) == Some(found@),
            None => body_content(node@) is None,
        },
{
    if is_named(node, "body") {
        match children_of(node) {
            Some(children) => first_element_of(children),
            None => {
                proof {
                    lemma_first_none(0, |i: int| as_element(node@.children()[i]));
                }
                None
            },
        }
    } else {
        None
    }
}

/// The first element inside a `body` inside `node`, if `node` is an `html`
/// element.
fn html_content_of(node: &DomNode) -> (r: Option<&DomNode>)
    ensures
        match r {
            Some(found) => html_content(node@) == Some(found@),
            None => html_content(node@) is None,
        },
{
    if !is_named(node, "html") {
        return None;
    }
    match children_of(node) {
        Some(children) => {
            let ghost models = doms_view(children@);
            let ghost f = |i: int| body_content(models[i]);
            let mut i: usize = 0;
            while i < children.len()
                invariant
                    i <= children@.len(),
                    models == doms_view(children@),
                    models == node@.children(),
                    node@.is_named("html"@),
                    f == |i: int| body_content(models[i]),
                    forall|j: int| 0 <= j < i ==> (#[trigger] f(j)) is None,
                decreases children@.len() - i,
            {
                match body_content_of(&children[i]) {
                    Some(found) => {
                        proof {
                            lemma_first_some(models.len(), f, i as int);
                        }
                        return Some(found);
                    },
                    None => {},
                }
                i += 1;
            }
            proof {
                lemma_first_none(models.len(), f);
            }
            None
        },
        None => {
            proof {
                lemma_first_none(0, |i: int| body_content(node@.children()[i]));
            }
            None
        },
    }
}

/// Picks the node that the tree is built from: the first element of the
/// `body` that the parser wraps fragments in, else the first element of the
/// document, else the document itself.
pub fn find_root(document: &DomNode) -> (root: &DomNode)
    ensures
        root@ == find_root_spec(document@),
{
    match children_of(document) {
        Some(children) => {
            let ghost models = doms_view(children@);
            let ghost f = |i: int| html_content(models[i]);
            let mut i: usize = 0;
            while i < children.len()
                invariant
                    i <= children@.len(),
                    models == doms_view(children@),
                    models == document@.children(),
                    f == |i: int| html_content(models[i]),
                    forall|j: int| 0 <= j < i ==> (#[trigger] f(j)) is None,
                decreases children@.len() - i,
            {
                match html_content_of(&children[i]) {
                    Some(found) => {
                        proof {
                            lemma_first_some(models.len(), f, i as int);
                        }
                        return found;
                    },
                    None => {},
                }
                i += 1;
            }
            proof {
                lemma_first_none(models.len(), f);
            }
            match first_element_of(children) {
                Some(element) => element,
                None => document,
            }
        },
        None => {
            proof {
                lemma_first_none(0, |i: int| html_content(document@.children()[i]));
                lemma_first_none(0, |i: int| as_element(document@.children()[i]));
            }
            document
        },
    }
}

/// The counter never goes back.
pub proof fn lemma_counter_grows(dom: DomModel, next: nat)
    ensures
        vnode_of(dom, next).1 >= next,
    decreases dom, 0nat, 0nat,
{
    match dom {
        DomModel::Element { children, .. } => {
            lemma_children_counter_grows(children, next + 1, children.len());
        },
        DomModel::Document { children } => {
            lemma_document_counter_grows(children, next, 0);
        },
        _ => {},
    }
}

pub proof fn lemma_children_counter_grows(children: Seq<DomModel>, next: nat, n: nat)
    ensures
        element_children(children, next, n).1 >= next,
        n > 0 && n <= children.len() ==> element_children(children, next, n).1
            >= element_children(children, next, (n - 1) as nat).1,
    decreases children, 1nat, n,
{
    if n == 0 || n > children.len() {
    } else {
        lemma_children_counter_grows(children, next, (n - 1) as nat);
        let current = element_children(children, next, (n - 1) as nat).1;
        if !(children[n - 1] is Comment) {
            lemma_counter_grows(children[n - 1], current);
        }
    }
}

pub proof fn lemma_document_counter_grows(children: Seq<DomModel>, next: nat, i: nat)
    ensures
        document_vnode(children, next, i).1 >= next,
    decreases children, 1nat, children.len() - i,
{
    if i < children.len() {
        lemma_counter_grows(children[i as int], next);
        let (child, after) = vnode_of(children[i as int], next);
        if child.is_text() {
            lemma_document_counter_grows(children, after, i + 1);
        }
    }
}

/// The counter after `m` children is no less than after the first `n` of them.
pub proof fn lemma_children_counter_mono(children: Seq<DomModel>, next: nat, n: nat, m: nat)
    requires
        n <= m <= children.len(),
    ensures
        element_children(children, next, n).1 <= element_children(children, next, m).1,
    decreases m - n,
{
    if n < m {
        lemma_children_counter_mono(children, next, n, (m - 1) as nat);
        lemma_children_counter_grows(children, next, m);
    }
}

/// The error for a document with more elements than identities.
fn exhausted() -> (e: DjangoRustError)
    ensures
        e is VdomError,
        e.message() == "Failed to parse HTML: too many elements"@,
{
    DjangoRustError::VdomError(String::from_str("Failed to parse HTML: too many elements"))
}

/// The attributes and the key of an element with the identity `id`.
fn attributes_of(attrs: &Vec<(String, String)>, id: String) -> (r: (AttrMap, Option<String>))
    ensures
        r.0@ == element_attrs(entries_view(attrs@), id@, attrs@.len() as nat),
        opt_view(r.1) == element_key(entries_view(attrs@), attrs@.len() as nat),
{
    let ghost entries = entries_view(attrs@);
    let id_name = String::from_str("data-dj-id");
    let key_name = String::from_str("data-key");
    let mut attributes = AttrMap::new();
    // The identity travels with the element as an attribute.
    attributes.insert(String::from_str("data-dj-id"), id);
    assert(attributes@ =~= element_attrs(entries, id@, 0));
    let mut key: Option<String> = None;
    let mut i: usize = 0;
    while i < attrs.len()
        invariant
            i <= attrs@.len(),
            entries == entries_view(attrs@),
            id_name@ == id_attr(),
            key_name@ == key_attr(),
            attributes@ == element_attrs(entries, id@, i as nat),
            opt_view(key) == element_key(entries, i as nat),
        decreases attrs@.len() - i,
    {
        let name = &attrs[i].0;
        let value = &attrs[i].1;
        assert(entries[i as int] == (name@, value@));
        if *name == key_name && !value.as_str().is_empty() {
            key = Some(value.clone());
        }
        // An identity written in the markup gives way to the one assigned here.
        if !(*name == id_name) {
            attributes.insert(name.clone(), value.clone());
        }
        i += 1;
    }
    (attributes, key)
}

/// Turns a document node into a tree, taking identities from `counter`.
///
/// Fails only where the counter would pass the largest identity.
pub fn handle_to_vnode(dom: &DomNode, counter: &mut u64) -> (r: Result<VNode, DjangoRustError>)
    ensures
        match r {
            Ok(node) => (node@, *final(counter) as nat) == vnode_of(dom@, *old(counter) as nat),
            Err(e) => vnode_of(dom@, *old(counter) as nat).1 > u64::MAX && e is VdomError,
        },
    decreases dom, 0nat,
{
    let ghost start = *counter as nat;
    match dom {
        DomNode::Text { contents } => Ok(VNode::text(contents.as_str())),
        DomNode::Element { name, attrs, children } => {
            proof {
                lemma_dom_children(dom);
                lemma_children_counter_grows(dom@.children(), start + 1, dom@.children().len());
            }
            let id_value = *counter;
            if id_value == u64::MAX {
                return Err(exhausted());
            }
            *counter = id_value + 1;
            let id = to_base62(id_value);
            let (attributes, key) = attributes_of(attrs, id.clone());
            let kids = match children_to_vnodes(children, counter) {
                Ok(kids) => kids,
                Err(e) => {
                    return Err(e);
                },
            };
            let node = VNode {
                tag: name.clone(),
                attrs: attributes,
                children: kids,
                text: None,
                key,
                djust_id: Some(id),
            };
            proof {
                lemma_children_view(&node);
            }
            Ok(node)
        },
        DomNode::Document { children } => {
            proof {
                lemma_dom_children(dom);
            }
            let ghost models = doms_view(children@);
            let mut i: usize = 0;
            while i < children.len()
                invariant
                    i <= children@.len(),
                    models == doms_view(children@),
                    *dom == (DomNode::Document { children: *children }),
                    dom@ == (DomModel::Document { children: models }),
                    start == *old(counter) as nat,
                    document_vnode(models, start, 0) == document_vnode(
                        models,
                        *counter as nat,
                        i as nat,
                    ),
                decreases children@.len() - i,
            {
                let ghost before = *counter as nat;
                proof {
                    lemma_counter_grows(models[i as int], before);
                    let (child, after) = vnode_of(models[i as int], before);
                    if child.is_text() {
                        lemma_document_counter_grows(models, after, (i + 1) as nat);
                    }
                }
                match handle_to_vnode(&children[i], counter) {
                    Ok(node) => {
                        if !node.is_text() {
                            return Ok(node);
                        }
                    },
                    Err(e) => {
                        return Err(e);
                    },
                }
                i += 1;
            }
            Ok(VNode::element("div"))
        },
        _ => Ok(VNode::element("div")),
    }
}

/// Turns the children of an element into nodes; comments and blank text are
/// left out.
fn children_to_vnodes(children: &Vec<DomNode>, counter: &mut u64) -> (r: Result<
    Vec<VNode>,
    DjangoRustError,
>)
    ensures
        match r {
            Ok(kids) => (nodes_view(kids@), *final(counter) as nat) == element_children(
                doms_view(children@),
                *old(counter) as nat,
                children@.len() as nat,
            ),
            Err(e) => element_children(
                doms_view(children@),
                *old(counter) as nat,
                children@.len() as nat,
            ).1 > u64::MAX && e is VdomError,
        },
    decreases children, 1nat,
{
    let ghost start = *counter as nat;
    let ghost models = doms_view(children@);
    let mut kids: Vec<VNode> = Vec::new();
    let mut i: usize = 0;
    assert(nodes_view(kids@) =~= element_children(models, start, 0).0);
    while i < children.len()
        invariant
            i <= children@.len(),
            models == doms_view(children@),
            start == *old(counter) as nat,
            (nodes_view(kids@), *counter as nat) == element_children(models, start, i as nat),
        decreases children@.len() - i,
    {
        let ghost before = nodes_view(kids@);
        proof {
            lemma_children_counter_mono(models, start, (i + 1) as nat, children@.len() as nat);
        }
        match &children[i] {
            DomNode::Comment => {},
            child => {
                let node = match handle_to_vnode(child, counter) {
                    Ok(node) => node,
                    Err(e) => {
                        return Err(e);
                    },
                };
                let keep = if node.is_text() {
                    match &node.text {
                        Some(text) => !is_blank(text.as_str()),
                        None => false,
                    }
                } else {
                    true
                };
                if keep {
                    kids.push(node);
                    assert(nodes_view(kids@) =~= before.push(node@));
                }
            },
        }
        i += 1;
    }
    Ok(kids)
}

/// Builds the tree for a parsed document: picks its root and gives the
/// elements below it their identities, counted from zero.
pub fn vnode_of_document(document: &DomNode) -> (r: Result<VNode, DjangoRustError>)
    ensures
        match r {
            Ok(node) => node@ == vnode_of(find_root_spec(document@), 0).0 && vnode_of(
                find_root_spec(document@),
                0,
            ).1 <= u64::MAX,
            Err(e) => vnode_of(find_root_spec(document@), 0).1 > u64::MAX && e is VdomError,
        },
{
    let mut counter: u64 = 0;
    let root = find_root(document);
    handle_to_vnode(root, &mut counter)
}

/// Parses HTML into a tree in which every element carries an identity.
///
/// The document is the one that `html5ever` builds from the string; the tree
/// is what `vnode_of_document` makes of it. Markup that is merely malformed
/// is parsed permissively; the error is for input that gives no document.
pub fn parse_html(html: &str) -> (r: Result<VNode, DjangoRustError>)
    ensures
        match parsed_document(html@) {
            Some(document) => match r {
                Ok(node) => node@ == vnode_of(find_root_spec(document), 0).0 && vnode_of(
                    find_root_spec(document),
                    0,
                ).1 <= u64::MAX,
                Err(e) => vnode_of(find_root_spec(document), 0).1 > u64::MAX && e is VdomError,
            },
            None => r is Err && r->Err_0 is VdomError,
        },
{
    match parse_document_root(html) {
        Ok(handle) => {
            let document = dom_of(&handle);
            vnode_of_document(&document)
        },
        Err(message) => Err(
            DjangoRustError::VdomError(
                String::from_str("Failed to parse HTML: ").concat(message.as_str()),
            ),
        ),
    }
}

} // verus!
