//! The syntax tree of a template.

use vstd::prelude::*;

verus! {

/// A pair of strings, as plain mathematical data.
pub type PairModel = (Seq<char>, Seq<char>);

/// A filter with its optional argument, as plain mathematical data.
pub type FilterModel = (Seq<char>, Option<Seq<char>>);

/// What a node of the syntax tree is, as plain mathematical data.
pub enum AstModel {
    Text(Seq<char>),
    Variable(Seq<char>, Seq<FilterModel>),
    Block { name: Seq<char>, nodes: Seq<AstModel> },
    If { condition: Seq<char>, true_nodes: Seq<AstModel>, false_nodes: Seq<AstModel> },
    For {
        var_names: Seq<Seq<char>>,
        iterable: Seq<char>,
        reversed: bool,
        nodes: Seq<AstModel>,
        empty_nodes: Seq<AstModel>,
    },
    With { assignments: Seq<PairModel>, nodes: Seq<AstModel> },
    Comment,
    Extends(Seq<char>),
    Include { template: Seq<char>, with_vars: Seq<PairModel>, only: bool },
    CsrfToken,
    Static(Seq<char>),
    ReactComponent { name: Seq<char>, props: Seq<PairModel>, children: Seq<AstModel> },
    RustComponent { name: Seq<char>, props: Seq<PairModel> },
    CustomTag { name: Seq<char>, args: Seq<Seq<char>> },
}

/// A node of the syntax tree of a template.
#[derive(Debug, PartialEq)]
pub enum TemplateNode {
    /// Literal text.
    Text(String),
    /// `{{ name|filter:"arg" }}`: a variable and its filters.
    Variable(String, Vec<(String, Option<String>)>),
    /// `{% block name %}...{% endblock %}`.
    Block { name: String, nodes: Vec<TemplateNode> },
    /// `{% if condition %}...{% else %}...{% endif %}`.
    If { condition: String, true_nodes: Vec<TemplateNode>, false_nodes: Vec<TemplateNode> },
    /// `{% for a, b in iterable %}...{% empty %}...{% endfor %}`.
    For {
        var_names: Vec<String>,
        iterable: String,
        reversed: bool,
        nodes: Vec<TemplateNode>,
        empty_nodes: Vec<TemplateNode>,
    },
    /// `{% with a=b %}...{% endwith %}`.
    With { assignments: Vec<(String, String)>, nodes: Vec<TemplateNode> },
    /// `{# ... #}`.
    Comment,
    /// `{% extends "parent" %}`.
    Extends(String),
    /// `{% include "template" with a=b only %}`.
    Include { template: String, with_vars: Vec<(String, String)>, only: bool },
    /// `{% csrf_token %}`.
    CsrfToken,
    /// `{% static "path" %}`.
    Static(String),
    /// A component rendered on the client.
    ReactComponent { name: String, props: Vec<(String, String)>, children: Vec<TemplateNode> },
    /// A component rendered on the server.
    RustComponent { name: String, props: Vec<(String, String)> },
    /// A tag that a registered handler renders.
    CustomTag { name: String, args: Vec<String> },
}

/// The models of a list of strings.
pub open spec fn strings_view(strings: Seq<String>) -> Seq<Seq<char>> {
    Seq::new(strings.len(), |i: int| strings[i]@)
}

/// The models of a list of pairs of strings.
pub open spec fn pairs_view(pairs: Seq<(String, String)>) -> Seq<PairModel> {
    Seq::new(pairs.len(), |i: int| (pairs[i].0@, pairs[i].1@))
}

/// The model of a filter.
pub open spec fn filter_view(filter: (String, Option<String>)) -> FilterModel {
    (
        filter.0@,
        match filter.1 {
            Some(arg) => Some(arg@),
            None => None,
        },
    )
}

/// The models of a list of filters.
pub open spec fn filters_view(filters: Seq<(String, Option<String>)>) -> Seq<FilterModel> {
    Seq::new(filters.len(), |i: int| filter_view(filters[i]))
}

/// The model of a node.
pub open spec fn ast_view(node: TemplateNode) -> AstModel
    decreases node, 0nat,
{
    match node {
        TemplateNode::Text(text) => AstModel::Text(text@),
        TemplateNode::Variable(name, filters) => AstModel::Variable(name@, filters_view(filters@)),
        TemplateNode::Block { name, nodes } => AstModel::Block { name: name@, nodes: asts_view(nodes) },
        TemplateNode::If { condition, true_nodes, false_nodes } => AstModel::If {
            condition: condition@,
            true_nodes: asts_view(true_nodes),
            false_nodes: asts_view(false_nodes),
        },
        TemplateNode::For { var_names, iterable, reversed, nodes, empty_nodes } => AstModel::For {
            var_names: strings_view(var_names@),
            iterable: iterable@,
            reversed,
            nodes: asts_view(nodes),
            empty_nodes: asts_view(empty_nodes),
        },
        TemplateNode::With { assignments, nodes } => AstModel::With {
            assignments: pairs_view(assignments@),
            nodes: asts_view(nodes),
        },
        TemplateNode::Comment => AstModel::Comment,
        TemplateNode::Extends(parent) => AstModel::Extends(parent@),
        TemplateNode::Include { template, with_vars, only } => AstModel::Include {
            template: template@,
            with_vars: pairs_view(with_vars@),
            only,
        },
        TemplateNode::CsrfToken => AstModel::CsrfToken,
        TemplateNode::Static(path) => AstModel::Static(path@),
        TemplateNode::ReactComponent { name, props, children } => AstModel::ReactComponent {
            name: name@,
            props: pairs_view(props@),
            children: asts_view(children),
        },
        TemplateNode::RustComponent { name, props } => AstModel::RustComponent {
            name: name@,
            props: pairs_view(props@),
        },
        TemplateNode::CustomTag { name, args } => AstModel::CustomTag {
            name: name@,
            args: strings_view(args@),
        },
    }
}

/// The models of a list of nodes.
pub open spec fn asts_view(nodes: Vec<TemplateNode>) -> Seq<AstModel>
    decreases nodes, 1nat,
{
    Seq::new(
        nodes@.len(),
        |i: int|
            if 0 <= i < nodes@.len() {
                ast_view(nodes@[i])
            } else {
                arbitrary()
            },
    )
}

impl View for TemplateNode {
    type V = AstModel;

    open spec fn view(&self) -> AstModel {
        ast_view(*self)
    }
}

/// The models of a list of nodes are the models of each, in order.
pub proof fn lemma_asts_view(nodes: Vec<TemplateNode>)
    ensures
        asts_view(nodes).len() == nodes@.len(),
        forall|i: int| 0 <= i < nodes@.len() ==> (#[trigger] asts_view(nodes)[i]) == nodes@[i]@,
{
}

/// Copies a list of strings.
pub fn clone_strings(strings: &Vec<String>) -> (r: Vec<String>)
    ensures
        strings_view(r@) == strings_view(strings@),
{
    let mut r: Vec<String> = Vec::new();
    let mut i: usize = 0;
    while i < strings.len()
        invariant
            i <= strings@.len(),
            r@.len() == i,
            forall|j: int| 0 <= j < i ==> (#[trigger] r@[j])@ == strings@[j]@,
        decreases strings@.len() - i,
    {
        r.push(strings[i].clone());
        i += 1;
    }
    assert(strings_view(r@) =~= strings_view(strings@));
    r
}

/// Copies a list of pairs of strings.
pub fn clone_pairs(pairs: &Vec<(String, String)>) -> (r: Vec<(String, String)>)
    ensures
        pairs_view(r@) == pairs_view(pairs@),
{
    let mut r: Vec<(String, String)> = Vec::new();
    let mut i: usize = 0;
    while i < pairs.len()
        invariant
            i <= pairs@.len(),
            r@.len() == i,
            forall|j: int|
                0 <= j < i ==> (#[trigger] r@[j]).0@ == pairs@[j].0@ && r@[j].1@ == pairs@[j].1@,
        decreases pairs@.len() - i,
    {
        r.push((pairs[i].0.clone(), pairs[i].1.clone()));
        i += 1;
    }
    assert(pairs_view(r@) =~= pairs_view(pairs@));
    r
}

/// Copies a list of filters.
pub fn clone_filters(filters: &Vec<(String, Option<String>)>) -> (r: Vec<
    (String, Option<String>),
>)
    ensures
        filters_view(r@) == filters_view(filters@),
{
    let mut r: Vec<(String, Option<String>)> = Vec::new();
    let mut i: usize = 0;
    while i < filters.len()
        invariant
            i <= filters@.len(),
            r@.len() == i,
            forall|j: int| 0 <= j < i ==> filter_view(#[trigger] r@[j]) == filter_view(filters@[j]),
        decreases filters@.len() - i,
    {
        let arg = match &filters[i].1 {
            Some(a) => Some(a.clone()),
            None => None,
        };
        r.push((filters[i].0.clone(), arg));
        i += 1;
    }
    assert(filters_view(r@) =~= filters_view(filters@));
    r
}

/// Copies a list of nodes.
pub fn clone_nodes(nodes: &Vec<TemplateNode>) -> (r: Vec<TemplateNode>)
    ensures
        asts_view(r) == asts_view(*nodes),
    decreases nodes, 1nat,
{
    let mut r: Vec<TemplateNode> = Vec::new();
    let mut i: usize = 0;
    while i < nodes.len()
        invariant
            i <= nodes@.len(),
            r@.len() == i,
            forall|j: int| 0 <= j < i ==> (#[trigger] r@[j])@ == nodes@[j]@,
        decreases nodes@.len() - i,
    {
        let node = nodes[i].clone();
        r.push(node);
        i += 1;
    }
    assert(asts_view(r) =~= asts_view(*nodes));
    r
}

impl Clone for TemplateNode {
    fn clone(&self) -> (r: Self)
        ensures
            r@ == self@,
        decreases self, 0nat,
    {
        match self {
            TemplateNode::Text(text) => TemplateNode::Text(text.clone()),
            TemplateNode::Variable(name, filters) => TemplateNode::Variable(name.clone(), clone_filters(filters)),
            TemplateNode::Block { name, nodes } => TemplateNode::Block {
                name: name.clone(),
                nodes: clone_nodes(nodes),
            },
            TemplateNode::If { condition, true_nodes, false_nodes } => TemplateNode::If {
                condition: condition.clone(),
                true_nodes: clone_nodes(true_nodes),
                false_nodes: clone_nodes(false_nodes),
            },
            TemplateNode::For { var_names, iterable, reversed, nodes, empty_nodes } => TemplateNode::For {
                var_names: clone_strings(var_names),
                iterable: iterable.clone(),
                reversed: *reversed,
                nodes: clone_nodes(nodes),
                empty_nodes: clone_nodes(empty_nodes),
            },
            TemplateNode::With { assignments, nodes } => TemplateNode::With {
                assignments: clone_pairs(assignments),
                nodes: clone_nodes(nodes),
            },
            TemplateNode::Comment => TemplateNode::Comment,
            TemplateNode::Extends(parent) => TemplateNode::Extends(parent.clone()),
            TemplateNode::Include { template, with_vars, only } => TemplateNode::Include {
                template: template.clone(),
                with_vars: clone_pairs(with_vars),
                only: *only,
            },
            TemplateNode::CsrfToken => TemplateNode::CsrfToken,
            TemplateNode::Static(path) => TemplateNode::Static(path.clone()),
            TemplateNode::ReactComponent { name, props, children } => TemplateNode::ReactComponent {
                name: name.clone(),
                props: clone_pairs(props),
                children: clone_nodes(children),
            },
            TemplateNode::RustComponent { name, props } => TemplateNode::RustComponent {
                name: name.clone(),
                props: clone_pairs(props),
            },
            TemplateNode::CustomTag { name, args } => TemplateNode::CustomTag {
                name: name.clone(),
                args: clone_strings(args),
            },
        }
    }
}

} // verus!
