//! Template inheritance: `{% extends %}` and `{% block %}`.
//!
//! A chain of templates runs from a child through its parents to the root
//! template. The blocks of all of them are merged, a child's block taking
//! the place of its parent's, and the root template is rendered with the
//! merged blocks in place of its own.

use crate::errors::DjangoRustError;
use crate::templates::blocks::{BlockMap, BlockModel};
use crate::templates::parser::{
    asts_view, clone_nodes, clone_pairs, clone_strings, filter_view, filters_view,
    lemma_asts_view, pairs_view, strings_view, AstModel, FilterModel, PairModel, TemplateNode,
};
use crate::text::{decimal, to_decimal};
use crate::vdom::attrs::{has_key, value_of, with_entry};
use std::path::PathBuf;
use vstd::prelude::*;
use vstd::string::*;

verus! {

/// What one template of a chain is, as plain mathematical data.
pub struct LayerModel {
    pub nodes: Seq<AstModel>,
    pub blocks: Seq<BlockModel>,
}

/// What a chain is, as plain mathematical data.
pub struct ChainModel {
    pub layers: Seq<LayerModel>,
    pub merged_blocks: Seq<BlockModel>,
    pub parent_blocks: Seq<BlockModel>,
}

/// The blocks after those of `node` and of all that is below it are added
/// to `blocks`. A later block of the same name takes the place of an earlier
/// one. Blocks are looked for inside blocks, both branches of `if`, the body
/// of `for` and the body of `with`.
pub open spec fn collect_node(blocks: Seq<BlockModel>, node: AstModel) -> Seq<BlockModel>
    decreases node, 0nat,
{
    match node {
        AstModel::Block { name, nodes } => collect_nodes(
            with_entry(blocks, name, nodes),
            nodes,
            nodes.len(),
        ),
        AstModel::If { true_nodes, false_nodes, .. } => collect_nodes(
            collect_nodes(blocks, true_nodes, true_nodes.len()),
            false_nodes,
            false_nodes.len(),
        ),
        AstModel::For { nodes, .. } => collect_nodes(blocks, nodes, nodes.len()),
        AstModel::With { nodes, .. } => collect_nodes(blocks, nodes, nodes.len()),
        _ => blocks,
    }
}

/// The blocks after those of the first `n` of `nodes` are added to `blocks`.
pub open spec fn collect_nodes(blocks: Seq<BlockModel>, nodes: Seq<AstModel>, n: nat) -> Seq<
    BlockModel,
>
    decreases nodes, n,
{
    if n == 0 || n > nodes.len() {
        blocks
    } else {
        collect_node(collect_nodes(blocks, nodes, (n - 1) as nat), nodes[n - 1])
    }
}

/// All the blocks of a template, by name.
pub open spec fn extract_blocks_spec(nodes: Seq<AstModel>) -> Seq<BlockModel> {
    collect_nodes(Seq::empty(), nodes, nodes.len())
}

/// The layer that a template makes.
pub open spec fn layer_of(nodes: Seq<AstModel>) -> LayerModel {
    LayerModel { nodes, blocks: extract_blocks_spec(nodes) }
}

/// Some node is an `extends`.
pub open spec fn has_extends(nodes: Seq<AstModel>) -> bool {
    exists|i: int| 0 <= i < nodes.len() && (#[trigger] nodes[i]) is Extends
}

/// The position of the first `extends` among the nodes.
pub open spec fn extends_index(nodes: Seq<AstModel>) -> int {
    choose|i: int|
        0 <= i < nodes.len() && (#[trigger] nodes[i]) is Extends && forall|j: int|
            0 <= j < i ==> !((#[trigger] nodes[j]) is Extends)
}

/// The parent that a template names: that of its first `extends`.
pub open spec fn first_extends(nodes: Seq<AstModel>) -> Option<Seq<char>> {
    if has_extends(nodes) {
        Some(nodes[extends_index(nodes)]->Extends_0)
    } else {
        None
    }
}

/// The merged blocks and the parent blocks after one more block is merged:
/// it takes its name among the merged blocks, and what stood there before is
/// kept among the parent blocks.
pub open spec fn merge_block(state: (Seq<BlockModel>, Seq<BlockModel>), block: BlockModel) -> (
    Seq<BlockModel>,
    Seq<BlockModel>,
) {
    (
        with_entry(state.0, block.0, block.1),
        if has_key(state.0, block.0) {
            with_entry(state.1, block.0, value_of(state.0, block.0))
        } else {
            state.1
        },
    )
}

/// The state after the first `n` blocks of a layer are merged.
pub open spec fn merge_layer(
    state: (Seq<BlockModel>, Seq<BlockModel>),
    blocks: Seq<BlockModel>,
    n: nat,
) -> (Seq<BlockModel>, Seq<BlockModel>)
    decreases n,
{
    if n == 0 {
        state
    } else {
        merge_block(merge_layer(state, blocks, (n - 1) as nat), blocks[n - 1])
    }
}

/// The merged blocks and the parent blocks of the last `k` layers, merged
/// from the root towards the child.
pub open spec fn merge_layers(layers: Seq<LayerModel>, k: nat) -> (
    Seq<BlockModel>,
    Seq<BlockModel>,
)
    decreases k,
{
    if k == 0 || k > layers.len() {
        (Seq::empty(), Seq::empty())
    } else {
        merge_layer(
            merge_layers(layers, (k - 1) as nat),
            layers[layers.len() - k].blocks,
            layers[layers.len() - k].blocks.len(),
        )
    }
}

/// A node with the merged blocks in place of its own: a block takes the
/// merged content of its name, where there is one; `if`, `for` and `with`
/// are gone through; an `extends` becomes a comment.
pub open spec fn override_node(merged: Seq<BlockModel>, node: AstModel) -> AstModel
    decreases node, 0nat,
{
    match node {
        AstModel::Block { name, nodes } => if has_key(merged, name) {
            AstModel::Block { name, nodes: value_of(merged, name) }
        } else {
            node
        },
        AstModel::If { condition, true_nodes, false_nodes } => AstModel::If {
            condition,
            true_nodes: override_nodes(merged, true_nodes),
            false_nodes: override_nodes(merged, false_nodes),
        },
        AstModel::For { var_names, iterable, reversed, nodes, empty_nodes } => AstModel::For {
            var_names,
            iterable,
            reversed,
            nodes: override_nodes(merged, nodes),
            empty_nodes: override_nodes(merged, empty_nodes),
        },
        AstModel::With { assignments, nodes } => AstModel::With {
            assignments,
            nodes: override_nodes(merged, nodes),
        },
        AstModel::Extends(_) => AstModel::Comment,
        _ => node,
    }
}

/// Each of the nodes with the merged blocks in place of its own.
pub open spec fn override_nodes(merged: Seq<BlockModel>, nodes: Seq<AstModel>) -> Seq<AstModel>
    decreases nodes, 1nat,
{
    Seq::new(
        nodes.len(),
        |i: int|
            if 0 <= i < nodes.len() {
                override_node(merged, nodes[i])
            } else {
                arbitrary()
            },
    )
}

/// One template of an inheritance chain: its nodes and its blocks by name.
#[derive(Debug)]
pub struct TemplateLayer {
    pub nodes: Vec<TemplateNode>,
    pub blocks: BlockMap,
}

impl View for TemplateLayer {
    type V = LayerModel;

    open spec fn view(&self) -> LayerModel {
        LayerModel { nodes: asts_view(self.nodes), blocks: self.blocks@ }
    }
}

impl Clone for TemplateLayer {
    fn clone(&self) -> (r: Self)
        ensures
            r@ == self@,
    {
        TemplateLayer { nodes: clone_nodes(&self.nodes), blocks: self.blocks.clone() }
    }
}

/// A complete chain of templates from the child to the root parent.
#[derive(Debug)]
pub struct InheritanceChain {
    /// The templates: the child first, the root parent last.
    pub layers: Vec<TemplateLayer>,
    /// For each block name, the content that is rendered.
    pub merged_blocks: BlockMap,
    /// For each block name that a child overrides, the content it replaced.
    pub parent_blocks: BlockMap,
}

/// The models of a sequence of layers.
pub open spec fn layers_view(layers: Seq<TemplateLayer>) -> Seq<LayerModel> {
    Seq::new(layers.len(), |i: int| layers[i]@)
}

impl View for InheritanceChain {
    type V = ChainModel;

    open spec fn view(&self) -> ChainModel {
        ChainModel {
            layers: layers_view(self.layers@),
            merged_blocks: self.merged_blocks@,
            parent_blocks: self.parent_blocks@,
        }
    }
}

/// Adds the blocks of `node` and of all that is below it to `blocks`.
fn extract_blocks_recursive(node: &TemplateNode, blocks: &mut BlockMap)
    ensures
        final(blocks)@ == collect_node(old(blocks)@, node@),
    decreases node, 0nat,
{
    match node {
        TemplateNode::Block { name, nodes } => {
            blocks.insert(name.clone(), clone_nodes(nodes));
            // Blocks may be nested in blocks.
            extract_from(nodes, blocks);
        },
        TemplateNode::If { true_nodes, false_nodes, .. } => {
            extract_from(true_nodes, blocks);
            extract_from(false_nodes, blocks);
        },
        TemplateNode::For { nodes, .. } => {
            extract_from(nodes, blocks);
        },
        TemplateNode::With { nodes, .. } => {
            extract_from(nodes, blocks);
        },
        _ => {},
    }
}

/// Adds the blocks of each of `nodes` to `blocks`.
fn extract_from(nodes: &Vec<TemplateNode>, blocks: &mut BlockMap)
    ensures
        final(blocks)@ == collect_nodes(old(blocks)@, asts_view(*nodes), nodes@.len() as nat),
    decreases nodes, 1nat,
{
    let ghost start = blocks@;
    let ghost models = asts_view(*nodes);
    let mut i: usize = 0;
    while i < nodes.len()
        invariant
            i <= nodes@.len(),
            models == asts_view(*nodes),
            blocks@ == collect_nodes(start, models, i as nat),
        decreases nodes@.len() - i,
    {
        proof {
            lemma_asts_view(*nodes);
        }
        extract_blocks_recursive(&nodes[i], blocks);
        i += 1;
    }
}

/// Extracts all `{% block %}` tags from the nodes and maps them by name.
pub fn extract_blocks(nodes: &Vec<TemplateNode>) -> (blocks: BlockMap)
    ensures
        blocks@ == extract_blocks_spec(asts_view(*nodes)),
{
    let mut blocks = BlockMap::new();
    extract_from(nodes, &mut blocks);
    blocks
}

/// Trait for loading parent templates by name.
pub trait TemplateLoader {
    fn load_template(&self, name: &str) -> Result<Vec<TemplateNode>, DjangoRustError>;
}

impl InheritanceChain {
    /// A chain that holds the one template `nodes`.
    pub fn new(nodes: Vec<TemplateNode>) -> (chain: Self)
        ensures
            chain@ == (ChainModel {
                layers: seq![layer_of(asts_view(nodes))],
                merged_blocks: Seq::empty(),
                parent_blocks: Seq::empty(),
            }),
    {
        let blocks = extract_blocks(&nodes);
        let layer = TemplateLayer { nodes, blocks };
        let mut layers: Vec<TemplateLayer> = Vec::new();
        layers.push(layer);
        let chain = InheritanceChain {
            layers,
            merged_blocks: BlockMap::new(),
            parent_blocks: BlockMap::new(),
        };
        assert(chain@.layers =~= seq![layer_of(asts_view(nodes))]);
        chain
    }

    /// The parent that the last template of the chain extends, if it
    /// extends one.
    pub fn uses_extends(&self) -> (r: Option<&str>)
        ensures
            self.layers@.len() == 0 ==> r is None,
            self.layers@.len() > 0 ==> match r {
                Some(parent) => first_extends(self@.layers.last().nodes) == Some(parent@),
                None => first_extends(self@.layers.last().nodes) is None,
            },
    {
        if self.layers.len() == 0 {
            return None;
        }
        let last = &self.layers[self.layers.len() - 1];
        let ghost models = asts_view(last.nodes);
        assert(self@.layers.last().nodes == models);
        let mut i: usize = 0;
        while i < last.nodes.len()
            invariant
                i <= last.nodes@.len(),
                self.layers@.len() > 0,
                self@.layers.last().nodes == models,
                models == asts_view(last.nodes),
                forall|j: int| 0 <= j < i ==> !((#[trigger] models[j]) is Extends),
            decreases last.nodes@.len() - i,
        {
            proof {
                lemma_asts_view(last.nodes);
            }
            match &last.nodes[i] {
                TemplateNode::Extends(parent) => {
                    proof {
                        assert(models[i as int] is Extends);
                        let c = extends_index(models);
                        if c < i {
                            assert(!(models[c] is Extends));
                        }
                    }
                    return Some(parent.as_str());
                },
                _ => {},
            }
            i += 1;
        }
        None
    }

    /// Adds a parent template to the end of the chain.
    pub fn add_parent(&mut self, parent_nodes: Vec<TemplateNode>)
        ensures
            final(self)@ == (ChainModel {
                layers: old(self)@.layers.push(layer_of(asts_view(parent_nodes))),
                ..old(self)@
            }),
    {
        let blocks = extract_blocks(&parent_nodes);
        let parent_layer = TemplateLayer { nodes: parent_nodes, blocks };
        self.layers.push(parent_layer);
        assert(self@.layers =~= old(self)@.layers.push(layer_of(asts_view(parent_nodes))));
    }

    /// Merges the blocks of all the templates, from the root towards the
    /// child, so that a child's block overrides its parent's.
    pub fn merge_blocks(&mut self)
        ensures
            final(self)@.layers == old(self)@.layers,
            (final(self)@.merged_blocks, final(self)@.parent_blocks) == merge_layers(
                old(self)@.layers,
                old(self)@.layers.len(),
            ),
    {
        let mut merged = BlockMap::new();
        let mut parents = BlockMap::new();
        let ghost layers = self@.layers;
        let count = self.layers.len();
        let mut k: usize = 0;
        while k < count
            invariant
                k <= count == self.layers@.len(),
                layers == layers_view(self.layers@),
                (merged@, parents@) == merge_layers(layers, k as nat),
            decreases count - k,
        {
            let layer = &self.layers[count - 1 - k];
            let ghost blocks = layer.blocks@;
            assert(layers[layers.len() - (k + 1)].blocks == blocks);
            let ghost start = (merged@, parents@);
            let n = layer.blocks.len();
            let mut i: usize = 0;
            while i < n
                invariant
                    i <= n == blocks.len(),
                    blocks == layer.blocks@,
                    (merged@, parents@) == merge_layer(start, blocks, i as nat),
                decreases n - i,
            {
                let name = layer.blocks.key_at(i);
                let nodes = layer.blocks.nodes_at(i);
                // What the block replaces is kept as the parent's content.
                match merged.get(name.as_str()) {
                    Some(existing) => {
                        let existing = clone_nodes(existing);
                        parents.insert(name.clone(), existing);
                    },
                    None => {},
                }
                merged.insert(name.clone(), clone_nodes(nodes));
                i += 1;
            }
            k += 1;
        }
        self.merged_blocks = merged;
        self.parent_blocks = parents;
    }

    /// The nodes of the root template: the last of the chain.
    pub fn get_root_nodes(&self) -> (nodes: &Vec<TemplateNode>)
        requires
            self.layers@.len() > 0,
        ensures
            asts_view(*nodes) == self@.layers.last().nodes,
    {
        &self.layers[self.layers.len() - 1].nodes
    }

    /// The nodes with the merged blocks in place of their own.
    pub fn apply_block_overrides(&self, nodes: &Vec<TemplateNode>) -> (r: Vec<TemplateNode>)
        ensures
            asts_view(r) == override_nodes(self@.merged_blocks, asts_view(*nodes)),
        decreases nodes, 1nat,
    {
        let ghost models = asts_view(*nodes);
        let ghost merged = self@.merged_blocks;
        let mut r: Vec<TemplateNode> = Vec::new();
        let mut i: usize = 0;
        while i < nodes.len()
            invariant
                i <= nodes@.len(),
                r@.len() == i,
                models == asts_view(*nodes),
                merged == self@.merged_blocks,
                forall|j: int| 0 <= j < i ==> (#[trigger] r@[j])@ == override_node(merged, models[j]),
            decreases nodes@.len() - i,
        {
            proof {
                lemma_asts_view(*nodes);
            }
            let node = self.apply_override_to_node(&nodes[i]);
            r.push(node);
            i += 1;
        }
        assert(asts_view(r) =~= override_nodes(merged, models));
        r
    }

    fn apply_override_to_node(&self, node: &TemplateNode) -> (r: TemplateNode)
        ensures
            r@ == override_node(self@.merged_blocks, node@),
        decreases node, 0nat,
    {
        match node {
            TemplateNode::Block { name, nodes: _ } => {
                match self.merged_blocks.get(name.as_str()) {
                    Some(merged_nodes) => TemplateNode::Block {
                        name: name.clone(),
                        nodes: clone_nodes(merged_nodes),
                    },
                    None => node.clone(),
                }
            },
            TemplateNode::If { condition, true_nodes, false_nodes } => TemplateNode::If {
                condition: condition.clone(),
                true_nodes: self.apply_block_overrides(true_nodes),
                false_nodes: self.apply_block_overrides(false_nodes),
            },
            TemplateNode::For { var_names, iterable, reversed, nodes, empty_nodes } => {
                TemplateNode::For {
                    var_names: clone_strings(var_names),
                    iterable: iterable.clone(),
                    reversed: *reversed,
                    nodes: self.apply_block_overrides(nodes),
                    empty_nodes: self.apply_block_overrides(empty_nodes),
                }
            },
            TemplateNode::With { assignments, nodes } => TemplateNode::With {
                assignments: clone_pairs(assignments),
                nodes: self.apply_block_overrides(nodes),
            },
            // An `extends` has done its work by now.
            TemplateNode::Extends(_) => TemplateNode::Comment,
            _ => node.clone(),
        }
    }
}

/// Whether `e` is the error for a chain that is longer than `max_depth`.
pub open spec fn is_depth_limit_error(e: DjangoRustError, max_depth: usize) -> bool {
    &&& e is TemplateError
    &&& e.message() == "Template inheritance depth limit ("@ + decimal(max_depth as nat)
        + ") exceeded - possible circular inheritance"@
}

/// The error for a chain that is longer than allowed.
pub fn depth_limit_error(max_depth: usize) -> (e: DjangoRustError)
    ensures
        is_depth_limit_error(e, max_depth),
{
    let mut message = String::from_str("Template inheritance depth limit (");
    message.append(to_decimal(max_depth).as_str());
    message.append(") exceeded - possible circular inheritance");
    DjangoRustError::TemplateError(message)
}

/// Builds the complete inheritance chain of a template by loading its
/// parents one after the other, at most `max_depth` templates in all.
///
/// Whether a parent can be loaded, and what it holds, is for the loader to
/// say; an error of the loader is returned as it is. A chain that comes back
/// starts with the given template; each of its templates but the last
/// extends something, and the last extends nothing; its blocks are merged.
/// A chain that would need `max_depth` parents or more is an error.
pub fn build_inheritance_chain<L: TemplateLoader>(
    nodes: Vec<TemplateNode>,
    loader: &L,
    max_depth: usize,
) -> (r: Result<InheritanceChain, DjangoRustError>)
    ensures
        match r {
            Ok(chain) => {
                let layers = chain@.layers;
                &&& 1 <= layers.len() <= max_depth
                &&& layers[0] == layer_of(asts_view(nodes))
                &&& forall|i: int|
                    0 <= i < layers.len() - 1 ==> first_extends((#[trigger] layers[i]).nodes)
                        is Some
                &&& first_extends(layers.last().nodes) is None
                &&& forall|i: int|
                    0 <= i < layers.len() ==> (#[trigger] layers[i]) == layer_of(layers[i].nodes)
                &&& (chain@.merged_blocks, chain@.parent_blocks) == merge_layers(
                    layers,
                    layers.len(),
                )
            },
            Err(_) => true,
        },
        max_depth == 0 ==> r is Err && is_depth_limit_error(r->Err_0, max_depth),
        max_depth > 0 && first_extends(asts_view(nodes)) is None ==> r is Ok,
{
    let mut chain = InheritanceChain::new(nodes);
    let mut depth: usize = 0;
    let ghost first = layer_of(asts_view(nodes));
    let mut done = false;
    while depth < max_depth && !done
        invariant
            depth <= max_depth,
            chain@.layers.len() == depth + 1,
            first == layer_of(asts_view(nodes)),
            chain@.layers[0] == first,
            forall|i: int|
                0 <= i < chain@.layers.len() - 1 ==> first_extends(
                    (#[trigger] chain@.layers[i]).nodes,
                ) is Some,
            forall|i: int|
                0 <= i < chain@.layers.len() ==> (#[trigger] chain@.layers[i]) == layer_of(
                    chain@.layers[i].nodes,
                ),
            done ==> first_extends(chain@.layers.last().nodes) is None && depth < max_depth,
            depth == 0 || first_extends(first.nodes) is Some,
        decreases max_depth - depth, if done { 0nat } else { 1nat },
    {
        let ghost before = chain@.layers;
        match chain.uses_extends() {
            Some(parent_name) => {
                assert(chain@.layers.last() == chain@.layers[depth as int]);
                assert(first_extends(first.nodes) is Some);
                let parent_name = String::from_str(parent_name);
                let parent_nodes = match loader.load_template(parent_name.as_str()) {
                    Ok(parent_nodes) => parent_nodes,
                    Err(e) => {
                        return Err(e);
                    },
                };
                chain.add_parent(parent_nodes);
                assert forall|i: int| 0 <= i < chain@.layers.len() - 1 implies first_extends(
                    (#[trigger] chain@.layers[i]).nodes,
                ) is Some by {
                    assert(chain@.layers[i] == before[i]);
                }
                assert forall|i: int| 0 <= i < chain@.layers.len() implies (
                #[trigger] chain@.layers[i]) == layer_of(chain@.layers[i].nodes) by {
                    if i < before.len() {
                        assert(chain@.layers[i] == before[i]);
                    }
                }
                depth += 1;
            },
            None => {
                done = true;
            },
        }
    }
    if depth >= max_depth {
        return Err(depth_limit_error(max_depth));
    }
    chain.merge_blocks();
    Ok(chain)
}

/// A filter as it is written behind a variable: `|name:"arg" ` or `|name `.
pub open spec fn filter_source(filter: FilterModel) -> Seq<char> {
    match filter.1 {
        Some(arg) => "|"@ + filter.0 + ":\""@ + arg + "\" "@,
        None => "|"@ + filter.0 + " "@,
    }
}

/// The first `n` filters as they are written, one after the other.
pub open spec fn filters_source(filters: Seq<FilterModel>, n: nat) -> Seq<char>
    decreases n,
{
    if n == 0 {
        Seq::empty()
    } else {
        filters_source(filters, (n - 1) as nat) + filter_source(filters[n - 1])
    }
}

/// The first `n` names with `, ` between them.
pub open spec fn names_source(names: Seq<Seq<char>>, n: nat) -> Seq<char>
    decreases n,
{
    if n == 0 {
        Seq::empty()
    } else if n == 1 {
        names[0]
    } else {
        names_source(names, (n - 1) as nat) + ", "@ + names[n - 1]
    }
}

/// The first `n` assignments as `key=value`, with a space between them.
pub open spec fn assignments_source(pairs: Seq<PairModel>, n: nat) -> Seq<char>
    decreases n,
{
    if n == 0 {
        Seq::empty()
    } else if n == 1 {
        pairs[0].0 + "="@ + pairs[0].1
    } else {
        assignments_source(pairs, (n - 1) as nat) + " "@ + pairs[n - 1].0 + "="@ + pairs[n - 1].1
    }
}

/// The first `n` assignments as ` key=value`, each with a space before it.
pub open spec fn with_vars_source(pairs: Seq<PairModel>, n: nat) -> Seq<char>
    decreases n,
{
    if n == 0 {
        Seq::empty()
    } else {
        with_vars_source(pairs, (n - 1) as nat) + " "@ + pairs[n - 1].0 + "="@ + pairs[n - 1].1
    }
}

/// The first `n` arguments, each with a space before it.
pub open spec fn args_source(args: Seq<Seq<char>>, n: nat) -> Seq<char>
    decreases n,
{
    if n == 0 {
        Seq::empty()
    } else {
        args_source(args, (n - 1) as nat) + " "@ + args[n - 1]
    }
}

/// A node written back in template syntax. Comments and `extends` are left
/// out, and so are components.
pub open spec fn node_source(node: AstModel) -> Seq<char>
    decreases node, 0nat,
{
    match node {
        AstModel::Text(text) => text,
        AstModel::Variable(name, filters) => "{{ "@ + name + " "@ + filters_source(
            filters,
            filters.len(),
        ) + "}}"@,
        AstModel::Block { name, nodes } => "{% block "@ + name + " %}"@ + nodes_source(
            nodes,
            nodes.len(),
        ) + "{% endblock %}"@,
        AstModel::If { condition, true_nodes, false_nodes } => "{% if "@ + condition + " %}"@
            + nodes_source(true_nodes, true_nodes.len()) + (if false_nodes.len() > 0 {
            "{% else %}"@ + nodes_source(false_nodes, false_nodes.len())
        } else {
            Seq::empty()
        }) + "{% endif %}"@,
        AstModel::For { var_names, iterable, reversed, nodes, empty_nodes } => "{% for "@
            + names_source(var_names, var_names.len()) + " in "@ + iterable + (if reversed {
            " reversed"@
        } else {
            Seq::empty()
        }) + " %}"@ + nodes_source(nodes, nodes.len()) + (if empty_nodes.len() > 0 {
            "{% empty %}"@ + nodes_source(empty_nodes, empty_nodes.len())
        } else {
            Seq::empty()
        }) + "{% endfor %}"@,
        AstModel::With { assignments, nodes } => "{% with "@ + assignments_source(
            assignments,
            assignments.len(),
        ) + " %}"@ + nodes_source(nodes, nodes.len()) + "{% endwith %}"@,
        AstModel::Comment => Seq::empty(),
        AstModel::Extends(_) => Seq::empty(),
        AstModel::Include { template, with_vars, only } => "{% include \""@ + template + "\""@
            + (if with_vars.len() > 0 {
            " with"@ + with_vars_source(with_vars, with_vars.len())
        } else {
            Seq::empty()
        }) + (if only {
            " only"@
        } else {
            Seq::empty()
        }) + " %}"@,
        AstModel::CsrfToken => "{% csrf_token %}"@,
        AstModel::Static(path) => "{% static \""@ + path + "\" %}"@,
        AstModel::ReactComponent { .. } => Seq::empty(),
        AstModel::RustComponent { .. } => Seq::empty(),
        AstModel::CustomTag { name, args } => "{% "@ + name + args_source(args, args.len())
            + " %}"@,
    }
}

/// The first `n` nodes written back in template syntax, one after the other.
pub open spec fn nodes_source(nodes: Seq<AstModel>, n: nat) -> Seq<char>
    decreases nodes, n,
{
    if n == 0 || n > nodes.len() {
        Seq::empty()
    } else {
        nodes_source(nodes, (n - 1) as nat) + node_source(nodes[n - 1])
    }
}

/// Converts nodes back to template source: the syntax is kept, nothing is
/// rendered.
pub fn nodes_to_template_string(nodes: &Vec<TemplateNode>) -> (output: String)
    ensures
        output@ == nodes_source(asts_view(*nodes), nodes@.len() as nat),
    decreases nodes, 1nat,
{
    let ghost models = asts_view(*nodes);
    let mut output = String::new();
    let mut i: usize = 0;
    assert(output@ =~= nodes_source(models, 0));
    while i < nodes.len()
        invariant
            i <= nodes@.len(),
            models == asts_view(*nodes),
            output@ == nodes_source(models, i as nat),
        decreases nodes@.len() - i,
    {
        proof {
            lemma_asts_view(*nodes);
        }
        let piece = node_to_template_string(&nodes[i]);
        output.append(piece.as_str());
        i += 1;
    }
    output
}

/// Writes `key=value` for each pair, with `first` before the first and a
/// space before each of the others.
fn write_pairs(output: &mut String, pairs: &Vec<(String, String)>, leading: bool)
    ensures
        final(output)@ == old(output)@ + (if leading {
            with_vars_source(pairs_view(pairs@), pairs@.len() as nat)
        } else {
            assignments_source(pairs_view(pairs@), pairs@.len() as nat)
        }),
{
    let ghost start = output@;
    let ghost models = pairs_view(pairs@);
    let mut i: usize = 0;
    assert(output@ =~= start + with_vars_source(models, 0));
    assert(output@ =~= start + assignments_source(models, 0));
    while i < pairs.len()
        invariant
            i <= pairs@.len(),
            models == pairs_view(pairs@),
            output@ == start + (if leading {
                with_vars_source(models, i as nat)
            } else {
                assignments_source(models, i as nat)
            }),
        decreases pairs@.len() - i,
    {
        let ghost before = output@;
        assert(models[i as int] == (pairs@[i as int].0@, pairs@[i as int].1@));
        if leading || i > 0 {
            output.append(" ");
        }
        output.append(pairs[i].0.as_str());
        output.append("=");
        output.append(pairs[i].1.as_str());
        proof {
            let k = models[i as int].0;
            let v = models[i as int].1;
            if leading {
                assert(output@ =~= start + (with_vars_source(models, i as nat) + " "@ + k + "="@
                    + v));
            } else if i > 0 {
                assert(output@ =~= start + (assignments_source(models, i as nat) + " "@ + k
                    + "="@ + v));
            } else {
                assert(output@ =~= start + (k + "="@ + v));
            }
        }
        i += 1;
    }
}

/// Converts a single node back to template source.
pub fn node_to_template_string(node: &TemplateNode) -> (output: String)
    ensures
        output@ == node_source(node@),
    decreases node, 0nat,
{
    match node {
        TemplateNode::Text(text) => text.clone(),
        TemplateNode::Variable(var_name, filters) => {
            let mut result = String::from_str("{{ ");
            result.append(var_name.as_str());
            result.append(" ");
            let ghost head = result@;
            let ghost models = filters_view(filters@);
            let mut i: usize = 0;
            assert(result@ =~= head + filters_source(models, 0));
            while i < filters.len()
                invariant
                    i <= filters@.len(),
                    models == filters_view(filters@),
                    result@ == head + filters_source(models, i as nat),
                decreases filters@.len() - i,
            {
                assert(models[i as int] == filter_view(filters@[i as int]));
                result.append("|");
                result.append(filters[i].0.as_str());
                match &filters[i].1 {
                    Some(arg) => {
                        result.append(":\"");
                        result.append(arg.as_str());
                        result.append("\" ");
                        assert(result@ =~= head + (filters_source(models, i as nat) + ("|"@
                            + models[i as int].0 + ":\""@ + arg@ + "\" "@)));
                    },
                    None => {
                        result.append(" ");
                        assert(result@ =~= head + (filters_source(models, i as nat) + ("|"@
                            + models[i as int].0 + " "@)));
                    },
                }
                i += 1;
            }
            result.append("}}");
            assert(result@ =~= node_source(node@));
            result
        },
        TemplateNode::Block { name, nodes } => {
            let mut result = String::from_str("{% block ");
            result.append(name.as_str());
            result.append(" %}");
            result.append(nodes_to_template_string(nodes).as_str());
            result.append("{% endblock %}");
            assert(result@ =~= node_source(node@));
            result
        },
        TemplateNode::If { condition, true_nodes, false_nodes } => {
            let mut result = String::from_str("{% if ");
            result.append(condition.as_str());
            result.append(" %}");
            result.append(nodes_to_template_string(true_nodes).as_str());
            if false_nodes.len() > 0 {
                result.append("{% else %}");
                result.append(nodes_to_template_string(false_nodes).as_str());
            }
            result.append("{% endif %}");
            assert(result@ =~= node_source(node@));
            result
        },
        TemplateNode::For { var_names, iterable, reversed, nodes, empty_nodes } => {
            let mut result = String::from_str("{% for ");
            let ghost head = result@;
            let ghost names = strings_view(var_names@);
            let mut i: usize = 0;
            assert(result@ =~= head + names_source(names, 0));
            while i < var_names.len()
                invariant
                    i <= var_names@.len(),
                    names == strings_view(var_names@),
                    result@ == head + names_source(names, i as nat),
                decreases var_names@.len() - i,
            {
                assert(names[i as int] == var_names@[i as int]@);
                if i > 0 {
                    result.append(", ");
                    assert(result@ =~= head + (names_source(names, i as nat) + ", "@));
                }
                result.append(var_names[i].as_str());
                proof {
                    if i > 0 {
                        assert(result@ =~= head + (names_source(names, i as nat) + ", "@
                            + names[i as int]));
                    } else {
                        assert(result@ =~= head + names[0]);
                    }
                }
                i += 1;
            }
            result.append(" in ");
            result.append(iterable.as_str());
            if *reversed {
                result.append(" reversed");
            }
            result.append(" %}");
            result.append(nodes_to_template_string(nodes).as_str());
            if empty_nodes.len() > 0 {
                result.append("{% empty %}");
                result.append(nodes_to_template_string(empty_nodes).as_str());
            }
            result.append("{% endfor %}");
            assert(result@ =~= node_source(node@));
            result
        },
        TemplateNode::With { assignments, nodes } => {
            let mut result = String::from_str("{% with ");
            write_pairs(&mut result, assignments, false);
            result.append(" %}");
            result.append(nodes_to_template_string(nodes).as_str());
            result.append("{% endwith %}");
            assert(result@ =~= node_source(node@));
            result
        },
        // Comments are stripped, and `extends` has been processed.
        TemplateNode::Comment => String::new(),
        TemplateNode::Extends(_) => String::new(),
        TemplateNode::Include { template, with_vars, only } => {
            let mut result = String::from_str("{% include \"");
            result.append(template.as_str());
            result.append("\"");
            if with_vars.len() > 0 {
                result.append(" with");
                write_pairs(&mut result, with_vars, true);
            }
            if *only {
                result.append(" only");
            }
            result.append(" %}");
            assert(result@ =~= node_source(node@));
            result
        },
        TemplateNode::CsrfToken => String::from_str("{% csrf_token %}"),
        TemplateNode::Static(path) => {
            let mut result = String::from_str("{% static \"");
            result.append(path.as_str());
            result.append("\" %}");
            assert(result@ =~= node_source(node@));
            result
        },
        // Components are handled elsewhere.
        TemplateNode::ReactComponent { .. } => String::new(),
        TemplateNode::RustComponent { .. } => String::new(),
        TemplateNode::CustomTag { name, args } => {
            let mut result = String::from_str("{% ");
            result.append(name.as_str());
            let ghost head = result@;
            let ghost models = strings_view(args@);
            let mut i: usize = 0;
            assert(result@ =~= head + args_source(models, 0));
            while i < args.len()
                invariant
                    i <= args@.len(),
                    models == strings_view(args@),
                    result@ == head + args_source(models, i as nat),
                decreases args@.len() - i,
            {
                assert(models[i as int] == args@[i as int]@);
                result.append(" ");
                result.append(args[i].as_str());
                assert(result@ =~= head + (args_source(models, i as nat) + " "@
                    + models[i as int]));
                i += 1;
            }
            result.append(" %}");
            assert(result@ =~= node_source(node@));
            result
        },
    }
}

/// A path in the file system. Nothing of it is visible here but through
/// the functions below.
#[verifier::external_type_specification]
#[verifier::external_body]
pub struct ExPathBuf(std::path::PathBuf);

/// A path as it is shown to a reader.
pub uninterp spec fn path_text(path: std::path::PathBuf) -> Seq<char>;

/// Trusted: `Path::display`, formatted; the text depends on the path alone.
#[verifier::external_body]
fn show_path(path: &PathBuf) -> (s: String)
    ensures
        s@ == path_text(*path),
{
    format!("{}", path.display())
}

/// Trusted: `Path::join`, which puts a relative `name` behind `dir` and lets
/// an absolute one replace it.
#[verifier::external_body]
fn join_path(dir: &PathBuf, name: &str) -> (path: PathBuf) {
    dir.join(name)
}

/// The lines that list the first `n` directories: each directory after
/// `  - `, with a line feed between the lines.
pub open spec fn searched_lines(dirs: Seq<PathBuf>, n: nat) -> Seq<char>
    decreases n,
{
    if n == 0 {
        Seq::empty()
    } else if n == 1 {
        "  - "@ + path_text(dirs[0])
    } else {
        searched_lines(dirs, (n - 1) as nat) + "\n"@ + "  - "@ + path_text(dirs[n - 1])
    }
}

/// What the error for a template that no directory holds says.
pub open spec fn not_found_message(name: Seq<char>, dirs: Seq<PathBuf>) -> Seq<char> {
    "Template not found: "@ + name + "\nSearched in:\n"@ + searched_lines(dirs, dirs.len())
}

/// A template loader that looks for templates in a list of directories.
pub struct FilesystemTemplateLoader {
    template_dirs: Vec<PathBuf>,
}

impl FilesystemTemplateLoader {
    /// The directories that are searched, in order.
    pub closed spec fn dirs(&self) -> Seq<PathBuf> {
        self.template_dirs@
    }

    /// A loader that searches the given directories, first to last.
    pub fn new(template_dirs: Vec<PathBuf>) -> (loader: Self)
        ensures
            loader.dirs() == template_dirs@,
    {
        FilesystemTemplateLoader { template_dirs }
    }

    /// The directories that are searched, in order.
    pub fn template_dirs(&self) -> (dirs: &Vec<PathBuf>)
        ensures
            dirs@ == self.dirs(),
    {
        &self.template_dirs
    }

    /// The places where the template `name` may be: one in each directory,
    /// in the order of the directories. The first that exists is the
    /// template.
    pub fn candidates(&self, name: &str) -> (paths: Vec<PathBuf>)
        ensures
            paths@.len() == self.dirs().len(),
    {
        let mut paths: Vec<PathBuf> = Vec::new();
        let mut i: usize = 0;
        while i < self.template_dirs.len()
            invariant
                i <= self.template_dirs@.len(),
                paths@.len() == i,
            decreases self.template_dirs@.len() - i,
        {
            paths.push(join_path(&self.template_dirs[i], name));
            i += 1;
        }
        paths
    }

    /// The error for a template that none of the directories holds; it lists
    /// the directories that were searched.
    pub fn not_found_error(&self, name: &str) -> (e: DjangoRustError)
        ensures
            e is TemplateError,
            e.message() == not_found_message(name@, self.dirs()),
    {
        let mut message = String::from_str("Template not found: ");
        message.append(name);
        message.append("\nSearched in:\n");
        let ghost head = message@;
        let mut i: usize = 0;
        assert(message@ =~= head + searched_lines(self.dirs(), 0));
        while i < self.template_dirs.len()
            invariant
                i <= self.template_dirs@.len(),
                message@ == head + searched_lines(self.dirs(), i as nat),
            decreases self.template_dirs@.len() - i,
        {
            let ghost before = message@;
            if i > 0 {
                message.append("\n");
            }
            message.append("  - ");
            message.append(show_path(&self.template_dirs[i]).as_str());
            proof {
                let line = "  - "@ + path_text(self.dirs()[i as int]);
                if i > 0 {
                    assert(message@ =~= head + (searched_lines(self.dirs(), i as nat) + "\n"@
                        + "  - "@ + path_text(self.dirs()[i as int])));
                } else {
                    assert(message@ =~= head + line);
                }
            }
            i += 1;
        }
        DjangoRustError::TemplateError(message)
    }
}

} // verus!
