//! The patch type: one atomic edit of a tree, and its mathematical model.

use crate::vdom::node::{clone_opt, opt_view, NodeModel, VNode};
use vstd::prelude::*;

verus! {

/// What a patch is, as plain mathematical data.
pub enum PatchModel {
    Replace { path: Seq<usize>, d: Option<Seq<char>>, node: NodeModel },
    SetText { path: Seq<usize>, d: Option<Seq<char>>, text: Seq<char> },
    SetAttr { path: Seq<usize>, d: Option<Seq<char>>, key: Seq<char>, value: Seq<char> },
    RemoveAttr { path: Seq<usize>, d: Option<Seq<char>>, key: Seq<char> },
    InsertChild { path: Seq<usize>, d: Option<Seq<char>>, index: usize, node: NodeModel },
    RemoveChild { path: Seq<usize>, d: Option<Seq<char>>, index: usize },
    MoveChild { path: Seq<usize>, d: Option<Seq<char>>, from: usize, to: usize },
}

impl PatchModel {
    /// The path of child indices from the root to the node the patch addresses.
    pub open spec fn path(self) -> Seq<usize> {
        match self {
            PatchModel::Replace { path, .. } => path,
            PatchModel::SetText { path, .. } => path,
            PatchModel::SetAttr { path, .. } => path,
            PatchModel::RemoveAttr { path, .. } => path,
            PatchModel::InsertChild { path, .. } => path,
            PatchModel::RemoveChild { path, .. } => path,
            PatchModel::MoveChild { path, .. } => path,
        }
    }
}

/// A patch operation to apply to a tree. `path` leads from the root to the
/// node addressed; `d` is the identity of that node in the old tree.
#[derive(Debug)]
pub enum Patch {
    /// Replace the node at `path`.
    Replace { path: Vec<usize>, d: Option<String>, node: VNode },
    /// Update the text content.
    SetText { path: Vec<usize>, d: Option<String>, text: String },
    /// Set an attribute.
    SetAttr { path: Vec<usize>, d: Option<String>, key: String, value: String },
    /// Remove an attribute.
    RemoveAttr { path: Vec<usize>, d: Option<String>, key: String },
    /// Insert a child at `index`.
    InsertChild { path: Vec<usize>, d: Option<String>, index: usize, node: VNode },
    /// Remove the child at `index`.
    RemoveChild { path: Vec<usize>, d: Option<String>, index: usize },
    /// Move a child from one index to another.
    MoveChild { path: Vec<usize>, d: Option<String>, from: usize, to: usize },
}

impl View for Patch {
    type V = PatchModel;

    open spec fn view(&self) -> PatchModel {
        match *self {
            Patch::Replace { path, d, node } => PatchModel::Replace {
                path: path@,
                d: opt_view(d),
                node: node@,
            },
            Patch::SetText { path, d, text } => PatchModel::SetText {
                path: path@,
                d: opt_view(d),
                text: text@,
            },
            Patch::SetAttr { path, d, key, value } => PatchModel::SetAttr {
                path: path@,
                d: opt_view(d),
                key: key@,
                value: value@,
            },
            Patch::RemoveAttr { path, d, key } => PatchModel::RemoveAttr {
                path: path@,
                d: opt_view(d),
                key: key@,
            },
            Patch::InsertChild { path, d, index, node } => PatchModel::InsertChild {
                path: path@,
                d: opt_view(d),
                index,
                node: node@,
            },
            Patch::RemoveChild { path, d, index } => PatchModel::RemoveChild {
                path: path@,
                d: opt_view(d),
                index,
            },
            Patch::MoveChild { path, d, from, to } => PatchModel::MoveChild {
                path: path@,
                d: opt_view(d),
                from,
                to,
            },
        }
    }
}

/// The models of a sequence of patches.
pub open spec fn patches_view(patches: Seq<Patch>) -> Seq<PatchModel> {
    Seq::new(patches.len(), |i: int| patches[i]@)
}

pub proof fn lemma_patches_view_push(patches: Seq<Patch>, patch: Patch)
    ensures
        patches_view(patches.push(patch)) == patches_view(patches).push(patch@),
{
    assert(patches_view(patches.push(patch)) =~= patches_view(patches).push(patch@));
}

pub proof fn lemma_patches_view_concat(a: Seq<Patch>, b: Seq<Patch>)
    ensures
        patches_view(a + b) == patches_view(a) + patches_view(b),
{
    assert(patches_view(a + b) =~= patches_view(a) + patches_view(b));
}

/// Copies a path.
pub fn path_to_vec(path: &[usize]) -> (r: Vec<usize>)
    ensures
        r@ == path@,
{
    let mut r: Vec<usize> = Vec::new();
    let mut i: usize = 0;
    while i < path.len()
        invariant
            i <= path@.len(),
            r@ == path@.subrange(0, i as int),
        decreases path@.len() - i,
    {
        r.push(path[i]);
        assert(r@ =~= path@.subrange(0, i + 1));
        i += 1;
    }
    assert(r@ =~= path@);
    r
}

impl Clone for Patch {
    fn clone(&self) -> (r: Self)
        ensures
            r@ == self@,
    {
        match self {
            Patch::Replace { path, d, node } => Patch::Replace {
                path: path_to_vec(path.as_slice()),
                d: clone_opt(d),
                node: node.clone(),
            },
            Patch::SetText { path, d, text } => Patch::SetText {
                path: path_to_vec(path.as_slice()),
                d: clone_opt(d),
                text: text.clone(),
            },
            Patch::SetAttr { path, d, key, value } => Patch::SetAttr {
                path: path_to_vec(path.as_slice()),
                d: clone_opt(d),
                key: key.clone(),
                value: value.clone(),
            },
            Patch::RemoveAttr { path, d, key } => Patch::RemoveAttr {
                path: path_to_vec(path.as_slice()),
                d: clone_opt(d),
                key: key.clone(),
            },
            Patch::InsertChild { path, d, index, node } => Patch::InsertChild {
                path: path_to_vec(path.as_slice()),
                d: clone_opt(d),
                index: *index,
                node: node.clone(),
            },
            Patch::RemoveChild { path, d, index } => Patch::RemoveChild {
                path: path_to_vec(path.as_slice()),
                d: clone_opt(d),
                index: *index,
            },
            Patch::MoveChild { path, d, from, to } => Patch::MoveChild {
                path: path_to_vec(path.as_slice()),
                d: clone_opt(d),
                from: *from,
                to: *to,
            },
        }
    }
}

} // verus!
