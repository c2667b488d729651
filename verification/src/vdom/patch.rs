//! The patch applier: replays patches against a tree.
//!
//! A patch whose path leads nowhere, or whose index is out of range, changes
//! nothing: patches are independent, best-effort instructions.

use crate::vdom::attrs::{with_entry, without_entry};
use crate::vdom::node::{
    clone_opt, lemma_children_view, nodes_view, opt_view, NodeModel, VNode,
};
use crate::vdom::ops::{patches_view, Patch, PatchModel};
use vstd::prelude::*;
use vstd::string::*;

verus! {

/// The node that `path` leads to below `root`, if it leads anywhere.
pub open spec fn node_at(root: NodeModel, path: Seq<usize>) -> Option<NodeModel>
    decreases path.len(),
{
    if path.len() == 0 {
        Some(root)
    } else if path[0] < root.children.len() {
        node_at(root.children[path[0] as int], path.drop_first())
    } else {
        None
    }
}

/// The first child whose identity is `id`, if there is one.
pub open spec fn has_child_id(children: Seq<NodeModel>, id: Seq<char>) -> bool {
    exists|i: int| 0 <= i < children.len() && (#[trigger] children[i]).djust_id == Some(id)
}

pub open spec fn first_child_id(children: Seq<NodeModel>, id: Seq<char>) -> int {
    choose|i: int|
        0 <= i < children.len() && (#[trigger] children[i]).djust_id == Some(id) && forall|j: int|
            0 <= j < i ==> (#[trigger] children[j]).djust_id != Some(id)
}

/// The children with the one at `from` taken out and put back at `to`.
pub open spec fn moved(children: Seq<NodeModel>, from: int, to: int) -> Seq<NodeModel> {
    children.remove(from).insert(to, children[from])
}

/// The smaller of two numbers.
pub open spec fn least(a: int, b: int) -> int {
    if a <= b {
        a
    } else {
        b
    }
}

/// What one patch does to the node it addresses.
///
/// Applied alone (`batch` false), an insertion or a move whose index is out
/// of range does nothing. Applied as part of a batch, an insertion beyond
/// the end goes to the end, and a move looks for the child whose identity is
/// `source`, wherever it now is, and puts it at `to`, or at the end if `to`
/// lies beyond it; only where `source` is nothing does it go by `from`.
pub open spec fn local_edit(
    node: NodeModel,
    patch: PatchModel,
    batch: bool,
    source: Option<Seq<char>>,
) -> NodeModel {
    let kids = node.children;
    match patch {
        PatchModel::Replace { node: new, .. } => new,
        PatchModel::SetText { text, .. } => NodeModel { text: Some(text), ..node },
        PatchModel::SetAttr { key, value, .. } => NodeModel {
            attrs: with_entry(node.attrs, key, value),
            ..node
        },
        PatchModel::RemoveAttr { key, .. } => NodeModel {
            attrs: without_entry(node.attrs, key),
            ..node
        },
        PatchModel::InsertChild { index, node: new, .. } => if batch {
            NodeModel { children: kids.insert(least(index as int, kids.len() as int), new), ..node }
        } else if index <= kids.len() {
            NodeModel { children: kids.insert(index as int, new), ..node }
        } else {
            node
        },
        PatchModel::RemoveChild { index, .. } => if index < kids.len() {
            NodeModel { children: kids.remove(index as int), ..node }
        } else {
            node
        },
        PatchModel::MoveChild { from, to, .. } => if batch && source is Some {
            if has_child_id(kids, source->0) {
                let at = first_child_id(kids, source->0);
                NodeModel { children: moved(kids, at, least(to as int, kids.len() - 1)), ..node }
            } else {
                node
            }
        } else if from < kids.len() && to < kids.len() {
            NodeModel { children: moved(kids, from as int, to as int), ..node }
        } else {
            node
        },
    }
}

/// The tree after `patch` is applied to the node that `path` leads to; the
/// same tree where `path` leads nowhere.
pub open spec fn update_at(
    root: NodeModel,
    path: Seq<usize>,
    patch: PatchModel,
    batch: bool,
    source: Option<Seq<char>>,
) -> NodeModel
    decreases path.len(),
{
    if path.len() == 0 {
        local_edit(root, patch, batch, source)
    } else if path[0] < root.children.len() {
        NodeModel {
            children: root.children.update(
                path[0] as int,
                update_at(root.children[path[0] as int], path.drop_first(), patch, batch, source),
            ),
            ..root
        }
    } else {
        root
    }
}

/// A patch whose path leads nowhere changes nothing.
pub proof fn lemma_unresolved_path(
    root: NodeModel,
    path: Seq<usize>,
    patch: PatchModel,
    batch: bool,
    source: Option<Seq<char>>,
)
    requires
        node_at(root, path) is None,
    ensures
        update_at(root, path, patch, batch, source) == root,
    decreases path.len(),
{
    if path.len() > 0 && path[0] < root.children.len() {
        let child = root.children[path[0] as int];
        lemma_unresolved_path(child, path.drop_first(), patch, batch, source);
        assert(root.children.update(path[0] as int, child) =~= root.children);
    }
}

/// The tree after one patch is applied on its own.
pub open spec fn apply_patch_spec(root: NodeModel, patch: PatchModel) -> NodeModel {
    update_at(root, patch.path(), patch, false, None)
}

/// The path of a patch.
pub fn path_of(patch: &Patch) -> (path: &Vec<usize>)
    ensures
        path@ == patch@.path(),
{
    match patch {
        Patch::Replace { path, .. } => path,
        Patch::SetText { path, .. } => path,
        Patch::SetAttr { path, .. } => path,
        Patch::RemoveAttr { path, .. } => path,
        Patch::InsertChild { path, .. } => path,
        Patch::RemoveChild { path, .. } => path,
        Patch::MoveChild { path, .. } => path,
    }
}

/// The position of the first child whose identity is `id`.
fn position_of_id(children: &Vec<VNode>, id: &String) -> (r: Option<usize>)
    ensures
        match r {
            Some(i) => i < children@.len() && has_child_id(nodes_view(children@), id@)
                && first_child_id(nodes_view(children@), id@) == i,
            None => !has_child_id(nodes_view(children@), id@),
        },
{
    let ghost models = nodes_view(children@);
    let mut i: usize = 0;
    while i < children.len()
        invariant
            i <= children@.len(),
            models == nodes_view(children@),
            forall|j: int| 0 <= j < i ==> (#[trigger] models[j]).djust_id != Some(id@),
        decreases children@.len() - i,
    {
        let found = match &children[i].djust_id {
            Some(s) => *s == *id,
            None => false,
        };
        if found {
            proof {
                assert(models[i as int].djust_id == Some(id@));
                let c = first_child_id(models, id@);
                if c < i {
                    assert(models[c].djust_id != Some(id@));
                }
            }
            return Some(i);
        }
        i += 1;
    }
    None
}

/// Takes the child at `from` out and puts it back at `to`.
fn move_child(node: &mut VNode, from: usize, to: usize)
    requires
        from < old(node).children@.len(),
        to < old(node).children@.len(),
    ensures
        final(node)@ == (NodeModel {
            children: moved(old(node)@.children, from as int, to as int),
            ..old(node)@
        }),
{
    let ghost before = *node;
    let child = node.children.remove(from);
    node.children.insert(to, child);
    proof {
        lemma_children_view(&before);
        lemma_children_view(&*node);
        assert(node@.children =~= moved(before@.children, from as int, to as int));
    }
}

/// Applies `patch` to `node` itself.
fn edit_here(node: &mut VNode, patch: &Patch, batch: bool, source: &Option<String>)
    ensures
        final(node)@ == local_edit(old(node)@, patch@, batch, opt_view(*source)),
{
    let ghost before = *node;
    proof {
        lemma_children_view(&before);
    }
    match patch {
        Patch::Replace { node: new, .. } => {
            *node = new.clone();
        },
        Patch::SetText { text, .. } => {
            node.text = Some(text.clone());
            proof {
                lemma_children_view(&*node);
                assert(node@.children =~= before@.children);
            }
        },
        Patch::SetAttr { key, value, .. } => {
            node.attrs.insert(key.clone(), value.clone());
            proof {
                lemma_children_view(&*node);
                assert(node@.children =~= before@.children);
            }
        },
        Patch::RemoveAttr { key, .. } => {
            node.attrs.remove(key.as_str());
            proof {
                lemma_children_view(&*node);
                assert(node@.children =~= before@.children);
            }
        },
        Patch::InsertChild { index, node: new, .. } => {
            let len = node.children.len();
            if batch {
                let at = if *index <= len {
                    *index
                } else {
                    len
                };
                node.children.insert(at, new.clone());
                proof {
                    lemma_children_view(&*node);
                    assert(node@.children =~= before@.children.insert(at as int, new@));
                }
            } else if *index <= len {
                node.children.insert(*index, new.clone());
                proof {
                    lemma_children_view(&*node);
                    assert(node@.children =~= before@.children.insert(*index as int, new@));
                }
            }
        },
        Patch::RemoveChild { index, .. } => {
            if *index < node.children.len() {
                node.children.remove(*index);
                proof {
                    lemma_children_view(&*node);
                    assert(node@.children =~= before@.children.remove(*index as int));
                }
            }
        },
        Patch::MoveChild { from, to, .. } => {
            let len = node.children.len();
            match source {
                Some(id) => {
                    if batch {
                        match position_of_id(&node.children, id) {
                            Some(at) => {
                                let target = if *to <= len - 1 {
                                    *to
                                } else {
                                    len - 1
                                };
                                move_child(node, at, target);
                            },
                            None => {},
                        }
                    } else if *from < len && *to < len {
                        move_child(node, *from, *to);
                    }
                },
                None => {
                    if *from < len && *to < len {
                        move_child(node, *from, *to);
                    }
                },
            }
        },
    }
}

/// Applies `patch` to the node that the rest of `path`, from `pos` on, leads
/// to below `node`.
fn edit_at(
    node: &mut VNode,
    path: &Vec<usize>,
    pos: usize,
    patch: &Patch,
    batch: bool,
    source: &Option<String>,
)
    requires
        pos <= path@.len(),
    ensures
        final(node)@ == update_at(
            old(node)@,
            path@.subrange(pos as int, path@.len() as int),
            patch@,
            batch,
            opt_view(*source),
        ),
    decreases path@.len() - pos,
{
    let ghost before = *node;
    let ghost rest = path@.subrange(pos as int, path@.len() as int);
    if pos == path.len() {
        edit_here(node, patch, batch, source);
    } else {
        let index = path[pos];
        proof {
            lemma_children_view(&before);
            assert(rest[0] == index);
            assert(rest.drop_first() =~= path@.subrange(pos + 1, path@.len() as int));
        }
        if index < node.children.len() {
            edit_at(&mut node.children[index], path, pos + 1, patch, batch, source);
            proof {
                lemma_children_view(&*node);
                assert(node@.children =~= before@.children.update(
                    index as int,
                    node.children@[index as int]@,
                ));
            }
        }
    }
}

/// Applies a single patch to a tree.
///
/// A `MoveChild` goes by its indices here; to apply several patches, among
/// them moves, `apply_patches` resolves the moved children by identity.
pub fn apply_patch(root: &mut VNode, patch: &Patch)
    ensures
        final(root)@ == apply_patch_spec(old(root)@, patch@),
{
    let none: Option<String> = None;
    let path = path_of(patch);
    assert(path@.subrange(0, path@.len() as int) =~= path@);
    edit_at(root, path, 0, patch, false, &none);
}

/// The node that `path` leads to below `root`.
pub fn get_node<'a>(root: &'a VNode, path: &[usize]) -> (r: Option<&'a VNode>)
    ensures
        match r {
            Some(node) => node_at(root@, path@) == Some(node@),
            None => node_at(root@, path@) is None,
        },
{
    let mut current = root;
    let mut i: usize = 0;
    assert(path@.subrange(0, path@.len() as int) =~= path@);
    while i < path.len()
        invariant
            i <= path@.len(),
            node_at(root@, path@) == node_at(current@, path@.subrange(i as int, path@.len() as int)),
        decreases path@.len() - i,
    {
        let index = path[i];
        let ghost rest = path@.subrange(i as int, path@.len() as int);
        proof {
            lemma_children_view(current);
            assert(rest[0] == index);
            assert(rest.drop_first() =~= path@.subrange(i + 1, path@.len() as int));
        }
        if index < current.children.len() {
            current = &current.children[index];
        } else {
            return None;
        }
        i += 1;
    }
    Some(current)
}

/// The four groups in which the patches of one depth are applied.
#[derive(Clone, Copy, Debug, PartialEq, Eq, Structural)]
pub enum PatchKind {
    Remove,
    Move,
    Insert,
    Other,
}

/// The group of a patch.
pub open spec fn kind_of_spec(patch: PatchModel) -> PatchKind {
    match patch {
        PatchModel::RemoveChild { .. } => PatchKind::Remove,
        PatchModel::MoveChild { .. } => PatchKind::Move,
        PatchModel::InsertChild { .. } => PatchKind::Insert,
        _ => PatchKind::Other,
    }
}

/// The child index that a removal or an insertion names.
pub open spec fn child_index(patch: PatchModel) -> int {
    match patch {
        PatchModel::RemoveChild { index, .. } => index as int,
        PatchModel::InsertChild { index, .. } => index as int,
        _ => 0,
    }
}

/// Whether `a` comes before `b` in the order of paths, from position `k` on:
/// at the first index where they differ, `a` is smaller, or `a` ends first.
pub open spec fn path_lt_from(a: Seq<usize>, b: Seq<usize>, k: int) -> bool
    decreases a.len() - k,
{
    if k < 0 || k >= b.len() {
        false
    } else if k >= a.len() {
        true
    } else if a[k] != b[k] {
        a[k] < b[k]
    } else {
        path_lt_from(a, b, k + 1)
    }
}

/// Whether `a` comes before `b` in the order of paths.
pub open spec fn path_lt(a: Seq<usize>, b: Seq<usize>) -> bool {
    path_lt_from(a, b, 0)
}

/// Whether `a` must be applied before `b` within a group: the patch with the
/// smaller path, and on the same path the one with the larger index
/// (`descending`, for removals) or the smaller index (for insertions).
pub open spec fn child_before(a: PatchModel, b: PatchModel, descending: bool) -> bool {
    path_lt(a.path(), b.path()) || (a.path() == b.path() && if descending {
        child_index(a) > child_index(b)
    } else {
        child_index(a) < child_index(b)
    })
}

/// `sorted` with `patch` put after the last patch that need not come after it.
pub open spec fn insert_sorted(sorted: Seq<PatchModel>, patch: PatchModel, descending: bool) -> Seq<
    PatchModel,
>
    decreases sorted.len(),
{
    if sorted.len() > 0 && child_before(patch, sorted.last(), descending) {
        insert_sorted(sorted.drop_last(), patch, descending).push(sorted.last())
    } else {
        sorted.push(patch)
    }
}

/// The patches in the order of `child_before`; patches that it does not
/// order keep the order in which they came.
pub open spec fn sorted_by(patches: Seq<PatchModel>, descending: bool) -> Seq<PatchModel>
    decreases patches.len(),
{
    if patches.len() == 0 {
        patches
    } else {
        insert_sorted(sorted_by(patches.drop_last(), descending), patches.last(), descending)
    }
}

/// The patches of one group at one depth, in the order in which they came.
pub open spec fn level_part(patches: Seq<PatchModel>, depth: nat, kind: PatchKind) -> Seq<
    PatchModel,
>
    decreases patches.len(),
{
    if patches.len() == 0 {
        Seq::empty()
    } else {
        let rest = level_part(patches.drop_last(), depth, kind);
        let last = patches.last();
        if last.path().len() == depth && kind_of_spec(last) == kind {
            rest.push(last)
        } else {
            rest
        }
    }
}

/// The patches of one depth in the order in which they are applied: the
/// removals, by descending index on each path; the moves; the insertions, by
/// ascending index on each path; then all the others.
pub open spec fn level_order(patches: Seq<PatchModel>, depth: nat) -> Seq<PatchModel> {
    sorted_by(level_part(patches, depth, PatchKind::Remove), true) + level_part(
        patches,
        depth,
        PatchKind::Move,
    ) + sorted_by(level_part(patches, depth, PatchKind::Insert), false) + level_part(
        patches,
        depth,
        PatchKind::Other,
    )
}

/// The patches of the depths below `depth`, shallow depths first.
pub open spec fn levels_upto(patches: Seq<PatchModel>, depth: nat) -> Seq<PatchModel>
    decreases depth,
{
    if depth == 0 {
        Seq::empty()
    } else {
        levels_upto(patches, (depth - 1) as nat) + level_order(patches, (depth - 1) as nat)
    }
}

/// The length of the longest path among the patches.
pub open spec fn max_depth(patches: Seq<PatchModel>) -> nat
    decreases patches.len(),
{
    if patches.len() == 0 {
        0
    } else {
        let rest = max_depth(patches.drop_last());
        if patches.last().path().len() > rest {
            patches.last().path().len()
        } else {
            rest
        }
    }
}

/// All the patches in the order in which a batch applies them.
pub open spec fn batch_order(patches: Seq<PatchModel>) -> Seq<PatchModel> {
    levels_upto(patches, max_depth(patches) + 1)
}

/// The identity of the child that a move takes, as the tree `snapshot` has
/// it under the move's path at the index `from`.
pub open spec fn source_id(snapshot: NodeModel, patch: PatchModel) -> Option<Seq<char>> {
    match patch {
        PatchModel::MoveChild { path, from, .. } => match node_at(snapshot, path) {
            Some(parent) => if from < parent.children.len() {
                parent.children[from as int].djust_id
            } else {
                None
            },
            None => None,
        },
        _ => None,
    }
}

/// The tree after one patch is applied as part of a batch that started from
/// the tree `snapshot`.
pub open spec fn batch_step(snapshot: NodeModel, root: NodeModel, patch: PatchModel) -> NodeModel {
    update_at(root, patch.path(), patch, true, source_id(snapshot, patch))
}

/// The tree after the patches are applied one by one, in the order given.
pub open spec fn apply_in_order(snapshot: NodeModel, root: NodeModel, patches: Seq<PatchModel>)
    -> NodeModel
    decreases patches.len(),
{
    if patches.len() == 0 {
        root
    } else {
        batch_step(
            snapshot,
            apply_in_order(snapshot, root, patches.drop_last()),
            patches.last(),
        )
    }
}

/// The tree after a list of patches is applied: depth by depth, shallow
/// parents before their descendants, and within one depth the removals, the
/// moves, the insertions and the rest, in that order. Moves are resolved
/// against the tree as it was before any patch was applied.
pub open spec fn apply_patches_spec(root: NodeModel, patches: Seq<PatchModel>) -> NodeModel {
    apply_in_order(root, root, batch_order(patches))
}

/// The patches that the positions in `order` pick.
pub open spec fn picked(patches: Seq<PatchModel>, order: Seq<usize>) -> Seq<PatchModel> {
    Seq::new(order.len(), |k: int| patches[order[k] as int])
}

/// Every position in `order` is one of the first `len`.
pub open spec fn in_range(order: Seq<usize>, len: nat) -> bool {
    forall|k: int| 0 <= k < order.len() ==> (#[trigger] order[k]) < len
}

/// Where a patch goes in a sorted list: before the patches it must precede.
pub proof fn lemma_insert_sorted_at(
    sorted: Seq<PatchModel>,
    patch: PatchModel,
    descending: bool,
    pos: int,
)
    requires
        0 <= pos <= sorted.len(),
        forall|j: int| pos <= j < sorted.len() ==> child_before(patch, #[trigger] sorted[j], descending),
        pos == 0 || !child_before(patch, sorted[pos - 1], descending),
    ensures
        insert_sorted(sorted, patch, descending) == sorted.insert(pos, patch),
    decreases sorted.len(),
{
    if pos == sorted.len() {
        assert(sorted.push(patch) =~= sorted.insert(pos, patch));
    } else {
        let shorter = sorted.drop_last();
        assert(child_before(patch, sorted[sorted.len() - 1], descending));
        assert forall|j: int| pos <= j < shorter.len() implies child_before(
            patch,
            #[trigger] shorter[j],
            descending,
        ) by {
            assert(shorter[j] == sorted[j]);
        }
        lemma_insert_sorted_at(shorter, patch, descending, pos);
        assert(shorter.insert(pos, patch).push(sorted.last()) =~= sorted.insert(pos, patch));
    }
}

/// The group of a patch.
fn kind_of(patch: &Patch) -> (kind: PatchKind)
    ensures
        kind == kind_of_spec(patch@),
{
    match patch {
        Patch::RemoveChild { .. } => PatchKind::Remove,
        Patch::MoveChild { .. } => PatchKind::Move,
        Patch::InsertChild { .. } => PatchKind::Insert,
        _ => PatchKind::Other,
    }
}

/// Compares two paths: whether the first comes before the second, and whether
/// they are the same.
fn compare_paths(a: &Vec<usize>, b: &Vec<usize>) -> (r: (bool, bool))
    ensures
        r.0 == path_lt(a@, b@),
        r.1 == (a@ == b@),
{
    let mut k: usize = 0;
    while k < a.len() && k < b.len()
        invariant
            k <= a@.len(),
            k <= b@.len(),
            path_lt(a@, b@) == path_lt_from(a@, b@, k as int),
            forall|j: int| 0 <= j < k ==> a@[j] == b@[j],
        decreases a@.len() - k,
    {
        if a[k] != b[k] {
            return (a[k] < b[k], false);
        }
        k += 1;
    }
    if a.len() == b.len() {
        assert(a@ =~= b@);
        (false, true)
    } else {
        (k >= a.len(), false)
    }
}

/// Whether `a` must be applied before `b` within a group.
fn is_before(a: &Patch, b: &Patch, descending: bool) -> (r: bool)
    ensures
        r == child_before(a@, b@, descending),
{
    let (less, same) = compare_paths(path_of(a), path_of(b));
    if less {
        return true;
    }
    if !same {
        return false;
    }
    let ia = index_of_child(a);
    let ib = index_of_child(b);
    if descending {
        ia > ib
    } else {
        ia < ib
    }
}

/// The child index that a removal or an insertion names.
fn index_of_child(patch: &Patch) -> (index: usize)
    ensures
        index as int == child_index(patch@),
{
    match patch {
        Patch::RemoveChild { index, .. } => *index,
        Patch::InsertChild { index, .. } => *index,
        _ => 0,
    }
}

/// The positions, in order, of the patches of one group at one depth.
fn level_indices(patches: &[Patch], depth: usize, kind: PatchKind) -> (out: Vec<usize>)
    ensures
        in_range(out@, patches@.len()),
        picked(patches_view(patches@), out@) == level_part(
            patches_view(patches@),
            depth as nat,
            kind,
        ),
{
    let ghost pv = patches_view(patches@);
    let mut out: Vec<usize> = Vec::new();
    let mut i: usize = 0;
    assert(picked(pv, out@) =~= level_part(pv.subrange(0, 0), depth as nat, kind));
    while i < patches.len()
        invariant
            i <= patches@.len(),
            pv == patches_view(patches@),
            in_range(out@, patches@.len()),
            picked(pv, out@) == level_part(pv.subrange(0, i as int), depth as nat, kind),
        decreases patches@.len() - i,
    {
        let ghost before = out@;
        let ghost prefix = pv.subrange(0, i + 1);
        proof {
            assert(prefix.drop_last() =~= pv.subrange(0, i as int));
            assert(prefix.last() == pv[i as int]);
        }
        if path_of(&patches[i]).len() == depth && kind_of(&patches[i]) == kind {
            out.push(i);
            assert(picked(pv, out@) =~= picked(pv, before).push(pv[i as int]));
        }
        i += 1;
    }
    assert(pv.subrange(0, i as int) =~= pv);
    out
}

/// Sorts the positions of the patches of one group.
fn sort_indices(patches: &[Patch], indices: &Vec<usize>, descending: bool) -> (out: Vec<usize>)
    requires
        in_range(indices@, patches@.len()),
    ensures
        in_range(out@, patches@.len()),
        picked(patches_view(patches@), out@) == sorted_by(
            picked(patches_view(patches@), indices@),
            descending,
        ),
{
    let ghost pv = patches_view(patches@);
    let ghost all = picked(pv, indices@);
    let mut out: Vec<usize> = Vec::new();
    let mut n: usize = 0;
    assert(picked(pv, out@) =~= sorted_by(all.subrange(0, 0), descending));
    while n < indices.len()
        invariant
            n <= indices@.len(),
            pv == patches_view(patches@),
            all == picked(pv, indices@),
            in_range(indices@, patches@.len()),
            in_range(out@, patches@.len()),
            picked(pv, out@) == sorted_by(all.subrange(0, n as int), descending),
        decreases indices@.len() - n,
    {
        let index = indices[n];
        let ghost sorted = picked(pv, out@);
        let ghost before = out@;
        let mut pos: usize = out.len();
        while pos > 0 && is_before(&patches[index], &patches[out[pos - 1]], descending)
            invariant
                pos <= out@.len(),
                index < patches@.len(),
                pv == patches_view(patches@),
                in_range(out@, patches@.len()),
                sorted == picked(pv, out@),
                forall|j: int|
                    pos <= j < sorted.len() ==> child_before(
                        pv[index as int],
                        #[trigger] sorted[j],
                        descending,
                    ),
            decreases pos,
        {
            pos -= 1;
        }
        proof {
            lemma_insert_sorted_at(sorted, pv[index as int], descending, pos as int);
            let prefix = all.subrange(0, n + 1);
            assert(prefix.drop_last() =~= all.subrange(0, n as int));
            assert(prefix.last() == pv[index as int]);
        }
        out.insert(pos, index);
        assert(picked(pv, out@) =~= sorted.insert(pos as int, pv[index as int]));
        n += 1;
    }
    assert(all.subrange(0, n as int) =~= all);
    out
}

/// Adds the positions in `more` to the end of `order`.
fn append_indices(order: &mut Vec<usize>, more: Vec<usize>, Ghost(pv): Ghost<Seq<PatchModel>>)
    requires
        in_range(old(order)@, pv.len()),
        in_range(more@, pv.len()),
    ensures
        in_range(final(order)@, pv.len()),
        picked(pv, final(order)@) == picked(pv, old(order)@) + picked(pv, more@),
{
    let mut more = more;
    let ghost added = more@;
    order.append(&mut more);
    assert(picked(pv, order@) =~= picked(pv, old(order)@) + picked(pv, added));
}

/// The length of the longest path among the patches.
fn max_depth_of(patches: &[Patch]) -> (depth: usize)
    ensures
        depth == max_depth(patches_view(patches@)),
{
    let ghost pv = patches_view(patches@);
    let mut depth: usize = 0;
    let mut i: usize = 0;
    while i < patches.len()
        invariant
            i <= patches@.len(),
            pv == patches_view(patches@),
            depth == max_depth(pv.subrange(0, i as int)),
        decreases patches@.len() - i,
    {
        let ghost prefix = pv.subrange(0, i + 1);
        proof {
            assert(prefix.drop_last() =~= pv.subrange(0, i as int));
            assert(prefix.last() == pv[i as int]);
        }
        let len = path_of(&patches[i]).len();
        if len > depth {
            depth = len;
        }
        i += 1;
    }
    assert(pv.subrange(0, i as int) =~= pv);
    depth
}

/// The positions of all the patches in the order in which a batch applies
/// them.
fn batch_order_of(patches: &[Patch]) -> (order: Vec<usize>)
    ensures
        in_range(order@, patches@.len()),
        picked(patches_view(patches@), order@) == batch_order(patches_view(patches@)),
{
    let ghost pv = patches_view(patches@);
    let deepest = max_depth_of(patches);
    let mut order: Vec<usize> = Vec::new();
    let mut depth: usize = 0;
    assert(picked(pv, order@) =~= levels_upto(pv, 0));
    loop
        invariant_except_break
            picked(pv, order@) == levels_upto(pv, depth as nat),
        invariant
            depth <= deepest,
            deepest == max_depth(pv),
            pv == patches_view(patches@),
            in_range(order@, patches@.len()),
        ensures
            picked(pv, order@) == levels_upto(pv, (deepest + 1) as nat),
            in_range(order@, patches@.len()),
        decreases deepest - depth,
    {
        let removes = level_indices(patches, depth, PatchKind::Remove);
        let removes = sort_indices(patches, &removes, true);
        let moves = level_indices(patches, depth, PatchKind::Move);
        let inserts = level_indices(patches, depth, PatchKind::Insert);
        let inserts = sort_indices(patches, &inserts, false);
        let others = level_indices(patches, depth, PatchKind::Other);
        let ghost before = picked(pv, order@);
        append_indices(&mut order, removes, Ghost(pv));
        append_indices(&mut order, moves, Ghost(pv));
        append_indices(&mut order, inserts, Ghost(pv));
        append_indices(&mut order, others, Ghost(pv));
        assert(picked(pv, order@) =~= before + level_order(pv, depth as nat));
        if depth == deepest {
            break ;
        }
        depth += 1;
    }
    order
}

/// The identity of the child that each move takes, as `root` has it now.
fn move_sources(root: &VNode, patches: &[Patch]) -> (sources: Vec<Option<String>>)
    ensures
        sources@.len() == patches@.len(),
        forall|i: int|
            0 <= i < patches@.len() ==> opt_view(#[trigger] sources@[i]) == source_id(
                root@,
                patches@[i]@,
            ),
{
    let mut sources: Vec<Option<String>> = Vec::new();
    let mut i: usize = 0;
    while i < patches.len()
        invariant
            i <= patches@.len(),
            sources@.len() == i,
            forall|j: int|
                0 <= j < i ==> opt_view(#[trigger] sources@[j]) == source_id(
                    root@,
                    patches@[j]@,
                ),
        decreases patches@.len() - i,
    {
        let source = match &patches[i] {
            Patch::MoveChild { path, from, .. } => match get_node(root, path.as_slice()) {
                Some(parent) => {
                    proof {
                        lemma_children_view(parent);
                    }
                    if *from < parent.children.len() {
                        clone_opt(&parent.children[*from].djust_id)
                    } else {
                        None
                    }
                },
                None => None,
            },
            _ => None,
        };
        sources.push(source);
        i += 1;
    }
    sources
}

/// Applies a list of patches to a tree.
///
/// The patches are applied depth by depth, the shallowest paths first, so
/// that the shape of the tree is settled at each level before the paths that
/// go through it are followed. Within one depth come first the removals, by
/// descending index; then the moves, each resolved by the identity that the
/// child at `from` had before any patch was applied; then the insertions, by
/// ascending index; then everything else.
pub fn apply_patches(root: &mut VNode, patches: &[Patch])
    ensures
        final(root)@ == apply_patches_spec(old(root)@, patches_view(patches@)),
{
    let ghost snapshot = root@;
    let ghost pv = patches_view(patches@);
    let sources = move_sources(&*root, patches);
    let order = batch_order_of(patches);
    let ghost ordered = picked(pv, order@);
    let mut k: usize = 0;
    assert(ordered.subrange(0, 0) =~= Seq::<PatchModel>::empty());
    while k < order.len()
        invariant
            k <= order@.len(),
            pv == patches_view(patches@),
            ordered == picked(pv, order@),
            in_range(order@, patches@.len()),
            sources@.len() == patches@.len(),
            forall|i: int|
                0 <= i < patches@.len() ==> opt_view(#[trigger] sources@[i]) == source_id(
                    snapshot,
                    patches@[i]@,
                ),
            root@ == apply_in_order(snapshot, snapshot, ordered.subrange(0, k as int)),
        decreases order@.len() - k,
    {
        let i = order[k];
        let patch = &patches[i];
        let path = path_of(patch);
        proof {
            let prefix = ordered.subrange(0, k + 1);
            assert(prefix.drop_last() =~= ordered.subrange(0, k as int));
            assert(prefix.last() == patch@);
            assert(path@.subrange(0, path@.len() as int) =~= path@);
        }
        edit_at(root, path, 0, patch, true, &sources[i]);
        k += 1;
    }
    assert(ordered.subrange(0, k as int) =~= ordered);
}

} // verus!
