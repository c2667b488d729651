//! Replaying the diff of two trees: what the patch applier makes of the
//! patches that the diff engine gives.

use crate::vdom::attrs::{
    as_map, has_key, index_of, lemma_index_of_unique, lemma_with_entry_unique,
    lemma_without_entry_unique, unique_keys, value_of, with_entry, without_entry, Entry,
};
use crate::vdom::diff::{
    any_key, common_pairs, concat_upto, diff_attrs_spec, diff_children_spec, diff_nodes_spec,
    insert_at, lemma_concat_ext, new_attr_step, old_attr_step, pair_step, remove_at,
    replace_mode,
};
use crate::vdom::node::{id_attr, lemma_children_view, same_structure, NodeModel, VNode};
use crate::vdom::ops::PatchModel;
use crate::vdom::theorems::lemma_common_pairs_steps;
use crate::vdom::patch::{
    apply_in_order, apply_patches_spec, batch_step, child_before, child_index, kind_of_spec,
    level_order, level_part, levels_upto, local_edit, max_depth, path_lt, path_lt_from,
    sorted_by, source_id, update_at, PatchKind,
};
use vstd::prelude::*;

verus! {

/// The patch with another path.
pub open spec fn with_path(patch: PatchModel, path: Seq<usize>) -> PatchModel {
    match patch {
        PatchModel::Replace { d, node, .. } => PatchModel::Replace { path, d, node },
        PatchModel::SetText { d, text, .. } => PatchModel::SetText { path, d, text },
        PatchModel::SetAttr { d, key, value, .. } => PatchModel::SetAttr { path, d, key, value },
        PatchModel::RemoveAttr { d, key, .. } => PatchModel::RemoveAttr { path, d, key },
        PatchModel::InsertChild { d, index, node, .. } => PatchModel::InsertChild {
            path,
            d,
            index,
            node,
        },
        PatchModel::RemoveChild { d, index, .. } => PatchModel::RemoveChild { path, d, index },
        PatchModel::MoveChild { d, from, to, .. } => PatchModel::MoveChild { path, d, from, to },
    }
}

/// The patches with `prefix` before the path of each.
pub open spec fn prefixed(prefix: Seq<usize>, patches: Seq<PatchModel>) -> Seq<PatchModel> {
    Seq::new(patches.len(), |i: int| with_path(patches[i], prefix + patches[i].path()))
}

/// Whether a patch addresses the child `index` of the root or a node below it.
pub open spec fn goes_into(patch: PatchModel, index: usize) -> bool {
    patch.path().len() > 0 && patch.path()[0] == index
}

/// The patches that go into the child `index` of the root, as that child
/// sees them: without the first step of their paths.
pub open spec fn sub_patches(patches: Seq<PatchModel>, index: usize) -> Seq<PatchModel>
    decreases patches.len(),
{
    if patches.len() == 0 {
        Seq::empty()
    } else {
        let rest = sub_patches(patches.drop_last(), index);
        let last = patches.last();
        if goes_into(last, index) {
            rest.push(with_path(last, last.path().drop_first()))
        } else {
            rest
        }
    }
}

/// The patches of the depths from `low` up to, not including, `high`.
pub open spec fn levels_between(patches: Seq<PatchModel>, low: nat, high: nat) -> Seq<PatchModel>
    decreases high,
{
    if high <= low {
        Seq::empty()
    } else {
        levels_between(patches, low, (high - 1) as nat) + level_order(patches, (high - 1) as nat)
    }
}

/// No patch is a move.
pub open spec fn move_free(patches: Seq<PatchModel>) -> bool {
    forall|i: int| 0 <= i < patches.len() ==> !((#[trigger] patches[i]) is MoveChild)
}

/// Every patch addresses a node below the root.
pub open spec fn all_below_root(patches: Seq<PatchModel>) -> bool {
    forall|i: int| 0 <= i < patches.len() ==> (#[trigger] patches[i]).path().len() > 0
}

/// No patch comes before an earlier one in the order of its group.
pub open spec fn in_order(patches: Seq<PatchModel>, descending: bool) -> bool {
    forall|i: int, j: int|
        0 <= i < j < patches.len() ==> !child_before(
            #[trigger] patches[j],
            #[trigger] patches[i],
            descending,
        )
}

pub proof fn lemma_levels_upto(patches: Seq<PatchModel>, depth: nat)
    ensures
        levels_upto(patches, depth) == levels_between(patches, 0, depth),
    decreases depth,
{
    if depth > 0 {
        lemma_levels_upto(patches, (depth - 1) as nat);
    }
}

/// The levels from `low` on are the level `low` and the levels after it.
pub proof fn lemma_levels_split(patches: Seq<PatchModel>, low: nat, high: nat)
    requires
        low < high,
    ensures
        levels_between(patches, low, high) == level_order(patches, low) + levels_between(
            patches,
            low + 1,
            high,
        ),
    decreases high,
{
    if high == low + 1 {
        assert(levels_between(patches, low, low) =~= Seq::<PatchModel>::empty());
        assert(levels_between(patches, low + 1, high) =~= Seq::<PatchModel>::empty());
        assert(levels_between(patches, low, high) =~= level_order(patches, low));
    } else {
        lemma_levels_split(patches, low, (high - 1) as nat);
        assert(levels_between(patches, low, high) =~= level_order(patches, low) + levels_between(
            patches,
            low + 1,
            high,
        ));
    }
}

/// The patches of one group at one depth, of two lists one after the other.
pub proof fn lemma_level_part_concat(
    a: Seq<PatchModel>,
    b: Seq<PatchModel>,
    depth: nat,
    kind: PatchKind,
)
    ensures
        level_part(a + b, depth, kind) == level_part(a, depth, kind) + level_part(b, depth, kind),
    decreases b.len(),
{
    if b.len() == 0 {
        assert(a + b =~= a);
        assert(level_part(a, depth, kind) + level_part(b, depth, kind) =~= level_part(
            a,
            depth,
            kind,
        ));
    } else {
        assert((a + b).drop_last() =~= a + b.drop_last());
        lemma_level_part_concat(a, b.drop_last(), depth, kind);
        assert(level_part(a + b, depth, kind) =~= level_part(a, depth, kind) + level_part(
            b,
            depth,
            kind,
        ));
    }
}

/// What a part of a list holds: patches of the list, of that depth and
/// group, in their order.
pub proof fn lemma_level_part_items(patches: Seq<PatchModel>, depth: nat, kind: PatchKind)
    ensures
        forall|i: int|
            0 <= i < level_part(patches, depth, kind).len() ==> {
                let p = #[trigger] level_part(patches, depth, kind)[i];
                p.path().len() == depth && kind_of_spec(p) == kind && patches.contains(p)
            },
    decreases patches.len(),
{
    if patches.len() > 0 {
        lemma_level_part_items(patches.drop_last(), depth, kind);
        let part = level_part(patches, depth, kind);
        assert forall|i: int| 0 <= i < part.len() implies {
            let p = #[trigger] part[i];
            p.path().len() == depth && kind_of_spec(p) == kind && patches.contains(p)
        } by {
            let rest = level_part(patches.drop_last(), depth, kind);
            if i < rest.len() {
                let p = rest[i];
                let k = choose|k: int| 0 <= k < patches.drop_last().len() && patches.drop_last()[k] == p;
                assert(patches[k] == p);
            } else {
                assert(part[i] == patches[patches.len() - 1]);
            }
        }
    }
}

/// A part that nothing belongs to is empty.
pub proof fn lemma_level_part_none(patches: Seq<PatchModel>, depth: nat, kind: PatchKind)
    requires
        forall|i: int|
            0 <= i < patches.len() ==> !((#[trigger] patches[i]).path().len() == depth
                && kind_of_spec(patches[i]) == kind),
    ensures
        level_part(patches, depth, kind) == Seq::<PatchModel>::empty(),
    decreases patches.len(),
{
    if patches.len() > 0 {
        assert forall|i: int| 0 <= i < patches.drop_last().len() implies !((
        #[trigger] patches.drop_last()[i]).path().len() == depth && kind_of_spec(
            patches.drop_last()[i],
        ) == kind) by {
            assert(patches.drop_last()[i] == patches[i]);
        }
        lemma_level_part_none(patches.drop_last(), depth, kind);
    }
}

/// A part that everything belongs to is the whole list.
pub proof fn lemma_level_part_all(patches: Seq<PatchModel>, depth: nat, kind: PatchKind)
    requires
        forall|i: int|
            0 <= i < patches.len() ==> (#[trigger] patches[i]).path().len() == depth
                && kind_of_spec(patches[i]) == kind,
    ensures
        level_part(patches, depth, kind) == patches,
    decreases patches.len(),
{
    if patches.len() > 0 {
        assert forall|i: int| 0 <= i < patches.drop_last().len() implies (
        #[trigger] patches.drop_last()[i]).path().len() == depth && kind_of_spec(
            patches.drop_last()[i],
        ) == kind by {
            assert(patches.drop_last()[i] == patches[i]);
        }
        lemma_level_part_all(patches.drop_last(), depth, kind);
        assert(patches.drop_last().push(patches.last()) =~= patches);
    } else {
        assert(level_part(patches, depth, kind) =~= patches);
    }
}

/// Sorting what is in order already changes nothing.
pub proof fn lemma_sorted_in_order(patches: Seq<PatchModel>, descending: bool)
    requires
        in_order(patches, descending),
    ensures
        sorted_by(patches, descending) == patches,
    decreases patches.len(),
{
    if patches.len() > 0 {
        let front = patches.drop_last();
        assert forall|i: int, j: int| 0 <= i < j < front.len() implies !child_before(
            #[trigger] front[j],
            #[trigger] front[i],
            descending,
        ) by {
            assert(front[i] == patches[i] && front[j] == patches[j]);
        }
        lemma_sorted_in_order(front, descending);
        if front.len() > 0 {
            assert(front.last() == patches[front.len() - 1]);
            assert(patches.last() == patches[patches.len() - 1]);
            assert(!child_before(patches.last(), front.last(), descending));
        }
        assert(front.push(patches.last()) =~= patches);
    }
}

/// Patches applied one after the other, in two runs.
pub proof fn lemma_apply_concat(
    snapshot: NodeModel,
    root: NodeModel,
    a: Seq<PatchModel>,
    b: Seq<PatchModel>,
)
    ensures
        apply_in_order(snapshot, root, a + b) == apply_in_order(
            snapshot,
            apply_in_order(snapshot, root, a),
            b,
        ),
    decreases b.len(),
{
    if b.len() == 0 {
        assert(a + b =~= a);
    } else {
        assert((a + b).drop_last() =~= a + b.drop_last());
        assert((a + b).last() == b.last());
        lemma_apply_concat(snapshot, root, a, b.drop_last());
    }
}

/// The patches that go into a child, of two lists one after the other.
pub proof fn lemma_sub_concat(a: Seq<PatchModel>, b: Seq<PatchModel>, index: usize)
    ensures
        sub_patches(a + b, index) == sub_patches(a, index) + sub_patches(b, index),
    decreases b.len(),
{
    if b.len() == 0 {
        assert(a + b =~= a);
        assert(sub_patches(a, index) + sub_patches(b, index) =~= sub_patches(a, index));
    } else {
        assert((a + b).drop_last() =~= a + b.drop_last());
        lemma_sub_concat(a, b.drop_last(), index);
        assert(sub_patches(a + b, index) =~= sub_patches(a, index) + sub_patches(b, index));
    }
}

/// What a patch does to a node does not depend on its path.
pub proof fn lemma_local_edit_path(
    node: NodeModel,
    patch: PatchModel,
    path: Seq<usize>,
    batch: bool,
    source: Option<Seq<char>>,
)
    ensures
        local_edit(node, with_path(patch, path), batch, source) == local_edit(
            node,
            patch,
            batch,
            source,
        ),
{
}

/// Where a patch is applied depends on the path that is followed, not on
/// the path that the patch carries.
pub proof fn lemma_update_at_path(
    root: NodeModel,
    way: Seq<usize>,
    patch: PatchModel,
    path: Seq<usize>,
    batch: bool,
    source: Option<Seq<char>>,
)
    ensures
        update_at(root, way, with_path(patch, path), batch, source) == update_at(
            root,
            way,
            patch,
            batch,
            source,
        ),
    decreases way.len(),
{
    if way.len() == 0 {
        lemma_local_edit_path(root, patch, path, batch, source);
    } else if way[0] < root.children.len() {
        lemma_update_at_path(
            root.children[way[0] as int],
            way.drop_first(),
            patch,
            path,
            batch,
            source,
        );
    }
}

/// A tree whose children have each had the patches that go into them.
pub open spec fn projected(snapshot: NodeModel, root: NodeModel, patches: Seq<PatchModel>)
    -> NodeModel {
    NodeModel {
        children: Seq::new(
            root.children.len(),
            |i: int|
                apply_in_order(
                    snapshot,
                    root.children[i],
                    sub_patches(patches, #[verifier::truncate] (i as usize)),
                ),
        ),
        ..root
    }
}

/// Patches that address nodes below the root, and move nothing, leave the
/// root as it is and work on each child by itself: each child sees the
/// patches that go into it, in their order, whatever goes into the others
/// in between.
#[verifier::rlimit(40)]
pub proof fn lemma_apply_projected(snapshot: NodeModel, root: NodeModel, patches: Seq<PatchModel>)
    requires
        all_below_root(patches),
        move_free(patches),
        root.children.len() <= usize::MAX,
    ensures
        apply_in_order(snapshot, root, patches) == projected(snapshot, root, patches),
    decreases patches.len(),
{
    if patches.len() == 0 {
        assert(projected(snapshot, root, patches).children =~= root.children);
    } else {
        let front = patches.drop_last();
        let last = patches.last();
        assert forall|i: int| 0 <= i < front.len() implies (#[trigger] front[i]).path().len()
            > 0 && !(front[i] is MoveChild) by {
            assert(front[i] == patches[i]);
        }
        assert(last == patches[patches.len() - 1]);
        lemma_apply_projected(snapshot, root, front);
        let before = projected(snapshot, root, front);
        let after = batch_step(snapshot, before, last);
        let way = last.path();
        let j = way[0];
        assert(source_id(snapshot, last) is None);
        let want = projected(snapshot, root, patches);
        assert(after.children =~= want.children) by {
            assert forall|i: int| 0 <= i < root.children.len() implies after.children[i]
                == want.children[i] by {
                let iu = #[verifier::truncate] (i as usize);
                if i == j {
                    let stripped = with_path(last, way.drop_first());
                    assert(sub_patches(patches, iu) == sub_patches(front, iu).push(stripped));
                    assert(sub_patches(patches, iu).drop_last() =~= sub_patches(front, iu));
                    assert(source_id(snapshot, stripped) is None);
                    lemma_update_at_path(
                        before.children[i],
                        way.drop_first(),
                        last,
                        way.drop_first(),
                        true,
                        None,
                    );
                } else {
                    assert(sub_patches(patches, iu) == sub_patches(front, iu));
                }
            }
        }
    }
}

/// No node below this one carries a key.
pub open spec fn keyless(node: NodeModel) -> bool
    decreases node,
{
    forall|i: int|
        0 <= i < node.children.len() ==> (#[trigger] node.children[i]).key is None && keyless(
            node.children[i],
        )
}

/// The number of children of each node fits the indices of patches.
pub open spec fn fits(node: NodeModel) -> bool
    decreases node,
{
    &&& node.children.len() <= usize::MAX
    &&& forall|i: int| 0 <= i < node.children.len() ==> fits(#[trigger] node.children[i])
}

pub proof fn lemma_prefixed_concat(prefix: Seq<usize>, a: Seq<PatchModel>, b: Seq<PatchModel>)
    ensures
        prefixed(prefix, a + b) == prefixed(prefix, a) + prefixed(prefix, b),
{
    assert(prefixed(prefix, a + b) =~= prefixed(prefix, a) + prefixed(prefix, b));
}

/// Steps that are prefixed one by one are prefixed together.
pub proof fn lemma_prefixed_steps(
    prefix: Seq<usize>,
    n: nat,
    f: spec_fn(int) -> Seq<PatchModel>,
    g: spec_fn(int) -> Seq<PatchModel>,
)
    requires
        forall|i: int| 0 <= i < n ==> #[trigger] g(i) == prefixed(prefix, f(i)),
    ensures
        concat_upto(n, g) == prefixed(prefix, concat_upto(n, f)),
    decreases n,
{
    if n > 0 {
        lemma_prefixed_steps(prefix, (n - 1) as nat, f, g);
        lemma_prefixed_concat(prefix, concat_upto((n - 1) as nat, f), f(n - 1));
    } else {
        assert(concat_upto(n, g) =~= prefixed(prefix, concat_upto(n, f)));
    }
}

/// The attribute patches of a node at a longer path.
pub proof fn lemma_diff_attrs_prefixed(
    old: Seq<Entry>,
    new: Seq<Entry>,
    prefix: Seq<usize>,
    path: Seq<usize>,
    d: Option<Seq<char>>,
)
    ensures
        diff_attrs_spec(old, new, prefix + path, d) == prefixed(
            prefix,
            diff_attrs_spec(old, new, path, d),
        ),
{
    let gone = |i: int| old_attr_step(old, new, path, d, i);
    let gone2 = |i: int| old_attr_step(old, new, prefix + path, d, i);
    let added = |i: int| new_attr_step(old, new, path, d, i);
    let added2 = |i: int| new_attr_step(old, new, prefix + path, d, i);
    assert forall|i: int| 0 <= i < old.len() implies #[trigger] gone2(i) == prefixed(
        prefix,
        gone(i),
    ) by {
        assert(gone2(i) =~= prefixed(prefix, gone(i)));
    }
    assert forall|i: int| 0 <= i < new.len() implies #[trigger] added2(i) == prefixed(
        prefix,
        added(i),
    ) by {
        assert(added2(i) =~= prefixed(prefix, added(i)));
    }
    lemma_prefixed_steps(prefix, old.len(), gone, gone2);
    lemma_prefixed_steps(prefix, new.len(), added, added2);
    lemma_prefixed_concat(prefix, concat_upto(old.len(), gone), concat_upto(new.len(), added));
}

/// The removals and insertions of a node at a longer path.
pub proof fn lemma_removes_prefixed(
    prefix: Seq<usize>,
    path: Seq<usize>,
    d: Option<Seq<char>>,
    top: int,
    n: nat,
)
    ensures
        concat_upto(n, |k: int| remove_at(prefix + path, d, top - k)) == prefixed(
            prefix,
            concat_upto(n, |k: int| remove_at(path, d, top - k)),
        ),
{
    let f = |k: int| remove_at(path, d, top - k);
    let g = |k: int| remove_at(prefix + path, d, top - k);
    assert forall|k: int| 0 <= k < n implies #[trigger] g(k) == prefixed(prefix, f(k)) by {
        assert(g(k) =~= prefixed(prefix, f(k)));
    }
    lemma_prefixed_steps(prefix, n, f, g);
}

pub proof fn lemma_inserts_prefixed(
    news: Seq<NodeModel>,
    prefix: Seq<usize>,
    path: Seq<usize>,
    d: Option<Seq<char>>,
    base: int,
    n: nat,
)
    ensures
        concat_upto(n, |k: int| insert_at(news, prefix + path, d, base + k)) == prefixed(
            prefix,
            concat_upto(n, |k: int| insert_at(news, path, d, base + k)),
        ),
{
    let f = |k: int| insert_at(news, path, d, base + k);
    let g = |k: int| insert_at(news, prefix + path, d, base + k);
    assert forall|k: int| 0 <= k < n implies #[trigger] g(k) == prefixed(prefix, f(k)) by {
        assert(g(k) =~= prefixed(prefix, f(k)));
    }
    lemma_prefixed_steps(prefix, n, f, g);
}

/// The diff of two trees at a longer path is the same diff with the longer
/// paths, where the new tree carries no keys.
#[verifier::rlimit(40)]
pub proof fn lemma_diff_prefixed(a: NodeModel, b: NodeModel, prefix: Seq<usize>, path: Seq<usize>)
    requires
        keyless(b),
    ensures
        diff_nodes_spec(a, b, prefix + path) == prefixed(prefix, diff_nodes_spec(a, b, path)),
    decreases a,
{
    let long = prefix + path;
    if a.tag != b.tag {
        assert(diff_nodes_spec(a, b, long) =~= prefixed(prefix, diff_nodes_spec(a, b, path)));
    } else if a.is_text() {
        assert(diff_nodes_spec(a, b, long) =~= prefixed(prefix, diff_nodes_spec(a, b, path)));
    } else {
        let d = a.djust_id;
        let olds = a.children;
        let news = b.children;
        lemma_diff_attrs_prefixed(a.attrs, b.attrs, prefix, path, d);
        assert(!any_key(news)) by {
            if any_key(news) {
                let i = choose|i: int| 0 <= i < news.len() && (#[trigger] news[i]).key is Some;
                assert(news[i].key is None);
            }
        }
        if replace_mode(a, b) {
            lemma_removes_prefixed(prefix, path, d, olds.len() - 1, olds.len());
            lemma_inserts_prefixed(news, prefix, path, d, 0, news.len());
            let f = |k: int| insert_at(news, path, d, 0 + k);
            let f0 = |k: int| insert_at(news, path, d, k);
            let g = |k: int| insert_at(news, long, d, 0 + k);
            let g0 = |k: int| insert_at(news, long, d, k);
            lemma_concat_ext(news.len(), f, f0);
            lemma_concat_ext(news.len(), g, g0);
            lemma_prefixed_concat(
                prefix,
                concat_upto(olds.len(), |k: int| remove_at(path, d, olds.len() - 1 - k)),
                concat_upto(news.len(), f0),
            );
        } else {
            let common: nat = if olds.len() <= news.len() {
                olds.len()
            } else {
                news.len()
            };
            let extra_old: nat = if olds.len() > news.len() {
                (olds.len() - news.len()) as nat
            } else {
                0
            };
            let extra_new: nat = if news.len() > olds.len() {
                (news.len() - olds.len()) as nat
            } else {
                0
            };
            let pairs = |i: int| pair_step(olds, news, path, i, i);
            let pairs2 = |i: int| pair_step(olds, news, long, i, i);
            assert forall|i: int| 0 <= i < common implies #[trigger] pairs2(i) == prefixed(
                prefix,
                pairs(i),
            ) by {
                let step = #[verifier::truncate] (i as usize);
                assert(long.push(step) =~= prefix + path.push(step));
                lemma_diff_prefixed(olds[i], news[i], prefix, path.push(step));
            }
            lemma_common_pairs_steps(olds, news, path, common);
            lemma_common_pairs_steps(olds, news, long, common);
            lemma_prefixed_steps(prefix, common, pairs, pairs2);
            lemma_removes_prefixed(prefix, path, d, olds.len() - 1, extra_old);
            lemma_inserts_prefixed(news, prefix, path, d, olds.len() as int, extra_new);
            lemma_prefixed_concat(
                prefix,
                common_pairs(olds, news, path, common),
                concat_upto(extra_old, |k: int| remove_at(path, d, olds.len() - 1 - k)),
            );
            lemma_prefixed_concat(
                prefix,
                common_pairs(olds, news, path, common) + concat_upto(
                    extra_old,
                    |k: int| remove_at(path, d, olds.len() - 1 - k),
                ),
                concat_upto(extra_new, |k: int| insert_at(news, path, d, olds.len() + k)),
            );
        }
        lemma_prefixed_concat(
            prefix,
            diff_attrs_spec(a.attrs, b.attrs, path, d),
            diff_children_spec(a, b, path),
        );
    }
}

/// What holds of every patch of every step holds of every patch.
pub proof fn lemma_concat_all(
    n: nat,
    f: spec_fn(int) -> Seq<PatchModel>,
    holds: spec_fn(PatchModel) -> bool,
)
    requires
        forall|i: int, k: int| 0 <= i < n && 0 <= k < f(i).len() ==> holds(#[trigger] f(i)[k]),
    ensures
        forall|x: int| 0 <= x < concat_upto(n, f).len() ==> holds(#[trigger] concat_upto(n, f)[x]),
    decreases n,
{
    if n > 0 {
        lemma_concat_all((n - 1) as nat, f, holds);
        let front = concat_upto((n - 1) as nat, f);
        assert forall|x: int| 0 <= x < concat_upto(n, f).len() implies holds(
            #[trigger] concat_upto(n, f)[x],
        ) by {
            if x < front.len() {
                assert(concat_upto(n, f)[x] == front[x]);
            } else {
                assert(concat_upto(n, f)[x] == f(n - 1)[x - front.len()]);
            }
        }
    }
}

/// Steps of one patch each give the patches, one for each step.
pub proof fn lemma_concat_singletons(
    n: nat,
    f: spec_fn(int) -> Seq<PatchModel>,
    g: spec_fn(int) -> PatchModel,
)
    requires
        forall|k: int| 0 <= k < n ==> #[trigger] f(k) == seq![g(k)],
    ensures
        concat_upto(n, f) == Seq::new(n, g),
    decreases n,
{
    if n > 0 {
        lemma_concat_singletons((n - 1) as nat, f, g);
        assert(concat_upto(n, f) =~= Seq::new(n, g));
    } else {
        assert(concat_upto(n, f) =~= Seq::new(n, g));
    }
}

/// Of steps of which one gives something, that is all there is.
pub proof fn lemma_concat_one(
    n: nat,
    f: spec_fn(int) -> Seq<PatchModel>,
    at: int,
    what: Seq<PatchModel>,
)
    requires
        forall|j: int| 0 <= j < n && j != at ==> (#[trigger] f(j)).len() == 0,
        0 <= at < n ==> f(at) == what,
    ensures
        concat_upto(n, f) == (if 0 <= at < n {
            what
        } else {
            Seq::empty()
        }),
    decreases n,
{
    if n > 0 {
        lemma_concat_one((n - 1) as nat, f, at, what);
        if at == n - 1 {
            assert(concat_upto(n, f) =~= what);
        } else {
            assert(concat_upto(n, f) =~= concat_upto((n - 1) as nat, f));
        }
    }
}

/// The part of one group at one depth, step by step.
pub proof fn lemma_level_part_steps(
    n: nat,
    f: spec_fn(int) -> Seq<PatchModel>,
    depth: nat,
    kind: PatchKind,
)
    ensures
        level_part(concat_upto(n, f), depth, kind) == concat_upto(
            n,
            |i: int| level_part(f(i), depth, kind),
        ),
    decreases n,
{
    let g = |i: int| level_part(f(i), depth, kind);
    if n > 0 {
        lemma_level_part_steps((n - 1) as nat, f, depth, kind);
        lemma_level_part_concat(concat_upto((n - 1) as nat, f), f(n - 1), depth, kind);
    } else {
        assert(concat_upto(n, g) =~= Seq::<PatchModel>::empty());
    }
}

/// The patches that go into a child, step by step.
pub proof fn lemma_sub_steps(n: nat, f: spec_fn(int) -> Seq<PatchModel>, index: usize)
    ensures
        sub_patches(concat_upto(n, f), index) == concat_upto(
            n,
            |j: int| sub_patches(f(j), index),
        ),
    decreases n,
{
    let g = |j: int| sub_patches(f(j), index);
    if n > 0 {
        lemma_sub_steps((n - 1) as nat, f, index);
        lemma_sub_concat(concat_upto((n - 1) as nat, f), f(n - 1), index);
    } else {
        assert(concat_upto(n, g) =~= Seq::<PatchModel>::empty());
    }
}

/// The patches of a child's diff at one depth are, seen from the parent,
/// one level deeper.
pub proof fn lemma_level_part_prefixed(
    step: usize,
    patches: Seq<PatchModel>,
    depth: nat,
    kind: PatchKind,
)
    ensures
        level_part(prefixed(seq![step], patches), depth, kind) == (if depth >= 1 {
            prefixed(seq![step], level_part(patches, (depth - 1) as nat, kind))
        } else {
            Seq::empty()
        }),
    decreases patches.len(),
{
    let long = prefixed(seq![step], patches);
    if patches.len() == 0 {
        assert(long =~= Seq::<PatchModel>::empty());
        if depth >= 1 {
            assert(prefixed(seq![step], level_part(patches, (depth - 1) as nat, kind))
                =~= Seq::<PatchModel>::empty());
        }
    } else {
        assert(long.drop_last() =~= prefixed(seq![step], patches.drop_last()));
        lemma_level_part_prefixed(step, patches.drop_last(), depth, kind);
        let last = patches.last();
        assert(long.last() == with_path(last, seq![step] + last.path()));
        assert(kind_of_spec(long.last()) == kind_of_spec(last));
        assert(long.last().path().len() == last.path().len() + 1);
        if depth >= 1 {
            let inner = level_part(patches.drop_last(), (depth - 1) as nat, kind);
            if last.path().len() == depth - 1 && kind_of_spec(last) == kind {
                assert(prefixed(seq![step], inner.push(last)) =~= prefixed(seq![step], inner).push(
                    long.last(),
                ));
            }
        }
    }
}

/// The patches of a child's diff go, seen from the parent, into that child
/// and no other.
pub proof fn lemma_sub_prefixed(step: usize, patches: Seq<PatchModel>, index: usize)
    ensures
        sub_patches(prefixed(seq![step], patches), index) == (if index == step {
            patches
        } else {
            Seq::empty()
        }),
    decreases patches.len(),
{
    let long = prefixed(seq![step], patches);
    if patches.len() == 0 {
        assert(long =~= Seq::<PatchModel>::empty());
        assert(sub_patches(long, index) =~= patches);
    } else {
        assert(long.drop_last() =~= prefixed(seq![step], patches.drop_last()));
        lemma_sub_prefixed(step, patches.drop_last(), index);
        let last = patches.last();
        let way = seq![step] + last.path();
        assert(long.last() == with_path(last, way));
        assert(way[0] == step);
        assert(way.drop_first() =~= last.path());
        assert(with_path(with_path(last, way), last.path()) == last);
        if index == step {
            assert(patches.drop_last().push(last) =~= patches);
        }
    }
}

/// Two paths behind the same step compare as they do without it.
pub proof fn lemma_path_lt_shift(step: usize, a: Seq<usize>, b: Seq<usize>, k: int)
    requires
        0 <= k,
    ensures
        path_lt_from(seq![step] + a, seq![step] + b, k + 1) == path_lt_from(a, b, k),
    decreases a.len() - k,
{
    let la = seq![step] + a;
    let lb = seq![step] + b;
    if k >= b.len() {
    } else if k >= a.len() {
    } else {
        assert(la[k + 1] == a[k]);
        assert(lb[k + 1] == b[k]);
        if a[k] == b[k] {
            lemma_path_lt_shift(step, a, b, k + 1);
        }
    }
}

/// Two patches behind the same step are ordered as they are without it.
pub proof fn lemma_child_before_prefixed(
    step: usize,
    p: PatchModel,
    q: PatchModel,
    descending: bool,
)
    ensures
        child_before(
            with_path(p, seq![step] + p.path()),
            with_path(q, seq![step] + q.path()),
            descending,
        ) == child_before(p, q, descending),
{
    let a = p.path();
    let b = q.path();
    let la = seq![step] + a;
    let lb = seq![step] + b;
    lemma_path_lt_shift(step, a, b, 0);
    assert(la[0] == lb[0]);
    assert(path_lt(la, lb) == path_lt(a, b));
    assert((la == lb) == (a == b)) by {
        if la == lb {
            assert(a =~= la.drop_first());
            assert(b =~= lb.drop_first());
        }
    }
    assert(child_index(with_path(p, la)) == child_index(p));
    assert(child_index(with_path(q, lb)) == child_index(q));
}

/// Patches that are in order stay in order behind a step.
pub proof fn lemma_in_order_prefixed(step: usize, patches: Seq<PatchModel>, descending: bool)
    requires
        in_order(patches, descending),
    ensures
        in_order(prefixed(seq![step], patches), descending),
{
    let long = prefixed(seq![step], patches);
    assert forall|i: int, j: int| 0 <= i < j < long.len() implies !child_before(
        #[trigger] long[j],
        #[trigger] long[i],
        descending,
    ) by {
        lemma_child_before_prefixed(step, patches[j], patches[i], descending);
    }
}

/// Every patch goes into a child before the child `bound`.
pub open spec fn all_before(patches: Seq<PatchModel>, bound: int) -> bool {
    forall|x: int|
        0 <= x < patches.len() ==> (#[trigger] patches[x]).path().len() > 0
            && patches[x].path()[0] < bound
}

/// The patches of the children, child after child, are in order where
/// those of each child are.
pub proof fn lemma_in_order_steps(
    n: nat,
    g: spec_fn(int) -> Seq<PatchModel>,
    descending: bool,
)
    requires
        n <= usize::MAX,
        forall|j: int| 0 <= j < n ==> in_order(#[trigger] g(j), descending),
        forall|j: int, k: int|
            0 <= j < n && 0 <= k < g(j).len() ==> (#[trigger] g(j)[k]).path().len() > 0
                && g(j)[k].path()[0] == j,
    ensures
        in_order(concat_upto(n, g), descending),
        all_before(concat_upto(n, g), n as int),
    decreases n,
{
    if n > 0 {
        lemma_in_order_steps((n - 1) as nat, g, descending);
        let front = concat_upto((n - 1) as nat, g);
        let all = concat_upto(n, g);
        let tail = g(n - 1);
        assert forall|x: int| 0 <= x < all.len() implies (#[trigger] all[x]).path().len() > 0
            && all[x].path()[0] < n by {
            if x < front.len() {
                assert(all[x] == front[x]);
            } else {
                assert(all[x] == tail[x - front.len()]);
            }
        }
        assert forall|i: int, j: int| 0 <= i < j < all.len() implies !child_before(
            #[trigger] all[j],
            #[trigger] all[i],
            descending,
        ) by {
            if j < front.len() {
                assert(all[i] == front[i] && all[j] == front[j]);
            } else if i >= front.len() {
                assert(all[i] == tail[i - front.len()] && all[j] == tail[j - front.len()]);
            } else {
                assert(all[i] == front[i]);
                assert(all[j] == tail[j - front.len()]);
                // The earlier patch goes into an earlier child.
                assert(all[i].path()[0] < n - 1);
                assert(all[j].path()[0] == n - 1);
            }
        }
    }
}

/// The diff of two trees, with paths that start at the root of the old one.
pub open spec fn root_diff(a: NodeModel, b: NodeModel) -> Seq<PatchModel> {
    diff_nodes_spec(a, b, Seq::empty())
}

/// Whether two nodes are diffed as elements: they have the same tag and are
/// no text.
pub open spec fn diffed_as_elements(a: NodeModel, b: NodeModel) -> bool {
    a.tag == b.tag && !a.is_text()
}

/// The number of children that are diffed pairwise.
pub open spec fn kids_count(a: NodeModel, b: NodeModel) -> nat {
    if replace_mode(a, b) {
        0
    } else if a.children.len() <= b.children.len() {
        a.children.len()
    } else {
        b.children.len()
    }
}

/// The number of children that are removed.
pub open spec fn removed_count(a: NodeModel, b: NodeModel) -> nat {
    (a.children.len() - kids_count(a, b)) as nat
}

/// The number of children that are inserted.
pub open spec fn inserted_count(a: NodeModel, b: NodeModel) -> nat {
    (b.children.len() - kids_count(a, b)) as nat
}

/// The removal of the child `index` of the root.
pub open spec fn root_remove(d: Option<Seq<char>>, index: int) -> PatchModel {
    PatchModel::RemoveChild { path: Seq::empty(), d, index: index as usize }
}

/// The insertion of the new child `index` under the root.
pub open spec fn root_insert(news: Seq<NodeModel>, d: Option<Seq<char>>, index: int)
    -> PatchModel {
    PatchModel::InsertChild { path: Seq::empty(), d, index: index as usize, node: news[index] }
}

/// The attribute patches of the root.
pub open spec fn attrs_part(a: NodeModel, b: NodeModel) -> Seq<PatchModel> {
    diff_attrs_spec(a.attrs, b.attrs, Seq::empty(), a.djust_id)
}

/// The removals of children of the root: the last child first.
pub open spec fn removes_part(a: NodeModel, b: NodeModel) -> Seq<PatchModel> {
    Seq::new(removed_count(a, b), |k: int| root_remove(a.djust_id, a.children.len() - 1 - k))
}

/// The insertions of children under the root: the first child first.
pub open spec fn inserts_part(a: NodeModel, b: NodeModel) -> Seq<PatchModel> {
    Seq::new(
        inserted_count(a, b),
        |k: int| root_insert(b.children, a.djust_id, kids_count(a, b) + k),
    )
}

/// The patches of the child `i`, as the root sees them.
pub open spec fn kid_part(a: NodeModel, b: NodeModel, i: int) -> Seq<PatchModel> {
    prefixed(seq![i as usize], root_diff(a.children[i], b.children[i]))
}

/// The patches of the children that are diffed pairwise.
pub open spec fn kids_part(a: NodeModel, b: NodeModel) -> Seq<PatchModel> {
    concat_upto(kids_count(a, b), |i: int| kid_part(a, b, i))
}

/// The children of a tree without keys are without keys, and none is keyed.
pub proof fn lemma_keyless(b: NodeModel)
    requires
        keyless(b),
    ensures
        !any_key(b.children),
        forall|i: int| 0 <= i < b.children.len() ==> keyless(#[trigger] b.children[i]),
{
    if any_key(b.children) {
        let i = choose|i: int| 0 <= i < b.children.len() && (#[trigger] b.children[i]).key is Some;
        assert(b.children[i].key is None);
    }
}

/// The diff of two elements: the attribute patches, the patches of the
/// children, the removals and the insertions.
#[verifier::rlimit(40)]
pub proof fn lemma_diff_parts(a: NodeModel, b: NodeModel)
    requires
        diffed_as_elements(a, b),
        keyless(b),
        fits(a),
    ensures
        root_diff(a, b) == attrs_part(a, b) + kids_part(a, b) + removes_part(a, b)
            + inserts_part(a, b),
{
    let root = Seq::<usize>::empty();
    let d = a.djust_id;
    let olds = a.children;
    let news = b.children;
    lemma_keyless(b);
    let removes = |k: int| remove_at(root, d, olds.len() - 1 - k);
    lemma_concat_singletons(
        removed_count(a, b),
        removes,
        |k: int| root_remove(d, olds.len() - 1 - k),
    );
    if replace_mode(a, b) {
        let inserts = |k: int| insert_at(news, root, d, k);
        lemma_concat_singletons(
            news.len(),
            inserts,
            |k: int| root_insert(news, d, kids_count(a, b) + k),
        );
        assert(kids_part(a, b) =~= Seq::<PatchModel>::empty());
        assert(root_diff(a, b) =~= attrs_part(a, b) + kids_part(a, b) + removes_part(a, b)
            + inserts_part(a, b));
    } else {
        let common = kids_count(a, b);
        let inserts = |k: int| insert_at(news, root, d, olds.len() + k);
        lemma_concat_singletons(
            inserted_count(a, b),
            inserts,
            |k: int| root_insert(news, d, kids_count(a, b) + k),
        );
        let pairs = |i: int| pair_step(olds, news, root, i, i);
        let kids = |i: int| kid_part(a, b, i);
        lemma_common_pairs_steps(olds, news, root, common);
        assert forall|i: int| 0 <= i < common implies #[trigger] pairs(i) == kids(i) by {
            let step = i as usize;
            assert(root.push(step) =~= seq![step] + root);
            lemma_diff_prefixed(olds[i], news[i], seq![step], root);
        }
        lemma_concat_ext(common, pairs, kids);
        if olds.len() > news.len() {
            assert(inserts_part(a, b) =~= Seq::<PatchModel>::empty());
            assert(concat_upto(0, inserts) =~= Seq::<PatchModel>::empty());
        } else {
            assert(removes_part(a, b) =~= Seq::<PatchModel>::empty());
            assert(concat_upto(0, removes) =~= Seq::<PatchModel>::empty());
        }
        assert(root_diff(a, b) =~= attrs_part(a, b) + kids_part(a, b) + removes_part(a, b)
            + inserts_part(a, b));
    }
}

/// An attribute patch of the root: it sets or removes an attribute there.
pub open spec fn is_root_attr_patch(patch: PatchModel) -> bool {
    patch.path().len() == 0 && (patch is SetAttr || patch is RemoveAttr)
}

/// The attribute patches address the root and nothing but attributes.
pub proof fn lemma_attrs_part(a: NodeModel, b: NodeModel)
    ensures
        forall|x: int|
            0 <= x < attrs_part(a, b).len() ==> is_root_attr_patch(#[trigger] attrs_part(a, b)[x]),
{
    let root = Seq::<usize>::empty();
    let d = a.djust_id;
    let gone = |i: int| old_attr_step(a.attrs, b.attrs, root, d, i);
    let added = |i: int| new_attr_step(a.attrs, b.attrs, root, d, i);
    let holds = |p: PatchModel| is_root_attr_patch(p);
    lemma_concat_all(a.attrs.len(), gone, holds);
    lemma_concat_all(b.attrs.len(), added, holds);
    let first = concat_upto(a.attrs.len(), gone);
    let second = concat_upto(b.attrs.len(), added);
    assert forall|x: int| 0 <= x < attrs_part(a, b).len() implies is_root_attr_patch(
        #[trigger] attrs_part(a, b)[x],
    ) by {
        if x < first.len() {
            assert(attrs_part(a, b)[x] == first[x]);
            assert(holds(first[x]));
        } else {
            assert(attrs_part(a, b)[x] == second[x - first.len()]);
            assert(holds(second[x - first.len()]));
        }
    }
}

/// The patches of the children address nodes below the root.
pub proof fn lemma_kids_part_below(a: NodeModel, b: NodeModel)
    ensures
        all_below_root(kids_part(a, b)),
{
    let kids = |i: int| kid_part(a, b, i);
    let holds = |p: PatchModel| p.path().len() > 0;
    lemma_concat_all(kids_count(a, b), kids, holds);
    assert forall|x: int| 0 <= x < kids_part(a, b).len() implies (#[trigger] kids_part(
        a,
        b,
    )[x]).path().len() > 0 by {
        assert(holds(kids_part(a, b)[x]));
    }
}

/// The patches of one group at the depth of the root.
pub proof fn lemma_root_level(a: NodeModel, b: NodeModel)
    requires
        diffed_as_elements(a, b),
        keyless(b),
        fits(a),
    ensures
        level_part(root_diff(a, b), 0, PatchKind::Remove) == removes_part(a, b),
        level_part(root_diff(a, b), 0, PatchKind::Move) == Seq::<PatchModel>::empty(),
        level_part(root_diff(a, b), 0, PatchKind::Insert) == inserts_part(a, b),
        level_part(root_diff(a, b), 0, PatchKind::Other) == attrs_part(a, b),
{
    lemma_diff_parts(a, b);
    lemma_attrs_part(a, b);
    lemma_kids_part_below(a, b);
    let at = attrs_part(a, b);
    let ki = kids_part(a, b);
    let re = removes_part(a, b);
    let ins = inserts_part(a, b);
    lemma_root_level_of(at, ki, re, ins, PatchKind::Remove);
    lemma_root_level_of(at, ki, re, ins, PatchKind::Move);
    lemma_root_level_of(at, ki, re, ins, PatchKind::Insert);
    lemma_root_level_of(at, ki, re, ins, PatchKind::Other);
}

/// The part of one group at the depth of the root, of four lists of which
/// the first holds attribute patches of the root, the second patches below
/// the root, the third removals at the root and the fourth insertions there.
proof fn lemma_root_level_of(
    at: Seq<PatchModel>,
    ki: Seq<PatchModel>,
    re: Seq<PatchModel>,
    ins: Seq<PatchModel>,
    kind: PatchKind,
)
    requires
        forall|x: int| 0 <= x < at.len() ==> is_root_attr_patch(#[trigger] at[x]),
        all_below_root(ki),
        forall|x: int|
            0 <= x < re.len() ==> (#[trigger] re[x]) is RemoveChild && re[x].path().len() == 0,
        forall|x: int|
            0 <= x < ins.len() ==> (#[trigger] ins[x]) is InsertChild && ins[x].path().len() == 0,
    ensures
        level_part(at + ki + re + ins, 0, kind) == (match kind {
            PatchKind::Remove => re,
            PatchKind::Move => Seq::empty(),
            PatchKind::Insert => ins,
            PatchKind::Other => at,
        }),
{
    lemma_level_part_concat(at + ki + re, ins, 0, kind);
    lemma_level_part_concat(at + ki, re, 0, kind);
    lemma_level_part_concat(at, ki, 0, kind);
    lemma_level_part_none(ki, 0, kind);
    if kind == PatchKind::Other {
        lemma_level_part_all(at, 0, kind);
    } else {
        lemma_level_part_none(at, 0, kind);
    }
    if kind == PatchKind::Remove {
        lemma_level_part_all(re, 0, kind);
    } else {
        lemma_level_part_none(re, 0, kind);
    }
    if kind == PatchKind::Insert {
        lemma_level_part_all(ins, 0, kind);
    } else {
        lemma_level_part_none(ins, 0, kind);
    }
    let e = Seq::<PatchModel>::empty();
    assert(e + e + re + e =~= re);
    assert(e + e + e + ins =~= ins);
    assert(at + e + e + e =~= at);
    assert(e + e + e + e =~= e);
}

/// The patches of one group at a depth below the root: those of the
/// children, one level up in each child.
#[verifier::rlimit(40)]
pub proof fn lemma_deep_level(a: NodeModel, b: NodeModel, depth: nat, kind: PatchKind)
    requires
        diffed_as_elements(a, b),
        keyless(b),
        fits(a),
        depth >= 1,
    ensures
        level_part(root_diff(a, b), depth, kind) == concat_upto(
            kids_count(a, b),
            |i: int|
                prefixed(
                    seq![i as usize],
                    level_part(root_diff(a.children[i], b.children[i]), (depth - 1) as nat, kind),
                ),
        ),
{
    lemma_diff_parts(a, b);
    lemma_attrs_part(a, b);
    let at = attrs_part(a, b);
    let ki = kids_part(a, b);
    let re = removes_part(a, b);
    let ins = inserts_part(a, b);
    lemma_level_part_concat(at + ki + re, ins, depth, kind);
    lemma_level_part_concat(at + ki, re, depth, kind);
    lemma_level_part_concat(at, ki, depth, kind);
    lemma_level_part_none(at, depth, kind);
    lemma_level_part_none(re, depth, kind);
    lemma_level_part_none(ins, depth, kind);
    let e = Seq::<PatchModel>::empty();
    let part = level_part(ki, depth, kind);
    assert(e + part + e + e =~= part);
    let kids = |i: int| kid_part(a, b, i);
    let parts = |i: int| level_part(kids(i), depth, kind);
    let wanted = |i: int|
        prefixed(
            seq![i as usize],
            level_part(root_diff(a.children[i], b.children[i]), (depth - 1) as nat, kind),
        );
    lemma_level_part_steps(kids_count(a, b), kids, depth, kind);
    assert forall|i: int| 0 <= i < kids_count(a, b) implies #[trigger] parts(i) == wanted(i) by {
        lemma_level_part_prefixed(
            i as usize,
            root_diff(a.children[i], b.children[i]),
            depth,
            kind,
        );
    }
    lemma_concat_ext(kids_count(a, b), parts, wanted);
}

/// A list of at most one patch is in order.
pub proof fn lemma_short_in_order(patches: Seq<PatchModel>, descending: bool)
    requires
        patches.len() <= 1,
    ensures
        in_order(patches, descending),
{
}

/// A part of a list is no longer than the list.
pub proof fn lemma_level_part_len(patches: Seq<PatchModel>, depth: nat, kind: PatchKind)
    ensures
        level_part(patches, depth, kind).len() <= patches.len(),
    decreases patches.len(),
{
    if patches.len() > 0 {
        lemma_level_part_len(patches.drop_last(), depth, kind);
    }
}

/// The diff of two nodes that are not diffed as elements holds one patch at
/// most.
pub proof fn lemma_leaf_diff(a: NodeModel, b: NodeModel)
    requires
        !diffed_as_elements(a, b),
    ensures
        root_diff(a, b).len() <= 1,
        forall|x: int|
            0 <= x < root_diff(a, b).len() ==> (#[trigger] root_diff(a, b)[x]).path().len() == 0
                && (root_diff(a, b)[x] is Replace || root_diff(a, b)[x] is SetText),
{
}

/// At every depth the removals of a diff stand in the order in which they
/// are applied, and so do the insertions, where the new tree carries no
/// keys.
#[verifier::rlimit(40)]
pub proof fn lemma_diff_in_order(a: NodeModel, b: NodeModel, depth: nat)
    requires
        keyless(b),
        fits(a),
        fits(b),
    ensures
        in_order(level_part(root_diff(a, b), depth, PatchKind::Remove), true),
        in_order(level_part(root_diff(a, b), depth, PatchKind::Insert), false),
    decreases a,
{
    if !diffed_as_elements(a, b) {
        lemma_leaf_diff(a, b);
        lemma_level_part_len(root_diff(a, b), depth, PatchKind::Remove);
        lemma_level_part_len(root_diff(a, b), depth, PatchKind::Insert);
    } else if depth == 0 {
        lemma_root_level(a, b);
        let re = removes_part(a, b);
        assert forall|i: int, j: int| 0 <= i < j < re.len() implies !child_before(
            #[trigger] re[j],
            #[trigger] re[i],
            true,
        ) by {
            assert(!path_lt(re[j].path(), re[i].path()));
        }
        let ins = inserts_part(a, b);
        assert forall|i: int, j: int| 0 <= i < j < ins.len() implies !child_before(
            #[trigger] ins[j],
            #[trigger] ins[i],
            false,
        ) by {
            assert(!path_lt(ins[j].path(), ins[i].path()));
        }
    } else {
        lemma_keyless(b);
        lemma_steps_in_order(a, b, depth, PatchKind::Remove, true);
        lemma_steps_in_order(a, b, depth, PatchKind::Insert, false);
    }
}

/// The step at a depth below the root: the patches of the group are those
/// of the children, which are in order child by child.
proof fn lemma_steps_in_order(
    a: NodeModel,
    b: NodeModel,
    depth: nat,
    kind: PatchKind,
    descending: bool,
)
    requires
        diffed_as_elements(a, b),
        keyless(b),
        fits(a),
        fits(b),
        depth >= 1,
        (kind == PatchKind::Remove && descending) || (kind == PatchKind::Insert && !descending),
    ensures
        in_order(level_part(root_diff(a, b), depth, kind), descending),
    decreases a, 0nat,
{
    lemma_keyless(b);
    lemma_deep_level(a, b, depth, kind);
    let g = |i: int|
        prefixed(
            seq![i as usize],
            level_part(root_diff(a.children[i], b.children[i]), (depth - 1) as nat, kind),
        );
    assert forall|j: int| 0 <= j < kids_count(a, b) implies in_order(
        #[trigger] g(j),
        descending,
    ) by {
        lemma_diff_in_order(a.children[j], b.children[j], (depth - 1) as nat);
        lemma_in_order_prefixed(
            j as usize,
            level_part(root_diff(a.children[j], b.children[j]), (depth - 1) as nat, kind),
            descending,
        );
    }
    assert forall|j: int, k: int| 0 <= j < kids_count(a, b) && 0 <= k < g(j).len() implies (
    #[trigger] g(j)[k]).path().len() > 0 && g(j)[k].path()[0] == j by {
        let inner = level_part(
            root_diff(a.children[j], b.children[j]),
            (depth - 1) as nat,
            kind,
        );
        assert(g(j)[k].path() == seq![j as usize] + inner[k].path());
        assert(g(j)[k].path()[0] == j as usize);
    }
    lemma_in_order_steps(kids_count(a, b), g, descending);
}

/// A diff moves nothing where the new tree carries no keys.
#[verifier::rlimit(40)]
pub proof fn lemma_diff_move_free(a: NodeModel, b: NodeModel)
    requires
        keyless(b),
        fits(a),
    ensures
        move_free(root_diff(a, b)),
    decreases a,
{
    if !diffed_as_elements(a, b) {
        lemma_leaf_diff(a, b);
    } else {
        lemma_keyless(b);
        lemma_diff_parts(a, b);
        lemma_attrs_part(a, b);
        let kids = |i: int| kid_part(a, b, i);
        let holds = |p: PatchModel| !(p is MoveChild);
        assert forall|i: int, k: int|
            0 <= i < kids_count(a, b) && 0 <= k < kids(i).len() implies holds(
            #[trigger] kids(i)[k],
        ) by {
            lemma_diff_move_free(a.children[i], b.children[i]);
            let inner = root_diff(a.children[i], b.children[i]);
            assert(!(inner[k] is MoveChild));
        }
        lemma_concat_all(kids_count(a, b), kids, holds);
        let at = attrs_part(a, b);
        let ki = kids_part(a, b);
        let re = removes_part(a, b);
        let ins = inserts_part(a, b);
        let all = root_diff(a, b);
        assert forall|x: int| 0 <= x < all.len() implies !((#[trigger] all[x]) is MoveChild) by {
            if x < at.len() {
                assert(all[x] == at[x]);
                assert(is_root_attr_patch(at[x]));
            } else if x < at.len() + ki.len() {
                assert(all[x] == ki[x - at.len()]);
                assert(holds(ki[x - at.len()]));
            } else if x < at.len() + ki.len() + re.len() {
                assert(all[x] == re[x - at.len() - ki.len()]);
            } else {
                assert(all[x] == ins[x - at.len() - ki.len() - re.len()]);
            }
        }
    }
}

/// The patches of one depth in the order in which they are applied, where
/// removals and insertions stand in that order already.
pub proof fn lemma_level_order_plain(patches: Seq<PatchModel>, depth: nat)
    requires
        in_order(level_part(patches, depth, PatchKind::Remove), true),
        in_order(level_part(patches, depth, PatchKind::Insert), false),
    ensures
        level_order(patches, depth) == level_part(patches, depth, PatchKind::Remove)
            + level_part(patches, depth, PatchKind::Move) + level_part(
            patches,
            depth,
            PatchKind::Insert,
        ) + level_part(patches, depth, PatchKind::Other),
{
    lemma_sorted_in_order(level_part(patches, depth, PatchKind::Remove), true);
    lemma_sorted_in_order(level_part(patches, depth, PatchKind::Insert), false);
}

/// What goes into the child `index` from the patches of one group at a
/// depth below the root: the patches of that group in the child's own diff,
/// one level up.
proof fn lemma_sub_level_part(
    a: NodeModel,
    b: NodeModel,
    depth: nat,
    kind: PatchKind,
    index: usize,
)
    requires
        diffed_as_elements(a, b),
        keyless(b),
        fits(a),
        depth >= 1,
    ensures
        sub_patches(level_part(root_diff(a, b), depth, kind), index) == (if index < kids_count(
            a,
            b,
        ) {
            level_part(
                root_diff(a.children[index as int], b.children[index as int]),
                (depth - 1) as nat,
                kind,
            )
        } else {
            Seq::empty()
        }),
{
    lemma_deep_level(a, b, depth, kind);
    let g = |i: int|
        prefixed(
            seq![i as usize],
            level_part(root_diff(a.children[i], b.children[i]), (depth - 1) as nat, kind),
        );
    let h = |j: int| sub_patches(g(j), index);
    lemma_sub_steps(kids_count(a, b), g, index);
    let what = level_part(
        root_diff(a.children[index as int], b.children[index as int]),
        (depth - 1) as nat,
        kind,
    );
    assert forall|j: int| 0 <= j < kids_count(a, b) && j != index implies (#[trigger] h(
        j,
    )).len() == 0 by {
        lemma_sub_prefixed(
            j as usize,
            level_part(root_diff(a.children[j], b.children[j]), (depth - 1) as nat, kind),
            index,
        );
    }
    if index < kids_count(a, b) {
        lemma_sub_prefixed(index, what, index);
        assert(h(index as int) == what);
    }
    lemma_concat_one(kids_count(a, b), h, index as int, what);
}

/// What goes into the child `index` from the patches of a depth below the
/// root: the patches of the child's own diff, one level up.
#[verifier::rlimit(40)]
pub proof fn lemma_sub_level_order(a: NodeModel, b: NodeModel, depth: nat, index: usize)
    requires
        diffed_as_elements(a, b),
        keyless(b),
        fits(a),
        fits(b),
        depth >= 1,
    ensures
        sub_patches(level_order(root_diff(a, b), depth), index) == (if index < kids_count(a, b) {
            level_order(
                root_diff(a.children[index as int], b.children[index as int]),
                (depth - 1) as nat,
            )
        } else {
            Seq::empty()
        }),
{
    let all = root_diff(a, b);
    lemma_keyless(b);
    lemma_diff_in_order(a, b, depth);
    lemma_level_order_plain(all, depth);
    let r = level_part(all, depth, PatchKind::Remove);
    let m = level_part(all, depth, PatchKind::Move);
    let i = level_part(all, depth, PatchKind::Insert);
    let o = level_part(all, depth, PatchKind::Other);
    lemma_sub_concat(r + m + i, o, index);
    lemma_sub_concat(r + m, i, index);
    lemma_sub_concat(r, m, index);
    lemma_sub_level_part(a, b, depth, PatchKind::Remove, index);
    lemma_sub_level_part(a, b, depth, PatchKind::Move, index);
    lemma_sub_level_part(a, b, depth, PatchKind::Insert, index);
    lemma_sub_level_part(a, b, depth, PatchKind::Other, index);
    if index < kids_count(a, b) {
        let kid = root_diff(a.children[index as int], b.children[index as int]);
        lemma_diff_in_order(
            a.children[index as int],
            b.children[index as int],
            (depth - 1) as nat,
        );
        lemma_level_order_plain(kid, (depth - 1) as nat);
    } else {
        let e = Seq::<PatchModel>::empty();
        assert(e + e + e + e =~= e);
    }
}

/// What goes into the child `index` from the patches of all the depths below
/// the root, up to `high`: the child's own diff, up to one level less.
pub proof fn lemma_sub_levels(a: NodeModel, b: NodeModel, high: nat, index: usize)
    requires
        diffed_as_elements(a, b),
        keyless(b),
        fits(a),
        fits(b),
        high >= 1,
    ensures
        sub_patches(levels_between(root_diff(a, b), 1, high), index) == (if index < kids_count(
            a,
            b,
        ) {
            levels_between(
                root_diff(a.children[index as int], b.children[index as int]),
                0,
                (high - 1) as nat,
            )
        } else {
            Seq::empty()
        }),
    decreases high,
{
    let all = root_diff(a, b);
    if high == 1 {
        assert(levels_between(all, 1, high) =~= Seq::<PatchModel>::empty());
        if index < kids_count(a, b) {
            assert(levels_between(
                root_diff(a.children[index as int], b.children[index as int]),
                0,
                0,
            ) =~= Seq::<PatchModel>::empty());
        }
    } else {
        lemma_sub_levels(a, b, (high - 1) as nat, index);
        lemma_sub_level_order(a, b, (high - 1) as nat, index);
        lemma_sub_concat(
            levels_between(all, 1, (high - 1) as nat),
            level_order(all, (high - 1) as nat),
            index,
        );
        if !(index < kids_count(a, b)) {
            let e = Seq::<PatchModel>::empty();
            assert(e + e =~= e);
        }
    }
}

/// The attributes after patches that set and remove attributes.
pub open spec fn attrs_after(attrs: Seq<Entry>, patches: Seq<PatchModel>) -> Seq<Entry>
    decreases patches.len(),
{
    if patches.len() == 0 {
        attrs
    } else {
        let before = attrs_after(attrs, patches.drop_last());
        match patches.last() {
            PatchModel::SetAttr { key, value, .. } => with_entry(before, key, value),
            PatchModel::RemoveAttr { key, .. } => without_entry(before, key),
            _ => before,
        }
    }
}

/// The old tree brought in line with the new one: what replaying their diff
/// makes of it, where the new tree carries no keys.
///
/// A node with another tag gives way to the new node. A text node takes the
/// new text. An element takes the attribute patches; its children are the
/// new children, but where an old child stands at the same position, and
/// the children are not replaced wholesale, that child brought in line.
pub open spec fn synced(a: NodeModel, b: NodeModel) -> NodeModel
    decreases a,
{
    if a.tag != b.tag {
        b
    } else if a.is_text() {
        if a.text != b.text && b.text is Some {
            NodeModel { text: b.text, ..a }
        } else {
            a
        }
    } else {
        NodeModel {
            attrs: attrs_after(a.attrs, attrs_part(a, b)),
            children: Seq::new(
                b.children.len(),
                |i: int|
                    if 0 <= i < kids_count(a, b) && i < a.children.len() {
                        synced(a.children[i], b.children[i])
                    } else {
                        b.children[i]
                    },
            ),
            ..a
        }
    }
}

/// Removing the last children, the last first, leaves the first ones.
pub proof fn lemma_apply_removes(
    snapshot: NodeModel,
    node: NodeModel,
    d: Option<Seq<char>>,
    count: nat,
)
    requires
        count <= node.children.len() <= usize::MAX,
    ensures
        apply_in_order(
            snapshot,
            node,
            Seq::new(count, |k: int| root_remove(d, node.children.len() - 1 - k)),
        ) == (NodeModel {
            children: node.children.take(node.children.len() - count),
            ..node
        }),
    decreases count,
{
    let len = node.children.len();
    let all = Seq::new(count, |k: int| root_remove(d, len - 1 - k));
    if count == 0 {
        assert(node.children.take(len as int) =~= node.children);
    } else {
        let fewer = Seq::new((count - 1) as nat, |k: int| root_remove(d, len - 1 - k));
        assert(all.drop_last() =~= fewer);
        lemma_apply_removes(snapshot, node, d, (count - 1) as nat);
        let last = all.last();
        assert(last == root_remove(d, len - count));
        assert(source_id(snapshot, last) is None);
        assert(node.children.take(len - count + 1).remove(len - count) =~= node.children.take(
            len - count,
        ));
    }
}

/// Inserting new children at the end, the first first, puts them there in
/// their order.
pub proof fn lemma_apply_inserts(
    snapshot: NodeModel,
    node: NodeModel,
    news: Seq<NodeModel>,
    d: Option<Seq<char>>,
    base: nat,
    count: nat,
)
    requires
        node.children.len() == base,
        base + count <= news.len() <= usize::MAX,
    ensures
        apply_in_order(
            snapshot,
            node,
            Seq::new(count, |k: int| root_insert(news, d, base + k)),
        ) == (NodeModel {
            children: node.children + news.subrange(base as int, (base + count) as int),
            ..node
        }),
    decreases count,
{
    let all = Seq::new(count, |k: int| root_insert(news, d, base + k));
    if count == 0 {
        assert(node.children + news.subrange(base as int, base as int) =~= node.children);
    } else {
        let fewer = Seq::new((count - 1) as nat, |k: int| root_insert(news, d, base + k));
        assert(all.drop_last() =~= fewer);
        lemma_apply_inserts(snapshot, node, news, d, base, (count - 1) as nat);
        let last = all.last();
        assert(last == root_insert(news, d, base + count - 1));
        assert(source_id(snapshot, last) is None);
        let before = node.children + news.subrange(base as int, base + count - 1);
        assert(before.insert(base + count - 1, news[base + count - 1]) =~= node.children
            + news.subrange(base as int, (base + count) as int));
    }
}

/// Attribute patches of the root change its attributes and nothing else.
pub proof fn lemma_apply_attrs(snapshot: NodeModel, node: NodeModel, patches: Seq<PatchModel>)
    requires
        forall|x: int| 0 <= x < patches.len() ==> is_root_attr_patch(#[trigger] patches[x]),
    ensures
        apply_in_order(snapshot, node, patches) == (NodeModel {
            attrs: attrs_after(node.attrs, patches),
            ..node
        }),
    decreases patches.len(),
{
    if patches.len() > 0 {
        let front = patches.drop_last();
        assert forall|x: int| 0 <= x < front.len() implies is_root_attr_patch(
            #[trigger] front[x],
        ) by {
            assert(front[x] == patches[x]);
        }
        lemma_apply_attrs(snapshot, node, front);
        let last = patches.last();
        assert(last == patches[patches.len() - 1]);
        assert(is_root_attr_patch(last));
        assert(source_id(snapshot, last) is None);
    }
}

/// The levels from `low` on hold nothing where every path is shorter.
pub proof fn lemma_levels_empty(patches: Seq<PatchModel>, low: nat, high: nat)
    requires
        forall|x: int| 0 <= x < patches.len() ==> (#[trigger] patches[x]).path().len() < low,
    ensures
        levels_between(patches, low, high) == Seq::<PatchModel>::empty(),
    decreases high,
{
    if high > low {
        lemma_levels_empty(patches, low, (high - 1) as nat);
        let depth = (high - 1) as nat;
        lemma_level_part_none(patches, depth, PatchKind::Remove);
        lemma_level_part_none(patches, depth, PatchKind::Move);
        lemma_level_part_none(patches, depth, PatchKind::Insert);
        lemma_level_part_none(patches, depth, PatchKind::Other);
        let e = Seq::<PatchModel>::empty();
        assert(level_order(patches, depth) =~= e);
        assert(e + e =~= e);
    }
}

/// Levels that no path reaches add nothing.
pub proof fn lemma_levels_beyond(patches: Seq<PatchModel>, bound: nat, high: nat)
    requires
        forall|x: int| 0 <= x < patches.len() ==> (#[trigger] patches[x]).path().len() < bound,
        bound <= high,
    ensures
        levels_between(patches, 0, high) == levels_between(patches, 0, bound),
    decreases high,
{
    if high > bound {
        lemma_levels_beyond(patches, bound, (high - 1) as nat);
        let depth = (high - 1) as nat;
        lemma_level_part_none(patches, depth, PatchKind::Remove);
        lemma_level_part_none(patches, depth, PatchKind::Move);
        lemma_level_part_none(patches, depth, PatchKind::Insert);
        lemma_level_part_none(patches, depth, PatchKind::Other);
        let e = Seq::<PatchModel>::empty();
        assert(level_order(patches, depth) =~= e);
        assert(levels_between(patches, 0, (high - 1) as nat) + e =~= levels_between(
            patches,
            0,
            (high - 1) as nat,
        ));
    }
}

/// No path is longer than the longest.
pub proof fn lemma_max_depth(patches: Seq<PatchModel>)
    ensures
        forall|x: int|
            0 <= x < patches.len() ==> (#[trigger] patches[x]).path().len() <= max_depth(patches),
    decreases patches.len(),
{
    if patches.len() > 0 {
        lemma_max_depth(patches.drop_last());
        assert forall|x: int| 0 <= x < patches.len() implies (#[trigger] patches[x]).path().len()
            <= max_depth(patches) by {
            if x < patches.len() - 1 {
                assert(patches[x] == patches.drop_last()[x]);
            }
        }
    }
}

/// The patches of the depths from `low` on address nodes at those depths,
/// and none is a move.
#[verifier::rlimit(40)]
proof fn lemma_levels_items(a: NodeModel, b: NodeModel, low: nat, high: nat)
    requires
        keyless(b),
        fits(a),
        fits(b),
    ensures
        forall|x: int|
            0 <= x < levels_between(root_diff(a, b), low, high).len() ==> (
            #[trigger] levels_between(root_diff(a, b), low, high)[x]).path().len() >= low && !(
            levels_between(root_diff(a, b), low, high)[x] is MoveChild),
    decreases high,
{
    let all = root_diff(a, b);
    if high > low {
        let depth = (high - 1) as nat;
        lemma_levels_items(a, b, low, depth);
        lemma_diff_in_order(a, b, depth);
        lemma_level_order_plain(all, depth);
        lemma_diff_move_free(a, b);
        lemma_level_part_items(all, depth, PatchKind::Remove);
        lemma_level_part_items(all, depth, PatchKind::Move);
        lemma_level_part_items(all, depth, PatchKind::Insert);
        lemma_level_part_items(all, depth, PatchKind::Other);
        let r = level_part(all, depth, PatchKind::Remove);
        let m = level_part(all, depth, PatchKind::Move);
        let i = level_part(all, depth, PatchKind::Insert);
        let o = level_part(all, depth, PatchKind::Other);
        let front = levels_between(all, low, depth);
        let whole = levels_between(all, low, high);
        assert forall|x: int| 0 <= x < whole.len() implies (#[trigger] whole[x]).path().len()
            >= low && !(whole[x] is MoveChild) by {
            if x < front.len() {
                assert(whole[x] == front[x]);
            } else {
                let y = x - front.len();
                let level = r + m + i + o;
                assert(whole[x] == level[y]);
                if y < r.len() {
                    assert(level[y] == r[y]);
                } else if y < r.len() + m.len() {
                    assert(level[y] == m[y - r.len()]);
                } else if y < r.len() + m.len() + i.len() {
                    assert(level[y] == i[y - r.len() - m.len()]);
                } else {
                    assert(level[y] == o[y - r.len() - m.len() - i.len()]);
                }
            }
        }
    }
}

/// The paths of a child's diff are shorter than those of the parent's.
proof fn lemma_kid_depth(a: NodeModel, b: NodeModel, index: int, bound: nat)
    requires
        diffed_as_elements(a, b),
        keyless(b),
        fits(a),
        0 <= index < kids_count(a, b),
        forall|x: int|
            0 <= x < root_diff(a, b).len() ==> (#[trigger] root_diff(a, b)[x]).path().len()
                < bound,
    ensures
        forall|x: int|
            0 <= x < root_diff(a.children[index], b.children[index]).len() ==> (
            #[trigger] root_diff(a.children[index], b.children[index])[x]).path().len() + 1
                < bound,
{
    lemma_diff_parts(a, b);
    let kid = root_diff(a.children[index], b.children[index]);
    let at = attrs_part(a, b);
    let ki = kids_part(a, b);
    let all = root_diff(a, b);
    assert forall|x: int| 0 <= x < kid.len() implies (#[trigger] kid[x]).path().len() + 1
        < bound by {
        let y = lemma_concat_find(kids_count(a, b), |i: int| kid_part(a, b, i), index, x);
        assert(ki[y] == kid_part(a, b, index)[x]);
        assert(all[at.len() + y] == ki[y]);
        assert(kid_part(a, b, index)[x].path() == seq![index as usize] + kid[x].path());
    }
}

/// Where a patch of a step stands among all the patches.
pub proof fn lemma_concat_find(
    n: nat,
    f: spec_fn(int) -> Seq<PatchModel>,
    i: int,
    k: int,
) -> (x: int)
    requires
        0 <= i < n,
        0 <= k < f(i).len(),
    ensures
        0 <= x < concat_upto(n, f).len(),
        concat_upto(n, f)[x] == f(i)[k],
    decreases n,
{
    let front = concat_upto((n - 1) as nat, f);
    if i == n - 1 {
        front.len() + k
    } else {
        lemma_concat_find((n - 1) as nat, f, i, k)
    }
}

/// The old tree after the patches of the root's depth: its attributes are
/// patched, and its children are the old ones that are diffed pairwise,
/// then the new ones.
pub open spec fn after_root_level(a: NodeModel, b: NodeModel) -> NodeModel {
    NodeModel {
        attrs: attrs_after(a.attrs, attrs_part(a, b)),
        children: Seq::new(
            b.children.len(),
            |i: int|
                if 0 <= i < kids_count(a, b) && i < a.children.len() {
                    a.children[i]
                } else {
                    b.children[i]
                },
        ),
        ..a
    }
}

/// The patches of the root's depth in the order in which they are applied:
/// the removals, the insertions, the attribute patches.
proof fn lemma_root_level_order(a: NodeModel, b: NodeModel)
    requires
        diffed_as_elements(a, b),
        keyless(b),
        fits(a),
        fits(b),
    ensures
        level_order(root_diff(a, b), 0) == removes_part(a, b) + (inserts_part(a, b)
            + attrs_part(a, b)),
{
    let all = root_diff(a, b);
    lemma_root_level(a, b);
    lemma_diff_in_order(a, b, 0);
    lemma_level_order_plain(all, 0);
    let re = removes_part(a, b);
    let ins = inserts_part(a, b);
    let at = attrs_part(a, b);
    let e = Seq::<PatchModel>::empty();
    assert(re + e + ins + at =~= re + (ins + at));
}

/// The old node with the children that are diffed pairwise only.
pub open spec fn with_kept_children(a: NodeModel, b: NodeModel) -> NodeModel {
    NodeModel { children: a.children.take(kids_count(a, b) as int), ..a }
}

/// The kept children, then the inserted ones.
pub open spec fn with_grown_children(a: NodeModel, b: NodeModel) -> NodeModel {
    NodeModel {
        children: a.children.take(kids_count(a, b) as int) + b.children.subrange(
            kids_count(a, b) as int,
            b.children.len() as int,
        ),
        ..a
    }
}

proof fn lemma_root_removes(snapshot: NodeModel, a: NodeModel, b: NodeModel)
    requires
        fits(a),
    ensures
        apply_in_order(snapshot, a, removes_part(a, b)) == with_kept_children(a, b),
{
    lemma_apply_removes(snapshot, a, a.djust_id, removed_count(a, b));
}

proof fn lemma_root_inserts(snapshot: NodeModel, a: NodeModel, b: NodeModel)
    requires
        fits(b),
    ensures
        apply_in_order(snapshot, with_kept_children(a, b), inserts_part(a, b))
            == with_grown_children(a, b),
{
    let kept = with_kept_children(a, b);
    lemma_apply_inserts(
        snapshot,
        kept,
        b.children,
        a.djust_id,
        kids_count(a, b),
        inserted_count(a, b),
    );
}

proof fn lemma_root_attrs(snapshot: NodeModel, a: NodeModel, b: NodeModel)
    ensures
        apply_in_order(snapshot, with_grown_children(a, b), attrs_part(a, b)) == after_root_level(
            a,
            b,
        ),
{
    let grown = with_grown_children(a, b);
    lemma_attrs_part(a, b);
    lemma_apply_attrs(snapshot, grown, attrs_part(a, b));
    assert(grown.children =~= after_root_level(a, b).children);
}

/// What the patches of the root's depth do.
proof fn lemma_apply_root_level(snapshot: NodeModel, a: NodeModel, b: NodeModel)
    requires
        diffed_as_elements(a, b),
        keyless(b),
        fits(a),
        fits(b),
    ensures
        apply_in_order(snapshot, a, level_order(root_diff(a, b), 0)) == after_root_level(a, b),
{
    lemma_root_level_order(a, b);
    let re = removes_part(a, b);
    let ins = inserts_part(a, b);
    let at = attrs_part(a, b);
    lemma_apply_concat(snapshot, a, re, ins + at);
    lemma_root_removes(snapshot, a, b);
    lemma_apply_concat(snapshot, with_kept_children(a, b), ins, at);
    lemma_root_inserts(snapshot, a, b);
    lemma_root_attrs(snapshot, a, b);
}

/// Replaying the patches of a diff, depth by depth up to `high`, brings the
/// old tree in line with the new one.
#[verifier::rlimit(40)]
proof fn lemma_apply_levels(snapshot: NodeModel, a: NodeModel, b: NodeModel, high: nat)
    requires
        keyless(b),
        fits(a),
        fits(b),
        high >= 1,
        forall|x: int|
            0 <= x < root_diff(a, b).len() ==> (#[trigger] root_diff(a, b)[x]).path().len()
                < high,
    ensures
        apply_in_order(snapshot, a, levels_between(root_diff(a, b), 0, high)) == synced(a, b),
    decreases a,
{
    let all = root_diff(a, b);
    lemma_levels_split(all, 0, high);
    let top = level_order(all, 0);
    let deep = levels_between(all, 1, high);
    lemma_apply_concat(snapshot, a, top, deep);
    if !diffed_as_elements(a, b) {
        lemma_leaf_diff(a, b);
        lemma_levels_empty(all, 1, high);
        lemma_level_part_none(all, 0, PatchKind::Remove);
        lemma_level_part_none(all, 0, PatchKind::Move);
        lemma_level_part_none(all, 0, PatchKind::Insert);
        lemma_level_part_all(all, 0, PatchKind::Other);
        let e = Seq::<PatchModel>::empty();
        assert(top =~= all);
        assert(deep =~= e);
        if all.len() == 1 {
            assert(all.drop_last() =~= e);
            assert(all.last() == all[0]);
            assert(source_id(snapshot, all.last()) is None);
            assert(apply_in_order(snapshot, a, all.drop_last()) == a);
            assert(apply_in_order(snapshot, a, all) == batch_step(snapshot, a, all[0]));
            assert(apply_in_order(snapshot, a, top) == synced(a, b));
        } else {
            assert(all =~= e);
            assert(apply_in_order(snapshot, a, top) == synced(a, b));
        }
    } else {
        lemma_keyless(b);
        lemma_apply_root_level(snapshot, a, b);
        let leveled = after_root_level(a, b);
        lemma_levels_items(a, b, 1, high);
        lemma_apply_projected(snapshot, leveled, deep);
        let done = projected(snapshot, leveled, deep);
        assert(done.children =~= synced(a, b).children) by {
            assert forall|i: int| 0 <= i < b.children.len() implies done.children[i] == synced(
                a,
                b,
            ).children[i] by {
                let index = i as usize;
                lemma_sub_levels(a, b, high, index);
                if i < kids_count(a, b) {
                    let kid = root_diff(a.children[i], b.children[i]);
                    lemma_kid_depth(a, b, i, high);
                    let lower: nat = if high >= 2 {
                        (high - 1) as nat
                    } else {
                        1
                    };
                    lemma_levels_beyond(kid, (high - 1) as nat, lower);
                    lemma_apply_levels(snapshot, a.children[i], b.children[i], lower);
                    assert(done.children[i] == synced(a.children[i], b.children[i]));
                } else {
                    assert(sub_patches(deep, index) =~= Seq::<PatchModel>::empty());
                    assert(done.children[i] == b.children[i]);
                }
            }
        }
        assert(apply_in_order(snapshot, a, top) == leveled);
        assert(apply_in_order(snapshot, leveled, deep) == done);
        assert(done == synced(a, b));
    }
}

/// Replaying the diff of two trees brings the old tree in line with the new
/// one, where the new tree carries no keys.
pub proof fn lemma_apply_diff(a: NodeModel, b: NodeModel)
    requires
        keyless(b),
        fits(a),
        fits(b),
    ensures
        apply_patches_spec(a, root_diff(a, b)) == synced(a, b),
{
    let all = root_diff(a, b);
    lemma_max_depth(all);
    lemma_levels_upto(all, max_depth(all) + 1);
    lemma_apply_levels(a, a, b, max_depth(all) + 1);
}

/// Whether two lists of attributes agree on a name: both hold it, with the
/// same value, or neither does.
pub open spec fn agree_on(cur: Seq<Entry>, other: Seq<Entry>, key: Seq<char>) -> bool {
    has_key(cur, key) == has_key(other, key) && (has_key(other, key) ==> value_of(cur, key)
        == value_of(other, key))
}

/// Some entry before position `n` is named `key`.
pub open spec fn key_before(entries: Seq<Entry>, n: int, key: Seq<char>) -> bool {
    exists|j: int| 0 <= j < n && j < entries.len() && (#[trigger] entries[j]).0 == key
}

/// Storing a value under one name leaves the other names as they are.
pub proof fn lemma_with_entry_frame(
    entries: Seq<Entry>,
    key: Seq<char>,
    value: Seq<char>,
    other: Seq<char>,
)
    requires
        unique_keys(entries),
        other != key,
    ensures
        agree_on(with_entry(entries, key, value), entries, other),
{
    let out = with_entry(entries, key, value);
    lemma_with_entry_unique(entries, key, value);
    if has_key(entries, other) {
        let p = index_of(entries, other);
        assert(out[p] == entries[p]);
        lemma_index_of_unique(out, p);
    } else if has_key(out, other) {
        let q = index_of(out, other);
        if q < entries.len() {
            assert(out[q].0 == entries[q].0);
        }
    }
}

/// Dropping one name leaves the other names as they are.
pub proof fn lemma_without_entry_frame(entries: Seq<Entry>, key: Seq<char>, other: Seq<char>)
    requires
        unique_keys(entries),
        other != key,
    ensures
        agree_on(without_entry(entries, key), entries, other),
{
    let out = without_entry(entries, key);
    lemma_without_entry_unique(entries, key);
    if has_key(entries, key) {
        let gone = index_of(entries, key);
        if has_key(entries, other) {
            let p = index_of(entries, other);
            let q = if p < gone {
                p
            } else {
                p - 1
            };
            assert(out[q] == entries[p]);
            lemma_index_of_unique(out, q);
        } else if has_key(out, other) {
            let q = index_of(out, other);
            let p = if q < gone {
                q
            } else {
                q + 1
            };
            assert(out[q] == entries[p]);
        }
    }
}

/// Attribute patches applied in two runs.
pub proof fn lemma_attrs_after_concat(attrs: Seq<Entry>, a: Seq<PatchModel>, b: Seq<PatchModel>)
    ensures
        attrs_after(attrs, a + b) == attrs_after(attrs_after(attrs, a), b),
    decreases b.len(),
{
    if b.len() == 0 {
        assert(a + b =~= a);
    } else {
        assert((a + b).drop_last() =~= a + b.drop_last());
        assert((a + b).last() == b.last());
        lemma_attrs_after_concat(attrs, a, b.drop_last());
    }
}

/// What holds of a name after the first `n` old attributes were looked at:
/// a name among them, the identity attribute apart, is as in the new
/// attributes; every other name is as in the old ones.
pub open spec fn settled(
    cur: Seq<Entry>,
    old: Seq<Entry>,
    new: Seq<Entry>,
    n: int,
    key: Seq<char>,
) -> bool {
    if key != id_attr() && key_before(old, n, key) {
        agree_on(cur, new, key)
    } else {
        agree_on(cur, old, key)
    }
}

/// The attributes after the patches for the first `n` old attributes.
pub open spec fn after_gone(
    old: Seq<Entry>,
    new: Seq<Entry>,
    path: Seq<usize>,
    d: Option<Seq<char>>,
    n: nat,
) -> Seq<Entry> {
    attrs_after(old, concat_upto(n, |i: int| old_attr_step(old, new, path, d, i)))
}

/// The attributes `mid` after the patches for the first `n` new attributes.
pub open spec fn after_added(
    mid: Seq<Entry>,
    old: Seq<Entry>,
    new: Seq<Entry>,
    path: Seq<usize>,
    d: Option<Seq<char>>,
    n: nat,
) -> Seq<Entry> {
    attrs_after(mid, concat_upto(n, |i: int| new_attr_step(old, new, path, d, i)))
}

/// What the patches for the first `n` old attributes leave.
#[verifier::rlimit(40)]
proof fn lemma_gone_phase(
    old: Seq<Entry>,
    new: Seq<Entry>,
    path: Seq<usize>,
    d: Option<Seq<char>>,
    n: nat,
)
    requires
        unique_keys(old),
        unique_keys(new),
        n <= old.len(),
    ensures
        unique_keys(after_gone(old, new, path, d, n)),
        forall|key: Seq<char>| #[trigger]
            settled(after_gone(old, new, path, d, n), old, new, n as int, key),
    decreases n,
{
    let gone = |i: int| old_attr_step(old, new, path, d, i);
    let cur = after_gone(old, new, path, d, n);
    if n == 0 {
        assert forall|key: Seq<char>| #[trigger] settled(cur, old, new, n as int, key) by {}
    } else {
        let m = (n - 1) as nat;
        lemma_gone_phase(old, new, path, d, m);
        let before = after_gone(old, new, path, d, m);
        lemma_attrs_after_concat(old, concat_upto(m, gone), gone(m as int));
        let name = old[m as int].0;
        let step = gone(m as int);
        lemma_index_of_unique(old, m as int);
        assert(settled(before, old, new, m as int, name));
        // The name was not looked at before: names are unique.
        assert(!key_before(old, m as int, name)) by {
            if key_before(old, m as int, name) {
                let j = choose|j: int|
                    0 <= j < m && j < old.len() && (#[trigger] old[j]).0 == name;
                assert(old[j].0 == old[m as int].0);
            }
        }
        if step.len() == 1 {
            assert(step.drop_last() =~= Seq::<PatchModel>::empty());
            assert(step.last() == step[0]);
            assert(attrs_after(before, step.drop_last()) == before);
        }
        assert(cur == attrs_after(before, step));
        if name == id_attr() {
            assert(cur == before);
        } else if !has_key(new, name) {
            assert(cur == without_entry(before, name));
            lemma_without_entry_unique(before, name);
        } else if value_of(new, name) != old[m as int].1 {
            assert(cur == with_entry(before, name, value_of(new, name)));
            lemma_with_entry_unique(before, name, value_of(new, name));
        } else {
            assert(cur == before);
        }
        assert forall|key: Seq<char>| #[trigger] settled(cur, old, new, n as int, key) by {
            assert(settled(before, old, new, m as int, key));
            if key == name {
                assert(old[m as int].0 == name);
                assert(key_before(old, n as int, name));
            } else {
                assert(key_before(old, n as int, key) == key_before(old, m as int, key)) by {
                    if key_before(old, n as int, key) {
                        let j = choose|j: int|
                            0 <= j < n && j < old.len() && (#[trigger] old[j]).0 == key;
                        assert(j != m);
                        assert(0 <= j < m && old[j].0 == key);
                    }
                    if key_before(old, m as int, key) {
                        let j = choose|j: int|
                            0 <= j < m && j < old.len() && (#[trigger] old[j]).0 == key;
                        assert(0 <= j < n && old[j].0 == key);
                    }
                }
                if name != id_attr() && !has_key(new, name) {
                    lemma_without_entry_frame(before, name, key);
                } else if name != id_attr() && value_of(new, name) != old[m as int].1 {
                    lemma_with_entry_frame(before, name, value_of(new, name), key);
                }
            }
        }
    }
}

/// What holds of a name after the first `n` new attributes were looked at:
/// a name among them that the old attributes lack, the identity attribute
/// apart, is as in the new attributes; every other name is as it was in
/// `mid`, before the new attributes were looked at.
pub open spec fn added_so_far(
    cur: Seq<Entry>,
    mid: Seq<Entry>,
    old: Seq<Entry>,
    new: Seq<Entry>,
    n: int,
    key: Seq<char>,
) -> bool {
    if key != id_attr() && key_before(new, n, key) && !has_key(old, key) {
        agree_on(cur, new, key)
    } else {
        agree_on(cur, mid, key)
    }
}

/// What the patches for the first `n` new attributes leave.
#[verifier::rlimit(40)]
proof fn lemma_added_phase(
    mid: Seq<Entry>,
    old: Seq<Entry>,
    new: Seq<Entry>,
    path: Seq<usize>,
    d: Option<Seq<char>>,
    n: nat,
)
    requires
        unique_keys(mid),
        unique_keys(new),
        n <= new.len(),
    ensures
        unique_keys(after_added(mid, old, new, path, d, n)),
        forall|key: Seq<char>| #[trigger]
            added_so_far(after_added(mid, old, new, path, d, n), mid, old, new, n as int, key),
    decreases n,
{
    let added = |i: int| new_attr_step(old, new, path, d, i);
    let cur = after_added(mid, old, new, path, d, n);
    if n == 0 {
        assert forall|key: Seq<char>| #[trigger] added_so_far(cur, mid, old, new, n as int, key) by {}
    } else {
        let m = (n - 1) as nat;
        lemma_added_phase(mid, old, new, path, d, m);
        let before = after_added(mid, old, new, path, d, m);
        lemma_attrs_after_concat(mid, concat_upto(m, added), added(m as int));
        let name = new[m as int].0;
        let step = added(m as int);
        lemma_index_of_unique(new, m as int);
        if step.len() == 1 {
            assert(step.drop_last() =~= Seq::<PatchModel>::empty());
            assert(step.last() == step[0]);
            assert(attrs_after(before, step.drop_last()) == before);
        }
        assert(cur == attrs_after(before, step));
        let new_name = name != id_attr() && !has_key(old, name);
        if new_name {
            assert(cur == with_entry(before, name, new[m as int].1));
            lemma_with_entry_unique(before, name, new[m as int].1);
        } else {
            assert(cur == before);
        }
        assert forall|key: Seq<char>| #[trigger]
            added_so_far(cur, mid, old, new, n as int, key) by {
            assert(added_so_far(before, mid, old, new, m as int, key));
            if key == name {
                assert(new[m as int].0 == name);
                assert(key_before(new, n as int, name));
            } else {
                assert(key_before(new, n as int, key) == key_before(new, m as int, key)) by {
                    if key_before(new, n as int, key) {
                        let j = choose|j: int|
                            0 <= j < n && j < new.len() && (#[trigger] new[j]).0 == key;
                        assert(j != m);
                        assert(0 <= j < m && new[j].0 == key);
                    }
                    if key_before(new, m as int, key) {
                        let j = choose|j: int|
                            0 <= j < m && j < new.len() && (#[trigger] new[j]).0 == key;
                        assert(0 <= j < n && new[j].0 == key);
                    }
                }
                if new_name {
                    lemma_with_entry_frame(before, name, new[m as int].1, key);
                }
            }
        }
    }
}

/// The attribute patches of a diff turn the old attributes into the new
/// ones, the identity attribute apart.
#[verifier::rlimit(40)]
pub proof fn lemma_attrs_synced(
    old: Seq<Entry>,
    new: Seq<Entry>,
    path: Seq<usize>,
    d: Option<Seq<char>>,
)
    requires
        unique_keys(old),
        unique_keys(new),
    ensures
        as_map(attrs_after(old, diff_attrs_spec(old, new, path, d))).remove(id_attr()) == as_map(
            new,
        ).remove(id_attr()),
{
    let gone = |i: int| old_attr_step(old, new, path, d, i);
    let added = |i: int| new_attr_step(old, new, path, d, i);
    let g = concat_upto(old.len(), gone);
    let a = concat_upto(new.len(), added);
    lemma_gone_phase(old, new, path, d, old.len());
    let mid = after_gone(old, new, path, d, old.len());
    lemma_added_phase(mid, old, new, path, d, new.len());
    lemma_attrs_after_concat(old, g, a);
    let fin = after_added(mid, old, new, path, d, new.len());
    assert forall|key: Seq<char>| key != id_attr() implies #[trigger] agree_on(fin, new, key) by {
        assert(settled(mid, old, new, old.len() as int, key));
        assert(added_so_far(fin, mid, old, new, new.len() as int, key));
        if has_key(old, key) {
            let j = index_of(old, key);
            assert(0 <= j < old.len() && old[j].0 == key);
            assert(key_before(old, old.len() as int, key));
        } else {
            assert(!key_before(old, old.len() as int, key));
            if has_key(new, key) {
                let j = index_of(new, key);
                assert(0 <= j < new.len() && new[j].0 == key);
                assert(key_before(new, new.len() as int, key));
            }
        }
    }
    let left = as_map(fin).remove(id_attr());
    let right = as_map(new).remove(id_attr());
    assert(fin == attrs_after(old, diff_attrs_spec(old, new, path, d)));
    assert forall|key: Seq<char>| left.dom().contains(key) == right.dom().contains(key) by {
        if key != id_attr() {
            assert(agree_on(fin, new, key));
        }
    }
    assert(left.dom() =~= right.dom());
    assert forall|key: Seq<char>| left.dom().contains(key) implies #[trigger] left[key]
        == right[key] by {
        assert(agree_on(fin, new, key));
    }
    assert(left =~= right);
}

/// The shape that the constructors give: a text node holds text and has no
/// children and no attribute but its identity; an element holds no text.
pub open spec fn proper(node: NodeModel) -> bool
    decreases node,
{
    if node.is_text() {
        &&& node.text is Some
        &&& node.children.len() == 0
        &&& as_map(node.attrs).remove(id_attr()) == Map::<Seq<char>, Seq<char>>::empty()
    } else {
        &&& node.text is None
        &&& forall|i: int| 0 <= i < node.children.len() ==> proper(#[trigger] node.children[i])
    }
}

/// A tree has the structure that it has.
pub proof fn lemma_same_structure_refl(a: NodeModel)
    ensures
        same_structure(a, a),
    decreases a,
{
    assert forall|i: int| 0 <= i < a.children.len() implies same_structure(
        #[trigger] a.children[i],
        a.children[i],
    ) by {
        lemma_same_structure_refl(a.children[i]);
    }
}

/// The old tree brought in line with the new one has the structure of the
/// new one.
pub proof fn lemma_synced_structure(a: NodeModel, b: NodeModel)
    requires
        a.wf(),
        b.wf(),
        proper(a),
        proper(b),
    ensures
        same_structure(synced(a, b), b),
    decreases a,
{
    let s = synced(a, b);
    if a.tag != b.tag {
        lemma_same_structure_refl(b);
    } else if a.is_text() {
    } else {
        lemma_attrs_synced(a.attrs, b.attrs, Seq::empty(), a.djust_id);
        assert forall|i: int| 0 <= i < s.children.len() implies same_structure(
            #[trigger] s.children[i],
            b.children[i],
        ) by {
            if i < kids_count(a, b) && i < a.children.len() {
                lemma_synced_structure(a.children[i], b.children[i]);
            } else {
                lemma_same_structure_refl(b.children[i]);
            }
        }
    }
}

/// Round trip: the patches that the diff engine gives for an old tree and a
/// new tree, replayed against the old tree, give a tree with the structure
/// of the new one: the same tags, texts, attributes and children, whatever
/// the identities.
///
/// This is stated of new trees in which no child carries a key. Where new
/// children carry keys, the old children are matched by key and moved, and
/// the replay of removals, moves and insertions, in that order, does not
/// always end in the new order.
pub proof fn lemma_round_trip(a: NodeModel, b: NodeModel)
    requires
        a.wf(),
        b.wf(),
        proper(a),
        proper(b),
        fits(a),
        fits(b),
        keyless(b),
    ensures
        same_structure(apply_patches_spec(a, diff_nodes_spec(a, b, Seq::empty())), b),
{
    lemma_apply_diff(a, b);
    lemma_synced_structure(a, b);
}

/// The children of every node that a program holds can be counted by the
/// indices of patches.
pub proof fn lemma_view_fits(node: VNode)
    ensures
        fits(node@),
    decreases node,
{
    lemma_children_view(&node);
    assert(node.children.len() == node.children@.len());
    assert forall|i: int| 0 <= i < node@.children.len() implies fits(
        #[trigger] node@.children[i],
    ) by {
        lemma_view_fits(node.children@[i]);
    }
}

} // verus!
