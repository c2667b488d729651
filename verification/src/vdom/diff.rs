//! The diff engine: from an old tree and a new tree to a list of patches.
//!
//! Patches address nodes by the identity of the *old* node, because that is
//! the node that exists in the client's live document.
//!
//! Among siblings that carry the same key, the first one holds the key and
//! the later ones are treated as if they had none.

use crate::vdom::attrs::{has_key, value_of, Entry};
use crate::vdom::node::{
    clone_opt, id_attr, lemma_children_view, nodes_view, opt_view, replace_attr, NodeModel,
    VNode,
};
use crate::vdom::ops::{
    lemma_patches_view_concat, lemma_patches_view_push, patches_view, path_to_vec, Patch,
    PatchModel,
};
use vstd::prelude::*;
use vstd::string::*;

verus! {

/// The patches `f(0)`, `f(1)`, ..., `f(n - 1)`, one after the other.
pub open spec fn concat_upto(n: nat, f: spec_fn(int) -> Seq<PatchModel>) -> Seq<PatchModel>
    decreases n,
{
    if n == 0 {
        Seq::empty()
    } else {
        concat_upto((n - 1) as nat, f) + f(n - 1)
    }
}

/// The child at `i` carries a key that no earlier sibling carries.
pub open spec fn keyed_at(nodes: Seq<NodeModel>, i: int) -> bool {
    &&& 0 <= i < nodes.len()
    &&& nodes[i].key is Some
    &&& forall|j: int| 0 <= j < i ==> (#[trigger] nodes[j]).key != nodes[i].key
}

/// Some child carries the key `key`.
pub open spec fn has_child_key(nodes: Seq<NodeModel>, key: Seq<char>) -> bool {
    exists|i: int| 0 <= i < nodes.len() && (#[trigger] nodes[i]).key == Some(key)
}

/// The first child that carries the key `key`; meaningful where one does.
pub open spec fn key_index(nodes: Seq<NodeModel>, key: Seq<char>) -> int {
    choose|i: int| keyed_at(nodes, i) && nodes[i].key == Some(key)
}

/// Some child carries a key at all.
pub open spec fn any_key(nodes: Seq<NodeModel>) -> bool {
    exists|i: int| 0 <= i < nodes.len() && (#[trigger] nodes[i]).key is Some
}

/// The patch, if any, that the old attribute at `i` gives rise to.
pub open spec fn old_attr_step(
    old: Seq<Entry>,
    new: Seq<Entry>,
    path: Seq<usize>,
    d: Option<Seq<char>>,
    i: int,
) -> Seq<PatchModel> {
    if old[i].0 == id_attr() {
        Seq::empty()
    } else if !has_key(new, old[i].0) {
        seq![PatchModel::RemoveAttr { path, d, key: old[i].0 }]
    } else if value_of(new, old[i].0) != old[i].1 {
        seq![PatchModel::SetAttr { path, d, key: old[i].0, value: value_of(new, old[i].0) }]
    } else {
        Seq::empty()
    }
}

/// The patch, if any, that the new attribute at `i` gives rise to.
pub open spec fn new_attr_step(
    old: Seq<Entry>,
    new: Seq<Entry>,
    path: Seq<usize>,
    d: Option<Seq<char>>,
    i: int,
) -> Seq<PatchModel> {
    if new[i].0 != id_attr() && !has_key(old, new[i].0) {
        seq![PatchModel::SetAttr { path, d, key: new[i].0, value: new[i].1 }]
    } else {
        Seq::empty()
    }
}

/// What changes among the attributes of one node: first the old attributes
/// that went away or changed, in the old order, then the new attributes that
/// the old node did not have, in the new order. The identity attribute never
/// gives rise to a patch.
pub open spec fn diff_attrs_spec(
    old: Seq<Entry>,
    new: Seq<Entry>,
    path: Seq<usize>,
    d: Option<Seq<char>>,
) -> Seq<PatchModel> {
    concat_upto(old.len(), |i: int| old_attr_step(old, new, path, d, i)) + concat_upto(
        new.len(),
        |i: int| new_attr_step(old, new, path, d, i),
    )
}

/// The removal of the old child at `index`.
pub open spec fn remove_at(path: Seq<usize>, d: Option<Seq<char>>, index: int) -> Seq<
    PatchModel,
> {
    seq![PatchModel::RemoveChild { path, d, index: index as usize }]
}

/// The insertion of the new child at `index`.
pub open spec fn insert_at(
    news: Seq<NodeModel>,
    path: Seq<usize>,
    d: Option<Seq<char>>,
    index: int,
) -> Seq<PatchModel> {
    seq![PatchModel::InsertChild { path, d, index: index as usize, node: news[index] }]
}

/// Replace-all mode: every old child removed, last first, then every new
/// child inserted, first first.
pub open spec fn replace_all_spec(
    olds: Seq<NodeModel>,
    news: Seq<NodeModel>,
    path: Seq<usize>,
    d: Option<Seq<char>>,
) -> Seq<PatchModel> {
    concat_upto(olds.len(), |k: int| remove_at(path, d, olds.len() - 1 - k)) + concat_upto(
        news.len(),
        |k: int| insert_at(news, path, d, k),
    )
}

/// Whether the children of `old` and `new` are replaced wholesale.
pub open spec fn replace_mode(old: NodeModel, new: NodeModel) -> bool {
    has_key(old.attrs, replace_attr()) || has_key(new.attrs, replace_attr())
}

/// The patches that turn the children of `old` into those of `new`.
pub open spec fn diff_children_spec(old: NodeModel, new: NodeModel, path: Seq<usize>) -> Seq<
    PatchModel,
>
    decreases old, 0nat,
{
    if replace_mode(old, new) {
        replace_all_spec(old.children, new.children, path, old.djust_id)
    } else if any_key(new.children) {
        diff_keyed_spec(old.children, new.children, path, old.djust_id)
    } else {
        diff_indexed_spec(old.children, new.children, path, old.djust_id)
    }
}

/// The patches that turn `old` into `new`, where `old` sits at `path`.
///
/// A changed tag replaces the node and nothing below it is compared. Two
/// text nodes give one `SetText` where their content differs. Two elements
/// with the same tag give the patches of their attributes, then those of
/// their children.
pub open spec fn diff_nodes_spec(old: NodeModel, new: NodeModel, path: Seq<usize>) -> Seq<
    PatchModel,
>
    decreases old, 1nat,
{
    if old.tag != new.tag {
        seq![PatchModel::Replace { path, d: old.djust_id, node: new }]
    } else if old.is_text() {
        if old.text != new.text && new.text is Some {
            seq![PatchModel::SetText { path, d: None, text: new.text->0 }]
        } else {
            Seq::empty()
        }
    } else {
        diff_attrs_spec(old.attrs, new.attrs, path, old.djust_id) + diff_children_spec(
            old,
            new,
            path,
        )
    }
}

/// The patches between the children at `i` on both sides.
pub open spec fn pair_step(
    olds: Seq<NodeModel>,
    news: Seq<NodeModel>,
    path: Seq<usize>,
    i: int,
    j: int,
) -> Seq<PatchModel>
    decreases olds, 0nat,
{
    if 0 <= i < olds.len() {
        diff_nodes_spec(olds[i], news[j], path.push(j as usize))
    } else {
        Seq::empty()
    }
}

/// The patches of the first `n` pairs of children at the same position.
pub open spec fn common_pairs(
    olds: Seq<NodeModel>,
    news: Seq<NodeModel>,
    path: Seq<usize>,
    n: nat,
) -> Seq<PatchModel>
    decreases olds, 1nat,
{
    concat_upto(n, |i: int| pair_step(olds, news, path, i, i))
}

/// Indexed mode: the children at the same position are diffed pairwise; then
/// the old children beyond the new length are removed, last first, or the new
/// children beyond the old length are inserted, first first.
pub open spec fn diff_indexed_spec(
    olds: Seq<NodeModel>,
    news: Seq<NodeModel>,
    path: Seq<usize>,
    d: Option<Seq<char>>,
) -> Seq<PatchModel>
    decreases olds, 2nat,
{
    common_pairs(
        olds,
        news,
        path,
        if olds.len() <= news.len() {
            olds.len()
        } else {
            news.len()
        },
    ) + concat_upto(
        if olds.len() > news.len() {
            (olds.len() - news.len()) as nat
        } else {
            0
        },
        |k: int| remove_at(path, d, olds.len() - 1 - k),
    ) + concat_upto(
        if news.len() > olds.len() {
            (news.len() - olds.len()) as nat
        } else {
            0
        },
        |k: int| insert_at(news, path, d, olds.len() + k),
    )
}

/// First pass of keyed mode, at the old child `i`: a keyed child whose key no
/// new child carries is removed.
pub open spec fn keyed_remove_step(
    olds: Seq<NodeModel>,
    news: Seq<NodeModel>,
    path: Seq<usize>,
    d: Option<Seq<char>>,
    i: int,
) -> Seq<PatchModel> {
    if keyed_at(olds, i) && !has_child_key(news, olds[i].key->0) {
        remove_at(path, d, i)
    } else {
        Seq::empty()
    }
}

/// Second pass of keyed mode, at the new child `j`: a keyed child is
/// inserted, if no old child carries its key, or else moved (if its index
/// changed) and diffed against that old child.
pub open spec fn keyed_match_step(
    olds: Seq<NodeModel>,
    news: Seq<NodeModel>,
    path: Seq<usize>,
    d: Option<Seq<char>>,
    j: int,
) -> Seq<PatchModel>
    decreases olds, 1nat,
{
    if keyed_at(news, j) {
        if has_child_key(olds, news[j].key->0) {
            let i = key_index(olds, news[j].key->0);
            (if i != j {
                seq![PatchModel::MoveChild { path, d, from: i as usize, to: j as usize }]
            } else {
                Seq::empty()
            }) + pair_step(olds, news, path, i, j)
        } else {
            insert_at(news, path, d, j)
        }
    } else {
        Seq::empty()
    }
}

/// Third pass of keyed mode, at the new child `j`: an unkeyed child is
/// diffed against the old child at the same index, if that one is unkeyed
/// too, or else inserted.
pub open spec fn unkeyed_match_step(
    olds: Seq<NodeModel>,
    news: Seq<NodeModel>,
    path: Seq<usize>,
    d: Option<Seq<char>>,
    j: int,
) -> Seq<PatchModel>
    decreases olds, 1nat,
{
    if keyed_at(news, j) {
        Seq::empty()
    } else if 0 <= j < olds.len() && !keyed_at(olds, j) {
        pair_step(olds, news, path, j, j)
    } else {
        insert_at(news, path, d, j)
    }
}

/// Fourth pass of keyed mode, at the old child `i`: an unkeyed child is
/// removed unless an unkeyed new child sits at the same index.
pub open spec fn unkeyed_remove_step(
    olds: Seq<NodeModel>,
    news: Seq<NodeModel>,
    path: Seq<usize>,
    d: Option<Seq<char>>,
    i: int,
) -> Seq<PatchModel> {
    if !keyed_at(olds, i) && (i >= news.len() || keyed_at(news, i)) {
        remove_at(path, d, i)
    } else {
        Seq::empty()
    }
}

/// The second pass of keyed mode over the first `n` new children.
pub open spec fn keyed_matches(
    olds: Seq<NodeModel>,
    news: Seq<NodeModel>,
    path: Seq<usize>,
    d: Option<Seq<char>>,
    n: nat,
) -> Seq<PatchModel>
    decreases olds, 2nat,
{
    concat_upto(n, |j: int| keyed_match_step(olds, news, path, d, j))
}

/// The third pass of keyed mode over the first `n` new children.
pub open spec fn unkeyed_matches(
    olds: Seq<NodeModel>,
    news: Seq<NodeModel>,
    path: Seq<usize>,
    d: Option<Seq<char>>,
    n: nat,
) -> Seq<PatchModel>
    decreases olds, 2nat,
{
    concat_upto(n, |j: int| unkeyed_match_step(olds, news, path, d, j))
}

/// Keyed mode: its four passes, one after the other.
pub open spec fn diff_keyed_spec(
    olds: Seq<NodeModel>,
    news: Seq<NodeModel>,
    path: Seq<usize>,
    d: Option<Seq<char>>,
) -> Seq<PatchModel>
    decreases olds, 3nat,
{
    concat_upto(olds.len(), |i: int| keyed_remove_step(olds, news, path, d, i)) + keyed_matches(
        olds,
        news,
        path,
        d,
        news.len(),
    ) + unkeyed_matches(olds, news, path, d, news.len()) + concat_upto(
        olds.len(),
        |i: int| unkeyed_remove_step(olds, news, path, d, i),
    )
}

/// Two ways of writing the same steps give the same patches.
pub proof fn lemma_concat_ext(
    n: nat,
    f: spec_fn(int) -> Seq<PatchModel>,
    g: spec_fn(int) -> Seq<PatchModel>,
)
    requires
        forall|i: int| 0 <= i < n ==> #[trigger] f(i) == g(i),
    ensures
        concat_upto(n, f) == concat_upto(n, g),
    decreases n,
{
    if n > 0 {
        lemma_concat_ext((n - 1) as nat, f, g);
    }
}

/// Adds `more` to the end of `patches`.
fn extend(patches: &mut Vec<Patch>, more: Vec<Patch>)
    ensures
        patches_view(final(patches)@) == patches_view(old(patches)@) + patches_view(more@),
{
    let mut more = more;
    proof {
        lemma_patches_view_concat(patches@, more@);
    }
    patches.append(&mut more);
}

/// Adds `patch` to the end of `patches`.
fn emit(patches: &mut Vec<Patch>, patch: Patch)
    ensures
        patches_view(final(patches)@) == patches_view(old(patches)@).push(patch@),
{
    proof {
        lemma_patches_view_push(patches@, patch);
    }
    patches.push(patch);
}

fn diff_attrs(old: &VNode, new: &VNode, path: &[usize], target_id: &Option<String>) -> (patches:
    Vec<Patch>)
    ensures
        patches_view(patches@) == diff_attrs_spec(
            old@.attrs,
            new@.attrs,
            path@,
            opt_view(*target_id),
        ),
{
    let mut patches: Vec<Patch> = Vec::new();
    let id_name = String::from_str("data-dj-id");
    let ghost d = opt_view(*target_id);
    let ghost olds = old@.attrs;
    let ghost news = new@.attrs;
    let ghost gone = |i: int| old_attr_step(olds, news, path@, d, i);
    let ghost added = |i: int| new_attr_step(olds, news, path@, d, i);
    assert(patches_view(patches@) =~= concat_upto(0, gone));
    let old_len = old.attrs.len();
    let mut i: usize = 0;
    while i < old_len
        invariant
            i <= old_len == olds.len(),
            olds == old@.attrs,
            news == new@.attrs,
            d == opt_view(*target_id),
            id_name@ == id_attr(),
            gone == |i: int| old_attr_step(olds, news, path@, d, i),
            patches_view(patches@) == concat_upto(i as nat, gone),
        decreases old_len - i,
    {
        let key = old.attrs.key_at(i);
        let old_value = old.attrs.value_at(i);
        if !(*key == id_name) {
            match new.attrs.get(key.as_str()) {
                None => {
                    emit(
                        &mut patches,
                        Patch::RemoveAttr {
                            path: path_to_vec(path),
                            d: clone_opt(target_id),
                            key: key.clone(),
                        },
                    );
                },
                Some(new_value) => {
                    if !(*new_value == *old_value) {
                        emit(
                            &mut patches,
                            Patch::SetAttr {
                                path: path_to_vec(path),
                                d: clone_opt(target_id),
                                key: key.clone(),
                                value: new_value.clone(),
                            },
                        );
                    }
                },
            }
        }
        assert(patches_view(patches@) =~= concat_upto(i as nat, gone) + gone(i as int));
        i += 1;
    }
    let ghost first = patches_view(patches@);
    assert(first =~= first + concat_upto(0, added));
    let new_len = new.attrs.len();
    let mut j: usize = 0;
    while j < new_len
        invariant
            j <= new_len == news.len(),
            olds == old@.attrs,
            news == new@.attrs,
            d == opt_view(*target_id),
            id_name@ == id_attr(),
            added == |i: int| new_attr_step(olds, news, path@, d, i),
            patches_view(patches@) == first + concat_upto(j as nat, added),
        decreases new_len - j,
    {
        let key = new.attrs.key_at(j);
        if !(*key == id_name) && !old.attrs.contains_key(key.as_str()) {
            emit(
                &mut patches,
                Patch::SetAttr {
                    path: path_to_vec(path),
                    d: clone_opt(target_id),
                    key: key.clone(),
                    value: new.attrs.value_at(j).clone(),
                },
            );
        }
        assert(patches_view(patches@) =~= first + (concat_upto(j as nat, added) + added(
            j as int,
        )));
        j += 1;
    }
    patches
}

/// Only one child holds a given key: the first that carries it.
pub proof fn lemma_key_index(nodes: Seq<NodeModel>, key: Seq<char>, i: int)
    requires
        keyed_at(nodes, i),
        nodes[i].key == Some(key),
    ensures
        has_child_key(nodes, key),
        key_index(nodes, key) == i,
{
    let c = key_index(nodes, key);
    assert(keyed_at(nodes, c) && nodes[c].key == Some(key));
    if c < i {
        assert(nodes[c].key != nodes[i].key);
    } else if i < c {
        assert(nodes[i].key != nodes[c].key);
    }
}

/// Where some child carries a key, a first one does.
pub proof fn lemma_first_key(nodes: Seq<NodeModel>, key: Seq<char>, upto: int) -> (i: int)
    requires
        0 <= upto < nodes.len(),
        nodes[upto].key == Some(key),
    ensures
        0 <= i <= upto,
        keyed_at(nodes, i),
        nodes[i].key == Some(key),
    decreases upto,
{
    if exists|j: int| 0 <= j < upto && (#[trigger] nodes[j]).key == Some(key) {
        let j = choose|j: int| 0 <= j < upto && (#[trigger] nodes[j]).key == Some(key);
        lemma_first_key(nodes, key, j)
    } else {
        upto
    }
}

/// The first child that carries `key`.
fn find_key(nodes: &Vec<VNode>, key: &String) -> (r: Option<usize>)
    ensures
        match r {
            Some(i) => i < nodes@.len() && keyed_at(nodes_view(nodes@), i as int) && nodes_view(
                nodes@,
            )[i as int].key == Some(key@) && has_child_key(nodes_view(nodes@), key@)
                && key_index(nodes_view(nodes@), key@) == i,
            None => !has_child_key(nodes_view(nodes@), key@),
        },
{
    let ghost models = nodes_view(nodes@);
    let mut i: usize = 0;
    while i < nodes.len()
        invariant
            i <= nodes@.len(),
            models == nodes_view(nodes@),
            forall|j: int| 0 <= j < i ==> (#[trigger] models[j]).key != Some(key@),
        decreases nodes@.len() - i,
    {
        let found = match &nodes[i].key {
            Some(k) => *k == *key,
            None => false,
        };
        if found {
            proof {
                assert(models[i as int].key == Some(key@));
                lemma_key_index(models, key@, i as int);
            }
            return Some(i);
        }
        i += 1;
    }
    None
}

/// Whether the child at `i` holds a key: it carries one and no earlier
/// sibling carries the same.
fn is_keyed_at(nodes: &Vec<VNode>, i: usize) -> (b: bool)
    requires
        i < nodes@.len(),
    ensures
        b == keyed_at(nodes_view(nodes@), i as int),
{
    match &nodes[i].key {
        Some(k) => {
            let first = find_key(nodes, k);
            proof {
                let models = nodes_view(nodes@);
                assert(models[i as int].key == Some(k@));
                if keyed_at(models, i as int) {
                    lemma_key_index(models, k@, i as int);
                }
            }
            match first {
                Some(j) => j == i,
                None => false,
            }
        },
        None => false,
    }
}

/// Whether any child carries a key.
fn has_any_key(nodes: &Vec<VNode>) -> (b: bool)
    ensures
        b == any_key(nodes_view(nodes@)),
{
    let ghost models = nodes_view(nodes@);
    let mut i: usize = 0;
    while i < nodes.len()
        invariant
            i <= nodes@.len(),
            models == nodes_view(nodes@),
            forall|j: int| 0 <= j < i ==> (#[trigger] models[j]).key is None,
        decreases nodes@.len() - i,
    {
        if nodes[i].key.is_some() {
            assert(models[i as int].key is Some);
            return true;
        }
        i += 1;
    }
    false
}

/// The path `path` followed by `index`.
fn child_path(path: &[usize], index: usize) -> (r: Vec<usize>)
    ensures
        r@ == path@.push(index),
{
    let mut r = path_to_vec(path);
    r.push(index);
    r
}

/// Replaces all children without diffing them.
fn replace_all_children(
    old: &VNode,
    new: &VNode,
    path: &[usize],
    parent_id: &Option<String>,
) -> (patches: Vec<Patch>)
    ensures
        patches_view(patches@) == replace_all_spec(
            old@.children,
            new@.children,
            path@,
            opt_view(*parent_id),
        ),
{
    let mut patches: Vec<Patch> = Vec::new();
    let ghost d = opt_view(*parent_id);
    let ghost olds = old@.children;
    let ghost news = new@.children;
    proof {
        lemma_children_view(old);
        lemma_children_view(new);
    }
    let old_len = old.children.len();
    let new_len = new.children.len();
    let ghost removes = |k: int| remove_at(path@, d, olds.len() - 1 - k);
    let ghost inserts = |k: int| insert_at(news, path@, d, k);
    assert(patches_view(patches@) =~= concat_upto(0, removes));
    let mut k: usize = 0;
    while k < old_len
        invariant
            k <= old_len == olds.len(),
            d == opt_view(*parent_id),
            removes == |k: int| remove_at(path@, d, olds.len() - 1 - k),
            patches_view(patches@) == concat_upto(k as nat, removes),
        decreases old_len - k,
    {
        emit(
            &mut patches,
            Patch::RemoveChild {
                path: path_to_vec(path),
                d: clone_opt(parent_id),
                index: old_len - 1 - k,
            },
        );
        assert(patches_view(patches@) =~= concat_upto(k as nat, removes) + removes(k as int));
        k += 1;
    }
    let ghost first = patches_view(patches@);
    assert(first =~= first + concat_upto(0, inserts));
    let mut j: usize = 0;
    while j < new_len
        invariant
            j <= new_len == news.len(),
            new_len == new.children@.len(),
            news == new@.children,
            news == nodes_view(new.children@),
            d == opt_view(*parent_id),
            inserts == |k: int| insert_at(news, path@, d, k),
            patches_view(patches@) == first + concat_upto(j as nat, inserts),
        decreases new_len - j,
    {
        emit(
            &mut patches,
            Patch::InsertChild {
                path: path_to_vec(path),
                d: clone_opt(parent_id),
                index: j,
                node: new.children[j].clone(),
            },
        );
        assert(patches_view(patches@) =~= first + (concat_upto(j as nat, inserts) + inserts(
            j as int,
        )));
        j += 1;
    }
    patches
}

/// Diffs two child lists position by position.
fn diff_indexed_children(
    old: &Vec<VNode>,
    new: &Vec<VNode>,
    path: &[usize],
    parent_id: &Option<String>,
) -> (patches: Vec<Patch>)
    ensures
        patches_view(patches@) == diff_indexed_spec(
            nodes_view(old@),
            nodes_view(new@),
            path@,
            opt_view(*parent_id),
        ),
    decreases old, 2nat,
{
    let mut patches: Vec<Patch> = Vec::new();
    let ghost d = opt_view(*parent_id);
    let ghost olds = nodes_view(old@);
    let ghost news = nodes_view(new@);
    let old_len = old.len();
    let new_len = new.len();
    let common = if old_len <= new_len {
        old_len
    } else {
        new_len
    };
    assert(patches_view(patches@) =~= common_pairs(olds, news, path@, 0));
    let mut i: usize = 0;
    while i < common
        invariant
            i <= common,
            common <= old_len == old@.len(),
            common <= new_len == new@.len(),
            olds == nodes_view(old@),
            news == nodes_view(new@),
            patches_view(patches@) == common_pairs(olds, news, path@, i as nat),
        decreases common - i,
    {
        let sub_path = child_path(path, i);
        let sub = diff_nodes(&old[i], &new[i], sub_path.as_slice());
        extend(&mut patches, sub);
        assert(patches_view(patches@) =~= common_pairs(olds, news, path@, i as nat) + pair_step(
            olds,
            news,
            path@,
            i as int,
            i as int,
        ));
        i += 1;
    }
    let ghost pairs = patches_view(patches@);
    let ghost removes = |k: int| remove_at(path@, d, olds.len() - 1 - k);
    let ghost inserts = |k: int| insert_at(news, path@, d, olds.len() + k);
    assert(pairs =~= pairs + concat_upto(0, removes));
    let mut k: usize = 0;
    while old_len > new_len && k < old_len - new_len
        invariant
            old_len == old@.len() == olds.len(),
            new_len == new@.len(),
            old_len > new_len ==> k <= old_len - new_len,
            old_len <= new_len ==> k == 0,
            d == opt_view(*parent_id),
            removes == |k: int| remove_at(path@, d, olds.len() - 1 - k),
            patches_view(patches@) == pairs + concat_upto(k as nat, removes),
        decreases old_len - k,
    {
        emit(
            &mut patches,
            Patch::RemoveChild {
                path: path_to_vec(path),
                d: clone_opt(parent_id),
                index: old_len - 1 - k,
            },
        );
        assert(patches_view(patches@) =~= pairs + (concat_upto(k as nat, removes) + removes(
            k as int,
        )));
        k += 1;
    }
    let ghost removed = patches_view(patches@);
    assert(removed =~= removed + concat_upto(0, inserts));
    let mut j: usize = 0;
    while new_len > old_len && j < new_len - old_len
        invariant
            old_len == old@.len() == olds.len(),
            new_len == new@.len(),
            new_len > old_len ==> j <= new_len - old_len,
            new_len <= old_len ==> j == 0,
            news == nodes_view(new@),
            d == opt_view(*parent_id),
            inserts == |k: int| insert_at(news, path@, d, olds.len() + k),
            patches_view(patches@) == removed + concat_upto(j as nat, inserts),
        decreases new_len - j,
    {
        emit(
            &mut patches,
            Patch::InsertChild {
                path: path_to_vec(path),
                d: clone_opt(parent_id),
                index: old_len + j,
                node: new[old_len + j].clone(),
            },
        );
        assert(patches_view(patches@) =~= removed + (concat_upto(j as nat, inserts) + inserts(
            j as int,
        )));
        j += 1;
    }
    patches
}

/// Diffs two child lists by key, and the unkeyed children among them by
/// position.
fn diff_keyed_children(
    old: &Vec<VNode>,
    new: &Vec<VNode>,
    path: &[usize],
    parent_id: &Option<String>,
) -> (patches: Vec<Patch>)
    ensures
        patches_view(patches@) == diff_keyed_spec(
            nodes_view(old@),
            nodes_view(new@),
            path@,
            opt_view(*parent_id),
        ),
    decreases old, 2nat,
{
    let mut patches: Vec<Patch> = Vec::new();
    let ghost d = opt_view(*parent_id);
    let ghost olds = nodes_view(old@);
    let ghost news = nodes_view(new@);
    let old_len = old.len();
    let new_len = new.len();
    let ghost keyed_removes = |i: int| keyed_remove_step(olds, news, path@, d, i);
    let ghost unkeyed_removes = |i: int| unkeyed_remove_step(olds, news, path@, d, i);

    // Keyed children that went away.
    assert(patches_view(patches@) =~= concat_upto(0, keyed_removes));
    let mut i: usize = 0;
    while i < old_len
        invariant
            i <= old_len == old@.len(),
            olds == nodes_view(old@),
            news == nodes_view(new@),
            d == opt_view(*parent_id),
            keyed_removes == |i: int| keyed_remove_step(olds, news, path@, d, i),
            patches_view(patches@) == concat_upto(i as nat, keyed_removes),
        decreases old_len - i,
    {
        if is_keyed_at(old, i) {
            match &old[i].key {
                Some(key) => {
                    assert(olds[i as int].key == Some(key@));
                    if find_key(new, key).is_none() {
                        emit(
                            &mut patches,
                            Patch::RemoveChild {
                                path: path_to_vec(path),
                                d: clone_opt(parent_id),
                                index: i,
                            },
                        );
                    }
                },
                None => {},
            }
        }
        assert(patches_view(patches@) =~= concat_upto(i as nat, keyed_removes) + keyed_removes(
            i as int,
        ));
        i += 1;
    }

    // Keyed children that came, moved or stayed.
    let ghost pass1 = patches_view(patches@);
    assert(pass1 =~= pass1 + keyed_matches(olds, news, path@, d, 0));
    let mut j: usize = 0;
    while j < new_len
        invariant
            j <= new_len == new@.len(),
            old_len == old@.len(),
            olds == nodes_view(old@),
            news == nodes_view(new@),
            d == opt_view(*parent_id),
            patches_view(patches@) == pass1 + keyed_matches(olds, news, path@, d, j as nat),
        decreases new_len - j,
    {
        let ghost before = patches_view(patches@);
        if is_keyed_at(new, j) {
            match &new[j].key {
                Some(key) => {
                    assert(news[j as int].key == Some(key@));
                    match find_key(old, key) {
                        None => {
                            emit(
                                &mut patches,
                                Patch::InsertChild {
                                    path: path_to_vec(path),
                                    d: clone_opt(parent_id),
                                    index: j,
                                    node: new[j].clone(),
                                },
                            );
                        },
                        Some(found) => {
                            if found != j {
                                emit(
                                    &mut patches,
                                    Patch::MoveChild {
                                        path: path_to_vec(path),
                                        d: clone_opt(parent_id),
                                        from: found,
                                        to: j,
                                    },
                                );
                            }
                            let sub_path = child_path(path, j);
                            let sub = diff_nodes(&old[found], &new[j], sub_path.as_slice());
                            extend(&mut patches, sub);
                        },
                    }
                },
                None => {},
            }
        }
        assert(patches_view(patches@) =~= before + keyed_match_step(
            olds,
            news,
            path@,
            d,
            j as int,
        ));
        assert(patches_view(patches@) =~= pass1 + (keyed_matches(olds, news, path@, d, j as nat)
            + keyed_match_step(olds, news, path@, d, j as int)));
        j += 1;
    }

    // Unkeyed children, matched by position.
    let ghost pass2 = patches_view(patches@);
    assert(pass2 =~= pass2 + unkeyed_matches(olds, news, path@, d, 0));
    let mut j: usize = 0;
    while j < new_len
        invariant
            j <= new_len == new@.len(),
            old_len == old@.len(),
            olds == nodes_view(old@),
            news == nodes_view(new@),
            d == opt_view(*parent_id),
            patches_view(patches@) == pass2 + unkeyed_matches(olds, news, path@, d, j as nat),
        decreases new_len - j,
    {
        let ghost before = patches_view(patches@);
        if !is_keyed_at(new, j) {
            if j < old_len && !is_keyed_at(old, j) {
                let sub_path = child_path(path, j);
                let sub = diff_nodes(&old[j], &new[j], sub_path.as_slice());
                extend(&mut patches, sub);
            } else {
                emit(
                    &mut patches,
                    Patch::InsertChild {
                        path: path_to_vec(path),
                        d: clone_opt(parent_id),
                        index: j,
                        node: new[j].clone(),
                    },
                );
            }
        }
        assert(patches_view(patches@) =~= before + unkeyed_match_step(
            olds,
            news,
            path@,
            d,
            j as int,
        ));
        assert(patches_view(patches@) =~= pass2 + (unkeyed_matches(
            olds,
            news,
            path@,
            d,
            j as nat,
        ) + unkeyed_match_step(olds, news, path@, d, j as int)));
        j += 1;
    }

    // Unkeyed children that have no unkeyed counterpart.
    let ghost pass3 = patches_view(patches@);
    assert(pass3 =~= pass3 + concat_upto(0, unkeyed_removes));
    let mut i: usize = 0;
    while i < old_len
        invariant
            i <= old_len == old@.len(),
            new_len == new@.len(),
            olds == nodes_view(old@),
            news == nodes_view(new@),
            d == opt_view(*parent_id),
            unkeyed_removes == |i: int| unkeyed_remove_step(olds, news, path@, d, i),
            patches_view(patches@) == pass3 + concat_upto(i as nat, unkeyed_removes),
        decreases old_len - i,
    {
        if !is_keyed_at(old, i) && (i >= new_len || is_keyed_at(new, i)) {
            emit(
                &mut patches,
                Patch::RemoveChild { path: path_to_vec(path), d: clone_opt(parent_id), index: i },
            );
        }
        assert(patches_view(patches@) =~= pass3 + (concat_upto(i as nat, unkeyed_removes)
            + unkeyed_removes(i as int)));
        i += 1;
    }
    patches
}

/// Diffs the children of two nodes. `parent_id` is the identity of the old
/// parent, which the child operations address.
fn diff_children(old: &VNode, new: &VNode, path: &[usize], parent_id: &Option<String>) -> (patches:
    Vec<Patch>)
    requires
        opt_view(*parent_id) == old@.djust_id,
    ensures
        patches_view(patches@) == diff_children_spec(old@, new@, path@),
    decreases old, 3nat,
{
    proof {
        lemma_children_view(old);
        lemma_children_view(new);
    }
    let should_replace = old.attrs.contains_key("data-djust-replace") || new.attrs.contains_key(
        "data-djust-replace",
    );
    if should_replace {
        return replace_all_children(old, new, path, parent_id);
    }
    if has_any_key(&new.children) {
        diff_keyed_children(&old.children, &new.children, path, parent_id)
    } else {
        diff_indexed_children(&old.children, &new.children, path, parent_id)
    }
}

/// Whether two optional strings hold the same text, or both nothing.
fn same_text(a: &Option<String>, b: &Option<String>) -> (r: bool)
    ensures
        r == (opt_view(*a) == opt_view(*b)),
{
    match (a, b) {
        (Some(x), Some(y)) => *x == *y,
        (None, None) => true,
        _ => false,
    }
}

/// Diffs two nodes and returns the patches that turn `old` into `new`.
///
/// Each patch carries `path`, the path of child indices to the node it
/// addresses, and `d`, the identity of that node in the old tree.
pub fn diff_nodes(old: &VNode, new: &VNode, path: &[usize]) -> (patches: Vec<Patch>)
    ensures
        patches_view(patches@) == diff_nodes_spec(old@, new@, path@),
    decreases old, 4nat,
{
    let mut patches: Vec<Patch> = Vec::new();
    let target_id = clone_opt(&old.djust_id);
    if !(old.tag == new.tag) {
        emit(
            &mut patches,
            Patch::Replace { path: path_to_vec(path), d: target_id, node: new.clone() },
        );
        assert(patches_view(patches@) =~= diff_nodes_spec(old@, new@, path@));
        return patches;
    }
    if old.is_text() {
        if !same_text(&old.text, &new.text) {
            match &new.text {
                Some(text) => {
                    emit(
                        &mut patches,
                        Patch::SetText { path: path_to_vec(path), d: None, text: text.clone() },
                    );
                },
                None => {},
            }
        }
        assert(patches_view(patches@) =~= diff_nodes_spec(old@, new@, path@));
        return patches;
    }
    let attr_patches = diff_attrs(old, new, path, &target_id);
    extend(&mut patches, attr_patches);
    let child_patches = diff_children(old, new, path, &target_id);
    extend(&mut patches, child_patches);
    assert(patches_view(patches@) =~= diff_nodes_spec(old@, new@, path@));
    patches
}

} // verus!
