//! What holds of the diff engine for all trees.

use crate::vdom::attrs::{has_key, lemma_index_of_unique, unique_keys, Entry};
use crate::vdom::diff::{
    any_key, common_pairs, concat_upto, diff_attrs_spec, diff_children_spec, diff_indexed_spec,
    diff_keyed_spec, diff_nodes_spec, has_child_key, insert_at, key_index, keyed_at,
    keyed_match_step, keyed_matches, keyed_remove_step, lemma_first_key, lemma_key_index,
    new_attr_step, old_attr_step, pair_step, remove_at, replace_all_spec, replace_mode,
    unkeyed_match_step, unkeyed_matches, unkeyed_remove_step,
};
use crate::vdom::node::{count_attrs, count_nodes, replace_attr, NodeModel};
use crate::vdom::ops::PatchModel;
use vstd::prelude::*;

verus! {

/// Steps that all give nothing give nothing together.
pub proof fn lemma_concat_empty(n: nat, f: spec_fn(int) -> Seq<PatchModel>)
    requires
        forall|i: int| 0 <= i < n ==> (#[trigger] f(i)).len() == 0,
    ensures
        concat_upto(n, f) == Seq::<PatchModel>::empty(),
    decreases n,
{
    if n > 0 {
        lemma_concat_empty((n - 1) as nat, f);
        assert(concat_upto(n, f) =~= Seq::<PatchModel>::empty());
    }
}

/// The pairwise pass of indexed mode, written as steps.
pub proof fn lemma_common_pairs_steps(
    olds: Seq<NodeModel>,
    news: Seq<NodeModel>,
    path: Seq<usize>,
    n: nat,
)
    ensures
        common_pairs(olds, news, path, n) == concat_upto(
            n,
            |i: int| pair_step(olds, news, path, i, i),
        ),
    decreases n,
{
    if n > 0 {
        lemma_common_pairs_steps(olds, news, path, (n - 1) as nat);
        assert(common_pairs(olds, news, path, n) == common_pairs(
            olds,
            news,
            path,
            (n - 1) as nat,
        ) + pair_step(olds, news, path, n - 1, n - 1));
    } else {
        assert(common_pairs(olds, news, path, n) =~= Seq::<PatchModel>::empty());
    }
}

/// The second pass of keyed mode, written as steps.
pub proof fn lemma_keyed_matches_steps(
    olds: Seq<NodeModel>,
    news: Seq<NodeModel>,
    path: Seq<usize>,
    d: Option<Seq<char>>,
    n: nat,
)
    ensures
        keyed_matches(olds, news, path, d, n) == concat_upto(
            n,
            |j: int| keyed_match_step(olds, news, path, d, j),
        ),
    decreases n,
{
    if n > 0 {
        lemma_keyed_matches_steps(olds, news, path, d, (n - 1) as nat);
        assert(keyed_matches(olds, news, path, d, n) == keyed_matches(
            olds,
            news,
            path,
            d,
            (n - 1) as nat,
        ) + keyed_match_step(olds, news, path, d, n - 1));
    } else {
        assert(keyed_matches(olds, news, path, d, n) =~= Seq::<PatchModel>::empty());
    }
}

/// The third pass of keyed mode, written as steps.
pub proof fn lemma_unkeyed_matches_steps(
    olds: Seq<NodeModel>,
    news: Seq<NodeModel>,
    path: Seq<usize>,
    d: Option<Seq<char>>,
    n: nat,
)
    ensures
        unkeyed_matches(olds, news, path, d, n) == concat_upto(
            n,
            |j: int| unkeyed_match_step(olds, news, path, d, j),
        ),
    decreases n,
{
    if n > 0 {
        lemma_unkeyed_matches_steps(olds, news, path, d, (n - 1) as nat);
        assert(unkeyed_matches(olds, news, path, d, n) == unkeyed_matches(
            olds,
            news,
            path,
            d,
            (n - 1) as nat,
        ) + unkeyed_match_step(olds, news, path, d, n - 1));
    } else {
        assert(unkeyed_matches(olds, news, path, d, n) =~= Seq::<PatchModel>::empty());
    }
}

/// No element that the diff engine looks into asks for its children to be
/// replaced wholesale while it has children.
pub open spec fn diffs_children_everywhere(a: NodeModel) -> bool
    decreases a,
{
    a.is_text() || {
        &&& !(has_key(a.attrs, replace_attr()) && a.children.len() > 0)
        &&& forall|i: int|
            0 <= i < a.children.len() ==> diffs_children_everywhere(#[trigger] a.children[i])
    }
}

/// A list of attributes compared with itself gives no patch.
pub proof fn lemma_diff_attrs_identity(attrs: Seq<Entry>, path: Seq<usize>, d: Option<Seq<char>>)
    requires
        unique_keys(attrs),
    ensures
        diff_attrs_spec(attrs, attrs, path, d) == Seq::<PatchModel>::empty(),
{
    let gone = |i: int| old_attr_step(attrs, attrs, path, d, i);
    let added = |i: int| new_attr_step(attrs, attrs, path, d, i);
    assert forall|i: int| 0 <= i < attrs.len() implies (#[trigger] gone(i)).len() == 0 by {
        lemma_index_of_unique(attrs, i);
    }
    assert forall|i: int| 0 <= i < attrs.len() implies (#[trigger] added(i)).len() == 0 by {
        lemma_index_of_unique(attrs, i);
    }
    lemma_concat_empty(attrs.len(), gone);
    lemma_concat_empty(attrs.len(), added);
    assert(diff_attrs_spec(attrs, attrs, path, d) =~= Seq::<PatchModel>::empty());
}

/// Identity: a tree compared with itself gives no patch.
///
/// This holds of every tree in which no element that has children carries
/// the marker for replacing all children; such an element gives a removal
/// and an insertion for each child, whatever it is compared with.
#[verifier::rlimit(40)]
pub proof fn lemma_diff_identity(a: NodeModel, path: Seq<usize>)
    requires
        a.wf(),
        diffs_children_everywhere(a),
    ensures
        diff_nodes_spec(a, a, path) == Seq::<PatchModel>::empty(),
    decreases a,
{
    if a.is_text() {
    } else {
        let d = a.djust_id;
        let kids = a.children;
        lemma_diff_attrs_identity(a.attrs, path, d);
        assert forall|i: int| 0 <= i < kids.len() implies (#[trigger] pair_step(
            kids,
            kids,
            path,
            i,
            i,
        )).len() == 0 by {
            lemma_diff_identity(kids[i], path.push(#[verifier::truncate] (i as usize)));
        }
        if replace_mode(a, a) {
            assert(kids.len() == 0);
            assert(replace_all_spec(kids, kids, path, d) =~= Seq::<PatchModel>::empty());
        } else if any_key(kids) {
            let r1 = |i: int| keyed_remove_step(kids, kids, path, d, i);
            let m2 = |j: int| keyed_match_step(kids, kids, path, d, j);
            let m3 = |j: int| unkeyed_match_step(kids, kids, path, d, j);
            let r4 = |i: int| unkeyed_remove_step(kids, kids, path, d, i);
            assert forall|i: int| 0 <= i < kids.len() implies (#[trigger] r1(i)).len() == 0 by {
                if keyed_at(kids, i) {
                    lemma_key_index(kids, kids[i].key->0, i);
                }
            }
            assert forall|j: int| 0 <= j < kids.len() implies (#[trigger] m2(j)).len() == 0 by {
                if keyed_at(kids, j) {
                    lemma_key_index(kids, kids[j].key->0, j);
                    assert(pair_step(kids, kids, path, j, j).len() == 0);
                }
            }
            assert forall|j: int| 0 <= j < kids.len() implies (#[trigger] m3(j)).len() == 0 by {
                assert(pair_step(kids, kids, path, j, j).len() == 0);
            }
            assert forall|i: int| 0 <= i < kids.len() implies (#[trigger] r4(i)).len() == 0 by {}
            lemma_concat_empty(kids.len(), r1);
            lemma_concat_empty(kids.len(), m2);
            lemma_concat_empty(kids.len(), m3);
            lemma_concat_empty(kids.len(), r4);
            lemma_keyed_matches_steps(kids, kids, path, d, kids.len());
            lemma_unkeyed_matches_steps(kids, kids, path, d, kids.len());
            assert(diff_keyed_spec(kids, kids, path, d) =~= Seq::<PatchModel>::empty());
        } else {
            let pairs = |i: int| pair_step(kids, kids, path, i, i);
            assert forall|i: int| 0 <= i < kids.len() implies (#[trigger] pairs(i)).len()
                == 0 by {
                assert(pair_step(kids, kids, path, i, i).len() == 0);
            }
            lemma_concat_empty(kids.len(), pairs);
            lemma_common_pairs_steps(kids, kids, path, kids.len());
            assert(diff_indexed_spec(kids, kids, path, d) =~= Seq::<PatchModel>::empty());
        }
        assert(diff_nodes_spec(a, a, path) =~= Seq::<PatchModel>::empty());
    }
}

/// The sum `w(0) + w(1) + ... + w(n - 1)`.
pub open spec fn sum_upto(n: nat, w: spec_fn(int) -> nat) -> nat
    decreases n,
{
    if n == 0 {
        0
    } else {
        sum_upto((n - 1) as nat, w) + w(n - 1)
    }
}

/// Steps that are bounded one by one are bounded together.
pub proof fn lemma_concat_len(
    n: nat,
    f: spec_fn(int) -> Seq<PatchModel>,
    w: spec_fn(int) -> nat,
)
    requires
        forall|i: int| 0 <= i < n ==> (#[trigger] f(i)).len() <= w(i),
    ensures
        concat_upto(n, f).len() <= sum_upto(n, w),
    decreases n,
{
    if n > 0 {
        lemma_concat_len((n - 1) as nat, f, w);
    }
}

pub proof fn lemma_sum_le(n: nat, w1: spec_fn(int) -> nat, w2: spec_fn(int) -> nat)
    requires
        forall|i: int| 0 <= i < n ==> #[trigger] w1(i) <= w2(i),
    ensures
        sum_upto(n, w1) <= sum_upto(n, w2),
    decreases n,
{
    if n > 0 {
        lemma_sum_le((n - 1) as nat, w1, w2);
    }
}

pub proof fn lemma_sum_add(
    n: nat,
    w1: spec_fn(int) -> nat,
    w2: spec_fn(int) -> nat,
    w3: spec_fn(int) -> nat,
)
    requires
        forall|i: int| 0 <= i < n ==> #[trigger] w3(i) == w1(i) + w2(i),
    ensures
        sum_upto(n, w3) == sum_upto(n, w1) + sum_upto(n, w2),
    decreases n,
{
    if n > 0 {
        lemma_sum_add((n - 1) as nat, w1, w2, w3);
    }
}

/// Two sums that differ in one term differ by that much.
pub proof fn lemma_sum_point(
    m: nat,
    w0: spec_fn(int) -> nat,
    w1: spec_fn(int) -> nat,
    at: int,
    delta: nat,
)
    requires
        0 <= at < m,
        w1(at) == w0(at) + delta,
        forall|i: int| 0 <= i < m && i != at ==> #[trigger] w1(i) == w0(i),
    ensures
        sum_upto(m, w1) == sum_upto(m, w0) + delta,
    decreases m,
{
    if m - 1 == at {
        lemma_sum_le((m - 1) as nat, w0, w1);
        lemma_sum_le((m - 1) as nat, w1, w0);
    } else {
        lemma_sum_point((m - 1) as nat, w0, w1, at, delta);
    }
}

/// Terms that are zero from `n` on add nothing.
pub proof fn lemma_sum_tail(n: nat, m: nat, w: spec_fn(int) -> nat)
    requires
        n <= m,
        forall|i: int| n <= i < m ==> #[trigger] w(i) == 0,
    ensures
        sum_upto(m, w) == sum_upto(n, w),
    decreases m,
{
    if m > n {
        lemma_sum_tail(n, (m - 1) as nat, w);
    }
}

/// The nodes and attributes of a tree, counted together.
pub open spec fn weight(a: NodeModel) -> nat {
    a.node_count() + a.attr_count()
}

/// The nodes and attributes of the first `n` trees are those of each, summed.
pub proof fn lemma_counts_as_sum(nodes: Seq<NodeModel>, n: nat)
    requires
        n <= nodes.len(),
    ensures
        count_nodes(nodes, n) + count_attrs(nodes, n) == sum_upto(n, |i: int| weight(nodes[i])),
    decreases n,
{
    if n > 0 {
        lemma_counts_as_sum(nodes, (n - 1) as nat);
    }
}

/// The attributes of two nodes give at most one patch for each attribute.
pub proof fn lemma_diff_attrs_count(
    old: Seq<Entry>,
    new: Seq<Entry>,
    path: Seq<usize>,
    d: Option<Seq<char>>,
)
    ensures
        diff_attrs_spec(old, new, path, d).len() <= old.len() + new.len(),
{
    let gone = |i: int| old_attr_step(old, new, path, d, i);
    let added = |i: int| new_attr_step(old, new, path, d, i);
    let one = |i: int| 1nat;
    lemma_concat_len(old.len(), gone, one);
    lemma_concat_len(new.len(), added, one);
    lemma_sum_ones(old.len());
    lemma_sum_ones(new.len());
}

pub proof fn lemma_sum_ones(n: nat)
    ensures
        sum_upto(n, |i: int| 1nat) == n,
    decreases n,
{
    if n > 0 {
        lemma_sum_ones((n - 1) as nat);
    }
}

/// The new child `j` holds a key that the old child `i` holds too.
pub open spec fn matched(olds: Seq<NodeModel>, news: Seq<NodeModel>, i: int, j: int) -> bool {
    &&& keyed_at(news, j)
    &&& has_child_key(olds, news[j].key->0)
    &&& key_index(olds, news[j].key->0) == i
}

/// Where some old child carries `key`, the first that does holds it.
pub proof fn lemma_key_index_holds(nodes: Seq<NodeModel>, key: Seq<char>)
    requires
        has_child_key(nodes, key),
    ensures
        keyed_at(nodes, key_index(nodes, key)),
        nodes[key_index(nodes, key)].key == Some(key),
{
    let u = choose|u: int| 0 <= u < nodes.len() && (#[trigger] nodes[u]).key == Some(key);
    let i = lemma_first_key(nodes, key, u);
    assert(keyed_at(nodes, i) && nodes[i].key == Some(key));
}

/// No old child is matched by two new children.
pub proof fn lemma_matched_once(
    olds: Seq<NodeModel>,
    news: Seq<NodeModel>,
    i: int,
    j1: int,
    j2: int,
)
    requires
        matched(olds, news, i, j1),
        matched(olds, news, i, j2),
    ensures
        j1 == j2,
{
    lemma_key_index_holds(olds, news[j1].key->0);
    lemma_key_index_holds(olds, news[j2].key->0);
    if j1 < j2 {
        assert(news[j1].key != news[j2].key);
    } else if j2 < j1 {
        assert(news[j2].key != news[j1].key);
    }
}

/// The size of the keyed pass over the first `n` new children: what each
/// child weighs, and what the old children weigh that they match.
#[verifier::rlimit(40)]
proof fn lemma_keyed_matches_count(
    olds: Seq<NodeModel>,
    news: Seq<NodeModel>,
    path: Seq<usize>,
    d: Option<Seq<char>>,
    n: nat,
)
    requires
        n <= news.len(),
        forall|i: int, j: int|
            0 <= i < olds.len() ==> (#[trigger] pair_step(olds, news, path, i, j)).len() + 1
                <= weight(olds[i]) + weight(news[j]),
    ensures
        keyed_matches(olds, news, path, d, n).len() <= sum_upto(
            n,
            |j: int|
                if keyed_at(news, j) {
                    weight(news[j])
                } else {
                    0
                },
        ) + sum_upto(
            olds.len(),
            |i: int|
                if exists|j: int| 0 <= j < n && matched(olds, news, i, j) {
                    weight(olds[i])
                } else {
                    0
                },
        ),
    decreases n,
{
    let wn = |j: int|
        if keyed_at(news, j) {
            weight(news[j])
        } else {
            0
        };
    let w1 = |i: int|
        if exists|j: int| 0 <= j < n && matched(olds, news, i, j) {
            weight(olds[i])
        } else {
            0
        };
    if n == 0 {
        assert(keyed_matches(olds, news, path, d, n) =~= Seq::<PatchModel>::empty());
    } else {
        let m = (n - 1) as nat;
        let w0 = |i: int|
            if exists|j: int| 0 <= j < m && matched(olds, news, i, j) {
                weight(olds[i])
            } else {
                0
            };
        lemma_keyed_matches_count(olds, news, path, d, m);
        assert(keyed_matches(olds, news, path, d, n) == keyed_matches(olds, news, path, d, m)
            + keyed_match_step(olds, news, path, d, n - 1));
        let j = n - 1;
        if keyed_at(news, j) && has_child_key(olds, news[j].key->0) {
            let i = key_index(olds, news[j].key->0);
            lemma_key_index_holds(olds, news[j].key->0);
            assert(matched(olds, news, i, j));
            assert(w0(i) == 0) by {
                if exists|j0: int| 0 <= j0 < m && matched(olds, news, i, j0) {
                    let j0 = choose|j0: int| 0 <= j0 < m && matched(olds, news, i, j0);
                    lemma_matched_once(olds, news, i, j0, j);
                }
            }
            assert(w1(i) == weight(olds[i]));
            assert forall|k: int| 0 <= k < olds.len() && k != i implies #[trigger] w1(k) == w0(
                k,
            ) by {
                if exists|j0: int| 0 <= j0 < n && matched(olds, news, k, j0) {
                    let j0 = choose|j0: int| 0 <= j0 < n && matched(olds, news, k, j0);
                    assert(j0 != j);
                    assert(0 <= j0 < m && matched(olds, news, k, j0));
                }
            }
            lemma_sum_point(olds.len(), w0, w1, i, weight(olds[i]));
            assert(pair_step(olds, news, path, i, j).len() + 1 <= weight(olds[i]) + weight(
                news[j],
            ));
        } else {
            assert forall|k: int| 0 <= k < olds.len() implies #[trigger] w0(k) <= w1(k) by {
                if exists|j0: int| 0 <= j0 < m && matched(olds, news, k, j0) {
                    let j0 = choose|j0: int| 0 <= j0 < m && matched(olds, news, k, j0);
                    assert(0 <= j0 < n && matched(olds, news, k, j0));
                }
            }
            lemma_sum_le(olds.len(), w0, w1);
            if keyed_at(news, j) {
                assert(weight(news[j]) >= 1);
            }
        }
    }
}

/// Patch-count bound: the diff of two trees holds fewer patches than the two
/// trees have nodes and attributes together.
#[verifier::rlimit(40)]
pub proof fn lemma_patch_count_bound(a: NodeModel, b: NodeModel, path: Seq<usize>)
    ensures
        diff_nodes_spec(a, b, path).len() + 1 <= a.node_count() + b.node_count()
            + a.attr_count() + b.attr_count(),
        diff_nodes_spec(a, b, path).len() <= a.node_count() + b.node_count() + a.attr_count()
            + b.attr_count(),
    decreases a,
{
    if a.tag != b.tag {
    } else if a.is_text() {
    } else {
        let d = a.djust_id;
        let olds = a.children;
        let news = b.children;
        let wo = |i: int| weight(olds[i]);
        let wn = |j: int| weight(news[j]);
        lemma_diff_attrs_count(a.attrs, b.attrs, path, d);
        lemma_counts_as_sum(olds, olds.len());
        lemma_counts_as_sum(news, news.len());
        assert forall|i: int, j: int| 0 <= i < olds.len() implies (#[trigger] pair_step(
            olds,
            news,
            path,
            i,
            j,
        )).len() + 1 <= weight(olds[i]) + weight(news[j]) by {
            lemma_patch_count_bound(olds[i], news[j], path.push(#[verifier::truncate] (j as usize)));
        }
        let one = |i: int| 1nat;
        lemma_sum_ones(olds.len());
        lemma_sum_ones(news.len());
        if replace_mode(a, b) {
            let removes = |k: int| remove_at(path, d, olds.len() - 1 - k);
            let inserts = |k: int| insert_at(news, path, d, k);
            lemma_concat_len(olds.len(), removes, one);
            lemma_concat_len(news.len(), inserts, one);
            lemma_sum_le(olds.len(), one, wo);
            lemma_sum_le(news.len(), one, wn);
            assert(diff_children_spec(a, b, path).len() <= sum_upto(olds.len(), wo) + sum_upto(
                news.len(),
                wn,
            ));
        } else if any_key(news) {
            lemma_keyed_count(olds, news, path, d);
            assert(diff_children_spec(a, b, path).len() <= sum_upto(olds.len(), wo) + sum_upto(
                news.len(),
                wn,
            ));
        } else {
            lemma_indexed_count(olds, news, path, d);
            assert(diff_children_spec(a, b, path).len() <= sum_upto(olds.len(), wo) + sum_upto(
                news.len(),
                wn,
            ));
        }
    }
}

/// The size of indexed mode.
#[verifier::rlimit(40)]
proof fn lemma_indexed_count(
    olds: Seq<NodeModel>,
    news: Seq<NodeModel>,
    path: Seq<usize>,
    d: Option<Seq<char>>,
)
    requires
        forall|i: int, j: int|
            0 <= i < olds.len() ==> (#[trigger] pair_step(olds, news, path, i, j)).len() + 1
                <= weight(olds[i]) + weight(news[j]),
    ensures
        diff_indexed_spec(olds, news, path, d).len() <= sum_upto(
            olds.len(),
            |i: int| weight(olds[i]),
        ) + sum_upto(news.len(), |j: int| weight(news[j])),
{
    let wo = |i: int| weight(olds[i]);
    let wn = |j: int| weight(news[j]);
    let common: nat = if olds.len() <= news.len() {
        olds.len()
    } else {
        news.len()
    };
    let pairs = |i: int| pair_step(olds, news, path, i, i);
    let removes = |k: int| remove_at(path, d, olds.len() - 1 - k);
    let inserts = |k: int| insert_at(news, path, d, olds.len() + k);
    let extra_old: nat = if olds.len() > news.len() {
        (olds.len() - news.len()) as nat
    } else {
        0
    };
    let extra_new: nat = if news.len() > olds.len() {
        (news.len() - olds.len()) as nat
    } else {
        0
    };
    let one = |i: int| 1nat;
    // The pairs weigh less than both sides of each; what lies beyond the
    // common length gives one patch for each node.
    let po = |i: int|
        if i < common {
            weight(olds[i])
        } else {
            0
        };
    let pn = |i: int|
        if i < common {
            (weight(news[i]) - 1) as nat
        } else {
            0
        };
    let both = |i: int| po(i) + pn(i);
    lemma_common_pairs_steps(olds, news, path, common);
    lemma_concat_len(common, pairs, both);
    lemma_sum_add(common, po, pn, both);
    lemma_concat_len(extra_old, removes, one);
    lemma_concat_len(extra_new, inserts, one);
    lemma_sum_ones(extra_old);
    lemma_sum_ones(extra_new);
    // Old side: the common part in full, and one for each child beyond it.
    let qo = |i: int|
        if i < common {
            weight(olds[i])
        } else {
            1
        };
    lemma_sum_split(common, olds.len(), po, qo);
    lemma_sum_le(olds.len(), qo, wo);
    let qn = |i: int|
        if i < common {
            (weight(news[i]) - 1) as nat
        } else {
            1
        };
    lemma_sum_split(common, news.len(), pn, qn);
    lemma_sum_le(news.len(), qn, wn);
}

/// A sum whose terms are `1` from `n` on: the sum up to `n`, and the count
/// of the rest.
pub proof fn lemma_sum_split(n: nat, m: nat, head: spec_fn(int) -> nat, all: spec_fn(int) -> nat)
    requires
        n <= m,
        forall|i: int| 0 <= i < n ==> #[trigger] all(i) == head(i),
        forall|i: int| n <= i < m ==> #[trigger] all(i) == 1,
    ensures
        sum_upto(m, all) == sum_upto(n, head) + (m - n),
    decreases m,
{
    if m > n {
        lemma_sum_split(n, (m - 1) as nat, head, all);
    } else {
        lemma_sum_le(n, all, head);
        lemma_sum_le(n, head, all);
    }
}

/// The size of keyed mode.
#[verifier::rlimit(40)]
proof fn lemma_keyed_count(
    olds: Seq<NodeModel>,
    news: Seq<NodeModel>,
    path: Seq<usize>,
    d: Option<Seq<char>>,
)
    requires
        forall|i: int, j: int|
            0 <= i < olds.len() ==> (#[trigger] pair_step(olds, news, path, i, j)).len() + 1
                <= weight(olds[i]) + weight(news[j]),
    ensures
        diff_keyed_spec(olds, news, path, d).len() <= sum_upto(
            olds.len(),
            |i: int| weight(olds[i]),
        ) + sum_upto(news.len(), |j: int| weight(news[j])),
{
    let wo = |i: int| weight(olds[i]);
    let wn = |j: int| weight(news[j]);
    let n = news.len();
    let m = olds.len();
    // First pass: one patch for each keyed old child that no new child matches.
    let r1 = |i: int| keyed_remove_step(olds, news, path, d, i);
    let c1 = |i: int|
        if keyed_at(olds, i) && !has_child_key(news, olds[i].key->0) {
            1nat
        } else {
            0
        };
    lemma_concat_len(m, r1, c1);
    // Second pass.
    let n2 = |j: int|
        if keyed_at(news, j) {
            weight(news[j])
        } else {
            0
        };
    let c2 = |i: int|
        if exists|j: int| 0 <= j < n && matched(olds, news, i, j) {
            weight(olds[i])
        } else {
            0
        };
    lemma_keyed_matches_count(olds, news, path, d, n);
    // Third pass: the unkeyed new children, and the unkeyed old children at
    // the same index.
    let m3 = |j: int| unkeyed_match_step(olds, news, path, d, j);
    let n3 = |j: int|
        if keyed_at(news, j) {
            0
        } else {
            weight(news[j])
        };
    let c3 = |i: int|
        if 0 <= i < n && !keyed_at(news, i) && 0 <= i < m && !keyed_at(olds, i) {
            weight(olds[i])
        } else {
            0
        };
    let b3 = |j: int| n3(j) + c3(j);
    lemma_unkeyed_matches_steps(olds, news, path, d, n);
    assert forall|j: int| 0 <= j < n implies (#[trigger] m3(j)).len() <= b3(j) by {
        if !keyed_at(news, j) {
            if j < m && !keyed_at(olds, j) {
                assert(pair_step(olds, news, path, j, j).len() + 1 <= weight(olds[j]) + weight(
                    news[j],
                ));
            }
        }
    }
    lemma_concat_len(n, m3, b3);
    lemma_sum_add(n, n3, c3, b3);
    // Fourth pass.
    let r4 = |i: int| unkeyed_remove_step(olds, news, path, d, i);
    let c4 = |i: int|
        if !keyed_at(olds, i) && (i >= n || keyed_at(news, i)) {
            1nat
        } else {
            0
        };
    lemma_concat_len(m, r4, c4);
    // The new side: each new child is weighed in one pass only.
    let n23 = |j: int| n2(j) + n3(j);
    lemma_sum_add(n, n2, n3, n23);
    lemma_sum_le(n, n23, wn);
    // The old side: the third pass, counted over the old children.
    if n <= m {
        lemma_sum_tail(n, m, c3);
    } else {
        lemma_sum_tail(m, n, c3);
    }
    // Each old child is charged in one pass only.
    let c12 = |i: int| c1(i) + c2(i);
    let c34 = |i: int| c3(i) + c4(i);
    let call = |i: int| c12(i) + c34(i);
    lemma_sum_add(m, c1, c2, c12);
    lemma_sum_add(m, c3, c4, c34);
    lemma_sum_add(m, c12, c34, call);
    assert forall|i: int| 0 <= i < m implies #[trigger] call(i) <= wo(i) by {
        assert(weight(olds[i]) >= 1);
        if exists|j: int| 0 <= j < n && matched(olds, news, i, j) {
            let j = choose|j: int| 0 <= j < n && matched(olds, news, i, j);
            lemma_key_index_holds(olds, news[j].key->0);
            assert(keyed_at(olds, i));
            assert(news[j].key == olds[i].key);
            assert(has_child_key(news, olds[i].key->0));
        }
    }
    lemma_sum_le(m, call, wo);
}

} // verus!
