//! The order in which the removals and the insertions of one depth are
//! applied: what sorting them gives.

use crate::vdom::ops::PatchModel;
use crate::vdom::patch::{child_before, insert_sorted, path_lt, path_lt_from, sorted_by};
use crate::vdom::roundtrip::in_order;
use vstd::prelude::*;
use vstd::seq_lib::{to_multiset_build, to_multiset_insert};

verus! {

/// Of two paths at most one comes before the other.
pub proof fn lemma_path_lt_asymmetric(a: Seq<usize>, b: Seq<usize>, k: int)
    requires
        0 <= k,
    ensures
        !(path_lt_from(a, b, k) && path_lt_from(b, a, k)),
    decreases a.len() - k,
{
    if k < a.len() && k < b.len() && a[k] == b[k] {
        lemma_path_lt_asymmetric(a, b, k + 1);
    }
}

/// Two paths that agree up to `k` are the same, or one comes before the
/// other from `k` on.
pub proof fn lemma_path_lt_total(a: Seq<usize>, b: Seq<usize>, k: int)
    requires
        0 <= k <= a.len(),
        k <= b.len(),
        forall|j: int| 0 <= j < k ==> a[j] == b[j],
    ensures
        a == b || path_lt_from(a, b, k) || path_lt_from(b, a, k),
    decreases a.len() - k,
{
    if k < a.len() && k < b.len() {
        if a[k] == b[k] {
            lemma_path_lt_total(a, b, k + 1);
        }
    } else if k == a.len() && k == b.len() {
        assert(a =~= b);
    }
}

/// A path before a path before a third comes before the third.
pub proof fn lemma_path_lt_transitive(a: Seq<usize>, b: Seq<usize>, c: Seq<usize>, k: int)
    requires
        0 <= k,
        path_lt_from(a, b, k),
        path_lt_from(b, c, k),
    ensures
        path_lt_from(a, c, k),
    decreases a.len() - k,
{
    if k < a.len() && a[k] == b[k] && b[k] == c[k] {
        lemma_path_lt_transitive(a, b, c, k + 1);
    }
}

/// Of two patches at most one comes before the other.
pub proof fn lemma_before_asymmetric(p: PatchModel, q: PatchModel, descending: bool)
    ensures
        !(child_before(p, q, descending) && child_before(q, p, descending)),
{
    lemma_path_lt_asymmetric(p.path(), q.path(), 0);
    lemma_path_lt_asymmetric(p.path(), p.path(), 0);
}

/// A patch that does not come before a second, which does not come before a
/// third, does not come before the third.
pub proof fn lemma_before_chain(p: PatchModel, e: PatchModel, x: PatchModel, descending: bool)
    requires
        !child_before(p, e, descending),
        !child_before(e, x, descending),
    ensures
        !child_before(p, x, descending),
{
    let pp = p.path();
    let pe = e.path();
    let px = x.path();
    lemma_path_lt_total(pp, pe, 0);
    lemma_path_lt_total(pe, px, 0);
    lemma_path_lt_asymmetric(pp, px, 0);
    lemma_path_lt_asymmetric(pp, pp, 0);
    if path_lt(pp, px) {
        if pe != pp {
            lemma_path_lt_transitive(pe, pp, px, 0);
        }
    } else if pp == px {
        if pe != pp {
            // The middle path lies on one side of the two equal paths.
            assert(path_lt(pe, pp) || path_lt(px, pe));
            if path_lt(pe, pp) {
                assert(path_lt(pe, px));
            } else {
                assert(path_lt(pp, pe));
            }
        }
    }
}

/// Where a patch goes in a sorted list: after the last patch that it need
/// not come before.
pub open spec fn insert_position(sorted: Seq<PatchModel>, patch: PatchModel, descending: bool)
    -> int
    decreases sorted.len(),
{
    if sorted.len() > 0 && child_before(patch, sorted.last(), descending) {
        insert_position(sorted.drop_last(), patch, descending)
    } else {
        sorted.len() as int
    }
}

/// Putting a patch into a sorted list puts it at its position: it need not
/// come before the patch in front of it, and must come before those behind.
pub proof fn lemma_insert_sorted(sorted: Seq<PatchModel>, patch: PatchModel, descending: bool)
    ensures
        0 <= insert_position(sorted, patch, descending) <= sorted.len(),
        insert_sorted(sorted, patch, descending) == sorted.insert(
            insert_position(sorted, patch, descending),
            patch,
        ),
        forall|j: int|
            insert_position(sorted, patch, descending) <= j < sorted.len() ==> child_before(
                patch,
                #[trigger] sorted[j],
                descending,
            ),
        insert_position(sorted, patch, descending) > 0 ==> !child_before(
            patch,
            sorted[insert_position(sorted, patch, descending) - 1],
            descending,
        ),
    decreases sorted.len(),
{
    let pos = insert_position(sorted, patch, descending);
    if sorted.len() > 0 && child_before(patch, sorted.last(), descending) {
        let front = sorted.drop_last();
        lemma_insert_sorted(front, patch, descending);
        assert(front.insert(pos, patch).push(sorted.last()) =~= sorted.insert(pos, patch));
        assert forall|j: int| pos <= j < sorted.len() implies child_before(
            patch,
            #[trigger] sorted[j],
            descending,
        ) by {
            if j < front.len() {
                assert(sorted[j] == front[j]);
            }
        }
        if pos > 0 {
            assert(sorted[pos - 1] == front[pos - 1]);
        }
    } else {
        assert(sorted.push(patch) =~= sorted.insert(pos, patch));
    }
}

/// A list in order stays in order when a patch is put into it.
pub proof fn lemma_insert_keeps_order(sorted: Seq<PatchModel>, patch: PatchModel, descending: bool)
    requires
        in_order(sorted, descending),
    ensures
        in_order(insert_sorted(sorted, patch, descending), descending),
{
    lemma_insert_sorted(sorted, patch, descending);
    let pos = insert_position(sorted, patch, descending);
    let out = sorted.insert(pos, patch);
    assert forall|i: int, j: int| 0 <= i < j < out.len() implies !child_before(
        #[trigger] out[j],
        #[trigger] out[i],
        descending,
    ) by {
        if j == pos {
            // The patch itself, against a patch in front of it.
            assert(out[j] == patch);
            assert(out[i] == sorted[i]);
            if i < pos - 1 {
                lemma_before_chain(patch, sorted[pos - 1], sorted[i], descending);
            }
        } else if i == pos {
            assert(out[i] == patch);
            assert(out[j] == sorted[j - 1]);
            lemma_before_asymmetric(patch, sorted[j - 1], descending);
        } else {
            let i0 = if i < pos {
                i
            } else {
                i - 1
            };
            let j0 = if j < pos {
                j
            } else {
                j - 1
            };
            assert(out[i] == sorted[i0]);
            assert(out[j] == sorted[j0]);
        }
    }
}

/// Sorted patches are in order: none comes before an earlier one.
pub proof fn lemma_sorted_is_in_order(patches: Seq<PatchModel>, descending: bool)
    ensures
        in_order(sorted_by(patches, descending), descending),
    decreases patches.len(),
{
    if patches.len() > 0 {
        lemma_sorted_is_in_order(patches.drop_last(), descending);
        lemma_insert_keeps_order(
            sorted_by(patches.drop_last(), descending),
            patches.last(),
            descending,
        );
    }
}

/// Sorting keeps the patches: each as often as before.
pub proof fn lemma_sorted_permutes(patches: Seq<PatchModel>, descending: bool)
    ensures
        sorted_by(patches, descending).to_multiset() == patches.to_multiset(),
        sorted_by(patches, descending).len() == patches.len(),
    decreases patches.len(),
{
    if patches.len() > 0 {
        let front = patches.drop_last();
        let last = patches.last();
        lemma_sorted_permutes(front, descending);
        let sorted = sorted_by(front, descending);
        lemma_insert_sorted(sorted, last, descending);
        to_multiset_insert(sorted, insert_position(sorted, last, descending), last);
        to_multiset_build(front, last);
        assert(front.push(last) =~= patches);
    }
}

} // verus!
