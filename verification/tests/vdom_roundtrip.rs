//! Diffing two trees and replaying the patches.

use djust::vdom::diff::diff_nodes;
use djust::vdom::patch::{apply_patch, apply_patches};
use djust::vdom::{diff, Patch, VNode};

/// Gives every node of a tree an identity of its own, text nodes too.
fn assign_ids(node: &mut VNode, counter: &mut u64) {
    node.djust_id = Some(format!("t{}", counter));
    *counter += 1;
    for child in &mut node.children {
        assign_ids(child, counter);
    }
}

fn count_nodes(node: &VNode) -> usize {
    1 + node.children.iter().map(count_nodes).sum::<usize>()
}

fn count_attrs(node: &VNode) -> usize {
    node.attrs.len() + node.children.iter().map(count_attrs).sum::<usize>()
}

fn round_trip(a: &VNode, b: &VNode) -> (Vec<Patch>, VNode) {
    let mut a = a.clone();
    let mut b = b.clone();
    let mut counter = 0u64;
    assign_ids(&mut a, &mut counter);
    assign_ids(&mut b, &mut counter);
    let patches = diff_nodes(&a, &b, &[]);
    let mut patched = a.clone();
    apply_patches(&mut patched, &patches);
    (patches, patched)
}

fn count_kind(patches: &[Patch], kind: &str) -> usize {
    patches
        .iter()
        .filter(|p| match p {
            Patch::Replace { .. } => kind == "Replace",
            Patch::SetText { .. } => kind == "SetText",
            Patch::SetAttr { .. } => kind == "SetAttr",
            Patch::RemoveAttr { .. } => kind == "RemoveAttr",
            Patch::InsertChild { .. } => kind == "InsertChild",
            Patch::RemoveChild { .. } => kind == "RemoveChild",
            Patch::MoveChild { .. } => kind == "MoveChild",
        })
        .count()
}

fn sample_tree() -> VNode {
    VNode::element("div")
        .with_attr("class", "page")
        .with_attr("data-dj-id", "0")
        .with_children(vec![
            VNode::element("ul").with_children(vec![
                VNode::element("li").with_key("a").with_child(VNode::text("A")),
                VNode::element("li").with_key("b").with_child(VNode::text("B")),
                VNode::element("li").with_child(VNode::text("plain")),
            ]),
            VNode::text("between"),
            VNode::element("p")
                .with_attr("title", "t")
                .with_child(VNode::element("span")),
        ])
}

#[test]
fn issue_212_keyed_reorder_round_trip() {
    let mut a = VNode::element("div").with_children(vec![
        VNode::text("a"),
        VNode::element("a").with_child(VNode::element("div").with_key("a")),
    ]);

    let mut b = VNode::element("div").with_children(vec![
        VNode::element("div").with_key("a"),
        VNode::text("A"),
        VNode::element("a"),
    ]);

    let mut counter = 0u64;
    assign_ids(&mut a, &mut counter);
    assign_ids(&mut b, &mut counter);

    let patches = diff_nodes(&a, &b, &[]);
    let mut patched = a.clone();
    apply_patches(&mut patched, &patches);

    assert!(
        patched.structurally_equal(&b),
        "Round-trip failed for issue #212.\nA: {:#?}\nB: {:#?}\nPatches: {:#?}\nPatched: {:#?}",
        a,
        b,
        patches,
        patched,
    );
}

#[test]
fn identity_diff_produces_no_patches() {
    let mut a = sample_tree();
    let mut counter = 0u64;
    assign_ids(&mut a, &mut counter);
    assert!(diff_nodes(&a, &a, &[]).is_empty());
    assert!(diff(&a, &a.clone()).is_empty());
}

#[test]
fn identity_holds_with_a_key_that_two_siblings_carry() {
    let a = VNode::element("ul").with_children(vec![
        VNode::element("li").with_key("k").with_child(VNode::text("one")),
        VNode::element("li").with_key("k").with_child(VNode::text("two")),
        VNode::element("li").with_key("other"),
    ]);
    assert!(diff_nodes(&a, &a, &[]).is_empty());
}

#[test]
fn a_later_sibling_with_the_same_key_is_diffed_by_position() {
    let old = VNode::element("ul").with_children(vec![
        VNode::element("li").with_key("k").with_child(VNode::text("one")),
        VNode::element("li").with_key("k").with_child(VNode::text("two")),
    ]);
    let new = VNode::element("ul").with_children(vec![
        VNode::element("li").with_key("k").with_child(VNode::text("one")),
        VNode::element("li").with_key("k").with_child(VNode::text("changed")),
    ]);
    let patches = diff_nodes(&old, &new, &[]);
    assert_eq!(patches.len(), 1);
    match &patches[0] {
        Patch::SetText { path, text, d } => {
            assert_eq!(path, &vec![1, 0]);
            assert_eq!(text, "changed");
            assert!(d.is_none());
        }
        other => panic!("expected SetText, got {:?}", other),
    }
}

#[test]
fn identity_fails_only_under_the_replace_marker() {
    let a = VNode::element("div")
        .with_attr("data-djust-replace", "")
        .with_child(VNode::element("p"));
    let patches = diff_nodes(&a, &a, &[]);
    assert_eq!(count_kind(&patches, "RemoveChild"), 1);
    assert_eq!(count_kind(&patches, "InsertChild"), 1);
    assert_eq!(patches.len(), 2);

    let empty = VNode::element("div").with_attr("data-djust-replace", "");
    assert!(diff_nodes(&empty, &empty, &[]).is_empty());
}

#[test]
fn patch_count_is_bounded_by_nodes_and_attributes() {
    let a = sample_tree();
    let b = VNode::element("div")
        .with_attr("class", "other")
        .with_attr("id", "x")
        .with_children(vec![
            VNode::element("ul").with_children(vec![
                VNode::element("li").with_key("b").with_attr("class", "x"),
                VNode::element("li").with_key("c"),
                VNode::element("li").with_key("a").with_child(VNode::text("A2")),
            ]),
            VNode::element("section"),
        ]);
    for (x, y) in [(&a, &b), (&b, &a), (&a, &a), (&b, &b)] {
        let patches = diff_nodes(x, y, &[]);
        let bound = count_nodes(x) + count_nodes(y) + count_attrs(x) + count_attrs(y);
        assert!(patches.len() < bound, "{} patches, bound {}", patches.len(), bound);
    }
    assert_eq!(diff_nodes(&a, &b, &[]).len(), 11);
}

#[test]
fn keyed_swap_gives_a_move_for_each_child_and_applies() {
    let a = VNode::element("ul").with_children(vec![
        VNode::element("li").with_key("a").with_child(VNode::text("A")),
        VNode::element("li").with_key("b").with_child(VNode::text("B")),
    ]);
    let b = VNode::element("ul").with_children(vec![
        VNode::element("li").with_key("b").with_child(VNode::text("B")),
        VNode::element("li").with_key("a").with_child(VNode::text("A")),
    ]);
    let (patches, patched) = round_trip(&a, &b);
    // Each key that sits at another index gives one move.
    assert_eq!(count_kind(&patches, "MoveChild"), 2);
    assert_eq!(patches.len(), 2);
    assert_eq!(count_kind(&patches, "Replace"), 0);
    assert_eq!(count_kind(&patches, "SetText"), 0);
    assert!(patches
        .iter()
        .any(|p| matches!(p, Patch::MoveChild { from: 1, to: 0, .. })));
    assert!(patches
        .iter()
        .any(|p| matches!(p, Patch::MoveChild { from: 0, to: 1, .. })));
    assert!(patched.structurally_equal(&b));
    assert_eq!(patched.children[0].key, Some("b".to_string()));
    assert_eq!(patched.children[1].key, Some("a".to_string()));
}

#[test]
fn replace_all_scenario() {
    let old = VNode::element("div")
        .with_attr("data-djust-replace", "")
        .with_children(vec![
            VNode::element("p").with_child(VNode::text("x1")),
            VNode::element("p").with_child(VNode::text("x2")),
            VNode::element("p").with_child(VNode::text("x3")),
        ]);
    let new = VNode::element("div")
        .with_attr("data-djust-replace", "")
        .with_children(vec![
            VNode::element("p").with_child(VNode::text("y1")),
            VNode::element("p").with_child(VNode::text("y2")),
        ]);
    let (patches, patched) = round_trip(&old, &new);
    assert_eq!(patches.len(), 5);
    assert_eq!(count_kind(&patches, "RemoveChild"), 3);
    assert_eq!(count_kind(&patches, "InsertChild"), 2);
    assert_eq!(count_kind(&patches, "SetText"), 0);
    assert_eq!(count_kind(&patches, "SetAttr"), 0);
    // Removals come last child first, insertions first child first.
    let indices: Vec<usize> = patches
        .iter()
        .map(|p| match p {
            Patch::RemoveChild { index, .. } => *index,
            Patch::InsertChild { index, .. } => *index,
            _ => unreachable!(),
        })
        .collect();
    assert_eq!(indices, vec![2, 1, 0, 0, 1]);
    assert!(patched.structurally_equal(&new));
}

#[test]
fn tag_mismatch_scenario() {
    let old = VNode::element("div").with_djust_id("old");
    let new = VNode::element("span").with_djust_id("new");
    let patches = diff_nodes(&old, &new, &[3, 1]);
    assert_eq!(patches.len(), 1);
    match &patches[0] {
        Patch::Replace { path, d, node } => {
            assert_eq!(path, &vec![3, 1]);
            assert_eq!(d, &Some("old".to_string()));
            assert_eq!(node.tag, "span");
            assert_eq!(node.djust_id, Some("new".to_string()));
        }
        other => panic!("expected Replace, got {:?}", other),
    }
}

#[test]
fn attribute_scenario() {
    let a = VNode::element("div").with_attr("class", "a");
    let b = VNode::element("div").with_attr("class", "b");
    let bare = VNode::element("div");

    let patches = diff_nodes(&a, &b, &[]);
    assert_eq!(patches.len(), 1);
    assert!(matches!(
        &patches[0],
        Patch::SetAttr { key, value, .. } if key == "class" && value == "b"
    ));

    let patches = diff_nodes(&a, &bare, &[]);
    assert_eq!(patches.len(), 1);
    assert!(matches!(&patches[0], Patch::RemoveAttr { key, .. } if key == "class"));

    let patches = diff_nodes(&bare, &a, &[]);
    assert_eq!(patches.len(), 1);
    assert!(matches!(
        &patches[0],
        Patch::SetAttr { key, value, .. } if key == "class" && value == "a"
    ));
}

#[test]
fn attribute_patches_follow_the_order_of_the_attributes() {
    let old = VNode::element("div")
        .with_attr("a", "1")
        .with_attr("b", "2")
        .with_attr("c", "3");
    let new = VNode::element("div")
        .with_attr("z", "9")
        .with_attr("c", "4")
        .with_attr("a", "1")
        .with_attr("y", "8");
    let patches = diff_nodes(&old, &new, &[]);
    let seen: Vec<String> = patches
        .iter()
        .map(|p| match p {
            Patch::RemoveAttr { key, .. } => format!("-{}", key),
            Patch::SetAttr { key, value, .. } => format!("{}={}", key, value),
            other => panic!("unexpected {:?}", other),
        })
        .collect();
    assert_eq!(seen, vec!["-b", "c=4", "z=9", "y=8"]);
}

#[test]
fn round_trip_without_keys() {
    let a = VNode::element("div")
        .with_attr("class", "a")
        .with_attr("title", "t")
        .with_children(vec![
            VNode::element("p").with_child(VNode::text("one")),
            VNode::text("two"),
            VNode::element("span")
                .with_attr("data-djust-replace", "")
                .with_child(VNode::element("b")),
            VNode::element("i"),
        ]);
    let b = VNode::element("div")
        .with_attr("class", "b")
        .with_children(vec![
            VNode::element("p").with_children(vec![VNode::text("uno"), VNode::element("em")]),
            VNode::element("h1"),
            VNode::element("span").with_children(vec![VNode::text("x"), VNode::text("y")]),
        ]);
    let (_, patched) = round_trip(&a, &b);
    assert!(patched.structurally_equal(&b));
    let (_, back) = round_trip(&b, &a);
    assert!(back.structurally_equal(&a));
}

#[test]
fn round_trip_with_keyed_children() {
    let a = VNode::element("ul").with_children(vec![
        VNode::element("li").with_key("a").with_child(VNode::text("A")),
        VNode::element("li").with_key("b").with_child(VNode::text("B")),
        VNode::element("li").with_key("c").with_child(VNode::text("C")),
    ]);
    let b = VNode::element("ul").with_children(vec![
        VNode::element("li").with_key("c").with_child(VNode::text("C")),
        VNode::element("li").with_key("n"),
        VNode::element("li").with_key("a").with_child(VNode::text("A changed")),
    ]);
    let (patches, patched) = round_trip(&a, &b);
    assert_eq!(count_kind(&patches, "RemoveChild"), 1);
    assert_eq!(count_kind(&patches, "InsertChild"), 1);
    assert_eq!(count_kind(&patches, "MoveChild"), 2);
    assert_eq!(count_kind(&patches, "SetText"), 1);
    assert!(patched.structurally_equal(&b));
}

#[test]
fn structural_equality_ignores_identities_only() {
    let a = VNode::element("div")
        .with_djust_id("1")
        .with_attr("data-dj-id", "1")
        .with_attr("class", "x")
        .with_child(VNode::text("t"));
    let b = VNode::element("div")
        .with_djust_id("2")
        .with_attr("class", "x")
        .with_attr("data-dj-id", "2")
        .with_child(VNode::text("t").with_djust_id("9"));
    assert!(a.structurally_equal(&b));
    assert!(!a.structurally_equal(&b.clone().with_attr("class", "y")));
    assert!(!a.structurally_equal(&b.clone().with_child(VNode::text("more"))));
    assert!(!a.structurally_equal(&VNode::element("span")));
}

#[test]
fn attribute_maps_compare_as_maps() {
    let a = VNode::element("div").with_attr("x", "1").with_attr("y", "2");
    let b = VNode::element("div").with_attr("y", "2").with_attr("x", "1");
    assert!(a == b);
    assert!(a != VNode::element("div").with_attr("x", "1"));
    assert!(a != VNode::element("div").with_attr("x", "1").with_attr("y", "3"));
    let mut c = a.clone();
    assert_eq!(c.attrs.insert("x".to_string(), "5".to_string()), Some("1".to_string()));
    assert_eq!(c.attrs.insert("z".to_string(), "6".to_string()), None);
    assert_eq!(c.attrs.len(), 3);
    assert_eq!(c.attrs.key_at(0), "x");
    assert_eq!(c.attrs.value_at(0), "5");
    assert_eq!(c.attrs.remove("x"), Some("5".to_string()));
    assert_eq!(c.attrs.remove("x"), None);
    assert!(!c.attrs.contains_key("x"));
    assert!(c.attrs.contains_key("z"));
    assert!(!c.attrs.is_empty());
}

#[test]
fn apply_patch_replaces_removes_and_moves() {
    let mut root = VNode::element("div").with_children(vec![
        VNode::element("a").with_attr("href", "x"),
        VNode::element("b"),
        VNode::element("c"),
    ]);
    apply_patch(
        &mut root,
        &Patch::RemoveAttr { path: vec![0], d: None, key: "href".to_string() },
    );
    assert!(root.children[0].attrs.is_empty());
    apply_patch(&mut root, &Patch::MoveChild { path: vec![], d: None, from: 0, to: 2 });
    let tags: Vec<&str> = root.children.iter().map(|c| c.tag.as_str()).collect();
    assert_eq!(tags, vec!["b", "c", "a"]);
    apply_patch(&mut root, &Patch::RemoveChild { path: vec![], d: None, index: 1 });
    let tags: Vec<&str> = root.children.iter().map(|c| c.tag.as_str()).collect();
    assert_eq!(tags, vec!["b", "a"]);
    apply_patch(
        &mut root,
        &Patch::Replace { path: vec![1], d: None, node: VNode::text("t") },
    );
    assert!(root.children[1].is_text());
    apply_patch(
        &mut root,
        &Patch::InsertChild { path: vec![], d: None, index: 2, node: VNode::element("z") },
    );
    assert_eq!(root.children.len(), 3);
    assert_eq!(root.children[2].tag, "z");
}

#[test]
fn a_patch_that_cannot_be_resolved_changes_nothing() {
    let untouched = VNode::element("div").with_children(vec![VNode::element("a")]);
    let unresolved = vec![
        Patch::SetText { path: vec![4], d: None, text: "x".to_string() },
        Patch::SetAttr {
            path: vec![0, 0],
            d: None,
            key: "k".to_string(),
            value: "v".to_string(),
        },
        Patch::RemoveChild { path: vec![], d: None, index: 1 },
        Patch::InsertChild { path: vec![], d: None, index: 5, node: VNode::element("z") },
        Patch::MoveChild { path: vec![], d: None, from: 0, to: 1 },
        Patch::MoveChild { path: vec![], d: None, from: 3, to: 0 },
        Patch::Replace { path: vec![1], d: None, node: VNode::element("z") },
    ];
    for patch in &unresolved {
        let mut root = untouched.clone();
        apply_patch(&mut root, patch);
        assert!(root == untouched, "{:?} changed the tree", patch);
    }
    let mut root = untouched.clone();
    apply_patches(&mut root, &unresolved[..3]);
    assert!(root == untouched);
    apply_patches(&mut root, &[]);
    assert!(root == untouched);
}

#[test]
fn a_batch_works_level_by_level() {
    // The deeper patch is listed first, and it is written for the shape
    // that the shallow patches produce.
    let mut root = VNode::element("div").with_children(vec![
        VNode::element("gone"),
        VNode::element("kept").with_child(VNode::text("old")),
    ]);
    let patches = vec![
        Patch::SetText { path: vec![1, 0], d: None, text: "new".to_string() },
        Patch::InsertChild { path: vec![], d: None, index: 0, node: VNode::element("first") },
        Patch::RemoveChild { path: vec![], d: None, index: 0 },
    ];
    apply_patches(&mut root, &patches);
    let tags: Vec<&str> = root.children.iter().map(|c| c.tag.as_str()).collect();
    assert_eq!(tags, vec!["first", "kept"]);
    assert_eq!(root.children[1].children[0].text, Some("new".to_string()));
}

#[test]
fn a_batch_removes_from_the_back_and_inserts_from_the_front() {
    let mut root = VNode::element("div").with_children(vec![
        VNode::element("a"),
        VNode::element("b"),
        VNode::element("c"),
        VNode::element("d"),
    ]);
    let patches = vec![
        Patch::RemoveChild { path: vec![], d: None, index: 1 },
        Patch::InsertChild { path: vec![], d: None, index: 9, node: VNode::element("z") },
        Patch::RemoveChild { path: vec![], d: None, index: 3 },
        Patch::InsertChild { path: vec![], d: None, index: 0, node: VNode::element("y") },
    ];
    apply_patches(&mut root, &patches);
    let tags: Vec<&str> = root.children.iter().map(|c| c.tag.as_str()).collect();
    assert_eq!(tags, vec!["y", "a", "c", "z"]);
}

#[test]
fn a_batch_resolves_moves_by_identity() {
    let mut root = VNode::element("div").with_children(vec![
        VNode::element("a").with_djust_id("ia"),
        VNode::element("b").with_djust_id("ib"),
        VNode::element("c").with_djust_id("ic"),
    ]);
    // After the removal the child `c` is at index 1, yet the move names the
    // index it had before.
    let patches = vec![
        Patch::MoveChild { path: vec![], d: None, from: 2, to: 0 },
        Patch::RemoveChild { path: vec![], d: None, index: 0 },
    ];
    apply_patches(&mut root, &patches);
    let tags: Vec<&str> = root.children.iter().map(|c| c.tag.as_str()).collect();
    assert_eq!(tags, vec!["c", "b"]);
}
