//! The diff engine and the patch applier on many generated trees.

use djust::vdom::diff::diff_nodes;
use djust::vdom::patch::apply_patches;
use djust::vdom::VNode;

const TAGS: [&str; 5] = ["div", "span", "p", "li", "ul"];
const ATTR_KEYS: [&str; 4] = ["class", "style", "href", "title"];
const WORDS: [&str; 4] = ["a", "b", "c", "long text"];

/// A small generator of numbers that gives the same numbers on every run.
struct Numbers(u64);

impl Numbers {
    fn next(&mut self, bound: u64) -> u64 {
        self.0 = self
            .0
            .wrapping_mul(6364136223846793005)
            .wrapping_add(1442695040888963407);
        (self.0 >> 33) % bound
    }

    fn pick<'a>(&mut self, from: &[&'a str]) -> &'a str {
        from[self.next(from.len() as u64) as usize]
    }
}

struct Shape {
    keys: bool,
    replace_marker: bool,
}

fn tree(numbers: &mut Numbers, depth: u32, shape: &Shape) -> VNode {
    if depth == 0 || numbers.next(5) == 0 {
        if numbers.next(3) == 0 {
            return VNode::text(numbers.pick(&WORDS));
        }
        return VNode::element(numbers.pick(&TAGS));
    }
    let mut node = VNode::element(numbers.pick(&TAGS));
    for _ in 0..numbers.next(3) {
        node = node.with_attr(numbers.pick(&ATTR_KEYS), numbers.pick(&WORDS));
    }
    if shape.replace_marker && numbers.next(8) == 0 {
        node = node.with_attr("data-djust-replace", "");
    }
    for _ in 0..numbers.next(5) {
        let mut child = tree(numbers, depth - 1, shape);
        if shape.keys && !child.is_text() && numbers.next(3) == 0 {
            // Now and then two siblings carry the same key.
            child = child.with_key(numbers.pick(&WORDS));
        }
        node = node.with_child(child);
    }
    node
}

fn assign_ids(node: &mut VNode, counter: &mut u64) {
    node.djust_id = Some(format!("t{}", counter));
    *counter += 1;
    for child in &mut node.children {
        assign_ids(child, counter);
    }
}

fn count_nodes(node: &VNode) -> usize {
    1 + node.children.iter().map(count_nodes).sum::<usize>()
}

fn count_attrs(node: &VNode) -> usize {
    node.attrs.len() + node.children.iter().map(count_attrs).sum::<usize>()
}

fn pair(numbers: &mut Numbers, old: &Shape, new: &Shape) -> (VNode, VNode) {
    let mut a = tree(numbers, 3, old);
    let mut b = tree(numbers, 3, new);
    let mut counter = 0u64;
    assign_ids(&mut a, &mut counter);
    assign_ids(&mut b, &mut counter);
    (a, b)
}

#[test]
fn generated_trees_diffed_with_themselves_give_no_patches() {
    let mut numbers = Numbers(1);
    let shape = Shape { keys: true, replace_marker: false };
    for _ in 0..500 {
        let (a, _) = pair(&mut numbers, &shape, &shape);
        let patches = diff_nodes(&a, &a, &[]);
        assert!(patches.is_empty(), "{:?} gave {:?}", a, patches);
    }
}

#[test]
fn generated_round_trips_into_trees_without_keys() {
    let mut numbers = Numbers(2);
    let old = Shape { keys: true, replace_marker: true };
    let new = Shape { keys: false, replace_marker: true };
    for _ in 0..500 {
        let (a, b) = pair(&mut numbers, &old, &new);
        let patches = diff_nodes(&a, &b, &[]);
        let mut patched = a.clone();
        apply_patches(&mut patched, &patches);
        assert!(
            patched.structurally_equal(&b),
            "A: {:?}\nB: {:?}\nPatches: {:?}\nPatched: {:?}",
            a,
            b,
            patches,
            patched
        );
    }
}

#[test]
fn generated_patch_counts_stay_below_the_bound() {
    let mut numbers = Numbers(3);
    let shape = Shape { keys: true, replace_marker: true };
    for _ in 0..500 {
        let (a, b) = pair(&mut numbers, &shape, &shape);
        let bound = count_nodes(&a) + count_nodes(&b) + count_attrs(&a) + count_attrs(&b);
        let patches = diff_nodes(&a, &b, &[]);
        assert!(patches.len() < bound, "{} patches, bound {}", patches.len(), bound);
    }
}

#[test]
fn generated_keyed_trees_are_diffed_and_patched_without_panics() {
    let mut numbers = Numbers(4);
    let shape = Shape { keys: true, replace_marker: true };
    for _ in 0..500 {
        let (a, b) = pair(&mut numbers, &shape, &shape);
        let patches = diff_nodes(&a, &b, &[]);
        let mut patched = a.clone();
        apply_patches(&mut patched, &patches);
        // Whatever the keys, the root is brought in line.
        assert_eq!(patched.tag, b.tag);
        // Patches made for one tree do no harm on another.
        let mut other = b.clone();
        apply_patches(&mut other, &patches);
    }
}
