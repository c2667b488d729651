//! The virtual DOM: nodes, patches, diffing and patch application.

pub mod attrs;
pub mod diff;
pub mod node;
pub mod ops;
pub mod parser;
pub mod patch;
pub mod roundtrip;
pub mod sorted;
pub mod theorems;

pub use crate::vdom::node::VNode;
pub use crate::vdom::ops::Patch;

use crate::errors::DjangoRustError;
use crate::vdom::diff::{diff_nodes, diff_nodes_spec};
use crate::vdom::ops::patches_view;
use crate::vdom::parser::{find_root_spec, parsed_document, vnode_of};
use vstd::prelude::*;

verus! {

/// Computes the patches that turn the tree `old` into the tree `new`.
pub fn diff(old: &VNode, new: &VNode) -> (patches: Vec<Patch>)
    ensures
        patches_view(patches@) == diff_nodes_spec(old@, new@, Seq::empty()),
{
    let root: Vec<usize> = Vec::new();
    diff_nodes(old, new, root.as_slice())
}

/// Parses HTML into a tree.
pub fn parse_html(html: &str) -> (r: Result<VNode, DjangoRustError>)
    ensures
        match parsed_document(html@) {
            Some(document) => match r {
                Ok(node) => node@ == vnode_of(find_root_spec(document), 0).0 && vnode_of(
                    find_root_spec(document),
                    0,
                ).1 <= u64::MAX,
                Err(e) => vnode_of(find_root_spec(document), 0).1 > u64::MAX && e is VdomError,
            },
            None => r is Err && r->Err_0 is VdomError,
        },
{
    crate::vdom::parser::parse_html(html)
}

} // verus!
