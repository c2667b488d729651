//! Block maps: the blocks of a template by name, every name at most once.
//!
//! The entries keep the order in which their names were first inserted.

use crate::templates::parser::{asts_view, clone_nodes, AstModel, TemplateNode};
use crate::vdom::attrs::{
    has_key, index_of, lemma_index_of_unique, lemma_with_entry_unique, unique_keys, value_of,
    with_entry,
};
use vstd::prelude::*;
use vstd::string::*;

verus! {

/// One block in a model: its name and its content.
pub type BlockModel = (Seq<char>, Seq<AstModel>);

/// The blocks of a template by name.
#[derive(Debug)]
pub struct BlockMap {
    entries: Vec<(String, Vec<TemplateNode>)>,
}

impl View for BlockMap {
    type V = Seq<BlockModel>;

    closed spec fn view(&self) -> Seq<BlockModel> {
        Seq::new(self.entries@.len(), |i: int| (self.entries@[i].0@, asts_view(self.entries@[i].1)))
    }
}

impl BlockMap {
    #[verifier::type_invariant]
    closed spec fn names_are_unique(&self) -> bool {
        unique_keys(self@)
    }

    /// An empty map.
    pub fn new() -> (r: Self)
        ensures
            r@ == Seq::<BlockModel>::empty(),
    {
        let r = BlockMap { entries: Vec::new() };
        assert(r@ =~= Seq::<BlockModel>::empty());
        r
    }

    /// The number of blocks. No name occurs twice among them.
    pub fn len(&self) -> (n: usize)
        ensures
            n == self@.len(),
            unique_keys(self@),
    {
        proof {
            use_type_invariant(self);
        }
        self.entries.len()
    }

    pub fn is_empty(&self) -> (b: bool)
        ensures
            b == (self@.len() == 0),
    {
        self.entries.len() == 0
    }

    /// The name of the block at position `i`.
    pub fn key_at(&self, i: usize) -> (k: &String)
        requires
            i < self@.len(),
        ensures
            k@ == self@[i as int].0,
    {
        &self.entries[i].0
    }

    /// The content of the block at position `i`.
    pub fn nodes_at(&self, i: usize) -> (nodes: &Vec<TemplateNode>)
        requires
            i < self@.len(),
        ensures
            asts_view(*nodes) == self@[i as int].1,
    {
        &self.entries[i].1
    }

    fn position(&self, key: &String) -> (r: Option<usize>)
        ensures
            match r {
                Some(i) => i < self@.len() && self@[i as int].0 == key@ && has_key(self@, key@)
                    && index_of(self@, key@) == i,
                None => !has_key(self@, key@),
            },
    {
        proof {
            use_type_invariant(self);
        }
        let mut i: usize = 0;
        while i < self.entries.len()
            invariant
                i <= self.entries@.len(),
                self@.len() == self.entries@.len(),
                unique_keys(self@),
                forall|j: int| 0 <= j < i ==> (#[trigger] self@[j]).0 != key@,
            decreases self.entries@.len() - i,
        {
            if self.entries[i].0 == *key {
                proof {
                    lemma_index_of_unique(self@, i as int);
                }
                return Some(i);
            }
            i += 1;
        }
        None
    }

    /// Whether a block named `key` is present.
    pub fn contains_key(&self, key: &str) -> (b: bool)
        ensures
            b == has_key(self@, key@),
    {
        let k = String::from_str(key);
        self.position(&k).is_some()
    }

    /// The content of the block named `key`.
    pub fn get(&self, key: &str) -> (r: Option<&Vec<TemplateNode>>)
        ensures
            r is Some == has_key(self@, key@),
            r is Some ==> asts_view(*r->0) == value_of(self@, key@),
    {
        let k = String::from_str(key);
        match self.position(&k) {
            Some(i) => Some(&self.entries[i].1),
            None => None,
        }
    }

    /// Stores `nodes` as the block `key`; a block of that name keeps its
    /// place and takes the new content.
    pub fn insert(&mut self, key: String, nodes: Vec<TemplateNode>)
        ensures
            final(self)@ == with_entry(old(self)@, key@, asts_view(nodes)),
    {
        proof {
            use_type_invariant(&*self);
            lemma_with_entry_unique(self@, key@, asts_view(nodes));
        }
        let found = self.position(&key);
        let mut entries: Vec<(String, Vec<TemplateNode>)> = Vec::new();
        std::mem::swap(&mut entries, &mut self.entries);
        match found {
            Some(i) => {
                entries.remove(i);
                entries.insert(i, (key, nodes));
            },
            None => {
                entries.push((key, nodes));
            },
        }
        assert(Seq::new(entries@.len(), |j: int| (entries@[j].0@, asts_view(entries@[j].1)))
            =~= with_entry(old(self)@, key@, asts_view(nodes)));
        self.entries = entries;
    }
}

impl Clone for BlockMap {
    fn clone(&self) -> (r: Self)
        ensures
            r@ == self@,
    {
        proof {
            use_type_invariant(self);
        }
        let mut entries: Vec<(String, Vec<TemplateNode>)> = Vec::new();
        let mut i: usize = 0;
        while i < self.entries.len()
            invariant
                i <= self.entries@.len(),
                entries@.len() == i,
                forall|j: int|
                    0 <= j < i ==> (#[trigger] entries@[j]).0@ == self.entries@[j].0@
                        && asts_view(entries@[j].1) == asts_view(self.entries@[j].1),
            decreases self.entries@.len() - i,
        {
            entries.push((self.entries[i].0.clone(), clone_nodes(&self.entries[i].1)));
            i += 1;
        }
        assert(Seq::new(entries@.len(), |j: int| (entries@[j].0@, asts_view(entries@[j].1)))
            =~= self@);
        BlockMap { entries }
    }
}

} // verus!
