//! The finished, immutable graph of one function.

use vstd::prelude::*;

use crate::store::{Block, Edge, StoreModel, Terminator};

verus! {

/// The finished control-flow graph of one function. Block 0 is the entry;
/// blocks are kept in creation order and edges in the order they were added.
pub struct Graph {
    blocks: Vec<Block>,
    edges: Vec<Edge>,
}

impl View for Graph {
    type V = StoreModel;

    closed spec fn view(&self) -> StoreModel {
        StoreModel { blocks: self.blocks@.map_values(|b: Block| b@), edges: self.edges@ }
    }
}

impl Graph {
    /// Every block carries its one terminator.
    #[verifier::type_invariant]
    spec fn all_sealed(self) -> bool {
        forall|i: int| 0 <= i < self.blocks@.len() ==> (#[trigger] self.blocks@[i]).term is Some
    }

    pub(crate) fn from_parts(blocks: Vec<Block>, edges: Vec<Edge>) -> (g: Graph)
        requires
            forall|i: int| 0 <= i < blocks@.len() ==> (#[trigger] blocks@[i]).term is Some,
        ensures
            g@ == (StoreModel { blocks: blocks@.map_values(|b: Block| b@), edges: edges@ }),
    {
        Graph { blocks, edges }
    }

    pub fn entry_block_id(&self) -> (r: usize)
        ensures
            r == 0,
    {
        0
    }

    pub fn block_count(&self) -> (r: usize)
        ensures
            r == self@.blocks.len(),
    {
        self.blocks.len()
    }

    pub fn edge_count(&self) -> (r: usize)
        ensures
            r == self@.edges.len(),
    {
        self.edges.len()
    }

    pub fn edge(&self, i: usize) -> (r: Edge)
        requires
            i < self@.edges.len(),
        ensures
            r == self@.edges[i as int],
    {
        self.edges[i]
    }

    pub fn statements(&self, b: usize) -> (r: &Vec<String>)
        requires
            b < self@.blocks.len(),
        ensures
            r@.map_values(|s: String| s@) == self@.blocks[b as int].stmts,
    {
        &self.blocks[b].stmts
    }

    pub fn terminator(&self, b: usize) -> (r: &Terminator)
        requires
            b < self@.blocks.len(),
        ensures
            self@.blocks[b as int].term == Some(r@),
    {
        proof {
            use_type_invariant(self);
        }
        self.blocks[b].term.as_ref().unwrap()
    }
}

} // verus!
