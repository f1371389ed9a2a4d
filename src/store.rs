//! Blocks, terminators and edges, and the store that owns them while a graph is built.

use vstd::prelude::*;

use crate::graph::Graph;

verus! {

/// What a branch terminator decides on.
#[derive(PartialEq, Eq, Structural, Clone, Copy, Debug)]
pub enum BranchKind {
    /// The discriminant of a `match` scrutinee; one target per arm.
    Discriminant,
    /// Whether an `if let` pattern matches; targets are then, else.
    PatternTest,
    /// A boolean `if` condition; targets are then, else.
    Condition,
    /// A match arm's guard; targets are the arm body, then the fallback.
    Guard,
}

/// The discriminant that selects an edge.
#[derive(PartialEq, Eq, Structural, Clone, Copy, Debug)]
pub enum EdgeLabel {
    /// The only successor of a `Goto`.
    Always,
    /// The arm with this index of a `match`.
    Arm(usize),
    /// The true or false side of a two-way branch.
    Taken(bool),
}

#[derive(PartialEq, Eq, Structural, Clone, Copy, Debug)]
pub struct Edge {
    pub source: usize,
    pub target: usize,
    pub label: EdgeLabel,
}

pub enum Terminator {
    Goto(usize),
    Branch(BranchKind, Vec<usize>),
    Return,
    Unreachable,
}

pub enum TermView {
    Goto(usize),
    Branch(BranchKind, Seq<usize>),
    Return,
    Unreachable,
}

impl View for Terminator {
    type V = TermView;

    open spec fn view(&self) -> TermView {
        match self {
            Terminator::Goto(t) => TermView::Goto(*t),
            Terminator::Branch(k, ts) => TermView::Branch(*k, ts@),
            Terminator::Return => TermView::Return,
            Terminator::Unreachable => TermView::Unreachable,
        }
    }
}

/// A straight-line run of statements and, once sealed, its terminator.
pub struct Block {
    pub stmts: Vec<String>,
    pub term: Option<Terminator>,
}

pub struct BlockView {
    pub stmts: Seq<Seq<char>>,
    pub term: Option<TermView>,
}

impl View for Block {
    type V = BlockView;

    open spec fn view(&self) -> BlockView {
        BlockView {
            stmts: self.stmts@.map_values(|s: String| s@),
            term: match self.term {
                Some(t) => Some(t@),
                None => None,
            },
        }
    }
}

#[derive(PartialEq, Eq, Structural, Clone, Copy, Debug)]
pub enum StoreError {
    SealedBlock,
    DoubleSeal,
    DanglingTarget,
    UnsealedBlock,
}

pub open spec fn edge_label(kind: BranchKind, i: int) -> EdgeLabel {
    if kind == BranchKind::Discriminant {
        EdgeLabel::Arm(i as usize)
    } else {
        EdgeLabel::Taken(i == 0)
    }
}

/// The edges that terminator `t` of block `b` contributes, in target order.
pub open spec fn term_edges(b: usize, t: TermView) -> Seq<Edge> {
    match t {
        TermView::Goto(x) => seq![Edge { source: b, target: x, label: EdgeLabel::Always }],
        TermView::Branch(kind, ts) => Seq::new(
            ts.len(),
            |i: int| Edge { source: b, target: ts[i], label: edge_label(kind, i) },
        ),
        _ => Seq::empty(),
    }
}

pub open spec fn term_targets(t: TermView) -> Seq<usize> {
    match t {
        TermView::Goto(x) => seq![x],
        TermView::Branch(_, ts) => ts,
        _ => Seq::empty(),
    }
}

/// The blocks and edges of a function under construction.
pub struct StoreModel {
    pub blocks: Seq<BlockView>,
    pub edges: Seq<Edge>,
}

impl StoreModel {
    pub open spec fn with_block(self) -> StoreModel {
        StoreModel {
            blocks: self.blocks.push(BlockView { stmts: Seq::empty(), term: None }),
            edges: self.edges,
        }
    }

    pub open spec fn with_stmt(self, b: int, s: Seq<char>) -> StoreModel {
        StoreModel {
            blocks: self.blocks.update(
                b,
                BlockView { stmts: self.blocks[b].stmts.push(s), term: self.blocks[b].term },
            ),
            edges: self.edges,
        }
    }

    pub open spec fn sealed(self, b: int, t: TermView) -> StoreModel {
        StoreModel {
            blocks: self.blocks.update(b, BlockView { stmts: self.blocks[b].stmts, term: Some(t) }),
            edges: self.edges + term_edges(b as usize, t),
        }
    }

    pub open spec fn is_open(self, b: int) -> bool {
        0 <= b < self.blocks.len() && self.blocks[b].term is None
    }

    pub open spec fn targets_exist(self, t: TermView) -> bool {
        forall|i: int|
            0 <= i < term_targets(t).len() ==> #[trigger] term_targets(t)[i] < self.blocks.len()
    }
}

/// Owns the blocks of one function while its graph is built. Block 0 is the entry.
pub struct BlockStore {
    blocks: Vec<Block>,
    edges: Vec<Edge>,
}

impl View for BlockStore {
    type V = StoreModel;

    closed spec fn view(&self) -> StoreModel {
        StoreModel { blocks: self.blocks@.map_values(|b: Block| b@), edges: self.edges@ }
    }
}

fn label_at(kind: BranchKind, i: usize) -> (r: EdgeLabel)
    ensures
        r == edge_label(kind, i as int),
{
    match kind {
        BranchKind::Discriminant => EdgeLabel::Arm(i),
        _ => EdgeLabel::Taken(i == 0),
    }
}

impl BlockStore {
    /// A store holding only the open entry block, 0.
    pub fn new() -> (r: BlockStore)
        ensures
            r@.blocks == seq![BlockView { stmts: Seq::empty(), term: None }],
            r@.edges == Seq::<Edge>::empty(),
    {
        let r = BlockStore { blocks: vec![Block { stmts: Vec::new(), term: None }], edges: Vec::new() };
        assert(r.blocks@[0]@.stmts =~= Seq::empty());
        assert(r@.blocks =~= seq![BlockView { stmts: Seq::empty(), term: None }]);
        r
    }

    pub fn num_blocks(&self) -> (r: usize)
        ensures
            r == self@.blocks.len(),
    {
        self.blocks.len()
    }

    /// Allocates a fresh open block and returns its id.
    pub fn new_block(&mut self) -> (r: usize)
        ensures
            final(self)@ == old(self)@.with_block(),
            r == old(self)@.blocks.len(),
    {
        self.blocks.push(Block { stmts: Vec::new(), term: None });
        proof {
            assert(self.blocks@.last()@.stmts =~= Seq::empty());
            assert(self@.blocks =~= old(self)@.with_block().blocks);
        }
        self.blocks.len() - 1
    }

    /// Appends a statement to block `b`, which must still be open.
    pub fn append_statement(&mut self, b: usize, s: String) -> (r: Result<(), StoreError>)
        requires
            b < old(self)@.blocks.len(),
        ensures
            old(self)@.blocks[b as int].term is Some ==> r == Err::<(), StoreError>(
                StoreError::SealedBlock,
            ) && final(self)@ == old(self)@,
            old(self)@.blocks[b as int].term is None ==> r is Ok && final(self)@ == old(
                self,
            )@.with_stmt(b as int, s@),
    {
        if self.blocks[b].term.is_some() {
            return Err(StoreError::SealedBlock);
        }
        let ghost s_view = s@;
        self.blocks[b].stmts.push(s);
        proof {
            let want = old(self)@.with_stmt(b as int, s_view);
            assert(self.blocks@[b as int]@.stmts =~= want.blocks[b as int].stmts);
            assert(self@.blocks =~= want.blocks);
        }
        Ok(())
    }

    /// Fixes the terminator of block `b` and records its outgoing edges.
    #[verifier::loop_isolation(false)]
    pub fn seal(&mut self, b: usize, t: Terminator) -> (r: Result<(), StoreError>)
        requires
            b < old(self)@.blocks.len(),
        ensures
            old(self)@.blocks[b as int].term is Some ==> r == Err::<(), StoreError>(
                StoreError::DoubleSeal,
            ) && final(self)@ == old(self)@,
            old(self)@.blocks[b as int].term is None && !old(self)@.targets_exist(t@) ==> r
                == Err::<(), StoreError>(StoreError::DanglingTarget) && final(self)@ == old(
                self,
            )@,
            old(self)@.blocks[b as int].term is None && old(self)@.targets_exist(t@) ==> r is Ok
                && final(self)@ == old(self)@.sealed(b as int, t@),
    {
        if self.blocks[b].term.is_some() {
            return Err(StoreError::DoubleSeal);
        }
        let n = self.blocks.len();
        match &t {
            Terminator::Goto(x) => {
                assert(term_targets(t@) == seq![*x]);
                if *x >= n {
                    assert(term_targets(t@)[0] == *x);
                    return Err(StoreError::DanglingTarget);
                }
                self.edges.push(Edge { source: b, target: *x, label: EdgeLabel::Always });
                assert(self.edges@ =~= old(self).edges@ + term_edges(b, t@));
            },
            Terminator::Branch(kind, ts) => {
                assert(term_targets(t@) == ts@);
                let mut i: usize = 0;
                while i < ts.len()
                    invariant
                        i <= ts.len(),
                        n == self.blocks.len(),
                        forall|j: int| 0 <= j < i ==> ts@[j] < n,
                    decreases ts.len() - i,
                {
                    if ts[i] >= n {
                        assert(term_targets(t@)[i as int] == ts@[i as int]);
                        return Err(StoreError::DanglingTarget);
                    }
                    i = i + 1;
                }
                let mut i: usize = 0;
                while i < ts.len()
                    invariant
                        i <= ts.len(),
                        self.blocks == old(self).blocks,
                        self.edges@ =~= old(self).edges@ + term_edges(b, t@).subrange(0, i as int),
                    decreases ts.len() - i,
                {
                    self.edges.push(Edge { source: b, target: ts[i], label: label_at(*kind, i) });
                    assert(self.edges@ =~= old(self).edges@ + term_edges(b, t@).subrange(0, i + 1));
                    i = i + 1;
                }
                assert(term_edges(b, t@).subrange(0, i as int) =~= term_edges(b, t@));
            },
            _ => {
                assert(self.edges@ =~= old(self).edges@ + term_edges(b, t@));
            },
        }
        let ghost tv = t@;
        self.blocks[b].term = Some(t);
        proof {
            let want = old(self)@.sealed(b as int, tv);
            assert(self.blocks@[b as int]@ == want.blocks[b as int]);
            assert(self@.blocks =~= want.blocks);
        }
        Ok(())
    }

    /// Hands the finished blocks over as a graph; every block must be sealed.
    pub fn finalize(self) -> (r: Result<Graph, StoreError>)
        ensures
            (exists|i: int| 0 <= i < self@.blocks.len() && self@.blocks[i].term is None) ==> r
                == Err::<Graph, StoreError>(StoreError::UnsealedBlock),
            (forall|i: int| 0 <= i < self@.blocks.len() ==> self@.blocks[i].term is Some) ==> (r
                matches Ok(g) && g@ == self@),
    {
        let mut i: usize = 0;
        while i < self.blocks.len()
            invariant
                i <= self.blocks.len(),
                forall|j: int| 0 <= j < i ==> self@.blocks[j].term is Some,
            decreases self.blocks.len() - i,
        {
            if self.blocks[i].term.is_none() {
                assert(self@.blocks[i as int].term is None);
                return Err(StoreError::UnsealedBlock);
            }
            i = i + 1;
        }
        assert forall|j: int| 0 <= j < self.blocks@.len() implies (#[trigger] self.blocks@[j]).term is Some by {
            assert(self@.blocks[j] == self.blocks@[j]@);
        }
        Ok(Graph::from_parts(self.blocks, self.edges))
    }
}

} // verus!
