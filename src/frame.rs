//! What building may change in a store (`grows`), and the laws that follow:
//! determinism, one terminator per block, and the arity of a `match` branch.

use vstd::prelude::*;

use crate::builder::{
    arm_start, build_arms, build_stmt, build_stmts, close, cond_kind, cond_text, function_store,
    id_range, with_blocks, MatchArm, Stmt,
};
use crate::store::{BlockView, BranchKind, Edge, StoreModel, TermView};

verus! {

broadcast use {vstd::seq::group_seq_axioms, vstd::std_specs::vec::group_vec_axioms};

/// `a` is a prefix of `b`: edges are only ever appended.
pub open spec fn edges_prefix(a: Seq<Edge>, b: Seq<Edge>) -> bool {
    a.len() <= b.len() && forall|i: int| 0 <= i < a.len() ==> #[trigger] b[i] == a[i]
}

/// How building from the open block `cur` of `m` may change it into `n`, with
/// control continuing at `end`: blocks are only added and edges only appended;
/// old blocks other than `cur` keep their terminator; every new block and
/// `cur` are sealed, except `end`, which is open and is `cur` or a new block.
pub open spec fn grows(m: StoreModel, n: StoreModel, cur: int, end: Option<int>) -> bool {
    &&& m.blocks.len() <= n.blocks.len()
    &&& edges_prefix(m.edges, n.edges)
    &&& forall|b: int|
        0 <= b < m.blocks.len() && b != cur ==> #[trigger] n.blocks[b].term == m.blocks[b].term
    &&& forall|b: int|
        m.blocks.len() <= b < n.blocks.len() && end != Some(b) ==> (#[trigger] n.blocks[b]).term is Some
    &&& end != Some(cur) ==> n.blocks[cur].term is Some
    &&& end matches Some(e) ==> n.is_open(e) && (e == cur || m.blocks.len() <= e)
}

pub(crate) proof fn lemma_with_blocks(m: StoreModel, n: nat)
    ensures
        with_blocks(m, n).blocks.len() == m.blocks.len() + n,
        with_blocks(m, n).edges == m.edges,
        forall|b: int| 0 <= b < m.blocks.len() ==> #[trigger] with_blocks(m, n).blocks[b] == m.blocks[b],
        forall|b: int|
            m.blocks.len() <= b < m.blocks.len() + n ==> (#[trigger] with_blocks(m, n).blocks[b]).term is None,
    decreases n,
{
    if n > 0 {
        lemma_with_blocks(m, (n - 1) as nat);
    }
}

pub(crate) proof fn lemma_grows_trans(m1: StoreModel, m2: StoreModel, m3: StoreModel, c1: int, c2: int, e: Option<int>)
    requires
        m1.is_open(c1),
        grows(m1, m2, c1, Some(c2)),
        grows(m2, m3, c2, e),
    ensures
        grows(m1, m3, c1, e),
{
    assert forall|b: int| m1.blocks.len() <= b < m3.blocks.len() && e != Some(b) implies (
    #[trigger] m3.blocks[b]).term is Some by {
        if b < m2.blocks.len() && b != c2 {
            assert(m3.blocks[b].term == m2.blocks[b].term);
        }
    }
    if e != Some(c1) && c2 != c1 {
        assert(m3.blocks[c1].term == m2.blocks[c1].term);
    }
}

pub(crate) proof fn lemma_close(m: StoreModel, n: StoreModel, cur: int, end: Option<int>, join: int)
    requires
        m.is_open(cur),
        grows(m, n, cur, end),
    ensures
        grows(m, close(n, end, join), cur, None),
{
    let r = close(n, end, join);
    if let Some(e) = end {
        assert forall|b: int| 0 <= b < m.blocks.len() && b != cur implies #[trigger] r.blocks[b].term
            == m.blocks[b].term by {
            if b == e {
                assert(e == cur || m.blocks.len() <= e);
            }
        }
    }
}

/// Building a statement from an open block changes the store only as `grows` allows.
pub proof fn lemma_stmt_grows(m: StoreModel, cur: int, s: Stmt)
    requires
        m.is_open(cur),
    ensures
        grows(m, build_stmt(m, cur, s).0, cur, build_stmt(m, cur, s).1),
    decreases s, 0int,
{
    match s {
        Stmt::Plain(t) => {},
        Stmt::Return => {},
        Stmt::If { cond, then_body, else_body } => {
            let m0 = m.with_stmt(cur, cond_text(cond));
            let then_entry = m0.blocks.len() as int;
            let join = then_entry + 1;
            let m1 = m0.with_block().with_block();
            let else_entry = if else_body is Some {
                join + 1
            } else {
                join
            };
            let m2 = if else_body is Some {
                m1.with_block()
            } else {
                m1
            };
            let m3 = m2.sealed(
                cur,
                TermView::Branch(cond_kind(cond), seq![then_entry as usize, else_entry as usize]),
            );
            let t = build_stmts(m3, then_entry, then_body@);
            lemma_stmts_grows(m3, then_entry, then_body@);
            let m4 = close(t.0, t.1, join);
            lemma_close(m3, t.0, then_entry, t.1, join);
            assert(m4.blocks[join].term == m3.blocks[join].term);
            match else_body {
                Some(eb) => {
                    assert(m4.blocks[else_entry].term == m3.blocks[else_entry].term);
                    let e = build_stmts(m4, else_entry, eb@);
                    lemma_stmts_grows(m4, else_entry, eb@);
                    lemma_close(m4, e.0, else_entry, e.1, join);
                    let m5 = close(e.0, e.1, join);
                    assert(m5.blocks[join].term == m4.blocks[join].term);
                    assert(m5.blocks[then_entry].term == m4.blocks[then_entry].term);
                    assert forall|b: int| 0 <= b < m.blocks.len() && b != cur implies #[trigger] m5.blocks[b].term
                        == m.blocks[b].term by {
                        assert(m4.blocks[b].term == m3.blocks[b].term);
                    }
                    assert forall|b: int| m.blocks.len() <= b < m5.blocks.len() && b != join implies (
                    #[trigger] m5.blocks[b]).term is Some by {
                        if b < m4.blocks.len() && b != else_entry {
                            assert(m5.blocks[b].term == m4.blocks[b].term);
                            if b < m3.blocks.len() && b != then_entry {
                                assert(m4.blocks[b].term == m3.blocks[b].term);
                            }
                        }
                    }
                    assert(m5.blocks[cur].term == m4.blocks[cur].term);
                    assert(m4.blocks[cur].term == m3.blocks[cur].term);
                },
                None => {
                    assert forall|b: int| 0 <= b < m.blocks.len() && b != cur implies #[trigger] m4.blocks[b].term
                        == m.blocks[b].term by {
                        assert(m4.blocks[b].term == m3.blocks[b].term);
                    }
                    assert forall|b: int| m.blocks.len() <= b < m4.blocks.len() && b != join implies (
                    #[trigger] m4.blocks[b]).term is Some by {
                        if b < m3.blocks.len() && b != then_entry {
                            assert(m4.blocks[b].term == m3.blocks[b].term);
                        }
                    }
                    assert(m4.blocks[cur].term == m3.blocks[cur].term);
                },
            }
        },
        Stmt::Match { scrutinee, arms } => {
            let m0 = m.with_stmt(cur, scrutinee@);
            let join = m0.blocks.len() as int;
            let base = join + 1;
            let n = arms.len() as nat;
            let m1 = with_blocks(m0.with_block(), n);
            lemma_with_blocks(m0.with_block(), n);
            let m2 = m1.sealed(cur, TermView::Branch(BranchKind::Discriminant, id_range(base, n)));
            lemma_arms_grow(m2, join, base, arms@, arms.len() as int);
            let r = build_arms(m2, join, base, arms@, arms.len() as int);
            assert(r.blocks[cur].term == m2.blocks[cur].term);
            assert(r.blocks[join].term == m2.blocks[join].term);
            assert forall|b: int| 0 <= b < m.blocks.len() && b != cur implies #[trigger] r.blocks[b].term
                == m.blocks[b].term by {
                assert(r.blocks[b].term == m2.blocks[b].term);
            }
            assert forall|b: int| m.blocks.len() <= b < r.blocks.len() && b != join implies (
            #[trigger] r.blocks[b]).term is Some by {
                if base <= b < base + n {
                    assert(r.blocks[base + (b - base)].term is Some);
                }
            }
        },
    }
}

/// Building a statement sequence from an open block changes the store only as `grows` allows.
pub proof fn lemma_stmts_grows(m: StoreModel, cur: int, body: Seq<Stmt>)
    requires
        m.is_open(cur),
    ensures
        grows(m, build_stmts(m, cur, body).0, cur, build_stmts(m, cur, body).1),
    decreases body, 0int,
{
    if body.len() > 0 {
        let pre = body.subrange(0, body.len() - 1);
        lemma_stmts_grows(m, cur, pre);
        let p = build_stmts(m, cur, pre);
        if let Some(c) = p.1 {
            lemma_stmt_grows(p.0, c, body[body.len() - 1]);
            lemma_grows_trans(m, p.0, build_stmt(p.0, c, body[body.len() - 1]).0, cur, c, build_stmt(p.0, c, body[body.len() - 1]).1);
        }
    }
}

/// Wiring `k` arms seals their entries and every block it adds, and keeps
/// the terminator of every other old block.
pub proof fn lemma_arms_grow(m: StoreModel, join: int, base: int, arms: Seq<MatchArm>, k: int)
    requires
        0 <= k <= arms.len(),
        0 <= join < base,
        base + arms.len() <= m.blocks.len(),
        forall|i: int| 0 <= i < arms.len() ==> m.is_open(#[trigger] (base + i)),
    ensures
        m.blocks.len() <= build_arms(m, join, base, arms, k).blocks.len(),
        edges_prefix(m.edges, build_arms(m, join, base, arms, k).edges),
        forall|b: int|
            0 <= b < m.blocks.len() && !(base <= b < base + k) ==> #[trigger] build_arms(
                m,
                join,
                base,
                arms,
                k,
            ).blocks[b].term == m.blocks[b].term,
        forall|b: int|
            base <= b < base + k || m.blocks.len() <= b < build_arms(m, join, base, arms, k).blocks.len()
                ==> (#[trigger] build_arms(m, join, base, arms, k).blocks[b]).term is Some,
    decreases arms, k,
{
    if k > 0 {
        lemma_arms_grow(m, join, base, arms, k - 1);
        let m0 = build_arms(m, join, base, arms, k - 1);
        let n = arms.len() as int;
        let entry = base + k - 1;
        assert(m0.blocks[entry].term == m.blocks[entry].term);
        assert(m.is_open(base + (k - 1)));
        let a = arm_start(m0, base, n, k - 1, arms[k - 1].guard);
        if k < n {
            assert(m0.blocks[base + k].term == m.blocks[base + k].term);
            assert(m.is_open(base + k));
        }
        let b = build_stmts(a.0, a.1, arms[k - 1].body@);
        lemma_stmts_grows(a.0, a.1, arms[k - 1].body@);
        lemma_close(a.0, b.0, a.1, b.1, join);
        let r = close(b.0, b.1, join);
        assert forall|x: int| 0 <= x < m.blocks.len() && !(base <= x < base + k) implies #[trigger] r.blocks[x].term
            == m.blocks[x].term by {
            assert(r.blocks[x].term == a.0.blocks[x].term);
            assert(a.0.blocks[x].term == m0.blocks[x].term);
        }
        assert forall|x: int| base <= x < base + k || m.blocks.len() <= x < r.blocks.len() implies (
        #[trigger] r.blocks[x]).term is Some by {
            if x < a.0.blocks.len() && x != a.1 {
                assert(r.blocks[x].term == a.0.blocks[x].term);
                if x < m0.blocks.len() && x != entry {
                    assert(a.0.blocks[x].term == m0.blocks[x].term);
                }
            }
        }
    }
}

/// Building is a function of the body alone: equal bodies give equal
/// block and edge sequences.
pub proof fn lemma_build_deterministic(a: Seq<Stmt>, b: Seq<Stmt>)
    requires
        a == b,
    ensures
        function_store(a).blocks == function_store(b).blocks,
        function_store(a).edges == function_store(b).edges,
{
}

/// Every block of a built function graph carries exactly one terminator.
pub proof fn lemma_every_block_sealed(body: Seq<Stmt>)
    ensures
        forall|i: int|
            0 <= i < function_store(body).blocks.len() ==> (
            #[trigger] function_store(body).blocks[i]).term is Some,
{
    let m = StoreModel {
        blocks: seq![BlockView { stmts: Seq::empty(), term: None }],
        edges: Seq::empty(),
    };
    lemma_stmts_grows(m, 0, body);
    let n = function_store(body);
    assert forall|i: int| 0 <= i < n.blocks.len() implies (#[trigger] n.blocks[i]).term is Some by {
        if i >= 1 {
            assert(n.blocks[i].term is Some);
        }
    }
}

/// A `match` with `n` arms seals the block before it with a discriminant
/// branch of exactly `n` targets: the arm entries, in source order (the
/// entry of arm `i` is the `i`-th fresh block after the join block).
pub proof fn lemma_match_arity(m: StoreModel, cur: int, s: Stmt)
    requires
        m.is_open(cur),
        s is Match,
        m.blocks.len() + 1 + s->arms.len() <= usize::MAX,
    ensures
        build_stmt(m, cur, s).0.blocks[cur].term matches Some(TermView::Branch(kind, ts)) && kind
            == BranchKind::Discriminant && ts.len() == s->arms.len() && forall|i: int|
            0 <= i < ts.len() ==> #[trigger] ts[i] == m.blocks.len() + 1 + i,
{
    if let Stmt::Match { scrutinee, arms } = s {
        let m0 = m.with_stmt(cur, scrutinee@);
        let join = m0.blocks.len() as int;
        let base = join + 1;
        let n = arms.len() as nat;
        let m1 = with_blocks(m0.with_block(), n);
        lemma_with_blocks(m0.with_block(), n);
        let m2 = m1.sealed(cur, TermView::Branch(BranchKind::Discriminant, id_range(base, n)));
        lemma_arms_grow(m2, join, base, arms@, arms.len() as int);
        assert(build_arms(m2, join, base, arms@, arms.len() as int).blocks[cur].term == m2.blocks[cur].term);
    }
}

} // verus!
