//! Paths along edges, and the law that a join block is reachable from every
//! branch target when no arm returns.

use vstd::prelude::*;

use crate::builder::{
    arm_start, build_arms, build_stmt, build_stmts, close, cond_kind, cond_text, id_range,
    with_blocks, MatchArm, Stmt,
};
use crate::frame::{
    edges_prefix, lemma_arms_grow, lemma_close, lemma_stmt_grows, lemma_stmts_grows,
    lemma_with_blocks,
};
use crate::store::{term_edges, term_targets, BranchKind, Edge, StoreModel, TermView};

verus! {

broadcast use {vstd::seq::group_seq_axioms, vstd::std_specs::vec::group_vec_axioms};

/// Control can leave `s` at its end: it holds no `return` and no empty `match`.
pub open spec fn stmt_falls_through(s: Stmt) -> bool
    decreases s, 0int,
{
    match s {
        Stmt::Plain(_) => true,
        Stmt::Return => false,
        Stmt::If { then_body, else_body, .. } => body_falls_through(then_body@) && match else_body {
            Some(eb) => body_falls_through(eb@),
            None => true,
        },
        Stmt::Match { arms, .. } => arms.len() > 0 && arms_fall_through(arms@),
    }
}

pub open spec fn body_falls_through(ss: Seq<Stmt>) -> bool
    decreases ss, 0int,
{
    if ss.len() == 0 {
        true
    } else {
        body_falls_through(ss.subrange(0, ss.len() - 1)) && stmt_falls_through(ss[ss.len() - 1])
    }
}

pub open spec fn arms_fall_through(arms: Seq<MatchArm>) -> bool
    decreases arms, 0int,
{
    if arms.len() == 0 {
        true
    } else {
        arms_fall_through(arms.subrange(0, arms.len() - 1)) && body_falls_through(
            arms[arms.len() - 1].body@,
        )
    }
}

pub open spec fn has_edge(edges: Seq<Edge>, a: int, b: int) -> bool {
    exists|i: int|
        0 <= i < edges.len() && edges[i].source as int == a && edges[i].target as int == b
}

pub open spec fn is_path(edges: Seq<Edge>, p: Seq<int>) -> bool {
    &&& p.len() >= 1
    &&& forall|i: int| 0 <= i < p.len() - 1 ==> #[trigger] has_edge(edges, p[i], p[i + 1])
}

/// Block `b` can be reached from block `a` along `edges`.
pub open spec fn reaches(edges: Seq<Edge>, a: int, b: int) -> bool {
    exists|p: Seq<int>| #[trigger] is_path(edges, p) && p[0] == a && p[p.len() - 1] == b
}

proof fn lemma_reaches_refl(edges: Seq<Edge>, a: int)
    ensures
        reaches(edges, a, a),
{
    assert(is_path(edges, seq![a]));
}

proof fn lemma_reaches_trans(edges: Seq<Edge>, a: int, b: int, c: int)
    requires
        reaches(edges, a, b),
        reaches(edges, b, c),
    ensures
        reaches(edges, a, c),
{
    let p = choose|p: Seq<int>| #[trigger] is_path(edges, p) && p[0] == a && p[p.len() - 1] == b;
    let q = choose|q: Seq<int>| #[trigger] is_path(edges, q) && q[0] == b && q[q.len() - 1] == c;
    let r = p + q.subrange(1, q.len() as int);
    assert forall|i: int| 0 <= i < r.len() - 1 implies #[trigger] has_edge(edges, r[i], r[i + 1]) by {
        if i < p.len() - 1 {
            assert(has_edge(edges, p[i], p[i + 1]));
        } else {
            let j = i - p.len() + 1;
            assert(has_edge(edges, q[j], q[j + 1]));
        }
    }
    assert(is_path(edges, r));
}

proof fn lemma_reaches_edge_then(edges: Seq<Edge>, a: int, b: int, c: int)
    requires
        reaches(edges, a, b),
        has_edge(edges, b, c),
    ensures
        reaches(edges, a, c),
{
    assert(is_path(edges, seq![b, c]));
    lemma_reaches_trans(edges, a, b, c);
}

proof fn lemma_reaches_mono(e1: Seq<Edge>, e2: Seq<Edge>, a: int, b: int)
    requires
        edges_prefix(e1, e2),
        reaches(e1, a, b),
    ensures
        reaches(e2, a, b),
{
    let p = choose|p: Seq<int>| #[trigger] is_path(e1, p) && p[0] == a && p[p.len() - 1] == b;
    assert forall|i: int| 0 <= i < p.len() - 1 implies #[trigger] has_edge(e2, p[i], p[i + 1]) by {
        assert(has_edge(e1, p[i], p[i + 1]));
        let k = choose|k: int|
            0 <= k < e1.len() && e1[k].source as int == p[i] && e1[k].target as int == p[i + 1];
        assert(e2[k] == e1[k]);
    }
    assert(is_path(e2, p));
}

/// Sealing `b` with `t` appends one edge from `b` to each target of `t`.
proof fn lemma_sealed_edge(m: StoreModel, b: int, t: TermView, j: int)
    requires
        0 <= b <= usize::MAX,
        0 <= j < term_targets(t).len(),
    ensures
        edges_prefix(m.edges, m.sealed(b, t).edges),
        has_edge(m.sealed(b, t).edges, b, term_targets(t)[j] as int),
{
    let e = m.sealed(b, t).edges;
    let k = m.edges.len() + j;
    assert(e[k] == term_edges(b as usize, t)[j]);
}

proof fn lemma_close_reach(n: StoreModel, end: int, join: int, start: int)
    requires
        0 <= end <= usize::MAX,
        0 <= join <= usize::MAX,
        reaches(n.edges, start, end),
    ensures
        edges_prefix(n.edges, close(n, Some(end), join).edges),
        reaches(close(n, Some(end), join).edges, start, join),
{
    let t = TermView::Goto(join as usize);
    lemma_sealed_edge(n, end, t, 0);
    lemma_reaches_mono(n.edges, close(n, Some(end), join).edges, start, end);
    lemma_reaches_edge_then(close(n, Some(end), join).edges, start, end, join);
}

proof fn lemma_prefix_trans(a: Seq<Edge>, b: Seq<Edge>, c: Seq<Edge>)
    requires
        edges_prefix(a, b),
        edges_prefix(b, c),
    ensures
        edges_prefix(a, c),
{
    assert forall|i: int| 0 <= i < a.len() implies #[trigger] c[i] == a[i] by {
        assert(c[i] == b[i]);
    }
}

proof fn lemma_arms_fall_through(arms: Seq<MatchArm>)
    requires
        arms_fall_through(arms),
    ensures
        forall|i: int| 0 <= i < arms.len() ==> body_falls_through(#[trigger] arms[i].body@),
    decreases arms.len(),
{
    if arms.len() > 0 {
        let pre = arms.subrange(0, arms.len() - 1);
        lemma_arms_fall_through(pre);
        assert forall|i: int| 0 <= i < arms.len() implies body_falls_through(#[trigger] arms[i].body@) by {
            if i < arms.len() - 1 {
                assert(pre[i] == arms[i]);
            }
        }
    }
}

proof fn lemma_stmts_reach(m: StoreModel, cur: int, body: Seq<Stmt>)
    requires
        m.is_open(cur),
        body_falls_through(body),
        build_stmts(m, cur, body).0.blocks.len() <= usize::MAX,
    ensures
        build_stmts(m, cur, body).1 is Some,
        reaches(build_stmts(m, cur, body).0.edges, cur, build_stmts(m, cur, body).1->0),
    decreases body, 0int,
{
    if body.len() == 0 {
        lemma_reaches_refl(m.edges, cur);
    } else {
        let pre = body.subrange(0, body.len() - 1);
        let last = body[body.len() - 1];
        lemma_stmts_grows(m, cur, pre);
        let p = build_stmts(m, cur, pre);
        if let Some(c) = p.1 {
            lemma_stmt_grows(p.0, c, last);
        }
        lemma_stmts_reach(m, cur, pre);
        let c = p.1->0;
        lemma_stmt_reach(p.0, c, last);
        let f = build_stmt(p.0, c, last);
        lemma_reaches_mono(p.0.edges, f.0.edges, cur, c);
        lemma_reaches_trans(f.0.edges, cur, c, f.1->0);
    }
}

proof fn lemma_stmt_reach(m: StoreModel, cur: int, s: Stmt)
    requires
        m.is_open(cur),
        stmt_falls_through(s),
        build_stmt(m, cur, s).0.blocks.len() <= usize::MAX,
    ensures
        build_stmt(m, cur, s).1 is Some,
        reaches(build_stmt(m, cur, s).0.edges, cur, build_stmt(m, cur, s).1->0),
        s is If || s is Match ==> (build_stmt(m, cur, s).0.blocks[cur].term matches Some(
            TermView::Branch(_, ts),
        ) && forall|i: int|
            0 <= i < ts.len() ==> reaches(
                build_stmt(m, cur, s).0.edges,
                #[trigger] ts[i] as int,
                build_stmt(m, cur, s).1->0,
            )),
    decreases s, 0int,
{
    lemma_stmt_grows(m, cur, s);
    match s {
        Stmt::Plain(t) => {
            lemma_reaches_refl(m.with_stmt(cur, t@).edges, cur);
        },
        Stmt::Return => {},
        Stmt::If { cond, then_body, else_body } => {
            let m0 = m.with_stmt(cur, cond_text(cond));
            let then_entry = m0.blocks.len() as int;
            let join = then_entry + 1;
            let m1 = m0.with_block().with_block();
            let else_entry = if else_body is Some {
                join + 1
            } else {
                join
            };
            let m2 = if else_body is Some {
                m1.with_block()
            } else {
                m1
            };
            let bt = TermView::Branch(cond_kind(cond), seq![then_entry as usize, else_entry as usize]);
            let m3 = m2.sealed(cur, bt);
            let t = build_stmts(m3, then_entry, then_body@);
            lemma_stmts_grows(m3, then_entry, then_body@);
            let m4 = close(t.0, t.1, join);
            lemma_close(m3, t.0, then_entry, t.1, join);
            let fin = build_stmt(m, cur, s).0;
            match else_body {
                Some(eb) => {
                    assert(m4.blocks[else_entry].term == m3.blocks[else_entry].term);
                    lemma_stmts_grows(m4, else_entry, eb@);
                },
                None => {},
            }
            assert(m3.blocks.len() <= t.0.blocks.len() <= fin.blocks.len());
            lemma_sealed_edge(m2, cur, bt, 0);
            lemma_stmts_reach(m3, then_entry, then_body@);
            lemma_close_reach(t.0, t.1->0, join, then_entry);
            assert(term_targets(bt)[0] as int == then_entry);
            lemma_reaches_refl(m3.edges, cur);
            lemma_reaches_edge_then(m3.edges, cur, cur, then_entry);
            lemma_reaches_mono(m3.edges, t.0.edges, cur, then_entry);
            lemma_reaches_mono(t.0.edges, m4.edges, cur, then_entry);
            lemma_reaches_trans(m4.edges, cur, then_entry, join);
            assert(m4.blocks[cur].term == m3.blocks[cur].term);
            match else_body {
                Some(eb) => {
                    let e = build_stmts(m4, else_entry, eb@);
                    lemma_stmts_reach(m4, else_entry, eb@);
                    lemma_close_reach(e.0, e.1->0, join, else_entry);
                    lemma_reaches_mono(m4.edges, e.0.edges, cur, join);
                    lemma_reaches_mono(e.0.edges, fin.edges, cur, join);
                    lemma_reaches_mono(m4.edges, e.0.edges, then_entry, join);
                    lemma_reaches_mono(e.0.edges, fin.edges, then_entry, join);
                    assert(e.0.blocks[cur].term == m4.blocks[cur].term);
                    assert(fin.blocks[cur].term == e.0.blocks[cur].term);
                },
                None => {
                    lemma_reaches_refl(fin.edges, join);
                },
            }
            assert(fin.blocks[cur].term == Some(bt));
        },
        Stmt::Match { scrutinee, arms } => {
            let m0 = m.with_stmt(cur, scrutinee@);
            let join = m0.blocks.len() as int;
            let base = join + 1;
            let n = arms.len() as nat;
            let m1 = with_blocks(m0.with_block(), n);
            lemma_with_blocks(m0.with_block(), n);
            let bt = TermView::Branch(BranchKind::Discriminant, id_range(base, n));
            let m2 = m1.sealed(cur, bt);
            lemma_arms_grow(m2, join, base, arms@, arms.len() as int);
            let r = build_arms(m2, join, base, arms@, arms.len() as int);
            lemma_arms_fall_through(arms@);
            lemma_arms_reach(m2, join, base, arms@, arms.len() as int);
            assert(reaches(r.edges, base + 0, join));
            lemma_sealed_edge(m1, cur, bt, 0);
            lemma_reaches_refl(m2.edges, cur);
            lemma_reaches_edge_then(m2.edges, cur, cur, base);
            lemma_reaches_mono(m2.edges, r.edges, cur, base);
            lemma_reaches_trans(r.edges, cur, base, join);
            assert(r.blocks[cur].term == m2.blocks[cur].term);
            assert forall|i: int| 0 <= i < n implies reaches(r.edges, #[trigger] id_range(base, n)[i] as int, join) by {
                assert(reaches(r.edges, base + i, join));
            }
        },
    }
}

proof fn lemma_arms_reach(m: StoreModel, join: int, base: int, arms: Seq<MatchArm>, k: int)
    requires
        0 <= k <= arms.len(),
        0 <= join < base,
        base + arms.len() <= m.blocks.len(),
        forall|i: int| 0 <= i < arms.len() ==> m.is_open(#[trigger] (base + i)),
        forall|i: int| 0 <= i < arms.len() ==> body_falls_through(#[trigger] arms[i].body@),
        build_arms(m, join, base, arms, k).blocks.len() <= usize::MAX,
    ensures
        forall|i: int|
            0 <= i < k ==> reaches(build_arms(m, join, base, arms, k).edges, #[trigger] (base + i), join),
    decreases arms, k,
{
    if k > 0 {
        lemma_arms_grow(m, join, base, arms, k - 1);
        let m0 = build_arms(m, join, base, arms, k - 1);
        let n = arms.len() as int;
        let entry = base + k - 1;
        assert(m0.blocks[entry].term == m.blocks[entry].term);
        assert(m.is_open(base + (k - 1)));
        let guard = arms[k - 1].guard;
        let a = arm_start(m0, base, n, k - 1, guard);
        if k < n {
            assert(m0.blocks[base + k].term == m.blocks[base + k].term);
            assert(m.is_open(base + k));
        }
        let body = arms[k - 1].body@;
        assert(body_falls_through(arms[k - 1].body@));
        let b = build_stmts(a.0, a.1, body);
        lemma_stmts_grows(a.0, a.1, body);
        let r = close(b.0, b.1, join);
        lemma_arms_reach(m, join, base, arms, k - 1);
        // entry reaches the body's start, and the prefix of edges is kept
        match guard {
            None => {
                lemma_reaches_refl(a.0.edges, entry);
            },
            Some(g) => {
                let ma = m0.with_stmt(entry, g@);
                let bodyb = ma.blocks.len() as int;
                let mb = ma.with_block();
                let other = if k < n {
                    base + k
                } else {
                    mb.blocks.len() as int
                };
                let mc = if k < n {
                    mb
                } else {
                    mb.with_block().sealed(other, TermView::Unreachable)
                };
                let gt = TermView::Branch(BranchKind::Guard, seq![bodyb as usize, other as usize]);
                assert(a.0 == mc.sealed(entry, gt));
                assert(edges_prefix(m0.edges, mc.edges));
                lemma_sealed_edge(mc, entry, gt, 0);
                lemma_prefix_trans(m0.edges, mc.edges, a.0.edges);
                assert(is_path(a.0.edges, seq![entry, bodyb]));
            },
        }
        assert(edges_prefix(m0.edges, a.0.edges));
        lemma_stmts_reach(a.0, a.1, body);
        lemma_reaches_mono(a.0.edges, b.0.edges, entry, a.1);
        lemma_reaches_trans(b.0.edges, entry, a.1, b.1->0);
        lemma_close_reach(b.0, b.1->0, join, entry);
        lemma_prefix_trans(m0.edges, a.0.edges, b.0.edges);
        lemma_prefix_trans(m0.edges, b.0.edges, r.edges);
        assert forall|i: int| 0 <= i < k implies reaches(r.edges, #[trigger] (base + i), join) by {
            if i < k - 1 {
                lemma_reaches_mono(m0.edges, r.edges, base + i, join);
            }
        }
    }
}

/// When no branch of an `if`, `if let` or `match` returns, its join block
/// (where control continues) is reachable from every target of the branch
/// that ends the block before it.
pub proof fn lemma_join_reachable(m: StoreModel, cur: int, s: Stmt)
    requires
        m.is_open(cur),
        s is If || s is Match,
        stmt_falls_through(s),
        build_stmt(m, cur, s).0.blocks.len() <= usize::MAX,
    ensures
        build_stmt(m, cur, s).1 is Some,
        build_stmt(m, cur, s).0.blocks[cur].term matches Some(TermView::Branch(_, ts)) && forall|i: int|
            0 <= i < ts.len() ==> reaches(
                build_stmt(m, cur, s).0.edges,
                #[trigger] ts[i] as int,
                build_stmt(m, cur, s).1->0,
            ),
{
    lemma_stmt_reach(m, cur, s);
}

} // verus!
