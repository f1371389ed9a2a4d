//! The statement tree a function body is read as, the graph builder over it,
//! and the spec model (`build_stmt`, `build_stmts`, `build_arms`) it is proved to follow.

use vstd::prelude::*;

use crate::frame::{
    lemma_arms_grow, lemma_close, lemma_stmt_grows, lemma_stmts_grows, lemma_with_blocks,
};
use crate::graph::Graph;
use crate::pattern::{matches_shape, shape_error, EnumDecl, Pattern, PatternError};
use crate::store::{BlockStore, BlockView, BranchKind, StoreModel, TermView, Terminator};

verus! {

broadcast use {vstd::seq::group_seq_axioms, vstd::std_specs::vec::group_vec_axioms};

/// The test of an `if`: a boolean condition, or an `if let` pattern test.
pub enum Condition {
    Bool(String),
    Let { pattern: Pattern, scrutinee: String },
}

/// A statement of a function body, as the builder reads it.
pub enum Stmt {
    /// A non-branching statement or expression, calls included.
    Plain(String),
    Return,
    If { cond: Condition, then_body: Vec<Stmt>, else_body: Option<Vec<Stmt>> },
    Match { scrutinee: String, arms: Vec<MatchArm> },
}

pub struct MatchArm {
    pub pattern: Pattern,
    pub guard: Option<String>,
    pub body: Vec<Stmt>,
}

pub open spec fn cond_text(c: Condition) -> Seq<char> {
    match c {
        Condition::Bool(t) => t@,
        Condition::Let { scrutinee, .. } => scrutinee@,
    }
}

pub open spec fn cond_kind(c: Condition) -> BranchKind {
    match c {
        Condition::Bool(_) => BranchKind::Condition,
        Condition::Let { .. } => BranchKind::PatternTest,
    }
}

/// Seals `end`, if the path is still open there, with a jump to `join`.
pub open spec fn close(m: StoreModel, end: Option<int>, join: int) -> StoreModel {
    match end {
        Some(e) => m.sealed(e, TermView::Goto(join as usize)),
        None => m,
    }
}

/// Appends `n` fresh blocks.
pub open spec fn with_blocks(m: StoreModel, n: nat) -> StoreModel
    decreases n,
{
    if n == 0 {
        m
    } else {
        with_blocks(m, (n - 1) as nat).with_block()
    }
}

/// The ids `base, base + 1, ..., base + n - 1`.
pub open spec fn id_range(base: int, n: nat) -> Seq<usize> {
    Seq::new(n, |i: int| (base + i) as usize)
}

/// Where the body of arm `i` (of `n`, entries from `base`) starts, after its
/// guard, if any, has been wired: the guard branches to a fresh body block or
/// to the next arm's entry, or for the last arm to a fresh `Unreachable` block.
pub open spec fn arm_start(m: StoreModel, base: int, n: int, i: int, guard: Option<String>) -> (
    StoreModel,
    int,
) {
    match guard {
        None => (m, base + i),
        Some(g) => {
            let ma = m.with_stmt(base + i, g@);
            let body = ma.blocks.len() as int;
            let mb = ma.with_block();
            let other = if i + 1 < n {
                base + i + 1
            } else {
                mb.blocks.len() as int
            };
            let mc = if i + 1 < n {
                mb
            } else {
                mb.with_block().sealed(other, TermView::Unreachable)
            };
            (
                mc.sealed(base + i, TermView::Branch(BranchKind::Guard, seq![body as usize, other as usize])),
                body,
            )
        },
    }
}

/// Building one statement from the open block `cur`: the new store, and the
/// block where control continues (`None` once the path has returned).
pub open spec fn build_stmt(m: StoreModel, cur: int, s: Stmt) -> (StoreModel, Option<int>)
    decreases s, 0int,
{
    match s {
        Stmt::Plain(t) => (m.with_stmt(cur, t@), Some(cur)),
        Stmt::Return => (m.sealed(cur, TermView::Return), None),
        Stmt::If { cond, then_body, else_body } => {
            let m0 = m.with_stmt(cur, cond_text(cond));
            let then_entry = m0.blocks.len() as int;
            let join = then_entry + 1;
            let m1 = m0.with_block().with_block();
            let else_entry = if else_body is Some {
                join + 1
            } else {
                join
            };
            let m2 = if else_body is Some {
                m1.with_block()
            } else {
                m1
            };
            let m3 = m2.sealed(
                cur,
                TermView::Branch(cond_kind(cond), seq![then_entry as usize, else_entry as usize]),
            );
            let t = build_stmts(m3, then_entry, then_body@);
            let m4 = close(t.0, t.1, join);
            let m5 = match else_body {
                Some(eb) => {
                    let e = build_stmts(m4, else_entry, eb@);
                    close(e.0, e.1, join)
                },
                None => m4,
            };
            (m5, Some(join))
        },
        Stmt::Match { scrutinee, arms } => {
            let m0 = m.with_stmt(cur, scrutinee@);
            let join = m0.blocks.len() as int;
            let base = join + 1;
            let m1 = with_blocks(m0.with_block(), arms.len() as nat);
            let m2 = m1.sealed(
                cur,
                TermView::Branch(BranchKind::Discriminant, id_range(base, arms.len() as nat)),
            );
            (build_arms(m2, join, base, arms@, arms.len() as int), Some(join))
        },
    }
}

/// Building a statement sequence from the open block `cur`. Statements after
/// a `return` are dead and not built.
pub open spec fn build_stmts(m: StoreModel, cur: int, body: Seq<Stmt>) -> (StoreModel, Option<int>)
    decreases body, 0int,
{
    if body.len() == 0 {
        (m, Some(cur))
    } else {
        let p = build_stmts(m, cur, body.subrange(0, body.len() - 1));
        match p.1 {
            None => p,
            Some(c) => build_stmt(p.0, c, body[body.len() - 1]),
        }
    }
}

/// Wiring the first `k` arms of a match whose arm entries start at `base`.
pub open spec fn build_arms(m: StoreModel, join: int, base: int, arms: Seq<MatchArm>, k: int) -> StoreModel
    decreases arms, k,
{
    if k <= 0 || k > arms.len() {
        m
    } else {
        let m0 = build_arms(m, join, base, arms, k - 1);
        let a = arm_start(m0, base, arms.len() as int, k - 1, arms[k - 1].guard);
        let b = build_stmts(a.0, a.1, arms[k - 1].body@);
        close(b.0, b.1, join)
    }
}

pub open spec fn as_id(r: Option<usize>) -> Option<int> {
    match r {
        Some(x) => Some(x as int),
        None => None,
    }
}

/// The store of a function body's graph: block 0 is the entry, and the block
/// still open when the body ends is sealed with `Return`.
pub open spec fn function_store(body: Seq<Stmt>) -> StoreModel {
    let m = StoreModel {
        blocks: seq![BlockView { stmts: Seq::empty(), term: None }],
        edges: Seq::empty(),
    };
    let b = build_stmts(m, 0, body);
    match b.1 {
        Some(e) => b.0.sealed(e, TermView::Return),
        None => b.0,
    }
}

fn seal_goto(store: &mut BlockStore, end: Option<usize>, join: usize)
    requires
        end matches Some(e) ==> old(store)@.is_open(e as int),
        join < old(store)@.blocks.len(),
    ensures
        final(store)@ == close(old(store)@, as_id(end), join as int),
{
    if let Some(e) = end {
        let _ = store.seal(e, Terminator::Goto(join));
    }
}

fn build_body(store: &mut BlockStore, cur: usize, body: &Vec<Stmt>) -> (r: Option<usize>)
    requires
        old(store)@.is_open(cur as int),
    ensures
        final(store)@ == build_stmts(old(store)@, cur as int, body@).0,
        as_id(r) == build_stmts(old(store)@, cur as int, body@).1,
    decreases body,
{
    let ghost m = store@;
    let mut c: Option<usize> = Some(cur);
    let mut i: usize = 0;
    assert(body@.subrange(0, 0) =~= Seq::<Stmt>::empty());
    while i < body.len()
        invariant
            i <= body.len(),
            m.is_open(cur as int),
            store@ == build_stmts(m, cur as int, body@.subrange(0, i as int)).0,
            as_id(c) == build_stmts(m, cur as int, body@.subrange(0, i as int)).1,
        decreases body.len() - i,
    {
        proof {
            lemma_stmts_grows(m, cur as int, body@.subrange(0, i as int));
            let next = body@.subrange(0, i + 1);
            assert(next.subrange(0, next.len() - 1) =~= body@.subrange(0, i as int));
            assert(next[next.len() - 1] == body@[i as int]);
        }
        if let Some(x) = c {
            c = build_step(store, x, &body[i]);
        }
        i = i + 1;
    }
    assert(body@.subrange(0, i as int) =~= body@);
    c
}

fn build_step(store: &mut BlockStore, cur: usize, s: &Stmt) -> (r: Option<usize>)
    requires
        old(store)@.is_open(cur as int),
    ensures
        final(store)@ == build_stmt(old(store)@, cur as int, *s).0,
        as_id(r) == build_stmt(old(store)@, cur as int, *s).1,
    decreases s,
{
    proof {
        lemma_stmt_grows(store@, cur as int, *s);
    }
    match s {
        Stmt::Plain(t) => {
            let _ = store.append_statement(cur, t.clone());
            Some(cur)
        },
        Stmt::Return => {
            let _ = store.seal(cur, Terminator::Return);
            None
        },
        Stmt::If { cond, then_body, else_body } => {
            let (kind, text) = match cond {
                Condition::Bool(t) => (BranchKind::Condition, t.clone()),
                Condition::Let { scrutinee, .. } => (BranchKind::PatternTest, scrutinee.clone()),
            };
            let _ = store.append_statement(cur, text);
            let then_entry = store.new_block();
            let join = store.new_block();
            let else_entry = if else_body.is_some() {
                store.new_block()
            } else {
                join
            };
            let mut targets: Vec<usize> = Vec::new();
            targets.push(then_entry);
            targets.push(else_entry);
            assert(targets@ =~= seq![then_entry, else_entry]);
            assert(store@.targets_exist(TermView::Branch(kind, targets@)));
            let _ = store.seal(cur, Terminator::Branch(kind, targets));
            let ghost m3 = store@;
            let t_end = build_body(store, then_entry, then_body);
            proof {
                lemma_stmts_grows(m3, then_entry as int, then_body@);
            }
            seal_goto(store, t_end, join);
            proof {
                lemma_close(m3, build_stmts(m3, then_entry as int, then_body@).0, then_entry as int, as_id(t_end), join as int);
                assert(store@.blocks[else_entry as int].term == m3.blocks[else_entry as int].term);
            }
            match else_body {
                Some(eb) => {
                    let e_end = build_body(store, else_entry, eb);
                    proof {
                        lemma_stmts_grows(close(build_stmts(m3, then_entry as int, then_body@).0, as_id(t_end), join as int), else_entry as int, eb@);
                    }
                    seal_goto(store, e_end, join);
                },
                None => {},
            }
            Some(join)
        },
        Stmt::Match { scrutinee, arms } => {
            let _ = store.append_statement(cur, scrutinee.clone());
            let ghost m0 = store@;
            let join = store.new_block();
            let base = store.num_blocks();
            let mut entries: Vec<usize> = Vec::new();
            let mut i: usize = 0;
            while i < arms.len()
                invariant
                    i <= arms.len(),
                    base == m0.blocks.len() + 1,
                    store@ == with_blocks(m0.with_block(), i as nat),
                    entries@ == id_range(base as int, i as nat),
                decreases arms.len() - i,
            {
                proof {
                    lemma_with_blocks(m0.with_block(), i as nat);
                }
                let b = store.new_block();
                entries.push(b);
                assert(entries@ =~= id_range(base as int, (i + 1) as nat));
                i = i + 1;
            }
            proof {
                lemma_with_blocks(m0.with_block(), arms.len() as nat);
                assert(store@.targets_exist(TermView::Branch(BranchKind::Discriminant, entries@)));
            }
            let _ = store.seal(cur, Terminator::Branch(BranchKind::Discriminant, entries));
            build_arms_exec(store, join, base, arms);
            Some(join)
        },
    }
}

fn build_arms_exec(store: &mut BlockStore, join: usize, base: usize, arms: &Vec<MatchArm>)
    requires
        join < base,
        base + arms@.len() <= old(store)@.blocks.len(),
        forall|i: int| 0 <= i < arms@.len() ==> old(store)@.is_open(#[trigger] (base + i)),
    ensures
        final(store)@ == build_arms(old(store)@, join as int, base as int, arms@, arms@.len() as int),
    decreases arms,
{
    let ghost m = store@;
    let n = arms.len();
    let mut i: usize = 0;
    while i < n
        invariant
            i <= n,
            n == arms@.len(),
            join < base,
            base + n <= m.blocks.len(),
            forall|k: int| 0 <= k < n ==> m.is_open(#[trigger] (base + k)),
            store@ == build_arms(m, join as int, base as int, arms@, i as int),
        decreases n - i,
    {
        proof {
            lemma_arms_grow(m, join as int, base as int, arms@, i as int);
            assert(m.is_open(base + i));
            if i + 1 < n {
                assert(m.is_open(base + (i + 1)));
            }
        }
        let ghost m0 = store@;
        let nb = store.num_blocks();
        assert(base + i < nb);
        let entry = base + i;
        let start = match &arms[i].guard {
            None => entry,
            Some(g) => {
                let _ = store.append_statement(entry, g.clone());
                let body = store.new_block();
                let other = if i + 1 < n {
                    entry + 1
                } else {
                    let u = store.new_block();
                    let _ = store.seal(u, Terminator::Unreachable);
                    u
                };
                let mut targets: Vec<usize> = Vec::new();
                targets.push(body);
                targets.push(other);
                assert(targets@ =~= seq![body, other]);
                assert(store@.targets_exist(TermView::Branch(BranchKind::Guard, targets@)));
                let _ = store.seal(entry, Terminator::Branch(BranchKind::Guard, targets));
                body
            },
        };
        assert(store@ == arm_start(m0, base as int, n as int, i as int, arms@[i as int].guard).0);
        assert(start as int == arm_start(m0, base as int, n as int, i as int, arms@[i as int].guard).1);
        let ghost ma = store@;
        let end = build_body(store, start, &arms[i].body);
        proof {
            lemma_stmts_grows(ma, start as int, arms@[i as int].body@);
        }
        seal_goto(store, end, join);
        i = i + 1;
    }
}

/// Builds the control-flow graph of a function body.
pub fn build_cfg(body: &Vec<Stmt>) -> (g: Graph)
    ensures
        g@ == function_store(body@),
{
    let mut store = BlockStore::new();
    let ghost m = store@;
    let end = build_body(&mut store, 0, body);
    proof {
        lemma_stmts_grows(m, 0, body@);
    }
    if let Some(e) = end {
        let _ = store.seal(e, Terminator::Return);
    }
    proof {
        let n = store@;
        assert forall|i: int| 0 <= i < n.blocks.len() implies n.blocks[i].term is Some by {
            if i >= 1 {
                assert(n.blocks[i].term is Some);
            }
        }
    }
    store.finalize().unwrap()
}

/// Why a function body cannot be built.
#[derive(PartialEq, Eq, Structural, Clone, Copy, Debug)]
pub enum BuildError {
    UnknownVariant,
    ArityMismatch,
    EmptyMatch,
}

pub open spec fn lift(e: Option<PatternError>) -> Option<BuildError> {
    match e {
        Some(PatternError::UnknownVariant) => Some(BuildError::UnknownVariant),
        Some(PatternError::ArityMismatch) => Some(BuildError::ArityMismatch),
        None => None,
    }
}

fn lift_error(e: PatternError) -> (r: BuildError)
    ensures
        lift(Some(e)) == Some(r),
{
    match e {
        PatternError::UnknownVariant => BuildError::UnknownVariant,
        PatternError::ArityMismatch => BuildError::ArityMismatch,
    }
}

/// The first error met in a walk of `s` in source order, if any.
pub open spec fn stmt_error(s: Stmt, decls: Seq<EnumDecl>) -> Option<BuildError>
    decreases s, 0int,
{
    match s {
        Stmt::If { cond, then_body, else_body } => {
            let c = match cond {
                Condition::Let { pattern, .. } => lift(shape_error(pattern, decls)),
                Condition::Bool(_) => None,
            };
            if c is Some {
                c
            } else if body_error(then_body@, decls) is Some {
                body_error(then_body@, decls)
            } else {
                match else_body {
                    Some(eb) => body_error(eb@, decls),
                    None => None,
                }
            }
        },
        Stmt::Match { arms, .. } => {
            if arms.len() == 0 {
                Some(BuildError::EmptyMatch)
            } else {
                arms_error(arms@, decls)
            }
        },
        _ => None,
    }
}

pub open spec fn body_error(ss: Seq<Stmt>, decls: Seq<EnumDecl>) -> Option<BuildError>
    decreases ss, 0int,
{
    if ss.len() == 0 {
        None
    } else if stmt_error(ss[0], decls) is Some {
        stmt_error(ss[0], decls)
    } else {
        body_error(ss.subrange(1, ss.len() as int), decls)
    }
}

pub open spec fn arms_error(arms: Seq<MatchArm>, decls: Seq<EnumDecl>) -> Option<BuildError>
    decreases arms, 0int,
{
    if arms.len() == 0 {
        None
    } else if lift(shape_error(arms[0].pattern, decls)) is Some {
        lift(shape_error(arms[0].pattern, decls))
    } else if body_error(arms[0].body@, decls) is Some {
        body_error(arms[0].body@, decls)
    } else {
        arms_error(arms.subrange(1, arms.len() as int), decls)
    }
}

fn check_stmt(s: &Stmt, decls: &Vec<EnumDecl>) -> (r: Result<(), BuildError>)
    ensures
        r is Ok <==> stmt_error(*s, decls@) is None,
        r matches Err(e) ==> stmt_error(*s, decls@) == Some(e),
    decreases s,
{
    match s {
        Stmt::If { cond, then_body, else_body } => {
            if let Condition::Let { pattern, .. } = cond {
                if let Err(e) = matches_shape(pattern, decls) {
                    return Err(lift_error(e));
                }
            }
            check_body(then_body, decls)?;
            match else_body {
                Some(eb) => check_body(eb, decls),
                None => Ok(()),
            }
        },
        Stmt::Match { arms, .. } => {
            if arms.len() == 0 {
                Err(BuildError::EmptyMatch)
            } else {
                check_arms(arms, decls)
            }
        },
        _ => Ok(()),
    }
}

fn check_body(ss: &Vec<Stmt>, decls: &Vec<EnumDecl>) -> (r: Result<(), BuildError>)
    ensures
        r is Ok <==> body_error(ss@, decls@) is None,
        r matches Err(e) ==> body_error(ss@, decls@) == Some(e),
    decreases ss,
{
    let mut i: usize = 0;
    assert(ss@.subrange(0, ss@.len() as int) =~= ss@);
    while i < ss.len()
        invariant
            i <= ss.len(),
            body_error(ss@, decls@) == body_error(ss@.subrange(i as int, ss@.len() as int), decls@),
        decreases ss.len() - i,
    {
        let ghost rest = ss@.subrange(i as int, ss@.len() as int);
        assert(rest[0] == ss@[i as int]);
        assert(rest.subrange(1, rest.len() as int) =~= ss@.subrange(i + 1, ss@.len() as int));
        check_stmt(&ss[i], decls)?;
        i = i + 1;
    }
    assert(ss@.subrange(i as int, ss@.len() as int).len() == 0);
    Ok(())
}

fn check_arms(arms: &Vec<MatchArm>, decls: &Vec<EnumDecl>) -> (r: Result<(), BuildError>)
    ensures
        r is Ok <==> arms_error(arms@, decls@) is None,
        r matches Err(e) ==> arms_error(arms@, decls@) == Some(e),
    decreases arms,
{
    let mut i: usize = 0;
    assert(arms@.subrange(0, arms@.len() as int) =~= arms@);
    while i < arms.len()
        invariant
            i <= arms.len(),
            arms_error(arms@, decls@) == arms_error(
                arms@.subrange(i as int, arms@.len() as int),
                decls@,
            ),
        decreases arms.len() - i,
    {
        let ghost rest = arms@.subrange(i as int, arms@.len() as int);
        assert(rest[0] == arms@[i as int]);
        assert(rest.subrange(1, rest.len() as int) =~= arms@.subrange(i + 1, arms@.len() as int));
        if let Err(e) = matches_shape(&arms[i].pattern, decls) {
            return Err(lift_error(e));
        }
        check_body(&arms[i].body, decls)?;
        i = i + 1;
    }
    assert(arms@.subrange(i as int, arms@.len() as int).len() == 0);
    Ok(())
}

/// Checks a function body against the enum declarations and, when it is
/// well formed, builds its control-flow graph.
pub fn build_function(body: &Vec<Stmt>, decls: &Vec<EnumDecl>) -> (r: Result<Graph, BuildError>)
    ensures
        body_error(body@, decls@) matches Some(e) ==> (r matches Err(x) && x == e),
        body_error(body@, decls@) is None ==> (r matches Ok(g) && g@ == function_store(body@)),
{
    check_body(body, decls)?;
    Ok(build_cfg(body))
}

} // verus!
