use cfg_builder::builder::{build_cfg, build_function, BuildError, Condition, MatchArm, Stmt};
use cfg_builder::graph::Graph;
use cfg_builder::pattern::{
    lookup_variant, matches_shape, EnumDecl, FieldPattern, Pattern, PatternError, VariantDecl,
    VariantShape,
};
use cfg_builder::rect::Rect;
use cfg_builder::store::{BlockStore, BranchKind, Edge, EdgeLabel, StoreError, Terminator};

fn s(t: &str) -> String {
    t.to_string()
}

fn plain(t: &str) -> Stmt {
    Stmt::Plain(s(t))
}

fn unit(e: &str, v: &str) -> Pattern {
    Pattern::UnitVariant { enum_name: s(e), variant: s(v) }
}

fn rgb() -> Pattern {
    Pattern::TupleVariant {
        enum_name: s("Color"),
        variant: s("RGB"),
        fields: vec![Pattern::Binding(s("r")), Pattern::Binding(s("g")), Pattern::Binding(s("b"))],
    }
}

fn arm(p: Pattern, guard: Option<&str>, body: Vec<Stmt>) -> MatchArm {
    MatchArm { pattern: p, guard: guard.map(s), body }
}

fn color_decls() -> Vec<EnumDecl> {
    vec![EnumDecl {
        name: s("Color"),
        variants: vec![
            VariantDecl { name: s("Red"), shape: VariantShape::Unit },
            VariantDecl { name: s("Blue"), shape: VariantShape::Unit },
            VariantDecl { name: s("Green"), shape: VariantShape::Unit },
            VariantDecl { name: s("RGB"), shape: VariantShape::Tuple(3) },
        ],
    }]
}

fn message_decls() -> Vec<EnumDecl> {
    vec![EnumDecl {
        name: s("Message"),
        variants: vec![
            VariantDecl { name: s("Quit"), shape: VariantShape::Unit },
            VariantDecl { name: s("Move"), shape: VariantShape::Struct(vec![s("x"), s("y")]) },
            VariantDecl { name: s("ChangeColor"), shape: VariantShape::Tuple(3) },
        ],
    }]
}

fn targets(g: &Graph, b: usize) -> Vec<usize> {
    match g.terminator(b) {
        Terminator::Goto(t) => vec![*t],
        Terminator::Branch(_, ts) => ts.clone(),
        _ => vec![],
    }
}

fn edges(g: &Graph) -> Vec<Edge> {
    (0..g.edge_count()).map(|i| g.edge(i)).collect()
}

fn reachable(g: &Graph, from: usize, to: usize) -> bool {
    let mut seen = vec![false; g.block_count()];
    let mut todo = vec![from];
    while let Some(b) = todo.pop() {
        if b == to {
            return true;
        }
        if !seen[b] {
            seen[b] = true;
            todo.extend(targets(g, b));
        }
    }
    false
}

fn four_arm_match() -> Vec<Stmt> {
    vec![
        plain("let mut color = Color::RGB(122, 17, 40)"),
        Stmt::Match {
            scrutinee: s("color"),
            arms: vec![
                arm(unit("Color", "Red"), None, vec![plain("println!(\"The color is Red!\")")]),
                arm(unit("Color", "Blue"), None, vec![plain("println!(\"The color is Blue!\")")]),
                arm(unit("Color", "Green"), None, vec![plain("println!(\"The color is Green!\")")]),
                arm(
                    rgb(),
                    None,
                    vec![plain("println!(\"Chosen all the colors!\")"), plain("println!(\"All the colors!\")")],
                ),
            ],
        },
    ]
}

fn guarded_match(guarded: bool) -> Vec<Stmt> {
    vec![
        plain("let color = Color::RGB(122, 17, 40)"),
        Stmt::Match {
            scrutinee: s("color"),
            arms: vec![
                arm(
                    rgb(),
                    if guarded { Some("r < 122") } else { None },
                    vec![plain("println!(\"Red greater than 122!\")")],
                ),
                arm(rgb(), None, vec![plain("println!(\"No constraint on red!\")")]),
            ],
        },
    ]
}

#[test]
fn four_arm_match_shape() {
    let g = build_function(&four_arm_match(), &color_decls()).unwrap();
    assert_eq!(g.block_count(), 6);
    assert_eq!(g.edge_count(), 8);
    assert_eq!(g.entry_block_id(), 0);
    match g.terminator(0) {
        Terminator::Branch(BranchKind::Discriminant, ts) => assert_eq!(ts, &vec![2, 3, 4, 5]),
        _ => panic!("entry block should branch on the discriminant"),
    }
    for b in 2..6 {
        assert!(matches!(g.terminator(b), Terminator::Goto(1)));
    }
    assert!(matches!(g.terminator(1), Terminator::Return));
    assert_eq!(g.statements(5).len(), 2);
    let e = edges(&g);
    for i in 0..4 {
        assert_eq!(e[i], Edge { source: 0, target: 2 + i, label: EdgeLabel::Arm(i) });
    }
    assert_eq!(e.iter().filter(|x| x.target == 1).count(), 4);
}

#[test]
fn guarded_arm_adds_guard_branch() {
    let plain_g = build_cfg(&guarded_match(false));
    let g = build_function(&guarded_match(true), &color_decls()).unwrap();
    assert_eq!(g.block_count(), plain_g.block_count() + 1);
    assert_eq!(g.block_count(), 5);
    // arm entries are 2 and 3; the guard of arm 0 branches to its body (4) or to arm 1
    match g.terminator(2) {
        Terminator::Branch(BranchKind::Guard, ts) => assert_eq!(ts, &vec![4, 3]),
        _ => panic!("guarded arm entry should branch on its guard"),
    }
    assert_eq!(g.statements(2), &vec![s("r < 122")]);
    assert_eq!(plain_g.edge_count(), 4);
    assert_eq!(g.edge_count(), 6);
    assert!(edges(&g).contains(&Edge { source: 2, target: 3, label: EdgeLabel::Taken(false) }));
}

#[test]
fn last_guard_failure_is_unreachable() {
    let body = vec![Stmt::Match {
        scrutinee: s("color"),
        arms: vec![arm(rgb(), Some("r < 122"), vec![plain("println!(\"Red greater than 122!\")")])],
    }];
    let g = build_function(&body, &color_decls()).unwrap();
    // entry 0, join 1, arm entry 2, arm body 3, fallback 4
    assert_eq!(g.block_count(), 5);
    assert_eq!(targets(&g, 2), vec![3, 4]);
    assert!(matches!(g.terminator(4), Terminator::Unreachable));
    assert!(edges(&g).iter().all(|e| e.source != 4));
}

#[test]
fn if_let_without_else_joins_directly() {
    let body = vec![
        plain("let m0 = Message::Quit"),
        Stmt::If {
            cond: Condition::Let { pattern: unit("Message", "Quit"), scrutinee: s("m0") },
            then_body: vec![plain("println!(\"Quit message\")")],
            else_body: None,
        },
    ];
    let g = build_function(&body, &message_decls()).unwrap();
    assert_eq!(g.block_count(), 3);
    match g.terminator(0) {
        Terminator::Branch(BranchKind::PatternTest, ts) => assert_eq!(ts, &vec![1, 2]),
        _ => panic!("entry block should test the pattern"),
    }
    assert!(matches!(g.terminator(1), Terminator::Goto(2)));
    assert!(matches!(g.terminator(2), Terminator::Return));
    assert_eq!(g.edge_count(), 3);
}

#[test]
fn if_let_then_return_leaves_join_on_false_path() {
    let body = vec![
        plain("let m0 = Message::Quit"),
        Stmt::If {
            cond: Condition::Let { pattern: unit("Message", "Quit"), scrutinee: s("m0") },
            then_body: vec![Stmt::Return],
            else_body: None,
        },
    ];
    let g = build_function(&body, &message_decls()).unwrap();
    assert!(matches!(g.terminator(1), Terminator::Return));
    let into_join: Vec<Edge> = edges(&g).into_iter().filter(|e| e.target == 2).collect();
    assert_eq!(into_join, vec![Edge { source: 0, target: 2, label: EdgeLabel::Taken(false) }]);
    assert!(!reachable(&g, 1, 2));
}

#[test]
fn method_call_is_one_statement() {
    let body = vec![
        plain("let r = Rect::new(10, 5)"),
        plain("let _a = r.area()"),
        plain("let _b = r.perim()"),
    ];
    let g = build_cfg(&body);
    assert_eq!(g.block_count(), 1);
    assert_eq!(g.edge_count(), 0);
    assert_eq!(g.statements(0).len(), 3);
    assert_eq!(g.statements(0)[1], s("let _a = r.area()"));
    assert!(matches!(g.terminator(0), Terminator::Return));
}

#[test]
fn rect_area_and_perimeter() {
    let r = Rect::new(10, 5);
    assert_eq!(r.width, 10);
    assert_eq!(r.height, 5);
    assert_eq!(r.area(), 50);
    assert_eq!(r.perim(), 30);
}

#[test]
fn building_twice_gives_the_same_graph() {
    let a = build_function(&four_arm_match(), &color_decls()).unwrap();
    let b = build_function(&four_arm_match(), &color_decls()).unwrap();
    assert_eq!(a.block_count(), b.block_count());
    assert_eq!(edges(&a), edges(&b));
    for i in 0..a.block_count() {
        assert_eq!(a.statements(i), b.statements(i));
        assert_eq!(targets(&a, i), targets(&b, i));
    }
}

#[test]
fn every_arm_entry_reaches_the_join() {
    let g = build_cfg(&guarded_match(true));
    for entry in targets(&g, 0) {
        assert!(reachable(&g, entry, 1));
    }
    let body = vec![Stmt::If {
        cond: Condition::Bool(s("x > 0")),
        then_body: vec![plain("a()")],
        else_body: Some(vec![plain("b()"), plain("c()")]),
    }];
    let g = build_cfg(&body);
    assert_eq!(g.block_count(), 4);
    assert_eq!(targets(&g, 0), vec![1, 3]);
    assert!(reachable(&g, 1, 2));
    assert!(reachable(&g, 3, 2));
    assert_eq!(g.statements(3).len(), 2);
}

#[test]
fn nested_match_in_if() {
    let body = vec![Stmt::If {
        cond: Condition::Bool(s("flag")),
        then_body: vec![four_arm_match().pop().unwrap(), plain("after()")],
        else_body: None,
    }];
    let g = build_cfg(&body);
    // 0 branch, 1 then, 2 join, 3 inner join, 4..7 arms
    assert_eq!(g.block_count(), 8);
    assert_eq!(targets(&g, 1), vec![4, 5, 6, 7]);
    assert_eq!(targets(&g, 3), vec![2]);
    assert_eq!(g.statements(3), &vec![s("after()")]);
    assert!(reachable(&g, 1, 2));
}

#[test]
fn statements_after_return_are_dropped() {
    let g = build_cfg(&vec![plain("a()"), Stmt::Return, plain("b()")]);
    assert_eq!(g.block_count(), 1);
    assert_eq!(g.statements(0), &vec![s("a()")]);
}

#[test]
fn empty_body_is_one_returning_block() {
    let g = build_cfg(&vec![]);
    assert_eq!(g.block_count(), 1);
    assert!(matches!(g.terminator(0), Terminator::Return));
}

#[test]
fn every_block_is_sealed() {
    let g = build_cfg(&guarded_match(true));
    for b in 0..g.block_count() {
        let _ = g.terminator(b);
    }
}

#[test]
fn empty_match_is_rejected() {
    let body = vec![Stmt::Match { scrutinee: s("color"), arms: vec![] }];
    assert_eq!(build_function(&body, &color_decls()).err(), Some(BuildError::EmptyMatch));
}

#[test]
fn unknown_variant_is_rejected() {
    let body = vec![Stmt::Match {
        scrutinee: s("color"),
        arms: vec![arm(unit("Color", "Purple"), None, vec![])],
    }];
    assert_eq!(build_function(&body, &color_decls()).err(), Some(BuildError::UnknownVariant));
}

#[test]
fn arity_mismatch_is_rejected() {
    let p = Pattern::TupleVariant {
        enum_name: s("Color"),
        variant: s("RGB"),
        fields: vec![Pattern::Wildcard, Pattern::Wildcard],
    };
    let body = vec![Stmt::If {
        cond: Condition::Let { pattern: p, scrutinee: s("c") },
        then_body: vec![],
        else_body: None,
    }];
    assert_eq!(build_function(&body, &color_decls()).err(), Some(BuildError::ArityMismatch));
}

#[test]
fn first_error_in_source_order_wins() {
    let body = vec![
        Stmt::Match { scrutinee: s("c"), arms: vec![] },
        Stmt::Match { scrutinee: s("c"), arms: vec![arm(unit("Color", "Purple"), None, vec![])] },
    ];
    assert_eq!(build_function(&body, &color_decls()).err(), Some(BuildError::EmptyMatch));
}

#[test]
fn pattern_shapes() {
    let d = message_decls();
    assert_eq!(matches_shape(&unit("Message", "Quit"), &d), Ok(()));
    assert_eq!(matches_shape(&unit("Message", "Move"), &d), Err(PatternError::ArityMismatch));
    assert_eq!(matches_shape(&unit("Letter", "Quit"), &d), Err(PatternError::UnknownVariant));
    assert_eq!(matches_shape(&Pattern::Literal(3), &d), Ok(()));
    let mv = |fields: Vec<(&str, Pattern)>| Pattern::StructVariant {
        enum_name: s("Message"),
        variant: s("Move"),
        fields: fields.into_iter().map(|(n, p)| FieldPattern { name: s(n), pattern: p }).collect(),
    };
    assert_eq!(matches_shape(&mv(vec![("x", Pattern::Binding(s("a")))]), &d), Ok(()));
    assert_eq!(
        matches_shape(&mv(vec![("x", Pattern::Wildcard), ("y", Pattern::Wildcard)]), &d),
        Ok(())
    );
    assert_eq!(matches_shape(&mv(vec![("z", Pattern::Wildcard)]), &d), Err(PatternError::ArityMismatch));
    assert_eq!(
        matches_shape(&mv(vec![("x", Pattern::Wildcard), ("x", Pattern::Wildcard)]), &d),
        Err(PatternError::ArityMismatch)
    );
    assert_eq!(
        matches_shape(&mv(vec![("x", unit("Message", "Nope"))]), &d),
        Err(PatternError::UnknownVariant)
    );
    let cc = Pattern::TupleVariant {
        enum_name: s("Message"),
        variant: s("ChangeColor"),
        fields: vec![Pattern::Binding(s("a")), Pattern::Literal(0), unit("Message", "Quit")],
    };
    assert_eq!(matches_shape(&cc, &d), Ok(()));
    assert_eq!(lookup_variant(&d, &s("Message"), &s("ChangeColor")), Some((0, 2)));
    assert_eq!(lookup_variant(&d, &s("Message"), &s("Write")), None);
}

#[test]
fn store_errors() {
    let mut st = BlockStore::new();
    let b = st.new_block();
    assert_eq!(b, 1);
    assert_eq!(st.seal(0, Terminator::Goto(7)), Err(StoreError::DanglingTarget));
    assert_eq!(st.seal(0, Terminator::Goto(1)), Ok(()));
    assert_eq!(st.seal(0, Terminator::Return), Err(StoreError::DoubleSeal));
    assert_eq!(st.append_statement(0, s("x")), Err(StoreError::SealedBlock));
    assert_eq!(st.append_statement(1, s("y")), Ok(()));
    assert_eq!(st.num_blocks(), 2);
    let st2 = {
        let mut t = BlockStore::new();
        t.new_block();
        t.seal(0, Terminator::Branch(BranchKind::Condition, vec![1, 1])).unwrap();
        t
    };
    assert!(matches!(st2.finalize(), Err(StoreError::UnsealedBlock)));
    assert_eq!(st.seal(1, Terminator::Unreachable), Ok(()));
    let g = st.finalize().unwrap();
    assert_eq!(g.block_count(), 2);
    assert_eq!(edges(&g), vec![Edge { source: 0, target: 1, label: EdgeLabel::Always }]);
    assert_eq!(g.statements(1), &vec![s("y")]);
}
