use nrs_language_server::ast::{
    BinaryOp, Expr, ExprKind, FieldDecl, Func, IdentBinding, IdentReference, Item, LetExpr, ListExpr,
    Literal, NumeralLiteral, Param, Program, StringLiteral, StructDecl, TypeExpr,
};
use nrs_language_server::semantic_analyze::{analyze_program, find_symbol, SemanticError, Type};
use nrs_language_server::span::Span;
use nrs_language_server::symbol_table::{ConsistencyError, SymbolKind, SymbolTable};

fn bind(name: &str, start: usize) -> IdentBinding {
    IdentBinding { name: name.to_string(), span: Span::new(start, start + name.len()) }
}

fn reference(name: &str, start: usize) -> IdentReference {
    IdentReference { name: name.to_string(), span: Span::new(start, start + name.len()) }
}

fn local(name: &str, start: usize) -> Expr {
    Expr { kind: ExprKind::Local(reference(name, start)), span: Span::new(start, start + name.len()) }
}

fn num(value: i64, start: usize, end: usize) -> Expr {
    Expr {
        kind: ExprKind::Literal(Literal::NumeralLiteral(NumeralLiteral { span: Span::new(start, end), value })),
        span: Span::new(start, end),
    }
}

fn string(value: &str, start: usize, end: usize) -> Expr {
    Expr {
        kind: ExprKind::Literal(Literal::StringLiteral(StringLiteral {
            span: Span::new(start, end),
            value: value.to_string(),
        })),
        span: Span::new(start, end),
    }
}

fn let_expr(name: &str, at: usize, init: Expr, body: Expr, start: usize, end: usize) -> Expr {
    Expr {
        kind: ExprKind::Let(LetExpr { name: bind(name, at), init: Box::new(init), body: Box::new(body) }),
        span: Span::new(start, end),
    }
}

fn func(name: &str, at: usize, params: Vec<Param>, body: Expr, start: usize, end: usize) -> Item {
    Item::Func(Func { name: bind(name, at), params, body, span: Span::new(start, end) })
}

// fn test() { let a = 3; let b = a; b }
fn program_a_b() -> Program {
    let body = let_expr(
        "a",
        16,
        num(3, 20, 21),
        let_expr("b", 27, local("a", 31), local("b", 34), 23, 35),
        12,
        35,
    );
    Program { items: vec![func("test", 3, vec![], body, 0, 37)] }
}

#[test]
fn scenario_two_lets_resolve() {
    let sem = analyze_program(&program_a_b()).ok().unwrap();
    let syms = &sem.table.symbols;
    assert_eq!(syms.len(), 3);
    assert_eq!(syms[0].name, "test");
    assert_eq!(syms[0].kind, SymbolKind::Function);
    assert_eq!(syms[1].name, "a");
    assert_eq!(syms[1].kind, SymbolKind::Variable);
    assert_eq!(syms[2].name, "b");
    assert_eq!(syms[2].kind, SymbolKind::Variable);
    let refs = &sem.table.references;
    assert_eq!(refs.len(), 2);
    assert_eq!(refs[0].span, Span::new(31, 32));
    assert_eq!(refs[0].symbol_id, Some(1));
    assert_eq!(refs[1].span, Span::new(34, 35));
    assert_eq!(refs[1].symbol_id, Some(2));
    assert!(sem.errors.is_empty());
    assert_eq!(sem.goto_definition(34), Some(Span::new(27, 28)));
}

#[test]
fn scenario_undefined_name() {
    // fn test() { c }
    let p = Program { items: vec![func("test", 3, vec![], local("c", 12), 0, 15)] };
    let sem = analyze_program(&p).ok().unwrap();
    assert_eq!(sem.table.references.len(), 1);
    assert_eq!(sem.table.references[0].symbol_id, None);
    assert_eq!(sem.errors.len(), 1);
    match &sem.errors[0] {
        SemanticError::UndefinedVariable { name, span } => {
            assert_eq!(name, "c");
            assert_eq!(*span, Span::new(12, 13));
        }
        _ => panic!("expected an undefined variable"),
    }
    assert_eq!(sem.errors[0].span(), Span::new(12, 13));
    assert_eq!(sem.goto_definition(12), None);
}

#[test]
fn scenario_shadowing_takes_the_second_binding() {
    // fn f() { let x = 1; let x = 2; x }
    let body = let_expr("x", 13, num(1, 17, 18), let_expr("x", 24, num(2, 28, 29), local("x", 31), 20, 32), 9, 32);
    let p = Program { items: vec![func("f", 3, vec![], body, 0, 34)] };
    let sem = analyze_program(&p).ok().unwrap();
    assert_eq!(sem.table.symbols.len(), 3);
    assert_eq!(sem.table.references[0].symbol_id, Some(2));
    assert_eq!(sem.goto_definition(31), Some(Span::new(24, 25)));
}

#[test]
fn initializer_does_not_see_its_own_binding() {
    // fn f() { let x = x; x }
    let body = let_expr("x", 13, local("x", 17), local("x", 20), 9, 21);
    let p = Program { items: vec![func("f", 3, vec![], body, 0, 23)] };
    let sem = analyze_program(&p).ok().unwrap();
    assert_eq!(sem.table.references[0].symbol_id, None);
    assert_eq!(sem.table.references[1].symbol_id, Some(1));
    assert_eq!(sem.errors.len(), 1);
}

#[test]
fn initializer_resolves_against_outer_binding() {
    // fn f(x) { let x = x; x }
    let params = vec![Param { name: bind("x", 5), ty: TypeExpr::Inferred }];
    let body = let_expr("x", 14, local("x", 18), local("x", 21), 10, 22);
    let p = Program { items: vec![func("f", 3, params, body, 0, 24)] };
    let sem = analyze_program(&p).ok().unwrap();
    assert_eq!(sem.table.symbols[1].kind, SymbolKind::Parameter);
    assert_eq!(sem.table.references[0].symbol_id, Some(1));
    assert_eq!(sem.table.references[1].symbol_id, Some(2));
    assert!(sem.errors.is_empty());
}

#[test]
fn compiling_twice_gives_equal_results() {
    let a = analyze_program(&program_a_b()).ok().unwrap();
    let b = analyze_program(&program_a_b()).ok().unwrap();
    assert_eq!(a.table.symbols.len(), b.table.symbols.len());
    assert_eq!(a.table.references.len(), b.table.references.len());
    assert_eq!(a.errors.len(), b.errors.len());
    for (x, y) in a.table.references.iter().zip(b.table.references.iter()) {
        assert_eq!(x.span, y.span);
        assert_eq!(x.symbol_id, y.symbol_id);
    }
}

#[test]
fn later_functions_are_visible_to_earlier_bodies() {
    // fn f() { g } fn g() { 1 }
    let p = Program {
        items: vec![func("f", 3, vec![], local("g", 9), 0, 12), func("g", 16, vec![], num(1, 22, 23), 13, 25)],
    };
    let sem = analyze_program(&p).ok().unwrap();
    assert_eq!(sem.table.references[0].symbol_id, Some(1));
    assert!(sem.errors.is_empty());
}

#[test]
fn sibling_branches_do_not_share_bindings() {
    // fn f() { (let y = 1; y) + y }
    let left = let_expr("y", 14, num(1, 18, 19), local("y", 21), 10, 22);
    let body = Expr {
        kind: ExprKind::Binary(Box::new(left), BinaryOp::Add, Box::new(local("y", 26))),
        span: Span::new(9, 27),
    };
    let p = Program { items: vec![func("f", 3, vec![], body, 0, 29)] };
    let sem = analyze_program(&p).ok().unwrap();
    assert_eq!(sem.table.references[0].symbol_id, Some(1));
    assert_eq!(sem.table.references[1].symbol_id, None);
    assert_eq!(sem.errors.len(), 1);
}

#[test]
fn list_with_mixed_elements_reports_inconsistency() {
    // fn f() { let l = [1, "s"]; l }
    let list = Expr {
        kind: ExprKind::List(ListExpr { exprs: vec![num(1, 18, 19), string("s", 21, 24)] }),
        span: Span::new(17, 25),
    };
    let body = let_expr("l", 13, list, local("l", 27), 9, 28);
    let p = Program { items: vec![func("f", 3, vec![], body, 0, 30)] };
    let sem = analyze_program(&p).ok().unwrap();
    assert_eq!(sem.errors.len(), 1);
    match &sem.errors[0] {
        SemanticError::InconsistentElementType { expected, actual, span } => {
            assert_eq!(*expected, Type::Number);
            assert_eq!(*actual, Type::String);
            assert_eq!(*span, Span::new(21, 24));
        }
        _ => panic!("expected an element type error"),
    }
    assert_eq!(sem.errors[0].span(), Span::new(21, 24));
    assert_eq!(sem.table.symbols[1].ty, Type::List(Box::new(Type::Number)));
}

#[test]
fn let_takes_the_type_of_its_initializer() {
    let sem = analyze_program(&program_a_b()).ok().unwrap();
    assert_eq!(sem.table.symbols[0].ty, Type::Function);
    assert_eq!(sem.table.symbols[1].ty, Type::Number);
    assert_eq!(sem.table.symbols[2].ty, Type::Number);
}

#[test]
fn struct_fields_and_typed_parameters() {
    // struct P { x: number } fn f(p: P) { p }
    let sd = StructDecl {
        name: bind("P", 7),
        fields: vec![FieldDecl { name: bind("x", 11), ty: TypeExpr::Number }],
        span: Span::new(0, 22),
    };
    let params = vec![Param { name: bind("p", 28), ty: TypeExpr::Named(reference("P", 31)) }];
    let p = Program {
        items: vec![Item::Struct(sd), func("f", 26, params, local("p", 36), 23, 38)],
    };
    let sem = analyze_program(&p).ok().unwrap();
    let syms = &sem.table.symbols;
    assert_eq!(syms[0].kind, SymbolKind::Struct);
    assert_eq!(syms[0].ty, Type::Struct(0));
    assert_eq!(syms[2].kind, SymbolKind::Field);
    assert_eq!(syms[2].ty, Type::Number);
    assert_eq!(syms[3].kind, SymbolKind::Parameter);
    assert_eq!(syms[3].ty, Type::Struct(0));
    assert_eq!(sem.table.references[0].symbol_id, Some(0));
}

#[test]
fn duplicate_span_aborts_the_pass() {
    // two functions claiming the same name span
    let p = Program {
        items: vec![func("f", 3, vec![], num(1, 8, 9), 0, 10), func("f", 3, vec![], num(1, 8, 9), 0, 10)],
    };
    match analyze_program(&p) {
        Err(e) => assert_eq!(e, ConsistencyError::DuplicateSpan(Span::new(3, 4))),
        Ok(_) => panic!("expected the pass to abort"),
    }
}

#[test]
fn table_refuses_a_taken_span() {
    let mut t = SymbolTable::new();
    assert_eq!(t.add_symbol(Span::new(0, 1), "a".to_string(), SymbolKind::Variable, Type::Unknown), Ok(0));
    assert_eq!(
        t.add_reference(Span::new(0, 1), "a".to_string(), Some(0)),
        Err(ConsistencyError::DuplicateSpan(Span::new(0, 1)))
    );
    assert_eq!(t.add_reference(Span::new(4, 5), "a".to_string(), Some(0)), Ok(0));
    assert_eq!(t.add_reference(Span::new(8, 9), "a".to_string(), Some(0)), Ok(1));
    assert_eq!(t.references_of(0), vec![0, 1]);
    assert_eq!(t.references_of(7), Vec::<usize>::new());
    assert!(t.is_span_taken(Span::new(4, 5)));
    assert!(!t.is_span_taken(Span::new(4, 6)));
}

#[test]
fn environment_search_takes_the_latest_binding() {
    let mut env = im_rc::Vector::new();
    env.push_back(("x".to_string(), 0usize));
    env.push_back(("y".to_string(), 1usize));
    env.push_back(("x".to_string(), 2usize));
    assert_eq!(find_symbol(&env, &"x".to_string()), Some(2));
    assert_eq!(find_symbol(&env, &"y".to_string()), Some(1));
    assert_eq!(find_symbol(&env, &"z".to_string()), None);
}

#[test]
fn types_compare_and_copy() {
    let t = Type::List(Box::new(Type::Struct(3)));
    assert!(t.same(&t.copy()));
    assert!(!t.same(&Type::List(Box::new(Type::Struct(4)))));
    assert_eq!(t.clone(), t);
}
