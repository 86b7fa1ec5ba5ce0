use nrs_language_server::ast::{
    Expr, ExprKind, FieldDecl, Func, IdentBinding, IdentReference, Item, LetExpr, Literal, NumeralLiteral,
    Param, Program, StructDecl, TypeExpr,
};
use nrs_language_server::by_start::sort_by_start;
use nrs_language_server::completion::completion;
use nrs_language_server::interval_index::{IdentIndex, IdentType};
use nrs_language_server::reference::{get_reference, rename, RenameError};
use nrs_language_server::semantic_analyze::{analyze_program, Type};
use nrs_language_server::semantic_token::{
    encode_tokens, offset_to_position, semantic_tokens, span_to_range, SemanticToken, TokenPosition,
};
use nrs_language_server::session::{compile, replaces, DocumentState, SyntaxError};
use nrs_language_server::span::Span;
use nrs_language_server::symbol_table::SymbolKind;

fn bind(name: &str, start: usize) -> IdentBinding {
    IdentBinding { name: name.to_string(), span: Span::new(start, start + name.len()) }
}

fn reference(name: &str, start: usize) -> IdentReference {
    IdentReference { name: name.to_string(), span: Span::new(start, start + name.len()) }
}

fn local(name: &str, start: usize) -> Expr {
    Expr { kind: ExprKind::Local(reference(name, start)), span: Span::new(start, start + name.len()) }
}

fn num(value: i64, start: usize, end: usize) -> Expr {
    Expr {
        kind: ExprKind::Literal(Literal::NumeralLiteral(NumeralLiteral { span: Span::new(start, end), value })),
        span: Span::new(start, end),
    }
}

fn let_expr(name: &str, at: usize, init: Expr, body: Expr, start: usize, end: usize) -> Expr {
    Expr {
        kind: ExprKind::Let(LetExpr { name: bind(name, at), init: Box::new(init), body: Box::new(body) }),
        span: Span::new(start, end),
    }
}

fn then(a: Expr, b: Expr) -> Expr {
    let span = Span::new(a.span.start, b.span.end);
    Expr { kind: ExprKind::Then(Box::new(a), Box::new(b)), span }
}

fn func(name: &str, at: usize, params: Vec<Param>, body: Expr, start: usize, end: usize) -> Item {
    Item::Func(Func { name: bind(name, at), params, body, span: Span::new(start, end) })
}

const AB_TEXT: &str = "fn test() { let a = 3; let b = a; b }";

fn program_a_b() -> Program {
    let body = let_expr(
        "a",
        16,
        num(3, 20, 21),
        let_expr("b", 27, local("a", 31), local("b", 34), 23, 35),
        12,
        35,
    );
    Program { items: vec![func("test", 3, vec![], body, 0, 37)] }
}

// fn f() { let x = 1; x; x }
fn program_x_used_twice() -> Program {
    let body = let_expr("x", 13, num(1, 17, 18), then(local("x", 20), local("x", 23)), 9, 24);
    Program { items: vec![func("f", 3, vec![], body, 0, 26)] }
}

#[test]
fn find_references_lists_definition_then_uses() {
    let sem = analyze_program(&program_x_used_twice()).ok().unwrap();
    let with_def = get_reference(&sem, 23, true);
    assert_eq!(with_def, vec![Span::new(13, 14), Span::new(20, 21), Span::new(23, 24)]);
    let without = get_reference(&sem, 13, false);
    assert_eq!(without, vec![Span::new(20, 21), Span::new(23, 24)]);
    assert_eq!(sem.find_references(0, true), vec![Span::new(3, 4)]);
    assert_eq!(get_reference(&sem, 100, true), Vec::<Span>::new());
}

#[test]
fn find_references_spans_hold_the_name() {
    let text = "fn f() { let x = 1; x; x }";
    let sem = analyze_program(&program_x_used_twice()).ok().unwrap();
    let spans = get_reference(&sem, 20, true);
    assert_eq!(spans.len(), 1 + sem.table.references_of(1).len());
    for s in spans {
        assert_eq!(&text[s.start..s.end], "x");
    }
}

#[test]
fn goto_definition_on_a_definition_targets_itself() {
    let sem = analyze_program(&program_a_b()).ok().unwrap();
    assert_eq!(sem.goto_definition(16), Some(Span::new(16, 17)));
    assert_eq!(sem.goto_definition(31), Some(Span::new(16, 17)));
    assert_eq!(sem.goto_definition(0), None);
}

#[test]
fn rename_edits_every_reported_span() {
    let text = "fn f() { let x = 1; x; x }";
    let sem = analyze_program(&program_x_used_twice()).ok().unwrap();
    let before = get_reference(&sem, 20, true);
    let edits = rename(&sem, 20, &"y".to_string()).ok().unwrap();
    assert_eq!(edits.len(), before.len());
    let mut out = text.to_string();
    let mut ordered: Vec<_> = edits.iter().map(|e| (e.span, e.new_text.clone())).collect();
    ordered.sort_by(|a, b| b.0.start.cmp(&a.0.start));
    for (span, new_text) in ordered {
        out.replace_range(span.start..span.end, &new_text);
    }
    assert_eq!(out, "fn f() { let y = 1; y; y }");
    for s in before {
        assert_eq!(&out[s.start..s.end], "y");
    }
}

#[test]
fn rename_without_symbol_fails() {
    let sem = analyze_program(&program_x_used_twice()).ok().unwrap();
    match rename(&sem, 9, &"y".to_string()) {
        Err(e) => assert_eq!(e, RenameError::NoRenameableSymbol),
        Ok(_) => panic!("nothing is renameable there"),
    }
}

#[test]
fn completion_offers_every_symbol_by_default() {
    let p = program_a_b();
    let sem = analyze_program(&p).ok().unwrap();
    let items = completion(&p, &sem, 20);
    let names: Vec<&str> = items.iter().map(|c| c.name.as_str()).collect();
    assert_eq!(names, vec!["test", "a", "b"]);
    assert_eq!(items[0].kind, SymbolKind::Function);
    assert_eq!(items[1].ty, Type::Number);
    // outside any function
    assert_eq!(completion(&p, &sem, 200).len(), 3);
}

// struct P { x: number, q: Q } struct Q { z: bool } fn f(p: P) { p.q.z }
fn program_with_fields() -> Program {
    let p_decl = StructDecl {
        name: bind("P", 7),
        fields: vec![
            FieldDecl { name: bind("x", 11), ty: TypeExpr::Number },
            FieldDecl { name: bind("q", 22), ty: TypeExpr::Named(reference("Q", 25)) },
        ],
        span: Span::new(0, 28),
    };
    let q_decl = StructDecl {
        name: bind("Q", 36),
        fields: vec![FieldDecl { name: bind("z", 40), ty: TypeExpr::Bool }],
        span: Span::new(29, 49),
    };
    let p_use = local("p", 63);
    let pq = Expr { kind: ExprKind::Field(Box::new(p_use), reference("q", 65)), span: Span::new(63, 66) };
    let pqz = Expr { kind: ExprKind::Field(Box::new(pq), reference("z", 67)), span: Span::new(63, 68) };
    let params = vec![Param { name: bind("p", 55), ty: TypeExpr::Named(reference("P", 58)) }];
    Program { items: vec![Item::Struct(p_decl), Item::Struct(q_decl), func("f", 53, params, pqz, 50, 70)] }
}

#[test]
fn completion_in_field_access_offers_struct_fields() {
    let p = program_with_fields();
    let sem = analyze_program(&p).ok().unwrap();
    // on `q` of `p.q`: the fields of P
    let on_q = completion(&p, &sem, 65);
    let names: Vec<&str> = on_q.iter().map(|c| c.name.as_str()).collect();
    assert_eq!(names, vec!["x", "q"]);
    assert_eq!(on_q[0].kind, SymbolKind::Field);
    assert_eq!(on_q[0].ty, Type::Number);
    // on `z` of `p.q.z`: the fields of Q, one hop further
    let on_z = completion(&p, &sem, 67);
    let names: Vec<&str> = on_z.iter().map(|c| c.name.as_str()).collect();
    assert_eq!(names, vec!["z"]);
    assert_eq!(on_z[0].ty, Type::Bool);
}

#[test]
fn completion_on_field_of_non_struct_gives_nothing() {
    // fn f() { let n = 1; n.k }
    let access = Expr { kind: ExprKind::Field(Box::new(local("n", 20)), reference("k", 22)), span: Span::new(20, 23) };
    let p = Program { items: vec![func("f", 3, vec![], let_expr("n", 13, num(1, 17, 18), access, 9, 23), 0, 25)] };
    let sem = analyze_program(&p).ok().unwrap();
    assert!(completion(&p, &sem, 22).is_empty());
}

#[test]
fn semantic_tokens_on_one_line() {
    let sem = analyze_program(&program_a_b()).ok().unwrap();
    let tokens = semantic_tokens(&sem, AB_TEXT, None).unwrap();
    let expected = vec![
        SemanticToken { delta_line: 0, delta_start: 3, length: 4, token_type: SymbolKind::Function },
        SemanticToken { delta_line: 0, delta_start: 13, length: 1, token_type: SymbolKind::Variable },
        SemanticToken { delta_line: 0, delta_start: 11, length: 1, token_type: SymbolKind::Variable },
        SemanticToken { delta_line: 0, delta_start: 4, length: 1, token_type: SymbolKind::Variable },
        SemanticToken { delta_line: 0, delta_start: 3, length: 1, token_type: SymbolKind::Variable },
    ];
    assert_eq!(tokens, expected);
    assert_eq!(semantic_tokens(&sem, AB_TEXT, None).unwrap(), tokens);
}

#[test]
fn semantic_tokens_across_lines() {
    // "fn f() {\n  let x = 1;\n  x\n}"
    let text = "fn f() {\n  let x = 1;\n  x\n}";
    let body = let_expr("x", 15, num(1, 19, 20), local("x", 24), 11, 25);
    let p = Program { items: vec![func("f", 3, vec![], body, 0, 27)] };
    let sem = analyze_program(&p).ok().unwrap();
    let tokens = semantic_tokens(&sem, text, None).unwrap();
    let expected = vec![
        SemanticToken { delta_line: 0, delta_start: 3, length: 1, token_type: SymbolKind::Function },
        SemanticToken { delta_line: 1, delta_start: 6, length: 1, token_type: SymbolKind::Variable },
        SemanticToken { delta_line: 1, delta_start: 2, length: 1, token_type: SymbolKind::Variable },
    ];
    assert_eq!(tokens, expected);
    // only the tokens that start in [10, 30)
    let ranged = semantic_tokens(&sem, text, Some(Span::new(10, 30))).unwrap();
    assert_eq!(ranged.len(), 2);
    assert_eq!(ranged[0], SemanticToken { delta_line: 1, delta_start: 6, length: 1, token_type: SymbolKind::Variable });
}

#[test]
fn semantic_tokens_skip_unresolved_uses() {
    // fn test() { c }
    let p = Program { items: vec![func("test", 3, vec![], local("c", 12), 0, 15)] };
    let sem = analyze_program(&p).ok().unwrap();
    let tokens = semantic_tokens(&sem, "fn test() { c }", None).unwrap();
    assert_eq!(tokens.len(), 1);
}

#[test]
fn semantic_tokens_outside_the_text_are_refused() {
    let sem = analyze_program(&program_a_b()).ok().unwrap();
    assert_eq!(semantic_tokens(&sem, "fn", None), None);
}

#[test]
fn encoding_is_relative() {
    let ps = vec![
        TokenPosition { line: 2, col: 4, length: 3, kind: SymbolKind::Struct },
        TokenPosition { line: 2, col: 9, length: 1, kind: SymbolKind::Field },
        TokenPosition { line: 5, col: 1, length: 2, kind: SymbolKind::Parameter },
    ];
    let out = encode_tokens(&ps);
    assert_eq!(out[0], SemanticToken { delta_line: 2, delta_start: 4, length: 3, token_type: SymbolKind::Struct });
    assert_eq!(out[1], SemanticToken { delta_line: 0, delta_start: 5, length: 1, token_type: SymbolKind::Field });
    assert_eq!(out[2], SemanticToken { delta_line: 3, delta_start: 1, length: 2, token_type: SymbolKind::Parameter });
    assert!(encode_tokens(&vec![]).is_empty());
}

#[test]
fn index_query_returns_containing_spans_by_start() {
    let ix = IdentIndex::build(vec![
        (10, 20, IdentType::Reference(0)),
        (0, 30, IdentType::Binding(0)),
        (12, 14, IdentType::Binding(1)),
        (40, 41, IdentType::Reference(1)),
    ]);
    let hits = ix.query(13);
    assert_eq!(
        hits,
        vec![(0, 30, IdentType::Binding(0)), (10, 20, IdentType::Reference(0)), (12, 14, IdentType::Binding(1))]
    );
    assert_eq!(ix.query(20), vec![(0, 30, IdentType::Binding(0))]);
    assert!(ix.query(35).is_empty());
    assert!(ix.query(usize::MAX).is_empty());
}

#[test]
fn sort_by_start_is_stable() {
    let items = vec![(5, 6, 'a'), (1, 2, 'b'), (5, 9, 'c'), (0, 1, 'd')];
    assert_eq!(sort_by_start(&items), vec![(0, 1, 'd'), (1, 2, 'b'), (5, 6, 'a'), (5, 9, 'c')]);
}

#[test]
fn compile_keeps_text_and_errors() {
    let errors = vec![SyntaxError { span: Span::new(0, 1), message: "unexpected token".to_string() }];
    let c = compile(AB_TEXT.to_string(), program_a_b(), errors).ok().unwrap();
    assert_eq!(c.text, AB_TEXT);
    assert_eq!(c.syntax_errors.len(), 1);
    assert_eq!(c.semantic.table.symbols.len(), 3);
    let doc = DocumentState { version: 1, result: c };
    assert_eq!(doc.goto_definition(34), Some(Span::new(27, 28)));
    assert_eq!(doc.find_references(16, true), vec![Span::new(16, 17), Span::new(31, 32)]);
    assert_eq!(doc.rename(16, &"z".to_string()).ok().unwrap().len(), 2);
    assert_eq!(doc.completion(20).len(), 3);
    assert_eq!(doc.semantic_tokens(None).unwrap().len(), 5);
}

#[test]
fn newer_versions_replace_older_ones() {
    assert!(replaces(None, 0));
    assert!(replaces(Some(3), 3));
    assert!(replaces(Some(3), 4));
    assert!(!replaces(Some(3), 2));
}

#[test]
fn renamed_program_has_as_many_references() {
    let sem = analyze_program(&program_x_used_twice()).ok().unwrap();
    let before = get_reference(&sem, 20, true).len();
    // the program after renaming `x` to `y`
    let body = let_expr("y", 13, num(1, 17, 18), then(local("y", 20), local("y", 23)), 9, 24);
    let renamed = Program { items: vec![func("f", 3, vec![], body, 0, 26)] };
    let after = analyze_program(&renamed).ok().unwrap();
    assert_eq!(get_reference(&after, 13, true).len(), before);
    assert!(after.errors.is_empty());
}

#[test]
fn offsets_become_lines_and_columns() {
    let text = "ab\ncd\n";
    assert_eq!(offset_to_position(text, 0), Some((0, 0)));
    assert_eq!(offset_to_position(text, 4), Some((1, 1)));
    assert_eq!(offset_to_position(text, 6), Some((2, 0)));
    assert_eq!(offset_to_position(text, 7), None);
    assert_eq!(span_to_range(text, Span::new(1, 5)), Some(((0, 1), (1, 2))));
    assert_eq!(span_to_range(text, Span::new(1, 9)), None);
}

#[test]
fn point_queries_find_definitions_and_uses() {
    let sem = analyze_program(&program_a_b()).ok().unwrap();
    assert_eq!(sem.get_symbol_at(3), Some(0));
    assert_eq!(sem.get_symbol_at(6), Some(0));
    assert_eq!(sem.get_symbol_at(7), None);
    assert_eq!(sem.get_symbol_at(27), Some(2));
    assert_eq!(sem.get_reference_at(31), Some(0));
    assert_eq!(sem.get_reference_at(27), None);
    assert_eq!(sem.symbol_at_offset(31), Some(1));
    assert_eq!(sem.symbol_at_offset(22), None);
}
