use vstd::prelude::*;
use crate::span::Span;
use crate::ast::{BinaryOp, Expr, ExprKind, FieldDecl, IdentReference, Item, LetExpr, Literal, Param, Program, TypeExpr};
use crate::symbol_table::{
    span_taken, ConsistencyError, ReferenceView, SymbolId, SymbolKind, SymbolTable, SymbolView,
};
use crate::env::{env_clone, env_get, env_items, env_len, env_new, env_push};
use crate::interval_index::{index_items, IdentIndex, IdentType};
use im_rc::Vector;

verus! {

/// The closed type lattice; `Unknown` is what cannot be inferred locally.
/// A struct type names the struct's symbol.
#[derive(Debug)]
pub enum Type {
    Number,
    String,
    Bool,
    Null,
    Function,
    List(Box<Type>),
    Struct(usize),
    Unknown,
}

impl Type {
    /// A value equal to `self`.
    pub fn copy(&self) -> (r: Type)
        ensures
            r == *self,
        decreases self,
    {
        match self {
            Type::Number => Type::Number,
            Type::String => Type::String,
            Type::Bool => Type::Bool,
            Type::Null => Type::Null,
            Type::Function => Type::Function,
            Type::List(t) => Type::List(Box::new(t.copy())),
            Type::Struct(s) => Type::Struct(*s),
            Type::Unknown => Type::Unknown,
        }
    }

    /// Whether the two types are the same.
    pub fn same(&self, o: &Type) -> (r: bool)
        ensures
            r == (*self == *o),
        decreases self,
    {
        match (self, o) {
            (Type::Number, Type::Number) => true,
            (Type::String, Type::String) => true,
            (Type::Bool, Type::Bool) => true,
            (Type::Null, Type::Null) => true,
            (Type::Function, Type::Function) => true,
            (Type::List(a), Type::List(b)) => a.same(b),
            (Type::Struct(a), Type::Struct(b)) => *a == *b,
            (Type::Unknown, Type::Unknown) => true,
            _ => false,
        }
    }
}

impl PartialEq for Type {
    fn eq(&self, o: &Type) -> (r: bool) {
        self.same(o)
    }
}

impl vstd::std_specs::cmp::PartialEqSpecImpl for Type {
    open spec fn obeys_eq_spec() -> bool {
        true
    }

    open spec fn eq_spec(&self, o: &Type) -> bool {
        *self == *o
    }
}

impl Eq for Type {
}

impl Clone for Type {
    fn clone(&self) -> (r: Type)
        ensures
            r == *self,
    {
        self.copy()
    }
}

/// A problem found in a program; analysis goes on after each one.
pub enum SemanticError {
    UndefinedVariable { name: String, span: Span },
    InconsistentElementType { expected: Type, actual: Type, span: Span },
}

impl SemanticError {
    /// Where the problem was found.
    pub fn span(&self) -> (r: Span)
        ensures
            r == match self {
                SemanticError::UndefinedVariable { span, .. } => *span,
                SemanticError::InconsistentElementType { span, .. } => *span,
            },
    {
        match self {
            SemanticError::UndefinedVariable { span, .. } => *span,
            SemanticError::InconsistentElementType { span, .. } => *span,
        }
    }
}

/// What a semantic error is, as a mathematical value.
pub ghost enum SemanticErrorView {
    UndefinedVariable { name: Seq<char>, span: Span },
    InconsistentElementType { expected: Type, actual: Type, span: Span },
}

impl View for SemanticError {
    type V = SemanticErrorView;

    open spec fn view(&self) -> SemanticErrorView {
        match self {
            SemanticError::UndefinedVariable { name, span } => SemanticErrorView::UndefinedVariable {
                name: name@,
                span: *span,
            },
            SemanticError::InconsistentElementType { expected, actual, span } => {
                SemanticErrorView::InconsistentElementType {
                    expected: *expected,
                    actual: *actual,
                    span: *span,
                }
            },
        }
    }
}

/// The state of an analysis pass: the arenas and errors so far, and the
/// consistency error that aborted the pass, if any.
pub ghost struct Pass {
    pub symbols: Seq<SymbolView>,
    pub references: Seq<ReferenceView>,
    pub errors: Seq<SemanticErrorView>,
    pub failed: Option<ConsistencyError>,
}

/// A lexical environment: `(name, symbol)` bindings, oldest first.
pub type Env = Seq<(Seq<char>, SymbolId)>;

pub open spec fn empty_pass() -> Pass {
    Pass { symbols: Seq::empty(), references: Seq::empty(), errors: Seq::empty(), failed: None }
}

/// The symbol that `name` denotes in `env`: the most recent binding of it.
pub open spec fn lookup(env: Env, name: Seq<char>) -> Option<SymbolId>
    decreases env.len(),
{
    if env.len() == 0 {
        None
    } else if env.last().0 == name {
        Some(env.last().1)
    } else {
        lookup(env.drop_last(), name)
    }
}

/// Registering a symbol; a taken span or a full arena aborts the pass, and an
/// aborted pass registers nothing more.
pub open spec fn pass_add_symbol(st: Pass, name: Seq<char>, span: Span, kind: SymbolKind, ty: Type) -> (Pass, SymbolId) {
    if st.failed is Some {
        (st, 0)
    } else if span_taken(st.symbols, st.references, span) {
        (Pass { failed: Some(ConsistencyError::DuplicateSpan(span)), ..st }, 0)
    } else if st.symbols.len() >= usize::MAX {
        (Pass { failed: Some(ConsistencyError::ArenaFull), ..st }, 0)
    } else {
        (
            Pass { symbols: st.symbols.push(SymbolView { name, span, kind, ty }), ..st },
            st.symbols.len() as SymbolId,
        )
    }
}

/// Registering a reference, under the same rules as a symbol.
pub open spec fn pass_add_reference(st: Pass, name: Seq<char>, span: Span, target: Option<SymbolId>) -> Pass {
    if st.failed is Some {
        st
    } else if span_taken(st.symbols, st.references, span) {
        Pass { failed: Some(ConsistencyError::DuplicateSpan(span)), ..st }
    } else if st.references.len() >= usize::MAX {
        Pass { failed: Some(ConsistencyError::ArenaFull), ..st }
    } else {
        Pass { references: st.references.push(ReferenceView { name, span, symbol_id: target }), ..st }
    }
}

pub open spec fn pass_error(st: Pass, e: SemanticErrorView) -> Pass {
    Pass { errors: st.errors.push(e), ..st }
}

/// A use of a name: a reference to the symbol it denotes, or an unresolved
/// reference and an `UndefinedVariable` error.
pub open spec fn pass_use(st: Pass, env: Env, r: IdentReference) -> (Pass, Option<SymbolId>) {
    match lookup(env, r.name@) {
        Some(id) => (pass_add_reference(st, r.name@, r.span, Some(id)), Some(id)),
        None => (
            pass_error(
                pass_add_reference(st, r.name@, r.span, None),
                SemanticErrorView::UndefinedVariable { name: r.name@, span: r.span },
            ),
            None,
        ),
    }
}

pub open spec fn literal_type(l: Literal) -> Type {
    match l {
        Literal::Null(_) => Type::Null,
        Literal::Bool(_) => Type::Bool,
        Literal::NumeralLiteral(_) => Type::Number,
        Literal::StringLiteral(_) => Type::String,
    }
}

pub open spec fn binary_type(op: BinaryOp) -> Type {
    match op {
        BinaryOp::Eq | BinaryOp::NotEq => Type::Bool,
        _ => Type::Number,
    }
}

/// The type a written type denotes; a named type is a use of a name, and is a
/// struct type when that name denotes a struct.
pub open spec fn resolve_type_expr(t: TypeExpr, env: Env, st: Pass) -> (Pass, Type)
    decreases t,
{
    match t {
        TypeExpr::Number => (st, Type::Number),
        TypeExpr::String => (st, Type::String),
        TypeExpr::Bool => (st, Type::Bool),
        TypeExpr::Null => (st, Type::Null),
        TypeExpr::Function => (st, Type::Function),
        TypeExpr::List(elem) => {
            let (s1, et) = resolve_type_expr(*elem, env, st);
            (s1, Type::List(Box::new(et)))
        },
        TypeExpr::Named(r) => {
            let (s1, found) = pass_use(st, env, r);
            match found {
                Some(id) => if id < s1.symbols.len() && s1.symbols[id as int].kind == SymbolKind::Struct {
                    (s1, Type::Struct(id))
                } else {
                    (s1, Type::Unknown)
                },
                None => (s1, Type::Unknown),
            }
        },
        TypeExpr::Inferred => (st, Type::Unknown),
    }
}

/// The analysis of an expression under `env`: the state after it and the
/// expression's type.
pub open spec fn walk(e: Expr, env: Env, st: Pass) -> (Pass, Type)
    decreases e,
{
    match e.kind {
        ExprKind::Error => (st, Type::Unknown),
        ExprKind::Literal(l) => (st, literal_type(l)),
        ExprKind::List(l) => {
            let (s1, first) = walk_items(l.exprs@, env, st);
            (s1, Type::List(Box::new(match first { Some(t) => t, None => Type::Unknown })))
        },
        ExprKind::Local(r) => {
            let (s1, found) = pass_use(st, env, r);
            (
                s1,
                match found {
                    Some(id) => if id < s1.symbols.len() {
                        s1.symbols[id as int].ty
                    } else {
                        Type::Unknown
                    },
                    None => Type::Unknown,
                },
            )
        },
        ExprKind::Let(l) => {
            let (s1, t1) = walk(*l.init, env, st);
            let (s2, id) = pass_add_symbol(s1, l.name.name@, l.name.span, SymbolKind::Variable, t1);
            walk(*l.body, env.push((l.name.name@, id)), s2)
        },
        ExprKind::Then(a, b) => walk(*b, env, walk(*a, env, st).0),
        ExprKind::Binary(a, op, b) => (walk(*b, env, walk(*a, env, st).0).0, binary_type(op)),
        ExprKind::Call(callee, args) => (walk_items(args@, env, walk(*callee, env, st).0).0, Type::Unknown),
        ExprKind::If(c, t, f) => {
            let s1 = walk(*c, env, st).0;
            let (s2, tt) = walk(*t, env, s1);
            let (s3, tf) = walk(*f, env, s2);
            (s3, if tt == tf { tt } else { Type::Unknown })
        },
        ExprKind::Print(x) => (walk(*x, env, st).0, Type::Null),
        ExprKind::Field(obj, _) => (walk(*obj, env, st).0, Type::Unknown),
    }
}

/// The analysis of expressions in order under one `env`, with the type of the
/// first; each later one whose known type differs from a known first type
/// adds an `InconsistentElementType` error.
pub open spec fn walk_items(es: Seq<Expr>, env: Env, st: Pass) -> (Pass, Option<Type>)
    decreases es,
{
    if es.len() == 0 {
        (st, None)
    } else {
        let (s1, first) = walk_items(es.drop_last(), env, st);
        let (s2, t) = walk(es.last(), env, s1);
        match first {
            None => (s2, Some(t)),
            Some(t0) => if t0 != Type::Unknown && t != Type::Unknown && t != t0 {
                (
                    pass_error(
                        s2,
                        SemanticErrorView::InconsistentElementType {
                            expected: t0,
                            actual: t,
                            span: es.last().span,
                        },
                    ),
                    Some(t0),
                )
            } else {
                (s2, Some(t0))
            },
        }
    }
}

/// Every symbol that `env` binds lies below `n`.
pub open spec fn env_within(env: Env, n: nat) -> bool {
    forall|i: int| 0 <= i < env.len() ==> (#[trigger] env[i]).1 < n
}

proof fn lemma_lookup_within(env: Env, name: Seq<char>, n: nat)
    requires
        env_within(env, n),
    ensures
        lookup(env, name) matches Some(id) ==> id < n,
    decreases env.len(),
{
    if env.len() > 0 {
        lemma_lookup_within(env.drop_last(), name, n);
    }
}

/// The state of one analysis pass.
pub struct Ctx {
    pub table: SymbolTable,
    pub errors: Vec<SemanticError>,
    pub failed: Option<ConsistencyError>,
}

impl Ctx {
    pub open spec fn pass(&self) -> Pass {
        Pass {
            symbols: self.table.syms(),
            references: self.table.refs(),
            errors: self.errors@.map_values(|e: SemanticError| e@),
            failed: self.failed,
        }
    }

    fn add_symbol(&mut self, name: String, span: Span, kind: SymbolKind, ty: Type) -> (r: SymbolId)
        requires
            old(self).table.wf(),
        ensures
            final(self).table.wf(),
            old(self).failed is Some ==> final(self).failed is Some,
            final(self).failed is None ==> old(self).failed is None,
            (final(self).pass(), r) == pass_add_symbol(old(self).pass(), name@, span, kind, ty),
            final(self).table.symbols.len() >= old(self).table.symbols.len(),
            final(self).failed is None ==> r < final(self).table.symbols.len(),
    {
        if self.failed.is_some() {
            return 0;
        }
        let r = self.table.add_symbol(span, name, kind, ty);
        assert(self.table.syms().len() == self.table.symbols@.len());
        assert(old(self).table.syms().len() == old(self).table.symbols@.len());
        match r {
            Ok(id) => id,
            Err(e) => {
                self.failed = Some(e);
                0
            },
        }
    }

    fn add_reference(&mut self, name: String, span: Span, target: Option<SymbolId>)
        requires
            old(self).table.wf(),
            old(self).failed is None ==> (target matches Some(s) ==> s < old(self).table.symbols.len()),
        ensures
            final(self).table.wf(),
            old(self).failed is Some ==> final(self).failed is Some,
            final(self).pass() == pass_add_reference(old(self).pass(), name@, span, target),
            final(self).table.symbols.len() == old(self).table.symbols.len(),
    {
        if self.failed.is_some() {
            return;
        }
        let r = self.table.add_reference(span, name, target);
        assert(self.table.syms().len() == self.table.symbols@.len());
        assert(old(self).table.syms().len() == old(self).table.symbols@.len());
        match r {
            Ok(_) => {},
            Err(e) => {
                self.failed = Some(e);
            },
        }
    }

    fn error(&mut self, e: SemanticError)
        ensures
            final(self).table == old(self).table,
            final(self).pass() == pass_error(old(self).pass(), e@),
    {
        let ghost v = e@;
        self.errors.push(e);
        assert(self.errors@.map_values(|e: SemanticError| e@) =~= old(self).errors@.map_values(
            |e: SemanticError| e@,
        ).push(v));
    }
}

/// The symbol that `name` denotes in `env`, searching from the most recent
/// binding back.
pub fn find_symbol(env: &Vector<(String, SymbolId)>, name: &String) -> (r: Option<SymbolId>)
    ensures
        r == lookup(env_items(*env), name@),
{
    let ghost items = env_items(*env);
    let mut i = env_len(env);
    assert(items.take(i as int) =~= items);
    while i > 0
        invariant
            items == env_items(*env),
            i <= items.len(),
            lookup(items, name@) == lookup(items.take(i as int), name@),
        decreases i,
    {
        let entry = env_get(env, i - 1);
        proof {
            assert(items.take(i as int).drop_last() =~= items.take(i - 1));
            assert(items.take(i as int).last() == items[i - 1]);
        }
        if entry.0 == *name {
            return Some(entry.1);
        }
        i -= 1;
    }
    None
}

/// A use of a name under `env`.
fn resolve_use(ctx: &mut Ctx, env: &Vector<(String, SymbolId)>, r: &IdentReference) -> (found: Option<SymbolId>)
    requires
        old(ctx).table.wf(),
        old(ctx).failed is None ==> env_within(env_items(*env), old(ctx).table.symbols.len() as nat),
    ensures
        final(ctx).table.wf(),
        old(ctx).failed is Some ==> final(ctx).failed is Some,
        (final(ctx).pass(), found) == pass_use(old(ctx).pass(), env_items(*env), *r),
        final(ctx).table.symbols.len() == old(ctx).table.symbols.len(),
        old(ctx).failed is None ==> (found matches Some(id) ==> id < final(ctx).table.symbols.len()),
{
    let found = find_symbol(env, &r.name);
    proof {
        if ctx.failed is None {
            lemma_lookup_within(env_items(*env), r.name@, ctx.table.symbols.len() as nat);
        }
    }
    match found {
        Some(id) => {
            ctx.add_reference(r.name.clone(), r.span, Some(id));
        },
        None => {
            ctx.add_reference(r.name.clone(), r.span, None);
            ctx.error(SemanticError::UndefinedVariable { name: r.name.clone(), span: r.span });
        },
    }
    found
}

/// The type that a written type denotes.
fn resolve_type(ctx: &mut Ctx, env: &Vector<(String, SymbolId)>, t: &TypeExpr) -> (r: Type)
    requires
        old(ctx).table.wf(),
        old(ctx).failed is None ==> env_within(env_items(*env), old(ctx).table.symbols.len() as nat),
    ensures
        final(ctx).table.wf(),
        old(ctx).failed is Some ==> final(ctx).failed is Some,
        (final(ctx).pass(), r) == resolve_type_expr(*t, env_items(*env), old(ctx).pass()),
        final(ctx).table.symbols.len() == old(ctx).table.symbols.len(),
    decreases t,
{
    match t {
        TypeExpr::Number => Type::Number,
        TypeExpr::String => Type::String,
        TypeExpr::Bool => Type::Bool,
        TypeExpr::Null => Type::Null,
        TypeExpr::Function => Type::Function,
        TypeExpr::List(elem) => {
            let et = resolve_type(ctx, env, elem);
            Type::List(Box::new(et))
        },
        TypeExpr::Named(r) => {
            match resolve_use(ctx, env, r) {
                Some(id) => {
                    if id < ctx.table.symbols.len() && ctx.table.symbols[id].kind == SymbolKind::Struct {
                        Type::Struct(id)
                    } else {
                        Type::Unknown
                    }
                },
                None => Type::Unknown,
            }
        },
        TypeExpr::Inferred => Type::Unknown,
    }
}

fn literal_type_of(l: &Literal) -> (r: Type)
    ensures
        r == literal_type(*l),
{
    match l {
        Literal::Null(_) => Type::Null,
        Literal::Bool(_) => Type::Bool,
        Literal::NumeralLiteral(_) => Type::Number,
        Literal::StringLiteral(_) => Type::String,
    }
}

fn binary_type_of(op: BinaryOp) -> (r: Type)
    ensures
        r == binary_type(op),
{
    match op {
        BinaryOp::Eq | BinaryOp::NotEq => Type::Bool,
        _ => Type::Number,
    }
}

/// Analyzes `e` under `env`, recording its symbols, references and errors in
/// `ctx`, and returns its type.
fn analyze_expr(ctx: &mut Ctx, env: &Vector<(String, SymbolId)>, e: &Expr) -> (r: Type)
    requires
        old(ctx).table.wf(),
        old(ctx).failed is None ==> env_within(env_items(*env), old(ctx).table.symbols.len() as nat),
    ensures
        final(ctx).table.wf(),
        old(ctx).failed is Some ==> final(ctx).failed is Some,
        (final(ctx).pass(), r) == walk(*e, env_items(*env), old(ctx).pass()),
        final(ctx).table.symbols.len() >= old(ctx).table.symbols.len(),
    decreases e,
{
    match &e.kind {
        ExprKind::Error => Type::Unknown,
        ExprKind::Literal(l) => literal_type_of(l),
        ExprKind::List(l) => {
            let first = analyze_items(ctx, env, &l.exprs);
            match first {
                Some(t) => Type::List(Box::new(t)),
                None => Type::List(Box::new(Type::Unknown)),
            }
        },
        ExprKind::Local(r) => {
            match resolve_use(ctx, env, r) {
                Some(id) => if id < ctx.table.symbols.len() {
                    ctx.table.symbols[id].ty.copy()
                } else {
                    Type::Unknown
                },
                None => Type::Unknown,
            }
        },
        ExprKind::Let(l) => {
            let t1 = analyze_expr(ctx, env, &l.init);
            let id = ctx.add_symbol(l.name.name.clone(), l.name.span, SymbolKind::Variable, t1);
            let mut inner = env_clone(env);
            env_push(&mut inner, (l.name.name.clone(), id));
            proof {
                if ctx.failed is None {
                    let items = env_items(inner);
                    assert forall|k: int| 0 <= k < items.len() implies (#[trigger] items[k]).1
                        < ctx.table.symbols.len() by {
                        if k < items.len() - 1 {
                            assert(items[k] == env_items(*env)[k]);
                        }
                    }
                }
            }
            analyze_expr(ctx, &inner, &l.body)
        },
        ExprKind::Then(a, b) => {
            analyze_expr(ctx, env, a);
            analyze_expr(ctx, env, b)
        },
        ExprKind::Binary(a, op, b) => {
            analyze_expr(ctx, env, a);
            analyze_expr(ctx, env, b);
            binary_type_of(*op)
        },
        ExprKind::Call(callee, args) => {
            analyze_expr(ctx, env, callee);
            analyze_items(ctx, env, args);
            Type::Unknown
        },
        ExprKind::If(c, t, f) => {
            analyze_expr(ctx, env, c);
            let tt = analyze_expr(ctx, env, t);
            let tf = analyze_expr(ctx, env, f);
            if tt.same(&tf) {
                tt
            } else {
                Type::Unknown
            }
        },
        ExprKind::Print(x) => {
            analyze_expr(ctx, env, x);
            Type::Null
        },
        ExprKind::Field(obj, _) => {
            analyze_expr(ctx, env, obj);
            Type::Unknown
        },
    }
}

/// Analyzes `es` in order under `env` and returns the type of the first.
fn analyze_items(ctx: &mut Ctx, env: &Vector<(String, SymbolId)>, es: &Vec<Expr>) -> (r: Option<Type>)
    requires
        old(ctx).table.wf(),
        old(ctx).failed is None ==> env_within(env_items(*env), old(ctx).table.symbols.len() as nat),
    ensures
        final(ctx).table.wf(),
        old(ctx).failed is Some ==> final(ctx).failed is Some,
        (final(ctx).pass(), r) == walk_items(es@, env_items(*env), old(ctx).pass()),
        final(ctx).table.symbols.len() >= old(ctx).table.symbols.len(),
    decreases es,
{
    let mut first: Option<Type> = None;
    let mut i: usize = 0;
    while i < es.len()
        invariant
            i <= es.len(),
            ctx.table.wf(),
            (ctx.pass(), first) == walk_items(es@.take(i as int), env_items(*env), old(ctx).pass()),
            ctx.table.symbols.len() >= old(ctx).table.symbols.len(),
            old(ctx).failed is None ==> env_within(env_items(*env), old(ctx).table.symbols.len() as nat),
            old(ctx).failed is Some ==> ctx.failed is Some,
        decreases es.len() - i,
    {
        proof {
            assert(es@.take(i + 1).drop_last() =~= es@.take(i as int));
            assert(es@.take(i + 1).last() == es@[i as int]);
            if ctx.failed is None {
                assert(env_within(env_items(*env), ctx.table.symbols.len() as nat));
            }
        }
        let t = analyze_expr(ctx, env, &es[i]);
        match &first {
            None => {
                first = Some(t);
            },
            Some(t0) => {
                let unknown0 = match t0 { Type::Unknown => true, _ => false };
                let unknown = match t { Type::Unknown => true, _ => false };
                if !unknown0 && !unknown && !t.same(t0) {
                    ctx.error(SemanticError::InconsistentElementType {
                        expected: t0.copy(),
                        actual: t,
                        span: es[i].span,
                    });
                }
            },
        }
        i += 1;
    }
    assert(es@.take(es.len() as int) =~= es@);
    first
}

/// Registers every top-level name, in order, before any body is analyzed;
/// a struct's type names its own symbol.
pub open spec fn hoist(items: Seq<Item>, st: Pass, env: Env) -> (Pass, Env)
    decreases items.len(),
{
    if items.len() == 0 {
        (st, env)
    } else {
        let (s1, e1) = hoist(items.drop_last(), st, env);
        let (s2, id) = match items.last() {
            Item::Func(f) => pass_add_symbol(s1, f.name.name@, f.name.span, SymbolKind::Function, Type::Function),
            Item::Struct(sd) => pass_add_symbol(
                s1,
                sd.name.name@,
                sd.name.span,
                SymbolKind::Struct,
                Type::Struct(s1.symbols.len() as SymbolId),
            ),
        };
        (s2, e1.push((items.last().binding().name@, id)))
    }
}

/// Registers a struct's fields with their declared types.
pub open spec fn fields_pass(fs: Seq<FieldDecl>, env: Env, st: Pass) -> Pass
    decreases fs.len(),
{
    if fs.len() == 0 {
        st
    } else {
        let s1 = fields_pass(fs.drop_last(), env, st);
        let (s2, t) = resolve_type_expr(fs.last().ty, env, s1);
        pass_add_symbol(s2, fs.last().name.name@, fs.last().name.span, SymbolKind::Field, t).0
    }
}

/// Registers a function's parameters in order, each visible to the later
/// parameters' types and to the body.
pub open spec fn params_pass(ps: Seq<Param>, env: Env, st: Pass) -> (Pass, Env)
    decreases ps.len(),
{
    if ps.len() == 0 {
        (st, env)
    } else {
        let (s1, e1) = params_pass(ps.drop_last(), env, st);
        let (s2, t) = resolve_type_expr(ps.last().ty, e1, s1);
        let (s3, id) = pass_add_symbol(s2, ps.last().name.name@, ps.last().name.span, SymbolKind::Parameter, t);
        (s3, e1.push((ps.last().name.name@, id)))
    }
}

pub open spec fn item_pass(it: Item, env: Env, st: Pass) -> Pass {
    match it {
        Item::Struct(sd) => fields_pass(sd.fields@, env, st),
        Item::Func(f) => {
            let (s1, e1) = params_pass(f.params@, env, st);
            walk(f.body, e1, s1).0
        },
    }
}

pub open spec fn items_pass(items: Seq<Item>, env: Env, st: Pass) -> Pass
    decreases items.len(),
{
    if items.len() == 0 {
        st
    } else {
        item_pass(items.last(), env, items_pass(items.drop_last(), env, st))
    }
}

/// The analysis of a whole program.
pub open spec fn analyze(p: Program) -> Pass {
    let (s, env) = hoist(p.items@, empty_pass(), Seq::empty());
    items_pass(p.items@, env, s)
}

/// The tagged spans of a table: each symbol's span as a binding, then each
/// reference's span as a use.
pub open spec fn index_entries(syms: Seq<SymbolView>, refs: Seq<ReferenceView>) -> Seq<(usize, usize, IdentType)> {
    Seq::new(syms.len(), |i: int| (syms[i].span.start, syms[i].span.end, IdentType::Binding(i as usize)))
        + Seq::new(refs.len(), |j: int| (refs[j].span.start, refs[j].span.end, IdentType::Reference(j as usize)))
}

/// A compiled program: its symbol table, its semantic errors, and the index
/// over every identifier span.
pub struct Semantic {
    pub table: SymbolTable,
    pub ident_range: IdentIndex,
    pub errors: Vec<SemanticError>,
}

impl Semantic {
    pub open spec fn wf(&self) -> bool {
        &&& self.table.wf()
        &&& index_items(self.ident_range) == index_entries(self.table.syms(), self.table.refs()).to_multiset()
    }

    pub open spec fn error_views(&self) -> Seq<SemanticErrorView> {
        self.errors@.map_values(|e: SemanticError| e@)
    }
}

fn build_index(table: &SymbolTable) -> (r: IdentIndex)
    ensures
        index_items(r) == index_entries(table.syms(), table.refs()).to_multiset(),
{
    let mut entries: Vec<(usize, usize, IdentType)> = Vec::new();
    let mut i: usize = 0;
    while i < table.symbols.len()
        invariant
            i <= table.symbols.len(),
            entries@ == Seq::new(i as nat, |k: int| (table.syms()[k].span.start, table.syms()[k].span.end, IdentType::Binding(k as usize))),
        decreases table.symbols.len() - i,
    {
        let span = table.symbols[i].span;
        entries.push((span.start, span.end, IdentType::Binding(i)));
        i += 1;
        assert(entries@ =~= Seq::new(i as nat, |k: int| (table.syms()[k].span.start, table.syms()[k].span.end, IdentType::Binding(k as usize))));
    }
    let mut j: usize = 0;
    while j < table.references.len()
        invariant
            j <= table.references.len(),
            i == table.symbols.len(),
            entries@ == Seq::new(i as nat, |k: int| (table.syms()[k].span.start, table.syms()[k].span.end, IdentType::Binding(k as usize)))
                + Seq::new(j as nat, |k: int| (table.refs()[k].span.start, table.refs()[k].span.end, IdentType::Reference(k as usize))),
        decreases table.references.len() - j,
    {
        let span = table.references[j].span;
        entries.push((span.start, span.end, IdentType::Reference(j)));
        j += 1;
        assert(entries@ =~= Seq::new(i as nat, |k: int| (table.syms()[k].span.start, table.syms()[k].span.end, IdentType::Binding(k as usize)))
                + Seq::new(j as nat, |k: int| (table.refs()[k].span.start, table.refs()[k].span.end, IdentType::Reference(k as usize))));
    }
    assert(entries@ =~= index_entries(table.syms(), table.refs()));
    IdentIndex::build(entries)
}

/// Resolves every name of `p`: registers top-level names first, then each
/// struct's fields and each function's parameters and body, and indexes all
/// identifier spans. Fails when two entities would share a span.
pub fn analyze_program(p: &Program) -> (r: Result<Semantic, ConsistencyError>)
    ensures
        r is Err <==> analyze(*p).failed is Some,
        r matches Err(e) ==> analyze(*p).failed == Some(e),
        r matches Ok(sem) ==> {
            &&& sem.wf()
            &&& sem.table.syms() == analyze(*p).symbols
            &&& sem.table.refs() == analyze(*p).references
            &&& sem.error_views() == analyze(*p).errors
        },
{
    let mut ctx = Ctx { table: SymbolTable::new(), errors: Vec::new(), failed: None };
    assert(ctx.pass().symbols =~= empty_pass().symbols);
    assert(ctx.pass().references =~= empty_pass().references);
    assert(ctx.pass().errors =~= empty_pass().errors);
    let ghost st0 = ctx.pass();
    let items = &p.items;
    let mut env = env_new();
    let mut i: usize = 0;
    while i < items.len()
        invariant
            i <= items.len(),
            st0 == empty_pass(),
            ctx.table.wf(),
            (ctx.pass(), env_items(env)) == hoist(items@.take(i as int), st0, Seq::empty()),
            ctx.failed is None ==> env_within(env_items(env), ctx.table.symbols.len() as nat),
        decreases items.len() - i,
    {
        proof {
            assert(items@.take(i + 1).drop_last() =~= items@.take(i as int));
            assert(items@.take(i + 1).last() == items@[i as int]);
        }
        let ghost was_failed = ctx.failed is Some;
        let name = match &items[i] {
            Item::Func(f) => &f.name,
            Item::Struct(sd) => &sd.name,
        };
        let id = match &items[i] {
            Item::Func(f) => ctx.add_symbol(f.name.name.clone(), f.name.span, SymbolKind::Function, Type::Function),
            Item::Struct(sd) => {
                let own = ctx.table.symbols.len();
                ctx.add_symbol(sd.name.name.clone(), sd.name.span, SymbolKind::Struct, Type::Struct(own))
            },
        };
        let ghost before = env_items(env);
        env_push(&mut env, (name.name.clone(), id));
        proof {
            if ctx.failed is None {
                let items_now = env_items(env);
                assert forall|k: int| 0 <= k < items_now.len() implies (#[trigger] items_now[k]).1
                    < ctx.table.symbols.len() by {
                    if k < items_now.len() - 1 {
                        assert(items_now[k] == before[k]);
                    }
                }
            }
        }
        i += 1;
    }
    assert(items@.take(items.len() as int) =~= items@);
    let ghost hoisted = ctx.pass();
    let mut k: usize = 0;
    while k < items.len()
        invariant
            k <= items.len(),
            ctx.table.wf(),
            (hoisted, env_items(env)) == hoist(items@, empty_pass(), Seq::empty()),
            ctx.pass() == items_pass(items@.take(k as int), env_items(env), hoisted),
            hoisted.failed is None ==> env_within(env_items(env), hoisted.symbols.len() as nat),
            ctx.table.symbols.len() >= hoisted.symbols.len(),
            hoisted.failed is Some ==> ctx.failed is Some,
        decreases items.len() - k,
    {
        proof {
            assert(items@.take(k + 1).drop_last() =~= items@.take(k as int));
            assert(items@.take(k + 1).last() == items@[k as int]);
            assert(ctx.table.syms().len() == ctx.table.symbols@.len());
        }
        match &items[k] {
            Item::Struct(sd) => analyze_fields(&mut ctx, &env, &sd.fields),
            Item::Func(f) => {
                let inner = analyze_params(&mut ctx, &env, &f.params);
                analyze_expr(&mut ctx, &inner, &f.body);
            },
        }
        k += 1;
    }
    assert(items@.take(items.len() as int) =~= items@);
    match ctx.failed {
        Some(e) => Err(e),
        None => {
            let ident_range = build_index(&ctx.table);
            Ok(Semantic { table: ctx.table, ident_range, errors: ctx.errors })
        },
    }
}

fn analyze_fields(ctx: &mut Ctx, env: &Vector<(String, SymbolId)>, fs: &Vec<FieldDecl>)
    requires
        old(ctx).table.wf(),
        old(ctx).failed is None ==> env_within(env_items(*env), old(ctx).table.symbols.len() as nat),
    ensures
        final(ctx).table.wf(),
        old(ctx).failed is Some ==> final(ctx).failed is Some,
        final(ctx).pass() == fields_pass(fs@, env_items(*env), old(ctx).pass()),
        final(ctx).table.symbols.len() >= old(ctx).table.symbols.len(),
{
    let mut i: usize = 0;
    while i < fs.len()
        invariant
            i <= fs.len(),
            ctx.table.wf(),
            ctx.pass() == fields_pass(fs@.take(i as int), env_items(*env), old(ctx).pass()),
            ctx.table.symbols.len() >= old(ctx).table.symbols.len(),
            old(ctx).failed is None ==> env_within(env_items(*env), old(ctx).table.symbols.len() as nat),
            old(ctx).failed is Some ==> ctx.failed is Some,
        decreases fs.len() - i,
    {
        proof {
            assert(fs@.take(i + 1).drop_last() =~= fs@.take(i as int));
            assert(fs@.take(i + 1).last() == fs@[i as int]);
            if ctx.failed is None {
                assert(env_within(env_items(*env), ctx.table.symbols.len() as nat));
            }
        }
        let t = resolve_type(ctx, env, &fs[i].ty);
        ctx.add_symbol(fs[i].name.name.clone(), fs[i].name.span, SymbolKind::Field, t);
        i += 1;
    }
    assert(fs@.take(fs.len() as int) =~= fs@);
}

/// Registers the parameters and returns the environment of the body.
fn analyze_params(ctx: &mut Ctx, env: &Vector<(String, SymbolId)>, ps: &Vec<Param>) -> (r: Vector<(String, SymbolId)>)
    requires
        old(ctx).table.wf(),
        old(ctx).failed is None ==> env_within(env_items(*env), old(ctx).table.symbols.len() as nat),
    ensures
        final(ctx).table.wf(),
        old(ctx).failed is Some ==> final(ctx).failed is Some,
        (final(ctx).pass(), env_items(r)) == params_pass(ps@, env_items(*env), old(ctx).pass()),
        final(ctx).table.symbols.len() >= old(ctx).table.symbols.len(),
        final(ctx).failed is None ==> env_within(env_items(r), final(ctx).table.symbols.len() as nat),
{
    let mut inner = env_clone(env);
    let mut i: usize = 0;
    while i < ps.len()
        invariant
            i <= ps.len(),
            ctx.table.wf(),
            (ctx.pass(), env_items(inner)) == params_pass(ps@.take(i as int), env_items(*env), old(ctx).pass()),
            ctx.table.symbols.len() >= old(ctx).table.symbols.len(),
            ctx.failed is None ==> env_within(env_items(inner), ctx.table.symbols.len() as nat),
            old(ctx).failed is Some ==> ctx.failed is Some,
        decreases ps.len() - i,
    {
        proof {
            assert(ps@.take(i + 1).drop_last() =~= ps@.take(i as int));
            assert(ps@.take(i + 1).last() == ps@[i as int]);
        }
        let t = resolve_type(ctx, &inner, &ps[i].ty);
        let id = ctx.add_symbol(ps[i].name.name.clone(), ps[i].name.span, SymbolKind::Parameter, t);
        let ghost before = env_items(inner);
        env_push(&mut inner, (ps[i].name.name.clone(), id));
        proof {
            if ctx.failed is None {
                let now = env_items(inner);
                assert forall|k: int| 0 <= k < now.len() implies (#[trigger] now[k]).1
                    < ctx.table.symbols.len() by {
                    if k < now.len() - 1 {
                        assert(now[k] == before[k]);
                    }
                }
            }
        }
        i += 1;
    }
    assert(ps@.take(ps.len() as int) =~= ps@);
    inner
}

/// Every resolution of `st` targets an existing symbol of the same name.
pub open spec fn resolutions_sound(st: Pass) -> bool {
    forall|j: int| 0 <= j < st.references.len() ==> match #[trigger] st.references[j].symbol_id {
        Some(s) => s < st.symbols.len() && st.symbols[s as int].name == st.references[j].name,
        None => true,
    }
}

/// Every binding of `env` names an existing symbol of that name.
pub open spec fn env_sound(env: Env, syms: Seq<SymbolView>) -> bool {
    forall|i: int| 0 <= i < env.len() ==> (#[trigger] env[i]).1 < syms.len() && syms[env[i].1 as int].name == env[i].0
}

/// `b` keeps every symbol of `a` where it was.
pub open spec fn grows(a: Pass, b: Pass) -> bool {
    &&& a.symbols.len() <= b.symbols.len()
    &&& forall|i: int| 0 <= i < a.symbols.len() ==> #[trigger] b.symbols[i] == a.symbols[i]
}

/// What holds of a pass before a step: its resolutions are sound and, unless
/// it has failed, so is the environment.
pub open spec fn step_ready(env: Env, st: Pass) -> bool {
    &&& resolutions_sound(st)
    &&& st.failed is None ==> env_sound(env, st.symbols)
}

proof fn lemma_lookup_sound(env: Env, syms: Seq<SymbolView>, name: Seq<char>)
    requires
        env_sound(env, syms),
    ensures
        lookup(env, name) matches Some(id) ==> id < syms.len() && syms[id as int].name == name,
    decreases env.len(),
{
    if env.len() > 0 {
        assert(env_sound(env.drop_last(), syms)) by {
            assert forall|i: int| 0 <= i < env.drop_last().len() implies (#[trigger] env.drop_last()[i]).1 < syms.len()
                && syms[env.drop_last()[i].1 as int].name == env.drop_last()[i].0 by {
                assert(env.drop_last()[i] == env[i]);
            }
        }
        lemma_lookup_sound(env.drop_last(), syms, name);
    }
}

proof fn lemma_env_sound_grows(env: Env, a: Pass, b: Pass)
    requires
        env_sound(env, a.symbols),
        grows(a, b),
    ensures
        env_sound(env, b.symbols),
{
    assert forall|i: int| 0 <= i < env.len() implies (#[trigger] env[i]).1 < b.symbols.len()
        && b.symbols[env[i].1 as int].name == env[i].0 by {
        assert(b.symbols[env[i].1 as int] == a.symbols[env[i].1 as int]);
    }
}

proof fn lemma_grows_trans(a: Pass, b: Pass, c: Pass)
    requires
        grows(a, b),
        grows(b, c),
    ensures
        grows(a, c),
{
    assert forall|i: int| 0 <= i < a.symbols.len() implies #[trigger] c.symbols[i] == a.symbols[i] by {
        assert(c.symbols[i] == b.symbols[i]);
    }
}

proof fn lemma_add_symbol_sound(st: Pass, name: Seq<char>, span: Span, kind: SymbolKind, ty: Type)
    requires
        resolutions_sound(st),
    ensures
        resolutions_sound(pass_add_symbol(st, name, span, kind, ty).0),
        grows(st, pass_add_symbol(st, name, span, kind, ty).0),
        pass_add_symbol(st, name, span, kind, ty).0.failed is None ==> {
            let (s1, id) = pass_add_symbol(st, name, span, kind, ty);
            &&& st.failed is None
            &&& id == st.symbols.len()
            &&& s1.symbols.len() == st.symbols.len() + 1
            &&& s1.symbols[id as int].name == name
            &&& s1.references == st.references
        },
        pass_add_symbol(st, name, span, kind, ty).0.references == st.references,
        st.failed is Some ==> pass_add_symbol(st, name, span, kind, ty).0.failed is Some,
{
    let s1 = pass_add_symbol(st, name, span, kind, ty).0;
    assert forall|j: int| 0 <= j < s1.references.len() implies match #[trigger] s1.references[j].symbol_id {
        Some(s) => s < s1.symbols.len() && s1.symbols[s as int].name == s1.references[j].name,
        None => true,
    } by {
        assert(s1.references[j] == st.references[j]);
        if let Some(s) = st.references[j].symbol_id {
            assert(s1.symbols[s as int] == st.symbols[s as int]);
        }
    }
}

proof fn lemma_add_symbol_env(env: Env, st: Pass, name: Seq<char>, span: Span, kind: SymbolKind, ty: Type)
    requires
        step_ready(env, st),
    ensures
        ({
            let (s1, id) = pass_add_symbol(st, name, span, kind, ty);
            step_ready(env.push((name, id)), s1)
        }),
{
    let (s1, id) = pass_add_symbol(st, name, span, kind, ty);
    lemma_add_symbol_sound(st, name, span, kind, ty);
    if s1.failed is None {
        lemma_env_sound_grows(env, st, s1);
        let e1 = env.push((name, id));
        assert forall|i: int| 0 <= i < e1.len() implies (#[trigger] e1[i]).1 < s1.symbols.len()
            && s1.symbols[e1[i].1 as int].name == e1[i].0 by {
            if i < env.len() {
                assert(e1[i] == env[i]);
            }
        }
    }
}

proof fn lemma_use_sound(st: Pass, env: Env, r: IdentReference)
    requires
        step_ready(env, st),
    ensures
        resolutions_sound(pass_use(st, env, r).0),
        pass_use(st, env, r).0.symbols == st.symbols,
        st.failed is Some ==> pass_use(st, env, r).0.failed is Some,
{
    let s1 = pass_use(st, env, r).0;
    if st.failed is None {
        lemma_lookup_sound(env, st.symbols, r.name@);
    }
    assert forall|j: int| 0 <= j < s1.references.len() implies match #[trigger] s1.references[j].symbol_id {
        Some(s) => s < s1.symbols.len() && s1.symbols[s as int].name == s1.references[j].name,
        None => true,
    } by {
        if j < st.references.len() {
            assert(s1.references[j] == st.references[j]);
        }
    }
}

proof fn lemma_resolve_type_sound(t: TypeExpr, env: Env, st: Pass)
    requires
        step_ready(env, st),
    ensures
        resolutions_sound(resolve_type_expr(t, env, st).0),
        resolve_type_expr(t, env, st).0.symbols == st.symbols,
        st.failed is Some ==> resolve_type_expr(t, env, st).0.failed is Some,
    decreases t,
{
    match t {
        TypeExpr::List(elem) => lemma_resolve_type_sound(*elem, env, st),
        TypeExpr::Named(r) => lemma_use_sound(st, env, r),
        _ => {},
    }
}

/// The analysis of an expression keeps resolutions sound and symbols in place.
proof fn lemma_walk_sound(e: Expr, env: Env, st: Pass)
    requires
        step_ready(env, st),
    ensures
        resolutions_sound(walk(e, env, st).0),
        grows(st, walk(e, env, st).0),
        st.failed is Some ==> walk(e, env, st).0.failed is Some,
    decreases e,
{
    let out = walk(e, env, st).0;
    match e.kind {
        ExprKind::List(l) => lemma_walk_items_sound(l.exprs@, env, st),
        ExprKind::Local(r) => lemma_use_sound(st, env, r),
        ExprKind::Let(l) => {
            lemma_walk_sound(*l.init, env, st);
            let (s1, t1) = walk(*l.init, env, st);
            if s1.failed is None {
                lemma_env_sound_grows(env, st, s1);
            }
            lemma_add_symbol_env(env, s1, l.name.name@, l.name.span, SymbolKind::Variable, t1);
            lemma_add_symbol_sound(s1, l.name.name@, l.name.span, SymbolKind::Variable, t1);
            let (s2, id) = pass_add_symbol(s1, l.name.name@, l.name.span, SymbolKind::Variable, t1);
            lemma_walk_sound(*l.body, env.push((l.name.name@, id)), s2);
            lemma_grows_trans(st, s1, s2);
            lemma_grows_trans(st, s2, out);
        },
        ExprKind::Then(a, b) => {
            lemma_walk_sound(*a, env, st);
            let s1 = walk(*a, env, st).0;
            if s1.failed is None {
                lemma_env_sound_grows(env, st, s1);
            }
            lemma_walk_sound(*b, env, s1);
            lemma_grows_trans(st, s1, out);
        },
        ExprKind::Binary(a, _, b) => {
            lemma_walk_sound(*a, env, st);
            let s1 = walk(*a, env, st).0;
            if s1.failed is None {
                lemma_env_sound_grows(env, st, s1);
            }
            lemma_walk_sound(*b, env, s1);
            lemma_grows_trans(st, s1, out);
        },
        ExprKind::Call(c, args) => {
            lemma_walk_sound(*c, env, st);
            let s1 = walk(*c, env, st).0;
            if s1.failed is None {
                lemma_env_sound_grows(env, st, s1);
            }
            lemma_walk_items_sound(args@, env, s1);
            lemma_grows_trans(st, s1, out);
        },
        ExprKind::If(c, t, f) => {
            lemma_walk_sound(*c, env, st);
            let s1 = walk(*c, env, st).0;
            if s1.failed is None {
                lemma_env_sound_grows(env, st, s1);
            }
            lemma_walk_sound(*t, env, s1);
            let s2 = walk(*t, env, s1).0;
            if s2.failed is None {
                lemma_env_sound_grows(env, s1, s2);
            }
            lemma_walk_sound(*f, env, s2);
            lemma_grows_trans(st, s1, s2);
            lemma_grows_trans(st, s2, out);
        },
        ExprKind::Print(x) => lemma_walk_sound(*x, env, st),
        ExprKind::Field(obj, _) => lemma_walk_sound(*obj, env, st),
        _ => {},
    }
}

proof fn lemma_walk_items_sound(es: Seq<Expr>, env: Env, st: Pass)
    requires
        step_ready(env, st),
    ensures
        resolutions_sound(walk_items(es, env, st).0),
        grows(st, walk_items(es, env, st).0),
        st.failed is Some ==> walk_items(es, env, st).0.failed is Some,
    decreases es,
{
    if es.len() > 0 {
        lemma_walk_items_sound(es.drop_last(), env, st);
        let s1 = walk_items(es.drop_last(), env, st).0;
        if s1.failed is None {
            lemma_env_sound_grows(env, st, s1);
        }
        lemma_walk_sound(es.last(), env, s1);
        lemma_grows_trans(st, s1, walk(es.last(), env, s1).0);
    }
}

/// A let's initializer is analyzed before its name is bound: no use inside
/// it, nor any earlier use, resolves to the symbol the let introduces.
pub proof fn lemma_initializer_never_self_resolves(l: LetExpr, env: Env, st: Pass)
    requires
        step_ready(env, st),
    ensures
        ({
            let (s1, t1) = walk(*l.init, env, st);
            let (s2, id) = pass_add_symbol(s1, l.name.name@, l.name.span, SymbolKind::Variable, t1);
            s2.failed is None ==> forall|j: int| 0 <= j < s2.references.len()
                ==> #[trigger] s2.references[j].symbol_id != Some(id)
        }),
{
    lemma_walk_sound(*l.init, env, st);
    let (s1, t1) = walk(*l.init, env, st);
    lemma_add_symbol_sound(s1, l.name.name@, l.name.span, SymbolKind::Variable, t1);
    let (s2, id) = pass_add_symbol(s1, l.name.name@, l.name.span, SymbolKind::Variable, t1);
    if s2.failed is None {
        assert forall|j: int| 0 <= j < s2.references.len() implies #[trigger] s2.references[j].symbol_id != Some(id) by {
            assert(s2.references[j] == s1.references[j]);
            if let Some(s) = s1.references[j].symbol_id {
                assert(s < s1.symbols.len());
            }
        }
    }
}

proof fn lemma_hoist_sound(items: Seq<Item>, st: Pass, env: Env)
    requires
        step_ready(env, st),
    ensures
        step_ready(hoist(items, st, env).1, hoist(items, st, env).0),
        grows(st, hoist(items, st, env).0),
        st.failed is Some ==> hoist(items, st, env).0.failed is Some,
    decreases items.len(),
{
    if items.len() > 0 {
        lemma_hoist_sound(items.drop_last(), st, env);
        let (s1, e1) = hoist(items.drop_last(), st, env);
        let (name, span, kind, ty) = match items.last() {
            Item::Func(f) => (f.name.name@, f.name.span, SymbolKind::Function, Type::Function),
            Item::Struct(sd) => (sd.name.name@, sd.name.span, SymbolKind::Struct, Type::Struct(s1.symbols.len() as SymbolId)),
        };
        assert(items.last().binding().name@ == name);
        lemma_add_symbol_env(e1, s1, name, span, kind, ty);
        lemma_add_symbol_sound(s1, name, span, kind, ty);
        lemma_grows_trans(st, s1, pass_add_symbol(s1, name, span, kind, ty).0);
    }
}

proof fn lemma_fields_sound(fs: Seq<FieldDecl>, env: Env, st: Pass)
    requires
        step_ready(env, st),
    ensures
        resolutions_sound(fields_pass(fs, env, st)),
        grows(st, fields_pass(fs, env, st)),
        st.failed is Some ==> fields_pass(fs, env, st).failed is Some,
    decreases fs.len(),
{
    if fs.len() > 0 {
        lemma_fields_sound(fs.drop_last(), env, st);
        let s1 = fields_pass(fs.drop_last(), env, st);
        if s1.failed is None {
            lemma_env_sound_grows(env, st, s1);
        }
        lemma_resolve_type_sound(fs.last().ty, env, s1);
        let (s2, t) = resolve_type_expr(fs.last().ty, env, s1);
        lemma_add_symbol_sound(s2, fs.last().name.name@, fs.last().name.span, SymbolKind::Field, t);
        lemma_grows_trans(st, s1, s2);
        lemma_grows_trans(st, s2, fields_pass(fs, env, st));
    }
}

proof fn lemma_params_sound(ps: Seq<Param>, env: Env, st: Pass)
    requires
        step_ready(env, st),
    ensures
        step_ready(params_pass(ps, env, st).1, params_pass(ps, env, st).0),
        grows(st, params_pass(ps, env, st).0),
        st.failed is Some ==> params_pass(ps, env, st).0.failed is Some,
    decreases ps.len(),
{
    if ps.len() > 0 {
        lemma_params_sound(ps.drop_last(), env, st);
        let (s1, e1) = params_pass(ps.drop_last(), env, st);
        lemma_resolve_type_sound(ps.last().ty, e1, s1);
        let (s2, t) = resolve_type_expr(ps.last().ty, e1, s1);
        if s2.failed is None {
            lemma_env_sound_grows(e1, s1, s2);
        }
        lemma_add_symbol_env(e1, s2, ps.last().name.name@, ps.last().name.span, SymbolKind::Parameter, t);
        lemma_add_symbol_sound(s2, ps.last().name.name@, ps.last().name.span, SymbolKind::Parameter, t);
        lemma_grows_trans(st, s1, s2);
        lemma_grows_trans(st, s2, params_pass(ps, env, st).0);
    }
}

proof fn lemma_items_sound(items: Seq<Item>, env: Env, st: Pass)
    requires
        step_ready(env, st),
    ensures
        resolutions_sound(items_pass(items, env, st)),
        grows(st, items_pass(items, env, st)),
        st.failed is Some ==> items_pass(items, env, st).failed is Some,
    decreases items.len(),
{
    if items.len() > 0 {
        lemma_items_sound(items.drop_last(), env, st);
        let s1 = items_pass(items.drop_last(), env, st);
        if s1.failed is None {
            lemma_env_sound_grows(env, st, s1);
        }
        match items.last() {
            Item::Struct(sd) => lemma_fields_sound(sd.fields@, env, s1),
            Item::Func(f) => {
                lemma_params_sound(f.params@, env, s1);
                let (s2, e2) = params_pass(f.params@, env, s1);
                lemma_walk_sound(f.body, e2, s2);
                lemma_grows_trans(s1, s2, walk(f.body, e2, s2).0);
            },
        }
        lemma_grows_trans(st, s1, items_pass(items, env, st));
    }
}

/// In the analysis of any program, every use resolves to an existing symbol
/// of the same name.
pub proof fn lemma_analysis_sound(p: Program)
    ensures
        resolutions_sound(analyze(p)),
{
    let st = empty_pass();
    assert(step_ready(Seq::empty(), st));
    lemma_hoist_sound(p.items@, st, Seq::empty());
    let (s, env) = hoist(p.items@, st, Seq::empty());
    lemma_items_sound(p.items@, env, s);
}

} // verus!
