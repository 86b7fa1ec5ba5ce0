use vstd::prelude::*;
use crate::ast::{Expr, ExprKind, FieldDecl, Item, Program, StructDecl};
use crate::semantic_analyze::{Semantic, Type};
use crate::span::Span;
use crate::symbol_table::{ReferenceView, SymbolId, SymbolKind, SymbolTable, SymbolView};

verus! {

/// A completion candidate: a name, what it names, and its type.
pub struct ImCompleteCompletionItem {
    pub name: String,
    pub kind: SymbolKind,
    pub ty: Type,
}

impl View for ImCompleteCompletionItem {
    type V = (Seq<char>, SymbolKind, Type);

    open spec fn view(&self) -> (Seq<char>, SymbolKind, Type) {
        (self.name@, self.kind, self.ty)
    }
}

pub open spec fn item_of(s: SymbolView) -> (Seq<char>, SymbolKind, Type) {
    (s.name, s.kind, s.ty)
}

/// The smallest expression within `e` whose span contains `p`; among
/// children, the first one that contains it.
pub open spec fn innermost(e: Expr, p: int) -> Option<Expr>
    decreases e,
{
    if !e.span.covers(p) {
        None
    } else {
        let inner = match e.kind {
            ExprKind::List(l) => innermost_items(l.exprs@, p),
            ExprKind::Let(l) => match innermost(*l.init, p) {
                Some(x) => Some(x),
                None => innermost(*l.body, p),
            },
            ExprKind::Then(a, b) => match innermost(*a, p) {
                Some(x) => Some(x),
                None => innermost(*b, p),
            },
            ExprKind::Binary(a, _, b) => match innermost(*a, p) {
                Some(x) => Some(x),
                None => innermost(*b, p),
            },
            ExprKind::Call(c, args) => match innermost(*c, p) {
                Some(x) => Some(x),
                None => innermost_items(args@, p),
            },
            ExprKind::If(c, t, f) => match innermost(*c, p) {
                Some(x) => Some(x),
                None => match innermost(*t, p) {
                    Some(x) => Some(x),
                    None => innermost(*f, p),
                },
            },
            ExprKind::Print(x) => innermost(*x, p),
            ExprKind::Field(obj, _) => innermost(*obj, p),
            _ => None,
        };
        match inner {
            Some(x) => Some(x),
            None => Some(e),
        }
    }
}

pub open spec fn innermost_items(es: Seq<Expr>, p: int) -> Option<Expr>
    decreases es,
{
    if es.len() == 0 {
        None
    } else {
        match innermost_items(es.drop_last(), p) {
            Some(x) => Some(x),
            None => innermost(es.last(), p),
        }
    }
}

/// The smallest expression containing `p` in the first function body that
/// contains it.
pub open spec fn node_at(items: Seq<Item>, p: int) -> Option<Expr>
    decreases items.len(),
{
    if items.len() == 0 {
        None
    } else {
        match node_at(items.drop_last(), p) {
            Some(x) => Some(x),
            None => match items.last() {
                Item::Func(f) => innermost(f.body, p),
                Item::Struct(_) => None,
            },
        }
    }
}

/// The symbol defined at exactly `span`, if any.
pub open spec fn symbol_with_span(syms: Seq<SymbolView>, span: Span) -> Option<SymbolId> {
    if exists|i: int| 0 <= i < syms.len() && #[trigger] syms[i].span == span {
        Some((choose|i: int| 0 <= i < syms.len() && #[trigger] syms[i].span == span) as SymbolId)
    } else {
        None
    }
}

/// The use at exactly `span`, if any.
pub open spec fn use_with_span(refs: Seq<ReferenceView>, span: Span) -> Option<int> {
    if exists|j: int| 0 <= j < refs.len() && #[trigger] refs[j].span == span {
        Some(choose|j: int| 0 <= j < refs.len() && #[trigger] refs[j].span == span)
    } else {
        None
    }
}

/// The first struct declared with its name at `span`.
pub open spec fn struct_decl(items: Seq<Item>, span: Span) -> Option<StructDecl>
    decreases items.len(),
{
    if items.len() == 0 {
        None
    } else {
        match struct_decl(items.drop_last(), span) {
            Some(d) => Some(d),
            None => match items.last() {
                Item::Struct(sd) => if sd.name.span == span {
                    Some(sd)
                } else {
                    None
                },
                Item::Func(_) => None,
            },
        }
    }
}

/// The symbol of the first field called `name`.
pub open spec fn field_named(fields: Seq<FieldDecl>, syms: Seq<SymbolView>, name: Seq<char>) -> Option<SymbolId>
    decreases fields.len(),
{
    if fields.len() == 0 {
        None
    } else {
        match field_named(fields.drop_last(), syms, name) {
            Some(f) => Some(f),
            None => if fields.last().name.name@ == name {
                symbol_with_span(syms, fields.last().name.span)
            } else {
                None
            },
        }
    }
}

/// The completion items of a struct's fields, in declaration order.
pub open spec fn field_items(fields: Seq<FieldDecl>, syms: Seq<SymbolView>) -> Seq<(Seq<char>, SymbolKind, Type)>
    decreases fields.len(),
{
    if fields.len() == 0 {
        Seq::empty()
    } else {
        let prev = field_items(fields.drop_last(), syms);
        match symbol_with_span(syms, fields.last().name.span) {
            Some(f) => prev.push(item_of(syms[f as int])),
            None => prev,
        }
    }
}

/// The type of the object of a field access: a name's symbol type, or the
/// declared type of a field reached through a chain of struct types.
pub open spec fn object_type(items: Seq<Item>, syms: Seq<SymbolView>, refs: Seq<ReferenceView>, e: Expr) -> Option<Type>
    decreases e,
{
    match e.kind {
        ExprKind::Local(r) => match use_with_span(refs, r.span) {
            Some(j) => match refs[j].symbol_id {
                Some(s) => if s < syms.len() {
                    Some(syms[s as int].ty)
                } else {
                    None
                },
                None => None,
            },
            None => None,
        },
        ExprKind::Field(obj, f) => match object_type(items, syms, refs, *obj) {
            Some(Type::Struct(sid)) => if sid < syms.len() {
                match struct_decl(items, syms[sid as int].span) {
                    Some(sd) => match field_named(sd.fields@, syms, f.name@) {
                        Some(fid) => Some(syms[fid as int].ty),
                        None => None,
                    },
                    None => None,
                }
            } else {
                None
            },
            _ => None,
        },
        _ => None,
    }
}

/// The candidates at `p`: in a field access, the fields of the object's
/// struct type (none when that type is not a known struct); elsewhere every
/// symbol of the table, whether or not it is in scope at `p`.
pub open spec fn completion_items(items: Seq<Item>, syms: Seq<SymbolView>, refs: Seq<ReferenceView>, p: int) -> Seq<(Seq<char>, SymbolKind, Type)> {
    match node_at(items, p) {
        Some(e) => match e.kind {
            ExprKind::Field(obj, _) => match object_type(items, syms, refs, *obj) {
                Some(Type::Struct(sid)) => if sid < syms.len() {
                    match struct_decl(items, syms[sid as int].span) {
                        Some(sd) => field_items(sd.fields@, syms),
                        None => Seq::empty(),
                    }
                } else {
                    Seq::empty()
                },
                _ => Seq::empty(),
            },
            _ => syms.map_values(|s: SymbolView| item_of(s)),
        },
        None => syms.map_values(|s: SymbolView| item_of(s)),
    }
}

fn find_innermost(e: &Expr, p: usize) -> (r: Option<&Expr>)
    ensures
        r is None <==> innermost(*e, p as int) is None,
        r matches Some(x) ==> innermost(*e, p as int) == Some(*x),
    decreases e,
{
    if !e.span.contains(p) {
        return None;
    }
    let inner = match &e.kind {
        ExprKind::List(l) => find_innermost_items(&l.exprs, p),
        ExprKind::Let(l) => match find_innermost(&l.init, p) {
            Some(x) => Some(x),
            None => find_innermost(&l.body, p),
        },
        ExprKind::Then(a, b) => match find_innermost(a, p) {
            Some(x) => Some(x),
            None => find_innermost(b, p),
        },
        ExprKind::Binary(a, _, b) => match find_innermost(a, p) {
            Some(x) => Some(x),
            None => find_innermost(b, p),
        },
        ExprKind::Call(c, args) => match find_innermost(c, p) {
            Some(x) => Some(x),
            None => find_innermost_items(args, p),
        },
        ExprKind::If(c, t, f) => match find_innermost(c, p) {
            Some(x) => Some(x),
            None => match find_innermost(t, p) {
                Some(x) => Some(x),
                None => find_innermost(f, p),
            },
        },
        ExprKind::Print(x) => find_innermost(x, p),
        ExprKind::Field(obj, _) => find_innermost(obj, p),
        _ => None,
    };
    match inner {
        Some(x) => Some(x),
        None => Some(e),
    }
}

fn find_innermost_items(es: &Vec<Expr>, p: usize) -> (r: Option<&Expr>)
    ensures
        r is None <==> innermost_items(es@, p as int) is None,
        r matches Some(x) ==> innermost_items(es@, p as int) == Some(*x),
    decreases es,
{
    let mut i: usize = 0;
    while i < es.len()
        invariant
            i <= es.len(),
            innermost_items(es@.take(i as int), p as int) is None,
        decreases es.len() - i,
    {
        proof {
            assert(es@.take(i + 1).drop_last() =~= es@.take(i as int));
            assert(es@.take(i + 1).last() == es@[i as int]);
        }
        match find_innermost(&es[i], p) {
            Some(x) => {
                proof {
                    lemma_innermost_items_found(es@, i as int, p as int);
                }
                return Some(x);
            },
            None => {},
        }
        i += 1;
    }
    assert(es@.take(es.len() as int) =~= es@);
    None
}

/// Once a prefix of `es` has a match, every longer prefix has the same one.
proof fn lemma_innermost_items_found(es: Seq<Expr>, i: int, p: int)
    requires
        0 <= i < es.len(),
        innermost_items(es.take(i), p) is None,
        innermost(es[i], p) is Some,
    ensures
        innermost_items(es, p) == innermost(es[i], p),
    decreases es.len(),
{
    if i == es.len() - 1 {
        assert(es.drop_last() =~= es.take(i));
    } else {
        assert(es.drop_last().take(i) =~= es.take(i));
        lemma_innermost_items_found(es.drop_last(), i, p);
    }
}

fn find_node(items: &Vec<Item>, p: usize) -> (r: Option<&Expr>)
    ensures
        r is None <==> node_at(items@, p as int) is None,
        r matches Some(x) ==> node_at(items@, p as int) == Some(*x),
{
    let mut i: usize = 0;
    while i < items.len()
        invariant
            i <= items.len(),
            node_at(items@.take(i as int), p as int) is None,
        decreases items.len() - i,
    {
        proof {
            assert(items@.take(i + 1).drop_last() =~= items@.take(i as int));
            assert(items@.take(i + 1).last() == items@[i as int]);
        }
        match &items[i] {
            Item::Func(f) => match find_innermost(&f.body, p) {
                Some(x) => {
                    proof {
                        lemma_node_found(items@, i as int, p as int);
                    }
                    return Some(x);
                },
                None => {},
            },
            Item::Struct(_) => {},
        }
        i += 1;
    }
    assert(items@.take(items.len() as int) =~= items@);
    None
}

proof fn lemma_node_found(items: Seq<Item>, i: int, p: int)
    requires
        0 <= i < items.len(),
        node_at(items.take(i), p) is None,
        items[i] is Func,
        innermost(items[i]->Func_0.body, p) is Some,
    ensures
        node_at(items, p) == innermost(items[i]->Func_0.body, p),
    decreases items.len(),
{
    if i == items.len() - 1 {
        assert(items.drop_last() =~= items.take(i));
    } else {
        assert(items.drop_last().take(i) =~= items.take(i));
        lemma_node_found(items.drop_last(), i, p);
    }
}

proof fn lemma_struct_found(items: Seq<Item>, i: int, span: Span)
    requires
        0 <= i < items.len(),
        struct_decl(items.take(i), span) is None,
        items[i] is Struct,
        items[i]->Struct_0.name.span == span,
    ensures
        struct_decl(items, span) == Some(items[i]->Struct_0),
    decreases items.len(),
{
    if i == items.len() - 1 {
        assert(items.drop_last() =~= items.take(i));
    } else {
        assert(items.drop_last().take(i) =~= items.take(i));
        lemma_struct_found(items.drop_last(), i, span);
    }
}

fn find_struct_decl(items: &Vec<Item>, span: Span) -> (r: Option<&StructDecl>)
    ensures
        r is None <==> struct_decl(items@, span) is None,
        r matches Some(d) ==> struct_decl(items@, span) == Some(*d),
{
    let mut i: usize = 0;
    while i < items.len()
        invariant
            i <= items.len(),
            struct_decl(items@.take(i as int), span) is None,
        decreases items.len() - i,
    {
        proof {
            assert(items@.take(i + 1).drop_last() =~= items@.take(i as int));
            assert(items@.take(i + 1).last() == items@[i as int]);
        }
        match &items[i] {
            Item::Struct(sd) => {
                if sd.name.span == span {
                    proof {
                        lemma_struct_found(items@, i as int, span);
                    }
                    return Some(sd);
                }
            },
            Item::Func(_) => {},
        }
        i += 1;
    }
    assert(items@.take(items.len() as int) =~= items@);
    None
}

impl SymbolTable {
    /// The symbol defined at exactly `span`.
    pub fn symbol_with_span(&self, span: Span) -> (r: Option<SymbolId>)
        requires
            self.wf(),
        ensures
            r == symbol_with_span(self.syms(), span),
            r matches Some(i) ==> i < self.symbols.len(),
    {
        let ghost syms = self.syms();
        let mut i: usize = 0;
        while i < self.symbols.len()
            invariant
                i <= self.symbols.len(),
                self.wf(),
                syms == self.syms(),
                forall|k: int| 0 <= k < i ==> syms[k].span != span,
            decreases self.symbols.len() - i,
        {
            if self.symbols[i].span == span {
                proof {
                    assert(syms[i as int].span == span);
                    let c = choose|c: int| 0 <= c < syms.len() && #[trigger] syms[c].span == span;
                    assert(c == i) by {
                        if c != i {
                            if c < i {
                                assert(syms[c].span != syms[i as int].span);
                            } else {
                                assert(syms[i as int].span != syms[c].span);
                            }
                        }
                    }
                }
                return Some(i);
            }
            i += 1;
        }
        None
    }

    /// The use at exactly `span`.
    pub fn use_with_span(&self, span: Span) -> (r: Option<usize>)
        requires
            self.wf(),
        ensures
            r matches Some(j) ==> use_with_span(self.refs(), span) == Some(j as int) && j < self.references.len(),
            r is None ==> use_with_span(self.refs(), span) is None,
    {
        let ghost refs = self.refs();
        let mut j: usize = 0;
        while j < self.references.len()
            invariant
                j <= self.references.len(),
                self.wf(),
                refs == self.refs(),
                forall|k: int| 0 <= k < j ==> refs[k].span != span,
            decreases self.references.len() - j,
        {
            if self.references[j].span == span {
                proof {
                    assert(refs[j as int].span == span);
                    let c = choose|c: int| 0 <= c < refs.len() && #[trigger] refs[c].span == span;
                    assert(c == j) by {
                        if c != j {
                            if c < j {
                                assert(refs[c].span != refs[j as int].span);
                            } else {
                                assert(refs[j as int].span != refs[c].span);
                            }
                        }
                    }
                }
                return Some(j);
            }
            j += 1;
        }
        None
    }

    fn completion_item(&self, i: SymbolId) -> (r: ImCompleteCompletionItem)
        requires
            i < self.symbols.len(),
        ensures
            r@ == item_of(self.syms()[i as int]),
    {
        let s = &self.symbols[i];
        ImCompleteCompletionItem { name: s.name.clone(), kind: s.kind, ty: s.ty.copy() }
    }
}

fn find_field_named(fields: &Vec<FieldDecl>, table: &SymbolTable, name: &String) -> (r: Option<SymbolId>)
    requires
        table.wf(),
    ensures
        r == field_named(fields@, table.syms(), name@),
        r matches Some(f) ==> f < table.symbols.len(),
{
    let ghost syms = table.syms();
    let mut found: Option<SymbolId> = None;
    let mut i: usize = 0;
    while i < fields.len()
        invariant
            i <= fields.len(),
            table.wf(),
            syms == table.syms(),
            found == field_named(fields@.take(i as int), syms, name@),
            found matches Some(f) ==> f < table.symbols.len(),
        decreases fields.len() - i,
    {
        proof {
            assert(fields@.take(i + 1).drop_last() =~= fields@.take(i as int));
            assert(fields@.take(i + 1).last() == fields@[i as int]);
        }
        if found.is_none() && fields[i].name.name == *name {
            found = table.symbol_with_span(fields[i].name.span);
        }
        i += 1;
    }
    assert(fields@.take(fields.len() as int) =~= fields@);
    found
}

fn collect_field_items(fields: &Vec<FieldDecl>, table: &SymbolTable) -> (r: Vec<ImCompleteCompletionItem>)
    requires
        table.wf(),
    ensures
        r@.map_values(|c: ImCompleteCompletionItem| c@) == field_items(fields@, table.syms()),
{
    let ghost syms = table.syms();
    let mut r: Vec<ImCompleteCompletionItem> = Vec::new();
    let mut i: usize = 0;
    while i < fields.len()
        invariant
            i <= fields.len(),
            table.wf(),
            syms == table.syms(),
            r@.map_values(|c: ImCompleteCompletionItem| c@) == field_items(fields@.take(i as int), syms),
        decreases fields.len() - i,
    {
        proof {
            assert(fields@.take(i + 1).drop_last() =~= fields@.take(i as int));
            assert(fields@.take(i + 1).last() == fields@[i as int]);
        }
        match table.symbol_with_span(fields[i].name.span) {
            Some(f) => {
                let item = table.completion_item(f);
                let ghost before = r@;
                r.push(item);
                assert(r@.map_values(|c: ImCompleteCompletionItem| c@) =~= before.map_values(
                    |c: ImCompleteCompletionItem| c@,
                ).push(item_of(syms[f as int])));
            },
            None => {},
        }
        i += 1;
    }
    assert(fields@.take(fields.len() as int) =~= fields@);
    r
}

fn resolve_object_type(items: &Vec<Item>, table: &SymbolTable, e: &Expr) -> (r: Option<Type>)
    requires
        table.wf(),
    ensures
        r == object_type(items@, table.syms(), table.refs(), *e),
    decreases e,
{
    match &e.kind {
        ExprKind::Local(r) => match table.use_with_span(r.span) {
            Some(j) => match table.references[j].symbol_id {
                Some(s) => if s < table.symbols.len() {
                    Some(table.symbols[s].ty.copy())
                } else {
                    None
                },
                None => None,
            },
            None => None,
        },
        ExprKind::Field(obj, f) => match resolve_object_type(items, table, obj) {
            Some(Type::Struct(sid)) => if sid < table.symbols.len() {
                match find_struct_decl(items, table.symbols[sid].span) {
                    Some(sd) => match find_field_named(&sd.fields, table, &f.name) {
                        Some(fid) => Some(table.symbols[fid].ty.copy()),
                        None => None,
                    },
                    None => None,
                }
            } else {
                None
            },
            _ => None,
        },
        _ => None,
    }
}

/// The completion candidates at `ident_offset`: inside a field access, the
/// fields of the struct that the object's type names (none when it names
/// none); anywhere else, every symbol of the table, in scope at the offset
/// or not.
pub fn completion(ast: &Program, sem: &Semantic, ident_offset: usize) -> (r: Vec<ImCompleteCompletionItem>)
    requires
        sem.wf(),
    ensures
        r@.map_values(|c: ImCompleteCompletionItem| c@) == completion_items(
            ast.items@,
            sem.table.syms(),
            sem.table.refs(),
            ident_offset as int,
        ),
{
    let table = &sem.table;
    let node = find_node(&ast.items, ident_offset);
    let on_field = match node {
        Some(e) => match &e.kind {
            ExprKind::Field(_, _) => true,
            _ => false,
        },
        None => false,
    };
    if on_field {
        let e = node.unwrap();
        if let ExprKind::Field(obj, _) = &e.kind {
            return match resolve_object_type(&ast.items, table, obj) {
                Some(Type::Struct(sid)) => if sid < table.symbols.len() {
                    match find_struct_decl(&ast.items, table.symbols[sid].span) {
                        Some(sd) => collect_field_items(&sd.fields, table),
                        None => Vec::new(),
                    }
                } else {
                    Vec::new()
                },
                _ => Vec::new(),
            };
        }
    }
    let ghost syms = table.syms();
    let mut r: Vec<ImCompleteCompletionItem> = Vec::new();
    let mut i: usize = 0;
    while i < table.symbols.len()
        invariant
            i <= table.symbols.len(),
            syms == table.syms(),
            r@.map_values(|c: ImCompleteCompletionItem| c@) == syms.take(i as int).map_values(|s: SymbolView| item_of(s)),
        decreases table.symbols.len() - i,
    {
        let item = table.completion_item(i);
        let ghost before = r@;
        r.push(item);
        proof {
            assert(r@.map_values(|c: ImCompleteCompletionItem| c@) =~= before.map_values(
                |c: ImCompleteCompletionItem| c@,
            ).push(item_of(syms[i as int])));
            assert(syms.take(i + 1).map_values(|s: SymbolView| item_of(s)) =~= syms.take(
                i as int,
            ).map_values(|s: SymbolView| item_of(s)).push(item_of(syms[i as int])));
        }
        i += 1;
    }
    assert(syms.take(table.symbols.len() as int) =~= syms);
    r
}

} // verus!
