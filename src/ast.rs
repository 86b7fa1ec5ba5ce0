use vstd::prelude::*;
use crate::span::Span;

verus! {

/// A name at a binding site.
pub struct IdentBinding {
    pub name: String,
    pub span: Span,
}

/// A name at a use site.
pub struct IdentReference {
    pub name: String,
    pub span: Span,
}

pub struct NullLiteral {
    pub span: Span,
}

pub struct BoolLiteral {
    pub span: Span,
    pub value: bool,
}

pub struct NumeralLiteral {
    pub span: Span,
    pub value: i64,
}

pub struct StringLiteral {
    pub span: Span,
    pub value: String,
}

pub enum Literal {
    Null(NullLiteral),
    Bool(BoolLiteral),
    NumeralLiteral(NumeralLiteral),
    StringLiteral(StringLiteral),
}

#[derive(Clone, Copy, Debug, PartialEq, Eq, Structural)]
pub enum BinaryOp {
    Add,
    Sub,
    Mul,
    Div,
    Eq,
    NotEq,
}

pub struct ListExpr {
    pub exprs: Vec<Expr>,
}

/// `let name = init; body`: `name` is visible in `body` only.
pub struct LetExpr {
    pub name: IdentBinding,
    pub init: Box<Expr>,
    pub body: Box<Expr>,
}

pub enum ExprKind {
    /// A subtree the parser could not make sense of.
    Error,
    Literal(Literal),
    List(ListExpr),
    Local(IdentReference),
    Let(LetExpr),
    Then(Box<Expr>, Box<Expr>),
    Binary(Box<Expr>, BinaryOp, Box<Expr>),
    Call(Box<Expr>, Vec<Expr>),
    If(Box<Expr>, Box<Expr>, Box<Expr>),
    Print(Box<Expr>),
    /// `object.field`
    Field(Box<Expr>, IdentReference),
}

pub struct Expr {
    pub kind: ExprKind,
    pub span: Span,
}

/// A written type; `Inferred` where none was written.
pub enum TypeExpr {
    Number,
    String,
    Bool,
    Null,
    Function,
    List(Box<TypeExpr>),
    Named(IdentReference),
    Inferred,
}

pub struct Param {
    pub name: IdentBinding,
    pub ty: TypeExpr,
}

pub struct Func {
    pub name: IdentBinding,
    pub params: Vec<Param>,
    pub body: Expr,
    pub span: Span,
}

pub struct FieldDecl {
    pub name: IdentBinding,
    pub ty: TypeExpr,
}

pub struct StructDecl {
    pub name: IdentBinding,
    pub fields: Vec<FieldDecl>,
    pub span: Span,
}

pub enum Item {
    Func(Func),
    Struct(StructDecl),
}

impl Item {
    pub open spec fn binding(&self) -> &IdentBinding {
        match self {
            Item::Func(f) => &f.name,
            Item::Struct(s) => &s.name,
        }
    }
}

/// One compilation unit: functions and structs in source order.
pub struct Program {
    pub items: Vec<Item>,
}

} // verus!
