//! The syntax tree that the analysis reads: the statements and expressions of
//! a scripting-language program, with the source extent of each statement.
//! A parser outside the library produces it; nothing here parses.

use vstd::prelude::*;

verus! {

/// A position in a cell's source: 1-based row, 0-based column.
#[derive(Debug, Clone, Copy, PartialEq, Eq, Structural)]
pub struct SourceLocation {
    pub row: usize,
    pub column: usize,
}

/// Whether an occurrence of a name reads, assigns or deletes it.
#[derive(Debug, Clone, Copy, PartialEq, Eq, Structural)]
pub enum ExprContext {
    Load,
    Store,
    Del,
}

/// One `for ... in ... if ...` clause of a comprehension.
#[derive(Debug)]
pub struct Comprehension {
    pub target: Expr,
    pub iter: Expr,
    pub ifs: Vec<Expr>,
}

#[derive(Debug)]
pub enum Expr {
    BoolOp { values: Vec<Expr> },
    NamedExpr { target: Box<Expr>, value: Box<Expr> },
    BinOp { left: Box<Expr>, right: Box<Expr> },
    UnaryOp { operand: Box<Expr> },
    /// `params` holds every parameter name of the lambda.
    Lambda { params: Vec<String>, body: Box<Expr> },
    IfExp { test: Box<Expr>, body: Box<Expr>, orelse: Box<Expr> },
    Dict { keys: Vec<Expr>, values: Vec<Expr> },
    SetDisplay { elts: Vec<Expr> },
    ListComp { elt: Box<Expr>, generators: Vec<Comprehension> },
    SetComp { elt: Box<Expr>, generators: Vec<Comprehension> },
    DictComp { key: Box<Expr>, value: Box<Expr>, generators: Vec<Comprehension> },
    GeneratorExp { elt: Box<Expr>, generators: Vec<Comprehension> },
    Await { value: Box<Expr> },
    Yield { value: Option<Box<Expr>> },
    YieldFrom { value: Box<Expr> },
    Compare { left: Box<Expr>, comparators: Vec<Expr> },
    /// `args` holds the positional arguments and the values of the keyword
    /// arguments, in source order.
    Call { func: Box<Expr>, args: Vec<Expr> },
    FormattedValue { value: Box<Expr>, format_spec: Option<Box<Expr>> },
    JoinedStr { values: Vec<Expr> },
    Constant,
    Attribute { value: Box<Expr>, attr: String },
    Subscript { value: Box<Expr>, slice: Box<Expr> },
    Starred { value: Box<Expr> },
    Name { id: String, ctx: ExprContext },
    List { elts: Vec<Expr> },
    Tuple { elts: Vec<Expr> },
    Slice { lower: Option<Box<Expr>>, upper: Option<Box<Expr>>, step: Option<Box<Expr>> },
}

/// An imported name and the name it is bound to, if renamed.
#[derive(Debug, Clone)]
pub struct Alias {
    pub name: String,
    pub asname: Option<String>,
}

/// An `except` clause: the exception expression, if any, and its body.
#[derive(Debug)]
pub struct ExceptHandler {
    pub kind: Option<Expr>,
    pub body: Vec<Stmt>,
}

#[derive(Debug)]
pub enum StmtKind {
    /// A function definition, `async` or not; `params` holds every parameter name.
    FunctionDef { name: String, params: Vec<String>, body: Vec<Stmt>, is_async: bool },
    ClassDef { name: String, bases: Vec<Expr>, body: Vec<Stmt>, decorators: Vec<Expr> },
    Return { value: Option<Expr> },
    Delete { targets: Vec<Expr> },
    Assign { targets: Vec<Expr>, value: Expr },
    AugAssign { target: Expr, value: Expr },
    AnnAssign { target: Expr, annotation: Expr, value: Option<Expr> },
    For { target: Expr, iter: Expr, body: Vec<Stmt>, orelse: Vec<Stmt>, is_async: bool },
    While { test: Expr, body: Vec<Stmt>, orelse: Vec<Stmt> },
    If { test: Expr, body: Vec<Stmt>, orelse: Vec<Stmt> },
    /// `items` holds each context expression followed by its `as` target, if any.
    With { items: Vec<Expr>, body: Vec<Stmt>, is_async: bool },
    /// `cases` holds the statements of every case body, in order.
    Match { subject: Expr, cases: Vec<Stmt> },
    Raise { exc: Option<Expr>, cause: Option<Expr> },
    Try { body: Vec<Stmt>, handlers: Vec<ExceptHandler>, orelse: Vec<Stmt>, finalbody: Vec<Stmt> },
    Assert { test: Expr, msg: Option<Expr> },
    /// `import` and `from ... import`.
    Import { names: Vec<Alias> },
    Global { names: Vec<String> },
    Nonlocal { names: Vec<String> },
    Expr { value: Expr },
    Pass,
    Break,
    Continue,
}

/// A statement with the extent of its source.
#[derive(Debug)]
pub struct Stmt {
    pub start: SourceLocation,
    pub end: SourceLocation,
    pub kind: StmtKind,
}

} // verus!
