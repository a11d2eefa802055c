//! Tokens and the abstract syntax tree.
//!
//! Tree nodes live in one growable arena (`AstRoot`) and refer to their
//! children by index. Every child index is strictly smaller than the
//! index of the node that holds it, so the tree is acyclic and the root
//! is the last node pushed; the whole tree moves and is released as a
//! single unit.

use vstd::prelude::*;

use crate::compiler::Locatable;
use crate::compiler::SourceSpan;

verus! {

/// The closed set of lexical token kinds. `Error` marks an unrecognized
/// run of bytes and `End` marks end-of-input; both still carry valid
/// spans.
#[derive(Debug, Clone, Copy, PartialEq, Eq, Hash, Structural)]
pub enum TokenKind {
    Error,
    Ident,
    Integer,
    Float,
    Assign,
    Equals,
    Greater,
    Less,
    GreaterEquals,
    LessEquals,
    BraceOpen,
    BraceClose,
    Add,
    Newline,
    End,
    KeywordClass,
    KeywordStruct,
}

/// Minimal lexical unit: a kind tag plus the exact half-open byte range
/// it was scanned from.
#[derive(Debug, Clone, Copy, PartialEq, Eq, Structural)]
pub struct Token {
    pub kind: TokenKind,
    pub span: SourceSpan,
}

impl Token {
    pub fn error() -> (r: Token)
        ensures
            r.kind == TokenKind::Error,
            r.span.file.spec_id() == 0,
            r.span.begin == 0,
            r.span.end == 0,
    {
        Token { kind: TokenKind::Error, span: SourceSpan::unknown() }
    }

    pub fn end() -> (r: Token)
        ensures
            r.kind == TokenKind::End,
            r.span.file.spec_id() == 0,
            r.span.begin == 0,
            r.span.end == 0,
    {
        Token { kind: TokenKind::End, span: SourceSpan::unknown() }
    }

    pub fn kind(&self) -> (r: TokenKind)
        ensures
            r == self.kind,
    {
        self.kind
    }

    pub fn span(&self) -> (r: SourceSpan)
        ensures
            r == self.span,
    {
        self.span
    }
}

impl Locatable for Token {
    open spec fn spec_span(&self) -> SourceSpan {
        self.span
    }

    fn source_span(&self) -> (r: SourceSpan) {
        self.span
    }
}

/// Binary operators of the expression grammar.
#[derive(Debug, Clone, Copy, PartialEq, Eq, Structural)]
pub enum BinaryOp {
    Add,
}

/// One node of the syntax tree. Children are indices into the arena of
/// the `AstRoot` that owns the node.
#[derive(Debug, Clone)]
pub enum Ast {
    Error(Token),
    Root(Vec<usize>),
    ClassDecl(Token, Token, Vec<usize>),
    Name(Token),
    Binop(Token, usize, usize),
}

impl Ast {
    pub fn error(token: Token) -> (r: Ast)
        ensures
            r == Ast::Error(token),
    {
        Ast::Error(token)
    }

    /// The child indices held directly by this node.
    pub open spec fn spec_children(&self) -> Seq<int> {
        match self {
            Ast::Error(_) => Seq::empty(),
            Ast::Root(children) => children@.map_values(|c: usize| c as int),
            Ast::ClassDecl(_, _, children) => children@.map_values(|c: usize| c as int),
            Ast::Name(_) => Seq::empty(),
            Ast::Binop(_, left, right) => seq![*left as int, *right as int],
        }
    }

    pub open spec fn is_root(&self) -> bool {
        matches!(self, Ast::Root(_))
    }

    /// The tokens stored in a node match its shape: a class keyword and
    /// an identifier name on a class declaration, an identifier on a
    /// name, an operator on a binary operation.
    pub open spec fn kinds_ok(&self) -> bool {
        match self {
            Ast::Error(_) => true,
            Ast::Root(_) => true,
            Ast::ClassDecl(kw, name, _) => (kw.kind == TokenKind::KeywordClass || kw.kind
                == TokenKind::KeywordStruct) && name.kind == TokenKind::Ident,
            Ast::Name(t) => t.kind == TokenKind::Ident,
            Ast::Binop(op, _, _) => op.kind == TokenKind::Add,
        }
    }
}

/// Every node's children point strictly downwards in the arena, so the
/// node store is acyclic, and each node carries tokens of the right
/// kinds.
pub open spec fn arena_ok(nodes: Seq<Ast>) -> bool {
    &&& forall|i: int, j: int|
        0 <= i < nodes.len() && 0 <= j < nodes[i].spec_children().len() ==> 0 <= #[trigger] (nodes[
        i].spec_children()[j]) < i
    &&& forall|i: int| 0 <= i < nodes.len() ==> (#[trigger] nodes[i]).kinds_ok()
}

/// The ownership bundle: one arena holding every node of a parse,
/// with the root stored last. Inspecting the tree borrows from the
/// bundle; dropping the bundle releases every node at once.
#[derive(Debug)]
pub struct AstRoot {
    nodes: Vec<Ast>,
}

impl AstRoot {
    /// Every node's children point strictly downwards in the arena, so
    /// the structure is a tree; the last node is the unique `Root`.
    pub closed spec fn wf(&self) -> bool {
        &&& self.nodes@.len() >= 1
        &&& arena_ok(self.nodes@)
        &&& self.nodes@.last().is_root()
        &&& forall|i: int| 0 <= i < self.nodes@.len() - 1 ==> !(#[trigger] self.nodes@[i]).is_root()
    }

    pub closed spec fn spec_nodes(&self) -> Seq<Ast> {
        self.nodes@
    }

    /// Bundles a finished arena. The parser is the only caller.
    pub(crate) fn new(nodes: Vec<Ast>) -> (r: AstRoot)
        requires
            nodes@.len() >= 1,
            arena_ok(nodes@),
            nodes@.last().is_root(),
            forall|i: int| 0 <= i < nodes@.len() - 1 ==> !(#[trigger] nodes@[i]).is_root(),
        ensures
            r.spec_nodes() == nodes@,
            r.wf(),
    {
        AstRoot { nodes }
    }

    /// The number of nodes in the arena.
    pub fn len(&self) -> (r: usize)
        ensures
            r == self.spec_nodes().len(),
    {
        self.nodes.len()
    }

    /// The root node: always the `Root` variant of a well-formed bundle.
    pub fn root(&self) -> (r: &Ast)
        requires
            self.wf(),
        ensures
            *r == self.spec_nodes().last(),
            r.is_root(),
    {
        &self.nodes[self.nodes.len() - 1]
    }

    /// Looks a node up by index.
    pub fn node(&self, id: usize) -> (r: Option<&Ast>)
        ensures
            match r {
                Some(node) => id < self.spec_nodes().len() && *node == self.spec_nodes()[id as int],
                None => id >= self.spec_nodes().len(),
            },
    {
        if id < self.nodes.len() {
            Some(&self.nodes[id])
        } else {
            None
        }
    }
}

/// Kinds of expression in the simpler owned-tree form.
pub enum ExprKind {
    Error,
    Identifier,
    BinaryOp(BinaryOp, Expr, Expr),
}

/// An expression with its source location.
pub struct Expr {
    pub kind: Box<ExprKind>,
    pub span: SourceSpan,
}

impl Expr {
    pub fn kind(&self) -> (r: &ExprKind)
        ensures
            *r == *self.kind,
    {
        &self.kind
    }
}

impl Locatable for Expr {
    open spec fn spec_span(&self) -> SourceSpan {
        self.span
    }

    fn source_span(&self) -> (r: SourceSpan) {
        self.span
    }
}

/// Kinds of statement in the simpler owned-tree form.
pub enum StmtKind {
    Error,
    If(Expr, Stmt),
}

/// A statement with its source location.
pub struct Stmt {
    pub kind: Box<StmtKind>,
    pub span: SourceSpan,
}

impl Stmt {
    pub fn kind(&self) -> (r: &StmtKind)
        ensures
            *r == *self.kind,
    {
        &self.kind
    }
}

impl Locatable for Stmt {
    open spec fn spec_span(&self) -> SourceSpan {
        self.span
    }

    fn source_span(&self) -> (r: SourceSpan) {
        self.span
    }
}

/// Kinds of declaration in the simpler owned-tree form.
pub enum DeclKind {
    Error,
}

/// A declaration with its source location.
pub struct Decl {
    pub kind: Box<DeclKind>,
    pub span: SourceSpan,
}

impl Decl {
    pub fn new(kind: DeclKind, span: SourceSpan) -> (r: Decl)
        ensures
            *r.kind == kind,
            r.span == span,
    {
        Decl { kind: Box::new(kind), span }
    }

    pub fn error(span: SourceSpan) -> (r: Decl)
        ensures
            *r.kind == DeclKind::Error,
            r.span == span,
    {
        Decl::new(DeclKind::Error, span)
    }
}

/// A flat list of declarations, the owned-tree counterpart of `Root`.
pub struct Root {
    pub decls: Vec<Decl>,
}

} // verus!
