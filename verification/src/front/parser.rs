//! Recursive-descent parser with one token of lookahead, pulling from
//! the tokenizer on demand and building the tree in the arena of an
//! `AstRoot`. Malformed input never makes parsing fail or diverge:
//! recovery discards tokens up to the next newline or `End`, every
//! declaration either consumes input or leaves the parser untouched,
//! and the `measure` of tokens still obtainable bounds all recursion.

use vstd::prelude::*;
use vstd::string::StringExecFns;

use crate::ast::Ast;
use crate::ast::AstRoot;
use crate::ast::Token;
use crate::ast::TokenKind;
use crate::ast::arena_ok;
use crate::compiler::Errors;
use crate::compiler::InternalLocation;
use crate::compiler::SourceFile;
use crate::compiler::log_extends;
use crate::compiler::push_error;
use crate::compiler::SourceSpan;
use crate::compiler::emitted;
use crate::front::tokenizer::Tokenizer;
use crate::front::tokenizer::scan_ok_from;
use crate::front::tokenizer::skip_trivia;
use crate::front::tokenizer::span_at;
use crate::front::tokenizer::spec_token_seq;

verus! {

broadcast use
    crate::compiler::lemma_log_extends_trans,
    crate::compiler::lemma_pushed_one_extends,
    crate::compiler::lemma_emitted_trans,
    crate::compiler::lemma_pushed_one_emitted,
;

/// The grammar's trees as pure values: what a parse denotes,
/// independent of how the arena lays nodes out. A `Binop`'s children
/// sequence is `[left, right]`.
pub enum GrammarTree {
    Name(Token),
    Binop(Token, Seq<GrammarTree>),
    ClassDecl(Token, Token, Seq<GrammarTree>),
}

/// Arena node `id` stores exactly the tree `t`: same tokens, children
/// at strictly smaller indices, shape for shape.
pub open spec fn denotes(nodes: Seq<Ast>, id: int, t: GrammarTree) -> bool
    decreases id,
{
    &&& 0 <= id < nodes.len()
    &&& match t {
        GrammarTree::Name(tok) => nodes[id] == Ast::Name(tok),
        GrammarTree::Binop(op, kids) => kids.len() == 2 && match nodes[id] {
            Ast::Binop(op2, l, r) => {
                &&& op2 == op
                &&& l < id
                &&& r < id
                &&& denotes(nodes, l as int, kids[0])
                &&& denotes(nodes, r as int, kids[1])
            },
            _ => false,
        },
        GrammarTree::ClassDecl(kw, nm, kids) => match nodes[id] {
            Ast::ClassDecl(kw2, nm2, v) => {
                &&& kw2 == kw
                &&& nm2 == nm
                &&& v@.len() == kids.len()
                &&& forall|j: int|
                    0 <= j < kids.len() ==> (#[trigger] v@[j]) < id && denotes(
                        nodes,
                        v@[j] as int,
                        kids[j],
                    )
            },
            _ => false,
        },
    }
}

/// Denotation only reads indices up to `id`, so growing the arena
/// preserves it.
pub proof fn lemma_denotes_grow(a: Seq<Ast>, b: Seq<Ast>, id: int, t: GrammarTree)
    requires
        denotes(a, id, t),
        a.len() <= b.len(),
        forall|i: int| 0 <= i < a.len() ==> b[i] == a[i],
    ensures
        denotes(b, id, t),
    decreases id,
{
    match t {
        GrammarTree::Name(_) => {
        },
        GrammarTree::Binop(op, kids) => {
            match a[id] {
                Ast::Binop(_, l, r) => {
                    lemma_denotes_grow(a, b, l as int, kids[0]);
                    lemma_denotes_grow(a, b, r as int, kids[1]);
                },
                _ => {
                },
            }
        },
        GrammarTree::ClassDecl(kw, nm, kids) => {
            match a[id] {
                Ast::ClassDecl(_, _, v) => {
                    assert forall|j: int| 0 <= j < kids.len() implies (#[trigger] v@[j]) < id
                        && denotes(b, v@[j] as int, kids[j]) by {
                        lemma_denotes_grow(a, b, v@[j] as int, kids[j]);
                    }
                },
                _ => {
                },
            }
        },
    }
}

/// The current lookahead of a token stream; a drained stream reads as
/// `End`.
pub open spec fn sp_peek(toks: Seq<Token>) -> Token {
    if toks.len() > 0 {
        toks[0]
    } else {
        Token { kind: TokenKind::End, span: SourceSpan::spec_unknown() }
    }
}

/// Consuming the lookahead: `End` is never consumed away, the stream
/// stays at it.
pub open spec fn sp_advance(toks: Seq<Token>) -> Seq<Token> {
    if sp_peek(toks).kind == TokenKind::End {
        toks
    } else {
        toks.drop_first()
    }
}

/// A stream with no `Error` tokens: scanning it reported nothing, so
/// every diagnostic of a parse over it is the parser's own.
pub open spec fn no_err(toks: Seq<Token>) -> bool {
    forall|i: int| 0 <= i < toks.len() ==> (#[trigger] toks[i]).kind != TokenKind::Error
}

/// skip-nl: the stream after dropping leading newline tokens.
pub open spec fn sp_skip_newlines(toks: Seq<Token>) -> Seq<Token>
    decreases toks.len(),
{
    if toks.len() > 0 && toks[0].kind == TokenKind::Newline {
        sp_skip_newlines(toks.drop_first())
    } else {
        toks
    }
}

pub proof fn lemma_sp_skip_newlines_len(toks: Seq<Token>)
    ensures
        sp_skip_newlines(toks).len() <= toks.len(),
    decreases toks.len(),
{
    if toks.len() > 0 && toks[0].kind == TokenKind::Newline {
        lemma_sp_skip_newlines_len(toks.drop_first());
    }
}

/// Recovery: the stream after discarding tokens up to and including
/// the first newline; `End` is kept as the lookahead.
pub open spec fn sp_recover(toks: Seq<Token>) -> Seq<Token>
    decreases toks.len(),
{
    if toks.len() == 0 || toks[0].kind == TokenKind::End {
        toks
    } else if toks[0].kind == TokenKind::Newline {
        toks.drop_first()
    } else {
        sp_recover(toks.drop_first())
    }
}

/// atom := Ident
pub open spec fn sp_atom(toks: Seq<Token>) -> (Option<GrammarTree>, Seq<Token>) {
    if sp_peek(toks).kind == TokenKind::Ident {
        (Some(GrammarTree::Name(toks[0])), toks.drop_first())
    } else {
        (None::<GrammarTree>, toks)
    }
}

/// term := atom ("+" atom)* — `lhs` is the chain built so far, so the
/// chain associates to the left. A `+` with no atom after it fails
/// with the `+` consumed.
pub open spec fn sp_term_rest(lhs: GrammarTree, toks: Seq<Token>) -> (
    Option<GrammarTree>,
    Seq<Token>,
)
    decreases toks.len(),
{
    if sp_peek(toks).kind == TokenKind::Add {
        let op = toks[0];
        let t1 = toks.drop_first();
        if sp_peek(t1).kind == TokenKind::Ident {
            sp_term_rest(
                GrammarTree::Binop(op, seq![lhs, GrammarTree::Name(t1[0])]),
                t1.drop_first(),
            )
        } else {
            (None::<GrammarTree>, t1)
        }
    } else {
        (Some(lhs), toks)
    }
}

pub open spec fn sp_term(toks: Seq<Token>) -> (Option<GrammarTree>, Seq<Token>) {
    if sp_peek(toks).kind == TokenKind::Ident {
        sp_term_rest(GrammarTree::Name(toks[0]), toks.drop_first())
    } else {
        (None::<GrammarTree>, toks)
    }
}

/// Dropping tokens from the front of an `Error`-free stream keeps it
/// `Error`-free.
pub proof fn lemma_no_err_drop(toks: Seq<Token>)
    requires
        no_err(toks),
        toks.len() >= 1,
    ensures
        no_err(toks.drop_first()),
{
    assert forall|i: int|
        0 <= i < toks.drop_first().len() implies (#[trigger] toks.drop_first()[i]).kind
        != TokenKind::Error by {
        assert(toks.drop_first()[i] == toks[i + 1]);
    }
}

/// Skipping newlines neither removes nor adds `Error` tokens.
pub proof fn lemma_no_err_skip(toks: Seq<Token>)
    ensures
        no_err(toks) <==> no_err(sp_skip_newlines(toks)),
    decreases toks.len(),
{
    if toks.len() > 0 && toks[0].kind == TokenKind::Newline {
        lemma_no_err_skip(toks.drop_first());
        if no_err(toks) {
            lemma_no_err_drop(toks);
        }
        if no_err(sp_skip_newlines(toks)) {
            assert forall|i: int|
                0 <= i < toks.len() implies (#[trigger] toks[i]).kind != TokenKind::Error by {
                if i > 0 {
                    assert(toks.drop_first()[i - 1] == toks[i]);
                }
            }
        }
    }
}

pub proof fn lemma_sp_recover_len(toks: Seq<Token>)
    ensures
        sp_recover(toks).len() <= toks.len(),
        toks.len() > 0 && toks[0].kind != TokenKind::End ==> sp_recover(toks).len() < toks.len(),
    decreases toks.len(),
{
    if toks.len() > 0 && toks[0].kind != TokenKind::End && toks[0].kind != TokenKind::Newline {
        lemma_sp_recover_len(toks.drop_first());
    }
}

pub proof fn lemma_sp_term_rest_len(lhs: GrammarTree, toks: Seq<Token>)
    ensures
        sp_term_rest(lhs, toks).1.len() <= toks.len(),
    decreases toks.len(),
{
    if sp_peek(toks).kind == TokenKind::Add {
        let t1 = toks.drop_first();
        if sp_peek(t1).kind == TokenKind::Ident {
            lemma_sp_term_rest_len(
                GrammarTree::Binop(toks[0], seq![lhs, GrammarTree::Name(t1[0])]),
                t1.drop_first(),
            );
        }
    }
}

/// Parsing never lengthens the stream; a parsed declaration shortens
/// it, and a failure either consumed nothing or shortened it.
pub proof fn lemma_sp_term_len(toks: Seq<Token>)
    ensures
        ({
            let (d, t2) = sp_term(toks);
            &&& t2.len() <= toks.len()
            &&& (d is Some ==> t2.len() < toks.len())
            &&& (d is None ==> t2 == toks || t2.len() < toks.len())
        }),
{
    if sp_peek(toks).kind == TokenKind::Ident {
        lemma_sp_term_rest_len(GrammarTree::Name(toks[0]), toks.drop_first());
    }
}

pub proof fn lemma_sp_decl_len(toks: Seq<Token>)
    ensures
        ({
            let (d, t2, ds) = sp_decl(toks);
            &&& t2.len() <= toks.len()
            &&& (d is Some ==> t2.len() < toks.len())
            &&& (d is None ==> t2 == toks || t2.len() < toks.len())
        }),
    decreases toks.len(), 1int,
{
    if sp_peek(toks).kind == TokenKind::KeywordClass || sp_peek(toks).kind
        == TokenKind::KeywordStruct {
        lemma_sp_finish_class_len(toks[0], toks.drop_first());
    } else {
        lemma_sp_term_len(toks);
    }
}

pub proof fn lemma_sp_finish_class_len(kw: Token, toks: Seq<Token>)
    ensures
        sp_finish_class(kw, toks).1.len() <= toks.len(),
    decreases toks.len(), 0int,
{
    if sp_peek(toks).kind == TokenKind::Ident {
        lemma_sp_skip_newlines_len(toks.drop_first());
        let t1 = sp_skip_newlines(toks.drop_first());
        if sp_peek(t1).kind == TokenKind::BraceOpen {
            lemma_sp_skip_newlines_len(t1.drop_first());
            let t2 = sp_skip_newlines(t1.drop_first());
            if t2.len() < toks.len() {
                lemma_sp_class_items_len(sp_peek(toks), t2);
            }
        }
    }
}

pub proof fn lemma_sp_class_items_len(name: Token, toks: Seq<Token>)
    ensures
        sp_class_items(name, toks).1.len() <= toks.len(),
    decreases toks.len(), 2int,
{
    if sp_peek(toks).kind != TokenKind::BraceClose {
        lemma_sp_skip_newlines_len(toks);
        let t1 = sp_skip_newlines(toks);
        if sp_peek(t1).kind != TokenKind::End {
            lemma_sp_decl_len(t1);
            let (d, t2, ds1) = sp_decl(t1);
            match d {
                Some(_) => {
                    lemma_sp_skip_newlines_len(t2);
                    let t3 = sp_skip_newlines(t2);
                    if t3.len() < toks.len() {
                        lemma_sp_class_items_len(name, t3);
                    }
                },
                None => {
                    lemma_sp_recover_len(t2);
                    lemma_sp_skip_newlines_len(sp_recover(t2));
                    let t3 = sp_skip_newlines(sp_recover(t2));
                    if t3.len() < toks.len() {
                        lemma_sp_class_items_len(name, t3);
                    }
                },
            }
        }
    }
}

/// decl := class-decl | expr. Result: the declaration if one parsed,
/// the remaining stream, and the parser's own diagnostics in emission
/// order.
pub open spec fn sp_decl(toks: Seq<Token>) -> (
    Option<GrammarTree>,
    Seq<Token>,
    Seq<(Seq<char>, SourceSpan)>,
)
    decreases toks.len(), 1int,
{
    if sp_peek(toks).kind == TokenKind::KeywordClass || sp_peek(toks).kind
        == TokenKind::KeywordStruct {
        sp_finish_class(toks[0], toks.drop_first())
    } else {
        let (r, t1) = sp_term(toks);
        (r, t1, Seq::empty())
    }
}

/// class-decl after its keyword: name, optional newlines, `{`, body
/// items. A missing name or missing `{` fails with one diagnostic at
/// the current token.
pub open spec fn sp_finish_class(kw: Token, toks: Seq<Token>) -> (
    Option<GrammarTree>,
    Seq<Token>,
    Seq<(Seq<char>, SourceSpan)>,
)
    decreases toks.len(), 0int,
        via sp_finish_class_decreases
{
    if sp_peek(toks).kind != TokenKind::Ident {
        (
            None::<GrammarTree>,
            toks,
            seq![("expected name for class"@, sp_peek(toks).span)],
        )
    } else {
        let name = toks[0];
        let t1 = sp_skip_newlines(toks.drop_first());
        if sp_peek(t1).kind != TokenKind::BraceOpen {
            (
                None::<GrammarTree>,
                t1,
                seq![("expected '{' following a class declaration"@, sp_peek(t1).span)],
            )
        } else {
            let t2 = sp_skip_newlines(t1.drop_first());
            if t2.len() < toks.len() {
                let (kids, t3, ds) = sp_class_items(name, t2);
                (Some(GrammarTree::ClassDecl(kw, name, kids)), t3, ds)
            } else {
                (None::<GrammarTree>, t2, Seq::empty())
            }
        }
    }
}

#[via_fn]
proof fn sp_finish_class_decreases(kw: Token, toks: Seq<Token>) {
    lemma_sp_skip_newlines_len(toks.drop_first());
    if sp_peek(toks).kind == TokenKind::Ident {
        let t1 = sp_skip_newlines(toks.drop_first());
        lemma_sp_skip_newlines_len(t1.drop_first());
    }
}

/// Items of a class body, up to the closing `}` — or `End`, which is
/// treated as an implicit close after one "unclosed class" diagnostic
/// at the class name's span. A failed declaration is reported at the
/// current token and recovery discards through the next newline.
pub open spec fn sp_class_items(name: Token, toks: Seq<Token>) -> (
    Seq<GrammarTree>,
    Seq<Token>,
    Seq<(Seq<char>, SourceSpan)>,
)
    decreases toks.len(), 2int,
        via sp_class_items_decreases
{
    if sp_peek(toks).kind == TokenKind::BraceClose {
        (Seq::empty(), toks.drop_first(), Seq::empty())
    } else {
        let t1 = sp_skip_newlines(toks);
        if sp_peek(t1).kind == TokenKind::End {
            (Seq::empty(), t1, seq![("unclosed class"@, name.span)])
        } else {
            let (d, t2, ds1) = sp_decl(t1);
            match d {
                Some(decl) => {
                    let t3 = sp_skip_newlines(t2);
                    if t3.len() < toks.len() {
                        let (rest, t4, ds2) = sp_class_items(name, t3);
                        (seq![decl] + rest, t4, ds1 + ds2)
                    } else {
                        (seq![decl], t3, ds1)
                    }
                },
                None => {
                    let miss = ("expected a declaration"@, sp_peek(t2).span);
                    let t3 = sp_skip_newlines(sp_recover(t2));
                    if t3.len() < toks.len() {
                        let (rest, t4, ds2) = sp_class_items(name, t3);
                        (rest, t4, ds1 + seq![miss] + ds2)
                    } else {
                        (Seq::empty(), t3, ds1 + seq![miss])
                    }
                },
            }
        }
    }
}

#[via_fn]
proof fn sp_class_items_decreases(name: Token, toks: Seq<Token>) {
    lemma_sp_skip_newlines_len(toks);
}

/// Declarations at the root, up to `End`. A failed declaration is
/// reported at the current token and recovery discards through the
/// next newline.
pub open spec fn sp_root_items(toks: Seq<Token>) -> (
    Seq<GrammarTree>,
    Seq<Token>,
    Seq<(Seq<char>, SourceSpan)>,
)
    decreases toks.len(), 3int,
        via sp_root_items_decreases
{
    if sp_peek(toks).kind == TokenKind::End {
        (Seq::empty(), toks, Seq::empty())
    } else {
        let t1 = sp_skip_newlines(toks);
        let (d, t2, ds1) = sp_decl(t1);
        match d {
            Some(decl) => {
                let t3 = sp_skip_newlines(t2);
                if t3.len() < toks.len() {
                    let (rest, t4, ds2) = sp_root_items(t3);
                    (seq![decl] + rest, t4, ds1 + ds2)
                } else {
                    (seq![decl], t3, ds1)
                }
            },
            None => {
                let miss = ("expected a declaration"@, sp_peek(t2).span);
                let t3 = sp_skip_newlines(sp_recover(t2));
                if t3.len() < toks.len() {
                    let (rest, t4, ds2) = sp_root_items(t3);
                    (rest, t4, ds1 + seq![miss] + ds2)
                } else {
                    (Seq::empty(), t3, ds1 + seq![miss])
                }
            },
        }
    }
}

#[via_fn]
proof fn sp_root_items_decreases(toks: Seq<Token>) {
    lemma_sp_skip_newlines_len(toks);
}

/// root := skip-nl (decl skip-nl)* End — what a whole parse of the
/// stream denotes: the root's children, the final stream, and the
/// parser's own diagnostics in order.
pub open spec fn sp_parse(toks: Seq<Token>) -> (
    Seq<GrammarTree>,
    Seq<Token>,
    Seq<(Seq<char>, SourceSpan)>,
) {
    sp_root_items(sp_skip_newlines(toks))
}

/// Parser state: the token source, one token of lookahead, the arena
/// being filled, and the pool of cleared scratch lists used to build
/// child lists.
struct Parser<'a> {
    tokens: Tokenizer<'a>,
    token: Token,
    nodes: Vec<Ast>,
    temp_lists: Vec<Vec<usize>>,
}

impl<'a> Parser<'a> {
    closed spec fn spec_token(&self) -> Token {
        self.token
    }

    closed spec fn spec_nodes(&self) -> Seq<Ast> {
        self.nodes@
    }

    /// Bytes not yet scanned, plus one if the lookahead is not `End`:
    /// an upper bound on the tokens the parser can still consume, and
    /// the measure that proves every parse terminates.
    closed spec fn measure(&self) -> int {
        self.tokens.src().len() - self.tokens.spec_pos() + if self.token.kind == TokenKind::End {
            0int
        } else {
            1int
        }
    }

    closed spec fn wf(&self) -> bool {
        &&& self.tokens.wf()
        &&& scan_ok_from(self.tokens.src(), self.tokens.spec_pos() as nat)
        &&& (self.token.kind == TokenKind::End ==> self.tokens.spec_pos()
            == self.tokens.src().len() && self.token == (Token {
            kind: TokenKind::End,
            span: span_at(
                self.tokens.spec_file(),
                self.tokens.src().len() as int,
                self.tokens.src().len() as int,
            ),
        }))
        &&& arena_ok(self.nodes@)
        &&& forall|i: int| 0 <= i < self.nodes@.len() ==> !(#[trigger] self.nodes@[i]).is_root()
        &&& forall|i: int|
            0 <= i < self.temp_lists@.len() ==> (#[trigger] self.temp_lists@[i])@.len() == 0
    }

    /// The tokens the parser has yet to look at: the lookahead, then
    /// everything the tokenizer will still produce. Once the lookahead
    /// is `End`, the stream has shrunk to that one token for good.
    closed spec fn upcoming(&self) -> Seq<Token> {
        if self.token.kind == TokenKind::End {
            seq![self.token]
        } else {
            seq![self.token] + spec_token_seq(
                self.tokens.spec_file(),
                self.tokens.src(),
                self.tokens.spec_pos() as nat,
            )
        }
    }

    /// What any parsing step may do to the state: the stream stays the
    /// same, the measure never grows (and a step that keeps it keeps
    /// the lookahead too), and the arena only gains nodes.
    closed spec fn steps_from(&self, pre: Self) -> bool {
        &&& self.tokens.src() == pre.tokens.src()
        &&& self.tokens.spec_file() == pre.tokens.spec_file()
        &&& self.measure() <= pre.measure()
        &&& (self.measure() == pre.measure() ==> self.token.kind == pre.token.kind)
        &&& self.nodes@.len() >= pre.nodes@.len()
        &&& forall|i: int| 0 <= i < pre.nodes@.len() ==> self.nodes@[i] == pre.nodes@[i]
    }

    fn new(tokens: Tokenizer<'a>) -> (r: Parser<'a>)
        requires
            tokens.wf(),
            scan_ok_from(tokens.src(), tokens.spec_pos() as nat),
        ensures
            r.wf(),
            r.spec_nodes().len() == 0,
            sp_advance(r.upcoming()) == spec_token_seq(
                tokens.spec_file(),
                tokens.src(),
                tokens.spec_pos() as nat,
            ),
    {
        let r = Parser { tokens, token: Token::error(), nodes: Vec::new(), temp_lists: Vec::new() };
        proof {
            assert(r.upcoming().drop_first() =~= spec_token_seq(
                r.tokens.spec_file(),
                r.tokens.src(),
                r.tokens.spec_pos() as nat,
            ));
        }
        r
    }

    /// Swaps the lookahead for the next token of the stream and hands
    /// the old lookahead out.
    fn advance<E: Errors>(&mut self, errors: &mut E) -> (t: Token)
        requires
            old(self).wf(),
        ensures
            final(self).wf(),
            final(self).steps_from(*old(self)),
            final(self).spec_nodes() == old(self).spec_nodes(),
            final(self).temp_lists_of() == old(self).temp_lists_of(),
            t == old(self).spec_token(),
            old(self).spec_token().kind != TokenKind::End ==> final(self).measure() < old(
                self,
            ).measure(),
            log_extends(old(errors).log(), final(errors).log()),
            final(self).upcoming() == sp_advance(old(self).upcoming()),
            final(self).spec_token() == sp_peek(final(self).upcoming()),
            final(self).spec_token().kind != TokenKind::Error ==> final(errors).log() == old(
                errors,
            ).log(),
    {
        proof {
            let src = self.tokens.src();
            let file = self.tokens.spec_file();
            let pos = self.tokens.spec_pos();
            if self.token.kind == TokenKind::End {
                assert(self.tokens.spec_pos() == src.len());
                assert(skip_trivia(src, src.len() as nat) == src.len());
            } else {
                crate::front::tokenizer::lemma_token_seq_step(file, src, pos as nat);
                assert((seq![self.token] + spec_token_seq(file, src, pos as nat)).drop_first()
                    =~= spec_token_seq(file, src, pos as nat));
            }
        }
        let t = self.tokens.next_token(errors);
        let prev = self.token;
        self.token = t;
        proof {
            let file = self.tokens.spec_file();
            let src = self.tokens.src();
            let pos0 = old(self).tokens.spec_pos();
            let p = skip_trivia(src, pos0 as nat);
            if prev.kind == TokenKind::End {
                assert(t == prev);
                assert(self.upcoming() =~= seq![prev]);
                assert(sp_advance(old(self).upcoming()) == old(self).upcoming());
            } else {
                crate::front::tokenizer::lemma_skip_trivia_bounds(src, pos0 as nat, false);
                if p < src.len() {
                    crate::front::tokenizer::lemma_scan_token_bounds(src, p);
                }
                crate::front::tokenizer::lemma_token_seq_step(file, src, pos0 as nat);
                assert(sp_advance(old(self).upcoming()) == spec_token_seq(
                    file,
                    src,
                    pos0 as nat,
                ));
                if t.kind == TokenKind::End {
                    assert(p >= src.len());
                    assert(spec_token_seq(file, src, pos0 as nat) == seq![t]);
                    assert(self.upcoming() =~= seq![t]);
                } else {
                    assert(p < src.len());
                    let kind = crate::front::tokenizer::scan_token(src, p).0;
                    let e = crate::front::tokenizer::scan_token(src, p).1;
                    assert(t == (Token { kind, span: span_at(file, p as int, e as int) }));
                    assert(self.tokens.spec_pos() == e);
                    assert(self.upcoming() =~= seq![t] + spec_token_seq(file, src, e));
                    assert(spec_token_seq(file, src, pos0 as nat) == seq![t] + spec_token_seq(
                        file,
                        src,
                        e,
                    ));
                }
            }
        }
        prev
    }

    closed spec fn temp_lists_of(&self) -> Seq<Vec<usize>> {
        self.temp_lists@
    }

    /// Consumes the lookahead only if it has the wanted kind.
    fn accept<E: Errors>(&mut self, errors: &mut E, tk: TokenKind) -> (r: Option<Token>)
        requires
            old(self).wf(),
        ensures
            final(self).wf(),
            final(self).steps_from(*old(self)),
            final(self).spec_nodes() == old(self).spec_nodes(),
            final(self).temp_lists_of() == old(self).temp_lists_of(),
            log_extends(old(errors).log(), final(errors).log()),
            match r {
                Some(t) => {
                    &&& old(self).spec_token().kind == tk
                    &&& t == old(self).spec_token()
                    &&& (tk != TokenKind::End ==> final(self).measure() < old(self).measure())
                    &&& final(self).upcoming() == sp_advance(old(self).upcoming())
                    &&& (final(self).spec_token().kind != TokenKind::Error ==> final(errors).log()
                        == old(errors).log())
                },
                None => {
                    &&& old(self).spec_token().kind != tk
                    &&& *final(self) == *old(self)
                    &&& final(errors).log() == old(errors).log()
                },
            },
            final(self).spec_token() == sp_peek(final(self).upcoming()),
            sp_peek(old(self).upcoming()) == old(self).spec_token(),
    {
        if self.token.kind == tk {
            Some(self.advance(errors))
        } else {
            None
        }
    }

    /// Newlines act as statement terminators: they are skipped between
    /// declarations, never inside an expression.
    fn skip_newlines<E: Errors>(&mut self, errors: &mut E)
        requires
            old(self).wf(),
        ensures
            final(self).wf(),
            final(self).steps_from(*old(self)),
            final(self).spec_nodes() == old(self).spec_nodes(),
            final(self).temp_lists_of() == old(self).temp_lists_of(),
            final(self).spec_token().kind != TokenKind::Newline,
            old(self).spec_token().kind != TokenKind::Newline ==> *final(self) == *old(self)
                && final(errors).log() == old(errors).log(),
            log_extends(old(errors).log(), final(errors).log()),
            final(self).upcoming() == sp_skip_newlines(old(self).upcoming()),
            final(self).spec_token() == sp_peek(final(self).upcoming()),
            no_err(old(self).upcoming()) ==> final(errors).log() == old(errors).log() && no_err(
                final(self).upcoming(),
            ),
    {
        broadcast use lemma_steps_from_trans;

        let ghost pre = *self;
        let ghost log0 = errors.log();
        loop
            invariant
                pre == *old(self),
                log0 == old(errors).log(),
                self.wf(),
                self.steps_from(pre),
                self.spec_nodes() == pre.spec_nodes(),
                self.temp_lists_of() == pre.temp_lists_of(),
                log_extends(log0, errors.log()),
                pre.spec_token().kind != TokenKind::Newline ==> *self == pre && errors.log()
                    == log0,
                sp_skip_newlines(self.upcoming()) == sp_skip_newlines(pre.upcoming()),
                no_err(pre.upcoming()) ==> errors.log() == log0 && no_err(self.upcoming()),
            ensures
                self.wf(),
                self.steps_from(pre),
                self.spec_nodes() == pre.spec_nodes(),
                self.temp_lists_of() == pre.temp_lists_of(),
                log_extends(log0, errors.log()),
                self.spec_token().kind != TokenKind::Newline,
                pre.spec_token().kind != TokenKind::Newline ==> *self == pre && errors.log()
                    == log0,
                self.upcoming() == sp_skip_newlines(pre.upcoming()),
                no_err(pre.upcoming()) ==> errors.log() == log0 && no_err(self.upcoming()),
            decreases self.measure(),
        {
            broadcast use lemma_steps_from_trans;

            let ghost head = *self;
            if self.accept(errors, TokenKind::Newline).is_none() {
                proof {
                    assert(sp_peek(self.upcoming()) == self.spec_token());
                    assert(sp_skip_newlines(self.upcoming()) == self.upcoming());
                }
                break ;
            }
            proof {
                assert(head.upcoming()[0].kind == TokenKind::Newline);
                assert(self.upcoming() == head.upcoming().drop_first());
                if no_err(pre.upcoming()) {
                    lemma_no_err_drop(head.upcoming());
                }
            }
        }
    }

    /// Appends one node to the arena and returns its index.
    fn push_node(&mut self, ast: Ast) -> (id: usize)
        requires
            old(self).wf(),
            forall|j: int|
                0 <= j < ast.spec_children().len() ==> 0 <= #[trigger] (ast.spec_children()[j])
                    < old(self).spec_nodes().len(),
            ast.kinds_ok(),
            !ast.is_root(),
        ensures
            final(self).wf(),
            final(self).steps_from(*old(self)),
            final(self).spec_nodes() == old(self).spec_nodes().push(ast),
            final(self).temp_lists_of() == old(self).temp_lists_of(),
            final(self).spec_token() == old(self).spec_token(),
            final(self).measure() == old(self).measure(),
            final(self).upcoming() == old(self).upcoming(),
            id == old(self).spec_nodes().len(),
    {
        let id = self.nodes.len();
        self.nodes.push(ast);
        id
    }

    /// Borrows a cleared scratch list from the pool, or a fresh one if
    /// the pool is empty.
    fn begin_list(&mut self) -> (r: Vec<usize>)
        requires
            old(self).wf(),
        ensures
            final(self).wf(),
            final(self).steps_from(*old(self)),
            final(self).spec_nodes() == old(self).spec_nodes(),
            final(self).spec_token() == old(self).spec_token(),
            final(self).measure() == old(self).measure(),
            r@.len() == 0,
    {
        match self.temp_lists.pop() {
            Some(list) => list,
            None => Vec::new(),
        }
    }

    /// Copies a finished child list into permanent storage, then
    /// clears the scratch buffer and returns it to the pool, so that
    /// transient allocation is bounded by the deepest nesting level.
    fn push_list(&mut self, list: Vec<usize>) -> (r: Vec<usize>)
        requires
            old(self).wf(),
        ensures
            final(self).wf(),
            final(self).steps_from(*old(self)),
            final(self).spec_nodes() == old(self).spec_nodes(),
            final(self).spec_token() == old(self).spec_token(),
            final(self).measure() == old(self).measure(),
            r@ == list@,
    {
        let mut result: Vec<usize> = Vec::new();
        let mut i: usize = 0;
        while i < list.len()
            invariant
                i <= list@.len(),
                result@ == list@.subrange(0, i as int),
            decreases list@.len() - i,
        {
            result.push(list[i]);
            proof {
                assert(result@ =~= list@.subrange(0, i + 1));
            }
            i = i + 1;
        }
        proof {
            assert(result@ =~= list@);
        }
        let mut list = list;
        list.clear();
        self.temp_lists.push(list);
        result
    }

    /// atom := Ident
    fn parse_atom<E: Errors>(&mut self, errors: &mut E) -> (r: Option<usize>)
        requires
            old(self).wf(),
        ensures
            final(self).wf(),
            final(self).steps_from(*old(self)),
            log_extends(old(errors).log(), final(errors).log()),
            match r {
                Some(id) => id < final(self).spec_nodes().len() && final(self).measure() < old(
                    self,
                ).measure(),
                None => *final(self) == *old(self) && final(errors).log() == old(errors).log(),
            },
            ({
                let (d, t2) = sp_atom(old(self).upcoming());
                match (r, d) {
                    (Some(id), Some(tree)) => denotes(final(self).spec_nodes(), id as int, tree)
                        && final(self).upcoming() == t2,
                    (None, None) => true,
                    _ => false,
                }
            }),
            no_err(old(self).upcoming()) ==> final(errors).log() == old(errors).log() && no_err(
                final(self).upcoming(),
            ),
    {
        proof {
            assert(self.upcoming()[0] == self.token);
        }
        if self.token.kind == TokenKind::Ident {
            let ghost up0 = self.upcoming();
            let t = self.advance(errors);
            let id = self.push_node(Ast::Name(t));
            proof {
                assert(self.spec_nodes()[id as int] == Ast::Name(t));
                assert(denotes(self.spec_nodes(), id as int, GrammarTree::Name(t)));
                if no_err(up0) {
                    lemma_no_err_drop(up0);
                }
            }
            Some(id)
        } else {
            None
        }
    }

    /// term := atom ("+" atom)*
    fn parse_term<E: Errors>(&mut self, errors: &mut E) -> (r: Option<usize>)
        requires
            old(self).wf(),
        ensures
            final(self).wf(),
            final(self).steps_from(*old(self)),
            log_extends(old(errors).log(), final(errors).log()),
            match r {
                Some(id) => id < final(self).spec_nodes().len() && final(self).measure() < old(
                    self,
                ).measure(),
                None => final(self).measure() == old(self).measure() ==> *final(self) == *old(
                    self,
                ),
            },
            ({
                let (d, t2) = sp_term(old(self).upcoming());
                match (r, d) {
                    (Some(id), Some(tree)) => denotes(final(self).spec_nodes(), id as int, tree)
                        && final(self).upcoming() == t2,
                    (None, None) => final(self).upcoming() == t2,
                    _ => false,
                }
            }),
            no_err(old(self).upcoming()) ==> final(errors).log() == old(errors).log() && no_err(
                final(self).upcoming(),
            ),
    {
        broadcast use lemma_steps_from_trans;

        let ghost pre = *self;
        let ghost log0 = errors.log();
        let mut lhs = match self.parse_atom(errors) {
            Some(id) => id,
            None => {
                return None;
            },
        };
        let ghost mut lhs_tree = GrammarTree::Name(pre.upcoming()[0]);
        proof {
            assert(pre.upcoming()[0] == pre.spec_token());
            assert(sp_term(pre.upcoming()) == sp_term_rest(lhs_tree, self.upcoming()));
        }
        loop
            invariant
                pre == *old(self),
                log0 == old(errors).log(),
                self.wf(),
                self.steps_from(pre),
                self.measure() < pre.measure(),
                lhs < self.spec_nodes().len(),
                log_extends(log0, errors.log()),
                denotes(self.spec_nodes(), lhs as int, lhs_tree),
                sp_term(pre.upcoming()) == sp_term_rest(lhs_tree, self.upcoming()),
                self.spec_token() == sp_peek(self.upcoming()),
                no_err(pre.upcoming()) ==> errors.log() == log0 && no_err(self.upcoming()),
            ensures
                self.wf(),
                self.steps_from(pre),
                self.measure() < pre.measure(),
                lhs < self.spec_nodes().len(),
                log_extends(log0, errors.log()),
                denotes(self.spec_nodes(), lhs as int, lhs_tree),
                sp_term(pre.upcoming()) == (Some(lhs_tree), self.upcoming()),
                no_err(pre.upcoming()) ==> errors.log() == log0 && no_err(self.upcoming()),
            decreases self.measure(),
        {
            broadcast use lemma_steps_from_trans;

            if self.token.kind == TokenKind::Add {
                let ghost up_head = self.upcoming();
                let op = self.advance(errors);
                let ghost up_mid = self.upcoming();
                let ghost nodes_mid = self.spec_nodes();
                proof {
                    if no_err(pre.upcoming()) {
                        lemma_no_err_drop(up_head);
                    }
                }
                let rhs = match self.parse_atom(errors) {
                    Some(id) => id,
                    None => {
                        proof {
                            assert(sp_term_rest(lhs_tree, up_head) == (
                                None::<GrammarTree>,
                                self.upcoming(),
                            ));
                        }
                        return None;
                    },
                };
                let ghost rhs_tree = GrammarTree::Name(up_mid[0]);
                proof {
                    lemma_denotes_grow(nodes_mid, self.spec_nodes(), lhs as int, lhs_tree);
                }
                let ghost nodes_atom = self.spec_nodes();
                let ghost lhs_old = lhs as int;
                lhs = self.push_node(Ast::Binop(op, lhs, rhs));
                proof {
                    lemma_denotes_grow(nodes_atom, self.spec_nodes(), lhs_old, lhs_tree);
                    lemma_denotes_grow(nodes_atom, self.spec_nodes(), rhs as int, rhs_tree);
                    let prev_tree = lhs_tree;
                    lhs_tree = GrammarTree::Binop(op, seq![prev_tree, rhs_tree]);
                    assert(denotes(self.spec_nodes(), lhs as int, lhs_tree));
                    assert(sp_term_rest(prev_tree, up_head) == sp_term_rest(
                        lhs_tree,
                        self.upcoming(),
                    ));
                }
            } else {
                proof {
                    assert(sp_term_rest(lhs_tree, self.upcoming()) == (
                        Some(lhs_tree),
                        self.upcoming(),
                    ));
                }
                break ;
            }
        }
        Some(lhs)
    }

    /// expr := term
    fn parse_expr<E: Errors>(&mut self, errors: &mut E) -> (r: Option<usize>)
        requires
            old(self).wf(),
        ensures
            final(self).wf(),
            final(self).steps_from(*old(self)),
            log_extends(old(errors).log(), final(errors).log()),
            match r {
                Some(id) => id < final(self).spec_nodes().len() && final(self).measure() < old(
                    self,
                ).measure(),
                None => final(self).measure() == old(self).measure() ==> *final(self) == *old(
                    self,
                ),
            },
            ({
                let (d, t2) = sp_term(old(self).upcoming());
                match (r, d) {
                    (Some(id), Some(tree)) => denotes(final(self).spec_nodes(), id as int, tree)
                        && final(self).upcoming() == t2,
                    (None, None) => final(self).upcoming() == t2,
                    _ => false,
                }
            }),
            no_err(old(self).upcoming()) ==> final(errors).log() == old(errors).log() && no_err(
                final(self).upcoming(),
            ),
    {
        self.parse_term(errors)
    }

    /// class-decl := ("class"|"struct") Ident "{" skip-nl (decl skip-nl)* "}"
    ///
    /// If the body reaches `End` before its closing brace, one
    /// "unclosed class" diagnostic is reported at the class name's span
    /// and `End` is treated as an implicit close rather than looping.
    fn finish_class<E: Errors>(&mut self, errors: &mut E, kw: Token) -> (r: Option<usize>)
        requires
            old(self).wf(),
            kw.kind == TokenKind::KeywordClass || kw.kind == TokenKind::KeywordStruct,
        ensures
            final(self).wf(),
            final(self).steps_from(*old(self)),
            log_extends(old(errors).log(), final(errors).log()),
            match r {
                Some(id) => id < final(self).spec_nodes().len(),
                None => final(self).measure() == old(self).measure() ==> *final(self) == *old(
                    self,
                ),
            },
            ({
                let (d, t2, ds) = sp_finish_class(kw, old(self).upcoming());
                &&& match (r, d) {
                    (Some(id), Some(tree)) => denotes(final(self).spec_nodes(), id as int, tree)
                        && final(self).upcoming() == t2,
                    (None, None) => final(self).upcoming() == t2,
                    _ => false,
                }
                &&& (no_err(old(self).upcoming()) ==> emitted(
                    old(errors).log(),
                    final(errors).log(),
                    ds,
                ) && no_err(final(self).upcoming()))
            }),
        decreases old(self).measure(), 0int,
    {
        broadcast use lemma_steps_from_trans;

        let ghost pre = *self;
        let ghost log0 = errors.log();
        proof {
            assert(pre.upcoming()[0] == pre.spec_token());
            assert(emitted(log0, log0, Seq::empty()));
        }
        let name = match self.accept(errors, TokenKind::Ident) {
            Some(t) => t,
            None => {
                let site = InternalLocation { file: "front/parser.rs", line: 421 };
                let at = self.token;
                push_error(errors, &site, &at, String::from_str("expected name for class"));
                return None;
            },
        };

        proof {
            if no_err(pre.upcoming()) {
                lemma_no_err_drop(pre.upcoming());
            }
        }
        self.skip_newlines(errors);
        let ghost up_before_brace = self.upcoming();
        if self.accept(errors, TokenKind::BraceOpen).is_none() {
            let site = InternalLocation { file: "front/parser.rs", line: 430 };
            let at = self.token;
            push_error(
                errors,
                &site,
                &at,
                String::from_str("expected '{' following a class declaration"),
            );
            return None;
        }

        proof {
            if no_err(pre.upcoming()) {
                lemma_no_err_drop(up_before_brace);
            }
        }
        let mut decls = self.begin_list();

        self.skip_newlines(errors);
        let ghost start_up = self.upcoming();
        let ghost mut kid_trees: Seq<GrammarTree> = Seq::empty();
        let ghost mut diags_done: Seq<(Seq<char>, SourceSpan)> = Seq::empty();
        proof {
            lemma_sp_skip_newlines_len(pre.upcoming().drop_first());
            lemma_sp_skip_newlines_len(up_before_brace.drop_first());
            assert(start_up.len() < pre.upcoming().len());
        }
        loop
            invariant_except_break
                ({
                    let (rk, rt, rd) = sp_class_items(name, self.upcoming());
                    let (ak, at2, ad) = sp_class_items(name, start_up);
                    &&& ak == kid_trees + rk
                    &&& at2 == rt
                    &&& ad == diags_done + rd
                }),
            invariant
                pre == *old(self),
                log0 == old(errors).log(),
                self.wf(),
                self.steps_from(pre),
                self.measure() <= pre.measure() - 2,
                forall|i: int| 0 <= i < decls@.len() ==> #[trigger] (decls@[i]) < self.spec_nodes().len(),
                log_extends(log0, errors.log()),
                decls@.len() == kid_trees.len(),
                forall|i: int|
                    0 <= i < decls@.len() ==> denotes(
                        self.spec_nodes(),
                        #[trigger] (decls@[i]) as int,
                        kid_trees[i],
                    ),
                self.spec_token() == sp_peek(self.upcoming()),
                no_err(pre.upcoming()) ==> emitted(log0, errors.log(), diags_done) && no_err(
                    self.upcoming(),
                ),
            ensures
                self.wf(),
                self.steps_from(pre),
                forall|i: int| 0 <= i < decls@.len() ==> #[trigger] (decls@[i]) < self.spec_nodes().len(),
                log_extends(log0, errors.log()),
                decls@.len() == kid_trees.len(),
                forall|i: int|
                    0 <= i < decls@.len() ==> denotes(
                        self.spec_nodes(),
                        #[trigger] (decls@[i]) as int,
                        kid_trees[i],
                    ),
                ({
                    let (ak, at2, ad) = sp_class_items(name, start_up);
                    &&& ak == kid_trees
                    &&& at2 == self.upcoming()
                    &&& ad == diags_done
                }),
                no_err(pre.upcoming()) ==> emitted(log0, errors.log(), diags_done) && no_err(
                    self.upcoming(),
                ),
            decreases self.measure(),
        {
            broadcast use lemma_steps_from_trans;

            let ghost head = *self;
            let ghost dd_head = diags_done;
            if self.accept(errors, TokenKind::BraceClose).is_some() {
                proof {
                    assert(sp_class_items(name, head.upcoming()) == (
                        Seq::<GrammarTree>::empty(),
                        self.upcoming(),
                        Seq::<(Seq<char>, SourceSpan)>::empty(),
                    ));
                    assert(kid_trees + Seq::<GrammarTree>::empty() =~= kid_trees);
                    assert(diags_done + Seq::<(Seq<char>, SourceSpan)>::empty() =~= diags_done);
                }
                break ;
            }
            self.skip_newlines(errors);
            let ghost s2 = *self;
            let ghost t1 = s2.upcoming();
            if self.accept(errors, TokenKind::End).is_some() {
                let site = InternalLocation { file: "front/parser.rs", line: 469 };
                push_error(errors, &site, &name, String::from_str("unclosed class"));
                proof {
                    assert(sp_class_items(name, head.upcoming()) == (
                        Seq::<GrammarTree>::empty(),
                        t1,
                        seq![("unclosed class"@, name.span)],
                    ));
                    diags_done = diags_done + seq![("unclosed class"@, name.span)];
                    assert(kid_trees + Seq::<GrammarTree>::empty() =~= kid_trees);
                    let (ak, at2, ad) = sp_class_items(name, start_up);
                    assert(ad =~= dd_head + seq![("unclosed class"@, name.span)]);
                }
                break ;
            }

            let ghost nodes_head = self.spec_nodes();
            match self.parse_decl(errors) {
                Some(decl) => {
                    decls.push(decl);
                    proof {
                        let (d, t2, ds1) = sp_decl(t1);
                        lemma_sp_decl_len(t1);
                        lemma_sp_skip_newlines_len(t2);
                        kid_trees = kid_trees.push(d.unwrap());
                        diags_done = diags_done + ds1;
                        assert forall|i: int|
                            0 <= i < decls@.len() - 1 implies denotes(
                            self.spec_nodes(),
                            #[trigger] (decls@[i]) as int,
                            kid_trees[i],
                        ) by {
                            lemma_denotes_grow(
                                nodes_head,
                                self.spec_nodes(),
                                decls@[i] as int,
                                kid_trees[i],
                            );
                        }
                    }
                },
                None => {
                    let ghost s3 = *self;
                    let site = InternalLocation { file: "front/parser.rs", line: 480 };
                    let at = self.token;
                    push_error(errors, &site, &at, String::from_str("expected a declaration"));
                    proof {
                        if s3.measure() == s2.measure() {
                            assert(s3 == s2);
                            assert(s3.spec_token().kind != TokenKind::End);
                        }
                        let (d, t2, ds1) = sp_decl(t1);
                        lemma_sp_decl_len(t1);
                        lemma_sp_recover_len(t2);
                        assert(t2.len() > 0);
                        if t2 == t1 {
                            assert(t2[0] == s2.spec_token());
                            assert(t2[0].kind != TokenKind::End);
                        }
                        lemma_sp_skip_newlines_len(sp_recover(t2));
                        diags_done = diags_done + ds1 + seq![
                            ("expected a declaration"@, sp_peek(t2).span),
                        ];
                    }
                    self.recover_decl(errors);
                    proof {
                        assert(self.steps_from(head));
                        assert forall|i: int|
                            0 <= i < decls@.len() implies denotes(
                            self.spec_nodes(),
                            #[trigger] (decls@[i]) as int,
                            kid_trees[i],
                        ) by {
                            lemma_denotes_grow(
                                nodes_head,
                                self.spec_nodes(),
                                decls@[i] as int,
                                kid_trees[i],
                            );
                        }
                    }
                },
            }
            proof {
                assert(self.measure() < head.measure());
            }
            self.skip_newlines(errors);
            proof {
                assert(self.measure() < head.measure());
                lemma_sp_skip_newlines_len(head.upcoming());
                assert(self.upcoming().len() < head.upcoming().len());
                let (rk, rt, rd) = sp_class_items(name, self.upcoming());
                let (hk, ht, hd) = sp_class_items(name, head.upcoming());
                let (ak, at2, ad) = sp_class_items(name, start_up);
                assert(ak =~= kid_trees + rk);
                assert(ad =~= diags_done + rd);
            }
        }

        let children = self.push_list(decls);
        let ghost nodes_before = self.spec_nodes();
        let id = self.push_node(Ast::ClassDecl(kw, name, children));
        proof {
            assert forall|j: int|
                0 <= j < kid_trees.len() implies (#[trigger] children@[j]) < id && denotes(
                self.spec_nodes(),
                children@[j] as int,
                kid_trees[j],
            ) by {
                lemma_denotes_grow(
                    nodes_before,
                    self.spec_nodes(),
                    children@[j] as int,
                    kid_trees[j],
                );
            }
            assert(denotes(
                self.spec_nodes(),
                id as int,
                GrammarTree::ClassDecl(kw, name, kid_trees),
            ));
        }
        Some(id)
    }

    /// decl := class-decl | expr
    fn parse_decl<E: Errors>(&mut self, errors: &mut E) -> (r: Option<usize>)
        requires
            old(self).wf(),
        ensures
            final(self).wf(),
            final(self).steps_from(*old(self)),
            log_extends(old(errors).log(), final(errors).log()),
            match r {
                Some(id) => id < final(self).spec_nodes().len() && final(self).measure() < old(
                    self,
                ).measure(),
                None => final(self).measure() == old(self).measure() ==> *final(self) == *old(
                    self,
                ),
            },
            ({
                let (d, t2, ds) = sp_decl(old(self).upcoming());
                &&& match (r, d) {
                    (Some(id), Some(tree)) => denotes(final(self).spec_nodes(), id as int, tree)
                        && final(self).upcoming() == t2,
                    (None, None) => final(self).upcoming() == t2,
                    _ => false,
                }
                &&& (no_err(old(self).upcoming()) ==> emitted(
                    old(errors).log(),
                    final(errors).log(),
                    ds,
                ) && no_err(final(self).upcoming()))
            }),
        decreases old(self).measure(), 1int,
    {
        broadcast use lemma_steps_from_trans;

        proof {
            assert(self.upcoming()[0] == self.token);
            assert(emitted(errors.log(), errors.log(), Seq::empty()));
        }
        if self.token.kind == TokenKind::KeywordClass || self.token.kind
            == TokenKind::KeywordStruct {
            let ghost up0 = self.upcoming();
            let token = self.advance(errors);
            proof {
                if no_err(up0) {
                    lemma_no_err_drop(up0);
                }
            }
            self.finish_class(errors, token)
        } else {
            self.parse_expr(errors)
        }
    }

    /// Error recovery: discards tokens up to and including the next
    /// `Newline` or `End`, so parsing makes progress on arbitrarily
    /// malformed input.
    fn recover_decl<E: Errors>(&mut self, errors: &mut E)
        requires
            old(self).wf(),
        ensures
            final(self).wf(),
            final(self).steps_from(*old(self)),
            log_extends(old(errors).log(), final(errors).log()),
            old(self).spec_token().kind != TokenKind::End ==> final(self).measure() < old(
                self,
            ).measure(),
            final(self).upcoming() == sp_recover(old(self).upcoming()),
            no_err(old(self).upcoming()) ==> final(errors).log() == old(errors).log() && no_err(
                final(self).upcoming(),
            ),
    {
        broadcast use lemma_steps_from_trans;

        let ghost pre = *self;
        let ghost log0 = errors.log();
        loop
            invariant_except_break
                sp_recover(self.upcoming()) == sp_recover(pre.upcoming()),
            invariant
                pre == *old(self),
                log0 == old(errors).log(),
                self.wf(),
                self.steps_from(pre),
                log_extends(log0, errors.log()),
                pre.spec_token().kind != TokenKind::End ==> (self.measure() < pre.measure()
                    || self.token == pre.spec_token()),
                no_err(pre.upcoming()) ==> errors.log() == log0 && no_err(self.upcoming()),
            ensures
                self.upcoming() == sp_recover(pre.upcoming()),
                self.wf(),
                self.steps_from(pre),
                log_extends(log0, errors.log()),
                pre.spec_token().kind != TokenKind::End ==> self.measure() < pre.measure(),
                no_err(pre.upcoming()) ==> errors.log() == log0 && no_err(self.upcoming()),
            decreases self.measure(),
        {
            broadcast use lemma_steps_from_trans;

            let ghost head = *self;
            proof {
                assert(head.upcoming()[0] == head.spec_token());
                if no_err(pre.upcoming()) && head.spec_token().kind != TokenKind::End {
                    lemma_no_err_drop(head.upcoming());
                }
            }
            if self.token.kind == TokenKind::Newline || self.token.kind == TokenKind::End {
                self.advance(errors);
                proof {
                    assert(sp_recover(head.upcoming()) == self.upcoming());
                }
                break ;
            } else {
                self.advance(errors);
                proof {
                    assert(sp_recover(head.upcoming()) == sp_recover(self.upcoming()));
                }
            }
        }
    }

    /// root := skip-nl (decl skip-nl)* End
    ///
    /// Returns the root's child list; a declaration that fails to
    /// parse is reported at the current token and recovery discards
    /// tokens through the next newline, so this always terminates and
    /// never signals failure.
    #[verifier::rlimit(100)]
    fn parse<E: Errors>(&mut self, errors: &mut E) -> (r: Vec<usize>)
        requires
            old(self).wf(),
        ensures
            final(self).wf(),
            final(self).steps_from(*old(self)),
            log_extends(old(errors).log(), final(errors).log()),
            forall|i: int| 0 <= i < r@.len() ==> #[trigger] (r@[i]) < final(self).spec_nodes().len(),
            ({
                let (kids, tend, ds) = sp_parse(sp_advance(old(self).upcoming()));
                &&& r@.len() == kids.len()
                &&& forall|j: int|
                    0 <= j < kids.len() ==> denotes(
                        final(self).spec_nodes(),
                        #[trigger] (r@[j]) as int,
                        kids[j],
                    )
                &&& final(self).upcoming() == tend
                &&& (no_err(sp_advance(old(self).upcoming())) ==> emitted(
                    old(errors).log(),
                    final(errors).log(),
                    ds,
                ) && no_err(final(self).upcoming()))
            }),
    {
        broadcast use lemma_steps_from_trans;

        let ghost pre = *self;
        let ghost log0 = errors.log();
        proof {
            assert(emitted(log0, log0, Seq::empty()));
        }
        self.advance(errors);

        let mut decls = self.begin_list();

        let ghost after_advance = self.upcoming();
        self.skip_newlines(errors);
        let ghost start_up = self.upcoming();
        let ghost mut kid_trees: Seq<GrammarTree> = Seq::empty();
        let ghost mut diags_done: Seq<(Seq<char>, SourceSpan)> = Seq::empty();
        proof {
            lemma_no_err_skip(after_advance);
            if no_err(start_up) {
                assert(after_advance[0].kind != TokenKind::Error);
            }
        }
        loop
            invariant_except_break
                ({
                    let (rk, rt, rd) = sp_root_items(self.upcoming());
                    let (ak, at2, ad) = sp_root_items(start_up);
                    &&& ak == kid_trees + rk
                    &&& at2 == rt
                    &&& ad == diags_done + rd
                }),
            invariant
                pre == *old(self),
                log0 == old(errors).log(),
                self.wf(),
                self.steps_from(pre),
                forall|i: int| 0 <= i < decls@.len() ==> #[trigger] (decls@[i]) < self.spec_nodes().len(),
                log_extends(log0, errors.log()),
                decls@.len() == kid_trees.len(),
                forall|i: int|
                    0 <= i < decls@.len() ==> denotes(
                        self.spec_nodes(),
                        #[trigger] (decls@[i]) as int,
                        kid_trees[i],
                    ),
                self.spec_token() == sp_peek(self.upcoming()),
                no_err(start_up) ==> emitted(log0, errors.log(), diags_done) && no_err(
                    self.upcoming(),
                ),
            ensures
                self.wf(),
                self.steps_from(pre),
                forall|i: int| 0 <= i < decls@.len() ==> #[trigger] (decls@[i]) < self.spec_nodes().len(),
                log_extends(log0, errors.log()),
                decls@.len() == kid_trees.len(),
                forall|i: int|
                    0 <= i < decls@.len() ==> denotes(
                        self.spec_nodes(),
                        #[trigger] (decls@[i]) as int,
                        kid_trees[i],
                    ),
                ({
                    let (ak, at2, ad) = sp_root_items(start_up);
                    &&& ak == kid_trees
                    &&& at2 == self.upcoming()
                    &&& ad == diags_done
                }),
                no_err(start_up) ==> emitted(log0, errors.log(), diags_done) && no_err(
                    self.upcoming(),
                ),
            decreases self.measure(),
        {
            broadcast use lemma_steps_from_trans;

            let ghost head = *self;
            if self.accept(errors, TokenKind::End).is_some() {
                proof {
                    assert(sp_root_items(head.upcoming()) == (
                        Seq::<GrammarTree>::empty(),
                        self.upcoming(),
                        Seq::<(Seq<char>, SourceSpan)>::empty(),
                    ));
                    assert(kid_trees + Seq::<GrammarTree>::empty() =~= kid_trees);
                    assert(diags_done + Seq::<(Seq<char>, SourceSpan)>::empty() =~= diags_done);
                }
                break ;
            }
            self.skip_newlines(errors);
            let ghost s2 = *self;
            let ghost t1 = s2.upcoming();
            let ghost nodes_head = self.spec_nodes();
            match self.parse_decl(errors) {
                Some(decl) => {
                    decls.push(decl);
                    proof {
                        let (d, t2, ds1) = sp_decl(t1);
                        lemma_sp_decl_len(t1);
                        lemma_sp_skip_newlines_len(t2);
                        kid_trees = kid_trees.push(d.unwrap());
                        diags_done = diags_done + ds1;
                        assert forall|i: int|
                            0 <= i < decls@.len() - 1 implies denotes(
                            self.spec_nodes(),
                            #[trigger] (decls@[i]) as int,
                            kid_trees[i],
                        ) by {
                            lemma_denotes_grow(
                                nodes_head,
                                self.spec_nodes(),
                                decls@[i] as int,
                                kid_trees[i],
                            );
                        }
                    }
                },
                None => {
                    let ghost s3 = *self;
                    let site = InternalLocation { file: "front/parser.rs", line: 633 };
                    let at = self.token;
                    push_error(errors, &site, &at, String::from_str("expected a declaration"));
                    proof {
                        if s3.measure() == head.measure() {
                            assert(s3 == s2);
                            assert(s2.measure() == head.measure());
                            assert(s2.spec_token().kind == head.spec_token().kind);
                            assert(s3.spec_token().kind != TokenKind::End);
                        }
                        let (d, t2, ds1) = sp_decl(t1);
                        lemma_sp_decl_len(t1);
                        lemma_sp_recover_len(t2);
                        lemma_sp_skip_newlines_len(head.upcoming());
                        assert(t2 == s3.upcoming());
                        assert(t2.len() > 0);
                        if t2 == t1 && t1 == head.upcoming() {
                            assert(t1[0] == s2.spec_token());
                            assert(head.upcoming()[0] == head.spec_token());
                            assert(t2[0].kind != TokenKind::End);
                        }
                        lemma_sp_skip_newlines_len(sp_recover(t2));
                        diags_done = diags_done + ds1 + seq![
                            ("expected a declaration"@, sp_peek(t2).span),
                        ];
                    }
                    self.recover_decl(errors);
                    proof {
                        assert(self.steps_from(head));
                        assert forall|i: int|
                            0 <= i < decls@.len() implies denotes(
                            self.spec_nodes(),
                            #[trigger] (decls@[i]) as int,
                            kid_trees[i],
                        ) by {
                            lemma_denotes_grow(
                                nodes_head,
                                self.spec_nodes(),
                                decls@[i] as int,
                                kid_trees[i],
                            );
                        }
                    }
                },
            }
            proof {
                assert(self.measure() < head.measure());
            }
            self.skip_newlines(errors);
            proof {
                assert(self.measure() < head.measure());
                lemma_sp_skip_newlines_len(head.upcoming());
                assert(self.upcoming().len() < head.upcoming().len());
                let (rk, rt, rd) = sp_root_items(self.upcoming());
                let (hk, ht, hd) = sp_root_items(head.upcoming());
                let (ak, at2, ad) = sp_root_items(start_up);
                assert(ak =~= kid_trees + rk);
                assert(ad =~= diags_done + rd);
            }
        }

        self.push_list(decls)
    }
}

/// Any two parsing steps compose into a parsing step.
broadcast proof fn lemma_steps_from_trans<'a>(a: Parser<'a>, b: Parser<'a>, c: Parser<'a>)
    requires
        #[trigger] b.steps_from(a),
        #[trigger] c.steps_from(b),
    ensures
        c.steps_from(a),
{
}

/// Parses a whole token stream into an ownership bundle whose root is
/// always a single `Root` node; malformed input is reported through
/// the diagnostics log, never through the return value. The tree is
/// exactly what `sp_parse` denotes for the stream. So are the
/// parser's diagnostics, pinned record for record on streams free of
/// `Error` tokens; on a stream with `Error` tokens the scanner's own
/// unrecognized-token records interleave with the parser's, and the
/// log is then only known to grow.
pub fn parse<'a, E: Errors>(errors: &mut E, tokens: Tokenizer<'a>) -> (r: AstRoot)
    requires
        tokens.wf(),
        scan_ok_from(tokens.src(), tokens.spec_pos() as nat),
    ensures
        r.wf(),
        log_extends(old(errors).log(), final(errors).log()),
        ({
            let toks = spec_token_seq(tokens.spec_file(), tokens.src(), tokens.spec_pos() as nat);
            let (kids, tend, ds) = sp_parse(toks);
            &&& match r.spec_nodes().last() {
                Ast::Root(ids) => ids@.len() == kids.len() && forall|j: int|
                    0 <= j < kids.len() ==> denotes(
                        r.spec_nodes(),
                        #[trigger] (ids@[j]) as int,
                        kids[j],
                    ),
                _ => false,
            }
            &&& (no_err(toks) ==> emitted(old(errors).log(), final(errors).log(), ds))
        }),
{
    let mut parser = Parser::new(tokens);
    let children = parser.parse(errors);
    let ghost before = parser.spec_nodes();
    let ghost kids = sp_parse(
        spec_token_seq(tokens.spec_file(), tokens.src(), tokens.spec_pos() as nat),
    ).0;
    let root = Ast::Root(children);
    let mut nodes = parser.nodes;
    nodes.push(root);
    proof {
        assert forall|j: int| 0 <= j < kids.len() implies denotes(
            nodes@,
            #[trigger] (children@[j]) as int,
            kids[j],
        ) by {
            lemma_denotes_grow(before, nodes@, children@[j] as int, kids[j]);
        }
    }
    proof {
        let ns = nodes@;
        let k = before.len() as int;
        assert(ns.len() == k + 1);
        assert(ns.last() == root);
        assert(root.spec_children() == children@.map_values(|c: usize| c as int));
        assert forall|i: int, j: int|
            0 <= i < ns.len() && 0 <= j < ns[i].spec_children().len() implies 0 <= #[trigger] (
        ns[i].spec_children()[j]) < i by {
            if i < k {
                assert(ns[i] == before[i]);
                assert(arena_ok(before));
            } else {
                assert(ns[i] == root);
                assert(root.spec_children()[j] == children@[j] as int);
            }
        }
        assert forall|i: int| 0 <= i < ns.len() implies (#[trigger] ns[i]).kinds_ok() by {
            if i < k {
                assert(ns[i] == before[i]);
            } else {
                assert(ns[i] == root);
            }
        }
        assert forall|i: int| 0 <= i < ns.len() - 1 implies !(#[trigger] ns[i]).is_root() by {
            assert(ns[i] == before[i]);
        }
        assert(ns.last().is_root());
    }
    AstRoot::new(nodes)
}

} // verus!
