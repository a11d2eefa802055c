//! Single-pass, forward-only scanner that turns one file's bytes into a
//! lazy token sequence, pulled one token at a time. The spec functions
//! here define the scan mathematically: where whitespace and comments
//! end, where each token ends and what kind it has. The executable
//! scanner is proved to produce exactly that sequence, to always move
//! forward, and to finish with a single `End` token at end-of-buffer.

use vstd::prelude::*;
use vstd::string::StringExecFns;

use crate::ast::Token;
use crate::ast::TokenKind;
use crate::compiler::Errors;
use crate::compiler::InternalLocation;
use crate::compiler::SourceFile;
use crate::compiler::SourceSpan;
use crate::compiler::pushed_one;

verus! {

/// Bytes skipped silently between tokens: space, tab, carriage return.
/// Newlines are not whitespace; they are syntactically significant.
pub open spec fn is_ws_byte(b: u8) -> bool {
    b == ' ' as u8 || b == '\t' as u8 || b == 13
}

pub open spec fn is_ident_start_byte(b: u8) -> bool {
    ||| 'a' as u8 <= b <= 'z' as u8
    ||| 'A' as u8 <= b <= 'Z' as u8
    ||| b == '_' as u8
}

pub open spec fn is_digit_byte(b: u8) -> bool {
    '0' as u8 <= b <= '9' as u8
}

pub open spec fn is_ident_byte(b: u8) -> bool {
    is_ident_start_byte(b) || is_digit_byte(b)
}

/// Bytes at which the scanner can begin some token.
pub open spec fn starts_token_byte(b: u8) -> bool {
    ||| is_ident_start_byte(b)
    ||| is_digit_byte(b)
    ||| b == 10
    ||| b == '=' as u8
    ||| b == '>' as u8
    ||| b == '<' as u8
    ||| b == '{' as u8
    ||| b == '}' as u8
    ||| b == '+' as u8
}

/// Where scanning resumes after whitespace and line comments, starting
/// at `pos`. While `in_comment`, everything through the next newline is
/// consumed; comments and whitespace alternate until neither applies.
pub open spec fn skip_trivia_from(src: Seq<u8>, pos: nat, in_comment: bool) -> nat
    decreases src.len() - pos,
{
    if pos >= src.len() {
        src.len()
    } else if in_comment {
        if src[pos as int] == 10 {
            skip_trivia_from(src, pos + 1, false)
        } else {
            skip_trivia_from(src, pos + 1, true)
        }
    } else if is_ws_byte(src[pos as int]) {
        skip_trivia_from(src, pos + 1, false)
    } else if pos + 2 <= src.len() && src[pos as int] == '/' as u8 && src[pos as int + 1] == '/' as u8 {
        skip_trivia_from(src, pos + 2, true)
    } else {
        pos
    }
}

pub open spec fn skip_trivia(src: Seq<u8>, pos: nat) -> nat {
    skip_trivia_from(src, pos, false)
}

pub proof fn lemma_skip_trivia_bounds(src: Seq<u8>, pos: nat, in_comment: bool)
    requires
        pos <= src.len(),
    ensures
        pos <= skip_trivia_from(src, pos, in_comment) <= src.len(),
    decreases src.len() - pos,
{
    if pos < src.len() {
        if in_comment {
            lemma_skip_trivia_bounds(src, pos + 1, src[pos as int] != 10);
        } else if is_ws_byte(src[pos as int]) {
            lemma_skip_trivia_bounds(src, pos + 1, false);
        } else if pos + 2 <= src.len() && src[pos as int] == '/' as u8 && src[pos as int
            + 1] == '/' as u8 {
            lemma_skip_trivia_bounds(src, pos + 2, true);
        }
    }
}

/// Consuming a comment is the same as resuming right after its
/// terminating newline.
proof fn lemma_skip_comment_to_newline(src: Seq<u8>, i: nat, nl: nat)
    requires
        i <= nl < src.len(),
        src[nl as int] == 10,
        forall|k: int| i <= k < nl ==> src[k] != 10,
    ensures
        skip_trivia_from(src, i, true) == skip_trivia_from(src, nl + 1, false),
    decreases nl - i,
{
    if i < nl {
        lemma_skip_comment_to_newline(src, i + 1, nl);
    }
}

/// A comment with no newline after it runs to the end of the buffer.
proof fn lemma_skip_comment_to_end(src: Seq<u8>, i: nat)
    requires
        i <= src.len(),
        forall|k: int| i <= k < src.len() ==> src[k] != 10,
    ensures
        skip_trivia_from(src, i, true) == src.len(),
    decreases src.len() - i,
{
    if i < src.len() {
        lemma_skip_comment_to_end(src, i + 1);
    }
}

/// End of the maximal identifier run beginning at `i`.
pub open spec fn ident_end(src: Seq<u8>, i: nat) -> nat
    decreases src.len() - i,
{
    if i >= src.len() {
        src.len()
    } else if is_ident_byte(src[i as int]) {
        ident_end(src, i + 1)
    } else {
        i
    }
}

pub proof fn lemma_ident_end_bounds(src: Seq<u8>, i: nat)
    requires
        i <= src.len(),
    ensures
        i <= ident_end(src, i) <= src.len(),
    decreases src.len() - i,
{
    if i < src.len() && is_ident_byte(src[i as int]) {
        lemma_ident_end_bounds(src, i + 1);
    }
}

/// First position at or after `i` where an unrecognized run must stop:
/// end of buffer, whitespace, or a byte that starts a valid token.
pub open spec fn bad_stop(src: Seq<u8>, i: nat) -> nat
    decreases src.len() - i,
{
    if i >= src.len() {
        src.len()
    } else if is_ws_byte(src[i as int]) || starts_token_byte(src[i as int]) {
        i
    } else {
        bad_stop(src, i + 1)
    }
}

pub proof fn lemma_bad_stop_bounds(src: Seq<u8>, i: nat)
    requires
        i <= src.len(),
    ensures
        i <= bad_stop(src, i) <= src.len(),
    decreases src.len() - i,
{
    if i < src.len() && !(is_ws_byte(src[i as int]) || starts_token_byte(src[i as int])) {
        lemma_bad_stop_bounds(src, i + 1);
    }
}

pub open spec fn keyword_class() -> Seq<u8> {
    seq!['c' as u8, 'l' as u8, 'a' as u8, 's' as u8, 's' as u8]
}

pub open spec fn keyword_struct() -> Seq<u8> {
    seq!['s' as u8, 't' as u8, 'r' as u8, 'u' as u8, 'c' as u8, 't' as u8]
}

/// An identifier run is reclassified if it spells a keyword.
pub open spec fn ident_kind(run: Seq<u8>) -> TokenKind {
    if run == keyword_class() {
        TokenKind::KeywordClass
    } else if run == keyword_struct() {
        TokenKind::KeywordStruct
    } else {
        TokenKind::Ident
    }
}

/// Kind and end position of the token beginning at `p`, for `p` past
/// all whitespace and comments and within the buffer. Numeric literals
/// are not lexed (an explicit gap of the grammar); `scan_ok_from` rules
/// digit-started tokens out of every scanner contract.
pub open spec fn scan_token(src: Seq<u8>, p: nat) -> (TokenKind, nat) {
    let b = src[p as int];
    if is_ident_start_byte(b) {
        let e = ident_end(src, p);
        (ident_kind(src.subrange(p as int, e as int)), e)
    } else if is_digit_byte(b) {
        (TokenKind::Integer, p + 1)
    } else if b == 10 {
        (TokenKind::Newline, p + 1)
    } else if b == '=' as u8 {
        if p + 1 < src.len() && src[p as int + 1] == '=' as u8 {
            (TokenKind::Equals, p + 2)
        } else {
            (TokenKind::Assign, p + 1)
        }
    } else if b == '>' as u8 {
        if p + 1 < src.len() && src[p as int + 1] == '=' as u8 {
            (TokenKind::GreaterEquals, p + 2)
        } else {
            (TokenKind::Greater, p + 1)
        }
    } else if b == '<' as u8 {
        if p + 1 < src.len() && src[p as int + 1] == '=' as u8 {
            (TokenKind::LessEquals, p + 2)
        } else {
            (TokenKind::Less, p + 1)
        }
    } else if b == '{' as u8 {
        (TokenKind::BraceOpen, p + 1)
    } else if b == '}' as u8 {
        (TokenKind::BraceClose, p + 1)
    } else if b == '+' as u8 {
        (TokenKind::Add, p + 1)
    } else {
        (TokenKind::Error, bad_stop(src, p + 1))
    }
}

pub proof fn lemma_scan_token_bounds(src: Seq<u8>, p: nat)
    requires
        p < src.len(),
    ensures
        p < scan_token(src, p).1 <= src.len(),
{
    let b = src[p as int];
    if is_ident_start_byte(b) {
        assert(ident_end(src, p) == ident_end(src, p + 1));
        lemma_ident_end_bounds(src, p + 1);
    } else if !is_digit_byte(b) && b != 10 && b != '=' as u8 && b != '>' as u8 && b != '<' as u8
        && b != '{' as u8 && b != '}' as u8 && b != '+' as u8 {
        lemma_bad_stop_bounds(src, p + 1);
    }
}

/// Scanning from `pos` never lands a token start on a digit. Numeric
/// literals are an explicit gap in the lexical grammar, so every
/// scanner contract is stated for inputs satisfying this predicate.
pub open spec fn scan_ok_from(src: Seq<u8>, pos: nat) -> bool
    decreases src.len() - pos,
        when pos <= src.len()
        via scan_ok_from_decreases
{
    let p = skip_trivia(src, pos);
    p >= src.len() || (!is_digit_byte(src[p as int]) && scan_ok_from(src, scan_token(src, p).1))
}

#[via_fn]
proof fn scan_ok_from_decreases(src: Seq<u8>, pos: nat) {
    lemma_skip_trivia_bounds(src, pos, false);
    let p = skip_trivia(src, pos);
    if p < src.len() {
        lemma_scan_token_bounds(src, p);
    }
}

/// The token sequence of a whole scan from `pos`: `(kind, begin, end)`
/// triples, always finishing with a single zero-width `End` at
/// end-of-buffer.
pub open spec fn spec_tokens_from(src: Seq<u8>, pos: nat) -> Seq<(TokenKind, int, int)>
    decreases src.len() - pos,
        when pos <= src.len()
        via spec_tokens_from_decreases
{
    let p = skip_trivia(src, pos);
    if p >= src.len() {
        seq![(TokenKind::End, src.len() as int, src.len() as int)]
    } else {
        let (kind, e) = scan_token(src, p);
        seq![(kind, p as int, e as int)] + spec_tokens_from(src, e)
    }
}

#[via_fn]
proof fn spec_tokens_from_decreases(src: Seq<u8>, pos: nat) {
    lemma_skip_trivia_bounds(src, pos, false);
    let p = skip_trivia(src, pos);
    if p < src.len() {
        lemma_scan_token_bounds(src, p);
    }
}

/// The span `(begin, end)` within `file`, as stored on a token.
pub open spec fn span_at(file: SourceFile, begin: int, end: int) -> SourceSpan {
    SourceSpan { file, begin: begin as u32, end: end as u32 }
}

/// Lowercase hexadecimal digit for a value below 16.
pub open spec fn hex_digit_char(v: u8) -> char {
    if v < 10 {
        (('0' as u8) + v) as char
    } else {
        (('a' as u8) + (v - 10)) as char
    }
}

/// The part of an unrecognized-token diagnostic that names the
/// offending byte: quoted if printable ASCII, hexadecimal otherwise.
pub open spec fn bad_byte_text(b: u8) -> Seq<char> {
    if 0x20 <= b && b <= 0x7e {
        "'"@ + seq![b as char] + "'"@
    } else {
        "(byte 0x"@ + seq![hex_digit_char(b / 16), hex_digit_char(b % 16)] + ")"@
    }
}

/// The full message of an unrecognized-token diagnostic.
pub open spec fn bad_token_message(b: u8) -> Seq<char> {
    "unrecognized token: "@ + bad_byte_text(b)
}

/// Relies on `format!` of std: `{}` on a `char` yields that character
/// and `{:02x}` on a `u8` yields exactly two lowercase hex digits.
#[verifier::external_body]
fn bad_byte_string(b: u8) -> (s: String)
    ensures
        s@ == bad_byte_text(b),
{
    if 0x20 <= b && b <= 0x7e {
        format!("'{}'", b as char)
    } else {
        format!("(byte 0x{:02x})", b)
    }
}

/// The diagnostics a scan reports, in order: exactly one per
/// unrecognized run, naming the offending byte and anchored at it.
pub open spec fn spec_scan_diags(file: SourceFile, src: Seq<u8>, pos: nat) -> Seq<
    (Seq<char>, SourceSpan),
>
    decreases src.len() - pos,
        when pos <= src.len()
        via spec_scan_diags_decreases
{
    let p = skip_trivia(src, pos);
    if p >= src.len() {
        Seq::empty()
    } else {
        let (kind, e) = scan_token(src, p);
        (if kind == TokenKind::Error {
            seq![(bad_token_message(src[p as int]), span_at(file, p as int, p as int + 1))]
        } else {
            Seq::empty()
        }) + spec_scan_diags(file, src, e)
    }
}

#[via_fn]
proof fn spec_scan_diags_decreases(file: SourceFile, src: Seq<u8>, pos: nat) {
    lemma_skip_trivia_bounds(src, pos, false);
    let p = skip_trivia(src, pos);
    if p < src.len() {
        lemma_scan_token_bounds(src, p);
    }
}

/// Relies on `memchr::memchr`: index of the first occurrence of
/// `needle` in `haystack`, `None` if it does not occur.
pub assume_specification [ memchr::memchr ](needle: u8, haystack: &[u8]) -> (r: Option<usize>)
    ensures
        match r {
            Some(i) => {
                &&& i < haystack@.len()
                &&& haystack@[i as int] == needle
                &&& forall|j: int| 0 <= j < i ==> haystack@[j] != needle
            },
            None => forall|j: int| 0 <= j < haystack@.len() ==> haystack@[j] != needle,
        },
;

fn is_whitespace(ch: u8) -> (r: bool)
    ensures
        r == is_ws_byte(ch),
{
    ch == ' ' as u8 || ch == '\t' as u8 || ch == 13
}

fn is_ident_char(ch: u8) -> (r: bool)
    ensures
        r == is_ident_byte(ch),
{
    ('a' as u8 <= ch && ch <= 'z' as u8) || ('A' as u8 <= ch && ch <= 'Z' as u8) || ('0' as u8
        <= ch && ch <= '9' as u8) || ch == '_' as u8
}

fn starts_token(ch: u8) -> (r: bool)
    ensures
        r == starts_token_byte(ch),
{
    ('a' as u8 <= ch && ch <= 'z' as u8) || ('A' as u8 <= ch && ch <= 'Z' as u8) || ('0' as u8
        <= ch && ch <= '9' as u8) || ch == '_' as u8 || ch == 10 || ch == '=' as u8 || ch == '>'
        as u8 || ch == '<' as u8 || ch == '{' as u8 || ch == '}' as u8 || ch == '+' as u8
}

/// Does `src[begin..end]` spell the `class` keyword?
fn is_class_run(src: &[u8], begin: usize, end: usize) -> (r: bool)
    requires
        begin <= end <= src@.len(),
    ensures
        r == (src@.subrange(begin as int, end as int) == keyword_class()),
{
    let r = end - begin == 5 && src[begin] == 'c' as u8 && src[begin + 1] == 'l' as u8 && src[begin
        + 2] == 'a' as u8 && src[begin + 3] == 's' as u8 && src[begin + 4] == 's' as u8;
    proof {
        let sub = src@.subrange(begin as int, end as int);
        let kw = keyword_class();
        if r {
            assert(sub =~= kw);
        } else if sub == kw {
            assert(sub.len() == 5);
            assert(src@[begin as int] == sub[0]);
            assert(src@[begin as int + 1] == sub[1]);
            assert(src@[begin as int + 2] == sub[2]);
            assert(src@[begin as int + 3] == sub[3]);
            assert(src@[begin as int + 4] == sub[4]);
            assert(false);
        }
    }
    r
}

/// Does `src[begin..end]` spell the `struct` keyword?
fn is_struct_run(src: &[u8], begin: usize, end: usize) -> (r: bool)
    requires
        begin <= end <= src@.len(),
    ensures
        r == (src@.subrange(begin as int, end as int) == keyword_struct()),
{
    let r = end - begin == 6 && src[begin] == 's' as u8 && src[begin + 1] == 't' as u8 && src[begin
        + 2] == 'r' as u8 && src[begin + 3] == 'u' as u8 && src[begin + 4] == 'c' as u8 && src[begin
        + 5] == 't' as u8;
    proof {
        let sub = src@.subrange(begin as int, end as int);
        let kw = keyword_struct();
        if r {
            assert(sub =~= kw);
        } else if sub == kw {
            assert(sub.len() == 6);
            assert(src@[begin as int] == sub[0]);
            assert(src@[begin as int + 1] == sub[1]);
            assert(src@[begin as int + 2] == sub[2]);
            assert(src@[begin as int + 3] == sub[3]);
            assert(src@[begin as int + 4] == sub[4]);
            assert(src@[begin as int + 5] == sub[5]);
            assert(false);
        }
    }
    r
}

/// Forward-only scanner over one file's bytes. `pos` only ever moves
/// towards the end of the buffer.
pub struct Tokenizer<'a> {
    source: &'a [u8],
    pos: usize,
    file: SourceFile,
}

impl<'a> Tokenizer<'a> {
    pub closed spec fn src(&self) -> Seq<u8> {
        self.source@
    }

    pub closed spec fn spec_pos(&self) -> int {
        self.pos as int
    }

    pub closed spec fn spec_file(&self) -> SourceFile {
        self.file
    }

    pub open spec fn wf(&self) -> bool {
        0 <= self.spec_pos() <= self.src().len() <= u32::MAX
    }

    fn new(file: SourceFile, source: &'a [u8]) -> (r: Tokenizer<'a>)
        requires
            source@.len() <= u32::MAX,
        ensures
            r.wf(),
            r.src() == source@,
            r.spec_pos() == 0,
            r.spec_file() == file,
    {
        Tokenizer { source, pos: 0, file }
    }

    /// Advances past whitespace and line comments; a comment runs from
    /// `//` through the next newline or the end of the buffer.
    fn skip_whitespace(&mut self)
        requires
            old(self).wf(),
        ensures
            final(self).wf(),
            final(self).src() == old(self).src(),
            final(self).spec_file() == old(self).spec_file(),
            final(self).spec_pos() == skip_trivia(old(self).src(), old(self).spec_pos() as nat),
            final(self).spec_pos() == skip_trivia(final(self).src(), final(self).spec_pos() as nat),
    {
        let src = self.source;
        let len = src.len();
        let mut pos = self.pos;
        let ghost target = skip_trivia(src@, self.pos as nat);
        loop
            invariant
                pos <= len,
                len == src@.len() <= u32::MAX,
                skip_trivia(src@, pos as nat) == target,
            ensures
                pos <= len,
                len == src@.len(),
                pos == skip_trivia(src@, pos as nat),
                skip_trivia(src@, pos as nat) == target,
            decreases len - pos,
        {
            let ghost head_pos = pos;
            while pos < len && is_whitespace(src[pos])
                invariant
                    head_pos <= pos <= len,
                    len == src@.len(),
                    skip_trivia(src@, pos as nat) == target,
                decreases len - pos,
            {
                pos = pos + 1;
            }

            if pos < len && pos + 1 < len && src[pos] == '/' as u8 && src[pos + 1] == '/' as u8 {
                match memchr::memchr(10u8, &src[pos..len]) {
                    Some(rel) => {
                        proof {
                            let nl = pos + rel;
                            assert(src@.subrange(pos as int, len as int)[rel as int] == src@[nl
                                as int]);
                            assert(forall|k: int|
                                pos <= k < nl ==> src@[k] == src@.subrange(pos as int, len as int)[
                                k - pos]);
                            assert(rel >= 2) by {
                                assert(src@.subrange(pos as int, len as int)[0] == '/' as u8);
                                assert(src@.subrange(pos as int, len as int)[1] == '/' as u8);
                            }
                            lemma_skip_comment_to_newline(src@, (pos + 2) as nat, (pos + rel)
                                as nat);
                        }
                        pos = pos + rel + 1;
                    },
                    None => {
                        proof {
                            assert(forall|k: int|
                                pos <= k < len ==> src@[k] == src@.subrange(pos as int, len as int)[
                                k - pos]);
                            lemma_skip_comment_to_end(src@, (pos + 2) as nat);
                        }
                        pos = len;
                    },
                }
            } else {
                break ;
            }
        }

        self.pos = pos;
    }

    /// Scans the maximal identifier run at the current position and
    /// reclassifies it if it spells a keyword.
    fn finish_ident(&self) -> (r: (usize, TokenKind))
        requires
            self.wf(),
            self.spec_pos() < self.src().len(),
            is_ident_start_byte(self.src()[self.spec_pos()]),
        ensures
            self.spec_pos() + r.0 == scan_token(self.src(), self.spec_pos() as nat).1,
            r.1 == scan_token(self.src(), self.spec_pos() as nat).0,
    {
        let src = self.source;
        let len = src.len();
        let begin = self.pos;
        let mut pos = begin;
        while pos < len && is_ident_char(src[pos])
            invariant
                begin <= pos <= len,
                len == src@.len(),
                ident_end(src@, begin as nat) == ident_end(src@, pos as nat),
            decreases len - pos,
        {
            pos = pos + 1;
        }
        proof {
            assert(ident_end(src@, pos as nat) == pos);
        }

        let kind = if is_class_run(src, begin, pos) {
            TokenKind::KeywordClass
        } else if is_struct_run(src, begin, pos) {
            TokenKind::KeywordStruct
        } else {
            TokenKind::Ident
        };

        (pos - begin, kind)
    }

    fn finish_newline(&self) -> (r: (usize, TokenKind))
        ensures
            r == (1usize, TokenKind::Newline),
    {
        (1, TokenKind::Newline)
    }

    /// Classifies the token beginning at the current position; `None`
    /// means the byte there starts no token (or the buffer is done).
    fn read_token(&self) -> (r: Option<(usize, TokenKind)>)
        requires
            self.wf(),
            self.spec_pos() < self.src().len() ==> !is_digit_byte(self.src()[self.spec_pos()]),
        ensures
            match r {
                Some(t) => {
                    &&& self.spec_pos() < self.src().len()
                    &&& starts_token_byte(self.src()[self.spec_pos()])
                    &&& t.1 == scan_token(self.src(), self.spec_pos() as nat).0
                    &&& self.spec_pos() + t.0 == scan_token(self.src(), self.spec_pos() as nat).1
                },
                None => self.spec_pos() >= self.src().len() || !starts_token_byte(
                    self.src()[self.spec_pos()],
                ),
            },
    {
        let src = self.source;
        let len = src.len();
        let pos = self.pos;

        let cur = if pos < len {
            src[pos]
        } else {
            0u8
        };
        let next = if pos < len && pos + 1 < len {
            src[pos + 1]
        } else {
            0u8
        };

        if ('a' as u8 <= cur && cur <= 'z' as u8) || ('A' as u8 <= cur && cur <= 'Z' as u8) || cur
            == '_' as u8 {
            Some(self.finish_ident())
        } else if cur == 10 {
            Some(self.finish_newline())
        } else if cur == '=' as u8 {
            if next == '=' as u8 {
                Some((2, TokenKind::Equals))
            } else {
                Some((1, TokenKind::Assign))
            }
        } else if cur == '>' as u8 {
            if next == '=' as u8 {
                Some((2, TokenKind::GreaterEquals))
            } else {
                Some((1, TokenKind::Greater))
            }
        } else if cur == '<' as u8 {
            if next == '=' as u8 {
                Some((2, TokenKind::LessEquals))
            } else {
                Some((1, TokenKind::Less))
            }
        } else if cur == '{' as u8 {
            Some((1, TokenKind::BraceOpen))
        } else if cur == '}' as u8 {
            Some((1, TokenKind::BraceClose))
        } else if cur == '+' as u8 {
            Some((1, TokenKind::Add))
        } else {
            None
        }
    }

    /// Error recovery: reports one diagnostic naming the offending
    /// byte, then consumes bytes greedily until one is whitespace or
    /// itself starts a valid token, so that the scanner always makes
    /// forward progress on malformed input.
    fn bad_token<E: Errors>(&mut self, errors: &mut E) -> (r: (usize, TokenKind))
        requires
            old(self).wf(),
            old(self).spec_pos() < old(self).src().len(),
        ensures
            final(self).wf(),
            final(self).src() == old(self).src(),
            final(self).spec_file() == old(self).spec_file(),
            final(self).spec_pos() == bad_stop(old(self).src(), (old(self).spec_pos() + 1) as nat),
            old(self).spec_pos() + r.0 == final(self).spec_pos(),
            r.1 == TokenKind::Error,
            pushed_one(
                old(errors).log(),
                final(errors).log(),
                bad_token_message(old(self).src()[old(self).spec_pos()]),
                span_at(old(self).spec_file(), old(self).spec_pos(), old(self).spec_pos() + 1),
            ),
    {
        let src = self.source;
        let len = src.len();
        let begin = self.pos;
        let ch = src[begin];

        let loc = SourceSpan::new(self.file, begin, begin + 1);
        let site = InternalLocation { file: "front/tokenizer.rs", line: 713 };
        let message = String::from_str("unrecognized token: ").concat(
            bad_byte_string(ch).as_str(),
        );
        crate::compiler::push_error(errors, &site, &loc, message);

        let mut pos = begin + 1;
        while pos < len && !is_whitespace(src[pos]) && !starts_token(src[pos])
            invariant
                begin + 1 <= pos <= len,
                len == src@.len(),
                bad_stop(src@, (begin + 1) as nat) == bad_stop(src@, pos as nat),
            decreases len - pos,
        {
            pos = pos + 1;
        }
        proof {
            assert(bad_stop(src@, pos as nat) == pos);
        }

        self.pos = pos;
        (pos - begin, TokenKind::Error)
    }

    /// Produces the next token, or `None` once scanning has passed the
    /// last byte of the buffer. Every produced token's span is an
    /// exact half-open byte range and scanning only moves forward.
    pub fn scan<E: Errors>(&mut self, errors: &mut E) -> (r: Option<Token>)
        requires
            old(self).wf(),
            scan_ok_from(old(self).src(), old(self).spec_pos() as nat),
        ensures
            final(self).wf(),
            final(self).src() == old(self).src(),
            final(self).spec_file() == old(self).spec_file(),
            scan_ok_from(final(self).src(), final(self).spec_pos() as nat),
            ({
                let src = old(self).src();
                let p = skip_trivia(src, old(self).spec_pos() as nat);
                match r {
                    None => {
                        &&& p == src.len()
                        &&& final(self).spec_pos() == p
                        &&& final(errors).log() == old(errors).log()
                    },
                    Some(t) => {
                        let (kind, e) = scan_token(src, p);
                        &&& p < src.len()
                        &&& t.kind == kind
                        &&& t.span == span_at(old(self).spec_file(), p as int, e as int)
                        &&& old(self).spec_pos() <= p < e <= src.len()
                        &&& final(self).spec_pos() == e
                        &&& (kind == TokenKind::Error ==> pushed_one(
                            old(errors).log(),
                            final(errors).log(),
                            bad_token_message(src[p as int]),
                            span_at(old(self).spec_file(), p as int, p as int + 1),
                        ))
                        &&& (kind != TokenKind::Error ==> final(errors).log() == old(errors).log())
                    },
                }
            }),
    {
        proof {
            lemma_skip_trivia_bounds(self.src(), self.spec_pos() as nat, false);
        }
        self.skip_whitespace();

        if self.pos >= self.source.len() {
            return None;
        }
        proof {
            lemma_scan_token_bounds(self.src(), self.spec_pos() as nat);
        }

        let begin = self.pos;
        let (len_tok, kind) = match self.read_token() {
            Some(pair) => pair,
            None => self.bad_token(errors),
        };

        let end = begin + len_tok;
        let span = SourceSpan::new(self.file, begin, end);

        self.pos = end;

        Some(Token { kind, span })
    }

    /// Like `scan`, but materializes the final `End` token: at
    /// end-of-buffer it returns `End` with a zero-width span anchored
    /// there, and keeps doing so if called again.
    pub fn next_token<E: Errors>(&mut self, errors: &mut E) -> (t: Token)
        requires
            old(self).wf(),
            scan_ok_from(old(self).src(), old(self).spec_pos() as nat),
        ensures
            final(self).wf(),
            final(self).src() == old(self).src(),
            final(self).spec_file() == old(self).spec_file(),
            scan_ok_from(final(self).src(), final(self).spec_pos() as nat),
            old(self).spec_pos() <= final(self).spec_pos(),
            t.span.file == old(self).spec_file(),
            old(self).spec_pos() <= t.span.begin <= t.span.end == final(self).spec_pos(),
            ({
                let src = old(self).src();
                let p = skip_trivia(src, old(self).spec_pos() as nat);
                if p == src.len() {
                    &&& t.kind == TokenKind::End
                    &&& t.span == span_at(old(self).spec_file(), src.len() as int, src.len() as int)
                    &&& final(self).spec_pos() == src.len()
                    &&& final(errors).log() == old(errors).log()
                } else {
                    let (kind, e) = scan_token(src, p);
                    &&& t.kind == kind
                    &&& kind != TokenKind::End
                    &&& t.span == span_at(old(self).spec_file(), p as int, e as int)
                    &&& old(self).spec_pos() < final(self).spec_pos()
                    &&& (kind == TokenKind::Error ==> pushed_one(
                        old(errors).log(),
                        final(errors).log(),
                        bad_token_message(src[p as int]),
                        span_at(old(self).spec_file(), p as int, p as int + 1),
                    ))
                    &&& (kind != TokenKind::Error ==> final(errors).log() == old(errors).log())
                }
            }),
    {
        proof {
            lemma_skip_trivia_bounds(self.src(), self.spec_pos() as nat, false);
            let p = skip_trivia(self.src(), self.spec_pos() as nat);
            if p < self.src().len() {
                lemma_scan_token_bounds(self.src(), p);
                assert(scan_token(self.src(), p).0 != TokenKind::End) by {
                    let b = self.src()[p as int];
                    if is_ident_start_byte(b) {
                        assert(ident_kind(
                            self.src().subrange(p as int, ident_end(self.src(), p) as int),
                        ) != TokenKind::End);
                    }
                }
            }
        }
        match self.scan(errors) {
            Some(token) => token,
            None => {
                let here = self.pos;
                Token { kind: TokenKind::End, span: SourceSpan::new(self.file, here, here) }
            },
        }
    }
}

/// Builds a tokenizer over one file's bytes, positioned at the first
/// byte.
pub fn tokenize<'a>(file: SourceFile, source: &'a [u8]) -> (r: Tokenizer<'a>)
    requires
        source@.len() <= u32::MAX,
    ensures
        r.wf(),
        r.src() == source@,
        r.spec_pos() == 0,
        r.spec_file() == file,
{
    Tokenizer::new(file, source)
}

/// Decides whether a buffer stays within the implemented lexical
/// grammar: numeric literals are an explicit gap, so scanning must
/// never land a token start on a digit. Every scanner entry point asks
/// for this; callers with arbitrary bytes test here first.
pub fn scan_supported(source: &[u8]) -> (r: bool)
    requires
        source@.len() <= u32::MAX,
    ensures
        r == scan_ok_from(source@, 0),
{
    let mut t = Tokenizer::new(SourceFile::unknown(), source);
    let len = source.len();
    loop
        invariant
            t.wf(),
            t.src() == source@,
            len == source@.len() <= u32::MAX,
            scan_ok_from(source@, 0) == scan_ok_from(source@, t.spec_pos() as nat),
        ensures
            scan_ok_from(source@, 0) == scan_ok_from(source@, t.spec_pos() as nat),
            t.spec_pos() == skip_trivia(source@, t.spec_pos() as nat),
            ({
                let p = skip_trivia(source@, t.spec_pos() as nat);
                p >= source@.len() || is_digit_byte(source@[p as int])
            }),
            t.wf(),
            t.src() == source@,
        decreases source@.len() - t.spec_pos(),
    {
        proof {
            lemma_skip_trivia_bounds(source@, t.spec_pos() as nat, false);
        }
        t.skip_whitespace();
        if t.pos >= len {
            break ;
        }
        proof {
            lemma_scan_token_bounds(source@, t.spec_pos() as nat);
        }
        let b = source[t.pos];
        if '0' as u8 <= b && b <= '9' as u8 {
            break ;
        }
        match t.read_token() {
            Some((l, _kind)) => {
                t.pos = t.pos + l;
            },
            None => {
                let begin = t.pos;
                let mut pos = begin + 1;
                while pos < len && !is_whitespace(source[pos]) && !starts_token(source[pos])
                    invariant
                        begin + 1 <= pos <= len,
                        len == source@.len(),
                        bad_stop(source@, (begin + 1) as nat) == bad_stop(source@, pos as nat),
                    decreases len - pos,
                {
                    pos = pos + 1;
                }
                proof {
                    assert(bad_stop(source@, pos as nat) == pos);
                }
                t.pos = pos;
            },
        }
    }
    let done = t.pos >= len;
    proof {
        if done {
            assert(skip_trivia(source@, t.spec_pos() as nat) == source@.len());
        }
    }
    done
}

/// Kind and span bounds of a token, the shape `spec_tokens_from`
/// speaks in.
pub open spec fn token_model(t: Token) -> (TokenKind, int, int) {
    (t.kind, t.span.begin as int, t.span.end as int)
}

/// The tokens a scan of `src` from `pos` will produce, as `Token`
/// values of `file`: what the parser consumes.
pub open spec fn spec_token_seq(file: SourceFile, src: Seq<u8>, pos: nat) -> Seq<Token> {
    spec_tokens_from(src, pos).map_values(
        |m: (TokenKind, int, int)| Token { kind: m.0, span: span_at(file, m.1, m.2) },
    )
}

/// Shape of the token stream: at least one token, the last and only
/// `End` carrying a zero-width span at end-of-buffer.
pub proof fn lemma_token_seq_shape(file: SourceFile, src: Seq<u8>, pos: nat)
    requires
        pos <= src.len(),
    ensures
        ({
            let ts = spec_token_seq(file, src, pos);
            &&& ts.len() >= 1
            &&& ts.last() == (Token {
                kind: TokenKind::End,
                span: span_at(file, src.len() as int, src.len() as int),
            })
            &&& forall|i: int| 0 <= i < ts.len() - 1 ==> (#[trigger] ts[i]).kind != TokenKind::End
        }),
{
    lemma_spec_tokens_wf(src, pos);
    let ms = spec_tokens_from(src, pos);
    let ts = spec_token_seq(file, src, pos);
    assert(ts.last() == (Token {
        kind: TokenKind::End,
        span: span_at(file, src.len() as int, src.len() as int),
    })) by {
        assert(ts[ms.len() - 1] == (Token {
            kind: ms.last().0,
            span: span_at(file, ms.last().1, ms.last().2),
        }));
    }
    assert forall|i: int| 0 <= i < ts.len() - 1 implies (#[trigger] ts[i]).kind
        != TokenKind::End by {
        assert(ts[i] == (Token { kind: ms[i].0, span: span_at(file, ms[i].1, ms[i].2) }));
    }
}

/// One step of the stream: the head token, then the scan's remainder.
pub proof fn lemma_token_seq_step(file: SourceFile, src: Seq<u8>, pos: nat)
    requires
        pos <= src.len(),
    ensures
        ({
            let p = skip_trivia(src, pos);
            let ts = spec_token_seq(file, src, pos);
            if p >= src.len() {
                ts == seq![
                    Token {
                        kind: TokenKind::End,
                        span: span_at(file, src.len() as int, src.len() as int),
                    },
                ]
            } else {
                let kind = scan_token(src, p).0;
                let e = scan_token(src, p).1;
                ts == seq![Token { kind, span: span_at(file, p as int, e as int) }]
                    + spec_token_seq(file, src, e)
            }
        }),
{
    lemma_skip_trivia_bounds(src, pos, false);
    let p = skip_trivia(src, pos);
    let ts = spec_token_seq(file, src, pos);
    let f = |m: (TokenKind, int, int)| Token { kind: m.0, span: span_at(file, m.1, m.2) };
    if p >= src.len() {
        assert(ts =~= seq![
            Token {
                kind: TokenKind::End,
                span: span_at(file, src.len() as int, src.len() as int),
            },
        ]);
    } else {
        lemma_scan_token_bounds(src, p);
        let kind = scan_token(src, p).0;
        let e = scan_token(src, p).1;
        assert(spec_tokens_from(src, pos) == seq![(kind, p as int, e as int)]
            + spec_tokens_from(src, e));
        assert(ts =~= seq![Token { kind, span: span_at(file, p as int, e as int) }]
            + spec_token_seq(file, src, e)) by {
            assert forall|i: int| 0 <= i < ts.len() implies ts[i] == (seq![
                Token { kind, span: span_at(file, p as int, e as int) },
            ] + spec_token_seq(file, src, e))[i] by {
                assert(ts[i] == f(spec_tokens_from(src, pos)[i]));
                if i > 0 {
                    assert(spec_tokens_from(src, pos)[i] == spec_tokens_from(src, e)[i - 1]);
                }
            }
        }
    }
}

pub proof fn lemma_scan_token_not_end(src: Seq<u8>, p: nat)
    requires
        p < src.len(),
    ensures
        scan_token(src, p).0 != TokenKind::End,
{
}

/// The shape of every full scan: it ends with exactly one `End` token
/// carrying a zero-width span at end-of-buffer; every span is
/// well-formed; and spans never overlap and never regress, each
/// token's begin at or after the previous token's end.
pub proof fn lemma_spec_tokens_wf(src: Seq<u8>, pos: nat)
    requires
        pos <= src.len(),
    ensures
        ({
            let ts = spec_tokens_from(src, pos);
            &&& ts.len() >= 1
            &&& ts.last() == (TokenKind::End, src.len() as int, src.len() as int)
            &&& forall|i: int|
                0 <= i < ts.len() ==> pos <= (#[trigger] ts[i]).1 <= ts[i].2 <= src.len()
            &&& forall|i: int| 0 <= i < ts.len() - 1 ==> (#[trigger] ts[i]).2 <= ts[i + 1].1
            &&& forall|i: int| 0 <= i < ts.len() - 1 ==> (#[trigger] ts[i]).0 != TokenKind::End
        }),
    decreases src.len() - pos,
{
    lemma_skip_trivia_bounds(src, pos, false);
    let p = skip_trivia(src, pos);
    let ts = spec_tokens_from(src, pos);
    if p < src.len() {
        lemma_scan_token_bounds(src, p);
        lemma_scan_token_not_end(src, p);
        let kind = scan_token(src, p).0;
        let e = scan_token(src, p).1;
        lemma_spec_tokens_wf(src, e);
        let rest = spec_tokens_from(src, e);
        assert(ts == seq![(kind, p as int, e as int)] + rest);
        assert(ts.last() == rest.last());
        assert forall|i: int|
            0 <= i < ts.len() implies pos <= (#[trigger] ts[i]).1 <= ts[i].2 <= src.len() by {
            if i > 0 {
                assert(ts[i] == rest[i - 1]);
            }
        }
        assert forall|i: int| 0 <= i < ts.len() - 1 implies (#[trigger] ts[i]).2 <= ts[i + 1].1 by {
            if i == 0 {
                assert(ts[1] == rest[0]);
            } else {
                assert(ts[i] == rest[i - 1]);
                assert(ts[i + 1] == rest[i]);
            }
        }
        assert forall|i: int|
            0 <= i < ts.len() - 1 implies (#[trigger] ts[i]).0 != TokenKind::End by {
            if i > 0 {
                assert(ts[i] == rest[i - 1]);
            }
        }
    }
}

/// Scans a whole buffer into a vector. The result is exactly the token
/// sequence `spec_tokens_from` describes: it terminates for every
/// finite input, the last token is the single `End`, positioned at
/// end-of-buffer, spans are well-formed and never overlap or regress,
/// and the log gains exactly one diagnostic per `Error` token.
#[verifier::rlimit(100)]
pub fn tokenize_all<E: Errors>(errors: &mut E, file: SourceFile, source: &[u8]) -> (r: Vec<Token>)
    requires
        source@.len() <= u32::MAX,
        scan_ok_from(source@, 0),
    ensures
        r@.map_values(|t: Token| token_model(t)) == spec_tokens_from(source@, 0),
        forall|i: int| 0 <= i < r@.len() ==> (#[trigger] r@[i]).span.file == file,
        r@.len() >= 1,
        r@.last().kind == TokenKind::End,
        r@.last().span.begin == source@.len() && r@.last().span.end == source@.len(),
        forall|i: int| 0 <= i < r@.len() ==> (#[trigger] r@[i]).span.begin <= r@[i].span.end,
        forall|i: int| 0 <= i < r@.len() - 1 ==> (#[trigger] r@[i]).span.end <= r@[i + 1].span.begin,
        forall|i: int| 0 <= i < r@.len() - 1 ==> (#[trigger] r@[i]).kind != TokenKind::End,
        crate::compiler::emitted(
            old(errors).log(),
            final(errors).log(),
            spec_scan_diags(file, source@, 0),
        ),
        crate::compiler::log_extends(old(errors).log(), final(errors).log()),
{
    broadcast use
        crate::compiler::lemma_emitted_trans,
        crate::compiler::lemma_pushed_one_emitted,
    ;

    let ghost f = |t: Token| token_model(t);
    let ghost all = spec_tokens_from(source@, 0);
    let ghost all_diags = spec_scan_diags(file, source@, 0);
    let mut tok = tokenize(file, source);
    let mut out: Vec<Token> = Vec::new();
    let ghost mut dacc: Seq<(Seq<char>, SourceSpan)> = Seq::empty();
    proof {
        assert(crate::compiler::emitted(old(errors).log(), errors.log(), dacc));
    }
    loop
        invariant_except_break
            all == out@.map_values(f) + spec_tokens_from(source@, tok.spec_pos() as nat),
            all_diags == dacc + spec_scan_diags(file, source@, tok.spec_pos() as nat),
        invariant
            tok.wf(),
            tok.src() == source@,
            tok.spec_file() == file,
            source@.len() <= u32::MAX,
            scan_ok_from(source@, tok.spec_pos() as nat),
            all == spec_tokens_from(source@, 0),
            all_diags == spec_scan_diags(file, source@, 0),
            f == (|t: Token| token_model(t)),
            forall|i: int| 0 <= i < out@.len() ==> (#[trigger] out@[i]).span.file == file,
            crate::compiler::emitted(old(errors).log(), errors.log(), dacc),
            crate::compiler::log_extends(old(errors).log(), errors.log()),
        ensures
            out@.map_values(f) == all,
            forall|i: int| 0 <= i < out@.len() ==> (#[trigger] out@[i]).span.file == file,
            crate::compiler::emitted(old(errors).log(), errors.log(), all_diags),
            crate::compiler::log_extends(old(errors).log(), errors.log()),
        decreases source@.len() - tok.spec_pos(),
    {
        broadcast use
            crate::compiler::lemma_emitted_trans,
            crate::compiler::lemma_pushed_one_emitted,
        ;

        let ghost pos_before = tok.spec_pos();
        let ghost p = skip_trivia(source@, pos_before as nat);
        let ghost map_before = out@.map_values(f);
        let t = tok.next_token(errors);
        proof {
            lemma_skip_trivia_bounds(source@, pos_before as nat, false);
            if p < source@.len() {
                lemma_scan_token_bounds(source@, p as nat);
            }
            assert(out@.push(t).map_values(f) =~= map_before.push(f(t)));
            if t.kind == TokenKind::Error {
                let d = (bad_token_message(source@[p as int]), span_at(file, p as int, p as int + 1));
                assert(crate::compiler::emitted(old(errors).log(), errors.log(), dacc + seq![d]));
                dacc = dacc + seq![d];
            }
        }
        out.push(t);
        if matches!(t.kind, TokenKind::End) {
            proof {
                assert(p == source@.len());
                assert(spec_tokens_from(source@, pos_before as nat) == seq![f(t)]);
                assert(out@.map_values(f) =~= all);
                assert(spec_scan_diags(file, source@, pos_before as nat)
                    =~= Seq::<(Seq<char>, SourceSpan)>::empty());
                assert(dacc =~= all_diags);
            }
            break ;
        }
        proof {
            assert(t.kind != TokenKind::End);
            assert(p < source@.len());
            assert(spec_tokens_from(source@, pos_before as nat) == seq![f(t)]
                + spec_tokens_from(source@, tok.spec_pos() as nat));
            assert(out@.map_values(f) + spec_tokens_from(source@, tok.spec_pos() as nat) =~= all);
            let step_ds = spec_scan_diags(file, source@, pos_before as nat);
            let rest_ds = spec_scan_diags(file, source@, tok.spec_pos() as nat);
            if t.kind == TokenKind::Error {
                assert(step_ds == seq![
                    (bad_token_message(source@[p as int]), span_at(file, p as int, p as int + 1)),
                ] + rest_ds);
            } else {
                assert(step_ds == Seq::<(Seq<char>, SourceSpan)>::empty() + rest_ds);
            }
            assert(dacc + rest_ds =~= all_diags);
        }
    }
    proof {
        lemma_token_vec_shape(out@, source@);
    }
    out
}

/// Transfers the shape facts of `lemma_spec_tokens_wf` to a token
/// vector whose models are exactly the scanned sequence.
#[verifier::rlimit(100)]
proof fn lemma_token_vec_shape(ts: Seq<Token>, src: Seq<u8>)
    requires
        ts.map_values(|t: Token| token_model(t)) == spec_tokens_from(src, 0),
    ensures
        ts.len() >= 1,
        ts.last().kind == TokenKind::End,
        ts.last().span.begin == src.len() && ts.last().span.end == src.len(),
        forall|i: int| 0 <= i < ts.len() ==> (#[trigger] ts[i]).span.begin <= ts[i].span.end,
        forall|i: int| 0 <= i < ts.len() - 1 ==> (#[trigger] ts[i]).span.end <= ts[i + 1].span.begin,
        forall|i: int| 0 <= i < ts.len() - 1 ==> (#[trigger] ts[i]).kind != TokenKind::End,
{
    lemma_spec_tokens_wf(src, 0);
    let f = |t: Token| token_model(t);
    let m = ts.map_values(f);
    assert(m.len() == ts.len());
    assert forall|i: int|
        0 <= i < ts.len() implies (#[trigger] ts[i]).span.begin <= ts[i].span.end by {
        assert(m[i] == f(ts[i]));
    }
    assert forall|i: int|
        0 <= i < ts.len() - 1 implies (#[trigger] ts[i]).span.end <= ts[i + 1].span.begin by {
        assert(m[i] == f(ts[i]));
        assert(m[i + 1] == f(ts[i + 1]));
    }
    assert forall|i: int|
        0 <= i < ts.len() - 1 implies (#[trigger] ts[i]).kind != TokenKind::End by {
        assert(m[i] == f(ts[i]));
    }
    assert(m.last() == f(ts.last()));
}

} // verus!
