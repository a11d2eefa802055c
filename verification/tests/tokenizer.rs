use ebi::Compiler;
use ebi::SourceSpan;
use ebi::ast::TokenKind;
use ebi::front::tokenize;
use ebi::front::tokenizer::scan_supported;
use ebi::front::tokenizer::tokenize_all;

#[test]
fn tokenizer_hello() {
    let mut compiler = Compiler::new();
    let source = "Hello World";
    let file = compiler.add_file("internal.ebi", source.bytes().collect());

    let mut tokenizer = tokenize(file.file(), file.data());
    let mut tokens = Vec::new();
    while let Some(token) = tokenizer.scan(&mut compiler) {
        tokens.push(token);
    }
    assert_eq!(tokens.len(), 2);

    assert_eq!(tokens[0].kind, TokenKind::Ident);
    assert_eq!(tokens[1].kind, TokenKind::Ident);

    let f = file.file();
    assert_eq!(tokens[0].span, SourceSpan::new(f, 0, 5));
    assert_eq!(tokens[1].span, SourceSpan::new(f, 6, 11));
}

#[test]
fn tokenizer_error() {
    let mut compiler = Compiler::new();
    let source = "Hello @@@ World";
    let file = compiler.add_file("internal.ebi", source.bytes().collect());

    let mut tokenizer = tokenize(file.file(), file.data());
    let mut tokens = Vec::new();
    while let Some(token) = tokenizer.scan(&mut compiler) {
        tokens.push(token);
    }
    assert_eq!(tokens.len(), 3);

    assert_eq!(tokens[0].kind, TokenKind::Ident);
    assert_eq!(tokens[1].kind, TokenKind::Error);
    assert_eq!(tokens[2].kind, TokenKind::Ident);

    let f = file.file();
    assert_eq!(tokens[0].span, SourceSpan::new(f, 0, 5));
    assert_eq!(tokens[1].span, SourceSpan::new(f, 6, 9));
    assert_eq!(tokens[2].span, SourceSpan::new(f, 10, 15));
}

#[test]
fn tokens_end_with_end_at_end_of_buffer() {
    let mut compiler = Compiler::new();
    let file = compiler.add_file("internal.ebi", b"Hello World".to_vec());
    let f = file.file();

    let tokens = tokenize_all(&mut compiler, f, file.data());
    assert_eq!(tokens.len(), 3);
    assert_eq!(tokens[0].kind, TokenKind::Ident);
    assert_eq!(tokens[0].span, SourceSpan::new(f, 0, 5));
    assert_eq!(tokens[1].kind, TokenKind::Ident);
    assert_eq!(tokens[1].span, SourceSpan::new(f, 6, 11));
    assert_eq!(tokens[2].kind, TokenKind::End);
    assert_eq!(tokens[2].span, SourceSpan::new(f, 11, 11));
    assert_eq!(compiler.errors().len(), 0);
}

#[test]
fn error_run_reports_exactly_one_diagnostic() {
    let mut compiler = Compiler::new();
    let file = compiler.add_file("internal.ebi", b"Hello @@@ World".to_vec());
    let f = file.file();

    let tokens = tokenize_all(&mut compiler, f, file.data());
    assert_eq!(tokens.len(), 4);
    assert_eq!(tokens[0].kind, TokenKind::Ident);
    assert_eq!(tokens[0].span, SourceSpan::new(f, 0, 5));
    assert_eq!(tokens[1].kind, TokenKind::Error);
    assert_eq!(tokens[1].span, SourceSpan::new(f, 6, 9));
    assert_eq!(tokens[2].kind, TokenKind::Ident);
    assert_eq!(tokens[2].span, SourceSpan::new(f, 10, 15));
    assert_eq!(tokens[3].kind, TokenKind::End);
    assert_eq!(tokens[3].span, SourceSpan::new(f, 15, 15));

    let errors = compiler.errors();
    assert_eq!(errors.len(), 1);
    assert_eq!(errors[0].message, "unrecognized token: '@'");
    assert_eq!(errors[0].location, SourceSpan::new(f, 6, 7));
    assert_eq!(errors[0].context.len(), 0);
}

#[test]
fn two_error_runs_report_two_diagnostics() {
    let mut compiler = Compiler::new();
    let file = compiler.add_file("internal.ebi", b"@@ @@".to_vec());
    let tokens = tokenize_all(&mut compiler, file.file(), file.data());
    assert_eq!(tokens.len(), 3);
    assert_eq!(tokens[0].kind, TokenKind::Error);
    assert_eq!(tokens[1].kind, TokenKind::Error);
    assert_eq!(tokens[2].kind, TokenKind::End);
    assert_eq!(compiler.errors().len(), 2);
}

#[test]
fn tilde_is_printable_and_quoted() {
    let mut compiler = Compiler::new();
    let file = compiler.add_file("internal.ebi", b"x ~".to_vec());
    let tokens = tokenize_all(&mut compiler, file.file(), file.data());
    assert_eq!(tokens.len(), 3);
    assert_eq!(tokens[1].kind, TokenKind::Error);
    let errors = compiler.errors();
    assert_eq!(errors.len(), 1);
    assert_eq!(errors[0].message, "unrecognized token: '~'");
}

#[test]
fn unprintable_byte_is_named_in_hex() {
    let mut compiler = Compiler::new();
    let file = compiler.add_file("internal.ebi", vec![b'x', b' ', 0x01]);
    let tokens = tokenize_all(&mut compiler, file.file(), file.data());
    assert_eq!(tokens.len(), 3);
    assert_eq!(tokens[1].kind, TokenKind::Error);
    let errors = compiler.errors();
    assert_eq!(errors.len(), 1);
    assert_eq!(errors[0].message, "unrecognized token: (byte 0x01)");
}

#[test]
fn line_comment_runs_through_newline() {
    let mut compiler = Compiler::new();
    let file = compiler.add_file("internal.ebi", b"a // c\nb".to_vec());
    let f = file.file();
    let tokens = tokenize_all(&mut compiler, f, file.data());
    assert_eq!(tokens.len(), 3);
    assert_eq!(tokens[0].kind, TokenKind::Ident);
    assert_eq!(tokens[0].span, SourceSpan::new(f, 0, 1));
    assert_eq!(tokens[1].kind, TokenKind::Ident);
    assert_eq!(tokens[1].span, SourceSpan::new(f, 7, 8));
    assert_eq!(tokens[2].kind, TokenKind::End);
    assert_eq!(compiler.errors().len(), 0);
}

#[test]
fn line_comment_at_end_of_buffer() {
    let mut compiler = Compiler::new();
    let file = compiler.add_file("internal.ebi", b"a //x".to_vec());
    let f = file.file();
    let tokens = tokenize_all(&mut compiler, f, file.data());
    assert_eq!(tokens.len(), 2);
    assert_eq!(tokens[0].kind, TokenKind::Ident);
    assert_eq!(tokens[1].kind, TokenKind::End);
    assert_eq!(tokens[1].span, SourceSpan::new(f, 5, 5));
}

#[test]
fn keywords_are_reclassified() {
    let mut compiler = Compiler::new();
    let file = compiler.add_file("internal.ebi", b"class struct classy".to_vec());
    let tokens = tokenize_all(&mut compiler, file.file(), file.data());
    assert_eq!(tokens.len(), 4);
    assert_eq!(tokens[0].kind, TokenKind::KeywordClass);
    assert_eq!(tokens[1].kind, TokenKind::KeywordStruct);
    assert_eq!(tokens[2].kind, TokenKind::Ident);
    assert_eq!(tokens[3].kind, TokenKind::End);
}

#[test]
fn operators_prefer_two_byte_forms() {
    let mut compiler = Compiler::new();
    let file = compiler.add_file("internal.ebi", b"= == < <= > >= { } +".to_vec());
    let tokens = tokenize_all(&mut compiler, file.file(), file.data());
    let kinds: Vec<TokenKind> = tokens.iter().map(|t| t.kind).collect();
    assert_eq!(
        kinds,
        vec![
            TokenKind::Assign,
            TokenKind::Equals,
            TokenKind::Less,
            TokenKind::LessEquals,
            TokenKind::Greater,
            TokenKind::GreaterEquals,
            TokenKind::BraceOpen,
            TokenKind::BraceClose,
            TokenKind::Add,
            TokenKind::End,
        ]
    );
}

#[test]
fn newlines_are_tokens_not_whitespace() {
    let mut compiler = Compiler::new();
    let file = compiler.add_file("internal.ebi", b"a\nb".to_vec());
    let f = file.file();
    let tokens = tokenize_all(&mut compiler, f, file.data());
    assert_eq!(tokens.len(), 4);
    assert_eq!(tokens[1].kind, TokenKind::Newline);
    assert_eq!(tokens[1].span, SourceSpan::new(f, 1, 2));
}

#[test]
fn empty_input_yields_only_end() {
    let mut compiler = Compiler::new();
    let file = compiler.add_file("internal.ebi", Vec::new());
    let f = file.file();
    let tokens = tokenize_all(&mut compiler, f, file.data());
    assert_eq!(tokens.len(), 1);
    assert_eq!(tokens[0].kind, TokenKind::End);
    assert_eq!(tokens[0].span, SourceSpan::new(f, 0, 0));
}

#[test]
fn spans_never_overlap_or_regress() {
    let mut compiler = Compiler::new();
    let file = compiler.add_file("internal.ebi", b"a+b // c\n@@ x <= y\n".to_vec());
    let tokens = tokenize_all(&mut compiler, file.file(), file.data());
    for pair in tokens.windows(2) {
        assert!(pair[0].span.end <= pair[1].span.begin);
    }
    for token in &tokens {
        assert!(token.span.begin <= token.span.end);
    }
    assert_eq!(tokens.last().unwrap().kind, TokenKind::End);
}

#[test]
fn digit_started_tokens_are_unsupported() {
    assert!(scan_supported(b"abc a1 _9"));
    assert!(!scan_supported(b"123"));
    assert!(!scan_supported(b"a 1"));
    assert!(scan_supported(b"// 123\nx"));
}
