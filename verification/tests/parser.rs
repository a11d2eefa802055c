use ebi::Compiler;
use ebi::SourceSpan;
use ebi::ast::Ast;
use ebi::ast::AstRoot;
use ebi::ast::TokenKind;
use ebi::front::parse;
use ebi::front::tokenize;

fn parse_source(compiler: &mut Compiler, source: &[u8]) -> (AstRoot, ebi::SourceFile) {
    let file = compiler.add_file("internal.ebi", source.to_vec());
    let f = file.file();
    let tokenizer = tokenize(f, file.data());
    (parse(compiler, tokenizer), f)
}

fn root_children(root: &AstRoot) -> Vec<usize> {
    match root.root() {
        Ast::Root(children) => children.clone(),
        _ => panic!("the bundle's root must be a Root node"),
    }
}

#[test]
fn empty_class_parses_clean() {
    let mut compiler = Compiler::new();
    let (root, f) = parse_source(&mut compiler, b"class Foo { }");

    assert_eq!(compiler.errors().len(), 0);
    let children = root_children(&root);
    assert_eq!(children.len(), 1);
    match root.node(children[0]).unwrap() {
        Ast::ClassDecl(kw, name, body) => {
            assert_eq!(kw.kind, TokenKind::KeywordClass);
            assert_eq!(kw.span, SourceSpan::new(f, 0, 5));
            assert_eq!(name.kind, TokenKind::Ident);
            assert_eq!(name.span, SourceSpan::new(f, 6, 9));
            assert_eq!(body.len(), 0);
        },
        other => panic!("expected a class declaration, found {:?}", other),
    }
}

#[test]
fn unclosed_class_reports_once_and_finishes() {
    let mut compiler = Compiler::new();
    let (root, f) = parse_source(&mut compiler, b"class Foo {");

    let errors = compiler.errors();
    assert_eq!(errors.len(), 1);
    assert_eq!(errors[0].message, "unclosed class");
    assert_eq!(errors[0].location, SourceSpan::new(f, 6, 9));

    let children = root_children(&root);
    assert_eq!(children.len(), 1);
    assert!(matches!(root.node(children[0]).unwrap(), Ast::ClassDecl(_, _, _)));
}

#[test]
fn struct_keyword_also_declares_a_class() {
    let mut compiler = Compiler::new();
    let (root, _) = parse_source(&mut compiler, b"struct Bar {\n}");
    assert_eq!(compiler.errors().len(), 0);
    let children = root_children(&root);
    assert_eq!(children.len(), 1);
    match root.node(children[0]).unwrap() {
        Ast::ClassDecl(kw, _, body) => {
            assert_eq!(kw.kind, TokenKind::KeywordStruct);
            assert_eq!(body.len(), 0);
        },
        other => panic!("expected a class declaration, found {:?}", other),
    }
}

#[test]
fn class_body_holds_declarations() {
    let mut compiler = Compiler::new();
    let (root, _) = parse_source(&mut compiler, b"class Foo {\n  a\n  b + c\n}");
    assert_eq!(compiler.errors().len(), 0);
    let children = root_children(&root);
    assert_eq!(children.len(), 1);
    match root.node(children[0]).unwrap() {
        Ast::ClassDecl(_, _, body) => {
            assert_eq!(body.len(), 2);
            assert!(matches!(root.node(body[0]).unwrap(), Ast::Name(_)));
            assert!(matches!(root.node(body[1]).unwrap(), Ast::Binop(_, _, _)));
        },
        other => panic!("expected a class declaration, found {:?}", other),
    }
}

#[test]
fn addition_associates_to_the_left() {
    let mut compiler = Compiler::new();
    let (root, f) = parse_source(&mut compiler, b"a + b + c");
    assert_eq!(compiler.errors().len(), 0);
    let children = root_children(&root);
    assert_eq!(children.len(), 1);
    match root.node(children[0]).unwrap() {
        Ast::Binop(op, left, right) => {
            assert_eq!(op.kind, TokenKind::Add);
            assert_eq!(op.span, SourceSpan::new(f, 6, 7));
            match root.node(*left).unwrap() {
                Ast::Binop(inner_op, a, b) => {
                    assert_eq!(inner_op.span, SourceSpan::new(f, 2, 3));
                    match root.node(*a).unwrap() {
                        Ast::Name(t) => assert_eq!(t.span, SourceSpan::new(f, 0, 1)),
                        other => panic!("expected a name, found {:?}", other),
                    }
                    match root.node(*b).unwrap() {
                        Ast::Name(t) => assert_eq!(t.span, SourceSpan::new(f, 4, 5)),
                        other => panic!("expected a name, found {:?}", other),
                    }
                },
                other => panic!("expected a nested operation, found {:?}", other),
            }
            match root.node(*right).unwrap() {
                Ast::Name(t) => assert_eq!(t.span, SourceSpan::new(f, 8, 9)),
                other => panic!("expected a name, found {:?}", other),
            }
        },
        other => panic!("expected a binary operation, found {:?}", other),
    }
}

#[test]
fn newlines_separate_declarations() {
    let mut compiler = Compiler::new();
    let (root, _) = parse_source(&mut compiler, b"\n\na\nb\n\n");
    assert_eq!(compiler.errors().len(), 0);
    let children = root_children(&root);
    assert_eq!(children.len(), 2);
}

#[test]
fn bad_declaration_is_reported_and_skipped() {
    let mut compiler = Compiler::new();
    let (root, _) = parse_source(&mut compiler, b"+\nx");

    let errors = compiler.errors();
    assert_eq!(errors.len(), 1);
    assert_eq!(errors[0].message, "expected a declaration");

    let children = root_children(&root);
    assert_eq!(children.len(), 1);
    assert!(matches!(root.node(children[0]).unwrap(), Ast::Name(_)));
}

#[test]
fn missing_class_name_is_reported() {
    let mut compiler = Compiler::new();
    let (_root, _) = parse_source(&mut compiler, b"class { }");
    let errors = compiler.errors();
    assert!(errors.iter().any(|e| e.message == "expected name for class"));
}

#[test]
fn missing_brace_is_reported() {
    let mut compiler = Compiler::new();
    let (_root, _) = parse_source(&mut compiler, b"class Foo Bar");
    let errors = compiler.errors();
    assert!(errors.iter().any(|e| e.message == "expected '{' following a class declaration"));
}

#[test]
fn garbage_still_yields_one_root() {
    let mut compiler = Compiler::new();
    let inputs: Vec<&[u8]> = vec![
        b"",
        b"@@@",
        b"}}}{{{",
        b"class class class",
        b"+ + +\n@ // comment\nclass X { @ }",
    ];
    for input in inputs {
        let (root, _) = parse_source(&mut compiler, input);
        assert!(matches!(root.root(), Ast::Root(_)));
        let mut roots = 0;
        for id in 0..root.len() {
            if matches!(root.node(id).unwrap(), Ast::Root(_)) {
                roots += 1;
            }
        }
        assert_eq!(roots, 1);
    }
}

#[test]
fn nested_classes_parse() {
    let mut compiler = Compiler::new();
    let (root, _) = parse_source(&mut compiler, b"class A {\n class B { }\n}");
    assert_eq!(compiler.errors().len(), 0);
    let children = root_children(&root);
    assert_eq!(children.len(), 1);
    match root.node(children[0]).unwrap() {
        Ast::ClassDecl(_, _, body) => {
            assert_eq!(body.len(), 1);
            assert!(matches!(root.node(body[0]).unwrap(), Ast::ClassDecl(_, _, _)));
        },
        other => panic!("expected a class declaration, found {:?}", other),
    }
}
