use ebi::Compiler;
use ebi::SourceSpan;
use ebi::compiler::InternalLocation;
use ebi::compiler::push_error;

#[test]
fn registering_a_path_twice_keeps_id_and_bytes() {
    let mut compiler = Compiler::new();
    let first = compiler.load_file("x.ebi", Some(b"one".to_vec()));
    let second = compiler.load_file("x.ebi", Some(b"two two".to_vec()));

    assert_eq!(first.file().index(), second.file().index());
    assert_eq!(second.data(), b"one");
    assert_eq!(compiler.errors().len(), 0);
}

#[test]
fn lookup_path_reports_the_cache() {
    let mut compiler = Compiler::new();
    assert!(compiler.lookup_path("x.ebi").is_none());
    let info = compiler.load_file("x.ebi", Some(b"abc".to_vec()));
    let found = compiler.lookup_path("x.ebi").expect("path just registered");
    assert_eq!(found.index(), info.file().index());
}

#[test]
fn failed_read_degrades_to_empty_file_with_diagnostic() {
    let mut compiler = Compiler::new();
    let info = compiler.load_file("missing.ebi", None);

    assert_eq!(info.data(), b"");
    assert_eq!(info.name(), "missing.ebi");
    let errors = compiler.errors();
    assert_eq!(errors.len(), 1);
    assert_eq!(errors[0].message, "Failed to open file: missing.ebi");
    assert_eq!(errors[0].location.file.index(), 0);
    assert_eq!(errors[0].location.begin, 0);
    assert_eq!(errors[0].location.end, 0);
}

#[test]
fn add_file_always_hands_out_fresh_ids() {
    let mut compiler = Compiler::new();
    let a = compiler.add_file("same.ebi", b"a".to_vec());
    let b = compiler.add_file("same.ebi", b"b".to_vec());
    assert_eq!(a.file().index(), 1);
    assert_eq!(b.file().index(), 2);
    assert_eq!(compiler.file_info(a.file()).unwrap().data(), b"a");
    assert_eq!(compiler.file_info(b.file()).unwrap().data(), b"b");
}

#[test]
fn file_info_of_unknown_id_is_none() {
    let compiler = Compiler::new();
    assert!(compiler.file_info(ebi::SourceFile::unknown()).is_none());
}

#[test]
fn line_break_table_starts_at_zero_and_ascends() {
    let mut compiler = Compiler::new();
    let info = compiler.add_file("internal.ebi", b"ab\ncd\ne".to_vec());
    assert_eq!(info.line_breaks(), &[0, 3, 6]);

    let empty = compiler.add_file("empty.ebi", Vec::new());
    assert_eq!(empty.line_breaks(), &[0]);
}

#[test]
fn offset_zero_resolves_to_first_line_first_column() {
    let mut compiler = Compiler::new();
    let info = compiler.add_file("internal.ebi", b"ab\ncd\ne".to_vec());
    assert_eq!(info.resolve_line_column(0), (0, 0));

    let span = SourceSpan::new(info.file(), 0, 2);
    let si = compiler.span_info(span).expect("file is registered");
    assert_eq!(si.line(), 1);
    assert_eq!(si.column(), 1);
}

#[test]
fn offset_after_each_newline_resolves_to_column_one() {
    let mut compiler = Compiler::new();
    let info = compiler.add_file("internal.ebi", b"ab\ncd\ne".to_vec());

    // offsets 3 and 6 sit immediately after the two newlines
    assert_eq!(info.resolve_line_column(3), (1, 0));
    assert_eq!(info.resolve_line_column(6), (2, 0));

    let si = compiler.span_info(SourceSpan::new(info.file(), 3, 5)).unwrap();
    assert_eq!(si.line(), 2);
    assert_eq!(si.column(), 1);
    let si = compiler.span_info(SourceSpan::new(info.file(), 6, 7)).unwrap();
    assert_eq!(si.line(), 3);
    assert_eq!(si.column(), 1);
}

#[test]
fn columns_count_characters_not_bytes() {
    let mut compiler = Compiler::new();
    // "héllo": the accented character takes two bytes
    let info = compiler.add_file("internal.ebi", "h\u{e9}llo".as_bytes().to_vec());
    let (line, col) = info.resolve_line_column(3);
    assert_eq!(line, 0);
    assert_eq!(col, 2);
}

#[test]
fn get_line_slices_the_buffer() {
    let mut compiler = Compiler::new();
    let info = compiler.add_file("internal.ebi", b"ab\ncd\ne".to_vec());
    assert_eq!(info.get_line(0), b"ab\n");
    assert_eq!(info.get_line(1), b"cd\n");
    assert_eq!(info.get_line(2), b"e");
    assert_eq!(info.get_line(3), b"");
}

#[test]
fn span_info_carries_filename_and_text() {
    let mut compiler = Compiler::new();
    let info = compiler.add_file("demo.ebi", b"ab\ncd\ne".to_vec());
    let si = compiler.span_info(SourceSpan::new(info.file(), 3, 5)).unwrap();
    assert_eq!(si.filename(), "demo.ebi");
    assert_eq!(si.text(), b"cd");

    let missing = compiler.span_info(SourceSpan::unknown());
    assert!(missing.is_none());
}

#[test]
fn diagnostics_keep_append_order() {
    let mut compiler = Compiler::new();
    let site_a = InternalLocation { file: "front/parser.rs", line: 7 };
    let site_b = InternalLocation { file: "front/tokenizer.rs", line: 9 };
    let span = SourceSpan::unknown();
    push_error(&mut compiler, &site_a, &span, String::from("first"));
    push_error(&mut compiler, &site_b, &span, String::from("second"));

    let errors = compiler.errors();
    assert_eq!(errors.len(), 2);
    assert_eq!(errors[0].message, "first");
    assert_eq!(errors[0].internal_location.file, "front/parser.rs");
    assert_eq!(errors[0].internal_location.line, 7);
    assert_eq!(errors[1].message, "second");
    assert_eq!(errors[1].internal_location.line, 9);
}
