use ninja_editor::{ErrorKind, Lexer, SourceId, TokenKind};

fn with_sentinel(s: &str) -> Vec<u8> {
    let mut v = s.as_bytes().to_vec();
    v.push(0);
    v
}

#[test]
fn escapes_in_value_mode() {
    let text = with_sentinel("a$$b$ c\n");
    let mut lexer = Lexer::new(&text, SourceId(0));
    let v = lexer.read_var_value().unwrap();
    assert_eq!(v.elem, b"a$b c".to_vec());
    assert_eq!(v.loc.start, 0);
    assert_eq!(v.loc.stop, 7);
    assert_eq!(lexer.offset(), 8);
}

#[test]
fn escapes_in_path_mode() {
    let text = with_sentinel("a$$b$ c d\n");
    let mut lexer = Lexer::new(&text, SourceId(0));
    let p = lexer.read_path().unwrap();
    assert_eq!(p.elem, b"a$b c".to_vec());
    assert_eq!(p.loc.stop, 7);
    let q = lexer.read_path().unwrap();
    assert_eq!(q.elem, b"d".to_vec());
    let end = lexer.read_path().unwrap();
    assert!(end.elem.is_empty());
}

#[test]
fn value_mode_keeps_spaces_colons_and_pipes() {
    let text = with_sentinel("x: y | z\n");
    let mut lexer = Lexer::new(&text, SourceId(0));
    assert_eq!(lexer.read_var_value().unwrap().elem, b"x: y | z".to_vec());
}

#[test]
fn variable_references_keep_their_names() {
    let text = with_sentinel("x${foo.bar}y$baz_1-2/q$:\n");
    let mut lexer = Lexer::new(&text, SourceId(0));
    assert_eq!(lexer.read_var_value().unwrap().elem, b"xfoo.barybaz_1-2/q:".to_vec());
}

#[test]
fn line_continuation() {
    let text = with_sentinel("a $\n    b\nnext");
    let mut lexer = Lexer::new(&text, SourceId(0));
    assert_eq!(lexer.read_var_value().unwrap().elem, b"a b".to_vec());
    assert_eq!(lexer.next().unwrap().kind, TokenKind::Ident);
}

#[test]
fn bad_escape() {
    let text = with_sentinel("a$%\n");
    let mut lexer = Lexer::new(&text, SourceId(0));
    let e = lexer.read_var_value().err().unwrap();
    assert_eq!(e.kind, ErrorKind::BadEscape);
    assert_eq!(e.loc.start, 1);
}

#[test]
fn end_of_input_inside_value() {
    let text = with_sentinel("abc");
    let mut lexer = Lexer::new(&text, SourceId(0));
    let e = lexer.read_var_value().err().unwrap();
    assert_eq!(e.kind, ErrorKind::UnexpectedEof);
    assert_eq!(e.loc.start, 3);
}

#[test]
fn tokens_of_a_build_line() {
    let text = with_sentinel("build a | b: rule_x c || d |@ e\n  pool = p\n");
    let mut lexer = Lexer::new(&text, SourceId(3));
    let kinds = [
        TokenKind::Build,
        TokenKind::Ident,
        TokenKind::Pipe,
        TokenKind::Ident,
        TokenKind::Colon,
        TokenKind::Ident,
        TokenKind::Ident,
        TokenKind::Pipe2,
        TokenKind::Ident,
        TokenKind::PipeAt,
        TokenKind::Ident,
        TokenKind::Newline,
        TokenKind::Indent,
        TokenKind::Pool,
        TokenKind::Equals,
        TokenKind::Ident,
        TokenKind::Newline,
        TokenKind::Eof,
        TokenKind::Eof,
    ];
    for k in kinds.iter() {
        let t = lexer.next().unwrap();
        assert_eq!(t.kind, *k);
        assert_eq!(t.loc.source_id, SourceId(3));
    }
}

#[test]
fn keywords_need_exact_spelling() {
    let text = with_sentinel("rules default2 default subninja include\n");
    let mut lexer = Lexer::new(&text, SourceId(0));
    assert_eq!(lexer.next().unwrap().kind, TokenKind::Ident);
    assert_eq!(lexer.next().unwrap().kind, TokenKind::Ident);
    assert_eq!(lexer.next().unwrap().kind, TokenKind::Default);
    assert_eq!(lexer.next().unwrap().kind, TokenKind::Subninja);
    assert_eq!(lexer.next().unwrap().kind, TokenKind::Include);
}

#[test]
fn comments_are_skipped_by_next() {
    let text = with_sentinel("# c\n  # d\nrule\n");
    let mut lexer = Lexer::new(&text, SourceId(0));
    let t = lexer.next().unwrap();
    assert_eq!(t.kind, TokenKind::Rule);
    assert_eq!(t.loc.start, 10);
}

#[test]
fn next_impl_reports_comments() {
    let text = with_sentinel("# c\nrule\n");
    let mut lexer = Lexer::new(&text, SourceId(0));
    let t = lexer.next_impl().unwrap();
    assert_eq!(t.kind, TokenKind::Comment);
    assert_eq!(t.loc.stop, 4);
}

#[test]
fn peek_and_maybe_peek() {
    let text = with_sentinel("a = b\n");
    let mut lexer = Lexer::new(&text, SourceId(0));
    assert_eq!(lexer.peek().unwrap().kind, TokenKind::Ident);
    assert_eq!(lexer.offset(), 0);
    assert!(!lexer.maybe_peek(TokenKind::Equals).unwrap());
    assert_eq!(lexer.offset(), 0);
    assert!(lexer.maybe_peek(TokenKind::Ident).unwrap());
    assert_eq!(lexer.offset(), 2);
    let loc = lexer.read_ident().err().unwrap().loc;
    assert_eq!(loc.start, 2);
}

#[test]
fn indent_and_spaces_before_newline() {
    let text = with_sentinel("   \n  x");
    let mut lexer = Lexer::new(&text, SourceId(0));
    let t = lexer.next().unwrap();
    assert_eq!(t.kind, TokenKind::Newline);
    assert_eq!(t.loc.stop, 4);
    let t = lexer.next().unwrap();
    assert_eq!(t.kind, TokenKind::Indent);
    assert_eq!(t.loc.stop, 6);
}

#[test]
fn whitespace_skipping_absorbs_escaped_newlines() {
    let text = with_sentinel("a $\n  b\n");
    let mut lexer = Lexer::new(&text, SourceId(0));
    assert_eq!(lexer.next().unwrap().kind, TokenKind::Ident);
    assert_eq!(lexer.offset(), 6);
    let b = lexer.next().unwrap();
    assert_eq!(b.loc.start, 6);
}

#[test]
fn until_eol_and_extend() {
    let text = with_sentinel("   gcc -c x\nnext");
    let mut lexer = Lexer::new(&text, SourceId(0));
    let t = lexer.until_eol();
    assert_eq!(t.loc.start, 3);
    assert_eq!(t.loc.stop, 11);
    let whole = lexer.loc_extend_to_last(ninja_editor::Location { start: 1, stop: 2, source_id: SourceId(0) });
    assert_eq!(whole.start, 1);
    assert_eq!(whole.stop, 11);
}

#[test]
fn unknown_byte_is_an_error() {
    let text = with_sentinel("/x");
    let mut lexer = Lexer::new(&text, SourceId(0));
    let e = lexer.next().err().unwrap();
    assert_eq!(e.kind, ErrorKind::UnexpectedChar);
    assert_eq!(e.loc.start, 0);
}

#[test]
fn end_of_input_spans_the_sentinel() {
    let text = with_sentinel("a");
    let mut lexer = Lexer::new(&text, SourceId(0));
    let a = lexer.next().unwrap();
    assert_eq!(a.kind, TokenKind::Ident);
    let eof = lexer.next().unwrap();
    assert_eq!(eof.kind, TokenKind::Eof);
    assert_eq!(eof.loc.start, 1);
    assert_eq!(eof.loc.stop, 2);
    assert_eq!(lexer.offset(), 2);
    let again = lexer.next().unwrap();
    assert_eq!(again.kind, TokenKind::Eof);
    assert_eq!(again.loc.start, 1);
    assert_eq!(again.loc.stop, 2);
}

#[test]
fn indentation_after_a_comment_line() {
    let text = with_sentinel("# c\n  x\n");
    let mut lexer = Lexer::new(&text, SourceId(0));
    let t = lexer.next().unwrap();
    assert_eq!(t.kind, TokenKind::Indent);
    assert_eq!(t.loc.start, 4);
    assert_eq!(t.loc.stop, 6);
}
