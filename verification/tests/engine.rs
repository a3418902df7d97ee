use parser_core::kind::SyntaxKind;
use parser_core::parser::{parse, Parser};
use parser_core::token::ParseError;
use parser_core::tree::{Child, SyntaxNode};

fn collect_text(n: &SyntaxNode, out: &mut Vec<u8>) {
    for c in n.children.iter() {
        match c {
            Child::Token(t) => out.extend_from_slice(&t.text),
            Child::Node(m) => collect_text(m, out),
        }
    }
}

fn tree_text(n: &SyntaxNode) -> Vec<u8> {
    let mut out = Vec::new();
    collect_text(n, &mut out);
    out
}

fn count_leaves(n: &SyntaxNode) -> usize {
    let mut total = 0;
    for c in n.children.iter() {
        match c {
            Child::Token(_) => total += 1,
            Child::Node(m) => total += count_leaves(m),
        }
    }
    total
}

#[test]
fn empty_input_gives_empty_document() {
    let (tree, errors) = parse("");
    assert_eq!(tree.kind, SyntaxKind::Document);
    assert_eq!(tree.children.len(), 0);
    assert_eq!(errors.len(), 0);
}

#[test]
fn parse_is_lossless() {
    let sources = [
        "component { a = b; }",
        "a#b",
        "   \t\n  ",
        "x = ",
        "{{{",
        "ident",
        "= : ; { }",
    ];
    for src in sources.iter() {
        let (tree, _errors) = parse(src);
        assert_eq!(tree_text(&tree), src.as_bytes().to_vec());
        assert_eq!(tree.text(), src.as_bytes().to_vec());
        assert_eq!(tree.kind, SyntaxKind::Document);
    }
}

#[test]
fn unmatched_character_becomes_error_leaf_without_diagnostic() {
    let (tree, errors) = parse("a#b");
    assert_eq!(errors.len(), 0);
    assert_eq!(tree.children.len(), 3);
    match &tree.children[1] {
        Child::Token(t) => {
            assert_eq!(t.kind, SyntaxKind::Error);
            assert_eq!(t.text, b"#".to_vec());
            assert_eq!(t.offset, 1);
        }
        Child::Node(_) => panic!("expected a token leaf"),
    }
}

#[test]
fn binding_rule_records_missing_semicolon() {
    let mut p = Parser::new("a = ");
    let node = p.start_node(SyntaxKind::Binding);
    assert!(p.expect(SyntaxKind::Identifier));
    assert!(p.expect(SyntaxKind::Equal));
    assert!(!p.expect(SyntaxKind::Semicolon));
    p.finish_node(node);
    let (tree, errors) = p.finish();
    assert_eq!(errors, vec![ParseError("expected Semicolon".to_string(), 4)]);
    assert_eq!(tree.kind, SyntaxKind::Binding);
    assert_eq!(count_leaves(&tree), 4);
    assert_eq!(tree_text(&tree), b"a = ".to_vec());
}

#[test]
fn until_missing_delimiter_consumes_everything() {
    let mut p = Parser::new("x;y");
    let node = p.start_node(SyntaxKind::CodeBlock);
    p.until(SyntaxKind::LBrace);
    p.finish_node(node);
    let (tree, errors) = p.finish();
    assert_eq!(errors, vec![ParseError("expected LBrace".to_string(), 3)]);
    assert_eq!(count_leaves(&tree), 3);
    assert_eq!(tree_text(&tree), b"x;y".to_vec());
}

#[test]
fn until_present_delimiter_stops_there_silently() {
    let mut p = Parser::new("a b ; c");
    let node = p.start_node(SyntaxKind::CodeStatement);
    p.until(SyntaxKind::Semicolon);
    p.finish_node(node);
    let (tree, errors) = p.finish();
    assert_eq!(errors.len(), 0);
    // everything up to and including the `;` is in the tree: a, ws, b, ws, ;
    assert_eq!(count_leaves(&tree), 5);
    assert_eq!(tree_text(&tree), b"a b ;".to_vec());
}

#[test]
fn peek_skips_whitespace_into_tree() {
    let mut p = Parser::new("  a");
    let node = p.start_node(SyntaxKind::Expression);
    let t = p.peek();
    assert_eq!(t.kind, SyntaxKind::Identifier);
    assert_eq!(t.text, b"a".to_vec());
    assert_eq!(t.offset, 2);
    p.finish_node(node);
    let (tree, errors) = p.finish();
    // the skipped whitespace already landed in the tree
    assert_eq!(tree_text(&tree), b"  ".to_vec());
    assert_eq!(errors.len(), 0);
}

#[test]
fn lookahead_past_end_degrades_to_eof() {
    let mut p = Parser::new("");
    let node = p.start_node(SyntaxKind::Document);
    assert_eq!(p.peek_kind(), SyntaxKind::Eof);
    let t = p.peek();
    assert_eq!(t.kind, SyntaxKind::Eof);
    assert_eq!(t.text, Vec::<u8>::new());
    assert_eq!(t.offset, 0);
    // consuming past the end does nothing rather than fail
    p.consume();
    p.consume();
    assert_eq!(p.peek_kind(), SyntaxKind::Eof);
    p.finish_node(node);
    let (tree, errors) = p.finish();
    assert_eq!(tree.children.len(), 0);
    assert_eq!(errors.len(), 0);
}

#[test]
fn eof_offset_is_source_length() {
    let mut p = Parser::new("ab c");
    let node = p.start_node(SyntaxKind::Document);
    p.until(SyntaxKind::Semicolon);
    p.finish_node(node);
    let (_tree, errors) = p.finish();
    assert_eq!(errors, vec![ParseError("expected Semicolon".to_string(), 4)]);
}

#[test]
fn diagnostics_are_ordered_by_offset() {
    let mut p = Parser::new("a b");
    let node = p.start_node(SyntaxKind::Document);
    p.error("first".to_string());
    p.consume();
    p.consume();
    p.error("second".to_string());
    p.consume();
    p.error("third".to_string());
    p.finish_node(node);
    let (_tree, errors) = p.finish();
    assert_eq!(
        errors,
        vec![
            ParseError("first".to_string(), 0),
            ParseError("second".to_string(), 2),
            ParseError("third".to_string(), 3),
        ]
    );
    for w in errors.windows(2) {
        assert!(w[0].1 <= w[1].1);
    }
}

#[test]
fn independent_parses_share_nothing() {
    let mut p1 = Parser::new("a = b;");
    let mut p2 = Parser::new("{ }");
    let n1 = p1.start_node(SyntaxKind::Binding);
    let n2 = p2.start_node(SyntaxKind::CodeBlock);
    assert!(p1.expect(SyntaxKind::Identifier));
    assert!(p2.expect(SyntaxKind::LBrace));
    assert!(p1.expect(SyntaxKind::Equal));
    assert!(!p2.expect(SyntaxKind::Semicolon));
    assert!(p1.expect(SyntaxKind::Identifier));
    assert!(p2.expect(SyntaxKind::RBrace));
    assert!(p1.expect(SyntaxKind::Semicolon));
    p1.finish_node(n1);
    p2.finish_node(n2);
    let (t1, e1) = p1.finish();
    let (t2, e2) = p2.finish();
    assert_eq!(tree_text(&t1), b"a = b;".to_vec());
    assert_eq!(tree_text(&t2), b"{ }".to_vec());
    assert_eq!(e1.len(), 0);
    assert_eq!(e2, vec![ParseError("expected Semicolon".to_string(), 2)]);
}

#[test]
fn nested_scopes_close_in_order() {
    let mut p = Parser::new("c { a = b; }");
    let comp = p.start_node(SyntaxKind::Component);
    assert!(p.expect(SyntaxKind::Identifier));
    assert!(p.expect(SyntaxKind::LBrace));
    let bind = p.start_node(SyntaxKind::Binding);
    assert!(p.expect(SyntaxKind::Identifier));
    assert!(p.expect(SyntaxKind::Equal));
    assert!(p.expect(SyntaxKind::Identifier));
    assert!(p.expect(SyntaxKind::Semicolon));
    p.finish_node(bind);
    assert!(p.expect(SyntaxKind::RBrace));
    p.finish_node(comp);
    let (tree, errors) = p.finish();
    assert_eq!(errors.len(), 0);
    assert_eq!(tree.kind, SyntaxKind::Component);
    assert_eq!(tree_text(&tree), b"c { a = b; }".to_vec());
    // the binding sits as one nested node among the component's children
    let nested: Vec<&SyntaxNode> = tree
        .children
        .iter()
        .filter_map(|c| match c {
            Child::Node(n) => Some(n),
            Child::Token(_) => None,
        })
        .collect();
    assert_eq!(nested.len(), 1);
    assert_eq!(nested[0].kind, SyntaxKind::Binding);
    // the whitespace before `a` was skipped by a peek after the binding
    // scope opened, so it sits inside the binding node
    assert_eq!(tree_text(nested[0]), b" a = b;".to_vec());
}
