use parser_core::kind::SyntaxKind;
use parser_core::lexer::lex;

#[test]
fn tokens_of_a_binding_prefix() {
    let toks = lex("a = ");
    let kinds: Vec<SyntaxKind> = toks.iter().map(|t| t.kind).collect();
    assert_eq!(
        kinds,
        vec![
            SyntaxKind::Identifier,
            SyntaxKind::Whitespace,
            SyntaxKind::Equal,
            SyntaxKind::Whitespace,
        ]
    );
    assert_eq!(toks[0].text, b"a".to_vec());
    assert_eq!(toks[1].text, b" ".to_vec());
    assert_eq!(toks[2].text, b"=".to_vec());
    assert_eq!(toks[3].text, b" ".to_vec());
    assert_eq!(toks[0].offset, 0);
    assert_eq!(toks[1].offset, 1);
    assert_eq!(toks[2].offset, 2);
    assert_eq!(toks[3].offset, 3);
}

#[test]
fn unmatched_byte_becomes_error_token() {
    let toks = lex("a#b");
    assert_eq!(toks.len(), 3);
    assert_eq!(toks[0].kind, SyntaxKind::Identifier);
    assert_eq!(toks[0].text, b"a".to_vec());
    assert_eq!(toks[1].kind, SyntaxKind::Error);
    assert_eq!(toks[1].text, b"#".to_vec());
    assert_eq!(toks[2].kind, SyntaxKind::Identifier);
    assert_eq!(toks[2].text, b"b".to_vec());
}

#[test]
fn tokens_tile_the_source() {
    let sources = ["", "a", "  x  { y : z ; } #", "\t\nfoo_bar42"];
    for src in sources.iter() {
        let toks = lex(src);
        let mut pos = 0usize;
        let mut rebuilt: Vec<u8> = Vec::new();
        for t in toks.iter() {
            assert_eq!(t.offset, pos, "offset of token at {} in {:?}", pos, src);
            assert!(!t.text.is_empty());
            rebuilt.extend_from_slice(&t.text);
            pos += t.text.len();
        }
        assert_eq!(pos, src.len());
        assert_eq!(rebuilt, src.as_bytes().to_vec());
        for w in toks.windows(2) {
            assert!(w[0].offset < w[1].offset);
        }
    }
}

#[test]
fn runs_are_maximal() {
    let toks = lex("abc  def");
    assert_eq!(toks.len(), 3);
    assert_eq!(toks[0].text, b"abc".to_vec());
    assert_eq!(toks[1].text, b"  ".to_vec());
    assert_eq!(toks[2].text, b"def".to_vec());
}

#[test]
fn punctuation_is_single_byte() {
    let toks = lex("{}=:;");
    let kinds: Vec<SyntaxKind> = toks.iter().map(|t| t.kind).collect();
    assert_eq!(
        kinds,
        vec![
            SyntaxKind::LBrace,
            SyntaxKind::RBrace,
            SyntaxKind::Equal,
            SyntaxKind::Colon,
            SyntaxKind::Semicolon,
        ]
    );
    for t in toks.iter() {
        assert_eq!(t.text.len(), 1);
    }
}

#[test]
fn kind_codes_round_trip() {
    let kinds = [
        SyntaxKind::Error,
        SyntaxKind::Eof,
        SyntaxKind::Whitespace,
        SyntaxKind::Identifier,
        SyntaxKind::RBrace,
        SyntaxKind::LBrace,
        SyntaxKind::Equal,
        SyntaxKind::Colon,
        SyntaxKind::Semicolon,
        SyntaxKind::Document,
        SyntaxKind::Component,
        SyntaxKind::Binding,
        SyntaxKind::CodeStatement,
        SyntaxKind::CodeBlock,
        SyntaxKind::Expression,
    ];
    for (i, k) in kinds.iter().enumerate() {
        assert_eq!(k.to_code(), i as u16);
        assert_eq!(SyntaxKind::from_code(i as u16), Some(*k));
    }
    assert_eq!(SyntaxKind::from_code(15), None);
    assert_eq!(SyntaxKind::from_code(u16::MAX), None);
}

#[test]
fn kind_names_match_diagnostic_wording() {
    assert_eq!(SyntaxKind::Semicolon.name(), "Semicolon");
    assert_eq!(SyntaxKind::LBrace.name(), "LBrace");
    assert_eq!(SyntaxKind::Error.name(), "Error");
    assert_eq!(SyntaxKind::Eof.name(), "Eof");
}
