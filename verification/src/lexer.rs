use vstd::prelude::*;
use vstd::string::StringSliceAdditionalSpecFns;

use crate::kind::SyntaxKind;
use crate::token::{flat_text, lemma_flat_text_push, Token, TokenModel, tokens_tile};

verus! {

/// True of the bytes the whitespace pattern matches: space, tab, line feed,
/// vertical tab, form feed, carriage return.
pub open spec fn is_ws_byte(b: u8) -> bool {
    b == 32 || b == 9 || b == 10 || b == 11 || b == 12 || b == 13
}

/// True of the bytes the identifier pattern matches: ASCII letters, digits,
/// and underscore.
pub open spec fn is_word_byte(b: u8) -> bool {
    (48 <= b <= 57) || (65 <= b <= 90) || (97 <= b <= 122) || b == 95
}

/// The punctuation kind a single byte matches, if any.
pub open spec fn punct_kind_of(b: u8) -> Option<SyntaxKind> {
    if b == 125 {
        Some(SyntaxKind::RBrace)
    } else if b == 123 {
        Some(SyntaxKind::LBrace)
    } else if b == 61 {
        Some(SyntaxKind::Equal)
    } else if b == 58 {
        Some(SyntaxKind::Colon)
    } else if b == 59 {
        Some(SyntaxKind::Semicolon)
    } else {
        None
    }
}

/// The kind of the token that starts with byte `b`, following the catalog
/// order: whitespace, identifier, the punctuation patterns, and `Error` for
/// a byte that matches nothing.
pub open spec fn classify_byte(b: u8) -> SyntaxKind {
    if is_ws_byte(b) {
        SyntaxKind::Whitespace
    } else if is_word_byte(b) {
        SyntaxKind::Identifier
    } else if punct_kind_of(b) is Some {
        punct_kind_of(b)->Some_0
    } else {
        SyntaxKind::Error
    }
}

/// One token is classified correctly against the source: its kind is decided
/// by its first byte, a whitespace or identifier token is a maximal run of
/// its class, and every other token spans exactly one byte.
pub open spec fn token_classified(t: TokenModel, src: Seq<u8>) -> bool {
    &&& 0 <= t.offset
    &&& t.offset + t.text.len() <= src.len()
    &&& t.text.len() > 0
    &&& t.kind == classify_byte(src[t.offset])
    &&& (t.kind == SyntaxKind::Whitespace ==> (forall|j: int|
        0 <= j < t.text.len() ==> is_ws_byte(#[trigger] t.text[j])) && (t.offset + t.text.len()
        < src.len() ==> !is_ws_byte(src[t.offset + t.text.len()])))
    &&& (t.kind == SyntaxKind::Identifier ==> (forall|j: int|
        0 <= j < t.text.len() ==> is_word_byte(#[trigger] t.text[j])) && (t.offset + t.text.len()
        < src.len() ==> !is_word_byte(src[t.offset + t.text.len()])))
    &&& (t.kind != SyntaxKind::Whitespace && t.kind != SyntaxKind::Identifier ==> t.text.len()
        == 1)
}

/// The whole output of the lexer is right: the tokens tile the source and
/// each one is classified correctly.
pub open spec fn lexed(ts: Seq<TokenModel>, src: Seq<u8>) -> bool {
    &&& tokens_tile(ts, src)
    &&& forall|i: int| 0 <= i < ts.len() ==> token_classified(#[trigger] ts[i], src)
}

/// The models of a sequence of tokens.
pub open spec fn token_models(ts: Seq<Token>) -> Seq<TokenModel> {
    ts.map_values(|t: Token| t@)
}

/// No real token carries the end-of-stream sentinel: the classifier only
/// ever yields lexical kinds.
pub proof fn lemma_no_sentinel_tokens(ts: Seq<TokenModel>, src: Seq<u8>, i: int)
    requires
        lexed(ts, src),
        0 <= i < ts.len(),
    ensures
        ts[i].kind != SyntaxKind::Eof,
{
    assert(token_classified(ts[i], src));
}

fn ws_byte(b: u8) -> (r: bool)
    ensures
        r == is_ws_byte(b),
{
    b == 32 || b == 9 || b == 10 || b == 11 || b == 12 || b == 13
}

fn word_byte(b: u8) -> (r: bool)
    ensures
        r == is_word_byte(b),
{
    (48 <= b && b <= 57) || (65 <= b && b <= 90) || (97 <= b && b <= 122) || b == 95
}

fn punct_byte(b: u8) -> (r: Option<SyntaxKind>)
    ensures
        r == punct_kind_of(b),
{
    if b == 125 {
        Some(SyntaxKind::RBrace)
    } else if b == 123 {
        Some(SyntaxKind::LBrace)
    } else if b == 61 {
        Some(SyntaxKind::Equal)
    } else if b == 58 {
        Some(SyntaxKind::Colon)
    } else if b == 59 {
        Some(SyntaxKind::Semicolon)
    } else {
        None
    }
}

/// Turns the source into its gap-free, overlap-free token sequence.
///
/// The scan tries the pattern catalog at each position; a byte that matches
/// no pattern is emitted as a one-byte `Error` token, so the scan always
/// advances and every byte of the source lands in exactly one token.
pub fn lex(source: &str) -> (r: Vec<Token>)
    ensures
        lexed(token_models(r@), source.spec_bytes()),
        source.spec_bytes().len() <= usize::MAX,
{
    let bytes: &[u8] = source.as_bytes();
    let n: usize = bytes.len();
    let ghost src: Seq<u8> = source.spec_bytes();
    let mut toks: Vec<Token> = Vec::new();
    let mut pos: usize = 0;
    while pos < n
        invariant
            bytes@ == src,
            n == src.len(),
            pos <= n,
            flat_text(token_models(toks@)) == src.take(pos as int),
            forall|i: int|
                0 <= i < toks@.len() ==> token_classified(#[trigger] token_models(toks@)[i], src),
            forall|i: int|
                0 <= i < toks@.len() ==> (#[trigger] token_models(toks@)[i]).offset == flat_text(
                    token_models(toks@).take(i),
                ).len(),
        decreases n - pos,
    {
        let b = bytes[pos];
        let kind: SyntaxKind;
        let mut end: usize = pos + 1;
        if ws_byte(b) {
            kind = SyntaxKind::Whitespace;
            while end < n && ws_byte(bytes[end])
                invariant
                    bytes@ == src,
                    n == src.len(),
                    pos < end <= n,
                    forall|k: int| pos <= k < end ==> is_ws_byte(#[trigger] src[k]),
                decreases n - end,
            {
                end = end + 1;
            }
        } else if word_byte(b) {
            kind = SyntaxKind::Identifier;
            while end < n && word_byte(bytes[end])
                invariant
                    bytes@ == src,
                    n == src.len(),
                    pos < end <= n,
                    forall|k: int| pos <= k < end ==> is_word_byte(#[trigger] src[k]),
                decreases n - end,
            {
                end = end + 1;
            }
        } else {
            match punct_byte(b) {
                Some(k) => {
                    kind = k;
                },
                None => {
                    kind = SyntaxKind::Error;
                },
            }
        }
        let mut text: Vec<u8> = Vec::new();
        let mut j: usize = pos;
        while j < end
            invariant
                bytes@ == src,
                n == src.len(),
                pos <= j <= end <= n,
                text@ == src.subrange(pos as int, j as int),
            decreases end - j,
        {
            text.push(bytes[j]);
            j = j + 1;
            proof {
                assert(text@ =~= src.subrange(pos as int, j as int));
            }
        }
        let ghost old_models: Seq<TokenModel> = token_models(toks@);
        let t = Token { kind, text, offset: pos };
        let ghost tm: TokenModel = t@;
        toks.push(t);
        proof {
            assert(token_models(toks@) =~= old_models.push(tm));
            lemma_flat_text_push(old_models, tm);
            assert(src.take(pos as int) + src.subrange(pos as int, end as int) =~= src.take(
                end as int,
            ));
            assert(token_classified(tm, src));
            assert forall|i: int| 0 <= i < toks@.len() implies token_classified(
                #[trigger] token_models(toks@)[i],
                src,
            ) by {
                if i < old_models.len() {
                    assert(token_models(toks@)[i] == old_models[i]);
                }
            }
            assert forall|i: int| 0 <= i < toks@.len() implies (#[trigger] token_models(
                toks@,
            )[i]).offset == flat_text(token_models(toks@).take(i)).len() by {
                assert(token_models(toks@).take(i) =~= old_models.take(i));
                if i < old_models.len() {
                    assert(token_models(toks@)[i] == old_models[i]);
                } else {
                    assert(old_models.take(i) =~= old_models);
                }
            }
        }
        pos = end;
    }
    proof {
        assert(src.take(n as int) =~= src);
        assert(token_models(toks@).take(toks@.len() as int) =~= token_models(toks@));
    }
    toks
}

} // verus!
