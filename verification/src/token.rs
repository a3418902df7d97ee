use vstd::prelude::*;

use crate::kind::SyntaxKind;

verus! {

/// Ghost model of a token: its kind, its text, and its byte offset.
pub struct TokenModel {
    pub kind: SyntaxKind,
    pub text: Seq<u8>,
    pub offset: int,
}

/// A classified, contiguous span of source bytes.  Immutable after creation.
#[derive(Debug)]
pub struct Token {
    /// The lexical class of the span.
    pub kind: SyntaxKind,
    /// The bytes of the span, owned.
    pub text: Vec<u8>,
    /// Byte position of the span in the source.
    pub offset: usize,
}

impl View for Token {
    type V = TokenModel;

    open spec fn view(&self) -> TokenModel {
        TokenModel { kind: self.kind, text: self.text@, offset: self.offset as int }
    }
}

/// Copies a byte vector, byte for byte.
fn copy_bytes(v: &Vec<u8>) -> (r: Vec<u8>)
    ensures
        r@ == v@,
{
    let mut r: Vec<u8> = Vec::new();
    let mut i: usize = 0;
    while i < v.len()
        invariant
            i <= v.len(),
            r@ == v@.take(i as int),
        decreases v.len() - i,
    {
        r.push(v[i]);
        i = i + 1;
        proof {
            assert(r@ =~= v@.take(i as int));
        }
    }
    proof {
        assert(v@.take(v@.len() as int) =~= v@);
    }
    r
}

impl Clone for Token {
    /// A clone keeps the kind, the text and the offset.
    fn clone(&self) -> (r: Token)
        ensures
            r@ == self@,
    {
        Token { kind: self.kind, text: copy_bytes(&self.text), offset: self.offset }
    }
}

/// Ghost model of a diagnostic: its message characters and its byte offset.
pub struct DiagModel {
    pub message: Seq<char>,
    pub offset: int,
}

/// A recoverable parse-time complaint: a message and the byte offset where
/// the problem was detected.  Immutable after creation, never fatal.
#[derive(Default, Debug, Clone, PartialEq)]
pub struct ParseError(pub String, pub usize);

impl View for ParseError {
    type V = DiagModel;

    open spec fn view(&self) -> DiagModel {
        DiagModel { message: self.0@, offset: self.1 as int }
    }
}

/// Concatenation of the texts of a token sequence, in order.
pub open spec fn flat_text(ts: Seq<TokenModel>) -> Seq<u8>
    decreases ts.len(),
{
    if ts.len() == 0 {
        Seq::empty()
    } else {
        flat_text(ts.drop_last()) + ts.last().text
    }
}

/// Tokens tile a source text: every text is non-empty, each token's offset
/// equals the total length of the texts before it, and all texts together
/// concatenate back to the source.
pub open spec fn tokens_tile(ts: Seq<TokenModel>, src: Seq<u8>) -> bool {
    &&& flat_text(ts) == src
    &&& forall|i: int|
        0 <= i < ts.len() ==> (#[trigger] ts[i]).text.len() > 0 && ts[i].offset == flat_text(
            ts.take(i),
        ).len()
}

/// One step of `flat_text` over a prefix: taking one more token appends
/// exactly that token's text.
pub proof fn lemma_flat_text_take_succ(ts: Seq<TokenModel>, i: int)
    requires
        0 <= i < ts.len(),
    ensures
        flat_text(ts.take(i + 1)) == flat_text(ts.take(i)) + ts[i].text,
{
    assert(ts.take(i + 1).drop_last() =~= ts.take(i));
    assert(ts.take(i + 1).last() == ts[i]);
}

/// Appending a token to a sequence appends its text to the flat text.
pub proof fn lemma_flat_text_push(ts: Seq<TokenModel>, t: TokenModel)
    ensures
        flat_text(ts.push(t)) == flat_text(ts) + t.text,
{
    assert(ts.push(t).drop_last() =~= ts);
    assert(ts.push(t).last() == t);
}

/// The flat text splits at any index into the flat text of the prefix and
/// the flat text of the rest.
pub proof fn lemma_flat_text_split(ts: Seq<TokenModel>, i: int)
    requires
        0 <= i <= ts.len(),
    ensures
        flat_text(ts) == flat_text(ts.take(i)) + flat_text(ts.skip(i)),
    decreases ts.len() - i,
{
    if i == ts.len() {
        assert(ts.take(i) =~= ts);
        assert(flat_text(ts.skip(i)) == Seq::<u8>::empty());
        assert(flat_text(ts) =~= flat_text(ts) + Seq::<u8>::empty());
    } else {
        lemma_flat_text_split(ts, i + 1);
        lemma_flat_text_take_succ(ts, i);
        assert(ts.skip(i).drop_last() =~= ts.skip(i).take(ts.len() - i - 1));
        assert(ts.skip(i) =~= Seq::empty().push(ts[i]) + ts.skip(i + 1));
        lemma_flat_text_first(ts.skip(i));
        assert(ts.skip(i).drop_first() =~= ts.skip(i + 1));
        assert(ts.skip(i).first() == ts[i]);
        assert(flat_text(ts.skip(i)) == ts[i].text + flat_text(ts.skip(i + 1)));
        assert(flat_text(ts.take(i)) + flat_text(ts.skip(i)) =~= flat_text(ts.take(i + 1))
            + flat_text(ts.skip(i + 1)));
    }
}

/// The flat text of a concatenation is the concatenation of the flat texts.
pub proof fn lemma_flat_text_concat(a: Seq<TokenModel>, b: Seq<TokenModel>)
    ensures
        flat_text(a + b) == flat_text(a) + flat_text(b),
    decreases b.len(),
{
    if b.len() == 0 {
        assert(a + b =~= a);
        assert(flat_text(a) + flat_text(b) =~= flat_text(a));
    } else {
        lemma_flat_text_concat(a, b.drop_last());
        assert((a + b).drop_last() =~= a + b.drop_last());
        assert((a + b).last() == b.last());
        assert(flat_text(a + b) == (flat_text(a) + flat_text(b.drop_last())) + b.last().text);
        assert((flat_text(a) + flat_text(b.drop_last())) + b.last().text =~= flat_text(a)
            + flat_text(b));
    }
}

/// The flat text of a longer prefix is at least as long.
pub proof fn lemma_flat_take_mono(ts: Seq<TokenModel>, a: int, b: int)
    requires
        0 <= a <= b <= ts.len(),
    ensures
        flat_text(ts.take(a)).len() <= flat_text(ts.take(b)).len(),
{
    lemma_flat_text_split(ts.take(b), a);
    assert(ts.take(b).take(a) =~= ts.take(a));
}

/// In a tiling, a token ends exactly where the next one begins.
pub proof fn lemma_tile_adjacent(ts: Seq<TokenModel>, src: Seq<u8>, i: int)
    requires
        tokens_tile(ts, src),
        0 <= i,
        i + 1 < ts.len(),
    ensures
        ts[i].offset + ts[i].text.len() == ts[i + 1].offset,
{
    lemma_flat_text_take_succ(ts, i);
}

/// In a tiling, offsets are strictly increasing.
pub proof fn lemma_tile_increasing(ts: Seq<TokenModel>, src: Seq<u8>, i: int, j: int)
    requires
        tokens_tile(ts, src),
        0 <= i < j < ts.len(),
    ensures
        ts[i].offset + ts[i].text.len() <= ts[j].offset,
        ts[i].offset < ts[j].offset,
{
    lemma_flat_text_take_succ(ts, i);
    lemma_flat_take_mono(ts, i + 1, j);
}

/// In a tiling of a non-empty token sequence, the last token ends at the end
/// of the source.
pub proof fn lemma_tile_last(ts: Seq<TokenModel>, src: Seq<u8>)
    requires
        tokens_tile(ts, src),
        ts.len() > 0,
    ensures
        ts.last().offset + ts.last().text.len() == src.len(),
{
    lemma_flat_text_take_succ(ts, ts.len() - 1);
    assert(ts.take(ts.len() as int) =~= ts);
}

/// In a tiling, every token's text is the span of the source that starts at
/// the token's offset: there is no gap and no overlap anywhere.
pub proof fn lemma_tile_span(ts: Seq<TokenModel>, src: Seq<u8>, i: int)
    requires
        tokens_tile(ts, src),
        0 <= i < ts.len(),
    ensures
        ts[i].offset + ts[i].text.len() <= src.len(),
        ts[i].text == src.subrange(ts[i].offset, ts[i].offset + ts[i].text.len()),
{
    lemma_flat_text_split(ts, i + 1);
    lemma_flat_text_take_succ(ts, i);
    assert(src == (flat_text(ts.take(i)) + ts[i].text) + flat_text(ts.skip(i + 1)));
    assert(ts[i].text =~= src.subrange(ts[i].offset, ts[i].offset + ts[i].text.len()));
}

/// The flat text of a non-empty sequence starts with the first token's text.
pub proof fn lemma_flat_text_first(ts: Seq<TokenModel>)
    requires
        ts.len() > 0,
    ensures
        flat_text(ts) == ts.first().text + flat_text(ts.drop_first()),
    decreases ts.len(),
{
    if ts.len() == 1 {
        assert(ts.drop_last() =~= Seq::<TokenModel>::empty());
        assert(ts.drop_first() =~= Seq::<TokenModel>::empty());
        assert(ts.last() == ts.first());
        assert(Seq::<u8>::empty() + ts.first().text =~= ts.first().text + Seq::<u8>::empty());
    } else {
        lemma_flat_text_first(ts.drop_last());
        assert(ts.drop_last().first() == ts.first());
        assert(ts.drop_last().drop_first() =~= ts.drop_first().drop_last());
        assert(ts.drop_first().last() == ts.last());
        assert(flat_text(ts.drop_first()) == flat_text(ts.drop_first().drop_last())
            + ts.last().text);
        assert(flat_text(ts) == (ts.first().text + flat_text(ts.drop_first().drop_last()))
            + ts.last().text);
        assert((ts.first().text + flat_text(ts.drop_first().drop_last())) + ts.last().text
            =~= ts.first().text + flat_text(ts.drop_first()));
    }
}

} // verus!
