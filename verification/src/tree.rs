use vstd::prelude::*;

use crate::kind::SyntaxKind;
use crate::token::{
    flat_text, lemma_flat_text_concat, lemma_flat_text_push, Token, TokenModel,
};

verus! {

/// Ghost model of one tree child: a token leaf or an interior node.
pub enum ChildModel {
    Token(TokenModel),
    Node(NodeModel),
}

/// Ghost model of an interior node: its kind and its children in document
/// order.
pub struct NodeModel {
    pub kind: SyntaxKind,
    pub children: Seq<ChildModel>,
}

/// One child of an interior node: a token leaf or a nested node.
#[derive(Debug)]
pub enum Child {
    Token(Token),
    Node(SyntaxNode),
}

/// An interior node of the immutable concrete syntax tree.  Children stand
/// in document order; concatenating the leaf texts of the whole tree gives
/// back the exact source text.
#[derive(Debug)]
pub struct SyntaxNode {
    /// The grammar-rule kind that tags this node.
    pub kind: SyntaxKind,
    /// The children, leaves and nested nodes, in document order.
    pub children: Vec<Child>,
}

/// The model of one exec child.
pub open spec fn child_model(c: Child) -> ChildModel
    decreases c,
{
    match c {
        Child::Token(t) => ChildModel::Token(t@),
        Child::Node(n) => ChildModel::Node(
            NodeModel { kind: n.kind, children: children_model(n.children@) },
        ),
    }
}

/// The models of a sequence of exec children.
pub open spec fn children_model(cs: Seq<Child>) -> Seq<ChildModel>
    decreases cs,
{
    if cs.len() == 0 {
        Seq::empty()
    } else {
        children_model(cs.drop_last()).push(child_model(cs.last()))
    }
}

/// The model of an exec node.
pub open spec fn node_model(n: SyntaxNode) -> NodeModel {
    NodeModel { kind: n.kind, children: children_model(n.children@) }
}

/// The leaf tokens under one child, in document order.
pub open spec fn child_leaves(c: ChildModel) -> Seq<TokenModel>
    decreases c,
{
    match c {
        ChildModel::Token(t) => Seq::empty().push(t),
        ChildModel::Node(n) => seq_leaves(n.children),
    }
}

/// The leaf tokens under a sequence of children, in document order.
pub open spec fn seq_leaves(cs: Seq<ChildModel>) -> Seq<TokenModel>
    decreases cs,
{
    if cs.len() == 0 {
        Seq::empty()
    } else {
        seq_leaves(cs.drop_last()) + child_leaves(cs.last())
    }
}

/// The leaf tokens of a whole node.
pub open spec fn node_leaves(n: NodeModel) -> Seq<TokenModel> {
    seq_leaves(n.children)
}

/// The text of a whole node: its leaf texts concatenated in order.
pub open spec fn node_text(n: NodeModel) -> Seq<u8> {
    flat_text(node_leaves(n))
}

/// Appends the bytes under one child to `out`.
fn append_child_text(c: &Child, out: &mut Vec<u8>)
    ensures
        final(out)@ == old(out)@ + flat_text(child_leaves(child_model(*c))),
    decreases *c,
{
    match c {
        Child::Token(t) => {
            let mut i: usize = 0;
            while i < t.text.len()
                invariant
                    i <= t.text@.len(),
                    out@ == old(out)@ + t.text@.take(i as int),
                decreases t.text@.len() - i,
            {
                let b = t.text[i];
                out.push(b);
                i = i + 1;
                proof {
                    assert(out@ =~= old(out)@ + t.text@.take(i as int));
                }
            }
            proof {
                assert(t.text@.take(t.text@.len() as int) =~= t.text@);
                lemma_flat_text_push(Seq::<TokenModel>::empty(), t@);
                assert(flat_text(Seq::<TokenModel>::empty().push(t@)) =~= t.text@);
                assert(child_leaves(child_model(*c)) == Seq::<TokenModel>::empty().push(t@));
            }
        },
        Child::Node(n) => {
            append_children_text(&n.children, out);
        },
    }
}

/// Appends the bytes under a sequence of children to `out`, in order.
fn append_children_text(cs: &Vec<Child>, out: &mut Vec<u8>)
    ensures
        final(out)@ == old(out)@ + flat_text(seq_leaves(children_model(cs@))),
    decreases cs@,
{
    let mut i: usize = 0;
    while i < cs.len()
        invariant
            i <= cs@.len(),
            out@ == old(out)@ + flat_text(seq_leaves(children_model(cs@.take(i as int)))),
        decreases cs@.len() - i,
    {
        append_child_text(&cs[i], out);
        i = i + 1;
        proof {
            let pre = cs@.take(i - 1);
            let now = cs@.take(i as int);
            assert(now.drop_last() =~= pre);
            assert(now.last() == cs@[i - 1]);
            assert(children_model(now) == children_model(pre).push(child_model(cs@[i - 1])));
            lemma_seq_leaves_push(children_model(pre), child_model(cs@[i - 1]));
            lemma_flat_text_concat(
                seq_leaves(children_model(pre)),
                child_leaves(child_model(cs@[i - 1])),
            );
        }
    }
    proof {
        assert(cs@.take(cs@.len() as int) =~= cs@);
        assert(children_model(cs@.take(0)) =~= Seq::<ChildModel>::empty());
    }
}

impl SyntaxNode {
    /// Reconstructs the exact text under this node: its leaf texts
    /// concatenated in document order.
    pub fn text(&self) -> (r: Vec<u8>)
        ensures
            r@ == node_text(node_model(*self)),
    {
        let mut out: Vec<u8> = Vec::new();
        append_children_text(&self.children, &mut out);
        proof {
            assert(out@ =~= node_text(node_model(*self)));
        }
        out
    }
}

/// Appending a child appends its leaves.
pub proof fn lemma_seq_leaves_push(cs: Seq<ChildModel>, c: ChildModel)
    ensures
        seq_leaves(cs.push(c)) == seq_leaves(cs) + child_leaves(c),
{
    assert(cs.push(c).drop_last() =~= cs);
    assert(cs.push(c).last() == c);
}

/// The leaves of a concatenation are the concatenated leaves.
pub proof fn lemma_seq_leaves_concat(a: Seq<ChildModel>, b: Seq<ChildModel>)
    ensures
        seq_leaves(a + b) == seq_leaves(a) + seq_leaves(b),
    decreases b.len(),
{
    if b.len() == 0 {
        assert(a + b =~= a);
        assert(seq_leaves(a) + seq_leaves(b) =~= seq_leaves(a));
    } else {
        lemma_seq_leaves_concat(a, b.drop_last());
        assert((a + b).drop_last() =~= a + b.drop_last());
        assert((a + b).last() == b.last());
        assert(seq_leaves(a + b) == (seq_leaves(a) + seq_leaves(b.drop_last())) + child_leaves(
            b.last(),
        ));
        assert((seq_leaves(a) + seq_leaves(b.drop_last())) + child_leaves(b.last()) =~= seq_leaves(
            a,
        ) + seq_leaves(b));
    }
}

/// A sequence of pure token leaves has exactly those tokens as its leaves.
pub proof fn lemma_seq_leaves_of_tokens(ts: Seq<TokenModel>)
    ensures
        seq_leaves(ts.map_values(|t: TokenModel| ChildModel::Token(t))) == ts,
    decreases ts.len(),
{
    let f = |t: TokenModel| ChildModel::Token(t);
    if ts.len() == 0 {
        assert(ts.map_values(f) =~= Seq::<ChildModel>::empty());
        assert(seq_leaves(ts.map_values(f)) =~= ts);
    } else {
        lemma_seq_leaves_of_tokens(ts.drop_last());
        assert(ts.map_values(f).drop_last() =~= ts.drop_last().map_values(f));
        assert(ts.map_values(f).last() == f(ts.last()));
        assert(child_leaves(ChildModel::Token(ts.last())) =~= Seq::<TokenModel>::empty().push(
            ts.last(),
        ));
        assert(seq_leaves(ts.map_values(f)) =~= ts);
    }
}

/// A sequence of children and its model have the same length.
pub proof fn lemma_children_model_len(cs: Seq<Child>)
    ensures
        children_model(cs).len() == cs.len(),
    decreases cs.len(),
{
    if cs.len() > 0 {
        lemma_children_model_len(cs.drop_last());
    }
}

/// Appending an exec child appends its model.
pub proof fn lemma_children_model_push(cs: Seq<Child>, c: Child)
    ensures
        children_model(cs.push(c)) == children_model(cs).push(child_model(c)),
{
    assert(cs.push(c).drop_last() =~= cs);
    assert(cs.push(c).last() == c);
}

} // verus!
