use vstd::prelude::*;
use vstd::string::{StringExecFns, StringSliceAdditionalSpecFns};

use crate::kind::{kind_name, SyntaxKind};
use crate::lexer::{lex, lexed, token_models};
use crate::token::{
    flat_text, lemma_tile_last, DiagModel, ParseError, Token, TokenModel, tokens_tile,
};
use crate::tree::{
    child_leaves, child_model, children_model, lemma_children_model_push, lemma_seq_leaves_concat,
    lemma_seq_leaves_of_tokens, lemma_seq_leaves_push, node_leaves, node_model, node_text,
    seq_leaves, Child, ChildModel, NodeModel, SyntaxNode,
};

verus! {

/// Ghost model of one open tree scope: its kind and the children gathered
/// so far.
pub struct ScopeModel {
    pub kind: SyntaxKind,
    pub children: Seq<ChildModel>,
}

/// One open scope of the tree builder.
struct OpenScope {
    kind: SyntaxKind,
    children: Vec<Child>,
}

/// The parsing engine: the token buffer, a forward-only cursor, the stack of
/// open tree scopes, and the diagnostics gathered so far.
///
/// One `Parser` is created per parse call, owns all of its state, and is
/// never shared: independent parses cannot observe each other.
pub struct Parser {
    tokens: Vec<Token>,
    cursor: usize,
    src_len: usize,
    stack: Vec<OpenScope>,
    done: Vec<Child>,
    errors: Vec<ParseError>,
}

/// Handle for one open node scope, returned by `start_node` and given back
/// to `finish_node`.  It cannot be copied, so one handle closes at most one
/// scope.
pub struct Node {
    depth: Ghost<int>,
}

impl Node {
    /// The scope depth this handle closes: the innermost depth right after
    /// its `start_node`.
    pub closed spec fn depth(self) -> int {
        self.depth@
    }
}

/// The leaf tokens gathered in a stack of open scopes, outermost first.
pub open spec fn scopes_leaves(ss: Seq<ScopeModel>) -> Seq<TokenModel>
    decreases ss.len(),
{
    if ss.len() == 0 {
        Seq::empty()
    } else {
        scopes_leaves(ss.drop_last()) + seq_leaves(ss.last().children)
    }
}

/// Appending a scope appends the leaves of its children.
pub proof fn lemma_scopes_leaves_push(ss: Seq<ScopeModel>, s: ScopeModel)
    ensures
        scopes_leaves(ss.push(s)) == scopes_leaves(ss) + seq_leaves(s.children),
{
    assert(ss.push(s).drop_last() =~= ss);
    assert(ss.push(s).last() == s);
}

/// The first index at or after `i` whose token is not whitespace (the token
/// count when only whitespace remains).
pub open spec fn next_significant(ts: Seq<TokenModel>, i: int) -> int
    decreases ts.len() - i,
    when 0 <= i <= ts.len()
{
    if i < ts.len() && ts[i].kind == SyntaxKind::Whitespace {
        next_significant(ts, i + 1)
    } else {
        i
    }
}

/// The first index at or after `i` whose token has kind `kind` (the token
/// count when none has).
pub open spec fn seek(ts: Seq<TokenModel>, i: int, kind: SyntaxKind) -> int
    decreases ts.len() - i,
    when 0 <= i <= ts.len()
{
    if i < ts.len() && ts[i].kind != kind {
        seek(ts, i + 1, kind)
    } else {
        i
    }
}

/// The synthetic end-of-stream token: `Eof` kind, empty text, offset at the
/// end of the source.
pub open spec fn eof_model(offset: int) -> TokenModel {
    TokenModel { kind: SyntaxKind::Eof, text: Seq::empty(), offset: offset }
}

/// The message a failed expectation records for `kind`.
pub open spec fn expected_msg(kind: SyntaxKind) -> Seq<char> {
    "expected "@ + kind_name(kind)
}

impl Parser {
    /// The models of the token buffer.
    pub closed spec fn toks(self) -> Seq<TokenModel> {
        token_models(self.tokens@)
    }

    /// The cursor: how many tokens have been passed.
    pub closed spec fn cursor(self) -> int {
        self.cursor as int
    }

    /// The models of the diagnostics recorded so far, in detection order.
    pub closed spec fn diags(self) -> Seq<DiagModel> {
        self.errors@.map_values(|e: ParseError| e@)
    }

    /// The models of the open scopes, outermost first.
    pub closed spec fn scopes(self) -> Seq<ScopeModel> {
        self.stack@.map_values(
            |s: OpenScope| ScopeModel { kind: s.kind, children: children_model(s.children@) },
        )
    }

    /// The models of the completed top-level children.
    pub closed spec fn done_children(self) -> Seq<ChildModel> {
        children_model(self.done@)
    }

    /// The number of open scopes.
    pub open spec fn depth(self) -> int {
        self.scopes().len() as int
    }

    /// The full source text: the flat text of the token buffer.
    pub open spec fn src(self) -> Seq<u8> {
        flat_text(self.toks())
    }

    /// Every leaf token placed into the growing tree so far, in order.
    pub open spec fn leaves(self) -> Seq<TokenModel> {
        seq_leaves(self.done_children()) + scopes_leaves(self.scopes())
    }

    /// The token at position `i`, degrading to the `Eof` sentinel past the
    /// end of the buffer.
    pub open spec fn token_at(self, i: int) -> TokenModel {
        if 0 <= i < self.toks().len() {
            self.toks()[i]
        } else {
            eof_model(self.src().len() as int)
        }
    }

    /// The token under the cursor (`Eof` sentinel at the end).
    pub open spec fn current(self) -> TokenModel {
        self.token_at(self.cursor())
    }

    /// The byte offset a diagnostic recorded now would carry.
    pub open spec fn current_offset(self) -> int {
        self.current().offset
    }

    /// The index of the next significant token.
    pub open spec fn peek_index(self) -> int {
        next_significant(self.toks(), self.cursor())
    }

    /// The next significant token (`Eof` sentinel when only whitespace
    /// remains).
    pub open spec fn peeked(self) -> TokenModel {
        self.token_at(self.peek_index())
    }

    /// Validity of the engine state: the tokens are a correct lexing of the
    /// source, the cursor is in range, every passed token sits in the tree
    /// as a leaf in order, and diagnostics carry non-decreasing offsets that
    /// never pass the cursor.
    pub closed spec fn wf(self) -> bool {
        &&& lexed(self.toks(), self.src())
        &&& 0 <= self.cursor() <= self.toks().len()
        &&& self.src_len as int == self.src().len() as int
        &&& self.leaves() == self.toks().take(self.cursor())
        &&& forall|i: int, j: int|
            0 <= i <= j < self.diags().len() ==> (#[trigger] self.diags()[i]).offset
                <= (#[trigger] self.diags()[j]).offset
        &&& forall|i: int|
            0 <= i < self.diags().len() ==> (#[trigger] self.diags()[i]).offset
                <= self.current_offset()
    }
}

/// The tree of `post` is the tree of `pre` with `cs` appended, in order, to
/// the children of the innermost open scope, or to the completed top-level
/// children when no scope is open.
pub open spec fn appends_children(pre: Parser, post: Parser, cs: Seq<ChildModel>) -> bool {
    if pre.depth() > 0 {
        &&& post.done_children() == pre.done_children()
        &&& post.scopes() == pre.scopes().update(
            pre.depth() - 1,
            ScopeModel {
                kind: pre.scopes().last().kind,
                children: pre.scopes().last().children + cs,
            },
        )
    } else {
        &&& post.scopes() == pre.scopes()
        &&& post.done_children() == pre.done_children() + cs
    }
}

/// Every token the cursor passed between `pre` and `post` was appended, in
/// order, as a leaf of the innermost open scope; nothing else of the tree
/// changed.
pub open spec fn consumed_to_tree(pre: Parser, post: Parser) -> bool {
    &&& post.toks() == pre.toks()
    &&& pre.cursor() <= post.cursor() <= pre.toks().len()
    &&& appends_children(
        pre,
        post,
        pre.toks().subrange(pre.cursor(), post.cursor()).map_values(
            |t: TokenModel| ChildModel::Token(t),
        ),
    )
}

/// Appending children to the innermost scope appends their leaves to the
/// gathered leaves.
proof fn lemma_append_leaves(pre: Parser, post: Parser, cs: Seq<ChildModel>)
    requires
        appends_children(pre, post, cs),
    ensures
        post.leaves() == pre.leaves() + seq_leaves(cs),
{
    if pre.depth() > 0 {
        let d = pre.depth() - 1;
        let s0 = pre.scopes().last();
        let s1 = ScopeModel { kind: s0.kind, children: s0.children + cs };
        assert(post.scopes() =~= pre.scopes().drop_last().push(s1));
        lemma_scopes_leaves_push(pre.scopes().drop_last(), s1);
        lemma_seq_leaves_concat(s0.children, cs);
        assert(pre.scopes().drop_last().push(s0) =~= pre.scopes());
        lemma_scopes_leaves_push(pre.scopes().drop_last(), s0);
        assert(scopes_leaves(post.scopes()) == scopes_leaves(pre.scopes().drop_last()) + (
        seq_leaves(s0.children) + seq_leaves(cs)));
        assert(post.leaves() =~= pre.leaves() + seq_leaves(cs));
    } else {
        lemma_seq_leaves_concat(pre.done_children(), cs);
        assert(post.leaves() =~= pre.leaves() + seq_leaves(cs));
    }
}

impl Parser {
    /// Creates an engine for one source text: the source is lexed eagerly
    /// into the token buffer; cursor, scope stack, and diagnostics start
    /// empty.
    pub fn new(source: &str) -> (p: Parser)
        ensures
            p.wf(),
            p.src() == source.spec_bytes(),
            lexed(p.toks(), source.spec_bytes()),
            p.cursor() == 0,
            p.depth() == 0,
            p.done_children() == Seq::<ChildModel>::empty(),
            p.diags() == Seq::<DiagModel>::empty(),
    {
        let tokens = lex(source);
        let src_len = source.len();
        let p = Parser {
            tokens,
            cursor: 0,
            src_len,
            stack: Vec::new(),
            done: Vec::new(),
            errors: Vec::new(),
        };
        proof {
            assert(p.scopes() =~= Seq::<ScopeModel>::empty());
            assert(p.done_children() =~= Seq::<ChildModel>::empty());
            assert(p.diags() =~= Seq::<DiagModel>::empty());
            assert(p.leaves() =~= Seq::<TokenModel>::empty());
            assert(p.toks().take(0) =~= Seq::<TokenModel>::empty());
        }
        p
    }

    /// The token under the cursor, or the synthetic `Eof` token once the
    /// cursor has passed the end: lookahead degrades, it never fails.
    fn current_token(&self) -> (t: Token)
        requires
            self.wf(),
        ensures
            t@ == self.current(),
    {
        if self.cursor < self.tokens.len() {
            self.tokens[self.cursor].clone()
        } else {
            let t = Token { kind: SyntaxKind::Eof, text: Vec::new(), offset: self.src_len };
            proof {
                assert(t@.text =~= eof_model(self.src().len() as int).text);
            }
            t
        }
    }

    /// Appends one finished child to the innermost open scope, or to the
    /// top level when no scope is open.
    fn push_child(&mut self, c: Child)
        ensures
            final(self).toks() == old(self).toks(),
            final(self).cursor() == old(self).cursor(),
            final(self).diags() == old(self).diags(),
            final(self).depth() == old(self).depth(),
            final(self).src_len_spec() == old(self).src_len_spec(),
            appends_children(*old(self), *final(self), Seq::empty().push(child_model(c))),
    {
        let ghost cm = child_model(c);
        if self.stack.len() > 0 {
            let ghost pre_stack = self.stack@;
            let mut top = self.stack.pop().unwrap();
            let ghost pre_children = top.children@;
            top.children.push(c);
            self.stack.push(top);
            proof {
                lemma_children_model_push(pre_children, c);
                assert(children_model(pre_children).push(cm) =~= children_model(pre_children)
                    + Seq::empty().push(cm));
                assert(self.stack@ =~= pre_stack.update(pre_stack.len() - 1, self.stack@.last()));
                assert(self.scopes() =~= old(self).scopes().update(
                    old(self).depth() - 1,
                    ScopeModel {
                        kind: old(self).scopes().last().kind,
                        children: old(self).scopes().last().children + Seq::empty().push(cm),
                    },
                ));
            }
        } else {
            let ghost pre_done = self.done@;
            self.done.push(c);
            proof {
                lemma_children_model_push(pre_done, c);
                assert(self.done_children() =~= old(self).done_children() + Seq::empty().push(cm));
                assert(self.scopes() =~= old(self).scopes());
            }
        }
    }

    /// Ghost mirror of the stored source length.
    pub closed spec fn src_len_spec(self) -> int {
        self.src_len as int
    }

    /// The node that closing the innermost open scope now would add to its
    /// parent.
    pub open spec fn closed_child(self) -> ChildModel
        recommends
            self.depth() > 0,
    {
        ChildModel::Node(
            NodeModel {
                kind: self.scopes().last().kind,
                children: self.scopes().last().children,
            },
        )
    }

    /// Closes the innermost open scope, if any: the scope becomes one
    /// finished node, appended as the last child of its parent scope (or of
    /// the top level when it was the outermost scope).
    fn close_top(&mut self)
        requires
            old(self).wf(),
        ensures
            final(self).wf(),
            final(self).toks() == old(self).toks(),
            final(self).cursor() == old(self).cursor(),
            final(self).diags() == old(self).diags(),
            old(self).depth() == 0 ==> *final(self) == *old(self),
            old(self).depth() > 0 ==> final(self).depth() == old(self).depth() - 1,
            old(self).depth() > 1 ==> final(self).scopes() == old(self).scopes().drop_last().update(
                old(self).depth() - 2,
                ScopeModel {
                    kind: old(self).scopes()[old(self).depth() - 2].kind,
                    children: old(self).scopes()[old(self).depth() - 2].children.push(
                        old(self).closed_child(),
                    ),
                },
            ) && final(self).done_children() == old(self).done_children(),
            old(self).depth() == 1 ==> final(self).scopes() == Seq::<ScopeModel>::empty()
                && final(self).done_children() == old(self).done_children().push(
                old(self).closed_child(),
            ),
    {
        if self.stack.len() == 0 {
            return ;
        }
        let top = self.stack.pop().unwrap();
        let ghost mid = *self;
        let n = SyntaxNode { kind: top.kind, children: top.children };
        let ghost cm = child_model(Child::Node(n));
        self.push_child(Child::Node(n));
        proof {
            let pre = *old(self);
            let d = pre.depth();
            assert(mid.scopes() =~= pre.scopes().drop_last());
            assert(cm == pre.closed_child());
            let one = Seq::<ChildModel>::empty().push(cm);
            lemma_append_leaves(mid, *self, one);
            lemma_seq_leaves_push(Seq::<ChildModel>::empty(), cm);
            assert(seq_leaves(one) =~= child_leaves(cm));
            assert(child_leaves(cm) == seq_leaves(pre.scopes().last().children));
            assert(pre.scopes().drop_last().push(pre.scopes().last()) =~= pre.scopes());
            lemma_scopes_leaves_push(pre.scopes().drop_last(), pre.scopes().last());
            assert(mid.leaves() + seq_leaves(one) =~= pre.leaves());
            assert(self.leaves() == pre.leaves());
            lemma_wf_after_advance(pre, *self);
            if d > 1 {
                assert(mid.scopes().last() == pre.scopes()[d - 2]);
                assert(mid.scopes().last().children + one =~= pre.scopes()[d - 2].children.push(
                    cm,
                ));
                assert(self.scopes() =~= pre.scopes().drop_last().update(
                    d - 2,
                    ScopeModel {
                        kind: pre.scopes()[d - 2].kind,
                        children: pre.scopes()[d - 2].children.push(pre.closed_child()),
                    },
                ));
            } else {
                assert(self.scopes() =~= Seq::<ScopeModel>::empty());
                assert(mid.done_children() + one =~= pre.done_children().push(cm));
            }
        }
    }

    /// Closes the scope the handle was opened for.  Closing happens exactly
    /// once per handle: the handle is consumed here and cannot be copied.
    /// With no scope open the call does nothing: misuse degrades, it never
    /// fails.
    pub fn finish_node(&mut self, node: Node)
        requires
            old(self).wf(),
        ensures
            final(self).wf(),
            final(self).toks() == old(self).toks(),
            final(self).cursor() == old(self).cursor(),
            final(self).diags() == old(self).diags(),
            old(self).depth() == 0 ==> *final(self) == *old(self),
            old(self).depth() > 0 ==> final(self).depth() == old(self).depth() - 1,
            old(self).depth() > 1 ==> final(self).scopes() == old(self).scopes().drop_last().update(
                old(self).depth() - 2,
                ScopeModel {
                    kind: old(self).scopes()[old(self).depth() - 2].kind,
                    children: old(self).scopes()[old(self).depth() - 2].children.push(
                        old(self).closed_child(),
                    ),
                },
            ) && final(self).done_children() == old(self).done_children(),
            old(self).depth() == 1 ==> final(self).scopes() == Seq::<ScopeModel>::empty()
                && final(self).done_children() == old(self).done_children().push(
                old(self).closed_child(),
            ),
    {
        let _handle = node;
        self.close_top()
    }

    /// Yields the finished immutable tree and the diagnostics, consuming the
    /// engine.  Any scope still open is force-balanced first, so the result
    /// never has a dangling open scope.  When the engine was driven as
    /// intended (one outermost scope, closed once), the tree is exactly that
    /// scope's node; whatever happened, the tree holds every leaf gathered,
    /// in order.
    pub fn finish(self) -> (r: (SyntaxNode, Vec<ParseError>))
        requires
            self.wf(),
        ensures
            r.1@.map_values(|e: ParseError| e@) == self.diags(),
            node_leaves(node_model(r.0)) == self.leaves(),
            node_text(node_model(r.0)) == flat_text(self.leaves()),
            (self.depth() == 1 && self.done_children().len() == 0) ==> node_model(r.0)
                == (NodeModel {
                kind: self.scopes().last().kind,
                children: self.scopes().last().children,
            }),
            self.depth() == 0 && self.done_children().len() == 1 ==> (self.done_children()[0]
                matches ChildModel::Node(m) ==> node_model(r.0) == m),
    {
        let mut p = self;
        while p.depth_exec() > 0
            invariant
                p.wf(),
                p.toks() == self.toks(),
                p.cursor() == self.cursor(),
                p.diags() == self.diags(),
                p.leaves() == self.leaves(),
                self.depth() == 0 ==> p == self,
                (self.depth() == 1 && self.done_children().len() == 0) ==> (p == self || (p.depth()
                    == 0 && p.done_children() =~= Seq::<ChildModel>::empty().push(
                    self.closed_child(),
                ))),
            decreases p.depth(),
        {
            p.close_top();
        }
        let Parser { done, errors, .. } = p;
        let ghost dcs = children_model(done@);
        proof {
            assert(p.leaves() =~= seq_leaves(dcs));
            crate::tree::lemma_children_model_len(done@);
        }
        let root: SyntaxNode;
        if done.len() == 1 {
            let mut d = done;
            let c = d.pop().unwrap();
            proof {
                assert(d@ =~= Seq::<Child>::empty());
                assert(children_model(d@) =~= Seq::<ChildModel>::empty());
                assert(dcs == children_model(d@).push(child_model(c)));
                assert(dcs =~= Seq::<ChildModel>::empty().push(child_model(c)));
                lemma_seq_leaves_push(Seq::<ChildModel>::empty(), child_model(c));
                assert(seq_leaves(dcs) =~= child_leaves(child_model(c)));
            }
            match c {
                Child::Node(n) => {
                    let ghost nm = node_model(n);
                    proof {
                        assert(dcs == p.done_children());
                        assert(child_model(c) == ChildModel::Node(nm));
                        assert(dcs[0] == ChildModel::Node(nm));
                    }
                    root = n;
                },
                Child::Token(t) => {
                    let mut v: Vec<Child> = Vec::new();
                    let ghost cm = child_model(c);
                    v.push(Child::Token(t));
                    proof {
                        assert(v@ =~= Seq::<Child>::empty().push(Child::Token(t)));
                        lemma_children_model_push(Seq::<Child>::empty(), Child::Token(t));
                        assert(children_model(Seq::<Child>::empty())
                            =~= Seq::<ChildModel>::empty());
                        assert(child_model(Child::Token(t)) == cm);
                        assert(children_model(v@) =~= dcs);
                    }
                    root = SyntaxNode { kind: SyntaxKind::Document, children: v };
                },
            }
        } else {
            root = SyntaxNode { kind: SyntaxKind::Document, children: done };
        }
        (root, errors)
    }

    /// The number of open scopes, as a runtime value.
    fn depth_exec(&self) -> (d: usize)
        ensures
            d as int == self.depth(),
    {
        self.stack.len()
    }
}

/// Diagnostics are recorded in non-decreasing offset order: the cursor only
/// moves forward, so a later complaint never points before an earlier one.
pub proof fn lemma_diagnostics_ordered(p: Parser, i: int, j: int)
    requires
        p.wf(),
        0 <= i <= j < p.diags().len(),
    ensures
        p.diags()[i].offset <= p.diags()[j].offset,
{
}

/// Losslessness, for any grammar driving the engine: at every point of a
/// parse, the leaf tokens gathered in the growing tree are exactly the
/// tokens the cursor has passed, in order.  With `finish`, which keeps every
/// gathered leaf, a grammar that passes the whole input always yields a tree
/// whose leaf texts concatenate back to the exact source.
pub proof fn lemma_leaves_are_consumed_tokens(p: Parser)
    requires
        p.wf(),
    ensures
        p.leaves() == p.toks().take(p.cursor()),
        p.cursor() == p.toks().len() ==> flat_text(p.leaves()) == p.src(),
{
    if p.cursor() == p.toks().len() {
        assert(p.toks().take(p.toks().len() as int) =~= p.toks());
    }
}

/// A forward pass over a state whose innermost scope holds exactly the
/// passed tokens as leaves keeps it that way.
proof fn lemma_root_children_tokens(pre: Parser, post: Parser)
    requires
        consumed_to_tree(pre, post),
        pre.depth() > 0,
        pre.scopes().last().children == pre.toks().take(pre.cursor()).map_values(
            |t: TokenModel| ChildModel::Token(t),
        ),
    ensures
        post.depth() == pre.depth(),
        post.scopes().last().kind == pre.scopes().last().kind,
        post.scopes().last().children == post.toks().take(post.cursor()).map_values(
            |t: TokenModel| ChildModel::Token(t),
        ),
        post.done_children() == pre.done_children(),
{
    assert(post.scopes().len() == pre.scopes().len());
    assert(post.scopes().last().children =~= post.toks().take(post.cursor()).map_values(
        |t: TokenModel| ChildModel::Token(t),
    ));
}

/// Parses one unit of source text with the default document rule: the whole
/// token sequence, whitespace, `Error` leaves and all, becomes the children
/// of a single `Document` root.  The parse never fails: it always returns a
/// tree whose leaf texts concatenate back to the exact source, together
/// with the (here empty) diagnostics list.
#[verifier::rlimit(100)]
pub fn parse(source: &str) -> (r: (SyntaxNode, Vec<ParseError>))
    ensures
        node_model(r.0).kind == SyntaxKind::Document,
        lexed(node_leaves(node_model(r.0)), source.spec_bytes()),
        node_text(node_model(r.0)) == source.spec_bytes(),
        node_model(r.0).children == node_leaves(node_model(r.0)).map_values(
            |t: TokenModel| ChildModel::Token(t),
        ),
        r.1@.len() == 0,
{
    let mut p = Parser::new(source);
    let ghost toks0 = p.toks();
    let ghost opened = p;
    let node = p.start_node(SyntaxKind::Document);
    proof {
        assert(p.scopes().last().children =~= toks0.take(0).map_values(
            |t: TokenModel| ChildModel::Token(t),
        ));
    }
    let ghost before_peek = p;
    let mut k = p.peek_kind();
    proof {
        lemma_root_children_tokens(before_peek, p);
    }
    while k != SyntaxKind::Eof
        invariant
            p.wf(),
            p.toks() == toks0,
            p.src() == source.spec_bytes(),
            p.diags().len() == 0,
            p.depth() == 1,
            p.done_children().len() == 0,
            p.scopes().last().kind == SyntaxKind::Document,
            p.scopes().last().children == toks0.take(p.cursor()).map_values(
                |t: TokenModel| ChildModel::Token(t),
            ),
            k == p.current().kind,
        decreases p.toks().len() - p.cursor(),
    {
        proof {
            if p.cursor() == toks0.len() {
                assert(p.current().kind == SyntaxKind::Eof);
            }
        }
        let ghost before_consume = p;
        p.consume();
        proof {
            lemma_root_children_tokens(before_consume, p);
        }
        let ghost before_skip = p;
        k = p.peek_kind();
        proof {
            lemma_root_children_tokens(before_skip, p);
        }
    }
    proof {
        if p.cursor() < toks0.len() {
            crate::lexer::lemma_no_sentinel_tokens(toks0, p.src(), p.cursor());
        }
        assert(p.cursor() == toks0.len());
        assert(toks0.take(toks0.len() as int) =~= toks0);
    }
    let ghost before_close = p;
    p.finish_node(node);
    let ghost pre = p;
    let r = p.finish();
    proof {
        let m = NodeModel {
            kind: SyntaxKind::Document,
            children: toks0.map_values(|t: TokenModel| ChildModel::Token(t)),
        };
        assert(before_close.scopes().last().children =~= toks0.map_values(
            |t: TokenModel| ChildModel::Token(t),
        ));
        assert(before_close.closed_child() == ChildModel::Node(m));
        assert(pre.done_children()[0] == ChildModel::Node(m));
        assert(node_model(r.0) == m);
        lemma_seq_leaves_of_tokens(toks0);
        assert(node_leaves(m) =~= toks0);
        assert(node_model(r.0).children =~= node_leaves(node_model(r.0)).map_values(
            |t: TokenModel| ChildModel::Token(t),
        ));
    }
    r
}

/// `next_significant` lands at or after `i`, passes only whitespace tokens,
/// and stops at the first token that is not whitespace.
pub proof fn lemma_next_significant(ts: Seq<TokenModel>, i: int)
    requires
        0 <= i <= ts.len(),
    ensures
        i <= next_significant(ts, i) <= ts.len(),
        forall|k: int|
            i <= k < next_significant(ts, i) ==> (#[trigger] ts[k]).kind == SyntaxKind::Whitespace,
        next_significant(ts, i) < ts.len() ==> ts[next_significant(ts, i)].kind
            != SyntaxKind::Whitespace,
    decreases ts.len() - i,
{
    if i < ts.len() && ts[i].kind == SyntaxKind::Whitespace {
        lemma_next_significant(ts, i + 1);
    }
}

/// `seek` lands at or after `i`, passes only tokens of other kinds, and
/// stops at the first token of kind `kind`.
pub proof fn lemma_seek(ts: Seq<TokenModel>, i: int, kind: SyntaxKind)
    requires
        0 <= i <= ts.len(),
    ensures
        i <= seek(ts, i, kind) <= ts.len(),
        forall|k: int| i <= k < seek(ts, i, kind) ==> (#[trigger] ts[k]).kind != kind,
        seek(ts, i, kind) < ts.len() ==> ts[seek(ts, i, kind)].kind == kind,
    decreases ts.len() - i,
{
    if i < ts.len() && ts[i].kind != kind {
        lemma_seek(ts, i + 1, kind);
    }
}

/// The byte offset the cursor position `c` stands at: the offset of the
/// token there, or the end of the source once the cursor has passed the
/// last token.
pub open spec fn offset_at(ts: Seq<TokenModel>, src: Seq<u8>, c: int) -> int {
    if 0 <= c < ts.len() {
        ts[c].offset
    } else {
        src.len() as int
    }
}

/// Moving the cursor forward never moves the current offset back.
pub proof fn lemma_offset_mono(ts: Seq<TokenModel>, src: Seq<u8>, c1: int, c2: int)
    requires
        tokens_tile(ts, src),
        0 <= c1 <= c2 <= ts.len(),
    ensures
        offset_at(ts, src, c1) <= offset_at(ts, src, c2),
{
    if c1 < c2 {
        if c2 < ts.len() {
            crate::token::lemma_tile_increasing(ts, src, c1, c2);
        } else {
            lemma_tile_last(ts, src);
            if c1 < ts.len() - 1 {
                crate::token::lemma_tile_increasing(ts, src, c1, ts.len() - 1);
            }
        }
    }
}

/// A forward step that keeps the token buffer, the diagnostics and the
/// leaves-per-cursor invariant keeps the whole state valid: the current
/// offset can only grow, so every recorded diagnostic stays behind it.
proof fn lemma_wf_after_advance(pre: Parser, post: Parser)
    requires
        pre.wf(),
        post.toks() == pre.toks(),
        post.src_len_spec() == pre.src_len_spec(),
        post.diags() == pre.diags(),
        pre.cursor() <= post.cursor() <= pre.toks().len(),
        post.leaves() == post.toks().take(post.cursor()),
    ensures
        post.wf(),
{
    lemma_offset_mono(pre.toks(), pre.src(), pre.cursor(), post.cursor());
    assert(pre.current_offset() == offset_at(pre.toks(), pre.src(), pre.cursor()));
    assert(post.current_offset() == offset_at(pre.toks(), pre.src(), post.cursor()));
    assert forall|i: int| 0 <= i < post.diags().len() implies (#[trigger] post.diags()[i]).offset
        <= post.current_offset() by {
        assert(pre.diags()[i].offset <= pre.current_offset());
    }
}

/// One consuming step: with the cursor moved past token `tm` and `tm`
/// appended to the innermost scope, the state is valid again and the step
/// reads as one forward pass.
#[verifier::rlimit(100)]
proof fn lemma_consume_step(pre: Parser, post: Parser, tm: TokenModel)
    requires
        pre.wf(),
        pre.cursor() < pre.toks().len(),
        tm == pre.toks()[pre.cursor()],
        post.toks() == pre.toks(),
        post.src_len_spec() == pre.src_len_spec(),
        post.diags() == pre.diags(),
        post.cursor() == pre.cursor() + 1,
        appends_children(pre, post, Seq::empty().push(ChildModel::Token(tm))),
    ensures
        post.wf(),
        consumed_to_tree(pre, post),
{
    let c0 = pre.cursor();
    let cm = ChildModel::Token(tm);
    let one = Seq::<ChildModel>::empty().push(cm);
    assert(pre.toks().subrange(c0, c0 + 1).map_values(|t: TokenModel| ChildModel::Token(t))
        =~= one) by {
        assert(pre.toks().subrange(c0, c0 + 1).len() == 1);
    }
    assert(seq_leaves(one) == Seq::<TokenModel>::empty().push(tm)) by {
        lemma_seq_leaves_push(Seq::<ChildModel>::empty(), cm);
        assert(child_leaves(cm) =~= Seq::<TokenModel>::empty().push(tm));
        assert(seq_leaves(one) =~= Seq::<TokenModel>::empty().push(tm));
    }
    assert(post.leaves() == post.toks().take(post.cursor())) by {
        lemma_append_leaves(pre, post, one);
        assert(pre.leaves() == pre.toks().take(c0));
        assert(post.leaves() =~= pre.toks().take(c0 + 1));
    }
    lemma_wf_after_advance(pre, post);
}

/// A step that consumes nothing and touches no scope leaves the tree as it
/// was.
proof fn lemma_consumed_refl(p: Parser)
    requires
        0 <= p.cursor() <= p.toks().len(),
    ensures
        consumed_to_tree(p, p),
{
    let cs = p.toks().subrange(p.cursor(), p.cursor()).map_values(
        |t: TokenModel| ChildModel::Token(t),
    );
    assert(cs =~= Seq::<ChildModel>::empty());
    if p.depth() > 0 {
        assert(p.scopes().last().children + cs =~= p.scopes().last().children);
        assert(p.scopes().update(
            p.depth() - 1,
            ScopeModel {
                kind: p.scopes().last().kind,
                children: p.scopes().last().children + cs,
            },
        ) =~= p.scopes());
    } else {
        assert(p.done_children() + cs =~= p.done_children());
    }
}

/// Consuming-to-tree composes: two forward passes in a row are one forward
/// pass.
proof fn lemma_consumed_trans(a: Parser, b: Parser, c: Parser)
    requires
        consumed_to_tree(a, b),
        consumed_to_tree(b, c),
    ensures
        consumed_to_tree(a, c),
{
    let f = |t: TokenModel| ChildModel::Token(t);
    let ab = a.toks().subrange(a.cursor(), b.cursor()).map_values(f);
    let bc = b.toks().subrange(b.cursor(), c.cursor()).map_values(f);
    let ac = a.toks().subrange(a.cursor(), c.cursor()).map_values(f);
    assert(ac =~= ab + bc);
    if a.depth() > 0 {
        assert(b.scopes().len() == a.scopes().len());
        let d = a.depth() - 1;
        let s_ab = ScopeModel { kind: a.scopes().last().kind, children: a.scopes().last().children + ab };
        assert(b.scopes().last() == s_ab);
        assert(c.scopes() =~= a.scopes().update(
            d,
            ScopeModel { kind: s_ab.kind, children: s_ab.children + bc },
        ));
        assert((a.scopes().last().children + ab) + bc =~= a.scopes().last().children + ac);
    } else {
        assert(b.depth() == 0);
        assert((a.done_children() + ab) + bc =~= a.done_children() + ac);
    }
}

impl Parser {
    /// Opens a new node scope of the given kind as the innermost one and
    /// returns the handle that will close it.
    pub fn start_node(&mut self, kind: SyntaxKind) -> (n: Node)
        requires
            old(self).wf(),
        ensures
            final(self).wf(),
            final(self).toks() == old(self).toks(),
            final(self).cursor() == old(self).cursor(),
            final(self).diags() == old(self).diags(),
            final(self).done_children() == old(self).done_children(),
            final(self).scopes() == old(self).scopes().push(
                ScopeModel { kind: kind, children: Seq::empty() },
            ),
            final(self).depth() == old(self).depth() + 1,
            n.depth() == final(self).depth(),
    {
        self.stack.push(OpenScope { kind, children: Vec::new() });
        proof {
            let s = ScopeModel { kind: kind, children: Seq::empty() };
            assert(children_model(Seq::<Child>::empty()) =~= Seq::<ChildModel>::empty());
            assert(self.scopes() =~= old(self).scopes().push(s));
            lemma_scopes_leaves_push(old(self).scopes(), s);
            assert(self.leaves() =~= old(self).leaves());
            assert(self.leaves() == self.toks().take(self.cursor()));
            lemma_wf_after_advance(*old(self), *self);
        }
        Node { depth: Ghost(self.stack.len() as int) }
    }

    /// Unconditionally appends the token under the cursor, whatever it is,
    /// as a leaf of the innermost open scope and advances the cursor by
    /// one.  Once the cursor has passed the end of the input the call does
    /// nothing: the engine degrades rather than fail.
    pub fn consume(&mut self)
        requires
            old(self).wf(),
        ensures
            final(self).wf(),
            final(self).depth() == old(self).depth(),
            final(self).diags() == old(self).diags(),
            consumed_to_tree(*old(self), *final(self)),
            old(self).cursor() < old(self).toks().len() ==> final(self).cursor() == old(
                self,
            ).cursor() + 1,
            old(self).cursor() == old(self).toks().len() ==> *final(self) == *old(self),
    {
        if self.cursor < self.tokens.len() {
            let t = self.tokens[self.cursor].clone();
            let ghost tm: TokenModel = t@;
            let ghost c0: int = self.cursor as int;
            self.cursor = self.cursor + 1;
            self.push_child(Child::Token(t));
            proof {
                lemma_consume_step(*old(self), *self, tm);
            }
        } else {
            proof {
                lemma_consumed_refl(*self);
            }
        }
    }

    /// Consumes every whitespace token under the cursor, appending each one
    /// into the tree, and stops at the first significant token (or at the
    /// end of the input).
    pub fn consume_ws(&mut self)
        requires
            old(self).wf(),
        ensures
            final(self).wf(),
            final(self).depth() == old(self).depth(),
            final(self).diags() == old(self).diags(),
            consumed_to_tree(*old(self), *final(self)),
            final(self).cursor() == next_significant(old(self).toks(), old(self).cursor()),
    {
        proof {
            lemma_consumed_refl(*self);
        }
        while self.cursor < self.tokens.len() && self.tokens[self.cursor].kind
            == SyntaxKind::Whitespace
            invariant
                self.wf(),
                self.toks() == old(self).toks(),
                self.depth() == old(self).depth(),
                self.diags() == old(self).diags(),
                consumed_to_tree(*old(self), *self),
                next_significant(self.toks(), self.cursor()) == next_significant(
                    old(self).toks(),
                    old(self).cursor(),
                ),
            decreases self.toks().len() - self.cursor(),
        {
            let ghost pre = *self;
            self.consume();
            proof {
                lemma_consumed_trans(*old(self), pre, *self);
            }
        }
    }

    /// Returns the next significant token without passing it, after
    /// appending any skipped whitespace into the tree.  At the end of the
    /// input the synthetic `Eof` token comes back.
    pub fn peek(&mut self) -> (t: Token)
        requires
            old(self).wf(),
        ensures
            final(self).wf(),
            final(self).depth() == old(self).depth(),
            final(self).diags() == old(self).diags(),
            consumed_to_tree(*old(self), *final(self)),
            final(self).cursor() == old(self).peek_index(),
            t@ == old(self).peeked(),
    {
        self.consume_ws();
        self.current_token()
    }

    /// Records a diagnostic with the given message at the current byte
    /// offset.  The cursor and the tree are untouched; a diagnostic is never
    /// fatal.
    pub fn error(&mut self, message: String)
        requires
            old(self).wf(),
        ensures
            final(self).wf(),
            final(self).toks() == old(self).toks(),
            final(self).cursor() == old(self).cursor(),
            final(self).depth() == old(self).depth(),
            final(self).scopes() == old(self).scopes(),
            final(self).done_children() == old(self).done_children(),
            final(self).diags() == old(self).diags().push(
                DiagModel { message: message@, offset: old(self).current_offset() },
            ),
    {
        let offset: usize = if self.cursor < self.tokens.len() {
            self.tokens[self.cursor].offset
        } else {
            self.src_len
        };
        let ghost dm = DiagModel { message: message@, offset: old(self).current_offset() };
        self.errors.push(ParseError(message, offset));
        proof {
            assert(self.diags() =~= old(self).diags().push(dm));
            assert forall|i: int, j: int| 0 <= i <= j < self.diags().len() implies (
            #[trigger] self.diags()[i]).offset <= (#[trigger] self.diags()[j]).offset by {
                if j < old(self).diags().len() {
                    assert(old(self).diags()[i].offset <= old(self).diags()[j].offset);
                } else if i < j {
                    assert(old(self).diags()[i].offset <= old(self).current_offset());
                }
            }
            assert forall|i: int| 0 <= i < self.diags().len() implies (
            #[trigger] self.diags()[i]).offset <= self.current_offset() by {
                if i < old(self).diags().len() {
                    assert(old(self).diags()[i].offset <= old(self).current_offset());
                }
            }
        }
    }

    /// If the next significant token has the expected kind, consumes it and
    /// returns true.  Otherwise records one `expected <kind>` diagnostic at
    /// the current offset, consumes nothing, and returns false: a local,
    /// recoverable failure.
    pub fn expect(&mut self, kind: SyntaxKind) -> (ok: bool)
        requires
            old(self).wf(),
        ensures
            final(self).wf(),
            final(self).depth() == old(self).depth(),
            consumed_to_tree(*old(self), *final(self)),
            ok == (old(self).peeked().kind == kind),
            ok ==> final(self).diags() == old(self).diags() && final(self).cursor() == (
            if old(self).peek_index() < old(self).toks().len() {
                old(self).peek_index() + 1
            } else {
                old(self).peek_index()
            }),
            !ok ==> final(self).cursor() == old(self).peek_index() && final(self).diags() == old(
                self,
            ).diags().push(
                DiagModel {
                    message: expected_msg(kind),
                    offset: offset_at(old(self).toks(), old(self).src(), old(self).peek_index()),
                },
            ),
    {
        let k = self.peek_kind();
        let ghost mid = *self;
        if k != kind {
            let mut m = String::from_str("expected ");
            m.append(kind.name());
            self.error(m);
            proof {
                assert(mid.current_offset() == offset_at(
                    old(self).toks(),
                    old(self).src(),
                    old(self).peek_index(),
                ));
                assert(consumed_to_tree(*old(self), *self));
            }
            return false;
        }
        self.consume();
        proof {
            if mid.cursor() < mid.toks().len() {
                assert(mid.toks()[mid.cursor()] == old(self).peeked());
            } else {
                assert(old(self).peeked().kind == SyntaxKind::Eof);
            }
            lemma_consumed_trans(*old(self), mid, *self);
        }
        true
    }

    /// Consumes every token up to the next one of the given kind, then
    /// expects it: best-effort resynchronization.  When the kind is found,
    /// the delimiter itself is consumed too and no diagnostic is recorded;
    /// when the input ends first, exactly one `expected <kind>` diagnostic
    /// is recorded at the end of the source.
    ///
    /// The search has no nesting awareness: it stops at the first token of
    /// the kind, even one that belongs to an inner nested group.
    pub fn until(&mut self, kind: SyntaxKind)
        requires
            old(self).wf(),
        ensures
            final(self).wf(),
            final(self).depth() == old(self).depth(),
            consumed_to_tree(*old(self), *final(self)),
            (kind != SyntaxKind::Whitespace && kind != SyntaxKind::Eof && seek(
                old(self).toks(),
                old(self).cursor(),
                kind,
            ) < old(self).toks().len()) ==> final(self).cursor() == seek(
                old(self).toks(),
                old(self).cursor(),
                kind,
            ) + 1 && final(self).diags() == old(self).diags(),
            (kind != SyntaxKind::Whitespace && kind != SyntaxKind::Eof && seek(
                old(self).toks(),
                old(self).cursor(),
                kind,
            ) == old(self).toks().len()) ==> final(self).cursor() == old(self).toks().len()
                && final(self).diags() == old(self).diags().push(
                DiagModel { message: expected_msg(kind), offset: old(self).src().len() as int },
            ),
    {
        proof {
            lemma_consumed_refl(*self);
        }
        while self.cursor < self.tokens.len() && !(self.tokens[self.cursor].kind == kind)
            invariant
                self.wf(),
                self.toks() == old(self).toks(),
                self.depth() == old(self).depth(),
                self.diags() == old(self).diags(),
                consumed_to_tree(*old(self), *self),
                seek(self.toks(), self.cursor(), kind) == seek(
                    old(self).toks(),
                    old(self).cursor(),
                    kind,
                ),
            decreases self.toks().len() - self.cursor(),
        {
            let ghost pre = *self;
            self.consume();
            proof {
                lemma_consumed_trans(*old(self), pre, *self);
            }
        }
        let ghost mid = *self;
        proof {
            assert(mid.cursor() == seek(old(self).toks(), old(self).cursor(), kind));
        }
        self.expect(kind);
        proof {
            lemma_consumed_trans(*old(self), mid, *self);
            if kind != SyntaxKind::Whitespace && kind != SyntaxKind::Eof {
                let s = seek(old(self).toks(), old(self).cursor(), kind);
                if s < old(self).toks().len() {
                    assert(mid.toks()[s].kind == kind);
                    assert(next_significant(mid.toks(), s) == s);
                    assert(mid.peeked().kind == kind);
                } else {
                    assert(next_significant(mid.toks(), s) == s);
                    assert(mid.peeked().kind == SyntaxKind::Eof);
                    assert(offset_at(mid.toks(), mid.src(), s) == old(self).src().len() as int);
                }
            }
        }
    }

    /// The kind of the next significant token (`Eof` at the end of input).
    pub fn peek_kind(&mut self) -> (k: SyntaxKind)
        requires
            old(self).wf(),
        ensures
            final(self).wf(),
            final(self).depth() == old(self).depth(),
            final(self).diags() == old(self).diags(),
            consumed_to_tree(*old(self), *final(self)),
            final(self).cursor() == old(self).peek_index(),
            k == old(self).peeked().kind,
    {
        self.peek().kind
    }
}

} // verus!
