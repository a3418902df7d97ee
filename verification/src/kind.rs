use vstd::prelude::*;

verus! {

/// The one code space shared by lexical token kinds and tree node kinds.
///
/// Codes are assigned in declaration order: the sentinels (`Error`, `Eof`)
/// take the lowest codes, the token kinds follow, and the node kinds come
/// last.  The assignment is stable for one build of the library and
/// `to_code` / `from_code` convert exactly in both directions.
#[derive(Debug, Clone, Copy, PartialEq, Eq, Structural)]
pub enum SyntaxKind {
    /// A lexical span that matches no pattern of the catalog.
    Error,
    /// End-of-stream sentinel; never stored in the token buffer.
    Eof,
    /// A maximal run of whitespace bytes.
    Whitespace,
    /// A maximal run of word bytes (letters, digits, underscore).
    Identifier,
    /// `}`
    RBrace,
    /// `{`
    LBrace,
    /// `=`
    Equal,
    /// `:`
    Colon,
    /// `;`
    Semicolon,
    /// Root node of a parsed source file.
    Document,
    /// A component declaration node.
    Component,
    /// A binding node.
    Binding,
    /// A code statement node.
    CodeStatement,
    /// A code block node.
    CodeBlock,
    /// An expression node.
    Expression,
}

/// The stable small integer assigned to each kind.
pub open spec fn kind_code(k: SyntaxKind) -> u16 {
    match k {
        SyntaxKind::Error => 0,
        SyntaxKind::Eof => 1,
        SyntaxKind::Whitespace => 2,
        SyntaxKind::Identifier => 3,
        SyntaxKind::RBrace => 4,
        SyntaxKind::LBrace => 5,
        SyntaxKind::Equal => 6,
        SyntaxKind::Colon => 7,
        SyntaxKind::Semicolon => 8,
        SyntaxKind::Document => 9,
        SyntaxKind::Component => 10,
        SyntaxKind::Binding => 11,
        SyntaxKind::CodeStatement => 12,
        SyntaxKind::CodeBlock => 13,
        SyntaxKind::Expression => 14,
    }
}

/// The inverse of `kind_code`: `None` outside the assigned range.
pub open spec fn kind_of_code(c: u16) -> Option<SyntaxKind> {
    if c == 0 {
        Some(SyntaxKind::Error)
    } else if c == 1 {
        Some(SyntaxKind::Eof)
    } else if c == 2 {
        Some(SyntaxKind::Whitespace)
    } else if c == 3 {
        Some(SyntaxKind::Identifier)
    } else if c == 4 {
        Some(SyntaxKind::RBrace)
    } else if c == 5 {
        Some(SyntaxKind::LBrace)
    } else if c == 6 {
        Some(SyntaxKind::Equal)
    } else if c == 7 {
        Some(SyntaxKind::Colon)
    } else if c == 8 {
        Some(SyntaxKind::Semicolon)
    } else if c == 9 {
        Some(SyntaxKind::Document)
    } else if c == 10 {
        Some(SyntaxKind::Component)
    } else if c == 11 {
        Some(SyntaxKind::Binding)
    } else if c == 12 {
        Some(SyntaxKind::CodeStatement)
    } else if c == 13 {
        Some(SyntaxKind::CodeBlock)
    } else if c == 14 {
        Some(SyntaxKind::Expression)
    } else {
        None
    }
}

/// The kind's name, as it appears in diagnostic messages.
pub open spec fn kind_name(k: SyntaxKind) -> Seq<char> {
    match k {
        SyntaxKind::Error => "Error"@,
        SyntaxKind::Eof => "Eof"@,
        SyntaxKind::Whitespace => "Whitespace"@,
        SyntaxKind::Identifier => "Identifier"@,
        SyntaxKind::RBrace => "RBrace"@,
        SyntaxKind::LBrace => "LBrace"@,
        SyntaxKind::Equal => "Equal"@,
        SyntaxKind::Colon => "Colon"@,
        SyntaxKind::Semicolon => "Semicolon"@,
        SyntaxKind::Document => "Document"@,
        SyntaxKind::Component => "Component"@,
        SyntaxKind::Binding => "Binding"@,
        SyntaxKind::CodeStatement => "CodeStatement"@,
        SyntaxKind::CodeBlock => "CodeBlock"@,
        SyntaxKind::Expression => "Expression"@,
    }
}

/// True of the kinds the lexer may give to a real token.
pub open spec fn is_token_kind(k: SyntaxKind) -> bool {
    k == SyntaxKind::Error || (2 <= kind_code(k) <= 8)
}

/// True of the kinds that tag interior tree nodes.
pub open spec fn is_node_kind(k: SyntaxKind) -> bool {
    9 <= kind_code(k) <= 14
}

impl SyntaxKind {
    /// The stable integer code of this kind.
    pub fn to_code(self) -> (c: u16)
        ensures
            c == kind_code(self),
    {
        match self {
            SyntaxKind::Error => 0,
            SyntaxKind::Eof => 1,
            SyntaxKind::Whitespace => 2,
            SyntaxKind::Identifier => 3,
            SyntaxKind::RBrace => 4,
            SyntaxKind::LBrace => 5,
            SyntaxKind::Equal => 6,
            SyntaxKind::Colon => 7,
            SyntaxKind::Semicolon => 8,
            SyntaxKind::Document => 9,
            SyntaxKind::Component => 10,
            SyntaxKind::Binding => 11,
            SyntaxKind::CodeStatement => 12,
            SyntaxKind::CodeBlock => 13,
            SyntaxKind::Expression => 14,
        }
    }

    /// The kind assigned to `c`, or `None` when `c` lies outside the space.
    pub fn from_code(c: u16) -> (k: Option<SyntaxKind>)
        ensures
            k == kind_of_code(c),
    {
        if c == 0 {
            Some(SyntaxKind::Error)
        } else if c == 1 {
            Some(SyntaxKind::Eof)
        } else if c == 2 {
            Some(SyntaxKind::Whitespace)
        } else if c == 3 {
            Some(SyntaxKind::Identifier)
        } else if c == 4 {
            Some(SyntaxKind::RBrace)
        } else if c == 5 {
            Some(SyntaxKind::LBrace)
        } else if c == 6 {
            Some(SyntaxKind::Equal)
        } else if c == 7 {
            Some(SyntaxKind::Colon)
        } else if c == 8 {
            Some(SyntaxKind::Semicolon)
        } else if c == 9 {
            Some(SyntaxKind::Document)
        } else if c == 10 {
            Some(SyntaxKind::Component)
        } else if c == 11 {
            Some(SyntaxKind::Binding)
        } else if c == 12 {
            Some(SyntaxKind::CodeStatement)
        } else if c == 13 {
            Some(SyntaxKind::CodeBlock)
        } else if c == 14 {
            Some(SyntaxKind::Expression)
        } else {
            None
        }
    }

    /// The kind's name, used when a diagnostic mentions the kind.
    pub fn name(self) -> (r: &'static str)
        ensures
            r@ == kind_name(self),
    {
        match self {
            SyntaxKind::Error => "Error",
            SyntaxKind::Eof => "Eof",
            SyntaxKind::Whitespace => "Whitespace",
            SyntaxKind::Identifier => "Identifier",
            SyntaxKind::RBrace => "RBrace",
            SyntaxKind::LBrace => "LBrace",
            SyntaxKind::Equal => "Equal",
            SyntaxKind::Colon => "Colon",
            SyntaxKind::Semicolon => "Semicolon",
            SyntaxKind::Document => "Document",
            SyntaxKind::Component => "Component",
            SyntaxKind::Binding => "Binding",
            SyntaxKind::CodeStatement => "CodeStatement",
            SyntaxKind::CodeBlock => "CodeBlock",
            SyntaxKind::Expression => "Expression",
        }
    }
}

/// The kind codes round-trip exactly: decoding an encoded kind gives the
/// kind back, and every decodable code re-encodes to itself.
pub proof fn lemma_kind_code_round_trip()
    ensures
        forall|k: SyntaxKind| kind_of_code(kind_code(k)) == Some(k),
        forall|c: u16| kind_of_code(c) is Some ==> kind_code(kind_of_code(c)->Some_0) == c,
{
}

} // verus!
