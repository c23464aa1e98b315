//! Lexical symbols: the typed tokens that the scanner hands to the parser.
use vstd::prelude::*;

verus! {

/// The operator that an operator token stands for.
#[derive(Clone, Copy, Debug, PartialEq, Eq, Structural)]
pub enum Operator {
    Or,
    And,
    Equal,
    NotEqual,
    Greater,
    GreaterEqual,
    Less,
    LessEqual,
    Add,
    Sub,
    Mul,
    Div,
    Mod,
    Not,
}

/// The kind of a lexical symbol.
#[derive(Clone, Copy, Debug, PartialEq, Eq, Structural)]
pub enum TokenKind {
    Passage,
    Text,
    NewLine,
    FormatBoldStart,
    FormatBoldEnd,
    FormatItalicStart,
    FormatItalicEnd,
    FormatMonoStart,
    FormatMonoEnd,
    PassageLink,
    MacroDisplay,
    MacroSet,
    MacroIf,
    MacroElse,
    MacroEndIf,
    MacroPrint,
    MacroEnd,
    MacroContentVar,
    MacroContentPassageName,
    Variable,
    Int,
    Str,
    Boolean,
    Function,
    NumOp(Operator),
    CompOp(Operator),
    LogOp(Operator),
    UnaryMinus,
    Assign,
    Colon,
    ArgsEnd,
    Expression,
    Pseudo,
}

/// A lexical symbol: its kind, its payload (a name, a literal's text or an
/// operator's spelling; empty where the kind has none) and where it stood.
#[derive(Clone, Debug)]
pub struct Token {
    pub kind: TokenKind,
    pub payload: String,
    pub line: u64,
    pub column: u64,
}

/// Two tokens of the same kind, payload and place.
pub open spec fn same_token(a: Token, b: Token) -> bool {
    a.kind == b.kind && a.payload@ == b.payload@ && a.line == b.line && a.column == b.column
}

impl Token {
    pub fn new(kind: TokenKind, payload: String, line: u64, column: u64) -> (r: Token)
        ensures
            r.kind == kind,
            r.payload == payload,
            r.line == line,
            r.column == column,
    {
        Token { kind, payload, line, column }
    }

    /// A token with no payload and no place in the source, as the parser
    /// makes for structural nodes.
    pub fn marker(kind: TokenKind) -> (r: Token)
        ensures
            r.kind == kind,
            r.payload@.len() == 0,
            r.line == 0,
            r.column == 0,
    {
        Token { kind, payload: String::new(), line: 0, column: 0 }
    }

    /// A copy of this token.
    pub fn duplicate(&self) -> (r: Token)
        ensures
            same_token(r, *self),
    {
        Token { kind: self.kind, payload: self.payload.clone(), line: self.line, column: self.column }
    }

    /// Where the token stood in the source: line and column.
    pub fn location(&self) -> (r: (u64, u64))
        ensures
            r == (self.line, self.column),
    {
        (self.line, self.column)
    }
}

} // verus!
