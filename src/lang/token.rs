//! Tokens of the generator language.
use vstd::prelude::*;

verus! {

/// One token.  A floating-point literal is kept as the text it was written
/// with; the text has already been checked to be a valid literal.
#[derive(Debug, Clone, PartialEq)]
pub enum Token {
    Ident(String),
    Integer(i64),
    Float(String),
    Oper(char),
    String(String),
    EOF,
}

/// Mathematical model of a [`Token`].
pub enum TokenView {
    Ident(Seq<char>),
    Integer(i64),
    Float(Seq<char>),
    Oper(char),
    String(Seq<char>),
    EOF,
}

impl View for Token {
    type V = TokenView;

    open spec fn view(&self) -> TokenView {
        match self {
            Token::Ident(s) => TokenView::Ident(s@),
            Token::Integer(v) => TokenView::Integer(*v),
            Token::Float(s) => TokenView::Float(s@),
            Token::Oper(c) => TokenView::Oper(*c),
            Token::String(s) => TokenView::String(s@),
            Token::EOF => TokenView::EOF,
        }
    }
}

/// The kind of a token, without its payload.
#[derive(Debug, Clone, Copy, PartialEq, Eq, Structural)]
pub enum TokType {
    Ident,
    Integer,
    Float,
    Oper,
    String,
    EOF,
}

pub open spec fn tok_type(t: TokenView) -> TokType {
    match t {
        TokenView::Ident(_) => TokType::Ident,
        TokenView::Integer(_) => TokType::Integer,
        TokenView::Float(_) => TokType::Float,
        TokenView::Oper(_) => TokType::Oper,
        TokenView::String(_) => TokType::String,
        TokenView::EOF => TokType::EOF,
    }
}

impl Token {
    /// The kind of this token.
    pub fn to_type(&self) -> (r: TokType)
        ensures
            r == tok_type(self@),
    {
        match self {
            Token::Ident(_) => TokType::Ident,
            Token::Integer(_) => TokType::Integer,
            Token::Float(_) => TokType::Float,
            Token::Oper(_) => TokType::Oper,
            Token::String(_) => TokType::String,
            Token::EOF => TokType::EOF,
        }
    }
}

} // verus!
