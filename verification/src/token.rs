//! The token type: one classified lexeme, self-contained, with keyword lookup.

use vstd::prelude::*;

verus! {

/// The mathematical value of a token: the identifier text as a sequence of
/// characters and the integer payload as a mathematical integer.
pub enum TokenView {
    /// A character no rule matches.
    Illegal,
    /// The sentinel after the last real token.
    EndOfInput,
    /// A run of letters and underscores that is not a reserved keyword.
    Identifier(Seq<char>),
    /// A run of ASCII digits, read as a base-ten number.
    IntegerLiteral(int),
    /// `=`
    Assign,
    /// `+`
    Plus,
    /// `,`
    Comma,
    /// `;`
    Semicolon,
    /// `(`
    LParen,
    /// `)`
    RParen,
    /// `{`
    LBrace,
    /// `}`
    RBrace,
    /// The keyword `fn`.
    Function,
    /// The keyword `let`.
    Let,
}

/// One lexeme, classified. A token owns its payload and keeps no reference
/// into the source text.
#[derive(Debug, Clone, PartialEq, Eq)]
pub enum Token {
    /// A character no rule matches.
    Illegal,
    /// The sentinel after the last real token.
    EndOfInput,
    /// A run of letters and underscores that is not a reserved keyword.
    Identifier(String),
    /// A run of ASCII digits, parsed to a 32-bit signed integer.
    IntegerLiteral(i32),
    /// `=`
    Assign,
    /// `+`
    Plus,
    /// `,`
    Comma,
    /// `;`
    Semicolon,
    /// `(`
    LParen,
    /// `)`
    RParen,
    /// `{`
    LBrace,
    /// `}`
    RBrace,
    /// The keyword `fn`.
    Function,
    /// The keyword `let`.
    Let,
}

impl View for Token {
    type V = TokenView;

    open spec fn view(&self) -> TokenView {
        match self {
            Token::Illegal => TokenView::Illegal,
            Token::EndOfInput => TokenView::EndOfInput,
            Token::Identifier(name) => TokenView::Identifier(name@),
            Token::IntegerLiteral(value) => TokenView::IntegerLiteral(*value as int),
            Token::Assign => TokenView::Assign,
            Token::Plus => TokenView::Plus,
            Token::Comma => TokenView::Comma,
            Token::Semicolon => TokenView::Semicolon,
            Token::LParen => TokenView::LParen,
            Token::RParen => TokenView::RParen,
            Token::LBrace => TokenView::LBrace,
            Token::RBrace => TokenView::RBrace,
            Token::Function => TokenView::Function,
            Token::Let => TokenView::Let,
        }
    }
}

/// The keyword table: exactly the text `fn` is the keyword `Function` and
/// exactly the text `let` is the keyword `Let`; no other text is reserved.
pub open spec fn keyword_view(name: Seq<char>) -> Option<TokenView> {
    if name == seq!['f', 'n'] {
        Some(TokenView::Function)
    } else if name == seq!['l', 'e', 't'] {
        Some(TokenView::Let)
    } else {
        None
    }
}

/// The token a run of letters and underscores resolves to: the keyword's
/// token when the text is reserved, else an `Identifier` carrying the text.
pub open spec fn lexeme_view(name: Seq<char>) -> TokenView {
    match keyword_view(name) {
        Some(t) => t,
        None => TokenView::Identifier(name),
    }
}

impl Token {
    /// Keyword lookup: `Function` for exactly `"fn"`, `Let` for exactly
    /// `"let"`, and no match for any other text. Case-sensitive, whole-text
    /// match only.
    pub fn keyword(ident: &str) -> (t: Option<Token>)
        ensures
            t is Some <==> keyword_view(ident@) is Some,
            t is Some ==> t->0@ == keyword_view(ident@)->0,
    {
        let n = ident.unicode_len();
        if n == 2 && ident.get_char(0) == 'f' && ident.get_char(1) == 'n' {
            proof {
                assert(ident@ =~= seq!['f', 'n']);
            }
            Some(Token::Function)
        } else if n == 3 && ident.get_char(0) == 'l' && ident.get_char(1) == 'e'
            && ident.get_char(2) == 't' {
            proof {
                assert(ident@ =~= seq!['l', 'e', 't']);
            }
            Some(Token::Let)
        } else {
            proof {
                assert(ident@ != seq!['f', 'n'] && ident@ != seq!['l', 'e', 't']);
            }
            None
        }
    }
}

} // verus!
