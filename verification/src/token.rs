//! Lexical tokens: a classified, positioned unit of input, and the captured
//! form of a function literal.

use vstd::prelude::*;
use vstd::string::StringExecFns;

verus! {

/// The classification of a lexical token.
#[derive(Clone, Copy, PartialEq, Eq, Debug, Structural)]
pub enum TokenType {
    /// A numeric literal; the text is kept as written.
    Number,
    /// A quoted string literal; the text is the contents between the quotes.
    StringLiteral,
    /// An identifier that is not a reserved word.
    Identifier,
    /// A single-character operator such as `+` or `-`.
    Operator,
    /// A two-character comparison such as `==` or `<=`.
    ComparisonOperator,
    /// A structural symbol such as `(` or `,`.
    Punctuation,
    /// The two-character function-link arrow `=>`.
    FLinq,
    /// The reserved word `function`, re-tagged as a declaration marker.
    FunctionDeclaration,
    /// The reserved word `let`.
    LetKeyword,
    /// The reserved word `function`, before re-tagging.
    FunctionKeyword,
    /// The reserved word `if`.
    IfKeyword,
    /// The reserved word `else`.
    ElseKeyword,
    /// The reserved word `in`.
    InKeyword,
    /// The reserved word `print`.
    PrintKeyword,
    /// The end-of-statement token `;`.
    EOL,
    /// The end of the input; returned repeatedly once the source is spent.
    EOF,
}

/// Mathematical image of a token: its kind, text, and 1-based position at
/// the point the token finished lexing.
pub ghost struct TokenV {
    pub token_type: TokenType,
    pub value: Seq<char>,
    pub line: nat,
    pub column: nat,
}

/// A token: a classified substring of the source with its position.
pub struct Token {
    pub token_type: TokenType,
    pub value: String,
    pub line: usize,
    pub column: usize,
}

impl DeepView for Token {
    type V = TokenV;

    open spec fn deep_view(&self) -> TokenV {
        self.view()
    }
}

impl View for Token {
    type V = TokenV;

    open spec fn view(&self) -> TokenV {
        TokenV {
            token_type: self.token_type,
            value: self.value@,
            line: self.line as nat,
            column: self.column as nat,
        }
    }
}

impl Clone for Token {
    fn clone(&self) -> (t: Token)
        ensures
            t@ == self@,
    {
        Token {
            token_type: self.token_type,
            value: self.value.clone(),
            line: self.line,
            column: self.column,
        }
    }
}

impl Token {
    /// Builds a token from its kind, text and position.
    pub fn new(token_type: TokenType, value: String, line: usize, column: usize) -> (t: Token)
        ensures
            t@ == (TokenV {
                token_type,
                value: value@,
                line: line as nat,
                column: column as nat,
            }),
    {
        Token { token_type, value, line, column }
    }
}

/// A captured function literal: its name, ordered parameter names, and the
/// raw token sequence of its body, terminated by a synthetic end-of-line
/// token. Once built it owns all of its parts and never changes.
pub struct DFunction {
    pub expression: Vec<Token>,
    pub value: String,
    pub parameters: Vec<String>,
    pub token_type: TokenType,
}

impl DFunction {
    /// Captures a function literal, appending the synthetic end-of-line
    /// token (text `;`, position 0:0) to the body.
    pub fn new(
        expression: Vec<Token>,
        value: String,
        parameters: Vec<String>,
        token_type: TokenType,
    ) -> (f: DFunction)
        ensures
            f.expression@.len() == expression@.len() + 1,
            forall|i: int| 0 <= i < expression@.len() ==> f.expression@[i] == expression@[i],
            f.expression@[expression@.len() as int]@ == (TokenV {
                token_type: TokenType::EOL,
                value: ";"@,
                line: 0,
                column: 0,
            }),
            f.value == value,
            f.parameters == parameters,
            f.token_type == token_type,
    {
        let mut expression = expression;
        expression.push(Token::new(TokenType::EOL, String::from_str(";"), 0, 0));
        DFunction { expression, value, parameters, token_type }
    }
}

} // verus!
