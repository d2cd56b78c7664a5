use exprlang::lexer::{Lexer, LexDiagnosticKind};
use exprlang::token::{Token, TokenType};

fn kinds_and_texts(src: &str) -> Vec<(TokenType, String)> {
    let mut lx = Lexer::new(String::from(src));
    let mut out = Vec::new();
    loop {
        let t = lx.get_next_token();
        let is_eof = t.token_type == TokenType::EOF;
        out.push((t.token_type, t.value));
        if is_eof {
            break;
        }
    }
    out
}

#[test]
fn tokenizes_arithmetic_stream() {
    let toks = kinds_and_texts("3 + 4 * 2");
    let expected = vec![
        (TokenType::Number, String::from("3")),
        (TokenType::Operator, String::from("+")),
        (TokenType::Number, String::from("4")),
        (TokenType::Operator, String::from("*")),
        (TokenType::Number, String::from("2")),
        (TokenType::EOF, String::new()),
    ];
    assert_eq!(toks.len(), expected.len());
    for (got, want) in toks.iter().zip(expected.iter()) {
        assert_eq!(got.0, want.0);
        assert_eq!(got.1, want.1);
    }
}

#[test]
fn eof_repeats_after_end() {
    let mut lx = Lexer::new(String::from("1"));
    assert_eq!(lx.get_next_token().token_type, TokenType::Number);
    assert_eq!(lx.get_next_token().token_type, TokenType::EOF);
    assert_eq!(lx.get_next_token().token_type, TokenType::EOF);
    assert_eq!(lx.get_next_token().token_type, TokenType::EOF);
}

#[test]
fn pushback_redelivers_last_pushed_first() {
    let mut lx = Lexer::new(String::from("7"));
    let a = Token::new(TokenType::Identifier, String::from("a"), 1, 1);
    let b = Token::new(TokenType::Identifier, String::from("b"), 1, 2);
    let c = Token::new(TokenType::Identifier, String::from("c"), 1, 3);
    lx.unget_token(a);
    lx.unget_token(b);
    lx.unget_token(c);
    assert_eq!(lx.get_next_token().value, "c");
    assert_eq!(lx.get_next_token().value, "b");
    assert_eq!(lx.get_next_token().value, "a");
    let scanned = lx.get_next_token();
    assert_eq!(scanned.token_type, TokenType::Number);
    assert_eq!(scanned.value, "7");
}

#[test]
fn keywords_are_classified() {
    let toks = kinds_and_texts("let if else in print other");
    assert_eq!(toks[0].0, TokenType::LetKeyword);
    assert_eq!(toks[1].0, TokenType::IfKeyword);
    assert_eq!(toks[2].0, TokenType::ElseKeyword);
    assert_eq!(toks[3].0, TokenType::InKeyword);
    assert_eq!(toks[4].0, TokenType::PrintKeyword);
    assert_eq!(toks[5].0, TokenType::Identifier);
    assert_eq!(toks[5].1, "other");
}

#[test]
fn function_keyword_becomes_declaration_marker() {
    let toks = kinds_and_texts("function");
    assert_eq!(toks[0].0, TokenType::FunctionDeclaration);
    assert_eq!(toks[0].1, "function");
}

#[test]
fn comparison_arrow_and_single_operators() {
    let toks = kinds_and_texts("== <= >= != => = < > !");
    assert_eq!(toks[0], (TokenType::ComparisonOperator, String::from("==")));
    assert_eq!(toks[1], (TokenType::ComparisonOperator, String::from("<=")));
    assert_eq!(toks[2], (TokenType::ComparisonOperator, String::from(">=")));
    assert_eq!(toks[3], (TokenType::ComparisonOperator, String::from("!=")));
    assert_eq!(toks[4], (TokenType::FLinq, String::from("=>")));
    assert_eq!(toks[5], (TokenType::Operator, String::from("=")));
    assert_eq!(toks[6], (TokenType::Operator, String::from("<")));
    assert_eq!(toks[7], (TokenType::Operator, String::from(">")));
    assert_eq!(toks[8], (TokenType::Operator, String::from("!")));
}

#[test]
fn punctuation_and_end_of_line() {
    let toks = kinds_and_texts("( ) { } [ ] : , ; . @");
    for i in 0..8 {
        assert_eq!(toks[i].0, TokenType::Punctuation);
    }
    assert_eq!(toks[8], (TokenType::EOL, String::from(";")));
    assert_eq!(toks[9], (TokenType::Operator, String::from(".")));
    assert_eq!(toks[10], (TokenType::Operator, String::from("@")));
}

#[test]
fn number_with_fraction_keeps_text() {
    let toks = kinds_and_texts("3.25 7.");
    assert_eq!(toks[0], (TokenType::Number, String::from("3.25")));
    assert_eq!(toks[1], (TokenType::Number, String::from("7.")));
}

#[test]
fn string_literal_verbatim() {
    let toks = kinds_and_texts("\"a b\"");
    assert_eq!(toks[0], (TokenType::StringLiteral, String::from("a b")));
}

#[test]
fn unterminated_string_truncates_and_records_diagnostic() {
    let mut lx = Lexer::new(String::from("\"abc"));
    let t = lx.get_next_token();
    assert_eq!(t.token_type, TokenType::StringLiteral);
    assert_eq!(t.value, "abc");
    let diags = lx.diagnostics();
    assert_eq!(diags.len(), 1);
    assert_eq!(diags[0].kind, LexDiagnosticKind::UnterminatedLiteral);
}

#[test]
fn invalid_character_stops_scan_with_diagnostic() {
    let mut lx = Lexer::new(String::from("1 # 2"));
    assert_eq!(lx.get_next_token().token_type, TokenType::Number);
    let t = lx.get_next_token();
    assert_eq!(t.token_type, TokenType::EOF);
    let diags = lx.diagnostics();
    assert_eq!(diags.len(), 1);
    assert_eq!(diags[0].kind, LexDiagnosticKind::InvalidCharacter);
}

#[test]
fn newline_advances_line_and_resets_column() {
    let mut lx = Lexer::new(String::from("a\nb"));
    let a = lx.get_next_token();
    assert_eq!(a.line, 1);
    let b = lx.get_next_token();
    assert_eq!(b.line, 2);
    assert_eq!(b.value, "b");
}

#[test]
fn parses_function_literal() {
    let mut lx = Lexer::new(String::from("double(x) => x * 2;"));
    let f = lx.function_declaration();
    assert_eq!(f.value, "double");
    assert_eq!(f.parameters, vec![String::from("x")]);
    assert_eq!(f.token_type, TokenType::FunctionDeclaration);
    let kinds: Vec<TokenType> = f.expression.iter().map(|t| t.token_type).collect();
    assert_eq!(
        kinds,
        vec![TokenType::Identifier, TokenType::Operator, TokenType::Number, TokenType::EOL]
    );
    assert_eq!(f.expression[0].value, "x");
    assert_eq!(f.expression[1].value, "*");
    assert_eq!(f.expression[2].value, "2");
    assert_eq!(f.expression[3].value, ";");
    assert_eq!(f.expression[3].line, 0);
    assert_eq!(f.expression[3].column, 0);
}

#[test]
fn function_literal_with_two_parameters() {
    let mut lx = Lexer::new(String::from("add(a, b) => a + b;"));
    let f = lx.function_declaration();
    assert_eq!(f.value, "add");
    assert_eq!(f.parameters, vec![String::from("a"), String::from("b")]);
    assert_eq!(f.expression.len(), 4);
}
