//! The tokenizer: converts source text into classified tokens, one pull at a
//! time, with an unbounded pushback buffer for lookahead.
//!
//! The scan is specified by `scan_token`, a mathematical single-token step
//! over the character sequence, and every pull is proved to follow it.
//! Character classes are ASCII: whitespace is space, tab, carriage return and
//! newline; identifiers are ASCII letters then letters and digits.
//!
//! Recoverable lexical conditions (an unterminated string literal, an
//! unrecognized character) do not stop the token stream: they are recorded
//! as structured diagnostics that the caller can inspect, and scanning
//! behaves as specified below. An unrecognized character is not consumed:
//! the scan stops there and yields end-of-input, so a later pull reports it
//! again.

use vstd::prelude::*;
use vstd::string::StrSliceExecFns;
use vstd::string::StringExecFns;
use crate::token::{DFunction, Token, TokenType, TokenV};

verus! {

/// The kind of a recoverable lexical condition.
#[derive(Clone, Copy, PartialEq, Eq, Debug, Structural)]
pub enum LexDiagnosticKind {
    /// A string literal reached end of input before its closing quote.
    UnterminatedLiteral,
    /// A character no rule recognizes; scanning stops before it.
    InvalidCharacter,
    /// A required piece of a function-literal declaration is missing.
    SyntaxError,
}

/// A recoverable lexical condition with the 1-based position it was seen at.
#[derive(Clone, Copy, PartialEq, Eq, Debug, Structural)]
pub struct LexDiagnostic {
    pub kind: LexDiagnosticKind,
    pub line: usize,
    pub column: usize,
}

/// A position in the source: character index, 1-based line and column.
#[verifier::ext_equal]
pub ghost struct Cursor {
    pub pos: nat,
    pub line: nat,
    pub column: nat,
}

/// Mathematical image of the tokenizer: the text, the position, the pushback
/// buffer (front = next token to redeliver), and the recorded diagnostics.
#[verifier::ext_equal]
pub ghost struct LexStateV {
    pub text: Seq<char>,
    pub cur: Cursor,
    pub buf: Seq<TokenV>,
    pub diags: Seq<LexDiagnostic>,
}

/// One scanned token together with the cursor after it and any diagnostic
/// the scan emitted.
#[verifier::ext_equal]
pub ghost struct ScanStep {
    pub token: TokenV,
    pub cur: Cursor,
    pub diags: Seq<LexDiagnostic>,
}

/// The pulled token and the tokenizer state after the pull.
#[verifier::ext_equal]
pub ghost struct NextStep {
    pub token: TokenV,
    pub st: LexStateV,
}

pub open spec fn is_space_char(c: char) -> bool {
    c == ' ' || c == '\t' || c == '\r' || c == '\n'
}

pub open spec fn is_digit_char(c: char) -> bool {
    '0' <= c && c <= '9'
}

pub open spec fn is_alpha_char(c: char) -> bool {
    ('a' <= c && c <= 'z') || ('A' <= c && c <= 'Z')
}

pub open spec fn is_alnum_char(c: char) -> bool {
    is_alpha_char(c) || is_digit_char(c)
}

pub open spec fn is_operator_char(c: char) -> bool {
    c == '+' || c == '-' || c == '*' || c == '/' || c == '%' || c == '^' || c == '.' || c == '@'
}

pub open spec fn is_punct_char(c: char) -> bool {
    c == '(' || c == ')' || c == '{' || c == '}' || c == '[' || c == ']' || c == ':' || c == ','
}

pub open spec fn is_cmp_start_char(c: char) -> bool {
    c == '=' || c == '<' || c == '>' || c == '!'
}

/// Addition capped at the machine limit; line and column counters saturate
/// instead of wrapping.
pub open spec fn sat(n: int) -> nat {
    if n > usize::MAX as int {
        usize::MAX as nat
    } else if n < 0 {
        0
    } else {
        n as nat
    }
}

/// Advances the cursor over `k` characters of one line.
pub open spec fn advance_n(cur: Cursor, k: nat) -> Cursor {
    Cursor { pos: cur.pos + k, line: cur.line, column: sat(cur.column as int + k) }
}

/// Advances the cursor over one whitespace character; a newline starts the
/// next line at column 1.
pub open spec fn step_cursor(c: char, cur: Cursor) -> Cursor {
    if c == '\n' {
        Cursor { pos: cur.pos + 1, line: sat(cur.line as int + 1), column: 1 }
    } else {
        Cursor { pos: cur.pos + 1, line: cur.line, column: sat(cur.column as int + 1) }
    }
}

/// The cursor after skipping all whitespace from `cur`.
pub open spec fn skip_ws(s: Seq<char>, cur: Cursor) -> Cursor
    decreases s.len() - cur.pos,
{
    if cur.pos < s.len() && is_space_char(s[cur.pos as int]) {
        skip_ws(s, step_cursor(s[cur.pos as int], cur))
    } else {
        cur
    }
}

/// The end of the run of decimal digits starting at `i`.
pub open spec fn digits_end(s: Seq<char>, i: nat) -> nat
    decreases s.len() - i,
{
    if i < s.len() && is_digit_char(s[i as int]) {
        digits_end(s, i + 1)
    } else {
        i
    }
}

/// The end of the run of letters and digits starting at `i`.
pub open spec fn alnum_end(s: Seq<char>, i: nat) -> nat
    decreases s.len() - i,
{
    if i < s.len() && is_alnum_char(s[i as int]) {
        alnum_end(s, i + 1)
    } else {
        i
    }
}

/// The index of the first `"` at or after `i`, or the end of the text.
pub open spec fn quote_end(s: Seq<char>, i: nat) -> nat
    decreases s.len() - i,
{
    if i < s.len() && s[i as int] != '"' {
        quote_end(s, i + 1)
    } else {
        i
    }
}

/// The end of a numeric literal at `i`: an optional sign, the whole part,
/// and, when a `.` follows it, a fractional part.
pub open spec fn number_end(s: Seq<char>, i: nat) -> nat {
    let w = digits_end(s, i);
    if w < s.len() && s[w as int] == '.' {
        digits_end(s, w + 1)
    } else {
        w
    }
}

pub open spec fn signed_number_end(s: Seq<char>, i: nat) -> nat {
    if i < s.len() && s[i as int] == '-' {
        number_end(s, i + 1)
    } else {
        number_end(s, i)
    }
}

/// Classifies a scanned word: a reserved word or an identifier.
pub open spec fn keyword_kind(text: Seq<char>) -> TokenType {
    if text == "let"@ {
        TokenType::LetKeyword
    } else if text == "function"@ {
        TokenType::FunctionKeyword
    } else if text == "if"@ {
        TokenType::IfKeyword
    } else if text == "else"@ {
        TokenType::ElseKeyword
    } else if text == "in"@ {
        TokenType::InKeyword
    } else if text == "print"@ {
        TokenType::PrintKeyword
    } else {
        TokenType::Identifier
    }
}

/// A numeric literal scanned at cursor `c`.
pub open spec fn scan_number_step(s: Seq<char>, c: Cursor) -> ScanStep {
    let end = signed_number_end(s, c.pos);
    let ncur = advance_n(c, (end - c.pos) as nat);
    ScanStep {
        token: TokenV {
            token_type: TokenType::Number,
            value: s.subrange(c.pos as int, end as int),
            line: ncur.line,
            column: ncur.column,
        },
        cur: ncur,
        diags: Seq::empty(),
    }
}

/// A word scanned at cursor `c`: a keyword (with `function` re-tagged as the
/// declaration marker) or an identifier.
pub open spec fn scan_word_step(s: Seq<char>, c: Cursor) -> ScanStep {
    let end = alnum_end(s, c.pos);
    let text = s.subrange(c.pos as int, end as int);
    let kind0 = keyword_kind(text);
    let kind = if kind0 == TokenType::FunctionKeyword {
        TokenType::FunctionDeclaration
    } else {
        kind0
    };
    let ncur = advance_n(c, (end - c.pos) as nat);
    ScanStep {
        token: TokenV { token_type: kind, value: text, line: ncur.line, column: ncur.column },
        cur: ncur,
        diags: Seq::empty(),
    }
}

/// A string literal scanned at cursor `c` (on the opening quote). The value
/// is the text up to the closing quote; if none comes before end of input,
/// the truncated value is still produced and a diagnostic is recorded.
pub open spec fn scan_string_step(s: Seq<char>, c: Cursor) -> ScanStep {
    let q = quote_end(s, c.pos + 1);
    let text = s.subrange(c.pos as int + 1, q as int);
    if q < s.len() {
        let ncur = advance_n(c, (q + 1 - c.pos) as nat);
        ScanStep {
            token: TokenV {
                token_type: TokenType::StringLiteral,
                value: text,
                line: ncur.line,
                column: ncur.column,
            },
            cur: ncur,
            diags: Seq::empty(),
        }
    } else {
        let ncur = advance_n(c, (q - c.pos) as nat);
        ScanStep {
            token: TokenV {
                token_type: TokenType::StringLiteral,
                value: text,
                line: ncur.line,
                column: ncur.column,
            },
            cur: ncur,
            diags: seq![
                LexDiagnostic {
                    kind: LexDiagnosticKind::UnterminatedLiteral,
                    line: ncur.line as usize,
                    column: ncur.column as usize,
                },
            ],
        }
    }
}

/// A one-character token of the given kind scanned at cursor `c`.
pub open spec fn one_char_step(s: Seq<char>, c: Cursor, kind: TokenType) -> ScanStep {
    let ncur = advance_n(c, 1);
    ScanStep {
        token: TokenV {
            token_type: kind,
            value: s.subrange(c.pos as int, c.pos as int + 1),
            line: ncur.line,
            column: ncur.column,
        },
        cur: ncur,
        diags: Seq::empty(),
    }
}

/// A token starting with `=`, `<`, `>` or `!`, scanned greedily: with a
/// following `=` it is a two-character comparison; `=` followed by `>` is
/// the function-link arrow; otherwise a one-character operator.
pub open spec fn scan_cmp_step(s: Seq<char>, c: Cursor) -> ScanStep {
    if c.pos + 1 < s.len() && s[c.pos as int + 1] == '=' {
        let ncur = advance_n(c, 2);
        ScanStep {
            token: TokenV {
                token_type: TokenType::ComparisonOperator,
                value: s.subrange(c.pos as int, c.pos as int + 2),
                line: ncur.line,
                column: ncur.column,
            },
            cur: ncur,
            diags: Seq::empty(),
        }
    } else if s[c.pos as int] == '=' && c.pos + 1 < s.len() && s[c.pos as int + 1] == '>' {
        let ncur = advance_n(c, 2);
        ScanStep {
            token: TokenV {
                token_type: TokenType::FLinq,
                value: s.subrange(c.pos as int, c.pos as int + 2),
                line: ncur.line,
                column: ncur.column,
            },
            cur: ncur,
            diags: Seq::empty(),
        }
    } else {
        one_char_step(s, c, TokenType::Operator)
    }
}

/// The token for an exhausted input, at cursor `c`.
pub open spec fn eof_token(c: Cursor) -> TokenV {
    TokenV {
        token_type: TokenType::EOF,
        value: Seq::empty(),
        line: c.line,
        column: c.column,
    }
}

/// One whole scanning step: skip whitespace (newlines advance the line
/// count), then classify the token that starts at the cursor. An
/// unrecognized character yields end-of-input without being consumed, with
/// an `InvalidCharacter` diagnostic.
pub open spec fn scan_token(s: Seq<char>, cur0: Cursor) -> ScanStep {
    let c = skip_ws(s, cur0);
    if c.pos >= s.len() {
        ScanStep { token: eof_token(c), cur: c, diags: Seq::empty() }
    } else {
        let ch = s[c.pos as int];
        if is_digit_char(ch) {
            scan_number_step(s, c)
        } else if is_alpha_char(ch) {
            scan_word_step(s, c)
        } else if ch == '"' {
            scan_string_step(s, c)
        } else if is_operator_char(ch) {
            one_char_step(s, c, TokenType::Operator)
        } else if is_punct_char(ch) {
            one_char_step(s, c, TokenType::Punctuation)
        } else if ch == ';' {
            one_char_step(s, c, TokenType::EOL)
        } else if is_cmp_start_char(ch) {
            scan_cmp_step(s, c)
        } else {
            ScanStep {
                token: eof_token(c),
                cur: c,
                diags: seq![
                    LexDiagnostic {
                        kind: LexDiagnosticKind::InvalidCharacter,
                        line: c.line as usize,
                        column: c.column as usize,
                    },
                ],
            }
        }
    }
}

/// One pull: the pushback buffer is drained first, in order; otherwise the
/// text is scanned from the cursor.
pub open spec fn spec_next(st: LexStateV) -> NextStep {
    if st.buf.len() > 0 {
        NextStep { token: st.buf[0], st: LexStateV { buf: st.buf.drop_first(), ..st } }
    } else {
        let sc = scan_token(st.text, st.cur);
        NextStep { token: sc.token, st: LexStateV { cur: sc.cur, diags: st.diags + sc.diags, ..st } }
    }
}

/// A well-formed tokenizer state: the cursor is inside the text and the
/// 1-based counters are in range.
pub open spec fn wf_state(st: LexStateV) -> bool {
    &&& st.cur.pos <= st.text.len()
    &&& 1 <= st.cur.line <= usize::MAX
    &&& 1 <= st.cur.column <= usize::MAX
}

/// How much input is left to pull: buffered tokens plus unread characters.
/// Every pull that does not return end-of-input strictly shrinks it.
pub open spec fn lex_measure(st: LexStateV) -> int {
    st.buf.len() + st.text.len() - st.cur.pos
}

/// The tokenizer. It owns the source text and produces tokens on demand;
/// tokens can be pushed back and are then redelivered first.
pub struct Lexer {
    text: String,
    len: usize,
    pos: usize,
    line: usize,
    column: usize,
    read_tokens: Vec<Token>,
    diagnostics: Vec<LexDiagnostic>,
}

impl View for Lexer {
    type V = LexStateV;

    closed spec fn view(&self) -> LexStateV {
        LexStateV {
            text: self.text@,
            cur: Cursor {
                pos: self.pos as nat,
                line: self.line as nat,
                column: self.column as nat,
            },
            buf: self.read_tokens@.map_values(|t: Token| t@),
            diags: self.diagnostics@,
        }
    }
}

impl Lexer {
    /// The internal coupling invariant: the stored character count matches
    /// the text and the cursor is well formed.
    pub closed spec fn wf(&self) -> bool {
        &&& self.len == self.text@.len()
        &&& self.pos <= self.len
        &&& 1 <= self.line
        &&& 1 <= self.column
    }

    pub broadcast proof fn lemma_wf_state(&self)
        requires
            #[trigger] self.wf(),
        ensures
            wf_state(self@),
    {
    }

    /// Builds a tokenizer over `text`, at line 1 and column 1.
    pub fn new(text: String) -> (l: Lexer)
        ensures
            l.wf(),
            l@ == (LexStateV {
                text: text@,
                cur: Cursor { pos: 0, line: 1, column: 1 },
                buf: Seq::empty(),
                diags: Seq::empty(),
            }),
    {
        let len = text.as_str().unicode_len();
        let l = Lexer {
            text,
            len,
            pos: 0,
            line: 1,
            column: 1,
            read_tokens: Vec::new(),
            diagnostics: Vec::new(),
        };
        proof {
            assert(l@ =~~= (LexStateV {
                text: l.text@,
                cur: Cursor { pos: 0, line: 1, column: 1 },
                buf: Seq::empty(),
                diags: Seq::empty(),
            }));
        }
        l
    }

    /// Returns the character one past the cursor, if any, without consuming
    /// anything.
    pub fn peek(&self) -> (r: Option<char>)
        requires
            self.wf(),
        ensures
            match r {
                Some(c) => self@.cur.pos + 1 < self@.text.len() && c == self@.text[self@.cur.pos as int + 1],
                None => self@.cur.pos + 1 >= self@.text.len(),
            },
    {
        if self.pos < self.len && self.len - self.pos >= 2 {
            Some(self.text.as_str().get_char(self.pos + 1))
        } else {
            None
        }
    }

    /// Pushes a token back; it will be redelivered before anything else, so
    /// tokens pushed later come out earlier.
    pub fn unget_token(&mut self, token: Token)
        requires
            old(self).wf(),
        ensures
            final(self).wf(),
            final(self)@ == (LexStateV { buf: seq![token@] + old(self)@.buf, ..old(self)@ }),
    {
        let ghost t0 = token@;
        self.read_tokens.insert(0, token);
        proof {
            assert(self@.buf =~= seq![t0] + old(self)@.buf);
            assert(self@ =~~= (LexStateV { buf: seq![t0] + old(self)@.buf, ..old(self)@ }));
        }
    }

    /// Saturating increment for the line and column counters.
    fn sat_inc(x: usize) -> (r: usize)
        ensures
            r as int == sat(x as int + 1),
    {
        if x < usize::MAX {
            x + 1
        } else {
            x
        }
    }

    /// Advances the cursor over one character of the current line.
    fn advance(&mut self)
        requires
            old(self).wf(),
            old(self)@.cur.pos < old(self)@.text.len(),
        ensures
            final(self).wf(),
            final(self)@ == (LexStateV { cur: advance_n(old(self)@.cur, 1), ..old(self)@ }),
    {
        self.pos = self.pos + 1;
        self.column = Self::sat_inc(self.column);
        proof {
            assert(self@ =~~= (LexStateV { cur: advance_n(old(self)@.cur, 1), ..old(self)@ }));
        }
    }

    /// Skips whitespace; a newline starts the next line at column 1.
    fn skip_whitespace(&mut self)
        requires
            old(self).wf(),
        ensures
            final(self).wf(),
            final(self)@ == (LexStateV { cur: skip_ws(old(self)@.text, old(self)@.cur), ..old(self)@ }),
    {
        loop
            invariant
                self.wf(),
                self@.text == old(self)@.text,
                self@.buf == old(self)@.buf,
                self@.diags == old(self)@.diags,
                skip_ws(self@.text, self@.cur) == skip_ws(old(self)@.text, old(self)@.cur),
            ensures
                self.wf(),
                self@.text == old(self)@.text,
                self@.buf == old(self)@.buf,
                self@.diags == old(self)@.diags,
                skip_ws(self@.text, self@.cur) == skip_ws(old(self)@.text, old(self)@.cur),
                self@.cur.pos >= self@.text.len() || !is_space_char(
                    self@.text[self@.cur.pos as int],
                ),
            decreases self@.text.len() - self@.cur.pos,
        {
            if self.pos >= self.len {
                break;
            }
            let c = self.text.as_str().get_char(self.pos);
            if !char_is_space(c) {
                break;
            }
            let ghost pre = self@;
            if c == '\n' {
                self.pos = self.pos + 1;
                self.line = Self::sat_inc(self.line);
                self.column = 1;
            } else {
                self.pos = self.pos + 1;
                self.column = Self::sat_inc(self.column);
            }
            proof {
                assert(self@.cur =~= step_cursor(c, pre.cur));
                assert(skip_ws(pre.text, pre.cur) == skip_ws(self@.text, self@.cur));
            }
        }
        proof {
            assert(self@ =~~= (LexStateV {
                cur: skip_ws(old(self)@.text, old(self)@.cur),
                ..old(self)@
            }));
        }
    }
}

/// Is `c` ASCII whitespace?
pub fn char_is_space(c: char) -> (b: bool)
    ensures
        b == is_space_char(c),
{
    c == ' ' || c == '\t' || c == '\r' || c == '\n'
}

/// Is `c` a decimal digit?
pub fn char_is_digit(c: char) -> (b: bool)
    ensures
        b == is_digit_char(c),
{
    '0' <= c && c <= '9'
}

/// Is `c` an ASCII letter?
pub fn char_is_alpha(c: char) -> (b: bool)
    ensures
        b == is_alpha_char(c),
{
    ('a' <= c && c <= 'z') || ('A' <= c && c <= 'Z')
}

/// Is `c` an ASCII letter or digit?
pub fn char_is_alnum(c: char) -> (b: bool)
    ensures
        b == is_alnum_char(c),
{
    char_is_alpha(c) || char_is_digit(c)
}


/// Is `c` a one-character arithmetic or member operator?
pub fn char_is_operator(c: char) -> (b: bool)
    ensures
        b == is_operator_char(c),
{
    c == '+' || c == '-' || c == '*' || c == '/' || c == '%' || c == '^' || c == '.' || c == '@'
}

/// Is `c` a structural symbol?
pub fn char_is_punct(c: char) -> (b: bool)
    ensures
        b == is_punct_char(c),
{
    c == '(' || c == ')' || c == '{' || c == '}' || c == '[' || c == ']' || c == ':' || c == ','
}

/// Does `c` start a greedily scanned comparison?
pub fn char_is_cmp_start(c: char) -> (b: bool)
    ensures
        b == is_cmp_start_char(c),
{
    c == '=' || c == '<' || c == '>' || c == '!'
}

/// Skipping whitespace stays inside the text and keeps the counters 1-based.
pub proof fn lemma_skip_ws_bounds(s: Seq<char>, c: Cursor)
    requires
        c.pos <= s.len(),
        1 <= c.line <= usize::MAX,
        1 <= c.column <= usize::MAX,
    ensures
        c.pos <= skip_ws(s, c).pos <= s.len(),
        1 <= skip_ws(s, c).line <= usize::MAX,
        1 <= skip_ws(s, c).column <= usize::MAX,
    decreases s.len() - c.pos,
{
    if c.pos < s.len() && is_space_char(s[c.pos as int]) {
        lemma_skip_ws_bounds(s, step_cursor(s[c.pos as int], c));
    }
}

/// A digit run ends between its start and the end of the text.
pub proof fn lemma_digits_end_bounds(s: Seq<char>, i: nat)
    requires
        i <= s.len(),
    ensures
        i <= digits_end(s, i) <= s.len(),
    decreases s.len() - i,
{
    if i < s.len() && is_digit_char(s[i as int]) {
        lemma_digits_end_bounds(s, i + 1);
    }
}

/// A letter-and-digit run ends between its start and the end of the text.
pub proof fn lemma_alnum_end_bounds(s: Seq<char>, i: nat)
    requires
        i <= s.len(),
    ensures
        i <= alnum_end(s, i) <= s.len(),
    decreases s.len() - i,
{
    if i < s.len() && is_alnum_char(s[i as int]) {
        lemma_alnum_end_bounds(s, i + 1);
    }
}

/// The position of the next quote is between the start and the text's end.
pub proof fn lemma_quote_end_bounds(s: Seq<char>, i: nat)
    requires
        i <= s.len(),
    ensures
        i <= quote_end(s, i) <= s.len(),
    decreases s.len() - i,
{
    if i < s.len() && s[i as int] != '"' {
        lemma_quote_end_bounds(s, i + 1);
    }
}

/// A scan stays inside the text, keeps the counters 1-based, and consumes
/// at least one character unless it returns end-of-input.
pub proof fn lemma_scan_token_bounds(s: Seq<char>, c: Cursor)
    requires
        c.pos <= s.len(),
        1 <= c.line <= usize::MAX,
        1 <= c.column <= usize::MAX,
    ensures
        c.pos <= scan_token(s, c).cur.pos <= s.len(),
        1 <= scan_token(s, c).cur.line <= usize::MAX,
        1 <= scan_token(s, c).cur.column <= usize::MAX,
        scan_token(s, c).token.token_type != TokenType::EOF ==> scan_token(s, c).cur.pos > c.pos,
{
    lemma_skip_ws_bounds(s, c);
    let w = skip_ws(s, c);
    if w.pos < s.len() {
        let ch = s[w.pos as int];
        if is_digit_char(ch) {
            assert(digits_end(s, w.pos) == digits_end(s, w.pos + 1));
            lemma_digits_end_bounds(s, w.pos + 1);
            let d = digits_end(s, w.pos);
            if d < s.len() && s[d as int] == '.' {
                lemma_digits_end_bounds(s, d + 1);
            }
        } else if is_alpha_char(ch) {
            assert(alnum_end(s, w.pos) == alnum_end(s, w.pos + 1));
            lemma_alnum_end_bounds(s, w.pos + 1);
        } else if ch == '"' {
            lemma_quote_end_bounds(s, w.pos + 1);
        }
    }
}

/// One pull never grows what is left to read, shrinks it strictly unless it
/// returns end-of-input, and preserves well-formedness and the text.
pub proof fn lemma_spec_next_measure(st: LexStateV)
    requires
        wf_state(st),
    ensures
        wf_state(spec_next(st).st),
        spec_next(st).st.text == st.text,
        lex_measure(spec_next(st).st) <= lex_measure(st),
        spec_next(st).token.token_type != TokenType::EOF ==> lex_measure(spec_next(st).st)
            < lex_measure(st),
        0 <= lex_measure(spec_next(st).st),
{
    if st.buf.len() == 0 {
        lemma_scan_token_bounds(st.text, st.cur);
    }
}

/// The buffer after pushing back each token of `ts` in order, front first.
pub open spec fn push_tokens(buf: Seq<TokenV>, ts: Seq<TokenV>) -> Seq<TokenV>
    decreases ts.len(),
{
    if ts.len() == 0 {
        buf
    } else {
        push_tokens(seq![ts[0]] + buf, ts.drop_first())
    }
}

/// Pulling `n` tokens in a row: the tokens in order and the state after.
pub open spec fn pull_tokens(st: LexStateV, n: nat) -> (Seq<TokenV>, LexStateV)
    decreases n,
{
    if n == 0 {
        (Seq::empty(), st)
    } else {
        let stp = spec_next(st);
        let rest = pull_tokens(stp.st, (n - 1) as nat);
        (seq![stp.token] + rest.0, rest.1)
    }
}

proof fn lemma_push_tokens_reverse(buf: Seq<TokenV>, ts: Seq<TokenV>)
    ensures
        push_tokens(buf, ts) == ts.reverse() + buf,
    decreases ts.len(),
{
    if ts.len() == 0 {
        assert(ts.reverse() + buf =~= buf);
    } else {
        lemma_push_tokens_reverse(seq![ts[0]] + buf, ts.drop_first());
        assert(ts.drop_first().reverse() + (seq![ts[0]] + buf) =~= ts.reverse() + buf);
    }
}

proof fn lemma_pull_from_buffer(st: LexStateV, n: nat)
    requires
        n <= st.buf.len(),
    ensures
        pull_tokens(st, n).0 == st.buf.take(n as int),
        pull_tokens(st, n).1 == (LexStateV { buf: st.buf.skip(n as int), ..st }),
    decreases n,
{
    if n == 0 {
        assert(pull_tokens(st, n).0 =~= st.buf.take(0));
        assert(pull_tokens(st, n).1 =~~= (LexStateV { buf: st.buf.skip(0), ..st }));
    } else {
        let stp = spec_next(st);
        assert(stp.st.buf =~= st.buf.drop_first());
        lemma_pull_from_buffer(stp.st, (n - 1) as nat);
        assert(seq![st.buf[0]] + st.buf.drop_first().take(n - 1) =~= st.buf.take(n as int));
        assert(st.buf.drop_first().skip(n - 1) =~= st.buf.skip(n as int));
        assert(pull_tokens(st, n).1 =~~= (LexStateV { buf: st.buf.skip(n as int), ..st }));
    }
}

/// Law of the pushback buffer: after pushing back the tokens of `ts`, one at
/// a time and in order, pulling that many tokens redelivers exactly the
/// pushed tokens, most recently pushed first, and leaves the tokenizer in
/// the state it had before the pushes; the underlying scan is untouched.
pub proof fn lemma_pushback_order(st: LexStateV, ts: Seq<TokenV>)
    ensures
        pull_tokens(
            LexStateV { buf: push_tokens(st.buf, ts), ..st },
            ts.len(),
        ).0 == ts.reverse(),
        pull_tokens(LexStateV { buf: push_tokens(st.buf, ts), ..st }, ts.len()).1 == st,
{
    lemma_push_tokens_reverse(st.buf, ts);
    let st1 = LexStateV { buf: ts.reverse() + st.buf, ..st };
    lemma_pull_from_buffer(st1, ts.len());
    assert((ts.reverse() + st.buf).take(ts.len() as int) =~= ts.reverse());
    assert((ts.reverse() + st.buf).skip(ts.len() as int) =~= st.buf);
    assert(pull_tokens(LexStateV { buf: push_tokens(st.buf, ts), ..st }, ts.len()).1 =~~= st);
}

impl Lexer {
    /// The recoverable lexical conditions recorded so far, oldest first.
    pub fn diagnostics(&self) -> (r: &Vec<LexDiagnostic>)
        ensures
            r@ == self@.diags,
    {
        &self.diagnostics
    }

    /// Scans a numeric literal: an optional sign (only when the scan starts
    /// on `-`), the whole part, and a fractional part after a `.`. The text
    /// is kept as written.
    fn number(&mut self) -> (t: Token)
        requires
            old(self).wf(),
            old(self)@.cur.pos < old(self)@.text.len(),
            is_digit_char(old(self)@.text[old(self)@.cur.pos as int]) || old(
                self,
            )@.text[old(self)@.cur.pos as int] == '-',
        ensures
            final(self).wf(),
            t@ == scan_number_step(old(self)@.text, old(self)@.cur).token,
            final(self)@ == (LexStateV {
                cur: scan_number_step(old(self)@.text, old(self)@.cur).cur,
                ..old(self)@
            }),
    {
        let ghost s = self@.text;
        let ghost c0 = self@.cur;
        let start = self.pos;
        if self.text.as_str().get_char(self.pos) == '-' {
            self.advance();
        }
        let ghost w0 = self@.cur.pos;
        while self.pos < self.len && char_is_digit(self.text.as_str().get_char(self.pos))
            invariant
                self.wf(),
                self@.text == s,
                self@.buf == old(self)@.buf,
                self@.diags == old(self)@.diags,
                c0.pos <= w0 <= self@.cur.pos <= s.len(),
                self@.cur == advance_n(c0, (self@.cur.pos - c0.pos) as nat),
                digits_end(s, w0) == digits_end(s, self@.cur.pos),
            decreases s.len() - self@.cur.pos,
        {
            proof {
                assert(digits_end(s, self@.cur.pos) == digits_end(s, self@.cur.pos + 1));
            }
            self.advance();
        }
        proof {
            assert(digits_end(s, self@.cur.pos) == self@.cur.pos);
        }
        if self.pos < self.len && self.text.as_str().get_char(self.pos) == '.' {
            self.advance();
            let ghost f0 = self@.cur.pos;
            while self.pos < self.len && char_is_digit(self.text.as_str().get_char(self.pos))
                invariant
                    self.wf(),
                    self@.text == s,
                    self@.buf == old(self)@.buf,
                    self@.diags == old(self)@.diags,
                    c0.pos <= f0 <= self@.cur.pos <= s.len(),
                    self@.cur == advance_n(c0, (self@.cur.pos - c0.pos) as nat),
                    digits_end(s, f0) == digits_end(s, self@.cur.pos),
                decreases s.len() - self@.cur.pos,
            {
                proof {
                    assert(digits_end(s, self@.cur.pos) == digits_end(s, self@.cur.pos + 1));
                }
                self.advance();
            }
            proof {
                assert(digits_end(s, self@.cur.pos) == self@.cur.pos);
            }
        }
        proof {
            assert(self@.cur.pos == signed_number_end(s, c0.pos));
        }
        let value = self.text.as_str().substring_char(start, self.pos).to_owned();
        let t = Token::new(TokenType::Number, value, self.line, self.column);
        proof {
            let sc = scan_number_step(s, c0);
            assert(t@ =~~= sc.token);
            assert(self@ =~~= (LexStateV { cur: sc.cur, ..old(self)@ }));
        }
        t
    }

    /// Scans a word (letters then letters and digits) and classifies it as
    /// a reserved word or an identifier. `function` is returned as the
    /// plain keyword here; the caller re-tags it.
    fn keyword(&mut self) -> (t: Token)
        requires
            old(self).wf(),
            old(self)@.cur.pos < old(self)@.text.len(),
            is_alpha_char(old(self)@.text[old(self)@.cur.pos as int]),
        ensures
            final(self).wf(),
            ({
                let s = old(self)@.text;
                let c0 = old(self)@.cur;
                let end = alnum_end(s, c0.pos);
                let text = s.subrange(c0.pos as int, end as int);
                let ncur = advance_n(c0, (end - c0.pos) as nat);
                &&& t@.token_type == keyword_kind(text)
                &&& t@.value == text
                &&& t@.line == ncur.line
                &&& t@.column == ncur.column
                &&& final(self)@ == (LexStateV { cur: ncur, ..old(self)@ })
            }),
    {
        let ghost s = self@.text;
        let ghost c0 = self@.cur;
        let start = self.pos;
        while self.pos < self.len && char_is_alnum(self.text.as_str().get_char(self.pos))
            invariant
                self.wf(),
                self@.text == s,
                self@.buf == old(self)@.buf,
                self@.diags == old(self)@.diags,
                c0.pos <= self@.cur.pos <= s.len(),
                self@.cur == advance_n(c0, (self@.cur.pos - c0.pos) as nat),
                alnum_end(s, c0.pos) == alnum_end(s, self@.cur.pos),
            decreases s.len() - self@.cur.pos,
        {
            proof {
                assert(alnum_end(s, self@.cur.pos) == alnum_end(s, self@.cur.pos + 1));
            }
            self.advance();
        }
        proof {
            assert(alnum_end(s, self@.cur.pos) == self@.cur.pos);
        }
        let value = self.text.as_str().substring_char(start, self.pos).to_owned();
        let kind = if value == String::from_str("let") {
            TokenType::LetKeyword
        } else if value == String::from_str("function") {
            TokenType::FunctionKeyword
        } else if value == String::from_str("if") {
            TokenType::IfKeyword
        } else if value == String::from_str("else") {
            TokenType::ElseKeyword
        } else if value == String::from_str("in") {
            TokenType::InKeyword
        } else if value == String::from_str("print") {
            TokenType::PrintKeyword
        } else {
            TokenType::Identifier
        };
        let t = Token::new(kind, value, self.line, self.column);
        proof {
            assert(self@ =~~= (LexStateV {
                cur: advance_n(c0, (alnum_end(s, c0.pos) - c0.pos) as nat),
                ..old(self)@
            }));
        }
        t
    }

    /// Scans a string literal from the opening quote. The characters up to
    /// the next quote are taken verbatim; reaching end of input first still
    /// yields the truncated literal and records a diagnostic.
    fn string_literal(&mut self) -> (t: Token)
        requires
            old(self).wf(),
            old(self)@.cur.pos < old(self)@.text.len(),
            old(self)@.text[old(self)@.cur.pos as int] == '"',
        ensures
            final(self).wf(),
            t@ == scan_string_step(old(self)@.text, old(self)@.cur).token,
            final(self)@ == (LexStateV {
                cur: scan_string_step(old(self)@.text, old(self)@.cur).cur,
                diags: old(self)@.diags + scan_string_step(old(self)@.text, old(self)@.cur).diags,
                ..old(self)@
            }),
    {
        let ghost s = self@.text;
        let ghost c0 = self@.cur;
        self.advance();
        let sstart = self.pos;
        while self.pos < self.len && self.text.as_str().get_char(self.pos) != '"'
            invariant
                self.wf(),
                self@.text == s,
                self@.buf == old(self)@.buf,
                self@.diags == old(self)@.diags,
                c0.pos < sstart as nat <= self@.cur.pos <= s.len(),
                self@.cur == advance_n(c0, (self@.cur.pos - c0.pos) as nat),
                quote_end(s, sstart as nat) == quote_end(s, self@.cur.pos),
            decreases s.len() - self@.cur.pos,
        {
            proof {
                assert(quote_end(s, self@.cur.pos) == quote_end(s, self@.cur.pos + 1));
            }
            self.advance();
        }
        proof {
            assert(quote_end(s, self@.cur.pos) == self@.cur.pos);
        }
        let value = self.text.as_str().substring_char(sstart, self.pos).to_owned();
        if self.pos < self.len {
            self.advance();
            let t = Token::new(TokenType::StringLiteral, value, self.line, self.column);
            proof {
                let sc = scan_string_step(s, c0);
                assert(t@ =~~= sc.token);
                assert(old(self)@.diags + sc.diags =~= old(self)@.diags);
                assert(self@ =~~= (LexStateV {
                    cur: sc.cur,
                    diags: old(self)@.diags + sc.diags,
                    ..old(self)@
                }));
            }
            t
        } else {
            let d = LexDiagnostic {
                kind: LexDiagnosticKind::UnterminatedLiteral,
                line: self.line,
                column: self.column,
            };
            self.diagnostics.push(d);
            let t = Token::new(TokenType::StringLiteral, value, self.line, self.column);
            proof {
                let sc = scan_string_step(s, c0);
                assert(t@ =~~= sc.token);
                assert(self@.diags =~= old(self)@.diags + sc.diags);
                assert(self@ =~~= (LexStateV {
                    cur: sc.cur,
                    diags: old(self)@.diags + sc.diags,
                    ..old(self)@
                }));
            }
            t
        }
    }

    /// Pulls the next token. The pushback buffer is drained first, in
    /// order; otherwise the text is scanned: whitespace is skipped (a
    /// newline starts the next line), then the token at the cursor is
    /// classified. Once the input is exhausted this returns end-of-input,
    /// and may be called again indefinitely with the same outcome.
    pub fn get_next_token(&mut self) -> (t: Token)
        requires
            old(self).wf(),
        ensures
            final(self).wf(),
            t@ == spec_next(old(self)@).token,
            final(self)@ == spec_next(old(self)@).st,
            lex_measure(final(self)@) <= lex_measure(old(self)@),
            t@.token_type != TokenType::EOF ==> lex_measure(final(self)@) < lex_measure(old(self)@),
    {
        proof {
            lemma_spec_next_measure(old(self)@);
        }
        if self.read_tokens.len() > 0 {
            let t = self.read_tokens.remove(0);
            proof {
                assert(self@.buf =~= old(self)@.buf.drop_first());
                assert(self@ =~~= spec_next(old(self)@).st);
            }
            return t;
        }
        let ghost st0 = self@;
        self.skip_whitespace();
        let ghost sc = scan_token(st0.text, st0.cur);
        if self.pos >= self.len {
            let t = Token::new(TokenType::EOF, String::new(), self.line, self.column);
            proof {
                assert(t@ =~~= sc.token);
                assert(st0.diags + sc.diags =~= st0.diags);
                assert(self@ =~~= spec_next(st0).st);
            }
            return t;
        }
        let c = self.text.as_str().get_char(self.pos);
        if char_is_digit(c) {
            let t = self.number();
            proof {
                assert(st0.diags + sc.diags =~= st0.diags);
                assert(self@ =~~= spec_next(st0).st);
            }
            return t;
        }
        if char_is_alpha(c) {
            let t = self.keyword();
            let t2 = if t.token_type == TokenType::FunctionKeyword {
                Token::new(TokenType::FunctionDeclaration, t.value, self.line, self.column)
            } else {
                t
            };
            proof {
                assert(t2@ =~~= sc.token);
                assert(st0.diags + sc.diags =~= st0.diags);
                assert(self@ =~~= spec_next(st0).st);
            }
            return t2;
        }
        if c == '"' {
            let t = self.string_literal();
            proof {
                assert(self@ =~~= spec_next(st0).st);
            }
            return t;
        }
        if char_is_operator(c) || char_is_punct(c) || c == ';' {
            let kind = if char_is_operator(c) {
                TokenType::Operator
            } else if char_is_punct(c) {
                TokenType::Punctuation
            } else {
                TokenType::EOL
            };
            let value = self.text.as_str().substring_char(self.pos, self.pos + 1).to_owned();
            self.advance();
            let t = Token::new(kind, value, self.line, self.column);
            proof {
                assert(t@ =~~= sc.token);
                assert(st0.diags + sc.diags =~= st0.diags);
                assert(self@ =~~= spec_next(st0).st);
            }
            return t;
        }
        if char_is_cmp_start(c) {
            let two = if self.pos < self.len && self.len - self.pos >= 2 {
                self.text.as_str().get_char(self.pos + 1) == '='
            } else {
                false
            };
            let arrow = if self.pos < self.len && self.len - self.pos >= 2 {
                c == '=' && self.text.as_str().get_char(self.pos + 1) == '>'
            } else {
                false
            };
            if two || arrow {
                let kind = if two {
                    TokenType::ComparisonOperator
                } else {
                    TokenType::FLinq
                };
                let value = self.text.as_str().substring_char(self.pos, self.pos + 2).to_owned();
                self.advance();
                self.advance();
                let t = Token::new(kind, value, self.line, self.column);
                proof {
                    assert(self@.cur =~= advance_n(skip_ws(st0.text, st0.cur), 2));
                    assert(t@ =~~= sc.token);
                    assert(st0.diags + sc.diags =~= st0.diags);
                    assert(self@ =~~= spec_next(st0).st);
                }
                return t;
            }
            let value = self.text.as_str().substring_char(self.pos, self.pos + 1).to_owned();
            self.advance();
            let t = Token::new(TokenType::Operator, value, self.line, self.column);
            proof {
                assert(t@ =~~= sc.token);
                assert(st0.diags + sc.diags =~= st0.diags);
                assert(self@ =~~= spec_next(st0).st);
            }
            return t;
        }
        let d = LexDiagnostic {
            kind: LexDiagnosticKind::InvalidCharacter,
            line: self.line,
            column: self.column,
        };
        self.diagnostics.push(d);
        let t = Token::new(TokenType::EOF, String::new(), self.line, self.column);
        proof {
            assert(t@ =~~= sc.token);
            assert(self@.diags =~= st0.diags + sc.diags);
            assert(self@ =~~= spec_next(st0).st);
        }
        t
    }
}


/// The pieces of a parsed function literal and the tokenizer state after it.
#[verifier::ext_equal]
pub ghost struct FDeclStep {
    pub name: Seq<char>,
    pub params: Seq<Seq<char>>,
    pub body: Seq<TokenV>,
    pub st: LexStateV,
}

/// Makes a function-literal syntax diagnostic at cursor `c`.
pub open spec fn fd_diag(c: Cursor) -> LexDiagnostic {
    LexDiagnostic {
        kind: LexDiagnosticKind::SyntaxError,
        line: c.line as usize,
        column: c.column as usize,
    }
}

/// The parameter-list scan, from just after the opening parenthesis:
/// whitespace is skipped, a closing parenthesis ends the list (and is
/// consumed), a letter starts a parameter name (letters and digits), and a
/// comma after a name is consumed. A character that cannot start a name is
/// reported and skipped; an unclosed list is reported at end of input.
/// Returns the parameters, the cursor after the list, and the diagnostics.
pub open spec fn params_scan(s: Seq<char>, c: Cursor) -> (Seq<Seq<char>>, Cursor, Seq<
    LexDiagnostic,
>)
    decreases s.len() - c.pos,
    when c.pos <= s.len() && 1 <= c.line <= usize::MAX && 1 <= c.column <= usize::MAX
    via params_scan_dec
{
    let w = skip_ws(s, c);
    if w.pos >= s.len() {
        (Seq::empty(), w, seq![fd_diag(w)])
    } else if s[w.pos as int] == ')' {
        (Seq::empty(), advance_n(w, 1), Seq::empty())
    } else if is_alpha_char(s[w.pos as int]) {
        let pend = alnum_end(s, w.pos);
        let param = s.subrange(w.pos as int, pend as int);
        let cs = skip_ws(s, advance_n(w, (pend - w.pos) as nat));
        let cnext = if cs.pos < s.len() && s[cs.pos as int] == ',' {
            advance_n(cs, 1)
        } else {
            cs
        };
        let rest = params_scan(s, cnext);
        (seq![param] + rest.0, rest.1, rest.2)
    } else {
        let rest = params_scan(s, advance_n(w, 1));
        (rest.0, rest.1, seq![fd_diag(w)] + rest.2)
    }
}

#[via_fn]
proof fn params_scan_dec(s: Seq<char>, c: Cursor) {
    if c.pos <= s.len() && 1 <= c.line <= usize::MAX && 1 <= c.column <= usize::MAX {
        lemma_skip_ws_bounds(s, c);
        let w = skip_ws(s, c);
        if w.pos < s.len() && s[w.pos as int] != ')' && is_alpha_char(s[w.pos as int]) {
            assert(alnum_end(s, w.pos) == alnum_end(s, w.pos + 1));
            lemma_alnum_end_bounds(s, w.pos + 1);
            lemma_skip_ws_bounds(s, advance_n(w, (alnum_end(s, w.pos) - w.pos) as nat));
        }
    }
}

/// The token sequence of a function body: every token up to, and not
/// including, the next end-of-line or end-of-input token. Returns the
/// tokens and the tokenizer state after them.
pub open spec fn body_tokens(st: LexStateV) -> (Seq<TokenV>, LexStateV)
    decreases lex_measure(st),
    when wf_state(st)
    via body_tokens_dec
{
    let n = spec_next(st);
    if n.token.token_type == TokenType::EOL || n.token.token_type == TokenType::EOF {
        (Seq::empty(), n.st)
    } else {
        let rest = body_tokens(n.st);
        (seq![n.token] + rest.0, rest.1)
    }
}

#[via_fn]
proof fn body_tokens_dec(st: LexStateV) {
    if wf_state(st) {
        lemma_spec_next_measure(st);
    }
}

/// A whole function-literal declaration, scanned from the cursor: the
/// name (a letter then letters and digits), the parenthesized parameter
/// list, the `=>` arrow token, and the body tokens up to the end of the
/// statement. Each missing required piece is reported as a diagnostic and
/// the scan continues with best-effort partial state; the arrow token is
/// dropped even when it is not `=>`.
pub open spec fn spec_function_literal(st0: LexStateV) -> FDeclStep {
    let s = st0.text;
    let c1 = skip_ws(s, st0.cur);
    let scanned_name = c1.pos < s.len() && is_alpha_char(s[c1.pos as int]);
    let name = if scanned_name {
        s.subrange(c1.pos as int, alnum_end(s, c1.pos) as int)
    } else {
        Seq::empty()
    };
    let d2: Seq<LexDiagnostic> = if scanned_name {
        Seq::empty()
    } else {
        seq![fd_diag(c1)]
    };
    let c2 = if scanned_name {
        advance_n(c1, (alnum_end(s, c1.pos) - c1.pos) as nat)
    } else {
        c1
    };
    let c3 = skip_ws(s, c2);
    if c3.pos >= s.len() {
        FDeclStep {
            name,
            params: Seq::empty(),
            body: Seq::empty(),
            st: LexStateV { cur: c3, diags: st0.diags + d2 + seq![fd_diag(c3)], ..st0 },
        }
    } else {
        let d4: Seq<LexDiagnostic> = if s[c3.pos as int] != '(' {
            seq![fd_diag(c3)]
        } else {
            Seq::empty()
        };
        let pr = params_scan(s, advance_n(c3, 1));
        let st_a = LexStateV { cur: pr.1, diags: st0.diags + d2 + d4 + pr.2, ..st0 };
        let ar = spec_next(st_a);
        let d_ar: Seq<LexDiagnostic> = if ar.token.token_type != TokenType::FLinq {
            seq![fd_diag(ar.st.cur)]
        } else {
            Seq::empty()
        };
        let st_b = LexStateV { diags: ar.st.diags + d_ar, ..ar.st };
        let br = body_tokens(st_b);
        FDeclStep { name, params: pr.0, body: br.0, st: br.1 }
    }
}

impl Lexer {
    /// Parses a complete function-literal declaration, to be called after
    /// the function-declaration marker token was pulled: name, parameter
    /// list, arrow, and the body tokens up to (and excluding) the next
    /// end-of-line or end-of-input, with the synthetic end-of-line token
    /// appended to the captured body. Malformed input is reported through
    /// the diagnostics and the scan continues with best-effort state.
    #[verifier::rlimit(80)]
    pub fn function_declaration(&mut self) -> (f: DFunction)
        requires
            old(self).wf(),
        ensures
            final(self).wf(),
            f.value@ == spec_function_literal(old(self)@).name,
            f.parameters.deep_view() == spec_function_literal(old(self)@).params,
            f.expression.deep_view() == spec_function_literal(old(self)@).body + seq![
                TokenV { token_type: TokenType::EOL, value: ";"@, line: 0, column: 0 },
            ],
            f.token_type == TokenType::FunctionDeclaration,
            final(self)@ == spec_function_literal(old(self)@).st,
    {
        let ghost st0 = self@;
        let ghost s = st0.text;
        self.skip_whitespace();
        let ghost c1 = self@.cur;
        let mut function_name = String::new();
        let named = self.pos < self.len && char_is_alpha(self.text.as_str().get_char(self.pos));
        if named {
            let nstart = self.pos;
            while self.pos < self.len && char_is_alnum(self.text.as_str().get_char(self.pos))
                invariant
                    self.wf(),
                    self@.text == s,
                    self@.buf == old(self)@.buf,
                    self@.diags == old(self)@.diags,
                    c1.pos <= self@.cur.pos <= s.len(),
                    nstart as nat == c1.pos,
                    self@.cur == advance_n(c1, (self@.cur.pos - c1.pos) as nat),
                    alnum_end(s, c1.pos) == alnum_end(s, self@.cur.pos),
                decreases s.len() - self@.cur.pos,
            {
                proof {
                    assert(alnum_end(s, self@.cur.pos) == alnum_end(s, self@.cur.pos + 1));
                }
                self.advance();
            }
            proof {
                assert(alnum_end(s, self@.cur.pos) == self@.cur.pos);
            }
            function_name = self.text.as_str().substring_char(nstart, self.pos).to_owned();
        } else {
            let d = LexDiagnostic {
                kind: LexDiagnosticKind::SyntaxError,
                line: self.line,
                column: self.column,
            };
            self.diagnostics.push(d);
        }
        let ghost d2 = if c1.pos < s.len() && is_alpha_char(s[c1.pos as int]) {
            Seq::<LexDiagnostic>::empty()
        } else {
            seq![fd_diag(c1)]
        };
        self.skip_whitespace();
        let ghost c3 = self@.cur;
        proof {
            assert(st0.diags + d2 =~= self@.diags);
        }
        if self.pos >= self.len {
            let d = LexDiagnostic {
                kind: LexDiagnosticKind::SyntaxError,
                line: self.line,
                column: self.column,
            };
            self.diagnostics.push(d);
            let f = DFunction::new(
                Vec::new(),
                function_name,
                Vec::new(),
                TokenType::FunctionDeclaration,
            );
            proof {
                let fd = spec_function_literal(st0);
                assert(self@.diags =~= st0.diags + d2 + seq![fd_diag(c3)]);
                assert(self@ =~~= fd.st);
                assert(f.expression.deep_view() =~= fd.body + seq![
                    TokenV { token_type: TokenType::EOL, value: ";"@, line: 0, column: 0 },
                ]);
                assert(f.parameters.deep_view() =~= fd.params);
            }
            return f;
        }
        if self.text.as_str().get_char(self.pos) != '(' {
            let d = LexDiagnostic {
                kind: LexDiagnosticKind::SyntaxError,
                line: self.line,
                column: self.column,
            };
            self.diagnostics.push(d);
        }
        let ghost d4 = if s[c3.pos as int] != '(' {
            seq![fd_diag(c3)]
        } else {
            Seq::<LexDiagnostic>::empty()
        };
        self.advance();
        let ghost c4 = self@.cur;
        let ghost dpre = st0.diags + d2 + d4;
        proof {
            assert(dpre =~= self@.diags);
        }
        let ghost base = params_scan(s, c4);
        let ghost mut emitted = Seq::<LexDiagnostic>::empty();
        let mut parameters: Vec<String> = Vec::new();
        loop
            invariant_except_break
                self@.diags == dpre + emitted,
                base.0 == parameters.deep_view() + params_scan(s, self@.cur).0,
                base.1 == params_scan(s, self@.cur).1,
                base.2 == emitted + params_scan(s, self@.cur).2,
            invariant
                self.wf(),
                self@.text == s,
                self@.buf == old(self)@.buf,
            ensures
                self.wf(),
                self@.text == s,
                self@.buf == old(self)@.buf,
                self@.diags == dpre + base.2,
                base.0 == parameters.deep_view(),
                base.1 == self@.cur,
            decreases s.len() - self@.cur.pos,
        {
            let ghost chead = self@.cur;
            self.skip_whitespace();
            let ghost w = self@.cur;
            proof {
                lemma_skip_ws_bounds(s, chead);
            }
            if self.pos >= self.len {
                let d = LexDiagnostic {
                    kind: LexDiagnosticKind::SyntaxError,
                    line: self.line,
                    column: self.column,
                };
                self.diagnostics.push(d);
                proof {
                    emitted = emitted + seq![fd_diag(w)];
                    assert(self@.diags =~= dpre + emitted);
                    assert(base.0 =~= parameters.deep_view());
                    assert(base.2 =~= emitted);
                }
                break;
            }
            let pc = self.text.as_str().get_char(self.pos);
            if pc == ')' {
                self.advance();
                proof {
                    assert(base.0 =~= parameters.deep_view());
                    assert(base.2 =~= emitted);
                }
                break;
            }
            if char_is_alpha(pc) {
                proof {
                    assert(alnum_end(s, w.pos) == alnum_end(s, w.pos + 1));
                    lemma_alnum_end_bounds(s, w.pos + 1);
                }
                let pstart = self.pos;
                while self.pos < self.len && char_is_alnum(self.text.as_str().get_char(self.pos))
                    invariant
                        self.wf(),
                        self@.text == s,
                        self@.buf == old(self)@.buf,
                        self@.diags == dpre + emitted,
                        w.pos <= self@.cur.pos <= s.len(),
                        pstart as nat == w.pos,
                        self@.cur == advance_n(w, (self@.cur.pos - w.pos) as nat),
                        alnum_end(s, w.pos) == alnum_end(s, self@.cur.pos),
                    decreases s.len() - self@.cur.pos,
                {
                    proof {
                        assert(alnum_end(s, self@.cur.pos) == alnum_end(s, self@.cur.pos + 1));
                    }
                    self.advance();
                }
                proof {
                    assert(alnum_end(s, self@.cur.pos) == self@.cur.pos);
                }
                let param = self.text.as_str().substring_char(pstart, self.pos).to_owned();
                let ghost pre_push = parameters.deep_view();
                parameters.push(param);
                proof {
                    assert(parameters.deep_view() =~= pre_push + seq![
                        s.subrange(w.pos as int, alnum_end(s, w.pos) as int),
                    ]);
                }
                let ghost cafter = self@.cur;
                self.skip_whitespace();
                proof {
                    lemma_skip_ws_bounds(s, cafter);
                }
                if self.pos < self.len && self.text.as_str().get_char(self.pos) == ',' {
                    self.advance();
                }
                proof {
                    assert(self@.cur.pos > chead.pos);
                    assert(base.0 =~= parameters.deep_view() + params_scan(s, self@.cur).0);
                }
            } else {
                let d = LexDiagnostic {
                    kind: LexDiagnosticKind::SyntaxError,
                    line: self.line,
                    column: self.column,
                };
                self.diagnostics.push(d);
                self.advance();
                proof {
                    emitted = emitted + seq![fd_diag(w)];
                    assert(self@.diags =~= dpre + emitted);
                    assert(base.2 =~= emitted + params_scan(s, self@.cur).2);
                }
            }
        }
        let ghost st_a = LexStateV { cur: base.1, diags: dpre + base.2, ..st0 };
        proof {
            assert(self@ =~~= st_a);
        }
        let next_token = self.get_next_token();
        if next_token.token_type != TokenType::FLinq {
            let d = LexDiagnostic {
                kind: LexDiagnosticKind::SyntaxError,
                line: self.line,
                column: self.column,
            };
            self.diagnostics.push(d);
        }
        let ghost ar = spec_next(st_a);
        let ghost st_b = LexStateV {
            diags: ar.st.diags + (if ar.token.token_type != TokenType::FLinq {
                seq![fd_diag(ar.st.cur)]
            } else {
                Seq::<LexDiagnostic>::empty()
            }),
            ..ar.st
        };
        proof {
            if ar.token.token_type == TokenType::FLinq {
                assert(ar.st.diags + Seq::<LexDiagnostic>::empty() =~= ar.st.diags);
            }
            assert(self@ =~~= st_b);
            self.lemma_wf_state();
        }
        let mut expression_tokens: Vec<Token> = Vec::new();
        loop
            invariant_except_break
                body_tokens(st_b).0 == expression_tokens.deep_view() + body_tokens(self@).0,
                body_tokens(st_b).1 == body_tokens(self@).1,
            invariant
                self.wf(),
                wf_state(self@),
            ensures
                self.wf(),
                body_tokens(st_b).0 == expression_tokens.deep_view(),
                body_tokens(st_b).1 == self@,
            decreases lex_measure(self@),
        {
            let ghost pre = self@;
            proof {
                lemma_spec_next_measure(pre);
            }
            let next = self.get_next_token();
            if next.token_type == TokenType::EOL || next.token_type == TokenType::EOF {
                proof {
                    assert(body_tokens(pre).0 =~= Seq::<TokenV>::empty());
                    assert(body_tokens(st_b).0 =~= expression_tokens.deep_view());
                }
                break;
            }
            let ghost pre_push = expression_tokens.deep_view();
            expression_tokens.push(next);
            proof {
                assert(expression_tokens.deep_view() =~= pre_push + seq![spec_next(pre).token]);
                assert(body_tokens(st_b).0 =~= expression_tokens.deep_view() + body_tokens(
                    self@,
                ).0);
            }
        }
        let f = DFunction::new(
            expression_tokens,
            function_name,
            parameters,
            TokenType::FunctionDeclaration,
        );
        proof {
            let fd = spec_function_literal(st0);
            assert(self@ =~~= fd.st);
            assert(f.expression.deep_view() =~= fd.body + seq![
                TokenV { token_type: TokenType::EOL, value: ";"@, line: 0, column: 0 },
            ]);
        }
        f
    }
}

} // verus!
