//! The lexer: a single left-to-right pass from source text to tokens, with
//! one character of lookahead past the current one.
use vstd::prelude::*;
use crate::token::{
    get_keywords, is_alpha, is_alpha_numeric, is_digit, is_keyword_table, keyword_kind, tokens_view,
    word_kind, option_object_view, Object, Token, spec_is_alpha, spec_is_alpha_numeric, spec_is_digit, ObjectModel, TokenModel,
    TokenType,
};

verus! {

/// Why lexing stopped, and on which line.
#[derive(Debug, Clone)]
pub struct LexError {
    pub line: usize,
    pub message: String,
}

pub struct LexErrorModel {
    pub line: nat,
    pub message: Seq<char>,
}

impl View for LexError {
    type V = LexErrorModel;

    open spec fn view(&self) -> LexErrorModel {
        LexErrorModel { line: self.line as nat, message: self.message@ }
    }
}

pub open spec fn unexpected_character_message() -> Seq<char> {
    "unexpected character"@
}

pub open spec fn unterminated_string_message() -> Seq<char> {
    "unterminated string"@
}

/// First index at or after `i` that holds no digit.
pub open spec fn digits_end(src: Seq<char>, i: int) -> int
    decreases src.len() - i,
{
    if 0 <= i < src.len() && spec_is_digit(src[i]) {
        digits_end(src, i + 1)
    } else {
        i
    }
}

/// First index at or after `i` that holds no letter, digit or underscore.
pub open spec fn word_end(src: Seq<char>, i: int) -> int
    decreases src.len() - i,
{
    if 0 <= i < src.len() && spec_is_alpha_numeric(src[i]) {
        word_end(src, i + 1)
    } else {
        i
    }
}

/// First newline at or after `i`, or the end of the text.
pub open spec fn line_end(src: Seq<char>, i: int) -> int
    decreases src.len() - i,
{
    if 0 <= i < src.len() && src[i] != '\n' {
        line_end(src, i + 1)
    } else {
        i
    }
}

/// First double quote at or after `i`, or the end of the text.
pub open spec fn quote_end(src: Seq<char>, i: int) -> int
    decreases src.len() - i,
{
    if 0 <= i < src.len() && src[i] != '"' {
        quote_end(src, i + 1)
    } else {
        i
    }
}

/// End of a number that starts with a digit at `start`: a digit run, then a
/// `.` and a second digit run only where a digit follows the `.`.
pub open spec fn number_end(src: Seq<char>, start: int) -> int {
    let j = digits_end(src, start + 1);
    if j + 1 < src.len() && src[j] == '.' && spec_is_digit(src[j + 1]) {
        digits_end(src, j + 1)
    } else {
        j
    }
}

pub open spec fn count_newlines(s: Seq<char>) -> nat
    decreases s.len(),
{
    if s.len() == 0 {
        0
    } else {
        count_newlines(s.drop_last()) + if s.last() == '\n' {
            1nat
        } else {
            0nat
        }
    }
}

/// The kind of a token made of one punctuation character.
pub open spec fn single_kind(c: char) -> Option<TokenType> {
    if c == '(' {
        Some(TokenType::LeftParen)
    } else if c == ')' {
        Some(TokenType::RightParen)
    } else if c == '{' {
        Some(TokenType::LeftBrace)
    } else if c == '}' {
        Some(TokenType::RightBrace)
    } else if c == ',' {
        Some(TokenType::Comma)
    } else if c == '.' {
        Some(TokenType::Dot)
    } else if c == '-' {
        Some(TokenType::Minus)
    } else if c == '+' {
        Some(TokenType::Plus)
    } else if c == '*' {
        Some(TokenType::Star)
    } else if c == ';' {
        Some(TokenType::SemiColon)
    } else {
        None
    }
}

/// For a character that may be followed by `=`: its kind alone, and the kind
/// of the pair.
pub open spec fn operator_kinds(c: char) -> Option<(TokenType, TokenType)> {
    if c == '!' {
        Some((TokenType::Bang, TokenType::BangEqual))
    } else if c == '=' {
        Some((TokenType::Equal, TokenType::EqualEqual))
    } else if c == '<' {
        Some((TokenType::Less, TokenType::LessEqual))
    } else if c == '>' {
        Some((TokenType::Greater, TokenType::GreaterEqual))
    } else {
        None
    }
}

pub open spec fn word_token_kind(w: Seq<char>) -> TokenType {
    match keyword_kind(w) {
        Some(k) => k,
        None => TokenType::Identifier,
    }
}

pub open spec fn token_of(
    kind: TokenType,
    src: Seq<char>,
    start: int,
    end: int,
    literal: Option<ObjectModel>,
    line: nat,
) -> TokenModel {
    TokenModel { kind, lexeme: src.subrange(start, end), literal, line }
}

pub open spec fn eof_token(line: nat) -> TokenModel {
    TokenModel { kind: TokenType::Eof, lexeme: Seq::empty(), literal: None, line }
}

/// What the lexer does with the character at `start`.
pub enum Step {
    Skip { next: int, line: nat },
    Emit { token: TokenModel, next: int, line: nat },
    Fail { error: LexErrorModel },
}

pub open spec fn scan_step(src: Seq<char>, start: int, line: nat) -> Step {
    let c = src[start];
    let followed_by = |d: char| start + 1 < src.len() && src[start + 1] == d;
    if single_kind(c) is Some {
        Step::Emit {
            token: token_of(single_kind(c)->0, src, start, start + 1, None, line),
            next: start + 1,
            line,
        }
    } else if operator_kinds(c) is Some {
        let (alone, paired) = operator_kinds(c)->0;
        if followed_by('=') {
            Step::Emit {
                token: token_of(paired, src, start, start + 2, None, line),
                next: start + 2,
                line,
            }
        } else {
            Step::Emit {
                token: token_of(alone, src, start, start + 1, None, line),
                next: start + 1,
                line,
            }
        }
    } else if c == '/' {
        if followed_by('/') {
            Step::Skip { next: line_end(src, start + 2), line }
        } else {
            Step::Emit {
                token: token_of(TokenType::Slash, src, start, start + 1, None, line),
                next: start + 1,
                line,
            }
        }
    } else if c == ' ' || c == '\r' || c == '\t' {
        Step::Skip { next: start + 1, line }
    } else if c == '\n' {
        Step::Skip { next: start + 1, line: line + 1 }
    } else if c == '"' {
        let e = quote_end(src, start + 1);
        let l = line + count_newlines(src.subrange(start + 1, e));
        if e >= src.len() {
            Step::Fail { error: LexErrorModel { line: l, message: unterminated_string_message() } }
        } else {
            Step::Emit {
                token: token_of(
                    TokenType::Str,
                    src,
                    start,
                    e + 1,
                    Some(ObjectModel::Str(src.subrange(start + 1, e))),
                    line,
                ),
                next: e + 1,
                line: l,
            }
        }
    } else if spec_is_digit(c) {
        let e = number_end(src, start);
        Step::Emit {
            token: token_of(
                TokenType::Number,
                src,
                start,
                e,
                Some(ObjectModel::Num(src.subrange(start, e))),
                line,
            ),
            next: e,
            line,
        }
    } else if spec_is_alpha(c) {
        let e = word_end(src, start + 1);
        Step::Emit {
            token: token_of(word_token_kind(src.subrange(start, e)), src, start, e, None, line),
            next: e,
            line,
        }
    } else {
        Step::Fail { error: LexErrorModel { line, message: unexpected_character_message() } }
    }
}

pub open spec fn step_next(s: Step) -> int {
    match s {
        Step::Skip { next, .. } => next,
        Step::Emit { next, .. } => next,
        Step::Fail { .. } => 0,
    }
}

/// The tokens of `src` from index `pos` on, the line counter standing at
/// `line`, or the first error.
pub open spec fn lex_from(src: Seq<char>, pos: int, line: nat) -> Result<
    Seq<TokenModel>,
    LexErrorModel,
>
    decreases src.len() - pos,
    via lex_from_decreases
{
    if pos < 0 || pos >= src.len() {
        Ok(seq![eof_token(line)])
    } else {
        match scan_step(src, pos, line) {
            Step::Skip { next, line } => lex_from(src, next, line),
            Step::Emit { token, next, line } => match lex_from(src, next, line) {
                Ok(rest) => Ok(seq![token] + rest),
                Err(e) => Err(e),
            },
            Step::Fail { error } => Err(error),
        }
    }
}

#[via_fn]
proof fn lex_from_decreases(src: Seq<char>, pos: int, line: nat) {
    if 0 <= pos < src.len() {
        lemma_step_advances(src, pos, line);
    }
}

/// The tokens of a whole text, or the first error.
pub open spec fn lex(src: Seq<char>) -> Result<Seq<TokenModel>, LexErrorModel> {
    lex_from(src, 0, 1)
}

pub open spec fn prefixed(
    pre: Seq<TokenModel>,
    r: Result<Seq<TokenModel>, LexErrorModel>,
) -> Result<Seq<TokenModel>, LexErrorModel> {
    match r {
        Ok(s) => Ok(pre + s),
        Err(e) => Err(e),
    }
}

proof fn lemma_digits_end(src: Seq<char>, i: int)
    requires
        0 <= i <= src.len(),
    ensures
        i <= digits_end(src, i) <= src.len(),
        forall|k: int| i <= k < digits_end(src, i) ==> spec_is_digit(src[k]),
    decreases src.len() - i,
{
    if i < src.len() && spec_is_digit(src[i]) {
        lemma_digits_end(src, i + 1);
    }
}

proof fn lemma_word_end(src: Seq<char>, i: int)
    requires
        0 <= i <= src.len(),
    ensures
        i <= word_end(src, i) <= src.len(),
        forall|k: int| i <= k < word_end(src, i) ==> spec_is_alpha_numeric(src[k]),
    decreases src.len() - i,
{
    if i < src.len() && spec_is_alpha_numeric(src[i]) {
        lemma_word_end(src, i + 1);
    }
}

proof fn lemma_line_end(src: Seq<char>, i: int)
    requires
        0 <= i <= src.len(),
    ensures
        i <= line_end(src, i) <= src.len(),
        forall|k: int| i <= k < line_end(src, i) ==> src[k] != '\n',
    decreases src.len() - i,
{
    if i < src.len() && src[i] != '\n' {
        lemma_line_end(src, i + 1);
    }
}

proof fn lemma_quote_end(src: Seq<char>, i: int)
    requires
        0 <= i <= src.len(),
    ensures
        i <= quote_end(src, i) <= src.len(),
        forall|k: int| i <= k < quote_end(src, i) ==> src[k] != '"',
        quote_end(src, i) < src.len() ==> src[quote_end(src, i)] == '"',
    decreases src.len() - i,
{
    if i < src.len() && src[i] != '"' {
        lemma_quote_end(src, i + 1);
    }
}

/// Every step that does not fail moves past at least one character and stays
/// within the text.
pub proof fn lemma_step_advances(src: Seq<char>, start: int, line: nat)
    requires
        0 <= start < src.len(),
    ensures
        !(scan_step(src, start, line) is Fail) ==> start < step_next(scan_step(src, start, line))
            <= src.len(),
{
    let c = src[start];
    if c == '/' && start + 1 < src.len() && src[start + 1] == '/' {
        lemma_line_end(src, start + 2);
    } else if c == '"' {
        lemma_quote_end(src, start + 1);
    } else if spec_is_digit(c) {
        lemma_digits_end(src, start + 1);
        let j = digits_end(src, start + 1);
        if j + 1 < src.len() && src[j] == '.' && spec_is_digit(src[j + 1]) {
            lemma_digits_end(src, j + 1);
        }
    } else if spec_is_alpha(c) {
        lemma_word_end(src, start + 1);
    }
}

pub open spec fn lex_result_view(r: Result<Vec<Token>, LexError>) -> Result<
    Seq<TokenModel>,
    LexErrorModel,
> {
    match r {
        Ok(ts) => Ok(tokens_view(ts@)),
        Err(e) => Err(e@),
    }
}

proof fn lemma_prefixed_emit(
    pre: Seq<TokenModel>,
    t: TokenModel,
    r: Result<Seq<TokenModel>, LexErrorModel>,
)
    ensures
        prefixed(
            pre,
            match r {
                Ok(rest) => Ok(seq![t] + rest),
                Err(e) => Err(e),
            },
        ) == prefixed(pre.push(t), r),
{
    if let Ok(rest) = r {
        assert(pre + (seq![t] + rest) =~= pre.push(t) + rest);
    }
}

proof fn lemma_count_newlines_push(s: Seq<char>, c: char)
    ensures
        count_newlines(s.push(c)) == count_newlines(s) + if c == '\n' {
            1nat
        } else {
            0nat
        },
{
    assert(s.push(c).drop_last() =~= s);
}

proof fn lemma_count_newlines_bound(s: Seq<char>)
    ensures
        count_newlines(s) <= s.len(),
    decreases s.len(),
{
    if s.len() > 0 {
        lemma_count_newlines_bound(s.drop_last());
    }
}

/// The lexer's state: the text, the tokens found so far, where the current
/// token started, the cursor and the line counter.
pub struct Scanner {
    source: String,
    chars: Vec<char>,
    tokens: Vec<Token>,
    start: usize,
    current: usize,
    line: usize,
    keywords: Vec<(String, TokenType)>,
}

impl Scanner {
    pub closed spec fn wf(&self) -> bool {
        &&& self.chars@ == self.source@
        &&& self.chars@.len() < usize::MAX
        &&& self.start <= self.current <= self.chars@.len()
        &&& self.line <= self.current + 1
        &&& is_keyword_table(self.keywords@)
    }

    /// The text being scanned.
    pub closed spec fn text(&self) -> Seq<char> {
        self.chars@
    }

    /// Index of the next character to read.
    pub closed spec fn cursor(&self) -> int {
        self.current as int
    }

    pub closed spec fn line_count(&self) -> nat {
        self.line as nat
    }

    /// The tokens found so far.
    pub closed spec fn scanned(&self) -> Seq<TokenModel> {
        tokens_view(self.tokens@)
    }

    /// A scanner at the start of `source`, on line 1, with no tokens yet.
    pub fn new(source: &str) -> (r: Self)
        requires
            source@.len() < usize::MAX,
        ensures
            r.wf(),
            r.text() == source@,
            r.cursor() == 0,
            r.line_count() == 1,
            r.scanned() == Seq::<TokenModel>::empty(),
    {
        let n = source.unicode_len();
        let mut chars: Vec<char> = Vec::new();
        let mut i: usize = 0;
        while i < n
            invariant
                n == source@.len(),
                i <= n,
                chars@ == source@.subrange(0, i as int),
            decreases n - i,
        {
            chars.push(source.get_char(i));
            i = i + 1;
            assert(chars@ =~= source@.subrange(0, i as int));
        }
        assert(chars@ =~= source@);
        let tokens: Vec<Token> = Vec::new();
        let r = Self {
            source: source.to_owned(),
            chars,
            tokens,
            start: 0,
            current: 0,
            line: 1,
            keywords: get_keywords(),
        };
        assert(tokens_view(r.tokens@) =~= Seq::<TokenModel>::empty());
        r
    }

    /// Scans the rest of the text: the tokens found so far, then those of
    /// the rest, closed by one end-of-input token; or the first error.
    pub fn scan_tokens(&mut self) -> (r: Result<Vec<Token>, LexError>)
        requires
            old(self).wf(),
        ensures
            lex_result_view(r) == prefixed(
                old(self).scanned(),
                lex_from(old(self).text(), old(self).cursor(), old(self).line_count()),
            ),
    {
        let ghost src = self.chars@;
        let ghost goal = prefixed(
            tokens_view(self.tokens@),
            lex_from(src, self.current as int, self.line as nat),
        );
        while !self.is_at_end()
            invariant
                self.wf(),
                self.chars@ == src,
                goal == prefixed(
                    old(self).scanned(),
                    lex_from(old(self).text(), old(self).cursor(), old(self).line_count()),
                ),
                goal == prefixed(
                    tokens_view(self.tokens@),
                    lex_from(src, self.current as int, self.line as nat),
                ),
            decreases src.len() - self.current,
        {
            self.start = self.current;
            let ghost pre = tokens_view(self.tokens@);
            let ghost (c0, l0) = (self.current as int, self.line as nat);
            proof {
                lemma_step_advances(src, c0, l0);
            }
            let step = self.scan_token();
            match step {
                Ok(()) => {
                    proof {
                        if let Step::Emit { token, next, line } = scan_step(src, c0, l0) {
                            lemma_prefixed_emit(pre, token, lex_from(src, next, line));
                        }
                    }
                },
                Err(e) => {
                    assert(lex_from(src, c0, l0) == Err::<Seq<TokenModel>, LexErrorModel>(e@));
                    return Err(e);
                },
            }
        }
        let eof = Token {
            token_type: TokenType::Eof,
            lexeme: String::new(),
            literal: None,
            line_number: self.line,
        };
        self.tokens.push(eof);
        proof {
            assert(tokens_view(self.tokens@) =~= goal->Ok_0);
        }
        Ok(copy_tokens(&self.tokens))
    }

    fn is_at_end(&self) -> (r: bool)
        requires
            self.wf(),
        ensures
            r == (self.current >= self.chars@.len()),
    {
        self.current >= self.chars.len()
    }

    /// Scans one token, or skips what makes none, from `start`.
    fn scan_token(&mut self) -> (r: Result<(), LexError>)
        requires
            old(self).wf(),
            old(self).start == old(self).current,
            old(self).current < old(self).chars@.len(),
        ensures
            final(self).wf(),
            final(self).chars@ == old(self).chars@,
            match scan_step(old(self).chars@, old(self).current as int, old(self).line as nat) {
                Step::Skip { next, line } => {
                    &&& r is Ok
                    &&& final(self).current == next
                    &&& final(self).line == line
                    &&& tokens_view(final(self).tokens@) == tokens_view(old(self).tokens@)
                },
                Step::Emit { token, next, line } => {
                    &&& r is Ok
                    &&& final(self).current == next
                    &&& final(self).line == line
                    &&& tokens_view(final(self).tokens@) == tokens_view(old(self).tokens@).push(
                        token,
                    )
                },
                Step::Fail { error } => r is Err && r->Err_0@ == error,
            },
    {
        let ghost src = self.chars@;
        let ghost start = self.current as int;
        let c = self.advance();
        if c == '(' {
            self.add_token(TokenType::LeftParen);
        } else if c == ')' {
            self.add_token(TokenType::RightParen);
        } else if c == '{' {
            self.add_token(TokenType::LeftBrace);
        } else if c == '}' {
            self.add_token(TokenType::RightBrace);
        } else if c == ',' {
            self.add_token(TokenType::Comma);
        } else if c == '.' {
            self.add_token(TokenType::Dot);
        } else if c == '-' {
            self.add_token(TokenType::Minus);
        } else if c == '+' {
            self.add_token(TokenType::Plus);
        } else if c == '*' {
            self.add_token(TokenType::Star);
        } else if c == ';' {
            self.add_token(TokenType::SemiColon);
        } else if c == '!' {
            let kind = if self.char_match('=') {
                TokenType::BangEqual
            } else {
                TokenType::Bang
            };
            self.add_token(kind);
        } else if c == '=' {
            let kind = if self.char_match('=') {
                TokenType::EqualEqual
            } else {
                TokenType::Equal
            };
            self.add_token(kind);
        } else if c == '<' {
            let kind = if self.char_match('=') {
                TokenType::LessEqual
            } else {
                TokenType::Less
            };
            self.add_token(kind);
        } else if c == '>' {
            let kind = if self.char_match('=') {
                TokenType::GreaterEqual
            } else {
                TokenType::Greater
            };
            self.add_token(kind);
        } else if c == '/' {
            if self.char_match('/') {
                while !(self.peek() == '\n' || self.is_at_end())
                    invariant
                        self.wf(),
                        self.chars@ == src,
                        self.tokens == old(self).tokens,
                        self.line == old(self).line,
                        start + 2 <= self.current,
                        line_end(src, self.current as int) == line_end(src, start + 2),
                    decreases src.len() - self.current,
                {
                    self.advance();
                }
            } else {
                self.add_token(TokenType::Slash);
            }
        } else if c == ' ' || c == '\r' || c == '\t' {
        } else if c == '\n' {
            self.line = self.line + 1;
        } else if c == '"' {
            self.string()?;
        } else if is_digit(c) {
            self.number();
        } else if is_alpha(c) {
            self.identifier();
        } else {
            return Err(
                LexError { line: self.line, message: "unexpected character".to_owned() },
            );
        }
        Ok(())
    }

    /// Scans the rest of a word and adds it as a keyword or an identifier.
    fn identifier(&mut self)
        requires
            old(self).wf(),
            old(self).start < old(self).current,
            spec_is_alpha(old(self).chars@[old(self).start as int]),
            old(self).current == old(self).start + 1,
        ensures
            final(self).wf(),
            final(self).chars@ == old(self).chars@,
            final(self).line == old(self).line,
            ({
                let src = old(self).chars@;
                let e = word_end(src, old(self).start + 1);
                &&& final(self).current == e
                &&& tokens_view(final(self).tokens@) == tokens_view(old(self).tokens@).push(
                    token_of(
                        word_token_kind(src.subrange(old(self).start as int, e)),
                        src,
                        old(self).start as int,
                        e,
                        None,
                        old(self).line as nat,
                    ),
                )
            }),
    {
        let ghost src = self.chars@;
        while is_alpha_numeric(self.peek())
            invariant
                self.wf(),
                self.chars@ == src,
                self.tokens == old(self).tokens,
                self.line == old(self).line,
                self.start == old(self).start,
                self.start < self.current,
                word_end(src, self.current as int) == word_end(src, self.start + 1),
            decreases src.len() - self.current,
        {
            self.advance();
        }
        let text = self.source.as_str().substring_char(self.start, self.current).to_owned();
        let kind = word_kind(&self.keywords, &text);
        self.add_token(kind);
    }

    /// Scans the rest of a number and adds it with its spelling as value.
    fn number(&mut self)
        requires
            old(self).wf(),
            old(self).current == old(self).start + 1,
            spec_is_digit(old(self).chars@[old(self).start as int]),
        ensures
            final(self).wf(),
            final(self).chars@ == old(self).chars@,
            final(self).line == old(self).line,
            ({
                let src = old(self).chars@;
                let e = number_end(src, old(self).start as int);
                &&& final(self).current == e
                &&& tokens_view(final(self).tokens@) == tokens_view(old(self).tokens@).push(
                    token_of(
                        TokenType::Number,
                        src,
                        old(self).start as int,
                        e,
                        Some(ObjectModel::Num(src.subrange(old(self).start as int, e))),
                        old(self).line as nat,
                    ),
                )
            }),
    {
        let ghost src = self.chars@;
        while is_digit(self.peek())
            invariant
                self.wf(),
                self.chars@ == src,
                self.tokens == old(self).tokens,
                self.line == old(self).line,
                self.start == old(self).start,
                self.start < self.current,
                digits_end(src, self.current as int) == digits_end(src, self.start + 1),
            decreases src.len() - self.current,
        {
            self.advance();
        }
        if self.peek() == '.' && is_digit(self.peek_next()) {
            self.advance();
            while is_digit(self.peek())
                invariant
                    self.wf(),
                    self.chars@ == src,
                    self.tokens == old(self).tokens,
                    self.line == old(self).line,
                    self.start == old(self).start,
                    self.start < self.current,
                    digits_end(src, self.current as int) == number_end(src, self.start as int),
                decreases src.len() - self.current,
            {
                self.advance();
            }
        }
        let value = self.source.as_str().substring_char(self.start, self.current).to_owned();
        self.add_token_literal(TokenType::Number, Some(Object::NumValue(value)));
    }

    /// Scans the rest of a string literal and adds it with the text between
    /// the quotes as value.
    fn string(&mut self) -> (r: Result<(), LexError>)
        requires
            old(self).wf(),
            old(self).current == old(self).start + 1,
            old(self).chars@[old(self).start as int] == '"',
        ensures
            final(self).wf(),
            final(self).chars@ == old(self).chars@,
            ({
                let src = old(self).chars@;
                let s = old(self).start as int;
                let e = quote_end(src, s + 1);
                let l = (old(self).line + count_newlines(src.subrange(s + 1, e))) as nat;
                if e >= src.len() {
                    r is Err && r->Err_0@ == LexErrorModel {
                        line: l,
                        message: unterminated_string_message(),
                    }
                } else {
                    &&& r is Ok
                    &&& final(self).current == e + 1
                    &&& final(self).line == l
                    &&& tokens_view(final(self).tokens@) == tokens_view(old(self).tokens@).push(
                        token_of(
                            TokenType::Str,
                            src,
                            s,
                            e + 1,
                            Some(ObjectModel::Str(src.subrange(s + 1, e))),
                            old(self).line as nat,
                        ),
                    )
                }
            }),
    {
        let ghost src = self.chars@;
        let ghost s = self.start as int;
        let first_line = self.line;
        while self.peek() != '"' && !self.is_at_end()
            invariant
                self.wf(),
                self.chars@ == src,
                self.tokens == old(self).tokens,
                self.start == old(self).start,
                self.start < self.current,
                s == self.start,
                quote_end(src, self.current as int) == quote_end(src, s + 1),
                self.line == first_line + count_newlines(src.subrange(s + 1, self.current as int)),
            decreases src.len() - self.current,
        {
            let ghost cur = self.current as int;
            proof {
                assert(src.subrange(s + 1, cur + 1) =~= src.subrange(s + 1, cur).push(src[cur]));
                lemma_count_newlines_push(src.subrange(s + 1, cur), src[cur]);
                lemma_count_newlines_bound(src.subrange(s + 1, cur));
            }
            let c = self.advance();
            if c == '\n' {
                self.line = self.line + 1;
            }
        }
        if self.is_at_end() {
            return Err(LexError { line: self.line, message: "unterminated string".to_owned() });
        }
        self.advance();
        let value = self.source.as_str().substring_char(self.start + 1, self.current - 1).to_owned();
        self.add_token_at(TokenType::Str, Some(Object::StrValue(value)), first_line);
        Ok(())
    }

    fn peek(&self) -> (c: char)
        requires
            self.wf(),
        ensures
            c == if self.current < self.chars@.len() {
                self.chars@[self.current as int]
            } else {
                '\0'
            },
    {
        if self.is_at_end() {
            return '\0';
        }
        self.chars[self.current]
    }

    fn peek_next(&self) -> (c: char)
        requires
            self.wf(),
        ensures
            c == if self.current + 1 < self.chars@.len() {
                self.chars@[self.current + 1]
            } else {
                '\0'
            },
    {
        if self.current + 1 >= self.chars.len() {
            return '\0';
        }
        self.chars[self.current + 1]
    }

    /// Consumes the current character when it is `ch`.
    fn char_match(&mut self, ch: char) -> (r: bool)
        requires
            old(self).wf(),
        ensures
            final(self).wf(),
            r == (old(self).current < old(self).chars@.len() && old(self).chars@[old(
                self,
            ).current as int] == ch),
            final(self).current == if r {
                old(self).current + 1
            } else {
                old(self).current as int
            },
            final(self).chars == old(self).chars,
            final(self).source == old(self).source,
            final(self).tokens == old(self).tokens,
            final(self).start == old(self).start,
            final(self).line == old(self).line,
            final(self).keywords == old(self).keywords,
    {
        if self.is_at_end() {
            return false;
        }
        if self.chars[self.current] != ch {
            false
        } else {
            self.current = self.current + 1;
            true
        }
    }

    fn advance(&mut self) -> (c: char)
        requires
            old(self).wf(),
            old(self).current < old(self).chars@.len(),
        ensures
            final(self).wf(),
            c == old(self).chars@[old(self).current as int],
            final(self).current == old(self).current + 1,
            final(self).chars == old(self).chars,
            final(self).source == old(self).source,
            final(self).tokens == old(self).tokens,
            final(self).start == old(self).start,
            final(self).line == old(self).line,
            final(self).keywords == old(self).keywords,
    {
        let c = self.chars[self.current];
        self.current = self.current + 1;
        c
    }

    fn add_token(&mut self, token_type: TokenType)
        requires
            old(self).wf(),
        ensures
            final(self).wf(),
            final(self).chars == old(self).chars,
            final(self).current == old(self).current,
            final(self).start == old(self).start,
            final(self).line == old(self).line,
            tokens_view(final(self).tokens@) == tokens_view(old(self).tokens@).push(
                token_of(
                    token_type,
                    old(self).chars@,
                    old(self).start as int,
                    old(self).current as int,
                    None,
                    old(self).line as nat,
                ),
            ),
    {
        self.add_token_literal(token_type, None);
    }

    fn add_token_literal(&mut self, token_type: TokenType, literal: Option<Object>)
        requires
            old(self).wf(),
        ensures
            final(self).wf(),
            final(self).chars == old(self).chars,
            final(self).current == old(self).current,
            final(self).start == old(self).start,
            final(self).line == old(self).line,
            tokens_view(final(self).tokens@) == tokens_view(old(self).tokens@).push(
                token_of(
                    token_type,
                    old(self).chars@,
                    old(self).start as int,
                    old(self).current as int,
                    option_object_view(literal),
                    old(self).line as nat,
                ),
            ),
    {
        let line = self.line;
        self.add_token_at(token_type, literal, line);
    }

    /// Adds the token from `start` to the cursor, as starting on `line`.
    fn add_token_at(&mut self, token_type: TokenType, literal: Option<Object>, line: usize)
        requires
            old(self).wf(),
        ensures
            final(self).wf(),
            final(self).chars == old(self).chars,
            final(self).current == old(self).current,
            final(self).start == old(self).start,
            final(self).line == old(self).line,
            tokens_view(final(self).tokens@) == tokens_view(old(self).tokens@).push(
                token_of(
                    token_type,
                    old(self).chars@,
                    old(self).start as int,
                    old(self).current as int,
                    option_object_view(literal),
                    line as nat,
                ),
            ),
    {
        let lexeme = self.source.as_str().substring_char(self.start, self.current).to_owned();
        self.tokens.push(Token { token_type, lexeme, literal, line_number: line });
        assert(tokens_view(self.tokens@) =~= tokens_view(old(self).tokens@).push(
            token_of(
                token_type,
                old(self).chars@,
                old(self).start as int,
                old(self).current as int,
                option_object_view(literal),
                line as nat,
            ),
        ));
    }
}

/// A copy of each token, in order.
fn copy_tokens(ts: &Vec<Token>) -> (r: Vec<Token>)
    ensures
        tokens_view(r@) == tokens_view(ts@),
{
    let mut r: Vec<Token> = Vec::new();
    let mut i: usize = 0;
    while i < ts.len()
        invariant
            i <= ts@.len(),
            tokens_view(r@) == tokens_view(ts@.subrange(0, i as int)),
        decreases ts@.len() - i,
    {
        let t = ts[i].duplicate();
        let ghost before = r@;
        r.push(t);
        assert(ts@.subrange(0, i + 1) =~= ts@.subrange(0, i as int).push(ts@[i as int]));
        assert(tokens_view(r@) =~= tokens_view(before).push(t@));
        assert(tokens_view(ts@.subrange(0, i + 1)) =~= tokens_view(ts@.subrange(0, i as int)).push(ts@[i as int]@));
        i = i + 1;
        assert(tokens_view(r@) =~= tokens_view(ts@.subrange(0, i as int)));
    }
    assert(ts@.subrange(0, ts@.len() as int) =~= ts@);
    r
}

/// The token sequence holds exactly one end-of-input token, and it is last.
pub open spec fn ends_with_one_eof(ts: Seq<TokenModel>) -> bool {
    &&& ts.len() >= 1
    &&& ts.last().kind == TokenType::Eof
    &&& forall|i: int| 0 <= i < ts.len() - 1 ==> #[trigger] ts[i].kind != TokenType::Eof
}

proof fn lemma_lex_from_one_eof(src: Seq<char>, pos: int, line: nat)
    ensures
        lex_from(src, pos, line) is Ok ==> ends_with_one_eof(lex_from(src, pos, line)->Ok_0),
    decreases src.len() - pos,
{
    if 0 <= pos < src.len() {
        lemma_step_advances(src, pos, line);
        match scan_step(src, pos, line) {
            Step::Skip { next, line: l } => {
                lemma_lex_from_one_eof(src, next, l);
            },
            Step::Emit { token, next, line: l } => {
                lemma_lex_from_one_eof(src, next, l);
                if let Ok(rest) = lex_from(src, next, l) {
                    let ts = seq![token] + rest;
                    assert(token.kind != TokenType::Eof);
                    assert forall|i: int| 0 <= i < ts.len() - 1 implies #[trigger] ts[i].kind
                        != TokenType::Eof by {
                        if i > 0 {
                            assert(ts[i] == rest[i - 1]);
                        }
                    }
                }
            },
            Step::Fail { .. } => {},
        }
    }
}

/// Whenever lexing succeeds, even on empty text, its tokens end with exactly
/// one end-of-input token.
pub proof fn law_one_end_of_input(src: Seq<char>)
    ensures
        lex(src) is Ok ==> ends_with_one_eof(lex(src)->Ok_0),
        src.len() == 0 ==> lex(src) == Ok::<Seq<TokenModel>, LexErrorModel>(seq![eof_token(1)]),
{
    lemma_lex_from_one_eof(src, 0, 1);
}

/// Lexing is a function of the text: the same text gives the same tokens, or
/// the same error.
pub proof fn law_lex_deterministic(a: Seq<char>, b: Seq<char>)
    requires
        a == b,
    ensures
        lex(a) == lex(b),
{
}

/// Where each token of `lex_from(src, pos, line)` starts in the text; the
/// end-of-input token starts at the end.
pub open spec fn token_starts(src: Seq<char>, pos: int, line: nat) -> Seq<int>
    decreases src.len() - pos,
    via token_starts_decreases
{
    if pos < 0 || pos >= src.len() {
        seq![pos]
    } else {
        match scan_step(src, pos, line) {
            Step::Skip { next, line } => token_starts(src, next, line),
            Step::Emit { next, line, .. } => seq![pos] + token_starts(src, next, line),
            Step::Fail { .. } => Seq::empty(),
        }
    }
}

#[via_fn]
proof fn token_starts_decreases(src: Seq<char>, pos: int, line: nat) {
    if 0 <= pos < src.len() {
        lemma_step_advances(src, pos, line);
    }
}

proof fn lemma_count_newlines_split(src: Seq<char>, a: int, b: int, c: int)
    requires
        0 <= a <= b <= c <= src.len(),
    ensures
        count_newlines(src.subrange(a, c)) == count_newlines(src.subrange(a, b)) + count_newlines(
            src.subrange(b, c),
        ),
    decreases c - b,
{
    if c > b {
        lemma_count_newlines_split(src, a, b, c - 1);
        assert(src.subrange(a, c).drop_last() =~= src.subrange(a, c - 1));
        assert(src.subrange(b, c).drop_last() =~= src.subrange(b, c - 1));
    } else {
        assert(src.subrange(a, c) =~= src.subrange(a, b));
    }
}

proof fn lemma_no_newlines(src: Seq<char>, a: int, b: int)
    requires
        0 <= a <= b <= src.len(),
        forall|k: int| a <= k < b ==> src[k] != '\n',
    ensures
        count_newlines(src.subrange(a, b)) == 0,
    decreases b - a,
{
    if b > a {
        lemma_no_newlines(src, a, b - 1);
        assert(src.subrange(a, b).drop_last() =~= src.subrange(a, b - 1));
    }
}

/// A step moves the line counter by the newlines it passes over.
pub open spec fn step_lines(src: Seq<char>, pos: int, line: nat) -> bool {
    match scan_step(src, pos, line) {
        Step::Skip { next, line: l } => l == line + count_newlines(src.subrange(pos, next)),
        Step::Emit { next, line: l, .. } => l == line + count_newlines(src.subrange(pos, next)),
        Step::Fail { .. } => true,
    }
}

proof fn lemma_step_lines(src: Seq<char>, pos: int, line: nat)
    requires
        0 <= pos < src.len(),
    ensures
        step_lines(src, pos, line),
{
    lemma_step_advances(src, pos, line);
    let c = src[pos];
    let next = step_next(scan_step(src, pos, line));
    if c == '\n' {
        let one = src.subrange(pos, pos + 1);
        assert(one.drop_last() =~= Seq::<char>::empty());
        assert(count_newlines(one.drop_last()) == 0);
        assert(one.last() == '\n');
    } else if c == '/' && pos + 1 < src.len() && src[pos + 1] == '/' {
        lemma_line_end(src, pos + 2);
        lemma_no_newlines(src, pos, next);
    } else if c == '"' {
        lemma_quote_end(src, pos + 1);
        let e = quote_end(src, pos + 1);
        if e < src.len() {
            lemma_count_newlines_split(src, pos, pos + 1, e + 1);
            lemma_count_newlines_split(src, pos + 1, e, e + 1);
            lemma_no_newlines(src, pos, pos + 1);
            lemma_no_newlines(src, e, e + 1);
        }
    } else if spec_is_digit(c) {
        lemma_digits_end(src, pos + 1);
        let j = digits_end(src, pos + 1);
        if j + 1 < src.len() && src[j] == '.' && spec_is_digit(src[j + 1]) {
            lemma_digits_end(src, j + 1);
        }
        lemma_no_newlines(src, pos, next);
    } else if spec_is_alpha(c) {
        lemma_word_end(src, pos + 1);
        lemma_no_newlines(src, pos, next);
    } else if !(scan_step(src, pos, line) is Fail) {
        lemma_no_newlines(src, pos, next);
    }
}

/// Each token found from `pos` on starts at its recorded place, its lexeme
/// is the text there, and its line is one more than the newlines before it.
pub open spec fn tokens_located(src: Seq<char>, ts: Seq<TokenModel>, starts: Seq<int>) -> bool {
    &&& starts.len() == ts.len()
    &&& forall|i: int|
        #![trigger ts[i]]
        0 <= i < ts.len() ==> {
            &&& 0 <= starts[i] <= starts[i] + ts[i].lexeme.len() <= src.len()
            &&& ts[i].lexeme == src.subrange(starts[i], starts[i] + ts[i].lexeme.len())
            &&& ts[i].line == 1 + count_newlines(src.subrange(0, starts[i]))
        }
}

proof fn lemma_lex_from_lines(src: Seq<char>, pos: int, line: nat)
    requires
        0 <= pos <= src.len(),
        line == 1 + count_newlines(src.subrange(0, pos)),
    ensures
        lex_from(src, pos, line) is Ok ==> tokens_located(
            src,
            lex_from(src, pos, line)->Ok_0,
            token_starts(src, pos, line),
        ),
    decreases src.len() - pos,
{
    if pos < src.len() {
        lemma_step_advances(src, pos, line);
        lemma_step_lines(src, pos, line);
        match scan_step(src, pos, line) {
            Step::Skip { next, line: l } => {
                lemma_count_newlines_split(src, 0, pos, next);
                lemma_lex_from_lines(src, next, l);
            },
            Step::Emit { token, next, line: l } => {
                lemma_count_newlines_split(src, 0, pos, next);
                lemma_lex_from_lines(src, next, l);
                if let Ok(rest) = lex_from(src, next, l) {
                    let ts = seq![token] + rest;
                    let st = seq![pos] + token_starts(src, next, l);
                    assert(token.lexeme =~= src.subrange(pos, pos + token.lexeme.len()));
                    assert forall|i: int| 0 <= i < ts.len() implies {
                        &&& 0 <= st[i] <= st[i] + ts[i].lexeme.len() <= src.len()
                        &&& ts[i].lexeme == src.subrange(st[i], st[i] + ts[i].lexeme.len())
                        &&& ts[i].line == 1 + count_newlines(src.subrange(0, st[i]))
                    } by {
                        if i > 0 {
                            assert(ts[i] == rest[i - 1]);
                            assert(st[i] == token_starts(src, next, l)[i - 1]);
                        }
                    }
                }
            },
            Step::Fail { .. } => {},
        }
    } else {
        assert(Seq::<char>::empty() =~= src.subrange(pos, pos));
    }
}

/// Line tracking: every token of a text starts at a place whose text is its
/// lexeme, and a token that starts after N newlines reports line N + 1.
pub proof fn law_line_tracking(src: Seq<char>)
    ensures
        lex(src) is Ok ==> tokens_located(src, lex(src)->Ok_0, token_starts(src, 0, 1)),
{
    assert(src.subrange(0, 0) =~= Seq::<char>::empty());
    lemma_lex_from_lines(src, 0, 1);
}

/// A run of letters, digits and underscores that starts with a letter or an
/// underscore.
pub open spec fn is_word(w: Seq<char>) -> bool {
    &&& w.len() >= 1
    &&& spec_is_alpha(w[0])
    &&& forall|k: int| 1 <= k < w.len() ==> spec_is_alpha_numeric(#[trigger] w[k])
}

proof fn lemma_word_end_of_word(w: Seq<char>, i: int)
    requires
        is_word(w),
        1 <= i <= w.len(),
    ensures
        word_end(w, i) == w.len(),
    decreases w.len() - i,
{
    if i < w.len() {
        lemma_word_end_of_word(w, i + 1);
    }
}

/// A word is one token: its keyword kind when it is spelled exactly as a
/// reserved word, and `Identifier` otherwise, with no literal value.
pub proof fn law_keyword_or_identifier(w: Seq<char>)
    requires
        is_word(w),
    ensures
        lex(w) == Ok::<Seq<TokenModel>, LexErrorModel>(
            seq![
                TokenModel { kind: word_token_kind(w), lexeme: w, literal: None, line: 1 },
                eof_token(1),
            ],
        ),
        keyword_kind(w) is None ==> word_token_kind(w) == TokenType::Identifier,
        keyword_kind(w) is Some ==> word_token_kind(w) == keyword_kind(w)->0,
{
    lemma_word_end_of_word(w, 1);
    assert(w.subrange(0, w.len() as int) =~= w);
    lemma_step_advances(w, 0, 1);
    assert(scan_step(w, 0, 1) == Step::Emit {
        token: TokenModel { kind: word_token_kind(w), lexeme: w, literal: None, line: 1 },
        next: w.len() as int,
        line: 1,
    });
    let t = TokenModel { kind: word_token_kind(w), lexeme: w, literal: None, line: 1 };
    assert(lex_from(w, w.len() as int, 1) == Ok::<Seq<TokenModel>, LexErrorModel>(
        seq![eof_token(1)],
    ));
    assert(seq![t] + seq![eof_token(1)] =~= seq![t, eof_token(1)]);
}

pub open spec fn lines_nondecreasing(ts: Seq<TokenModel>) -> bool {
    forall|i: int, j: int| 0 <= i <= j < ts.len() ==> #[trigger] ts[i].line <= #[trigger] ts[j].line
}

proof fn lemma_lex_from_lines_nondecreasing(src: Seq<char>, pos: int, line: nat)
    ensures
        lex_from(src, pos, line) is Ok ==> {
            let ts = lex_from(src, pos, line)->Ok_0;
            &&& lines_nondecreasing(ts)
            &&& forall|i: int| 0 <= i < ts.len() ==> line <= #[trigger] ts[i].line
        },
    decreases src.len() - pos,
{
    if 0 <= pos < src.len() {
        lemma_step_advances(src, pos, line);
        match scan_step(src, pos, line) {
            Step::Skip { next, line: l } => {
                lemma_lex_from_lines_nondecreasing(src, next, l);
            },
            Step::Emit { token, next, line: l } => {
                lemma_lex_from_lines_nondecreasing(src, next, l);
                if let Ok(rest) = lex_from(src, next, l) {
                    let ts = seq![token] + rest;
                    assert forall|i: int, j: int| 0 <= i <= j < ts.len() implies #[trigger] ts[i].line
                        <= #[trigger] ts[j].line by {
                        if j > 0 {
                            assert(ts[j] == rest[j - 1]);
                        }
                        if i > 0 {
                            assert(ts[i] == rest[i - 1]);
                        }
                    }
                    assert forall|i: int| 0 <= i < ts.len() implies line <= #[trigger] ts[i].line by {
                        if i > 0 {
                            assert(ts[i] == rest[i - 1]);
                        }
                    }
                }
            },
            Step::Fail { .. } => {},
        }
    }
}

/// Line numbers never decrease along the tokens of a text.
pub proof fn law_lines_nondecreasing(src: Seq<char>)
    ensures
        lex(src) is Ok ==> lines_nondecreasing(lex(src)->Ok_0),
{
    lemma_lex_from_lines_nondecreasing(src, 0, 1);
}

} // verus!
