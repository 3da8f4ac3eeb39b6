//! Tokens, their kinds, the literal values they carry and the reserved words.
use vstd::prelude::*;

verus! {

/// The closed set of lexical categories.
#[derive(Debug, Clone, Copy, PartialEq, Eq, Structural)]
pub enum TokenType {
    // Single character tokens.
    LeftParen,
    RightParen,
    LeftBrace,
    RightBrace,
    Comma,
    Dot,
    Minus,
    Plus,
    Star,
    SemiColon,
    Slash,
    // One or two character tokens.
    Bang,
    BangEqual,
    Equal,
    EqualEqual,
    Greater,
    GreaterEqual,
    Less,
    LessEqual,
    // Literals.
    Identifier,
    Str,
    Number,
    // End of input.
    Eof,
    // Keywords.
    Wapis,  // return
    Likho,  // print
    Khali,  // nil
    Maanlo,  // var
    Jabtak,  // while
    Kaam,  // function
    Ghalat,  // false
    Sahi,  // true
    Agar,  // if
    Warna,  // else
    Ya,  // or
    Aur,  // and
}

/// ASCII decimal digit.
pub open spec fn spec_is_digit(ch: char) -> bool {
    '0' <= ch && ch <= '9'
}

/// ASCII letter or underscore: what may start an identifier.
pub open spec fn spec_is_alpha(ch: char) -> bool {
    ('a' <= ch && ch <= 'z') || ('A' <= ch && ch <= 'Z') || ch == '_'
}

pub open spec fn spec_is_alpha_numeric(ch: char) -> bool {
    spec_is_alpha(ch) || spec_is_digit(ch)
}

pub fn is_digit(ch: char) -> (r: bool)
    ensures
        r == spec_is_digit(ch),
{
    '0' <= ch && ch <= '9'
}

pub fn is_alpha(ch: char) -> (r: bool)
    ensures
        r == spec_is_alpha(ch),
{
    ('a' <= ch && ch <= 'z') || ('A' <= ch && ch <= 'Z') || ch == '_'
}

pub fn is_alpha_numeric(ch: char) -> (r: bool)
    ensures
        r == spec_is_alpha_numeric(ch),
{
    is_alpha(ch) || is_digit(ch)
}

/// The reserved words, by exact spelling.
pub open spec fn keyword_kind(w: Seq<char>) -> Option<TokenType> {
    if w == seq!['w', 'a', 'p', 'i', 's'] {
        Some(TokenType::Wapis)
    } else if w == seq!['l', 'i', 'k', 'h', 'o'] {
        Some(TokenType::Likho)
    } else if w == seq!['k', 'h', 'a', 'l', 'i'] {
        Some(TokenType::Khali)
    } else if w == seq!['m', 'a', 'a', 'n', 'l', 'o'] {
        Some(TokenType::Maanlo)
    } else if w == seq!['j', 'a', 'b', 't', 'a', 'k'] {
        Some(TokenType::Jabtak)
    } else if w == seq!['k', 'a', 'a', 'm'] {
        Some(TokenType::Kaam)
    } else if w == seq!['g', 'h', 'a', 'l', 'a', 't'] {
        Some(TokenType::Ghalat)
    } else if w == seq!['s', 'a', 'h', 'i'] {
        Some(TokenType::Sahi)
    } else if w == seq!['a', 'g', 'a', 'r'] {
        Some(TokenType::Agar)
    } else if w == seq!['w', 'a', 'r', 'n', 'a'] {
        Some(TokenType::Warna)
    } else if w == seq!['y', 'a'] {
        Some(TokenType::Ya)
    } else if w == seq!['a', 'u', 'r'] {
        Some(TokenType::Aur)
    } else {
        None
    }
}

/// Every entry of the table is a reserved word with its kind, and every
/// reserved word has an entry.
pub open spec fn is_keyword_table(t: Seq<(String, TokenType)>) -> bool {
    &&& forall|i: int| 0 <= i < t.len() ==> keyword_kind(#[trigger] t[i].0@) == Some(t[i].1)
    &&& forall|w: Seq<char>|
        keyword_kind(w) is Some ==> exists|i: int| 0 <= i < t.len() && #[trigger] t[i].0@ == w
}

fn entry(w: &str, k: TokenType) -> (r: (String, TokenType))
    ensures
        r.0@ == w@,
        r.1 == k,
{
    (w.to_owned(), k)
}

/// The keyword table: each reserved spelling with its token kind.
pub fn get_keywords() -> (r: Vec<(String, TokenType)>)
    ensures
        is_keyword_table(r@),
{
    let r = vec![
        entry("wapis", TokenType::Wapis),
        entry("likho", TokenType::Likho),
        entry("khali", TokenType::Khali),
        entry("maanlo", TokenType::Maanlo),
        entry("jabtak", TokenType::Jabtak),
        entry("kaam", TokenType::Kaam),
        entry("ghalat", TokenType::Ghalat),
        entry("sahi", TokenType::Sahi),
        entry("agar", TokenType::Agar),
        entry("warna", TokenType::Warna),
        entry("ya", TokenType::Ya),
        entry("aur", TokenType::Aur),
    ];
    proof {
        reveal_strlit("wapis");
        reveal_strlit("likho");
        reveal_strlit("khali");
        reveal_strlit("maanlo");
        reveal_strlit("jabtak");
        reveal_strlit("kaam");
        reveal_strlit("ghalat");
        reveal_strlit("sahi");
        reveal_strlit("agar");
        reveal_strlit("warna");
        reveal_strlit("ya");
        reveal_strlit("aur");
        assert(r@[0].0@ =~= seq!['w', 'a', 'p', 'i', 's']);
        assert(r@[1].0@ =~= seq!['l', 'i', 'k', 'h', 'o']);
        assert(r@[2].0@ =~= seq!['k', 'h', 'a', 'l', 'i']);
        assert(r@[3].0@ =~= seq!['m', 'a', 'a', 'n', 'l', 'o']);
        assert(r@[4].0@ =~= seq!['j', 'a', 'b', 't', 'a', 'k']);
        assert(r@[5].0@ =~= seq!['k', 'a', 'a', 'm']);
        assert(r@[6].0@ =~= seq!['g', 'h', 'a', 'l', 'a', 't']);
        assert(r@[7].0@ =~= seq!['s', 'a', 'h', 'i']);
        assert(r@[8].0@ =~= seq!['a', 'g', 'a', 'r']);
        assert(r@[9].0@ =~= seq!['w', 'a', 'r', 'n', 'a']);
        assert(r@[10].0@ =~= seq!['y', 'a']);
        assert(r@[11].0@ =~= seq!['a', 'u', 'r']);
        assert forall|w: Seq<char>| keyword_kind(w) is Some implies exists|i: int|
            0 <= i < r@.len() && #[trigger] r@[i].0@ == w by {
            if w == r@[0].0@ {} else if w == r@[1].0@ {} else if w == r@[2].0@ {}
            else if w == r@[3].0@ {} else if w == r@[4].0@ {} else if w == r@[5].0@ {}
            else if w == r@[6].0@ {} else if w == r@[7].0@ {} else if w == r@[8].0@ {}
            else if w == r@[9].0@ {} else if w == r@[10].0@ {} else {
                assert(w == r@[11].0@);
            }
        }
    }
    r
}

/// The kind of a word made of letters, digits and underscores: its reserved
/// kind when it is spelled exactly as a keyword, else `Identifier`.
pub fn word_kind(keywords: &Vec<(String, TokenType)>, w: &String) -> (r: TokenType)
    requires
        is_keyword_table(keywords@),
    ensures
        r == (match keyword_kind(w@) {
            Some(k) => k,
            None => TokenType::Identifier,
        }),
{
    let mut i: usize = 0;
    while i < keywords.len()
        invariant
            i <= keywords@.len(),
            is_keyword_table(keywords@),
            forall|j: int| 0 <= j < i ==> keywords@[j].0@ != w@,
        decreases keywords@.len() - i,
    {
        if keywords[i].0 == *w {
            return keywords[i].1;
        }
        i = i + 1;
    }
    TokenType::Identifier
}

/// The value a literal token carries: a number, kept as its decimal
/// spelling, or the text between the quotes of a string.
#[derive(Debug, Clone)]
pub enum Object {
    NumValue(String),
    StrValue(String),
}

pub enum ObjectModel {
    Num(Seq<char>),
    Str(Seq<char>),
}

impl View for Object {
    type V = ObjectModel;

    open spec fn view(&self) -> ObjectModel {
        match self {
            Object::NumValue(s) => ObjectModel::Num(s@),
            Object::StrValue(s) => ObjectModel::Str(s@),
        }
    }
}

pub open spec fn option_object_view(o: Option<Object>) -> Option<ObjectModel> {
    match o {
        Some(v) => Some(v@),
        None => None,
    }
}

impl Object {
    pub fn duplicate(&self) -> (r: Object)
        ensures
            r@ == self@,
    {
        match self {
            Object::NumValue(s) => Object::NumValue(s.clone()),
            Object::StrValue(s) => Object::StrValue(s.clone()),
        }
    }
}

/// One lexical unit: its kind, the exact source text, the literal value for
/// strings and numbers, and the 1-based line where it starts.
#[derive(Debug, Clone)]
pub struct Token {
    pub token_type: TokenType,
    pub lexeme: String,
    pub literal: Option<Object>,
    pub line_number: usize,
}

pub struct TokenModel {
    pub kind: TokenType,
    pub lexeme: Seq<char>,
    pub literal: Option<ObjectModel>,
    pub line: nat,
}

impl View for Token {
    type V = TokenModel;

    open spec fn view(&self) -> TokenModel {
        TokenModel {
            kind: self.token_type,
            lexeme: self.lexeme@,
            literal: option_object_view(self.literal),
            line: self.line_number as nat,
        }
    }
}

pub open spec fn tokens_view(ts: Seq<Token>) -> Seq<TokenModel> {
    ts.map_values(|t: Token| t@)
}

impl Token {
    pub fn new(
        token_type: TokenType,
        lexeme: String,
        literal: Option<Object>,
        line_number: usize,
    ) -> (r: Self)
        ensures
            r.token_type == token_type,
            r.lexeme == lexeme,
            r.literal == literal,
            r.line_number == line_number,
    {
        Self { token_type, lexeme, literal, line_number }
    }

    pub fn duplicate(&self) -> (r: Token)
        ensures
            r@ == self@,
    {
        let literal = match &self.literal {
            Some(v) => Some(v.duplicate()),
            None => None,
        };
        Token {
            token_type: self.token_type,
            lexeme: self.lexeme.clone(),
            literal,
            line_number: self.line_number,
        }
    }
}

} // verus!
