//! The expression tree and its fully parenthesized rendering.
use vstd::prelude::*;
use crate::token::{Token, TokenModel};

verus! {

/// A literal value. A number is kept as its decimal spelling.
#[derive(Debug)]
pub enum LiteralValue {
    Number(String),
    Str(String),
    Sahi,
    Ghalat,
    Khali,
}

pub enum LiteralModel {
    Number(Seq<char>),
    Str(Seq<char>),
    Sahi,
    Ghalat,
    Khali,
}

impl View for LiteralValue {
    type V = LiteralModel;

    open spec fn view(&self) -> LiteralModel {
        match self {
            LiteralValue::Number(s) => LiteralModel::Number(s@),
            LiteralValue::Str(s) => LiteralModel::Str(s@),
            LiteralValue::Sahi => LiteralModel::Sahi,
            LiteralValue::Ghalat => LiteralModel::Ghalat,
            LiteralValue::Khali => LiteralModel::Khali,
        }
    }
}

/// An expression; each node owns its children.
#[derive(Debug)]
pub enum Expr {
    Binary { left: Box<Expr>, operator: Token, right: Box<Expr> },
    Grouping { expression: Box<Expr> },
    Literal { value: LiteralValue },
    Unary { operator: Token, right: Box<Expr> },
}

pub enum ExprModel {
    Binary { left: Box<ExprModel>, operator: TokenModel, right: Box<ExprModel> },
    Grouping { expression: Box<ExprModel> },
    Literal { value: LiteralModel },
    Unary { operator: TokenModel, right: Box<ExprModel> },
}

pub open spec fn expr_view(e: Expr) -> ExprModel
    decreases e,
{
    match e {
        Expr::Binary { left, operator, right } => ExprModel::Binary {
            left: Box::new(expr_view(*left)),
            operator: operator@,
            right: Box::new(expr_view(*right)),
        },
        Expr::Grouping { expression } => ExprModel::Grouping {
            expression: Box::new(expr_view(*expression)),
        },
        Expr::Literal { value } => ExprModel::Literal { value: value@ },
        Expr::Unary { operator, right } => ExprModel::Unary {
            operator: operator@,
            right: Box::new(expr_view(*right)),
        },
    }
}

impl View for Expr {
    type V = ExprModel;

    open spec fn view(&self) -> ExprModel {
        expr_view(*self)
    }
}

/// Whether the spelling holds a `.`.
pub open spec fn has_dot(t: Seq<char>) -> bool {
    exists|i: int| 0 <= i < t.len() && t[i] == '.'
}

/// Drops the zeros that end a fraction, then a `.` with no digit left after it.
pub open spec fn trim_fraction(t: Seq<char>) -> Seq<char>
    decreases t.len(),
{
    if t.len() > 0 && has_dot(t) && t.last() == '0' {
        trim_fraction(t.drop_last())
    } else if t.len() > 0 && t.last() == '.' {
        t.drop_last()
    } else {
        t
    }
}

/// Drops leading zeros of the whole part, keeping one before a `.` or alone.
pub open spec fn trim_leading(t: Seq<char>) -> Seq<char>
    decreases t.len(),
{
    if t.len() >= 2 && t[0] == '0' && t[1] != '.' {
        trim_leading(t.drop_first())
    } else {
        t
    }
}

/// The decimal form of a number: no leading zeros, no trailing fraction zeros.
pub open spec fn number_text(t: Seq<char>) -> Seq<char> {
    trim_leading(trim_fraction(t))
}

pub open spec fn literal_text(v: LiteralModel) -> Seq<char> {
    match v {
        LiteralModel::Number(t) => number_text(t),
        LiteralModel::Str(s) => s,
        LiteralModel::Sahi => "sahi"@,
        LiteralModel::Ghalat => "ghalat"@,
        LiteralModel::Khali => "khali"@,
    }
}

/// The fully parenthesized rendering of an expression.
pub open spec fn expr_text(e: ExprModel) -> Seq<char>
    decreases e,
{
    match e {
        ExprModel::Binary { left, operator, right } => "("@ + operator.lexeme + " "@ + expr_text(
            *left,
        ) + " "@ + expr_text(*right) + ")"@,
        ExprModel::Grouping { expression } => "(group "@ + expr_text(*expression) + ")"@,
        ExprModel::Literal { value } => literal_text(value),
        ExprModel::Unary { operator, right } => "("@ + operator.lexeme + " "@ + expr_text(*right)
            + ")"@,
    }
}

/// The decimal form of a number spelling.
fn number_string(t: &String) -> (r: String)
    ensures
        r@ == number_text(t@),
{
    let s = t.as_str();
    let n = s.unicode_len();
    let mut dot = false;
    let mut i: usize = 0;
    while i < n
        invariant
            n == t@.len(),
            s@ == t@,
            i <= n,
            dot == exists|j: int| 0 <= j < i && t@[j] == '.',
        decreases n - i,
    {
        if s.get_char(i) == '.' {
            dot = true;
        }
        i = i + 1;
    }
    let mut hi: usize = n;
    assert(t@.take(n as int) =~= t@);
    while hi > 0 && dot && s.get_char(hi - 1) == '0'
        invariant
            n == t@.len(),
            s@ == t@,
            hi <= n,
            dot == has_dot(t@.take(hi as int)),
            trim_fraction(t@) == trim_fraction(t@.take(hi as int)),
        decreases hi,
    {
        let ghost u = t@.take(hi as int);
        proof {
            assert(u.drop_last() =~= t@.take(hi - 1));
            if has_dot(u) {
                let j = choose|j: int| 0 <= j < u.len() && u[j] == '.';
                assert(u[hi - 1] == '0');
                assert(j < hi - 1);
                assert(t@.take(hi - 1)[j] == '.');
            }
        }
        hi = hi - 1;
    }
    if hi > 0 && s.get_char(hi - 1) == '.' {
        proof {
            assert(t@.take(hi as int).drop_last() =~= t@.take(hi - 1));
        }
        hi = hi - 1;
    }
    let ghost f = trim_fraction(t@);
    assert(f =~= t@.take(hi as int));
    let mut lo: usize = 0;
    while hi - lo >= 2 && s.get_char(lo) == '0' && s.get_char(lo + 1) != '.'
        invariant
            n == t@.len(),
            s@ == t@,
            lo <= hi <= n,
            trim_leading(f) == trim_leading(t@.subrange(lo as int, hi as int)),
        decreases hi - lo,
    {
        proof {
            assert(t@.subrange(lo as int, hi as int).drop_first() =~= t@.subrange(lo + 1, hi as int));
        }
        lo = lo + 1;
    }
    s.substring_char(lo, hi).to_owned()
}

impl LiteralValue {
    /// The literal's text: a number in decimal form, a string as it is, a
    /// boolean or nil as its keyword.
    pub fn to_string(&self) -> (r: String)
        ensures
            r@ == literal_text(self@),
    {
        match self {
            LiteralValue::Number(x) => number_string(x),
            LiteralValue::Str(x) => x.clone(),
            LiteralValue::Sahi => "sahi".to_owned(),
            LiteralValue::Ghalat => "ghalat".to_owned(),
            LiteralValue::Khali => "khali".to_owned(),
        }
    }
}

impl Expr {
    /// The fully parenthesized rendering.
    pub fn to_string(&self) -> (r: String)
        ensures
            r@ == expr_text(self@),
        decreases self,
    {
        match self {
            Expr::Binary { left, operator, right } => {
                let mut s = "(".to_owned();
                s.append(operator.lexeme.as_str());
                s.append(" ");
                s.append(left.to_string().as_str());
                s.append(" ");
                s.append(right.to_string().as_str());
                s.append(")");
                s
            },
            Expr::Grouping { expression } => {
                let mut s = "(group ".to_owned();
                s.append(expression.to_string().as_str());
                s.append(")");
                s
            },
            Expr::Literal { value } => value.to_string(),
            Expr::Unary { operator, right } => {
                let mut s = "(".to_owned();
                s.append(operator.lexeme.as_str());
                s.append(" ");
                s.append(right.to_string().as_str());
                s.append(")");
                s
            },
        }
    }
}

} // verus!
