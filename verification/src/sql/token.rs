//! The tokens of SQL text.

use vstd::prelude::*;

use crate::text::{lowered, same_lowered};

verus! {

#[derive(Debug, Clone, Copy, PartialEq, Eq, Hash, Structural)]
pub enum Keyword {
    Select,
    From,
    Where,
    /// The two words `ORDER BY`.
    OrderBy,
    Limit,
    As,
    Asc,
    Desc,
    And,
    Or,
    Not,
    Is,
    Null,
    True,
    False,
    Cast,
}

/// The keyword that a word is, whatever its case.
pub open spec fn keyword_of(word: Seq<char>) -> Option<Keyword> {
    let w = lowered(word);
    if w == "select"@ {
        Some(Keyword::Select)
    } else if w == "from"@ {
        Some(Keyword::From)
    } else if w == "where"@ {
        Some(Keyword::Where)
    } else if w == "limit"@ {
        Some(Keyword::Limit)
    } else if w == "as"@ {
        Some(Keyword::As)
    } else if w == "asc"@ {
        Some(Keyword::Asc)
    } else if w == "desc"@ {
        Some(Keyword::Desc)
    } else if w == "and"@ {
        Some(Keyword::And)
    } else if w == "or"@ {
        Some(Keyword::Or)
    } else if w == "not"@ {
        Some(Keyword::Not)
    } else if w == "is"@ {
        Some(Keyword::Is)
    } else if w == "null"@ {
        Some(Keyword::Null)
    } else if w == "true"@ {
        Some(Keyword::True)
    } else if w == "false"@ {
        Some(Keyword::False)
    } else if w == "cast"@ {
        Some(Keyword::Cast)
    } else {
        None
    }
}

impl Keyword {
    /// The keyword that a word is, whatever its case.
    pub fn from_str(word: &str) -> (r: Option<Keyword>)
        ensures
            r == keyword_of(word@),
    {
        if same_lowered(word, "select") {
            Some(Keyword::Select)
        } else if same_lowered(word, "from") {
            Some(Keyword::From)
        } else if same_lowered(word, "where") {
            Some(Keyword::Where)
        } else if same_lowered(word, "limit") {
            Some(Keyword::Limit)
        } else if same_lowered(word, "as") {
            Some(Keyword::As)
        } else if same_lowered(word, "asc") {
            Some(Keyword::Asc)
        } else if same_lowered(word, "desc") {
            Some(Keyword::Desc)
        } else if same_lowered(word, "and") {
            Some(Keyword::And)
        } else if same_lowered(word, "or") {
            Some(Keyword::Or)
        } else if same_lowered(word, "not") {
            Some(Keyword::Not)
        } else if same_lowered(word, "is") {
            Some(Keyword::Is)
        } else if same_lowered(word, "null") {
            Some(Keyword::Null)
        } else if same_lowered(word, "true") {
            Some(Keyword::True)
        } else if same_lowered(word, "false") {
            Some(Keyword::False)
        } else if same_lowered(word, "cast") {
            Some(Keyword::Cast)
        } else {
            None
        }
    }

    /// How a keyword is written.
    pub open spec fn spec_name(self) -> Seq<char> {
        match self {
            Keyword::Select => "SELECT"@,
            Keyword::From => "FROM"@,
            Keyword::Where => "WHERE"@,
            Keyword::OrderBy => "ORDER BY"@,
            Keyword::Limit => "LIMIT"@,
            Keyword::As => "AS"@,
            Keyword::Asc => "ASC"@,
            Keyword::Desc => "DESC"@,
            Keyword::And => "AND"@,
            Keyword::Or => "OR"@,
            Keyword::Not => "NOT"@,
            Keyword::Is => "IS"@,
            Keyword::Null => "NULL"@,
            Keyword::True => "TRUE"@,
            Keyword::False => "FALSE"@,
            Keyword::Cast => "CAST"@,
        }
    }

    pub fn name(&self) -> (r: &'static str)
        ensures
            r@ == self.spec_name(),
    {
        match self {
            Keyword::Select => "SELECT",
            Keyword::From => "FROM",
            Keyword::Where => "WHERE",
            Keyword::OrderBy => "ORDER BY",
            Keyword::Limit => "LIMIT",
            Keyword::As => "AS",
            Keyword::Asc => "ASC",
            Keyword::Desc => "DESC",
            Keyword::And => "AND",
            Keyword::Or => "OR",
            Keyword::Not => "NOT",
            Keyword::Is => "IS",
            Keyword::Null => "NULL",
            Keyword::True => "TRUE",
            Keyword::False => "FALSE",
            Keyword::Cast => "CAST",
        }
    }
}

#[derive(Debug, Clone, PartialEq, Eq)]
pub enum Token {
    Keyword(Keyword),
    Identifier(String),
    /// A number as it is written.
    Number(String),
    /// A string without its quotes.
    String(String),
    Plus,
    Minus,
    Star,
    Slash,
    Percent,
    Comma,
    Semicolon,
    Dot,
    LParen,
    RParen,
    Eq,
    NotEq,
    Lt,
    LtEq,
    Gt,
    GtEq,
    Eof,
}

/// The tokens that are always written the same way.
#[derive(Debug, Clone, Copy, PartialEq, Eq, Structural)]
pub enum Mark {
    Plus,
    Minus,
    Star,
    Slash,
    Percent,
    Comma,
    Semicolon,
    Dot,
    LParen,
    RParen,
    Eq,
    NotEq,
    Lt,
    LtEq,
    Gt,
    GtEq,
    Eof,
}

impl Mark {
    /// How a mark is written.
    pub open spec fn spec_text(self) -> Seq<char> {
        match self {
            Mark::Plus => "+"@,
            Mark::Minus => "-"@,
            Mark::Star => "*"@,
            Mark::Slash => "/"@,
            Mark::Percent => "%"@,
            Mark::Comma => ","@,
            Mark::Semicolon => ";"@,
            Mark::Dot => "."@,
            Mark::LParen => "("@,
            Mark::RParen => ")"@,
            Mark::Eq => "="@,
            Mark::NotEq => "<>"@,
            Mark::Lt => "<"@,
            Mark::LtEq => "<="@,
            Mark::Gt => ">"@,
            Mark::GtEq => ">="@,
            Mark::Eof => "EOF"@,
        }
    }

    pub fn text(&self) -> (r: &'static str)
        ensures
            r@ == self.spec_text(),
    {
        match self {
            Mark::Plus => "+",
            Mark::Minus => "-",
            Mark::Star => "*",
            Mark::Slash => "/",
            Mark::Percent => "%",
            Mark::Comma => ",",
            Mark::Semicolon => ";",
            Mark::Dot => ".",
            Mark::LParen => "(",
            Mark::RParen => ")",
            Mark::Eq => "=",
            Mark::NotEq => "<>",
            Mark::Lt => "<",
            Mark::LtEq => "<=",
            Mark::Gt => ">",
            Mark::GtEq => ">=",
            Mark::Eof => "EOF",
        }
    }
}

/// The model of a token.
pub enum TokenView {
    Keyword(Keyword),
    Identifier(Seq<char>),
    Number(Seq<char>),
    String(Seq<char>),
    Mark(Mark),
}

impl TokenView {
    /// A token as messages write it.
    pub open spec fn text(self) -> Seq<char> {
        match self {
            TokenView::Keyword(k) => k.spec_name(),
            TokenView::Identifier(s) => s,
            TokenView::Number(s) => s,
            TokenView::String(s) => s,
            TokenView::Mark(m) => m.spec_text(),
        }
    }
}

impl Token {
    pub open spec fn view(&self) -> TokenView {
        match self {
            Token::Keyword(k) => TokenView::Keyword(*k),
            Token::Identifier(s) => TokenView::Identifier(s@),
            Token::Number(s) => TokenView::Number(s@),
            Token::String(s) => TokenView::String(s@),
            Token::Plus => TokenView::Mark(Mark::Plus),
            Token::Minus => TokenView::Mark(Mark::Minus),
            Token::Star => TokenView::Mark(Mark::Star),
            Token::Slash => TokenView::Mark(Mark::Slash),
            Token::Percent => TokenView::Mark(Mark::Percent),
            Token::Comma => TokenView::Mark(Mark::Comma),
            Token::Semicolon => TokenView::Mark(Mark::Semicolon),
            Token::Dot => TokenView::Mark(Mark::Dot),
            Token::LParen => TokenView::Mark(Mark::LParen),
            Token::RParen => TokenView::Mark(Mark::RParen),
            Token::Eq => TokenView::Mark(Mark::Eq),
            Token::NotEq => TokenView::Mark(Mark::NotEq),
            Token::Lt => TokenView::Mark(Mark::Lt),
            Token::LtEq => TokenView::Mark(Mark::LtEq),
            Token::Gt => TokenView::Mark(Mark::Gt),
            Token::GtEq => TokenView::Mark(Mark::GtEq),
            Token::Eof => TokenView::Mark(Mark::Eof),
        }
    }

    /// The mark that a token is.
    pub fn mark(&self) -> (r: Option<Mark>)
        ensures
            match r {
                Some(m) => self@ == TokenView::Mark(m),
                None => !(self@ is Mark),
            },
    {
        match self {
            Token::Plus => Some(Mark::Plus),
            Token::Minus => Some(Mark::Minus),
            Token::Star => Some(Mark::Star),
            Token::Slash => Some(Mark::Slash),
            Token::Percent => Some(Mark::Percent),
            Token::Comma => Some(Mark::Comma),
            Token::Semicolon => Some(Mark::Semicolon),
            Token::Dot => Some(Mark::Dot),
            Token::LParen => Some(Mark::LParen),
            Token::RParen => Some(Mark::RParen),
            Token::Eq => Some(Mark::Eq),
            Token::NotEq => Some(Mark::NotEq),
            Token::Lt => Some(Mark::Lt),
            Token::LtEq => Some(Mark::LtEq),
            Token::Gt => Some(Mark::Gt),
            Token::GtEq => Some(Mark::GtEq),
            Token::Eof => Some(Mark::Eof),
            _ => None,
        }
    }

    /// Whether a token is a mark.
    pub fn is_mark(&self, m: Mark) -> (r: bool)
        ensures
            r == (self@ == TokenView::Mark(m)),
    {
        match self.mark() {
            Some(own) => own == m,
            None => false,
        }
    }

    /// Whether a token is a keyword.
    pub fn is_keyword(&self, k: Keyword) -> (r: bool)
        ensures
            r == (self@ == TokenView::Keyword(k)),
    {
        match self {
            Token::Keyword(own) => *own == k,
            _ => false,
        }
    }

    /// A token as messages write it.
    pub fn describe(&self) -> (r: String)
        ensures
            r@ == self@.text(),
    {
        match self {
            Token::Keyword(k) => k.name().to_owned(),
            Token::Identifier(s) => s.clone(),
            Token::Number(s) => s.clone(),
            Token::String(s) => s.clone(),
            Token::Plus => "+".to_owned(),
            Token::Minus => "-".to_owned(),
            Token::Star => "*".to_owned(),
            Token::Slash => "/".to_owned(),
            Token::Percent => "%".to_owned(),
            Token::Comma => ",".to_owned(),
            Token::Semicolon => ";".to_owned(),
            Token::Dot => ".".to_owned(),
            Token::LParen => "(".to_owned(),
            Token::RParen => ")".to_owned(),
            Token::Eq => "=".to_owned(),
            Token::NotEq => "<>".to_owned(),
            Token::Lt => "<".to_owned(),
            Token::LtEq => "<=".to_owned(),
            Token::Gt => ">".to_owned(),
            Token::GtEq => ">=".to_owned(),
            Token::Eof => "EOF".to_owned(),
        }
    }
}

} // verus!
