use vstd::prelude::*;
use vstd::string::StringExecFns;

verus! {

/// The closed set of token kinds. The literal kinds carry the literal's
/// text: a string carries what stands between its quotes, a number its
/// decimal digits as they were written.
#[derive(Debug, Clone, Copy, PartialEq)]
pub enum TokenType<'a> {
    LeftParen,
    RightParen,
    LeftBrace,
    RightBrace,
    Comma,
    Dot,
    SemiColon,
    Minus,
    Plus,
    Slash,
    Star,
    Question,
    Colon,
    NewLine,
    Not,
    NotEqual,
    Equal,
    EqualEqual,
    Greater,
    GreaterEqual,
    Less,
    LessEqual,
    Identifier,
    String(&'a str),
    Number(&'a str),
    And,
    For,
    If,
    Else,
    While,
    Class,
    Nil,
    Or,
    False,
    True,
    Var,
    Print,
    Return,
    This,
    Super,
    Eof,
}

/// A token kind as a mathematical value: the same variants, with the text
/// of a literal as a sequence of characters.
pub enum Kind {
    LeftParen,
    RightParen,
    LeftBrace,
    RightBrace,
    Comma,
    Dot,
    SemiColon,
    Minus,
    Plus,
    Slash,
    Star,
    Question,
    Colon,
    NewLine,
    Not,
    NotEqual,
    Equal,
    EqualEqual,
    Greater,
    GreaterEqual,
    Less,
    LessEqual,
    Identifier,
    String(Seq<char>),
    Number(Seq<char>),
    And,
    For,
    If,
    Else,
    While,
    Class,
    Nil,
    Or,
    False,
    True,
    Var,
    Print,
    Return,
    This,
    Super,
    Eof,
}

impl<'a> View for TokenType<'a> {
    type V = Kind;

    open spec fn view(&self) -> Kind {
        match *self {
            TokenType::LeftParen => Kind::LeftParen,
            TokenType::RightParen => Kind::RightParen,
            TokenType::LeftBrace => Kind::LeftBrace,
            TokenType::RightBrace => Kind::RightBrace,
            TokenType::Comma => Kind::Comma,
            TokenType::Dot => Kind::Dot,
            TokenType::SemiColon => Kind::SemiColon,
            TokenType::Minus => Kind::Minus,
            TokenType::Plus => Kind::Plus,
            TokenType::Slash => Kind::Slash,
            TokenType::Star => Kind::Star,
            TokenType::Question => Kind::Question,
            TokenType::Colon => Kind::Colon,
            TokenType::NewLine => Kind::NewLine,
            TokenType::Not => Kind::Not,
            TokenType::NotEqual => Kind::NotEqual,
            TokenType::Equal => Kind::Equal,
            TokenType::EqualEqual => Kind::EqualEqual,
            TokenType::Greater => Kind::Greater,
            TokenType::GreaterEqual => Kind::GreaterEqual,
            TokenType::Less => Kind::Less,
            TokenType::LessEqual => Kind::LessEqual,
            TokenType::Identifier => Kind::Identifier,
            TokenType::String(text) => Kind::String(text@),
            TokenType::Number(text) => Kind::Number(text@),
            TokenType::And => Kind::And,
            TokenType::For => Kind::For,
            TokenType::If => Kind::If,
            TokenType::Else => Kind::Else,
            TokenType::While => Kind::While,
            TokenType::Class => Kind::Class,
            TokenType::Nil => Kind::Nil,
            TokenType::Or => Kind::Or,
            TokenType::False => Kind::False,
            TokenType::True => Kind::True,
            TokenType::Var => Kind::Var,
            TokenType::Print => Kind::Print,
            TokenType::Return => Kind::Return,
            TokenType::This => Kind::This,
            TokenType::Super => Kind::Super,
            TokenType::Eof => Kind::Eof,
        }
    }
}

/// How a kind is written in source text. A string is written between
/// quotes and a number by its digits; an identifier carries no name, so it
/// is written as the name of its kind.
pub open spec fn spelling(kind: Kind) -> Seq<char> {
    match kind {
        Kind::LeftParen => "("@,
        Kind::RightParen => ")"@,
        Kind::LeftBrace => "{"@,
        Kind::RightBrace => "}"@,
        Kind::Comma => ","@,
        Kind::Dot => "."@,
        Kind::SemiColon => ";"@,
        Kind::Minus => "-"@,
        Kind::Plus => "+"@,
        Kind::Slash => "/"@,
        Kind::Star => "*"@,
        Kind::Question => "?"@,
        Kind::Colon => ":"@,
        Kind::NewLine => "\n"@,
        Kind::Not => "!"@,
        Kind::NotEqual => "!="@,
        Kind::Equal => "="@,
        Kind::EqualEqual => "=="@,
        Kind::Greater => ">"@,
        Kind::GreaterEqual => ">="@,
        Kind::Less => "<"@,
        Kind::LessEqual => "<="@,
        Kind::Identifier => "Identifier"@,
        Kind::String(text) => "\""@ + text + "\""@,
        Kind::Number(text) => text,
        Kind::And => "and"@,
        Kind::For => "for"@,
        Kind::If => "if"@,
        Kind::Else => "else"@,
        Kind::While => "while"@,
        Kind::Class => "class"@,
        Kind::Nil => "nil"@,
        Kind::Or => "or"@,
        Kind::False => "false"@,
        Kind::True => "true"@,
        Kind::Var => "var"@,
        Kind::Print => "print"@,
        Kind::Return => "return"@,
        Kind::This => "this"@,
        Kind::Super => "super"@,
        Kind::Eof => ""@,
    }
}

/// The keyword that `text` spells, if it spells one.
pub open spec fn keyword(text: Seq<char>) -> Option<Kind> {
    if text == "and"@ {
        Some(Kind::And)
    } else if text == "or"@ {
        Some(Kind::Or)
    } else if text == "for"@ {
        Some(Kind::For)
    } else if text == "if"@ {
        Some(Kind::If)
    } else if text == "else"@ {
        Some(Kind::Else)
    } else if text == "while"@ {
        Some(Kind::While)
    } else if text == "nil"@ {
        Some(Kind::Nil)
    } else if text == "class"@ {
        Some(Kind::Class)
    } else if text == "return"@ {
        Some(Kind::Return)
    } else if text == "super"@ {
        Some(Kind::Super)
    } else if text == "var"@ {
        Some(Kind::Var)
    } else if text == "print"@ {
        Some(Kind::Print)
    } else if text == "this"@ {
        Some(Kind::This)
    } else if text == "true"@ {
        Some(Kind::True)
    } else if text == "false"@ {
        Some(Kind::False)
    } else {
        None
    }
}

/// Whether `kind` is one of the fifteen keywords.
pub open spec fn is_keyword(kind: Kind) -> bool {
    kind == Kind::And || kind == Kind::Or || kind == Kind::For || kind == Kind::If || kind
        == Kind::Else || kind == Kind::While || kind == Kind::Nil || kind == Kind::Class || kind
        == Kind::Return || kind == Kind::Super || kind == Kind::Var || kind == Kind::Print || kind
        == Kind::This || kind == Kind::True || kind == Kind::False
}

/// Each keyword is the keyword that its spelling spells, and nothing but a
/// keyword is spelled by a text.
pub proof fn lemma_keyword_spelled(kind: Kind, text: Seq<char>)
    ensures
        is_keyword(kind) ==> keyword(spelling(kind)) == Some(kind),
        keyword(text) matches Some(word) ==> is_keyword(word) && spelling(word) == text,
{
    reveal_strlit("and");
    reveal_strlit("or");
    reveal_strlit("for");
    reveal_strlit("if");
    reveal_strlit("else");
    reveal_strlit("while");
    reveal_strlit("nil");
    reveal_strlit("class");
    reveal_strlit("return");
    reveal_strlit("super");
    reveal_strlit("var");
    reveal_strlit("print");
    reveal_strlit("this");
    reveal_strlit("true");
    reveal_strlit("false");
    assert("and"@.len() == 3);
    assert("or"@.len() == 2);
    assert("for"@.len() == 3);
    assert("if"@.len() == 2);
    assert("else"@.len() == 4);
    assert("while"@.len() == 5);
    assert("nil"@.len() == 3);
    assert("class"@.len() == 5);
    assert("return"@.len() == 6);
    assert("super"@.len() == 5);
    assert("var"@.len() == 3);
    assert("print"@.len() == 5);
    assert("this"@.len() == 4);
    assert("true"@.len() == 4);
    assert("false"@.len() == 5);
    assert("for"@ != "and"@) by {
        assert("for"@[0] != "and"@[0]);
    }
    assert("if"@ != "or"@) by {
        assert("if"@[0] != "or"@[0]);
    }
    assert("nil"@ != "and"@) by {
        assert("nil"@[0] != "and"@[0]);
    }
    assert("nil"@ != "for"@) by {
        assert("nil"@[0] != "for"@[0]);
    }
    assert("class"@ != "while"@) by {
        assert("class"@[0] != "while"@[0]);
    }
    assert("super"@ != "while"@) by {
        assert("super"@[0] != "while"@[0]);
    }
    assert("super"@ != "class"@) by {
        assert("super"@[0] != "class"@[0]);
    }
    assert("var"@ != "and"@) by {
        assert("var"@[0] != "and"@[0]);
    }
    assert("var"@ != "for"@) by {
        assert("var"@[0] != "for"@[0]);
    }
    assert("var"@ != "nil"@) by {
        assert("var"@[0] != "nil"@[0]);
    }
    assert("print"@ != "while"@) by {
        assert("print"@[0] != "while"@[0]);
    }
    assert("print"@ != "class"@) by {
        assert("print"@[0] != "class"@[0]);
    }
    assert("print"@ != "super"@) by {
        assert("print"@[0] != "super"@[0]);
    }
    assert("this"@ != "else"@) by {
        assert("this"@[0] != "else"@[0]);
    }
    assert("true"@ != "else"@) by {
        assert("true"@[0] != "else"@[0]);
    }
    assert("true"@ != "this"@) by {
        assert("true"@[1] != "this"@[1]);
    }
    assert("false"@ != "while"@) by {
        assert("false"@[0] != "while"@[0]);
    }
    assert("false"@ != "class"@) by {
        assert("false"@[0] != "class"@[0]);
    }
    assert("false"@ != "super"@) by {
        assert("false"@[0] != "super"@[0]);
    }
    assert("false"@ != "print"@) by {
        assert("false"@[0] != "print"@[0]);
    }
}

impl<'a> TokenType<'a> {
    /// The kind as it is written in source text.
    pub fn text(&self) -> (out: String)
        ensures
            out@ == spelling(self@),
    {
        match *self {
            TokenType::LeftParen => String::from_str("("),
            TokenType::RightParen => String::from_str(")"),
            TokenType::LeftBrace => String::from_str("{"),
            TokenType::RightBrace => String::from_str("}"),
            TokenType::Comma => String::from_str(","),
            TokenType::Dot => String::from_str("."),
            TokenType::SemiColon => String::from_str(";"),
            TokenType::Minus => String::from_str("-"),
            TokenType::Plus => String::from_str("+"),
            TokenType::Slash => String::from_str("/"),
            TokenType::Star => String::from_str("*"),
            TokenType::Question => String::from_str("?"),
            TokenType::Colon => String::from_str(":"),
            TokenType::NewLine => String::from_str("\n"),
            TokenType::Not => String::from_str("!"),
            TokenType::NotEqual => String::from_str("!="),
            TokenType::Equal => String::from_str("="),
            TokenType::EqualEqual => String::from_str("=="),
            TokenType::Greater => String::from_str(">"),
            TokenType::GreaterEqual => String::from_str(">="),
            TokenType::Less => String::from_str("<"),
            TokenType::LessEqual => String::from_str("<="),
            TokenType::Identifier => String::from_str("Identifier"),
            TokenType::String(text) => {
                let mut out = String::from_str("\"");
                out.append(text);
                out.append("\"");
                out
            },
            TokenType::Number(text) => String::from_str(text),
            TokenType::And => String::from_str("and"),
            TokenType::For => String::from_str("for"),
            TokenType::If => String::from_str("if"),
            TokenType::Else => String::from_str("else"),
            TokenType::While => String::from_str("while"),
            TokenType::Class => String::from_str("class"),
            TokenType::Nil => String::from_str("nil"),
            TokenType::Or => String::from_str("or"),
            TokenType::False => String::from_str("false"),
            TokenType::True => String::from_str("true"),
            TokenType::Var => String::from_str("var"),
            TokenType::Print => String::from_str("print"),
            TokenType::Return => String::from_str("return"),
            TokenType::This => String::from_str("this"),
            TokenType::Super => String::from_str("super"),
            TokenType::Eof => String::from_str(""),
        }
    }
}

/// A token as a mathematical value.
pub struct TokenView {
    pub kind: Kind,
    pub lexeme: Seq<char>,
    pub line: nat,
}

/// A classified, line-tagged unit of source text.
#[derive(Debug, PartialEq, Copy, Clone)]
pub struct Token<'a> {
    pub token_type: TokenType<'a>,
    pub lexeme: &'a str,
    pub line: usize,
}

impl<'a> View for Token<'a> {
    type V = TokenView;

    open spec fn view(&self) -> TokenView {
        TokenView { kind: self.token_type@, lexeme: self.lexeme@, line: self.line as nat }
    }
}

/// The tokens of `tokens` as mathematical values, in order.
pub open spec fn views(tokens: Seq<Token>) -> Seq<TokenView> {
    Seq::new(tokens.len(), |i: int| tokens[i]@)
}

impl<'a> Token<'a> {
    /// The token of kind `token_type` with the lexeme `lexeme` on line `line`.
    pub fn new(token_type: TokenType<'a>, lexeme: &'a str, line: usize) -> (token: Self)
        ensures
            token.token_type == token_type,
            token.lexeme == lexeme,
            token.line == line,
    {
        Token { token_type, lexeme, line }
    }
}

} // verus!
