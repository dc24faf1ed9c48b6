//! The tokenizer: identifiers, string literals and punctuation, with white
//! space and comments left out. Every byte string has a token sequence;
//! nothing is an error at this level.
//!
//! A line comment runs from `//` to the end of the line, a block comment
//! from `/*` to the next `*/`; block comments do not nest. A double quote
//! opens a string literal wherever it stands outside a comment, and the
//! next double quote closes it: there are no escapes. What is left open at
//! the end of the text runs to the end.

use vstd::prelude::*;
use crate::bytes::slice_of;
use crate::model::views;

verus! {

// The ASCII codes of the bytes that the lexer and the parser name.
pub const TAB: u8 = 9;
pub const NEWLINE: u8 = 10;
pub const RETURN: u8 = 13;
pub const SPACE: u8 = 32;
pub const QUOTE: u8 = 34;
pub const HASH: u8 = 35;
pub const LPAREN: u8 = 40;
pub const RPAREN: u8 = 41;
pub const STAR: u8 = 42;
pub const COMMA: u8 = 44;
pub const MINUS: u8 = 45;
pub const SLASH: u8 = 47;
pub const COLON: u8 = 58;
pub const LESS: u8 = 60;
pub const GREATER: u8 = 62;
pub const LBRACKET: u8 = 91;
pub const RBRACKET: u8 = 93;
pub const UNDERSCORE: u8 = 95;
pub const LBRACE: u8 = 123;
pub const RBRACE: u8 = 125;

/// What a token holds.
#[derive(Debug, PartialEq, Eq)]
pub enum Lexeme {
    /// A letter or underscore followed by letters, digits and underscores.
    Ident(Vec<u8>),
    /// The bytes between two double quotes.
    Text(Vec<u8>),
    /// Any other byte that is neither white space nor part of a comment.
    Punct(u8),
}

/// A lexeme as a mathematical value.
pub enum LexemeView {
    Ident(Seq<u8>),
    Text(Seq<u8>),
    Punct(u8),
}

impl View for Lexeme {
    type V = LexemeView;

    open spec fn view(&self) -> LexemeView {
        match self {
            Lexeme::Ident(w) => LexemeView::Ident(w@),
            Lexeme::Text(w) => LexemeView::Text(w@),
            Lexeme::Punct(b) => LexemeView::Punct(*b),
        }
    }
}

/// A lexeme and the offset of its first byte in the text.
#[derive(Debug, PartialEq, Eq)]
pub struct Token {
    pub lexeme: Lexeme,
    pub offset: usize,
}

/// A token as a mathematical value.
pub struct TokenView {
    pub lexeme: LexemeView,
    pub offset: int,
}

impl View for Token {
    type V = TokenView;

    open spec fn view(&self) -> TokenView {
        TokenView { lexeme: self.lexeme@, offset: self.offset as int }
    }
}

/// Space, tab, newline and carriage return separate tokens.
pub open spec fn is_space(b: u8) -> bool {
    b == SPACE || b == TAB || b == NEWLINE || b == RETURN
}

/// Letters and the underscore start an identifier.
pub open spec fn is_ident_start(b: u8) -> bool {
    (65 <= b <= 90) || (97 <= b <= 122) || b == UNDERSCORE
}

/// Letters, digits and the underscore continue an identifier.
pub open spec fn is_ident_part(b: u8) -> bool {
    is_ident_start(b) || (48 <= b <= 57)
}

/// The index just past the first newline at or after `i`, or the length of
/// `s` if there is none.
pub open spec fn line_end(s: Seq<u8>, i: int) -> int
    decreases s.len() - i,
{
    if i >= s.len() {
        s.len() as int
    } else if s[i] == NEWLINE {
        i + 1
    } else {
        line_end(s, i + 1)
    }
}

/// The index just past the first `*/` at or after `i`, or the length of `s`
/// if there is none.
pub open spec fn comment_end(s: Seq<u8>, i: int) -> int
    decreases s.len() - i,
{
    if i >= s.len() {
        s.len() as int
    } else if s[i] == STAR && i + 1 < s.len() && s[i + 1] == SLASH {
        i + 2
    } else {
        comment_end(s, i + 1)
    }
}

/// The first index at or after `i` that holds no identifier byte, or the
/// length of `s`.
pub open spec fn ident_end(s: Seq<u8>, i: int) -> int
    decreases s.len() - i,
{
    if i >= s.len() {
        s.len() as int
    } else if !is_ident_part(s[i]) {
        i
    } else {
        ident_end(s, i + 1)
    }
}

/// The first index at or after `i` that holds a double quote, or the length
/// of `s`.
pub open spec fn text_end(s: Seq<u8>, i: int) -> int
    decreases s.len() - i,
{
    if i >= s.len() {
        s.len() as int
    } else if s[i] == QUOTE {
        i
    } else {
        text_end(s, i + 1)
    }
}

/// Each scan ends at or after its start and inside the text.
pub proof fn lemma_scan_bounds(s: Seq<u8>, i: int)
    requires
        0 <= i <= s.len(),
    ensures
        i <= line_end(s, i) <= s.len(),
        i <= comment_end(s, i) <= s.len(),
        i <= ident_end(s, i) <= s.len(),
        i <= text_end(s, i) <= s.len(),
    decreases s.len() - i,
{
    if i < s.len() {
        lemma_scan_bounds(s, i + 1);
    }
}

/// The tokens of `s` from index `i` on.
pub open spec fn tokens_from(s: Seq<u8>, i: int) -> Seq<TokenView>
    decreases s.len() - i,
{
    if i < 0 || i >= s.len() {
        Seq::empty()
    } else if is_space(s[i]) {
        tokens_from(s, i + 1)
    } else if s[i] == SLASH && i + 1 < s.len() && s[i + 1] == SLASH {
        proof {
            lemma_scan_bounds(s, i + 2);
        }
        tokens_from(s, line_end(s, i + 2))
    } else if s[i] == SLASH && i + 1 < s.len() && s[i + 1] == STAR {
        proof {
            lemma_scan_bounds(s, i + 2);
        }
        tokens_from(s, comment_end(s, i + 2))
    } else if is_ident_start(s[i]) {
        proof {
            lemma_scan_bounds(s, i + 1);
        }
        let e = ident_end(s, i + 1);
        seq![TokenView { lexeme: LexemeView::Ident(s.subrange(i, e)), offset: i }] + tokens_from(
            s,
            e,
        )
    } else if s[i] == QUOTE {
        proof {
            lemma_scan_bounds(s, i + 1);
        }
        let e = text_end(s, i + 1);
        seq![TokenView { lexeme: LexemeView::Text(s.subrange(i + 1, e)), offset: i }]
            + tokens_from(s, if e < s.len() { e + 1 } else { e })
    } else {
        seq![TokenView { lexeme: LexemeView::Punct(s[i]), offset: i }] + tokens_from(s, i + 1)
    }
}

/// The tokens of the text `s`.
pub open spec fn tokens(s: Seq<u8>) -> Seq<TokenView> {
    tokens_from(s, 0)
}

fn scan_line(text: &[u8], start: usize) -> (r: usize)
    requires
        start <= text@.len(),
    ensures
        r == line_end(text@, start as int),
        start <= r <= text@.len(),
{
    let mut i: usize = start;
    while i < text.len() && text[i] != NEWLINE
        invariant
            start <= i <= text@.len(),
            line_end(text@, start as int) == line_end(text@, i as int),
        decreases text@.len() - i,
    {
        i += 1;
    }
    if i < text.len() {
        i + 1
    } else {
        i
    }
}

fn scan_comment(text: &[u8], start: usize) -> (r: usize)
    requires
        start <= text@.len(),
    ensures
        r == comment_end(text@, start as int),
        start <= r <= text@.len(),
{
    let mut i: usize = start;
    while i < text.len()
        invariant
            start <= i <= text@.len(),
            comment_end(text@, start as int) == comment_end(text@, i as int),
        decreases text@.len() - i,
    {
        if text[i] == STAR && i + 1 < text.len() && text[i + 1] == SLASH {
            return i + 2;
        }
        i += 1;
    }
    i
}

fn ident_start(b: u8) -> (r: bool)
    ensures
        r == is_ident_start(b),
{
    (65 <= b && b <= 90) || (97 <= b && b <= 122) || b == UNDERSCORE
}

fn scan_ident(text: &[u8], start: usize) -> (r: usize)
    requires
        start <= text@.len(),
    ensures
        r == ident_end(text@, start as int),
        start <= r <= text@.len(),
{
    let mut i: usize = start;
    while i < text.len() && (ident_start(text[i]) || (48 <= text[i] && text[i] <= 57))
        invariant
            start <= i <= text@.len(),
            ident_end(text@, start as int) == ident_end(text@, i as int),
        decreases text@.len() - i,
    {
        i += 1;
    }
    i
}

fn scan_text(text: &[u8], start: usize) -> (r: usize)
    requires
        start <= text@.len(),
    ensures
        r == text_end(text@, start as int),
        start <= r <= text@.len(),
{
    let mut i: usize = start;
    while i < text.len() && text[i] != QUOTE
        invariant
            start <= i <= text@.len(),
            text_end(text@, start as int) == text_end(text@, i as int),
        decreases text@.len() - i,
    {
        i += 1;
    }
    i
}

/// Splits a text into its tokens.
pub fn tokenize(text: &[u8]) -> (r: Vec<Token>)
    ensures
        views(r@) == tokens(text@),
{
    let mut out: Vec<Token> = Vec::new();
    let mut i: usize = 0;
    assert(views(out@) + tokens_from(text@, 0) =~= tokens(text@));
    while i < text.len()
        invariant
            i <= text@.len(),
            views(out@) + tokens_from(text@, i as int) == tokens(text@),
        decreases text@.len() - i,
    {
        let b = text[i];
        let ghost before = views(out@);
        let ghost rest = tokens_from(text@, i as int);
        if b == SPACE || b == TAB || b == NEWLINE || b == RETURN {
            i += 1;
        } else if b == SLASH && i + 1 < text.len() && text[i + 1] == SLASH {
            i = scan_line(text, i + 2);
        } else if b == SLASH && i + 1 < text.len() && text[i + 1] == STAR {
            i = scan_comment(text, i + 2);
        } else if ident_start(b) {
            let e = scan_ident(text, i + 1);
            out.push(Token { lexeme: Lexeme::Ident(slice_of(text, i, e)), offset: i });
            proof {
                let t = TokenView {
                    lexeme: LexemeView::Ident(text@.subrange(i as int, e as int)),
                    offset: i as int,
                };
                assert(views(out@) =~= before.push(t));
                assert(before.push(t) + tokens_from(text@, e as int) =~= before + rest);
            }
            i = e;
        } else if b == QUOTE {
            let e = scan_text(text, i + 1);
            out.push(Token { lexeme: Lexeme::Text(slice_of(text, i + 1, e)), offset: i });
            proof {
                let t = TokenView {
                    lexeme: LexemeView::Text(text@.subrange(i + 1, e as int)),
                    offset: i as int,
                };
                assert(views(out@) =~= before.push(t));
                assert(before.push(t) + tokens_from(text@, if e < text@.len() { e + 1 } else { e as int })
                    =~= before + rest);
            }
            i = if e < text.len() {
                e + 1
            } else {
                e
            };
        } else {
            out.push(Token { lexeme: Lexeme::Punct(b), offset: i });
            proof {
                let t = TokenView { lexeme: LexemeView::Punct(b), offset: i as int };
                assert(views(out@) =~= before.push(t));
                assert(before.push(t) + tokens_from(text@, i + 1) =~= before + rest);
            }
            i += 1;
        }
    }
    assert(views(out@) + tokens_from(text@, i as int) =~= views(out@));
    out
}

} // verus!
