//! CSS tokens and streams of them.
use cssparser::Token::{
    BadString, BadUrl, CloseCurlyBracket, CloseParenthesis, CloseSquareBracket, Colon, Comment,
    CurlyBracketBlock, Function, Ident, ParenthesisBlock, SquareBracketBlock, WhiteSpace,
};
use cssparser::{Parser, ParserInput};
use vstd::prelude::*;
use vstd::string::*;

verus! {

/// The kinds of brackets.
#[derive(Debug, Clone, Copy, PartialEq, Eq, Structural)]
pub enum Bracket {
    Paren,
    Square,
    Curly,
}

/// What a token is, as far as conditions tell tokens apart.
#[derive(Debug)]
pub enum TokenKind {
    /// An identifier, with its unescaped name.
    Ident(String),
    /// A function's name and its opening parenthesis, with the unescaped name.
    Function(String),
    /// An opening bracket.
    Open(Bracket),
    /// A closing bracket.
    Close(Bracket),
    /// A colon.
    Colon,
    /// Whitespace or a comment.
    Space,
    /// A string or a URL that is malformed.
    Bad,
    /// Anything else.
    Other,
}

/// The mathematical form of a [`TokenKind`].
pub enum KindView {
    Ident(Seq<char>),
    Function(Seq<char>),
    Open(Bracket),
    Close(Bracket),
    Colon,
    Space,
    Bad,
    Other,
}

impl View for TokenKind {
    type V = KindView;

    open spec fn view(&self) -> KindView {
        match self {
            TokenKind::Ident(name) => KindView::Ident(name@),
            TokenKind::Function(name) => KindView::Function(name@),
            TokenKind::Open(bracket) => KindView::Open(*bracket),
            TokenKind::Close(bracket) => KindView::Close(*bracket),
            TokenKind::Colon => KindView::Colon,
            TokenKind::Space => KindView::Space,
            TokenKind::Bad => KindView::Bad,
            TokenKind::Other => KindView::Other,
        }
    }
}

/// A token: its kind and its text.
#[derive(Debug)]
pub struct Token {
    pub kind: TokenKind,
    pub text: String,
}

/// The mathematical form of a [`Token`].
pub struct TokenView {
    pub kind: KindView,
    pub text: Seq<char>,
}

impl View for Token {
    type V = TokenView;

    open spec fn view(&self) -> TokenView {
        TokenView { kind: self.kind@, text: self.text@ }
    }
}

impl KindView {
    /// The kind of bracket that a token opens, if it does.
    pub open spec fn opens(self) -> Option<Bracket> {
        match self {
            KindView::Function(_) => Some(Bracket::Paren),
            KindView::Open(bracket) => Some(bracket),
            _ => None,
        }
    }
}

impl TokenKind {
    /// The kind of bracket that the token opens, if it does.
    pub fn opens(&self) -> (r: Option<Bracket>)
        ensures
            r == self@.opens(),
    {
        match self {
            TokenKind::Function(_) => Some(Bracket::Paren),
            TokenKind::Open(bracket) => Some(*bracket),
            _ => None,
        }
    }
}

/// What the tokenizer takes a token for.
#[derive(Debug)]
pub enum RawKind {
    Ident(String),
    Function(String),
    OpenParen,
    CloseParen,
    OpenSquare,
    CloseSquare,
    OpenCurly,
    CloseCurly,
    Colon,
    WhiteSpace,
    Comment,
    BadUrl,
    BadString,
    Other,
}

/// The mathematical form of a [`RawKind`].
pub enum RawView {
    Ident(Seq<char>),
    Function(Seq<char>),
    OpenParen,
    CloseParen,
    OpenSquare,
    CloseSquare,
    OpenCurly,
    CloseCurly,
    Colon,
    WhiteSpace,
    Comment,
    BadUrl,
    BadString,
    Other,
}

impl View for RawKind {
    type V = RawView;

    open spec fn view(&self) -> RawView {
        match self {
            RawKind::Ident(name) => RawView::Ident(name@),
            RawKind::Function(name) => RawView::Function(name@),
            RawKind::OpenParen => RawView::OpenParen,
            RawKind::CloseParen => RawView::CloseParen,
            RawKind::OpenSquare => RawView::OpenSquare,
            RawKind::CloseSquare => RawView::CloseSquare,
            RawKind::OpenCurly => RawView::OpenCurly,
            RawKind::CloseCurly => RawView::CloseCurly,
            RawKind::Colon => RawView::Colon,
            RawKind::WhiteSpace => RawView::WhiteSpace,
            RawKind::Comment => RawView::Comment,
            RawKind::BadUrl => RawView::BadUrl,
            RawKind::BadString => RawView::BadString,
            RawKind::Other => RawView::Other,
        }
    }
}

/// What a token is to conditions: a comment is as good as whitespace, and one malformed token as
/// bad as another.
pub open spec fn kind_of(raw: RawView) -> KindView {
    match raw {
        RawView::Ident(name) => KindView::Ident(name),
        RawView::Function(name) => KindView::Function(name),
        RawView::OpenParen => KindView::Open(Bracket::Paren),
        RawView::CloseParen => KindView::Close(Bracket::Paren),
        RawView::OpenSquare => KindView::Open(Bracket::Square),
        RawView::CloseSquare => KindView::Close(Bracket::Square),
        RawView::OpenCurly => KindView::Open(Bracket::Curly),
        RawView::CloseCurly => KindView::Close(Bracket::Curly),
        RawView::Colon => KindView::Colon,
        RawView::WhiteSpace => KindView::Space,
        RawView::Comment => KindView::Space,
        RawView::BadUrl => KindView::Bad,
        RawView::BadString => KindView::Bad,
        RawView::Other => KindView::Other,
    }
}

impl RawKind {
    /// What the token is to conditions.
    fn kind(self) -> (r: TokenKind)
        ensures
            r@ == kind_of(self@),
    {
        match self {
            RawKind::Ident(name) => TokenKind::Ident(name),
            RawKind::Function(name) => TokenKind::Function(name),
            RawKind::OpenParen => TokenKind::Open(Bracket::Paren),
            RawKind::CloseParen => TokenKind::Close(Bracket::Paren),
            RawKind::OpenSquare => TokenKind::Open(Bracket::Square),
            RawKind::CloseSquare => TokenKind::Close(Bracket::Square),
            RawKind::OpenCurly => TokenKind::Open(Bracket::Curly),
            RawKind::CloseCurly => TokenKind::Close(Bracket::Curly),
            RawKind::Colon => TokenKind::Colon,
            RawKind::WhiteSpace => TokenKind::Space,
            RawKind::Comment => TokenKind::Space,
            RawKind::BadUrl => TokenKind::Bad,
            RawKind::BadString => TokenKind::Bad,
            RawKind::Other => TokenKind::Other,
        }
    }
}

/// The kind of the token that a nonempty text starts with, and the number of its characters.
pub uninterp spec fn css_token(text: Seq<char>) -> (RawView, nat);

/// `cssparser::Parser::next_including_whitespace_and_comments`, called on a new parser of
/// `source`, finds the token that a text starts with. It finds none only in the empty text. A
/// token is a nonempty prefix of the text; which one, and of what kind, depends on the text
/// alone. The token's text and what follows it are returned beside its kind.
#[verifier::external_body]
fn first_token<'a>(source: &'a str) -> (r: Option<(RawKind, &'a str, &'a str)>)
    ensures
        source@.len() == 0 ==> r is None,
        source@.len() > 0 ==> r is Some,
        r matches Some((kind, text, rest)) ==> {
            &&& (kind@, text@.len()) == css_token(source@)
            &&& text@.len() > 0
            &&& source@ == text@ + rest@
        },
{
    let mut input = ParserInput::new(source);
    let mut parser = Parser::new(&mut input);
    let kind = match parser.next_including_whitespace_and_comments().ok()? {
        Ident(name) => RawKind::Ident(name.to_string()),
        Function(name) => RawKind::Function(name.to_string()),
        ParenthesisBlock => RawKind::OpenParen, CloseParenthesis => RawKind::CloseParen,
        SquareBracketBlock => RawKind::OpenSquare, CloseSquareBracket => RawKind::CloseSquare,
        CurlyBracketBlock => RawKind::OpenCurly, CloseCurlyBracket => RawKind::CloseCurly,
        Colon => RawKind::Colon, WhiteSpace(_) => RawKind::WhiteSpace,
        Comment(_) => RawKind::Comment, BadUrl(_) => RawKind::BadUrl,
        BadString(_) => RawKind::BadString, _ => RawKind::Other,
    };
    let (text, rest) = source.split_at(parser.position().byte_index());
    Some((kind, text, rest))
}

/// The tokens that a text is made of.
pub open spec fn tokenize(source: Seq<char>) -> Seq<TokenView>
    decreases source.len(),
{
    let (raw, n) = css_token(source);
    if 0 < n <= source.len() {
        seq![TokenView { kind: kind_of(raw), text: source.take(n as int) }] + tokenize(source.skip(n as int))
    } else {
        Seq::empty()
    }
}

/// The text of the tokens from `start` up to `end`.
pub open spec fn token_text(tokens: Seq<TokenView>, start: int, end: int) -> Seq<char>
    decreases end - start,
{
    if end <= start {
        Seq::empty()
    } else {
        token_text(tokens, start, end - 1) + tokens[end - 1].text
    }
}

/// What each token of a list stands for.
pub open spec fn token_views(tokens: Seq<Token>) -> Seq<TokenView> {
    tokens.map_values(|t: Token| t@)
}

/// A stream of tokens and the place of the next one.
#[derive(Debug)]
pub struct TokenStream {
    pub tokens: Vec<Token>,
    pub position: usize,
}

impl TokenStream {
    /// The place lies in the stream or at its end.
    pub open spec fn wf(self) -> bool {
        self.position <= self.tokens.len()
    }

    /// The tokens of `source`, none of them read yet. Together they are all of the text.
    pub fn new(source: &str) -> (r: TokenStream)
        ensures
            r.wf(),
            r.position == 0,
            token_views(r.tokens@) == tokenize(source@),
            token_text(token_views(r.tokens@), 0, r.tokens.len() as int) == source@,
    {
        let mut tokens: Vec<Token> = Vec::new();
        let mut rest: &str = source;
        proof {
            assert(token_views(tokens@) + tokenize(rest@) =~= tokenize(source@));
            assert(Seq::<char>::empty() + rest@ =~= source@);
        }
        while !rest.is_empty()
            invariant
                token_views(tokens@) + tokenize(rest@) == tokenize(source@),
                token_text(token_views(tokens@), 0, tokens.len() as int) + rest@ == source@,
            decreases rest@.len(),
        {
            let ghost before = tokens@;
            let ghost unread = rest@;
            if let Some((raw, text, left)) = first_token(rest) {
                tokens.push(Token { kind: raw.kind(), text: text.to_owned() });
                rest = left;
                proof {
                    let token = tokens@.last()@;
                    assert(unread.take(text@.len() as int) =~= text@);
                    assert(unread.skip(text@.len() as int) =~= rest@);
                    assert(token_views(tokens@) =~= token_views(before).push(token));
                    assert(token_views(before) + (seq![token] + tokenize(rest@)) =~= token_views(
                        tokens@,
                    ) + tokenize(rest@));
                    lemma_text_of_prefix(
                        token_views(before),
                        token_views(tokens@),
                        0,
                        before.len() as int,
                    );
                    let read = token_text(token_views(before), 0, before.len() as int);
                    assert(read + unread =~= read + text@ + rest@);
                }
            }
        }
        proof {
            lemma_no_tokens(rest@);
            assert(token_views(tokens@) + tokenize(rest@) =~= token_views(tokens@));
            let read = token_text(token_views(tokens@), 0, tokens.len() as int);
            assert(read + rest@ =~= read);
        }
        TokenStream { tokens, position: 0 }
    }
}

/// The empty text has no tokens.
proof fn lemma_no_tokens(source: Seq<char>)
    requires
        source.len() == 0,
    ensures
        tokenize(source) == Seq::<TokenView>::empty(),
{
}

/// The text of tokens is that of the same tokens elsewhere.
proof fn lemma_text_of_prefix(a: Seq<TokenView>, b: Seq<TokenView>, start: int, end: int)
    requires
        0 <= start,
        end <= a.len() <= b.len(),
        forall|i: int| start <= i < end ==> a[i] == b[i],
    ensures
        token_text(a, start, end) == token_text(b, start, end),
    decreases end - start,
{
    if start < end {
        lemma_text_of_prefix(a, b, start, end - 1);
    }
}

} // verus!
