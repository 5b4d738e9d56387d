//! The tokens of a Python source, as the parser reads them.
use rustpython_parser::lexer::lex;
use rustpython_parser::Mode;
use rustpython_parser::Tok;
use vstd::prelude::*;

use crate::text::Text;

verus! {

/// A token of `rustpython_parser`; what it holds is read through `token_tag` and `token_name`.
#[verifier::external_type_specification]
#[verifier::external_body]
pub struct ExTok(rustpython_parser::Tok);

/// The kinds of token that the parser tells apart.
#[derive(Debug, Clone, Copy, PartialEq, Eq, Structural)]
pub enum TokenKindTag {
    Async,
    As,
    Class,
    Colon,
    Comma,
    Dedent,
    Def,
    Dot,
    EndOfFile,
    Equal,
    From,
    Import,
    Indent,
    Lbrace,
    Lpar,
    Lsqb,
    Name,
    Newline,
    Other,
    Rbrace,
    Rpar,
    Rsqb,
}

/// A token: its kind, the identifier where it is one, and the bytes of the source that it covers.
#[derive(Debug)]
pub struct TokenSpan {
    pub kind: TokenKindTag,
    pub name: Option<String>,
    pub start: u32,
    pub end: u32,
}

/// What a token stands for.
pub struct TokenView {
    pub kind: TokenKindTag,
    pub name: Option<Text>,
    pub start: u32,
    pub end: u32,
}

impl DeepView for TokenSpan {
    type V = TokenView;

    open spec fn deep_view(&self) -> TokenView {
        TokenView { kind: self.kind, name: self.name.deep_view(), start: self.start, end: self.end }
    }
}

/// The first `limit` items that `rustpython_parser::lexer::lex` yields for a module: a token with
/// its range, or nothing where it reports an error.
pub uninterp spec fn lexed(source: Text, limit: usize) -> Seq<Option<(Tok, u32, u32)>>;

/// The kind of a `rustpython_parser` token.
pub uninterp spec fn kind_of(token: Tok) -> TokenKindTag;

/// The identifier of a `rustpython_parser` token.
pub uninterp spec fn name_of(token: Tok) -> Option<Text>;

/// Whether a lexer item covers nothing behind the byte offset `length`.
pub open spec fn ends_by(item: Option<(Tok, u32, u32)>, length: nat) -> bool {
    match item {
        Some((_, start, end)) => start <= length && end <= length,
        None => true,
    }
}

/// `rustpython_parser::lexer::lex` in module mode, cut off after `limit` items. The items are a
/// function of the source; no position is behind the end of the source. A source of 4 GiB or more
/// is left out: the lexer counts bytes in 32 bits.
#[verifier::external_body]
fn lex_items(source: &str, limit: usize) -> (items: Vec<Option<(Tok, u32, u32)>>)
    requires
        vstd::utf8::encode_utf8(source@).len() < u32::MAX,
    ensures
        items@ == lexed(source@, limit),
        items@.len() <= limit,
        forall|i: int|
            0 <= i < items@.len() ==> #[trigger] ends_by(
                items@[i],
                vstd::utf8::encode_utf8(source@).len(),
            ),
{
    lex(source, Mode::Module)
        .take(limit)
        .map(|item| item.ok().map(|(token, range)| (token, range.start().into(), range.end().into())))
        .collect()
}

/// Tells the variants of `rustpython_parser::Tok` apart: the kind is a function of the token.
#[verifier::external_body]
fn token_tag(token: &Tok) -> (tag: TokenKindTag)
    ensures
        tag == kind_of(*token),
{
    match token {
        Tok::Async => TokenKindTag::Async, Tok::As => TokenKindTag::As,
        Tok::Class => TokenKindTag::Class, Tok::Colon => TokenKindTag::Colon,
        Tok::Comma => TokenKindTag::Comma, Tok::Dedent => TokenKindTag::Dedent,
        Tok::Def => TokenKindTag::Def, Tok::Dot => TokenKindTag::Dot,
        Tok::EndOfFile => TokenKindTag::EndOfFile, Tok::Equal => TokenKindTag::Equal,
        Tok::From => TokenKindTag::From, Tok::Import => TokenKindTag::Import,
        Tok::Indent => TokenKindTag::Indent, Tok::Lbrace => TokenKindTag::Lbrace,
        Tok::Lpar => TokenKindTag::Lpar, Tok::Lsqb => TokenKindTag::Lsqb,
        Tok::Name { .. } => TokenKindTag::Name, Tok::Newline => TokenKindTag::Newline,
        Tok::Rbrace => TokenKindTag::Rbrace, Tok::Rpar => TokenKindTag::Rpar,
        Tok::Rsqb => TokenKindTag::Rsqb, _ => TokenKindTag::Other,
    }
}

/// The identifier that a `rustpython_parser::Tok::Name` holds, nothing for the other variants; a
/// function of the token.
#[verifier::external_body]
fn token_name(token: &Tok) -> (name: Option<String>)
    ensures
        name.deep_view() == name_of(*token),
{
    match token {
        Tok::Name { name } => Some(name.clone()),
        _ => None,
    }
}

/// What a lexer item stands for: nothing where it is an error.
pub open spec fn item_token(item: Option<(Tok, u32, u32)>) -> Option<TokenView> {
    match item {
        Some((token, start, end)) => Some(
            TokenView { kind: kind_of(token), name: name_of(token), start, end },
        ),
        None => None,
    }
}

/// The tokens among lexer items: errors are passed over.
pub open spec fn tokens_among(items: Seq<Option<(Tok, u32, u32)>>) -> Seq<TokenView>
    decreases items.len(),
{
    if items.len() == 0 {
        Seq::empty()
    } else {
        let before = tokens_among(items.drop_last());
        match item_token(items.last()) {
            Some(token) => before.push(token),
            None => before,
        }
    }
}

/// How many lexer items are read of a source of `length` bytes: eight to a byte and some more. Each
/// byte starts at most one token and adds at most one level of indentation, so that only a lexer
/// which reports the same error again and again, as at the end of a source within an open bracket,
/// is cut off.
pub open spec fn item_limit(length: nat) -> usize {
    if length < usize::MAX / 16 {
        (8 * length + 16) as usize
    } else {
        (usize::MAX - 1) as usize
    }
}

/// The tokens of a source.
pub open spec fn tokens_of(source: Text) -> Seq<TokenView> {
    tokens_among(lexed(source, item_limit(vstd::utf8::encode_utf8(source).len())))
}

/// Whether every position is one that the lexer can count.
pub open spec fn countable(tokens: Seq<TokenView>) -> bool {
    forall|i: int|
        0 <= i < tokens.len() ==> (#[trigger] tokens[i]).start < u32::MAX && tokens[i].end < u32::MAX
}

proof fn lemma_countable(items: Seq<Option<(Tok, u32, u32)>>, length: nat)
    requires
        length < u32::MAX,
        forall|i: int| 0 <= i < items.len() ==> #[trigger] ends_by(items[i], length),
    ensures
        countable(tokens_among(items)),
    decreases items.len(),
{
    if items.len() > 0 {
        assert forall|i: int| 0 <= i < items.drop_last().len() implies #[trigger] ends_by(
            items.drop_last()[i],
            length,
        ) by {
            assert(ends_by(items[i], length));
        }
        lemma_countable(items.drop_last(), length);
        assert(ends_by(items[items.len() - 1], length));
    }
}

/// The tokens among lexer items, in order; errors are passed over.
pub fn collect_tokens(items: &Vec<Option<(Tok, u32, u32)>>) -> (tokens: Vec<TokenSpan>)
    ensures
        tokens.deep_view() == tokens_among(items@),
        tokens@.len() <= items@.len(),
{
    let mut tokens: Vec<TokenSpan> = Vec::new();
    let mut i: usize = 0;
    assert(tokens.deep_view() =~= tokens_among(items@.take(0)));
    while i < items.len()
        invariant
            i <= items@.len(),
            tokens.deep_view() == tokens_among(items@.take(i as int)),
            tokens@.len() <= i,
        decreases items@.len() - i,
    {
        assert(items@.take(i as int + 1).drop_last() =~= items@.take(i as int));
        if let Some((token, start, end)) = &items[i] {
            let ghost before = tokens.deep_view();
            let span = TokenSpan {
                kind: token_tag(token),
                name: token_name(token),
                start: *start,
                end: *end,
            };
            let ghost viewed = span.deep_view();
            tokens.push(span);
            assert(tokens.deep_view() =~= before.push(viewed));
        }
        i = i + 1;
    }
    assert(items@.take(i as int) =~= items@);
    tokens
}

/// The tokens of a source; what the lexer does not recognise is passed over.
pub fn tokenize(source: &str) -> (tokens: Vec<TokenSpan>)
    requires
        vstd::utf8::encode_utf8(source@).len() < u32::MAX,
    ensures
        tokens.deep_view() == tokens_of(source@),
        countable(tokens.deep_view()),
        tokens@.len() < usize::MAX,
{
    let length = source.as_bytes().len();
    let limit: usize = if length < usize::MAX / 16 { 8 * length + 16 } else { usize::MAX - 1 };
    let items = lex_items(source, limit);
    proof {
        lemma_countable(items@, vstd::utf8::encode_utf8(source@).len());
    }
    collect_tokens(&items)
}

/// The tokens of a source are those that the lexer yields, all of them and in their order; only errors
/// are passed over.
pub proof fn law_tokens_are_kept(before: Seq<Option<(Tok, u32, u32)>>, item: Option<(Tok, u32, u32)>)
    ensures
        match item {
            None => tokens_among(before.push(item)) == tokens_among(before),
            Some((token, start, end)) => {
                let all = tokens_among(before.push(item));
                &&& all.len() == tokens_among(before).len() + 1
                &&& all.drop_last() == tokens_among(before)
                &&& all.last().kind == kind_of(token) && all.last().name == name_of(token)
                &&& all.last().start == start && all.last().end == end
            },
        },
{
    assert(before.push(item).drop_last() =~= before);
    if item is Some {
        assert(tokens_among(before.push(item)).drop_last() =~= tokens_among(before));
    }
}

} // verus!
