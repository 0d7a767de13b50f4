//! Token streams: what they hold, and the calls that make and read them.
//!
//! The streams are `proc_macro2::TokenStream`s. Everything this library relies
//! on about them is stated here, in the contracts of the items that call into
//! `proc_macro2`, `quote` and `syn`; those contracts are not proved.
//!
//! `proc_macro2` has two representations of its types: its own, and, inside a
//! procedural macro, the compiler's. The contracts speak of streams of one
//! representation. A program can have both only by switching between them with
//! `proc_macro2::fallback::force`, and must then not mix them: the calls panic.
use proc_macro2::{Delimiter, Group, Ident, LexError, Punct, Spacing, Span, TokenStream, TokenTree};
use quote::ToTokens;
use vstd::prelude::*;

verus! {

/// The brackets around a group of tokens.
pub enum Delim {
    Parenthesis,
    Brace,
    Bracket,
    Invisible,
}

/// One token tree of a stream, without its source location.
pub enum Tree {
    /// An identifier or a keyword, as it is written. Texts with the same Unicode
    /// normalization form C are one identifier to the language; inside a
    /// procedural macro the compiler shows an identifier in that form.
    Ident(Seq<char>),
    /// A punctuation character; `joint` when it continues into the next one.
    Punct { ch: char, joint: bool },
    /// A string literal without suffix, by the text it denotes.
    Str(Seq<char>),
    /// Any other literal, as it is written.
    Literal(Seq<char>),
    /// A bracketed group.
    Group(Delim, Seq<Tree>),
}

/// A token stream.
#[verifier::external_type_specification]
#[verifier::external_body]
pub struct ExTokenStream(TokenStream);

/// An iterator over the token trees of a stream.
#[verifier::external_type_specification]
#[verifier::external_body]
pub struct ExIntoIter(proc_macro2::token_stream::IntoIter);

/// The error of a text that does not lex.
#[verifier::external_type_specification]
#[verifier::external_body]
pub struct ExLexError(LexError);

/// The error of a text that does not parse.
#[verifier::external_type_specification]
#[verifier::external_body]
pub struct ExSynError(syn::Error);

/// The token trees that a stream holds, in order.
pub uninterp spec fn trees(stream: TokenStream) -> Seq<Tree>;

/// The token trees that an iterator has yet to hand out.
pub uninterp spec fn pending(iter: proc_macro2::token_stream::IntoIter) -> Seq<Tree>;

/// The token trees that `proc_macro2` lexes `text` into, if it can be lexed.
pub uninterp spec fn lexed(text: Seq<char>) -> Option<Seq<Tree>>;

/// `syn` parses `text` as an identifier, with or without space and comments
/// around it.
pub uninterp spec fn parses_as_ident(text: Seq<char>) -> bool;

/// `text` begins with the prefix `r#` of a raw identifier.
pub open spec fn has_raw_prefix(text: Seq<char>) -> bool {
    text.len() >= 2 && text[0] == 'r' && text[1] == '#'
}

/// A character of the space and the comments that may stand around a token: white
/// space, a direction mark, a byte order mark, or a slash.
pub open spec fn is_padding(c: char) -> bool {
    ||| c == '/' || c == ' ' || '\t' <= c <= '\r'
    ||| c == '\u{85}' || c == '\u{a0}' || c == '\u{1680}'
    ||| '\u{2000}' <= c <= '\u{200a}' || c == '\u{200e}' || c == '\u{200f}'
    ||| c == '\u{2028}' || c == '\u{2029}' || c == '\u{202f}' || c == '\u{205f}'
    ||| c == '\u{3000}' || c == '\u{feff}'
}

/// No space and no comment stands in `text`.
pub open spec fn is_unpadded(text: Seq<char>) -> bool {
    forall|i: int| 0 <= i < text.len() ==> !is_padding(#[trigger] text[i])
}

/// A letter or an underscore.
pub open spec fn is_ascii_word_start(c: char) -> bool {
    c == '_' || 'a' <= c <= 'z' || 'A' <= c <= 'Z'
}

/// An identifier or keyword made of ASCII letters, digits and underscores.
pub open spec fn is_ascii_word(text: Seq<char>) -> bool {
    &&& text.len() > 0
    &&& is_ascii_word_start(text[0])
    &&& forall|i: int|
        0 <= i < text.len() ==> is_ascii_word_start(#[trigger] text[i]) || '0' <= text[i] <= '9'
}

/// A text of ASCII characters.
pub open spec fn is_ascii_text(text: Seq<char>) -> bool {
    forall|i: int| 0 <= i < text.len() ==> #[trigger] text[i] <= '\u{7f}'
}

/// A word of the language that cannot be an identifier.
pub open spec fn is_keyword(text: Seq<char>) -> bool {
    ||| text == "_"@ || text == "abstract"@ || text == "as"@ || text == "async"@
    ||| text == "await"@ || text == "become"@ || text == "box"@ || text == "break"@
    ||| text == "const"@ || text == "continue"@ || text == "crate"@ || text == "do"@
    ||| text == "dyn"@ || text == "else"@ || text == "enum"@ || text == "extern"@
    ||| text == "false"@ || text == "final"@ || text == "fn"@ || text == "for"@
    ||| text == "if"@ || text == "impl"@ || text == "in"@ || text == "let"@
    ||| text == "loop"@ || text == "macro"@ || text == "match"@ || text == "mod"@
    ||| text == "move"@ || text == "mut"@ || text == "override"@ || text == "priv"@
    ||| text == "pub"@ || text == "ref"@ || text == "return"@ || text == "Self"@
    ||| text == "self"@ || text == "static"@ || text == "struct"@ || text == "super"@
    ||| text == "trait"@ || text == "true"@ || text == "try"@ || text == "type"@
    ||| text == "typeof"@ || text == "unsafe"@ || text == "unsized"@ || text == "use"@
    ||| text == "virtual"@ || text == "where"@ || text == "while"@ || text == "yield"@
}

/// `proc_macro2::TokenStream::new`: a stream that holds nothing.
pub assume_specification[ TokenStream::new ]() -> (r: TokenStream)
    ensures
        trees(r) == Seq::<Tree>::empty(),
;

/// `<proc_macro2::TokenStream as Clone>::clone`: a stream that holds the same
/// token trees.
pub assume_specification[ <TokenStream as Clone>::clone ](stream: &TokenStream) -> (r: TokenStream)
    ensures
        trees(r) == trees(*stream),
;

/// `<proc_macro2::TokenStream as Extend<TokenTree>>::extend`, given a stream:
/// the token trees of `more` follow those already in `stream`.
#[verifier::external_body]
pub(crate) fn append(stream: &mut TokenStream, more: TokenStream)
    ensures
        trees(*final(stream)) == trees(*old(stream)) + trees(more),
{
    stream.extend(more);
}

/// `proc_macro2::Ident::new`, as a stream: the one identifier or keyword
/// `text`. The call accepts what `syn` parses as an identifier, without space and
/// comments around it, raw identifiers excepted; and every ASCII word. It panics
/// on a text that is neither an identifier nor a keyword.
#[verifier::external_body]
pub(crate) fn ident(text: &str) -> (r: TokenStream)
    requires
        is_ascii_word(text@) || (parses_as_ident(text@) && is_unpadded(text@) && !has_raw_prefix(
            text@,
        )),
    ensures
        trees(r) == seq![Tree::Ident(text@)],
{
    TokenStream::from(TokenTree::Ident(Ident::new(text, Span::call_site())))
}

/// `proc_macro2::Punct::new` with `Spacing::Alone`, as a stream: the one
/// punctuation character `ch`, on its own. The call panics on a character that
/// is no punctuation of the language.
#[verifier::external_body]
pub(crate) fn punct(ch: char) -> (r: TokenStream)
    requires
        ch == '#' || ch == '!' || ch == '=' || ch == ';',
    ensures
        trees(r) == seq![Tree::Punct { ch, joint: false }],
{
    TokenStream::from(TokenTree::Punct(Punct::new(ch, Spacing::Alone)))
}

/// `<str as quote::ToTokens>::to_token_stream`: the one string literal that
/// denotes `text`.
#[verifier::external_body]
pub(crate) fn string(text: &str) -> (r: TokenStream)
    ensures
        trees(r) == seq![Tree::Str(text@)],
{
    text.to_token_stream()
}

/// `proc_macro2::Group::new`, as a stream: the one group of the token trees of
/// `inner` between the brackets `delim`.
#[verifier::external_body]
pub(crate) fn group(delim: Delim, inner: TokenStream) -> (r: TokenStream)
    ensures
        trees(r) == seq![Tree::Group(delim, trees(inner))],
{
    let delimiter = match delim {
        Delim::Parenthesis => Delimiter::Parenthesis,
        Delim::Brace => Delimiter::Brace,
        Delim::Bracket => Delimiter::Bracket,
        Delim::Invisible => Delimiter::None,
    };
    TokenStream::from(TokenTree::Group(Group::new(delimiter, inner)))
}

/// `<proc_macro2::TokenStream as FromStr>::from_str`: the token trees of
/// `text`, or an error. What a text lexes into is left to `lexed`. Of an ASCII
/// text it is stated that its identifiers are ASCII texts; and, if it is not a raw
/// identifier, when it lexes into itself, as one identifier or keyword: when it is
/// a word.
#[verifier::external_body]
pub(crate) fn lex(text: &str) -> (r: Result<TokenStream, LexError>)
    ensures
        lexed(text@) == (match r {
            Ok(stream) => Some(trees(stream)),
            Err(_) => None,
        }),
        is_ascii_text(text@) && !has_raw_prefix(text@) ==> is_ascii_word(text@) == (match r {
            Ok(stream) => trees(stream) == seq![Tree::Ident(text@)],
            Err(_) => false,
        }),
        r matches Ok(stream) ==> is_ascii_text(text@) ==> forall|i: int|
            0 <= i < trees(stream).len() ==> (#[trigger] trees(stream)[i] matches Tree::Ident(ident)
                ==> is_ascii_text(ident)),
{
    text.parse::<TokenStream>()
}

/// `<proc_macro2::TokenStream as IntoIterator>::into_iter`: an iterator that
/// has all the token trees of `stream` yet to hand out.
#[verifier::external_body]
pub(crate) fn iterate(stream: TokenStream) -> (r: proc_macro2::token_stream::IntoIter)
    ensures
        pending(r) == trees(stream),
{
    stream.into_iter()
}

/// `<proc_macro2::token_stream::IntoIter as Iterator>::next`: takes the first
/// pending token tree. Of an identifier the text is returned, which is stated of
/// an identifier written in ASCII: any other may be shown in its normalization
/// form. Of any other token tree it is returned only that it is none.
#[verifier::external_body]
pub(crate) fn next_ident(iter: &mut proc_macro2::token_stream::IntoIter) -> (r: Option<
    Option<String>,
>)
    ensures
        pending(*old(iter)).len() == 0 ==> r is None && pending(*final(iter)).len() == 0,
        pending(*old(iter)).len() > 0 ==> {
            &&& pending(*final(iter)) == pending(*old(iter)).drop_first()
            &&& r is Some
            &&& match r->0 {
                Some(text) => pending(*old(iter))[0] matches Tree::Ident(ident) && (is_ascii_text(
                    ident,
                ) ==> text@ == ident),
                None => !(pending(*old(iter))[0] is Ident),
            }
        },
{
    match iter.next() {
        Some(TokenTree::Ident(ident)) => Some(Some(ident.to_string())),
        Some(_) => Some(None),
        None => None,
    }
}

/// `syn::parse_str::<syn::Ident>`: whether `text` parses as an identifier, which
/// is left to `parses_as_ident`. Of a text without space and comments that does,
/// it is stated that it holds no dot. Of an ASCII text, not a raw identifier, it
/// is stated when it is without them and does: when it is a word and no keyword.
#[verifier::external_body]
pub(crate) fn parse_ident(text: &str) -> (r: Result<(), syn::Error>)
    ensures
        parses_as_ident(text@) == (r is Ok),
        r is Ok && is_unpadded(text@) ==> !text@.contains('.'),
        is_ascii_text(text@) && !has_raw_prefix(text@) ==> (r is Ok && is_unpadded(text@)) == (
        is_ascii_word(text@) && !is_keyword(text@)),
{
    match syn::parse_str::<syn::Ident>(text) {
        Ok(_) => Ok(()),
        Err(error) => Err(error),
    }
}

} // verus!
