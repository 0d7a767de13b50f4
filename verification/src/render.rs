//! The tokens around the contents of a module: its metadata and its `mod` head.
use crate::model::{
    alone, attr_tokens, attribute, doc_attribute, doc_tokens, joined, lemma_joined_next, paragraph,
    vis_tokens, Visibility,
};
use crate::names::ModName;
use crate::text::{lines, split_lines, texts};
use crate::tokens::{append, group, ident, punct, string, trees, Delim, Tree};
use proc_macro2::TokenStream;
use vstd::prelude::*;

verus! {

impl Visibility {
    /// Tokens rendered before the `mod` keyword; empty for `Private`.
    pub(crate) fn to_tokens(self) -> (r: TokenStream)
        ensures
            trees(r) == vis_tokens(self),
    {
        proof {
            reveal_strlit("pub");
            reveal_strlit("crate");
        }
        match self {
            Visibility::Pub => ident("pub"),
            Visibility::Crate => {
                let mut r = ident("pub");
                append(&mut r, group(Delim::Parenthesis, ident("crate")));
                assert(trees(r) =~= vis_tokens(self));
                r
            },
            Visibility::Private => TokenStream::new(),
        }
    }
}

/// An attribute with the given content.
fn attribute_stream(inner: bool, body: TokenStream) -> (r: TokenStream)
    ensures
        trees(r) == attribute(inner, trees(body)),
{
    let mut r = punct('#');
    if inner {
        append(&mut r, punct('!'));
    }
    append(&mut r, group(Delim::Bracket, body));
    assert(trees(r) =~= attribute(inner, trees(body)));
    r
}

/// A line of documentation, as an attribute.
fn doc_stream(inner: bool, line: &str) -> (r: TokenStream)
    ensures
        trees(r) == doc_attribute(inner, line@),
{
    proof {
        reveal_strlit("doc");
    }
    let mut body = ident("doc");
    append(&mut body, punct('='));
    append(&mut body, string(line));
    assert(trees(body) =~= seq![Tree::Ident("doc"@), alone('='), Tree::Str(line@)]);
    attribute_stream(inner, body)
}

/// A paragraph of documentation.
fn paragraph_stream(inner: bool, first: bool, text: &str) -> (r: TokenStream)
    ensures
        trees(r) == paragraph(inner, first, text@),
{
    let mut r = TokenStream::new();
    if !first {
        append(&mut r, doc_stream(inner, ""));
        proof {
            reveal_strlit("");
            assert(""@ =~= seq![]);
        }
    }
    let ghost head = trees(r);
    let all = split_lines(text);
    let ghost f = |line: Seq<char>| doc_attribute(inner, line);
    let ghost whole = lines(text@);
    let mut i: usize = 0;
    proof {
        assert(whole.take(0).map_values(f) =~= seq![]);
        assert(trees(r) =~= head + joined(whole.take(0), f));
    }
    while i < all.len()
        invariant
            f == (|line: Seq<char>| doc_attribute(inner, line)),
            texts(all@) == whole,
            i <= all@.len(),
            trees(r) == head + joined(whole.take(i as int), f),
        decreases all@.len() - i,
    {
        assert(whole[i as int] == all@[i as int]@);
        append(&mut r, doc_stream(inner, all[i].as_str()));
        proof {
            lemma_joined_next(whole, f, i as int);
            assert(trees(r) =~= head + joined(whole.take(i + 1), f));
        }
        i = i + 1;
    }
    assert(whole.take(i as int) =~= whole);
    r
}

/// Documentation and attributes.
pub fn meta_stream(inner: bool, docs: &Vec<String>, attrs: &Vec<TokenStream>) -> (r: TokenStream)
    ensures
        trees(r) == doc_tokens(inner, texts(docs@)) + attr_tokens(
            inner,
            attrs@.map_values(|attr: TokenStream| trees(attr)),
        ),
{
    let mut r = TokenStream::new();
    let ghost all_docs = texts(docs@);
    let ghost paragraphs = Seq::new(all_docs.len(), |k: int| paragraph(inner, k == 0, all_docs[k]));
    let mut i: usize = 0;
    assert(paragraphs.take(0) =~= seq![]);
    while i < docs.len()
        invariant
            all_docs == texts(docs@),
            paragraphs == Seq::new(all_docs.len(), |k: int| paragraph(inner, k == 0, all_docs[k])),
            i <= docs@.len(),
            trees(r) == paragraphs.take(i as int).flatten(),
        decreases docs@.len() - i,
    {
        let next = paragraph_stream(inner, i == 0, docs[i].as_str());
        append(&mut r, next);
        proof {
            assert(all_docs[i as int] == docs@[i as int]@);
            assert(paragraphs.take(i + 1) =~= paragraphs.take(i as int).push(trees(next)));
            paragraphs.take(i as int).lemma_flatten_push(trees(next));
        }
        i = i + 1;
    }
    assert(paragraphs.take(i as int) =~= paragraphs);
    let ghost bodies = attrs@.map_values(|attr: TokenStream| trees(attr));
    let ghost f = |attr: Seq<Tree>| attribute(inner, attr);
    let ghost rendered = bodies.map_values(f);
    let ghost head = trees(r);
    let mut j: usize = 0;
    assert(rendered.take(0) =~= seq![]);
    assert(trees(r) =~= head + rendered.take(0).flatten());
    while j < attrs.len()
        invariant
            bodies == attrs@.map_values(|attr: TokenStream| trees(attr)),
            f == (|attr: Seq<Tree>| attribute(inner, attr)),
            rendered == bodies.map_values(f),
            j <= attrs@.len(),
            trees(r) == head + rendered.take(j as int).flatten(),
        decreases attrs@.len() - j,
    {
        let next = attribute_stream(inner, attrs[j].clone());
        append(&mut r, next);
        proof {
            assert(rendered[j as int] == trees(next));
            assert(rendered.take(j + 1) =~= rendered.take(j as int).push(trees(next)));
            rendered.take(j as int).lemma_flatten_push(trees(next));
            assert(trees(r) =~= head + rendered.take(j + 1).flatten());
        }
        j = j + 1;
    }
    assert(rendered.take(j as int) =~= rendered);
    r
}

/// Metadata, visibility, and `mod name`.
pub fn head_stream(meta: TokenStream, vis: Visibility, name: &ModName) -> (r: TokenStream)
    ensures
        trees(r) == trees(meta) + vis_tokens(vis) + seq![Tree::Ident("mod"@), Tree::Ident(name@)],
{
    proof {
        use_type_invariant(name);
        reveal_strlit("mod");
    }
    let mut r = meta;
    append(&mut r, vis.to_tokens());
    append(&mut r, ident("mod"));
    append(&mut r, ident(name.as_str()));
    assert(trees(r) =~= trees(meta) + vis_tokens(vis) + seq![
        Tree::Ident("mod"@),
        Tree::Ident(name@),
    ]);
    r
}

} // verus!
