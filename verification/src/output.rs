//! What comes out, token by token: how the stream and the files of a module grow
//! with what is put into it.
use crate::laws::{
    law_contents_without_meta, law_leaf_contents, law_meta_accumulates, lemma_same_blocks,
    lemma_some_sorted,
};
use crate::layout::{
    lemma_file_contents, lemma_path_below, lemma_path_of_child, lemma_stems,
};
use crate::model::{
    alone, ascending_texts, attr_tokens, attribute, block_tokens, doc_attribute, doc_tokens,
    file_tokens, is_submodule_file, item_tokens, joined, lemma_sorted, meta_tokens, mod_head,
    module_at, module_file, paragraph, root_files, root_stream, sorted, stream_tokens,
    submodule_files, vis_tokens, ModView, Visibility,
};
use crate::order::{lemma_text_order, text_before};
use crate::text::lines;
use crate::tokens::{Delim, Tree};
use vstd::prelude::*;
use vstd::seq_lib::lemma_flatten_concat;

verus! {

/// The entries of a map whose keys come before `key`.
pub open spec fn entries_before<V>(map: Map<Seq<char>, V>, key: Seq<char>) -> Map<Seq<char>, V> {
    map.restrict(Set::new(|k: Seq<char>| text_before(k, key)))
}

/// The entries of a map whose keys come after `key`.
pub open spec fn entries_after<V>(map: Map<Seq<char>, V>, key: Seq<char>) -> Map<Seq<char>, V> {
    map.restrict(Set::new(|k: Seq<char>| text_before(key, k)))
}

/// A module that holds docs and attributes only.
pub open spec fn only_meta(docs: Seq<Seq<char>>, attrs: Seq<Seq<Tree>>) -> ModView {
    ModView { docs, attrs, ..ModView::empty() }
}

/// A module that holds one submodule only.
pub open spec fn only_mod(name: Seq<char>, child: ModView) -> ModView {
    ModView { mods: Map::empty().insert(name, child), ..ModView::empty() }
}

/// A module without its docs and attributes.
pub open spec fn bare(m: ModView) -> ModView {
    ModView { docs: seq![], attrs: seq![], ..m }
}

// ---- Docs and attributes ----

/// The texts of `tokens` read as doc attributes and nothing else, one text for
/// each: `#[doc = ".."]` or, as inner ones, `#![doc = ".."]`.
pub open spec fn read_docs(inner: bool, tokens: Seq<Tree>) -> Option<Seq<Seq<char>>>
    decreases tokens.len(),
{
    let n: int = if inner {
        3
    } else {
        2
    };
    if tokens.len() == 0 {
        Some(seq![])
    } else if tokens.len() < n || tokens[0] != (Tree::Punct { ch: '#', joint: false }) || (inner
        && tokens[1] != (Tree::Punct { ch: '!', joint: false })) {
        None
    } else {
        match (read_doc(tokens[n - 1]), read_docs(inner, tokens.skip(n))) {
            (Some(text), Some(rest)) => Some(seq![text] + rest),
            _ => None,
        }
    }
}

/// The text of the group `[doc = ".."]`.
pub open spec fn read_doc(group: Tree) -> Option<Seq<char>> {
    match group {
        Tree::Group(Delim::Bracket, body) => if body.len() == 3 && body[0] == Tree::Ident("doc"@)
            && body[1] == (Tree::Punct { ch: '=', joint: false }) {
            match body[2] {
                Tree::Str(text) => Some(text),
                _ => None,
            }
        } else {
            None
        },
        _ => None,
    }
}

/// Before anything else, `tokens` read as the doc attributes of `texts`.
spec fn reads(inner: bool, tokens: Seq<Tree>, texts: Seq<Seq<char>>) -> bool {
    forall|rest: Seq<Tree>| #[trigger]
        read_docs(inner, tokens + rest) == (match read_docs(inner, rest) {
            Some(more) => Some(texts + more),
            None => None,
        })
}

/// No tokens read as no texts.
proof fn lemma_reads_none(inner: bool)
    ensures
        reads(inner, seq![], seq![]),
{
    assert forall|rest: Seq<Tree>| #[trigger]
        read_docs(inner, seq![] + rest) == (match read_docs(inner, rest) {
            Some(more) => Some(Seq::<Seq<char>>::empty() + more),
            None => None,
        }) by {
        assert(seq![] + rest =~= rest);
        if let Some(more) = read_docs(inner, rest) {
            assert(Seq::<Seq<char>>::empty() + more =~= more);
        }
    }
}

/// A doc attribute reads as its line.
proof fn lemma_reads_one(inner: bool, line: Seq<char>)
    ensures
        reads(inner, doc_attribute(inner, line), seq![line]),
{
    let tokens = doc_attribute(inner, line);
    let n = tokens.len() as int;
    assert forall|rest: Seq<Tree>| #[trigger]
        read_docs(inner, tokens + rest) == (match read_docs(inner, rest) {
            Some(more) => Some(seq![line] + more),
            None => None,
        }) by {
        let all = tokens + rest;
        assert(all.skip(n) =~= rest);
        assert(all[0] == tokens[0] && all[1] == tokens[1] && all[n - 1] == tokens[n - 1]);
        assert(read_doc(all[n - 1]) == Some(line));
    }
}

/// Tokens one after the other read as their texts one after the other.
proof fn lemma_reads_both(
    inner: bool,
    a: Seq<Tree>,
    b: Seq<Tree>,
    x: Seq<Seq<char>>,
    y: Seq<Seq<char>>,
)
    requires
        reads(inner, a, x),
        reads(inner, b, y),
    ensures
        reads(inner, a + b, x + y),
{
    assert forall|rest: Seq<Tree>| #[trigger]
        read_docs(inner, a + b + rest) == (match read_docs(inner, rest) {
            Some(more) => Some(x + y + more),
            None => None,
        }) by {
        assert(a + b + rest =~= a + (b + rest));
        assert(read_docs(inner, b + rest) is Some == read_docs(inner, rest) is Some);
        if let Some(more) = read_docs(inner, rest) {
            assert(x + (y + more) =~= x + y + more);
        }
    }
}

/// The doc attributes of some lines read as these lines.
proof fn lemma_reads_lines(inner: bool, all: Seq<Seq<char>>)
    ensures
        reads(inner, joined(all, |line: Seq<char>| doc_attribute(inner, line)), all),
    decreases all.len(),
{
    let f = |line: Seq<char>| doc_attribute(inner, line);
    if all.len() == 0 {
        assert(all.map_values(f) =~= seq![]);
        assert(joined(all, f) =~= seq![]);
        assert(all =~= seq![]);
        lemma_reads_none(inner);
    } else {
        let front = all.drop_last();
        lemma_reads_lines(inner, front);
        lemma_reads_one(inner, all.last());
        assert(all.map_values(f) =~= front.map_values(f).push(f(all.last())));
        front.map_values(f).lemma_flatten_push(f(all.last()));
        lemma_reads_both(inner, joined(front, f), f(all.last()), front, seq![all.last()]);
        assert(front + seq![all.last()] =~= all);
    }
}

/// The lines that docs are rendered to.
spec fn doc_lines(docs: Seq<Seq<char>>) -> Seq<Seq<char>>
    decreases docs.len(),
{
    if docs.len() == 0 {
        seq![]
    } else {
        doc_lines(docs.drop_last()) + (if docs.len() == 1 {
            seq![]
        } else {
            seq![seq![]]
        }) + lines(docs.last())
    }
}

/// Docs end in the paragraph of the last text.
proof fn lemma_doc_tokens_last(inner: bool, docs: Seq<Seq<char>>)
    requires
        docs.len() > 0,
    ensures
        doc_tokens(inner, docs) == doc_tokens(inner, docs.drop_last()) + paragraph(
            inner,
            docs.len() == 1,
            docs.last(),
        ),
{
    law_meta_accumulates(inner, docs.drop_last(), docs.last(), seq![], seq![]);
    assert(docs.drop_last().push(docs.last()) =~= docs);
}

/// Without docs nothing is rendered of them.
proof fn lemma_no_docs(inner: bool, docs: Seq<Seq<char>>)
    requires
        docs.len() == 0,
    ensures
        doc_tokens(inner, docs) == Seq::<Tree>::empty(),
{
    assert(Seq::new(docs.len(), |i: int| paragraph(inner, i == 0, docs[i])) =~= Seq::<
        Seq<Tree>,
    >::empty());
}

/// Without attributes nothing is rendered of them.
proof fn lemma_no_attrs(inner: bool, attrs: Seq<Seq<Tree>>)
    requires
        attrs.len() == 0,
    ensures
        attr_tokens(inner, attrs) == Seq::<Tree>::empty(),
{
    assert(attrs.map_values(|attr: Seq<Tree>| attribute(inner, attr)) =~= Seq::<
        Seq<Tree>,
    >::empty());
}

/// Docs read as their lines.
proof fn lemma_reads_docs(inner: bool, docs: Seq<Seq<char>>)
    ensures
        reads(inner, doc_tokens(inner, docs), doc_lines(docs)),
    decreases docs.len(),
{
    if docs.len() == 0 {
        lemma_no_docs(inner, docs);
        lemma_reads_none(inner);
    } else {
        let front = docs.drop_last();
        let f = |line: Seq<char>| doc_attribute(inner, line);
        let first = docs.len() == 1;
        let all = lines(docs.last());
        lemma_doc_tokens_last(inner, docs);
        lemma_reads_docs(inner, front);
        lemma_reads_lines(inner, all);
        let gap: Seq<Seq<char>> = if first {
            seq![]
        } else {
            seq![seq![]]
        };
        let gap_tokens: Seq<Tree> = if first {
            seq![]
        } else {
            doc_attribute(inner, seq![])
        };
        if first {
            lemma_reads_none(inner);
        } else {
            lemma_reads_one(inner, seq![]);
        }
        lemma_reads_both(inner, gap_tokens, joined(all, f), gap, all);
        let a = doc_tokens(inner, front);
        lemma_reads_both(inner, a, gap_tokens + joined(all, f), doc_lines(front), gap + all);
        assert(doc_lines(front) + (gap + all) =~= doc_lines(docs));
    }
}

/// Docs alone read as their lines.
proof fn lemma_read_docs(inner: bool, docs: Seq<Seq<char>>)
    ensures
        read_docs(inner, doc_tokens(inner, docs)) == Some(doc_lines(docs)),
{
    lemma_reads_docs(inner, docs);
    let tokens = doc_tokens(inner, docs);
    assert(tokens + Seq::<Tree>::empty() =~= tokens);
    assert(read_docs(inner, tokens + Seq::<Tree>::empty()) == Some(doc_lines(docs) + seq![]));
    assert(doc_lines(docs) + seq![] =~= doc_lines(docs));
}

/// What a module that holds docs and attributes only renders to.
proof fn lemma_only_meta(docs: Seq<Seq<char>>, attrs: Seq<Seq<Tree>>)
    ensures
        root_stream(only_meta(docs, attrs)) == doc_tokens(true, docs) + attr_tokens(true, attrs),
        file_tokens(only_meta(docs, attrs)) == Seq::<Tree>::empty(),
{
    let m = only_meta(docs, attrs);
    lemma_no_contents(m);
    assert(root_stream(m) =~= meta_tokens(true, m));
}

/// A module without items and submodules has no contents.
proof fn lemma_no_contents(m: ModView)
    requires
        m.items == Map::<Seq<char>, Seq<Tree>>::empty(),
        m.mods == Map::<Seq<char>, ModView>::empty(),
    ensures
        item_tokens(m) == Seq::<Tree>::empty(),
        stream_tokens(m) == Seq::<Tree>::empty(),
        file_tokens(m) == Seq::<Tree>::empty(),
{
    assert(m.mods.dom() =~= Set::<Seq<char>>::empty());
    law_leaf_contents(m);
    lemma_no_items(m);
}

/// Without items nothing is rendered of them.
proof fn lemma_no_items(m: ModView)
    requires
        m.items == Map::<Seq<char>, Seq<Tree>>::empty(),
    ensures
        item_tokens(m) == Seq::<Tree>::empty(),
{
    let none = Seq::<Seq<char>>::empty();
    assert(none.to_set() =~= Set::<Seq<char>>::empty());
    lemma_sorted(none);
    assert(m.items.dom() =~= none.to_set());
    assert(none.map_values(|key: Seq<char>| m.items[key]) =~= Seq::<Seq<Tree>>::empty());
}

/// On a root module, each attribute is rendered as `#![..]`, after those added
/// before it, and all of them after the docs.
pub proof fn law_root_attributes(docs: Seq<Seq<char>>, attrs: Seq<Seq<Tree>>, attr: Seq<Tree>)
    ensures
        root_stream(only_meta(docs, attrs.push(attr))) == root_stream(only_meta(docs, attrs)) + seq![
            Tree::Punct { ch: '#', joint: false },
            Tree::Punct { ch: '!', joint: false },
            Tree::Group(Delim::Bracket, attr),
        ],
{
    law_meta_accumulates(true, docs, seq![], attrs, attr);
    lemma_only_meta(docs, attrs);
    lemma_only_meta(docs, attrs.push(attr));
    assert(root_stream(only_meta(docs, attrs.push(attr))) =~= root_stream(only_meta(docs, attrs))
        + attribute(true, attr));
}

/// On a root module, a doc text is rendered as one attribute `#![doc = ".."]`
/// for each of its lines, empty ones included, in order, after those of the texts
/// added before it; with one for an empty line in between, if there are any.
pub proof fn law_root_docs(docs: Seq<Seq<char>>, text: Seq<char>)
    ensures
        read_docs(true, root_stream(only_meta(seq![], seq![]))) == Some(Seq::<Seq<char>>::empty()),
        read_docs(true, root_stream(only_meta(docs, seq![]))) is Some,
        read_docs(true, root_stream(only_meta(docs.push(text), seq![]))) == Some(
            read_docs(true, root_stream(only_meta(docs, seq![])))->0 + (if docs.len() == 0 {
                seq![]
            } else {
                seq![seq![]]
            }) + lines(text),
        ),
{
    lemma_meta_docs(seq![]);
    lemma_meta_docs(docs);
    lemma_meta_docs(docs.push(text));
    assert(docs.push(text).drop_last() =~= docs);
}

/// The docs of a root module read as their lines.
proof fn lemma_meta_docs(docs: Seq<Seq<char>>)
    ensures
        root_stream(only_meta(docs, seq![])) == doc_tokens(true, docs),
        read_docs(true, root_stream(only_meta(docs, seq![]))) == Some(doc_lines(docs)),
{
    lemma_only_meta(docs, seq![]);
    lemma_no_attrs(true, seq![]);
    assert(doc_tokens(true, docs) + Seq::<Tree>::empty() =~= doc_tokens(true, docs));
    lemma_read_docs(true, docs);
}

/// Inner attributes in outer form: without the `!` between `#` and the brackets.
pub open spec fn outward(tokens: Seq<Tree>) -> Seq<Tree>
    decreases tokens.len(),
{
    if tokens.len() < 3 {
        tokens
    } else {
        seq![tokens[0], tokens[2]] + outward(tokens.skip(3))
    }
}

/// Before anything else, `a` is `b` in outer form.
spec fn turns(a: Seq<Tree>, b: Seq<Tree>) -> bool {
    forall|rest: Seq<Tree>| #[trigger] outward(a + rest) == b + outward(rest)
}

/// No tokens stay none.
proof fn lemma_turns_none()
    ensures
        turns(seq![], seq![]),
{
    assert forall|rest: Seq<Tree>| #[trigger] outward(seq![] + rest) == Seq::<Tree>::empty()
        + outward(rest) by {
        assert(seq![] + rest =~= rest);
        assert(Seq::<Tree>::empty() + outward(rest) =~= outward(rest));
    }
}

/// An attribute in outer form.
proof fn lemma_turns_one(body: Seq<Tree>)
    ensures
        turns(attribute(true, body), attribute(false, body)),
{
    let a = attribute(true, body);
    assert forall|rest: Seq<Tree>| #[trigger] outward(a + rest) == attribute(false, body) + outward(
        rest,
    ) by {
        assert((a + rest).skip(3) =~= rest);
        assert(seq![a[0], a[2]] =~= attribute(false, body));
        assert((a + rest)[0] == a[0] && (a + rest)[2] == a[2]);
    }
}

/// Tokens one after the other in outer form.
proof fn lemma_turns_both(a: Seq<Tree>, b: Seq<Tree>, x: Seq<Tree>, y: Seq<Tree>)
    requires
        turns(a, x),
        turns(b, y),
    ensures
        turns(a + b, x + y),
{
    assert forall|rest: Seq<Tree>| #[trigger] outward(a + b + rest) == x + y + outward(rest) by {
        assert(a + b + rest =~= a + (b + rest));
        assert(x + (y + outward(rest)) =~= x + y + outward(rest));
    }
}

/// The lines of a doc text in outer form.
proof fn lemma_turns_lines(all: Seq<Seq<char>>)
    ensures
        turns(
            joined(all, |line: Seq<char>| doc_attribute(true, line)),
            joined(all, |line: Seq<char>| doc_attribute(false, line)),
        ),
    decreases all.len(),
{
    let f = |line: Seq<char>| doc_attribute(true, line);
    let g = |line: Seq<char>| doc_attribute(false, line);
    if all.len() == 0 {
        assert(all.map_values(f) =~= seq![]);
        assert(all.map_values(g) =~= seq![]);
        assert(joined(all, f) =~= seq![]);
        assert(joined(all, g) =~= seq![]);
        lemma_turns_none();
    } else {
        let front = all.drop_last();
        let line = all.last();
        lemma_turns_lines(front);
        lemma_turns_one(seq![Tree::Ident("doc"@), alone('='), Tree::Str(line)]);
        assert(all.map_values(f) =~= front.map_values(f).push(f(line)));
        assert(all.map_values(g) =~= front.map_values(g).push(g(line)));
        front.map_values(f).lemma_flatten_push(f(line));
        front.map_values(g).lemma_flatten_push(g(line));
        lemma_turns_both(joined(front, f), f(line), joined(front, g), g(line));
    }
}

/// Docs in outer form.
proof fn lemma_turns_docs(docs: Seq<Seq<char>>)
    ensures
        turns(doc_tokens(true, docs), doc_tokens(false, docs)),
    decreases docs.len(),
{
    if docs.len() == 0 {
        lemma_no_docs(true, docs);
        lemma_no_docs(false, docs);
        lemma_turns_none();
    } else {
        let front = docs.drop_last();
        let all = lines(docs.last());
        let f = |line: Seq<char>| doc_attribute(true, line);
        let g = |line: Seq<char>| doc_attribute(false, line);
        lemma_turns_docs(front);
        lemma_doc_tokens_last(true, docs);
        lemma_doc_tokens_last(false, docs);
        lemma_turns_lines(all);
        let first = docs.len() == 1;
        let a: Seq<Tree> = if first {
            seq![]
        } else {
            doc_attribute(true, seq![])
        };
        let b: Seq<Tree> = if first {
            seq![]
        } else {
            doc_attribute(false, seq![])
        };
        if first {
            lemma_turns_none();
        } else {
            lemma_turns_one(
                seq![Tree::Ident("doc"@), alone('='), Tree::Str(seq![])],
            );
        }
        lemma_turns_both(a, joined(all, f), b, joined(all, g));
        lemma_turns_both(
            doc_tokens(true, front),
            a + joined(all, f),
            doc_tokens(false, front),
            b + joined(all, g),
        );
    }
}

/// Attributes in outer form.
proof fn lemma_turns_attrs(attrs: Seq<Seq<Tree>>)
    ensures
        turns(attr_tokens(true, attrs), attr_tokens(false, attrs)),
    decreases attrs.len(),
{
    if attrs.len() == 0 {
        lemma_no_attrs(true, attrs);
        lemma_no_attrs(false, attrs);
        lemma_turns_none();
    } else {
        let front = attrs.drop_last();
        let attr = attrs.last();
        lemma_turns_attrs(front);
        lemma_turns_one(attr);
        law_meta_accumulates(true, seq![], seq![], front, attr);
        law_meta_accumulates(false, seq![], seq![], front, attr);
        assert(front.push(attr) =~= attrs);
        lemma_turns_both(
            attr_tokens(true, front),
            attribute(true, attr),
            attr_tokens(false, front),
            attribute(false, attr),
        );
    }
}

/// The outer form of docs and attributes.
proof fn lemma_outward(m: ModView)
    ensures
        outward(root_stream(only_meta(m.docs, m.attrs))) == meta_tokens(false, m),
{
    lemma_only_meta(m.docs, m.attrs);
    lemma_turns_docs(m.docs);
    lemma_turns_attrs(m.attrs);
    let a = doc_tokens(true, m.docs);
    let b = attr_tokens(true, m.attrs);
    lemma_turns_both(a, b, doc_tokens(false, m.docs), attr_tokens(false, m.attrs));
    assert(a + b + Seq::<Tree>::empty() =~= a + b);
    let none = outward(Seq::<Tree>::empty());
    assert(none =~= seq![]);
    assert(meta_tokens(false, m) + none =~= meta_tokens(false, m));
}

/// In outer form, docs read as the same lines, and each attribute is rendered as
/// `#[..]` after those added before it.
pub proof fn law_outer_form(docs: Seq<Seq<char>>, attrs: Seq<Seq<Tree>>, attr: Seq<Tree>)
    ensures
        read_docs(false, outward(root_stream(only_meta(docs, seq![])))) == read_docs(
            true,
            root_stream(only_meta(docs, seq![])),
        ),
        outward(root_stream(only_meta(docs, attrs.push(attr)))) == outward(
            root_stream(only_meta(docs, attrs)),
        ) + seq![
            Tree::Punct { ch: '#', joint: false },
            Tree::Group(Delim::Bracket, attr),
        ],
{
    let plain = only_meta(docs, seq![]);
    lemma_outward(plain);
    lemma_no_attrs(false, plain.attrs);
    assert(meta_tokens(false, plain) =~= doc_tokens(false, docs));
    lemma_read_docs(false, docs);
    lemma_meta_docs(docs);
    lemma_outward(only_meta(docs, attrs));
    lemma_outward(only_meta(docs, attrs.push(attr)));
    law_meta_accumulates(false, docs, seq![], attrs, attr);
    assert(meta_tokens(false, only_meta(docs, attrs.push(attr))) =~= meta_tokens(
        false,
        only_meta(docs, attrs),
    ) + attribute(false, attr));
}

// ---- Blocks ----

/// One text sorts into itself.
proof fn lemma_sorted_one(name: Seq<char>)
    ensures
        sorted(Set::<Seq<char>>::empty().insert(name)) == seq![name],
{
    let one = seq![name];
    assert(one.to_set() =~= Set::<Seq<char>>::empty().insert(name)) by {
        assert(one[0] == name);
    }
    lemma_sorted(one);
}

/// A submodule is rendered as a block. First come its docs and attributes, all
/// that a root module with them would show, but in outer form; then its
/// visibility, `mod`, its name; and in braces what it would render to as a root
/// module without docs and attributes.
pub proof fn law_block(name: Seq<char>, child: ModView)
    ensures
        root_stream(only_mod(name, child)) == outward(
            root_stream(only_meta(child.docs, child.attrs)),
        ) + (match child.vis {
            Visibility::Pub => seq![Tree::Ident("pub"@)],
            Visibility::Crate => seq![
                Tree::Ident("pub"@),
                Tree::Group(Delim::Parenthesis, seq![Tree::Ident("crate"@)]),
            ],
            Visibility::Private => seq![],
        }) + seq![
            Tree::Ident("mod"@),
            Tree::Ident(name),
            Tree::Group(Delim::Brace, root_stream(bare(child))),
        ],
{
    let m = only_mod(name, child);
    lemma_outward(child);
    lemma_no_items(m);
    assert(m.mods.dom() =~= Set::<Seq<char>>::empty().insert(name));
    lemma_sorted_one(name);
    let names = seq![name];
    assert(names.drop_last() =~= seq![]);
    assert(block_tokens(m, names.drop_last()) =~= seq![]);
    lemma_bare(child);
    lemma_no_meta(true, m);
    assert(root_stream(m) =~= mod_head(name, child) + seq![
        Tree::Group(Delim::Brace, stream_tokens(child)),
    ]);
    assert(root_stream(m) =~= meta_tokens(false, child) + vis_tokens(child.vis) + seq![
        Tree::Ident("mod"@),
        Tree::Ident(name),
        Tree::Group(Delim::Brace, root_stream(bare(child))),
    ]);
}

/// Without docs and attributes nothing is rendered of them.
proof fn lemma_no_meta(inner: bool, m: ModView)
    requires
        m.docs.len() == 0,
        m.attrs.len() == 0,
    ensures
        meta_tokens(inner, m) == Seq::<Tree>::empty(),
{
    lemma_no_docs(inner, m.docs);
    lemma_no_attrs(inner, m.attrs);
    assert(meta_tokens(inner, m) =~= Seq::<Tree>::empty());
}

/// A root module without docs and attributes renders to its contents.
proof fn lemma_bare(m: ModView)
    ensures
        root_stream(bare(m)) == stream_tokens(m),
{
    law_contents_without_meta(m, m.vis, seq![], seq![]);
    lemma_no_meta(true, bare(m));
    assert(root_stream(bare(m)) =~= stream_tokens(m));
}

// ---- Order ----

/// The texts of a set that come before `x`, and those that come after it, sort
/// into what stands before and after it.
proof fn lemma_sorted_around(set: Set<Seq<char>>, x: Seq<char>)
    requires
        set.finite(),
    ensures
        ({
            let low = set.filter(|k: Seq<char>| text_before(k, x));
            let high = set.filter(|k: Seq<char>| text_before(x, k));
            &&& low.finite() && high.finite()
            &&& sorted(set.insert(x)) == sorted(low) + seq![x] + sorted(high)
            &&& forall|i: int|
                0 <= i < sorted(low).len() ==> set.contains(#[trigger] sorted(low)[i])
                    && text_before(sorted(low)[i], x)
            &&& forall|i: int|
                0 <= i < sorted(high).len() ==> set.contains(#[trigger] sorted(high)[i])
                    && text_before(x, sorted(high)[i])
        }),
{
    let low = set.filter(|k: Seq<char>| text_before(k, x));
    let high = set.filter(|k: Seq<char>| text_before(x, k));
    set.lemma_len_filter(|k: Seq<char>| text_before(k, x));
    set.lemma_len_filter(|k: Seq<char>| text_before(x, k));
    lemma_some_sorted(low);
    lemma_some_sorted(high);
    let a = sorted(low);
    let b = sorted(high);
    assert forall|i: int| 0 <= i < a.len() implies set.contains(#[trigger] a[i]) && text_before(
        a[i],
        x,
    ) by {
        assert(a.to_set().contains(a[i]));
    }
    assert forall|i: int| 0 <= i < b.len() implies set.contains(#[trigger] b[i]) && text_before(
        x,
        b[i],
    ) by {
        assert(b.to_set().contains(b[i]));
    }
    lemma_text_order();
    let lt = |p: Seq<char>, q: Seq<char>| text_before(p, q);
    let all = a + seq![x] + b;
    assert forall|i: int, j: int|
        #![trigger all[i], all[j]]
        0 <= i < j < all.len() implies text_before(all[i], all[j]) by {
        let n = a.len() as int;
        if i < n {
            assert(all[i] == a[i]);
        }
        if j < n {
            assert(all[j] == a[j]);
        }
        if i > n {
            assert(all[i] == b[i - n - 1]);
        }
        if j > n {
            assert(all[j] == b[j - n - 1]);
        }
        if i < n && j > n {
            assert(lt(all[i], x) && lt(x, all[j]));
            assert(lt(all[i], all[j]));
        }
    }
    assert(ascending_texts(all));
    assert forall|k: Seq<char>| all.to_set().contains(k) == set.insert(x).contains(k) by {
        if all.contains(k) {
            let i = choose|i: int| 0 <= i < all.len() && all[i] == k;
            let n = a.len() as int;
            if i < n {
                assert(all[i] == a[i]);
            } else if i > n {
                assert(all[i] == b[i - n - 1]);
            }
        }
        if set.insert(x).contains(k) {
            if k == x {
                assert(all[a.len() as int] == x);
            } else if lt(k, x) {
                assert(low.contains(k));
                assert(a.to_set().contains(k));
                let i = choose|i: int| 0 <= i < a.len() && a[i] == k;
                assert(all[i] == k);
            } else {
                assert(lt(x, k));
                assert(high.contains(k));
                assert(b.to_set().contains(k));
                let i = choose|i: int| 0 <= i < b.len() && b[i] == k;
                assert(all[i + a.len() + 1] == k);
            }
        }
    }
    assert(all.to_set() =~= set.insert(x));
    lemma_sorted(all);
}

/// What is joined of two lists is joined of the one and then of the other.
proof fn lemma_joined_both(
    a: Seq<Seq<char>>,
    b: Seq<Seq<char>>,
    f: spec_fn(Seq<char>) -> Seq<Tree>,
)
    ensures
        joined(a + b, f) == joined(a, f) + joined(b, f),
{
    assert((a + b).map_values(f) =~= a.map_values(f) + b.map_values(f));
    lemma_flatten_concat(a.map_values(f), b.map_values(f));
}

/// What is joined depends on what `f` gives for the texts only.
proof fn lemma_joined_same(
    s: Seq<Seq<char>>,
    f: spec_fn(Seq<char>) -> Seq<Tree>,
    g: spec_fn(Seq<char>) -> Seq<Tree>,
)
    requires
        forall|i: int| 0 <= i < s.len() ==> f(#[trigger] s[i]) == g(s[i]),
    ensures
        joined(s, f) == joined(s, g),
{
    assert(s.map_values(f) =~= s.map_values(g));
}

/// What is joined over a set with `x` in it: before, at and after `x`.
proof fn lemma_joined_around(
    set: Set<Seq<char>>,
    x: Seq<char>,
    f: spec_fn(Seq<char>) -> Seq<Tree>,
)
    requires
        set.finite(),
    ensures
        joined(sorted(set.insert(x)), f) == joined(
            sorted(set.filter(|k: Seq<char>| text_before(k, x))),
            f,
        ) + f(x) + joined(sorted(set.filter(|k: Seq<char>| text_before(x, k))), f),
{
    lemma_sorted_around(set, x);
    let a = sorted(set.filter(|k: Seq<char>| text_before(k, x)));
    let b = sorted(set.filter(|k: Seq<char>| text_before(x, k)));
    lemma_joined_both(a + seq![x], b, f);
    lemma_joined_both(a, seq![x], f);
    assert(seq![x].map_values(f) =~= seq![f(x)]);
    seq![f(x)].lemma_flatten_one_element();
}

/// The entries before and after a key, by their keys.
proof fn lemma_entries<V>(map: Map<Seq<char>, V>, key: Seq<char>)
    ensures
        entries_before(map, key).dom() == map.dom().filter(|k: Seq<char>| text_before(k, key)),
        entries_after(map, key).dom() == map.dom().filter(|k: Seq<char>| text_before(key, k)),
{
    assert(entries_before(map, key).dom() =~= map.dom().filter(
        |k: Seq<char>| text_before(k, key),
    ));
    assert(entries_after(map, key).dom() =~= map.dom().filter(
        |k: Seq<char>| text_before(key, k),
    ));
}

/// The items around a key.
proof fn lemma_items_around(m: ModView, key: Seq<char>, tokens: Seq<Tree>)
    requires
        m.items.dom().finite(),
    ensures
        item_tokens(ModView { items: m.items.insert(key, tokens), ..m }) == item_tokens(
            ModView { items: entries_before(m.items, key), ..m },
        ) + tokens + item_tokens(ModView { items: entries_after(m.items, key), ..m }),
{
    let after = ModView { items: m.items.insert(key, tokens), ..m };
    let low = ModView { items: entries_before(m.items, key), ..m };
    let high = ModView { items: entries_after(m.items, key), ..m };
    let set = m.items.dom();
    let f = |k: Seq<char>| after.items[k];
    assert(after.items.dom() =~= set.insert(key));
    lemma_joined_around(set, key, f);
    lemma_sorted_around(set, key);
    lemma_entries(m.items, key);
    lemma_text_order();
    let lt = |p: Seq<char>, q: Seq<char>| text_before(p, q);
    assert(!lt(key, key));
    lemma_joined_same(sorted(low.items.dom()), f, |k: Seq<char>| low.items[k]);
    lemma_joined_same(sorted(high.items.dom()), f, |k: Seq<char>| high.items[k]);
}

/// Items are rendered in the order of their keys: those under lesser keys, then
/// the tokens under `key`, then those under greater keys; all of them after the
/// docs and attributes, and before the submodules.
pub proof fn law_item_in_place(m: ModView, key: Seq<char>, tokens: Seq<Tree>)
    requires
        m.is_finite(),
    ensures
        root_stream(ModView { items: m.items.insert(key, tokens), ..m }) == root_stream(
            ModView { items: entries_before(m.items, key), mods: Map::empty(), ..m },
        ) + tokens + root_stream(
            ModView { items: entries_after(m.items, key), docs: seq![], attrs: seq![], ..m },
        ),
{
    let after = ModView { items: m.items.insert(key, tokens), ..m };
    let low = ModView { items: entries_before(m.items, key), mods: Map::empty(), ..m };
    let high = ModView { items: entries_after(m.items, key), docs: seq![], attrs: seq![], ..m };
    lemma_items_around(m, key, tokens);
    lemma_same_blocks(after, high, sorted(m.mods.dom()));
    assert(low.mods.dom() =~= Set::<Seq<char>>::empty());
    law_leaf_contents(low);
    lemma_no_meta(true, high);
    assert(root_stream(after) =~= root_stream(low) + tokens + root_stream(high));
}

/// The blocks of two lists of submodules.
proof fn lemma_blocks_both(m: ModView, a: Seq<Seq<char>>, b: Seq<Seq<char>>)
    ensures
        block_tokens(m, a + b) == block_tokens(m, a) + block_tokens(m, b),
    decreases b.len(),
{
    if b.len() == 0 {
        assert(a + b =~= a);
        assert(block_tokens(m, b) =~= seq![]);
        assert(block_tokens(m, a) + block_tokens(m, b) =~= block_tokens(m, a));
    } else {
        assert((a + b).drop_last() =~= a + b.drop_last());
        lemma_blocks_both(m, a, b.drop_last());
        assert(block_tokens(m, a + b) =~= block_tokens(m, a) + block_tokens(m, b));
    }
}

/// The blocks of submodules that two modules have in common.
proof fn lemma_blocks_common(a: ModView, b: ModView, names: Seq<Seq<char>>)
    requires
        forall|i: int|
            0 <= i < names.len() ==> a.mods.contains_key(#[trigger] names[i])
                && b.mods.contains_key(names[i]) && a.mods[names[i]] == b.mods[names[i]],
    ensures
        block_tokens(a, names) == block_tokens(b, names),
    decreases names.len(),
{
    if names.len() > 0 {
        let front = names.drop_last();
        assert forall|i: int| 0 <= i < front.len() implies a.mods.contains_key(#[trigger] front[i])
            && b.mods.contains_key(front[i]) && a.mods[front[i]] == b.mods[front[i]] by {
            assert(front[i] == names[i]);
        }
        lemma_blocks_common(a, b, front);
        assert(names[names.len() - 1] == names.last());
    }
}

/// Submodules are rendered in the order of their names: those of lesser names,
/// then `name`, then those of greater names; all of them after the docs, the
/// attributes and the items.
pub proof fn law_block_in_place(m: ModView, name: Seq<char>, child: ModView)
    requires
        m.is_finite(),
    ensures
        root_stream(ModView { mods: m.mods.insert(name, child), ..m }) == root_stream(
            ModView { mods: entries_before(m.mods, name), ..m },
        ) + root_stream(only_mod(name, child)) + root_stream(
            ModView { mods: entries_after(m.mods, name), ..ModView::empty() },
        ),
{
    let after = ModView { mods: m.mods.insert(name, child), ..m };
    let low = ModView { mods: entries_before(m.mods, name), ..m };
    let high = ModView { mods: entries_after(m.mods, name), ..ModView::empty() };
    let one = only_mod(name, child);
    let set = m.mods.dom();
    assert(after.mods.dom() =~= set.insert(name));
    lemma_sorted_around(set, name);
    lemma_entries(m.mods, name);
    lemma_text_order();
    let lt = |p: Seq<char>, q: Seq<char>| text_before(p, q);
    assert(!lt(name, name));
    let a = sorted(low.mods.dom());
    let b = sorted(high.mods.dom());
    lemma_blocks_both(after, a + seq![name], b);
    lemma_blocks_both(after, a, seq![name]);
    lemma_blocks_common(after, low, a);
    lemma_blocks_common(after, high, b);
    lemma_blocks_common(after, one, seq![name]);
    assert(one.mods.dom() =~= Set::<Seq<char>>::empty().insert(name));
    lemma_sorted_one(name);
    lemma_no_items(one);
    lemma_no_items(high);
    lemma_no_meta(true, one);
    lemma_no_meta(true, high);
    assert(root_stream(one) =~= block_tokens(after, seq![name]));
    assert(root_stream(high) =~= block_tokens(after, b));
    assert(root_stream(low) =~= meta_tokens(true, m) + item_tokens(m) + block_tokens(after, a));
    assert(root_stream(after) =~= root_stream(low) + root_stream(one) + root_stream(high));
}

// ---- Files ----

/// What stands in the file `lib.rs`.
pub open spec fn lib_file(m: ModView) -> Seq<Tree> {
    root_files(m)[seq!["lib.rs"@]]
}

/// There is a file `lib.rs`. It begins with the docs and attributes, as the
/// stream does; of a module with nothing else it holds nothing else.
pub proof fn law_lib_meta(m: ModView)
    ensures
        root_files(m).contains_key(seq!["lib.rs"@]),
        lib_file(only_meta(m.docs, m.attrs)) == root_stream(only_meta(m.docs, m.attrs)),
        lib_file(m) == lib_file(only_meta(m.docs, m.attrs)) + lib_file(bare(m)),
{
    let meta = only_meta(m.docs, m.attrs);
    lemma_only_meta(m.docs, m.attrs);
    law_contents_without_meta(m, m.vis, seq![], seq![]);
    lemma_no_meta(true, bare(m));
    assert(lib_file(meta) =~= meta_tokens(true, m));
    assert(lib_file(bare(m)) =~= file_tokens(m));
    assert(lib_file(m) =~= lib_file(meta) + lib_file(bare(m)));
}

/// A submodule is declared by what its block in the stream begins with, docs,
/// attributes, visibility and `mod name`, with a semicolon in place of the
/// braces.
pub proof fn law_declaration(name: Seq<char>, child: ModView)
    ensures
        root_stream(only_mod(name, child)).len() > 0,
        lib_file(only_mod(name, child)) == root_stream(only_mod(name, child)).drop_last().push(
            Tree::Punct { ch: ';', joint: false },
        ),
{
    let m = only_mod(name, child);
    law_block(name, child);
    lemma_outward(child);
    lemma_no_items(m);
    lemma_no_meta(true, m);
    assert(m.mods.dom() =~= Set::<Seq<char>>::empty().insert(name));
    lemma_sorted_one(name);
    let f = |k: Seq<char>| mod_head(k, m.mods[k]) + seq![alone(';')];
    assert(seq![name].map_values(f) =~= seq![f(name)]);
    seq![f(name)].lemma_flatten_one_element();
    let head = meta_tokens(false, child) + vis_tokens(child.vis) + seq![
        Tree::Ident("mod"@),
        Tree::Ident(name),
    ];
    assert(mod_head(name, child) =~= head);
    assert(root_stream(m) =~= head.push(Tree::Group(Delim::Brace, root_stream(bare(child)))));
    assert(root_stream(m).drop_last() =~= head);
    assert(lib_file(m) =~= head.push(Tree::Punct { ch: ';', joint: false }));
}

/// A submodule without docs and attributes is declared by its visibility, `mod`,
/// its name and a semicolon; a private one has nothing before `mod`.
pub proof fn law_plain_declaration(name: Seq<char>, child: ModView)
    requires
        child.docs.len() == 0,
        child.attrs.len() == 0,
    ensures
        lib_file(only_mod(name, child)) == (match child.vis {
            Visibility::Pub => seq![Tree::Ident("pub"@)],
            Visibility::Crate => seq![
                Tree::Ident("pub"@),
                Tree::Group(Delim::Parenthesis, seq![Tree::Ident("crate"@)]),
            ],
            Visibility::Private => seq![],
        }) + seq![
            Tree::Ident("mod"@),
            Tree::Ident(name),
            Tree::Punct { ch: ';', joint: false },
        ],
{
    law_declaration(name, child);
    law_block(name, child);
    lemma_outward(child);
    lemma_no_meta(false, child);
    let block = root_stream(only_mod(name, child));
    let head = vis_tokens(child.vis) + seq![Tree::Ident("mod"@), Tree::Ident(name)];
    assert(block =~= head.push(Tree::Group(Delim::Brace, root_stream(bare(child)))));
    assert(block.drop_last() =~= head);
    assert(lib_file(only_mod(name, child)) =~= vis_tokens(child.vis) + seq![
        Tree::Ident("mod"@),
        Tree::Ident(name),
        Tree::Punct { ch: ';', joint: false },
    ]);
}

/// Submodules are declared in the order of their names, after the docs and
/// attributes, and before the items.
#[verifier::rlimit(30)]
pub proof fn law_declaration_in_place(m: ModView, name: Seq<char>, child: ModView)
    requires
        m.is_finite(),
    ensures
        lib_file(ModView { mods: m.mods.insert(name, child), ..m }) == lib_file(
            ModView { mods: entries_before(m.mods, name), items: Map::empty(), ..m },
        ) + lib_file(only_mod(name, child)) + lib_file(
            ModView {
                mods: entries_after(m.mods, name),
                items: m.items,
                ..ModView::empty()
            },
        ),
{
    let after = ModView { mods: m.mods.insert(name, child), ..m };
    let low = ModView { mods: entries_before(m.mods, name), items: Map::empty(), ..m };
    let high = ModView {
        mods: entries_after(m.mods, name),
        items: m.items,
        ..ModView::empty()
    };
    let one = only_mod(name, child);
    let set = m.mods.dom();
    let f = |k: Seq<char>| mod_head(k, after.mods[k]) + seq![alone(';')];
    assert(after.mods.dom() =~= set.insert(name));
    lemma_joined_around(set, name, f);
    lemma_sorted_around(set, name);
    lemma_entries(m.mods, name);
    lemma_text_order();
    let lt = |p: Seq<char>, q: Seq<char>| text_before(p, q);
    assert(!lt(name, name));
    lemma_joined_same(
        sorted(low.mods.dom()),
        f,
        |k: Seq<char>| mod_head(k, low.mods[k]) + seq![alone(';')],
    );
    lemma_joined_same(
        sorted(high.mods.dom()),
        f,
        |k: Seq<char>| mod_head(k, high.mods[k]) + seq![alone(';')],
    );
    lemma_no_items(low);
    lemma_no_items(one);
    lemma_no_meta(true, one);
    lemma_no_meta(true, high);
    assert(one.mods.dom() =~= Set::<Seq<char>>::empty().insert(name));
    lemma_sorted_one(name);
    let g = |k: Seq<char>| mod_head(k, one.mods[k]) + seq![alone(';')];
    assert(seq![name].map_values(g) =~= seq![f(name)]);
    seq![f(name)].lemma_flatten_one_element();
    assert(lib_file(one) =~= f(name));
    assert(lib_file(after) =~= lib_file(low) + lib_file(one) + lib_file(high));
}

/// Items stand in `lib.rs` in the order of their keys, after all else.
pub proof fn law_file_item_in_place(m: ModView, key: Seq<char>, tokens: Seq<Tree>)
    requires
        m.is_finite(),
    ensures
        lib_file(ModView { items: m.items.insert(key, tokens), ..m }) == lib_file(
            ModView { items: entries_before(m.items, key), ..m },
        ) + tokens + lib_file(
            ModView { items: entries_after(m.items, key), ..ModView::empty() },
        ),
{
    let after = ModView { items: m.items.insert(key, tokens), ..m };
    let low = ModView { items: entries_before(m.items, key), ..m };
    let high = ModView { items: entries_after(m.items, key), ..ModView::empty() };
    lemma_items_around(m, key, tokens);
    assert(high.mods.dom() =~= Set::<Seq<char>>::empty());
    law_leaf_contents(high);
    lemma_no_meta(true, high);
    assert(lib_file(high) =~= item_tokens(high));
    assert(lib_file(after) =~= lib_file(low) + tokens + lib_file(high));
}

/// The module has no submodules.
pub open spec fn childless(m: ModView) -> bool {
    forall|name: Seq<char>| !m.mods.contains_key(name)
}

/// `file` is the file of the submodule `name` of `m` itself: `name.rs` if that has
/// no submodules, else `name/mod.rs`.
pub open spec fn is_own_file(m: ModView, name: Seq<char>, file: Seq<Seq<char>>) -> bool {
    &&& m.mods.contains_key(name)
    &&& file == (if childless(m.mods[name]) {
        seq![name + ".rs"@]
    } else {
        seq![name, "mod.rs"@]
    })
}

/// A module without submodules is a leaf.
proof fn lemma_childless(m: ModView)
    ensures
        childless(m) == m.is_leaf(),
{
    if childless(m) {
        assert(m.mods.dom() =~= Set::<Seq<char>>::empty());
    } else {
        let name = choose|name: Seq<char>| m.mods.contains_key(name);
        assert(m.mods.dom().contains(name));
    }
}

/// Without docs and attributes `lib.rs` holds the contents of the module.
proof fn lemma_lib_file_bare(m: ModView)
    ensures
        lib_file(bare(m)) == file_tokens(m),
{
    law_contents_without_meta(m, m.vis, seq![], seq![]);
    lemma_no_meta(true, bare(m));
    assert(lib_file(bare(m)) =~= file_tokens(m));
}

/// Each submodule has a file of its own, which holds what its `lib.rs` would hold
/// if it were a root module, without docs and attributes: these stand at its
/// declaration. Only the file `lib.rs` of the root module comes before it.
pub proof fn law_own_file(m: ModView, name: Seq<char>, file: Seq<Seq<char>>)
    requires
        m.well_named(),
        is_own_file(m, name, file),
        file != seq!["lib.rs"@],
    ensures
        root_files(m).contains_key(file),
        root_files(m)[file] == lib_file(bare(m.mods[name])),
{
    let child = m.mods[name];
    let none = Seq::<Seq<char>>::empty();
    lemma_childless(child);
    lemma_path_of_child(m, none, name);
    assert(none + module_file(seq![name], child.is_leaf()) =~= file) by {
        if child.is_leaf() {
            assert(seq![name].drop_last() =~= none);
        }
    }
    lemma_file_contents(m, none, seq![name], file);
    lemma_lib_file_bare(child);
}

/// Below a directory `name` stand the files that the submodule `name` would have
/// as a root module, other than its `lib.rs`; a file `lib.rs` stands there only
/// for a submodule `lib` of its own.
pub proof fn law_files_below(m: ModView, name: Seq<char>, rest: Seq<Seq<char>>)
    requires
        m.well_named(),
        m.mods.contains_key(name),
        rest.len() > 0,
        rest != seq!["mod.rs"@],
    ensures
        rest != seq!["lib.rs"@] ==> {
            let file = seq![name] + rest;
            &&& root_files(m).contains_key(file) == root_files(m.mods[name]).contains_key(rest)
            &&& root_files(m).contains_key(file) ==> root_files(m)[file] == root_files(
                m.mods[name],
            )[rest]
        },
        rest == seq!["lib.rs"@] ==> {
            let file = seq![name, "lib.rs"@];
            let child = m.mods[name];
            &&& root_files(m).contains_key(file) == (child.mods.contains_key("lib"@) && childless(
                child.mods["lib"@],
            ))
            &&& root_files(m).contains_key(file) ==> root_files(m)[file] == lib_file(
                bare(child.mods["lib"@]),
            )
        },
{
    let child = m.mods[name];
    let none = Seq::<Seq<char>>::empty();
    let file = seq![name] + rest;
    assert(file.len() > 1);
    let p = submodule_files(m, none);
    let q = submodule_files(child, none);
    if p.contains_key(file) {
        let path = choose|path: Seq<Seq<char>>| is_submodule_file(m, none, path, file);
        lemma_stems(m, path);
        let leaf = module_at(m, path)->0.is_leaf();
        let own = module_file(path, leaf);
        assert(none + own =~= own);
        assert(path[0] == name) by {
            assert(own[0] == file[0]);
            if leaf {
                assert(path.len() > 1);
                assert(own[0] == path[0]);
            }
        }
        let below = path.drop_first();
        assert(path =~= seq![name] + below);
        if below.len() == 0 {
            assert(path =~= seq![name]);
            assert(own =~= seq![name, "mod.rs"@]);
            assert(rest =~= file.skip(1));
            assert(rest =~= seq!["mod.rs"@]);
            assert(false);
        }
        lemma_path_below(m, none, name, below, file);
        lemma_shift(child, name, below, rest);
        lemma_file_contents(m, none, path, file);
        lemma_file_contents(child, none, below, rest);
        assert(q.contains_key(rest) && p[file] == q[rest]);
    }
    if q.contains_key(rest) {
        let below = choose|below: Seq<Seq<char>>| is_submodule_file(child, none, below, rest);
        lemma_shift(child, name, below, rest);
        lemma_path_below(m, none, name, below, file);
        lemma_file_contents(m, none, seq![name] + below, file);
        assert(p.contains_key(file));
    }
    assert(file != seq!["lib.rs"@]);
    if rest == seq!["lib.rs"@] {
        assert(file =~= seq![name, "lib.rs"@]);
        lemma_lib_child(child);
    }
}

/// A file below a module, below the directory of that module.
proof fn lemma_shift(child: ModView, name: Seq<char>, below: Seq<Seq<char>>, rest: Seq<Seq<char>>)
    ensures
        is_submodule_file(child, Seq::<Seq<char>>::empty(), below, rest) == is_submodule_file(
            child,
            Seq::<Seq<char>>::empty().push(name),
            below,
            seq![name] + rest,
        ),
{
    let none = Seq::<Seq<char>>::empty();
    if below.len() > 0 && module_at(child, below) is Some {
        let own = module_file(below, module_at(child, below)->0.is_leaf());
        assert(none + own =~= own);
        assert(none.push(name) =~= seq![name]);
        if seq![name] + rest == none.push(name) + own {
            assert(rest =~= (seq![name] + rest).skip(1));
            assert(own =~= (seq![name] + own).skip(1));
        }
    }
}

/// Which submodule has the file `lib.rs`.
proof fn lemma_lib_child(m: ModView)
    requires
        m.well_named(),
    ensures
        submodule_files(m, Seq::<Seq<char>>::empty()).contains_key(seq!["lib.rs"@]) == (
        m.mods.contains_key("lib"@) && childless(m.mods["lib"@])),
        submodule_files(m, Seq::<Seq<char>>::empty()).contains_key(seq!["lib.rs"@]) ==> (
        submodule_files(m, Seq::<Seq<char>>::empty())[seq!["lib.rs"@]] == lib_file(
            bare(m.mods["lib"@]),
        )),
{
    let none = Seq::<Seq<char>>::empty();
    let file = seq!["lib.rs"@];
    let files = submodule_files(m, none);
    reveal_strlit("lib.rs");
    reveal_strlit("lib");
    reveal_strlit(".rs");
    assert("lib"@ + ".rs"@ =~= "lib.rs"@);
    if files.contains_key(file) {
        let path = choose|path: Seq<Seq<char>>| is_submodule_file(m, none, path, file);
        lemma_own_name(m, path, file);
        assert(file[0] == path[0] + ".rs"@);
        assert((path[0] + ".rs"@).len() == path[0].len() + 3);
        assert(path[0] =~= (path[0] + ".rs"@).take(path[0].len() as int));
        assert("lib"@ =~= "lib.rs"@.take(3));
        assert(path[0] == "lib"@);
        lemma_childless(m.mods["lib"@]);
        lemma_file_contents(m, none, path, file);
        lemma_lib_file_bare(m.mods["lib"@]);
    }
    if m.mods.contains_key("lib"@) && childless(m.mods["lib"@]) {
        lemma_childless(m.mods["lib"@]);
        lemma_path_of_child(m, none, "lib"@);
        assert(none + module_file(seq!["lib"@], true) =~= file) by {
            assert(seq!["lib"@].drop_last() =~= none);
        }
        lemma_file_contents(m, none, seq!["lib"@], file);
    }
}

/// A file that lies in no directory is that of a submodule without submodules.
proof fn lemma_own_name(m: ModView, path: Seq<Seq<char>>, file: Seq<Seq<char>>)
    requires
        file.len() == 1,
        is_submodule_file(m, Seq::<Seq<char>>::empty(), path, file),
    ensures
        path.len() == 1,
        m.mods.contains_key(path[0]),
        m.mods[path[0]].is_leaf(),
        file == seq![path[0] + ".rs"@],
        module_at(m, path) == Some(m.mods[path[0]]),
{
    let none = Seq::<Seq<char>>::empty();
    let leaf = module_at(m, path)->0.is_leaf();
    let own = module_file(path, leaf);
    assert(none + own =~= own);
    assert(leaf && path.len() == 1);
    assert(path.drop_first() =~= none);
    assert(module_at(m.mods[path[0]], path.drop_first()) == Some(m.mods[path[0]]));
    assert(own =~= seq![path[0] + ".rs"@]);
}

/// Every file is `lib.rs`, or that of a submodule, or it lies in the directory
/// of a submodule that has submodules itself.
pub proof fn law_no_other_files(m: ModView, file: Seq<Seq<char>>)
    requires
        m.well_named(),
        root_files(m).contains_key(file),
    ensures
        file == seq!["lib.rs"@] || (exists|name: Seq<char>| is_own_file(m, name, file)) || (
        file.len() > 1 && m.mods.contains_key(file[0]) && !childless(m.mods[file[0]])),
{
    let none = Seq::<Seq<char>>::empty();
    if file != seq!["lib.rs"@] {
        let path = choose|path: Seq<Seq<char>>| is_submodule_file(m, none, path, file);
        let leaf = module_at(m, path)->0.is_leaf();
        let own = module_file(path, leaf);
        assert(none + own =~= own);
        if file.len() == 1 {
            lemma_own_name(m, path, file);
            lemma_childless(m.mods[path[0]]);
            assert(is_own_file(m, path[0], file));
        } else {
            let child = m.mods[path[0]];
            lemma_childless(child);
            assert(file.len() > 1);
            assert(own[0] == path[0]);
            if path.len() == 1 {
                assert(path.drop_first() =~= none);
                assert(module_at(child, path.drop_first()) == Some(child));
                assert(!child.is_leaf());
            } else {
                assert(path.drop_first()[0] == path[1]);
                assert(child.mods.contains_key(path[1]));
            }
        }
    }
}

} // verus!
