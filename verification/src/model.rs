//! What modules are, and what they render to.
use crate::names::{is_file_stem, is_mod_name};
use crate::order::{lemma_text_order, text_before};
use crate::text::lines;
use crate::tokens::{Delim, Tree};
use vstd::prelude::*;

verus! {

/// Visibility of a module, as rendered on its `mod` block or declaration.
///
/// The default is `Pub`. The visibility of a root module is never rendered:
/// the root has no `mod` block or declaration.
#[non_exhaustive]
#[derive(Debug, Clone, Copy, PartialEq, Eq, Structural)]
pub enum Visibility {
    /// Rendered as `pub mod name`.
    Pub,
    /// Rendered as `pub(crate) mod name`.
    Crate,
    /// Rendered as `mod name`.
    Private,
}

impl Default for Visibility {
    fn default() -> (r: Self)
        ensures
            r == Visibility::Pub,
    {
        Visibility::Pub
    }
}

/// A module: its items by sort key, its submodules by name, and its metadata.
#[verifier::ext_equal]
pub struct ModView {
    pub items: Map<Seq<char>, Seq<Tree>>,
    pub mods: Map<Seq<char>, ModView>,
    pub vis: Visibility,
    pub docs: Seq<Seq<char>>,
    pub attrs: Seq<Seq<Tree>>,
}

impl ModView {
    /// A module that holds nothing.
    pub open spec fn empty() -> ModView {
        ModView {
            items: Map::empty(),
            mods: Map::empty(),
            vis: Visibility::Pub,
            docs: seq![],
            attrs: seq![],
        }
    }

    /// The tokens under `key`; none if there is no such item.
    pub open spec fn item(self, key: Seq<char>) -> Seq<Tree> {
        if self.items.contains_key(key) {
            self.items[key]
        } else {
            seq![]
        }
    }

    /// The submodule `name`; an empty one if there is none.
    pub open spec fn child(self, name: Seq<char>) -> ModView {
        if self.mods.contains_key(name) {
            self.mods[name]
        } else {
            ModView::empty()
        }
    }

    /// The module has no submodules.
    pub open spec fn is_leaf(self) -> bool {
        self.mods.dom() == Set::<Seq<char>>::empty()
    }

    /// With `tokens` added after what is under `key`.
    pub open spec fn with_item(self, key: Seq<char>, tokens: Seq<Tree>) -> ModView {
        ModView { items: self.items.insert(key, self.item(key) + tokens), ..self }
    }

    /// With `m` as the submodule `name`, whatever was there before.
    pub open spec fn with_mod(self, name: Seq<char>, m: ModView) -> ModView {
        ModView { mods: self.mods.insert(name, m), ..self }
    }

    /// With `m` as the submodule `name`, merged into the one that is there.
    pub open spec fn with_merged_mod(self, name: Seq<char>, m: ModView) -> ModView {
        if self.mods.contains_key(name) {
            self.with_mod(name, self.mods[name].merged(m))
        } else {
            self.with_mod(name, m)
        }
    }

    /// With `tokens` added at a path: all segments but the last lead down
    /// through submodules, the last is the key there.
    pub open spec fn with_item_at(self, path: Seq<Seq<char>>, tokens: Seq<Tree>) -> ModView
        decreases path.len(),
    {
        if path.len() <= 1 {
            self.with_item(path[0], tokens)
        } else {
            self.with_mod(path[0], self.child(path[0]).with_item_at(path.drop_first(), tokens))
        }
    }

    /// With `items` added: tokens after those under the same key.
    pub open spec fn merged_items(self, items: Map<Seq<char>, Seq<Tree>>) -> ModView {
        ModView {
            items: Map::new(
                |key: Seq<char>| self.items.contains_key(key) || items.contains_key(key),
                |key: Seq<char>|
                    self.item(key) + if items.contains_key(key) {
                        items[key]
                    } else {
                        seq![]
                    },
            ),
            ..self
        }
    }

    /// With `mods` added: each merged into the submodule of the same name.
    pub open spec fn merged_mods(self, mods: Map<Seq<char>, ModView>) -> ModView
        decreases self, 0int,
    {
        ModView {
            mods: Map::new(
                |name: Seq<char>| self.mods.contains_key(name) || mods.contains_key(name),
                |name: Seq<char>|
                    if !self.mods.contains_key(name) {
                        mods[name]
                    } else if !mods.contains_key(name) {
                        self.mods[name]
                    } else {
                        self.mods[name].merged(mods[name])
                    },
            ),
            ..self
        }
    }

    /// With all that `other` holds added: items after those under their keys,
    /// submodules merged into those of the same name, docs and attributes at
    /// the end. The visibility stays.
    pub open spec fn merged(self, other: ModView) -> ModView
        decreases self, 1int,
    {
        ModView {
            items: self.merged_items(other.items).items,
            mods: self.merged_mods(other.mods).mods,
            vis: self.vis,
            docs: self.docs + other.docs,
            attrs: self.attrs + other.attrs,
        }
    }

    /// The name of every submodule, at any depth, is a valid module name.
    pub open spec fn validly_named(self) -> bool
        decreases self,
    {
        forall|name: Seq<char>| #[trigger]
            self.mods.contains_key(name) ==> is_mod_name(name) && self.mods[name].validly_named()
    }

    /// The name of every submodule, at any depth, can name a file.
    pub open spec fn well_named(self) -> bool
        decreases self,
    {
        forall|name: Seq<char>| #[trigger]
            self.mods.contains_key(name) ==> is_file_stem(name) && self.mods[name].well_named()
    }

    /// The module holds finitely many items and submodules, and so at any depth.
    pub open spec fn is_finite(self) -> bool
        decreases self,
    {
        &&& self.items.dom().finite()
        &&& self.mods.dom().finite()
        &&& forall|name: Seq<char>| #[trigger]
            self.mods.contains_key(name) ==> self.mods[name].is_finite()
    }
}

/// The texts stand in ascending order, none of them twice.
pub open spec fn ascending_texts(s: Seq<Seq<char>>) -> bool {
    forall|i: int, j: int|
        #![trigger s[i], s[j]]
        0 <= i < j < s.len() ==> text_before(s[i], s[j])
}

/// The elements of a set of texts, in ascending order.
pub open spec fn sorted(set: Set<Seq<char>>) -> Seq<Seq<char>> {
    choose|s: Seq<Seq<char>>| ascending_texts(s) && #[trigger] s.to_set() == set
}

/// What `f` gives for each of the texts, one after the other.
pub open spec fn joined(s: Seq<Seq<char>>, f: spec_fn(Seq<char>) -> Seq<Tree>) -> Seq<Tree> {
    s.map_values(f).flatten()
}

/// The tokens before the keyword `mod`.
pub open spec fn vis_tokens(vis: Visibility) -> Seq<Tree> {
    match vis {
        Visibility::Pub => seq![Tree::Ident("pub"@)],
        Visibility::Crate => seq![
            Tree::Ident("pub"@),
            Tree::Group(Delim::Parenthesis, seq![Tree::Ident("crate"@)]),
        ],
        Visibility::Private => seq![],
    }
}

/// A punctuation character on its own.
pub open spec fn alone(ch: char) -> Tree {
    Tree::Punct { ch, joint: false }
}

/// An attribute, `#[..]` or, as an inner one, `#![..]`.
pub open spec fn attribute(inner: bool, body: Seq<Tree>) -> Seq<Tree> {
    if inner {
        seq![alone('#'), alone('!'), Tree::Group(Delim::Bracket, body)]
    } else {
        seq![alone('#'), Tree::Group(Delim::Bracket, body)]
    }
}

/// A line of documentation, as an attribute.
pub open spec fn doc_attribute(inner: bool, line: Seq<char>) -> Seq<Tree> {
    attribute(inner, seq![Tree::Ident("doc"@), alone('='), Tree::Str(line)])
}

/// A paragraph of documentation: an empty line before it, unless it is the
/// first, and each of its lines.
pub open spec fn paragraph(inner: bool, first: bool, text: Seq<char>) -> Seq<Tree> {
    (if first {
        seq![]
    } else {
        doc_attribute(inner, seq![])
    }) + joined(lines(text), |line: Seq<char>| doc_attribute(inner, line))
}

/// The paragraphs of a documentation.
pub open spec fn doc_tokens(inner: bool, docs: Seq<Seq<char>>) -> Seq<Tree> {
    Seq::new(docs.len(), |i: int| paragraph(inner, i == 0, docs[i])).flatten()
}

/// Attributes, each in its brackets.
pub open spec fn attr_tokens(inner: bool, attrs: Seq<Seq<Tree>>) -> Seq<Tree> {
    attrs.map_values(|attr: Seq<Tree>| attribute(inner, attr)).flatten()
}

/// The documentation and the attributes of a module.
pub open spec fn meta_tokens(inner: bool, m: ModView) -> Seq<Tree> {
    doc_tokens(inner, m.docs) + attr_tokens(inner, m.attrs)
}

/// What stands before the body or the semicolon of a submodule: its metadata,
/// its visibility, and `mod name`.
pub open spec fn mod_head(name: Seq<char>, m: ModView) -> Seq<Tree> {
    meta_tokens(false, m) + vis_tokens(m.vis) + seq![Tree::Ident("mod"@), Tree::Ident(name)]
}

/// The items of a module, in the order of their keys.
pub open spec fn item_tokens(m: ModView) -> Seq<Tree> {
    joined(sorted(m.items.dom()), |key: Seq<char>| m.items[key])
}

/// The submodules `names` of a module, each as a block with its contents.
pub open spec fn block_tokens(m: ModView, names: Seq<Seq<char>>) -> Seq<Tree>
    decreases m, names.len(),
{
    if names.len() == 0 {
        seq![]
    } else if m.mods.contains_key(names.last()) {
        let child = m.mods[names.last()];
        block_tokens(m, names.drop_last()) + mod_head(names.last(), child) + seq![
            Tree::Group(Delim::Brace, stream_tokens(child)),
        ]
    } else {
        block_tokens(m, names.drop_last())
    }
}

/// The contents of a module in one stream: its items, then its submodules, each
/// as a block, in the order of their names.
pub open spec fn stream_tokens(m: ModView) -> Seq<Tree>
    decreases m, sorted(m.mods.dom()).len() + 1,
{
    item_tokens(m) + block_tokens(m, sorted(m.mods.dom()))
}

/// A root module in one stream: its metadata in inner form, then its contents.
pub open spec fn root_stream(m: ModView) -> Seq<Tree> {
    meta_tokens(true, m) + stream_tokens(m)
}

/// The contents of a module as a file: a declaration for each submodule, in the
/// order of their names, then its items.
pub open spec fn file_tokens(m: ModView) -> Seq<Tree> {
    joined(
        sorted(m.mods.dom()),
        |name: Seq<char>| mod_head(name, m.mods[name]) + seq![alone(';')],
    ) + item_tokens(m)
}

/// The submodule that a path of names leads to.
pub open spec fn module_at(m: ModView, path: Seq<Seq<char>>) -> Option<ModView>
    decreases path.len(),
{
    if path.len() == 0 {
        Some(m)
    } else if m.mods.contains_key(path[0]) {
        module_at(m.mods[path[0]], path.drop_first())
    } else {
        None
    }
}

/// The tokens at a path: all segments but the last lead down through
/// submodules, the last is the key there.
pub open spec fn item_at(m: ModView, path: Seq<Seq<char>>) -> Seq<Tree> {
    match module_at(m, path.drop_last()) {
        Some(parent) => parent.item(path.last()),
        None => seq![],
    }
}

/// The file of the module at `path`: `name.rs` for a leaf, `name/mod.rs` for
/// one with submodules.
pub open spec fn module_file(path: Seq<Seq<char>>, leaf: bool) -> Seq<Seq<char>> {
    if leaf {
        path.drop_last().push(path.last() + ".rs"@)
    } else {
        path.push("mod.rs"@)
    }
}

/// `file`, below `dir`, is the file of the submodule of `m` at `path`.
pub open spec fn is_submodule_file(
    m: ModView,
    dir: Seq<Seq<char>>,
    path: Seq<Seq<char>>,
    file: Seq<Seq<char>>,
) -> bool {
    &&& path.len() > 0
    &&& module_at(m, path) is Some
    &&& file == dir + module_file(path, module_at(m, path)->0.is_leaf())
}

/// The files of the submodules of `m`, at any depth, below `dir`.
pub open spec fn submodule_files(m: ModView, dir: Seq<Seq<char>>) -> Map<
    Seq<Seq<char>>,
    Seq<Tree>,
> {
    Map::new(
        |file: Seq<Seq<char>>| exists|path: Seq<Seq<char>>| is_submodule_file(m, dir, path, file),
        |file: Seq<Seq<char>>|
            file_tokens(
                module_at(
                    m,
                    choose|path: Seq<Seq<char>>| is_submodule_file(m, dir, path, file),
                )->0,
            ),
    )
}

/// The file of a root module.
pub open spec fn root_file() -> Seq<Seq<char>> {
    seq!["lib.rs"@]
}

/// A root module as files: its own, which holds its metadata in inner form and
/// its contents, and those of its submodules.
pub open spec fn root_files(m: ModView) -> Map<Seq<Seq<char>>, Seq<Tree>> {
    submodule_files(m, seq![]).insert(root_file(), meta_tokens(true, m) + file_tokens(m))
}

/// Two ascending sequences of the same texts are the same.
proof fn lemma_ascending_unique(s: Seq<Seq<char>>, t: Seq<Seq<char>>)
    requires
        ascending_texts(s),
        ascending_texts(t),
        s.to_set() == t.to_set(),
    ensures
        s == t,
    decreases s.len(),
{
    lemma_text_order();
    let lt = |a: Seq<char>, b: Seq<char>| text_before(a, b);
    if s.len() == 0 {
        if t.len() > 0 {
            assert(t.to_set().contains(t[0]));
            assert(s.contains(t[0]));
        }
        assert(s =~= t);
    } else {
        assert(s.to_set().contains(s.last()));
        assert(t.contains(s.last()));
        assert(t.to_set().contains(t.last()));
        assert(s.contains(t.last()));
        let i = choose|i: int| 0 <= i < s.len() && s[i] == t.last();
        let j = choose|j: int| 0 <= j < t.len() && t[j] == s.last();
        if s.last() != t.last() {
            assert(lt(s[i], s[s.len() - 1]));
            assert(lt(t[j], t[t.len() - 1]));
            assert(lt(s.last(), s.last()));
            assert(false);
        }
        let p = s.drop_last();
        let q = t.drop_last();
        assert forall|x: Seq<char>| p.to_set().contains(x) == q.to_set().contains(x) by {
            if p.contains(x) {
                let k = choose|k: int| 0 <= k < p.len() && p[k] == x;
                assert(s[k] == x);
                assert(lt(s[k], s[s.len() - 1]));
                assert(x != s.last());
                assert(s.to_set().contains(x));
                assert(t.contains(x));
                let l = choose|l: int| 0 <= l < t.len() && t[l] == x;
                assert(q[l] == x);
            }
            if q.contains(x) {
                let k = choose|k: int| 0 <= k < q.len() && q[k] == x;
                assert(t[k] == x);
                assert(lt(t[k], t[t.len() - 1]));
                assert(x != t.last());
                assert(t.to_set().contains(x));
                assert(s.contains(x));
                let l = choose|l: int| 0 <= l < s.len() && s[l] == x;
                assert(p[l] == x);
            }
        }
        assert(p.to_set() =~= q.to_set());
        assert(ascending_texts(p)) by {
            assert forall|a: int, b: int|
                #![trigger p[a], p[b]]
                0 <= a < b < p.len() implies text_before(p[a], p[b]) by {
                assert(p[a] == s[a] && p[b] == s[b]);
            }
        }
        assert(ascending_texts(q)) by {
            assert forall|a: int, b: int|
                #![trigger q[a], q[b]]
                0 <= a < b < q.len() implies text_before(q[a], q[b]) by {
                assert(q[a] == t[a] && q[b] == t[b]);
            }
        }
        lemma_ascending_unique(p, q);
        assert(s =~= p.push(s.last()));
        assert(t =~= q.push(t.last()));
    }
}

/// An ascending sequence is what its set sorts into.
pub proof fn lemma_sorted(s: Seq<Seq<char>>)
    requires
        ascending_texts(s),
    ensures
        sorted(s.to_set()) == s,
{
    let t = sorted(s.to_set());
    assert(ascending_texts(t) && t.to_set() == s.to_set());
    lemma_ascending_unique(s, t);
}

/// What is joined grows by what `f` gives for the next text.
pub proof fn lemma_joined_next(s: Seq<Seq<char>>, f: spec_fn(Seq<char>) -> Seq<Tree>, i: int)
    requires
        0 <= i < s.len(),
    ensures
        joined(s.take(i + 1), f) == joined(s.take(i), f) + f(s[i]),
{
    let done = s.take(i).map_values(f);
    assert(s.take(i + 1).map_values(f) =~= done.push(f(s[i])));
    done.lemma_flatten_push(f(s[i]));
}

} // verus!
