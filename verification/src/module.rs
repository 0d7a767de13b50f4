//! Modules.
use crate::files::FilePath;
use crate::layout::{
    file_map, files_below, lemma_files_all, lemma_files_next, lemma_files_none, lemma_leaf_files,
};
use crate::model::{
    alone, ascending_texts, block_tokens, file_tokens, item_tokens, joined, lemma_joined_next,
    lemma_sorted, meta_tokens, mod_head, module_file, sorted, stream_tokens, submodule_files, ModView,
    Visibility,
};
use crate::names::{
    ascii_name_fault, is_file_stem, is_mod_name, mod_name_fault, validate_mod_name, ModName,
    ModNameError,
};
use crate::order::{text_before, SortKey};
use crate::render::{head_stream, meta_stream};
use crate::table::{
    ascending, contents, entry_at, find, has_key, keys, lemma_next, lemma_position, lemma_replaced,
    position, put, slot,
};
use crate::text::texts;
use crate::tokens::{append, group, is_ascii_text, punct, trees, Delim, Tree};
use proc_macro2::TokenStream;
use vstd::prelude::*;

verus! {

/// A node in a tree of modules.
///
/// It holds items, which are token streams under arbitrary sort keys, and named
/// submodules, each in order. It also carries metadata, a visibility, doc text
/// and attributes, which affects how the module is rendered but not its
/// contents.
#[derive(Debug)]
pub struct Mod {
    items: Vec<(String, TokenStream)>,
    mods: Vec<(ModName, Mod)>,
    vis: Visibility,
    docs: Vec<String>,
    attrs: Vec<TokenStream>,
}

impl View for Mod {
    type V = ModView;

    open spec fn view(&self) -> ModView {
        self.model()
    }
}

impl Mod {
    /// What the module holds.
    pub closed spec fn model(self) -> ModView
        decreases self,
    {
        ModView {
            items: Map::new(
                |key: Seq<char>| has_key(self.items@, key),
                |key: Seq<char>| trees(self.items@[position(self.items@, key)].1),
            ),
            mods: Map::new(
                |name: Seq<char>| has_key(self.mods@, name),
                |name: Seq<char>|
                    if has_key(self.mods@, name) {
                        self.mods@[position(self.mods@, name)].1.model()
                    } else {
                        ModView::empty()
                    },
            ),
            vis: self.vis,
            docs: texts(self.docs@),
            attrs: self.attrs@.map_values(|attr: TokenStream| trees(attr)),
        }
    }

    /// The keys and names are in order, and so at every depth; names are valid
    /// module names, and can name files.
    pub closed spec fn wf(self) -> bool
        decreases self,
    {
        &&& ascending(self.items@)
        &&& ascending(self.mods@)
        &&& forall|i: int|
            0 <= i < self.mods@.len() ==> is_mod_name((#[trigger] self.mods@[i]).0@)
                && is_file_stem(self.mods@[i].0@) && self.mods@[i].1.wf()
    }

    /// A table of items, by what their streams hold.
    closed spec fn items_of(entries: Seq<(String, TokenStream)>) -> Map<Seq<char>, Seq<Tree>> {
        Map::new(
            |key: Seq<char>| has_key(entries, key),
            |key: Seq<char>| trees(entries[position(entries, key)].1),
        )
    }

    /// A table of modules, by what they hold.
    closed spec fn mods_of(entries: Seq<(ModName, Mod)>) -> Map<Seq<char>, ModView> {
        Map::new(
            |name: Seq<char>| has_key(entries, name),
            |name: Seq<char>| entries[position(entries, name)].1@,
        )
    }

    /// The tables of a module give its model.
    proof fn lemma_tables(self)
        ensures
            self@.items == Self::items_of(self.items@),
            self@.mods == Self::mods_of(self.mods@),
    {
        assert(self@.items =~= Self::items_of(self.items@));
        assert(self@.mods =~= Self::mods_of(self.mods@));
    }

    /// A table of items as a map.
    proof fn lemma_items_of(entries: Seq<(String, TokenStream)>)
        ensures
            Self::items_of(entries).dom() == contents(entries).dom(),
            forall|key: Seq<char>| #[trigger]
                Self::items_of(entries).contains_key(key) ==> Self::items_of(entries)[key] == trees(
                    contents(entries)[key],
                ),
    {
        assert(Self::items_of(entries).dom() =~= contents(entries).dom());
    }

    /// A table of modules as a map.
    proof fn lemma_mods_of(entries: Seq<(ModName, Mod)>)
        ensures
            Self::mods_of(entries).dom() == contents(entries).dom(),
            forall|name: Seq<char>| #[trigger]
                Self::mods_of(entries).contains_key(name) ==> Self::mods_of(entries)[name]
                    == contents(entries)[name]@,
    {
        assert(Self::mods_of(entries).dom() =~= contents(entries).dom());
    }

    /// What a change of one item does to the model.
    proof fn lemma_item_inserted(a: Mod, b: Mod, key: Seq<char>, tokens: TokenStream)
        requires
            a.wf(),
            ascending(b.items@),
            contents(b.items@) == contents(a.items@).insert(key, tokens),
            b.mods == a.mods,
            b.vis == a.vis,
            b.docs == a.docs,
            b.attrs == a.attrs,
        ensures
            b@ == (ModView { items: a@.items.insert(key, trees(tokens)), ..a@ }),
            b.wf(),
    {
        a.lemma_tables();
        b.lemma_tables();
        Self::lemma_items_of(a.items@);
        Self::lemma_items_of(b.items@);
        assert(b@.items =~= a@.items.insert(key, trees(tokens)));
    }

    /// What a change of one submodule does to the model.
    proof fn lemma_mod_inserted(a: Mod, b: Mod, name: Seq<char>, m: Mod)
        requires
            a.wf(),
            is_mod_name(name),
            is_file_stem(name),
            ascending(b.mods@),
            contents(b.mods@) == contents(a.mods@).insert(name, m),
            b.items == a.items,
            b.vis == a.vis,
            b.docs == a.docs,
            b.attrs == a.attrs,
        ensures
            b@ == a@.with_mod(name, m@),
            m.wf() ==> b.wf(),
    {
        a.lemma_tables();
        b.lemma_tables();
        Self::lemma_mods_of(a.mods@);
        Self::lemma_mods_of(b.mods@);
        assert(b@.mods =~= a@.with_mod(name, m@).mods);
        if m.wf() {
            assert forall|i: int| 0 <= i < b.mods@.len() implies is_mod_name(
                (#[trigger] b.mods@[i]).0@,
            ) && is_file_stem(b.mods@[i].0@) && b.mods@[i].1.wf() by {
                lemma_position(b.mods@, i);
                let k = b.mods@[i].0@;
                if k != name {
                    assert(contents(a.mods@).contains_key(k));
                    let j = position(a.mods@, k);
                    assert(entry_at(a.mods@, k, j));
                }
            }
        }
    }

    /// A submodule is well formed, and its name is valid and can name a file.
    proof fn lemma_child(self, i: int)
        requires
            self.wf(),
            0 <= i < self.mods@.len(),
        ensures
            self.mods@[i].1.wf(),
            is_mod_name(self.mods@[i].0@),
            is_file_stem(self.mods@[i].0@),
            self@.mods.contains_key(self.mods@[i].0@),
            self@.mods[self.mods@[i].0@] == self.mods@[i].1@,
    {
        self.lemma_tables();
        lemma_position(self.mods@, i);
    }

    /// One more entry of a table of items.
    proof fn lemma_items_next(entries: Seq<(String, TokenStream)>, i: int)
        requires
            ascending(entries),
            0 <= i < entries.len(),
        ensures
            !Self::items_of(entries.take(i)).contains_key(entries[i].0@),
            Self::items_of(entries.take(i + 1)) == Self::items_of(entries.take(i)).insert(
                entries[i].0@,
                trees(entries[i].1),
            ),
    {
        lemma_next(entries, i);
        Self::lemma_items_of(entries.take(i));
        Self::lemma_items_of(entries.take(i + 1));
        assert(Self::items_of(entries.take(i + 1)) =~= Self::items_of(entries.take(i)).insert(
            entries[i].0@,
            trees(entries[i].1),
        ));
    }

    /// One more entry of a table of modules.
    proof fn lemma_mods_next(entries: Seq<(ModName, Mod)>, i: int)
        requires
            ascending(entries),
            0 <= i < entries.len(),
        ensures
            !Self::mods_of(entries.take(i)).contains_key(entries[i].0@),
            Self::mods_of(entries.take(i + 1)) == Self::mods_of(entries.take(i)).insert(
                entries[i].0@,
                entries[i].1@,
            ),
    {
        lemma_next(entries, i);
        Self::lemma_mods_of(entries.take(i));
        Self::lemma_mods_of(entries.take(i + 1));
        assert(Self::mods_of(entries.take(i + 1)) =~= Self::mods_of(entries.take(i)).insert(
            entries[i].0@,
            entries[i].1@,
        ));
    }

    /// Add code in this module under the given sort `key`.
    ///
    /// `key` is an arbitrary string used only for ordering: it is never emitted
    /// as a token and does not need to be a valid Rust identifier. If an item
    /// already exists under `key`, the tokens are appended to it.
    pub fn add_item(&mut self, key: &str, tokens: TokenStream)
        requires
            old(self).wf(),
        ensures
            final(self)@ == old(self)@.with_item(key@, trees(tokens)),
            final(self).wf(),
    {
        let existing = slot(&mut self.items, key.to_owned(), TokenStream::new());
        append(existing, tokens);
        proof {
            old(self).lemma_tables();
            Self::lemma_items_of(old(self).items@);
            Self::lemma_item_inserted(*old(self), *self, key@, contents(self.items@)[key@]);
        }
    }

    /// Get (or create) a named submodule.
    ///
    /// If a submodule named `name` already exists it is returned; otherwise a
    /// new empty one is created and returned.
    pub fn get_mod(&mut self, name: &str) -> (r: &mut Mod)
        requires
            old(self).wf(),
            is_mod_name(name@),
        ensures
            r@ == old(self)@.child(name@),
            r.wf(),
            final(self)@ == old(self)@.with_mod(name@, final(r)@),
            final(r).wf() ==> final(self).wf(),
    {
        let key = ModName::new(name);
        self.mod_slot(key)
    }

    /// Get (or create) a named submodule, unless `name` cannot name one.
    pub fn try_get_mod(&mut self, name: &str) -> (r: Result<&mut Mod, ModNameError>)
        requires
            old(self).wf(),
        ensures
            match r {
                Ok(m) => {
                    &&& is_mod_name(name@)
                    &&& m@ == old(self)@.child(name@)
                    &&& m.wf()
                    &&& final(self)@ == old(self)@.with_mod(name@, final(m)@)
                    &&& final(m).wf() ==> final(self).wf()
                },
                Err(e) => {
                    &&& *final(self) == *old(self)
                    &&& e.refuses(name@)
                },
            },
            is_ascii_text(name@) ==> mod_name_fault(name@) == ascii_name_fault(name@),
    {
        match validate_mod_name(name, name) {
            Ok(_) => Ok(self.get_mod(name)),
            Err(e) => Err(e),
        }
    }

    /// The submodule `name`, created empty if there is none.
    fn mod_slot(&mut self, name: ModName) -> (r: &mut Mod)
        requires
            old(self).wf(),
        ensures
            r@ == old(self)@.child(name@),
            r.wf(),
            final(self)@ == old(self)@.with_mod(name@, final(r)@),
            final(r).wf() ==> final(self).wf(),
    {
        proof {
            use_type_invariant(&name);
            self.lemma_tables();
            Self::lemma_mods_of(self.mods@);
            if has_key(self.mods@, name@) {
                let i = position(self.mods@, name@);
                assert(entry_at(self.mods@, name@, i));
                self.lemma_child(i);
            }
        }
        let ghost key = name@;
        let r = slot(&mut self.mods, name, Mod::default());
        proof {
            Self::lemma_mod_inserted(*old(self), *after_borrow(self), key, *final(r));
        }
        r
    }

    /// Replace a named submodule, returning the previous value if any.
    pub fn replace_mod(&mut self, name: &str, m: Mod) -> (r: Option<Mod>)
        requires
            old(self).wf(),
            m.wf(),
            is_mod_name(name@),
        ensures
            final(self)@ == old(self)@.with_mod(name@, m@),
            final(self).wf(),
            match r {
                Some(previous) => {
                    &&& old(self)@.mods.contains_key(name@)
                    &&& previous@ == old(self)@.mods[name@]
                    &&& previous.wf()
                },
                None => !old(self)@.mods.contains_key(name@),
            },
    {
        let key = ModName::new(name);
        proof {
            use_type_invariant(&key);
            self.lemma_tables();
            Self::lemma_mods_of(self.mods@);
            if has_key(self.mods@, name@) {
                let i = position(self.mods@, name@);
                assert(entry_at(self.mods@, name@, i));
                self.lemma_child(i);
            }
        }
        let r = put(&mut self.mods, key, m);
        proof {
            Self::lemma_mod_inserted(*old(self), *self, name@, m);
        }
        r
    }

    /// Replace a named submodule, unless `name` cannot name one.
    pub fn try_replace_mod(&mut self, name: &str, m: Mod) -> (r: Result<Option<Mod>, ModNameError>)
        requires
            old(self).wf(),
            m.wf(),
        ensures
            final(self).wf(),
            match r {
                Ok(previous) => {
                    &&& is_mod_name(name@)
                    &&& final(self)@ == old(self)@.with_mod(name@, m@)
                    &&& match previous {
                        Some(p) => {
                            &&& old(self)@.mods.contains_key(name@)
                            &&& p@ == old(self)@.mods[name@]
                            &&& p.wf()
                        },
                        None => !old(self)@.mods.contains_key(name@),
                    }
                },
                Err(e) => {
                    &&& *final(self) == *old(self)
                    &&& e.refuses(name@)
                },
            },
            is_ascii_text(name@) ==> mod_name_fault(name@) == ascii_name_fault(name@),
    {
        match validate_mod_name(name, name) {
            Ok(_) => Ok(self.replace_mod(name, m)),
            Err(e) => Err(e),
        }
    }

    /// Merge another module into this one.
    ///
    /// Items of `other` are appended under their keys, and submodules of the
    /// same name are merged recursively; other submodules are inserted. Docs
    /// and attributes of `other` follow those of `self`; the visibility of
    /// `self` is kept.
    pub fn merge(&mut self, other: Mod)
        requires
            old(self).wf(),
            other.wf(),
        ensures
            final(self)@ == old(self)@.merged(other@),
            final(self).wf(),
        decreases other, 0int,
    {
        let ghost theirs = other;
        let ghost start = self@;
        let items = other.items;
        let mods = other.mods;
        let mut docs = other.docs;
        let mut attrs = other.attrs;
        proof {
            theirs.lemma_tables();
            assert(self@ =~= start.merged_items(Self::items_of(theirs.items@.take(0))));
        }
        for entry in it: items
            invariant
                theirs.wf(),
                it.seq() == theirs.items@,
                self.wf(),
                self@ == start.merged_items(Self::items_of(theirs.items@.take(it.index()))),
        {
            let ghost i = it.index();
            let (key, tokens) = entry;
            self.add_item(key.as_str(), tokens);
            proof {
                Self::lemma_items_next(theirs.items@, i);
                assert(self@ =~= start.merged_items(Self::items_of(theirs.items@.take(i + 1))));
            }
        }
        let ghost middle = self@;
        proof {
            assert(theirs.items@.take(theirs.items@.len() as int) =~= theirs.items@);
            assert(self@.mods =~= middle.merged_mods(Self::mods_of(theirs.mods@.take(0))).mods);
            assert(self@ =~= middle.merged_mods(Self::mods_of(theirs.mods@.take(0))));
        }
        for entry in it: mods
            invariant
                theirs == other,
                theirs.wf(),
                it.seq() == theirs.mods@,
                self.wf(),
                self@ == middle.merged_mods(Self::mods_of(theirs.mods@.take(it.index()))),
        {
            let ghost i = it.index();
            let (name, m) = entry;
            proof {
                theirs.lemma_child(i);
                assert(m == theirs.mods@[i].1);
                assert(decreases_to!(theirs => theirs.mods@[i].1));
            }
            self.add_named(name, m);
            proof {
                Self::lemma_mods_next(theirs.mods@, i);
                assert(self@.mods =~= middle.merged_mods(Self::mods_of(theirs.mods@.take(i + 1))).mods);
                assert(self@ =~= middle.merged_mods(Self::mods_of(theirs.mods@.take(i + 1))));
            }
        }
        proof {
            assert(theirs.mods@.take(theirs.mods@.len() as int) =~= theirs.mods@);
        }
        self.docs.append(&mut docs);
        self.attrs.append(&mut attrs);
        proof {
            let end = start.merged(theirs@);
            assert(self@.items =~= end.items);
            assert(self@.mods =~= end.mods);
            assert(self@.docs =~= end.docs);
            assert(self@.attrs =~= end.attrs);
            assert(self@.vis == end.vis);
            assert(self.wf());
        }
    }

    /// Add the submodule `name`, merging if one already exists.
    fn add_named(&mut self, name: ModName, m: Mod)
        requires
            old(self).wf(),
            m.wf(),
        ensures
            final(self)@ == old(self)@.with_merged_mod(name@, m@),
            final(self).wf(),
        decreases m, 1int,
    {
        proof {
            use_type_invariant(&name);
            self.lemma_tables();
            Self::lemma_mods_of(self.mods@);
        }
        let ghost key = name@;
        match find(&self.mods, &name) {
            Ok(i) => {
                proof {
                    self.lemma_child(i as int);
                    lemma_position(self.mods@, i as int);
                }
                let existing = &mut self.mods[i].1;
                existing.merge(m);
                proof {
                    lemma_replaced(old(self).mods@, self.mods@, i as int);
                    Self::lemma_mod_inserted(*old(self), *self, key, self.mods@[i as int].1);
                }
            },
            Err(_) => {
                let _displaced = put(&mut self.mods, name, m);
                proof {
                    Self::lemma_mod_inserted(*old(self), *self, key, m);
                }
            },
        }
    }

    /// Add a named submodule, merging if one already exists.
    ///
    /// If a submodule named `name` already exists, `m` is merged into it;
    /// otherwise `m` is inserted as a new submodule. Relative paths inside the
    /// tokens of `m` (`super::..`) are left as they are.
    pub fn add_mod(&mut self, name: &str, m: Mod)
        requires
            old(self).wf(),
            m.wf(),
            is_mod_name(name@),
        ensures
            final(self)@ == old(self)@.with_merged_mod(name@, m@),
            final(self).wf(),
    {
        let key = ModName::new(name);
        self.add_named(key, m);
    }

    /// Add a named submodule, unless `name` cannot name one.
    pub fn try_add_mod(&mut self, name: &str, m: Mod) -> (r: Result<(), ModNameError>)
        requires
            old(self).wf(),
            m.wf(),
        ensures
            final(self).wf(),
            match r {
                Ok(_) => {
                    &&& is_mod_name(name@)
                    &&& final(self)@ == old(self)@.with_merged_mod(name@, m@)
                },
                Err(e) => {
                    &&& *final(self) == *old(self)
                    &&& e.refuses(name@)
                },
            },
            is_ascii_text(name@) ==> mod_name_fault(name@) == ascii_name_fault(name@),
    {
        match validate_mod_name(name, name) {
            Ok(_) => {
                self.add_mod(name, m);
                Ok(())
            },
            Err(e) => Err(e),
        }
    }

    /// Set the visibility of this module, which controls how its `mod` block or
    /// declaration is rendered.
    pub fn set_visibility(&mut self, vis: Visibility)
        requires
            old(self).wf(),
        ensures
            final(self)@ == (ModView { vis, ..old(self)@ }),
            final(self).wf(),
    {
        self.vis = vis;
        proof {
            self.lemma_tables();
            old(self).lemma_tables();
        }
    }

    /// Add a paragraph of doc text to this module.
    ///
    /// `docs` is plain text and may span multiple lines.
    pub fn add_docs(&mut self, docs: &str)
        requires
            old(self).wf(),
        ensures
            final(self)@ == (ModView { docs: old(self)@.docs.push(docs@), ..old(self)@ }),
            final(self).wf(),
    {
        self.docs.push(docs.to_owned());
        proof {
            self.lemma_tables();
            old(self).lemma_tables();
            assert(self@.docs =~= old(self)@.docs.push(docs@));
        }
    }

    /// Add an attribute to this module.
    ///
    /// `attr` is the content of the attribute only, without the brackets.
    pub fn add_attr(&mut self, attr: TokenStream)
        requires
            old(self).wf(),
        ensures
            final(self)@ == (ModView { attrs: old(self)@.attrs.push(trees(attr)), ..old(self)@ }),
            final(self).wf(),
    {
        self.attrs.push(attr);
        proof {
            self.lemma_tables();
            old(self).lemma_tables();
            assert(self@.attrs =~= old(self)@.attrs.push(trees(attr)));
        }
    }

    /// The docs and attributes of this module in outer form, for emission
    /// immediately before its `mod` block or declaration.
    pub(crate) fn outer_meta(&self) -> (r: TokenStream)
        ensures
            trees(r) == meta_tokens(false, self@),
    {
        meta_stream(false, &self.docs, &self.attrs)
    }

    /// The docs and attributes of this module in inner form, for emission at
    /// the top of a stream or file.
    pub(crate) fn inner_meta(&self) -> (r: TokenStream)
        ensures
            trees(r) == meta_tokens(true, self@),
    {
        meta_stream(true, &self.docs, &self.attrs)
    }

    /// The names of the entries, sorted, are those of the map.
    proof fn lemma_sorted_names(self)
        requires
            self.wf(),
        ensures
            keys(self.mods@).to_set() == self@.mods.dom(),
            keys(self.items@).to_set() == self@.items.dom(),
            sorted(self@.mods.dom()) == keys(self.mods@),
            sorted(self@.items.dom()) == keys(self.items@),
    {
        self.lemma_tables();
        let names = keys(self.mods@);
        assert forall|k: Seq<char>| names.to_set().contains(k) == self@.mods.contains_key(k) by {
            if names.contains(k) {
                let i = choose|i: int| 0 <= i < names.len() && names[i] == k;
                assert(entry_at(self.mods@, k, i));
            }
            if has_key(self.mods@, k) {
                let i = position(self.mods@, k);
                assert(entry_at(self.mods@, k, i));
                assert(names[i] == k);
            }
        }
        assert(names.to_set() =~= self@.mods.dom());
        assert(ascending_texts(names)) by {
            assert forall|i: int, j: int|
                #![trigger names[i], names[j]]
                0 <= i < j < names.len() implies text_before(names[i], names[j]) by {
                assert(ModName::before(self.mods@[i].0@, self.mods@[j].0@));
            }
        }
        lemma_sorted(names);
        let ks = keys(self.items@);
        assert forall|k: Seq<char>| ks.to_set().contains(k) == self@.items.contains_key(k) by {
            if ks.contains(k) {
                let i = choose|i: int| 0 <= i < ks.len() && ks[i] == k;
                assert(entry_at(self.items@, k, i));
            }
            if has_key(self.items@, k) {
                let i = position(self.items@, k);
                assert(entry_at(self.items@, k, i));
                assert(ks[i] == k);
            }
        }
        assert(ks.to_set() =~= self@.items.dom());
        assert(ascending_texts(ks)) by {
            assert forall|i: int, j: int|
                #![trigger ks[i], ks[j]]
                0 <= i < j < ks.len() implies text_before(ks[i], ks[j]) by {
                assert(<String as SortKey>::before(self.items@[i].0@, self.items@[j].0@));
            }
        }
        lemma_sorted(ks);
    }

    /// The items of a table, in order.
    fn items_stream(items: Vec<(String, TokenStream)>) -> (r: TokenStream)
        requires
            ascending(items@),
        ensures
            trees(r) == joined(keys(items@), |key: Seq<char>| Self::items_of(items@)[key]),
    {
        let mut out = TokenStream::new();
        let ghost table = items@;
        let ghost ks = keys(table);
        let ghost f = |key: Seq<char>| Self::items_of(table)[key];
        assert(ks.take(0).map_values(f) =~= seq![]);
        for entry in it: items
            invariant
                ascending(table),
                f == (|key: Seq<char>| Self::items_of(table)[key]),
                it.seq() == table,
                ks == keys(table),
                trees(out) == joined(ks.take(it.index()), f),
        {
            let ghost i = it.index();
            let (_, tokens) = entry;
            append(&mut out, tokens);
            proof {
                lemma_position(table, i);
                lemma_joined_next(ks, f, i);
            }
        }
        assert(ks.take(ks.len() as int) =~= ks);
        out
    }

    /// The contents of this module in one stream: its items in the order of
    /// their keys, then its submodules, each in its own `mod` block, in the
    /// order of their names. The metadata of this module itself is not included.
    pub(crate) fn into_stream(self) -> (r: TokenStream)
        requires
            self.wf(),
        ensures
            trees(r) == stream_tokens(self@),
        decreases self,
    {
        let ghost whole = self;
        let mut out = Self::items_stream(self.items);
        let mods = self.mods;
        let ghost names = keys(mods@);
        let ghost head = trees(out);
        proof {
            whole.lemma_tables();
            whole.lemma_sorted_names();
            assert(head == item_tokens(whole@));
            assert(trees(out) =~= head + block_tokens(whole@, names.take(0)));
        }
        for entry in it: mods
            invariant
                whole == self,
                whole.wf(),
                it.seq() == whole.mods@,
                names == keys(whole.mods@),
                trees(out) == head + block_tokens(whole@, names.take(it.index())),
        {
            let ghost i = it.index();
            let (name, m) = entry;
            proof {
                whole.lemma_child(i);
                assert(decreases_to!(whole => whole.mods@[i].1));
            }
            let block = head_stream(m.outer_meta(), m.vis, &name);
            append(&mut out, block);
            let contents = m.into_stream();
            append(&mut out, group(Delim::Brace, contents));
            proof {
                let next = names.take(i + 1);
                assert(next.drop_last() =~= names.take(i));
                assert(next.last() == name@);
                assert(trees(out) =~= head + block_tokens(whole@, next));
            }
        }
        proof {
            assert(names.take(names.len() as int) =~= names);
        }
        out
    }

    /// What a well-formed module holds is finite, and the names of its
    /// submodules are valid module names that can name files, at every depth.
    pub proof fn lemma_wf(self)
        requires
            self.wf(),
        ensures
            self@.validly_named(),
            self@.well_named(),
            self@.is_finite(),
        decreases self,
    {
        self.lemma_tables();
        self.lemma_sorted_names();
        assert forall|name: Seq<char>| #[trigger] self@.mods.contains_key(name) implies is_mod_name(
            name,
        ) && is_file_stem(name) && self@.mods[name].validly_named() && self@.mods[name].well_named()
            && self@.mods[name].is_finite() by {
            let i = position(self.mods@, name);
            assert(entry_at(self.mods@, name, i));
            self.lemma_child(i);
            self.mods@[i].1.lemma_wf();
        }
    }

    /// A module without entries for submodules is a leaf.
    proof fn lemma_leaf(self)
        ensures
            self@.is_leaf() == (self.mods@.len() == 0),
    {
        self.lemma_tables();
        if self.mods@.len() == 0 {
            assert(self@.mods.dom() =~= Set::<Seq<char>>::empty());
        } else {
            assert(entry_at(self.mods@, self.mods@[0].0@, 0));
            assert(self@.mods.dom().contains(self.mods@[0].0@));
        }
    }

    /// The contents of this module as a file: a `mod` declaration for each
    /// submodule, in the order of their names, then its items in the order of
    /// their keys. The files of its submodules are put into `files`: `name.rs`
    /// under `dir` for a leaf, or `name/mod.rs` for a module with submodules,
    /// which in turn have their files below `name/`. The metadata of this
    /// module itself is not included.
    pub(crate) fn into_file_contents(
        self,
        dir: &FilePath,
        files: &mut Vec<(FilePath, TokenStream)>,
    ) -> (r: TokenStream)
        requires
            self.wf(),
            ascending(old(files)@),
        ensures
            trees(r) == file_tokens(self@),
            ascending(final(files)@),
            file_map(final(files)@) == file_map(old(files)@).union_prefer_right(
                submodule_files(self@, dir@),
            ),
        decreases self,
    {
        let ghost whole = self;
        let ghost start = file_map(files@);
        let mut out = TokenStream::new();
        let mods = self.mods;
        let ghost names = keys(mods@);
        let ghost f = |name: Seq<char>| mod_head(name, whole@.mods[name]) + seq![alone(';')];
        proof {
            whole.lemma_tables();
            whole.lemma_sorted_names();
            whole.lemma_wf();
            assert(names.take(0).map_values(f) =~= seq![]);
            lemma_files_none(whole@, dir@);
            assert(names.take(0).to_set() =~= Set::empty());
            assert(file_map(files@) =~= start.union_prefer_right(
                files_below(whole@, dir@, names.take(0).to_set()),
            ));
        }
        for entry in it: mods
            invariant
                whole == self,
                whole.wf(),
                whole@.well_named(),
                f == (|name: Seq<char>| mod_head(name, whole@.mods[name]) + seq![alone(';')]),
                it.seq() == whole.mods@,
                names == keys(whole.mods@),
                trees(out) == joined(names.take(it.index()), f),
                ascending(files@),
                file_map(files@) == start.union_prefer_right(
                    files_below(whole@, dir@, names.take(it.index()).to_set()),
                ),
        {
            let ghost i = it.index();
            let (name, m) = entry;
            let ghost child = m@;
            let ghost done = names.take(i).to_set();
            proof {
                whole.lemma_child(i);
                assert(decreases_to!(whole => whole.mods@[i].1));
                m.lemma_leaf();
            }
            append(&mut out, head_stream(m.outer_meta(), m.vis, &name));
            append(&mut out, punct(';'));
            let ghost below = dir@.push(name@);
            let file: FilePath;
            let contents: TokenStream;
            if m.mods.len() == 0 {
                let mut base = name.as_str().to_owned();
                base.append(".rs");
                file = dir.join(base.as_str());
                proof {
                    lemma_leaf_files(child, dir@);
                    lemma_leaf_files(child, below);
                    assert(file@ =~= dir@ + module_file(seq![name@], true));
                }
                contents = m.into_file_contents(dir, files);
            } else {
                let child_dir = dir.join(name.as_str());
                file = child_dir.join("mod.rs");
                assert(file@ =~= dir@ + module_file(seq![name@], false));
                contents = m.into_file_contents(&child_dir, files);
            }
            let ghost before = files@;
            let _displaced = put(files, file, contents);
            proof {
                assert(file_map(files@) =~= file_map(before).insert(
                    dir@ + module_file(seq![name@], child.is_leaf()),
                    file_tokens(child),
                ));
                lemma_files_next(whole@, dir@, done, name@);
                assert(names.take(i + 1) =~= names.take(i).push(name@));
                names.take(i).lemma_push_to_set_commute(name@);
                assert(file_map(files@) =~= start.union_prefer_right(
                    files_below(whole@, dir@, done.insert(name@)),
                ));
                lemma_joined_next(names, f, i);
                assert(trees(out) =~= joined(names.take(i + 1), f));
            }
        }
        proof {
            assert(names.take(names.len() as int) =~= names);
            whole.lemma_sorted_names();
            lemma_files_all(whole@, dir@);
        }
        append(&mut out, Self::items_stream(self.items));
        out
    }
}

impl Default for Mod {
    fn default() -> (r: Self)
        ensures
            r@ == ModView::empty(),
            r.wf(),
    {
        let r = Mod {
            items: Vec::new(),
            mods: Vec::new(),
            vis: Visibility::Pub,
            docs: Vec::new(),
            attrs: Vec::new(),
        };
        assert(r@.items =~= ModView::empty().items);
        assert(r@.mods =~= ModView::empty().mods);
        assert(r@.docs =~= ModView::empty().docs);
        assert(r@.attrs =~= ModView::empty().attrs);
        r
    }
}

} // verus!
