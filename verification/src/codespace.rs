//! The tree of modules under one root.
use crate::files::FilePath;
use crate::layout::file_map;
use crate::model::{root_file, root_files, root_stream, submodule_files, ModView};
use crate::module::Mod;
use crate::names::{ascii_name_fault, is_mod_name, mod_name_fault, validate_mod_name, ModNameError};
use crate::table::{ascending, put};
use crate::text::{segments, split_path, texts};
use crate::tokens::{append, is_ascii_text, trees, Tree};
use proc_macro2::TokenStream;
use vstd::prelude::*;

verus! {

/// All segments of `path` but the last can name modules.
pub open spec fn is_item_path(path: Seq<char>) -> bool {
    forall|i: int| 0 <= i < segments(path).len() - 1 ==> is_mod_name(#[trigger] segments(path)[i])
}

/// The segment `i` of `path`, not the last one, is the first that cannot name a
/// module.
pub open spec fn first_bad_segment(path: Seq<char>, i: int) -> bool {
    &&& 0 <= i < segments(path).len() - 1
    &&& !is_mod_name(segments(path)[i])
    &&& forall|j: int| 0 <= j < i ==> is_mod_name(#[trigger] segments(path)[j])
}

/// A structured collection of generated Rust items, organized into a tree of
/// modules.
///
/// It owns a root module whose contents are emitted flat, with no surrounding
/// `mod` block, by `into_stream`, or into separate files by `into_files`.
#[derive(Debug)]
pub struct Codespace {
    root: Mod,
}

impl View for Codespace {
    type V = ModView;

    closed spec fn view(&self) -> ModView {
        self.root@
    }
}

impl Default for Codespace {
    fn default() -> (r: Self)
        ensures
            r@ == ModView::empty(),
            r.wf(),
    {
        Codespace { root: Mod::default() }
    }
}

impl Codespace {
    /// The root module is well formed.
    pub closed spec fn wf(self) -> bool {
        self.root.wf()
    }

    /// What a well-formed tree holds is finite, and the names of its modules are
    /// valid module names that can name files.
    pub proof fn lemma_wf(self)
        requires
            self.wf(),
        ensures
            self@.validly_named(),
            self@.well_named(),
            self@.is_finite(),
    {
        self.root.lemma_wf();
    }

    /// Add (or extend) an item at the given path.
    ///
    /// `path` is a `"::"` delimited string. All segments except the last must
    /// be valid Rust identifiers: they become module names. The final segment
    /// is an arbitrary sort key that is never emitted as a token.
    pub fn add_item(&mut self, path: &str, tokens: TokenStream)
        requires
            old(self).wf(),
            is_item_path(path@),
        ensures
            final(self)@ == old(self)@.with_item_at(segments(path@), trees(tokens)),
            final(self).wf(),
    {
        let segs = split_path(path);
        assert(texts(segs@).skip(0) =~= texts(segs@));
        Self::add_at(&mut self.root, &segs, 0, tokens);
    }

    /// Add an item below `m`, at the segments from `i` on.
    fn add_at(m: &mut Mod, segs: &Vec<String>, i: usize, tokens: TokenStream)
        requires
            old(m).wf(),
            i < segs@.len(),
            forall|j: int| 0 <= j < segs@.len() - 1 ==> is_mod_name(#[trigger] texts(segs@)[j]),
        ensures
            final(m)@ == old(m)@.with_item_at(texts(segs@).skip(i as int), trees(tokens)),
            final(m).wf(),
        decreases segs@.len() - i,
    {
        let ghost path = texts(segs@).skip(i as int);
        assert(path[0] == segs@[i as int]@);
        if i == segs.len() - 1 {
            m.add_item(segs[i].as_str(), tokens);
        } else {
            assert(path.drop_first() =~= texts(segs@).skip(i + 1));
            assert(is_mod_name(texts(segs@)[i as int]));
            let child = m.get_mod(segs[i].as_str());
            Self::add_at(child, segs, i + 1, tokens);
        }
    }

    /// Add an item at the given path, unless a segment that should name a
    /// module cannot: the error tells the first such segment, and nothing is
    /// added.
    pub fn try_add_item(&mut self, path: &str, tokens: TokenStream) -> (r: Result<(), ModNameError>)
        requires
            old(self).wf(),
        ensures
            final(self).wf(),
            match r {
                Ok(_) => {
                    &&& is_item_path(path@)
                    &&& final(self)@ == old(self)@.with_item_at(segments(path@), trees(tokens))
                },
                Err(e) => {
                    &&& *final(self) == *old(self)
                    &&& e.full@ == path@
                    &&& exists|i: int| #[trigger]
                        first_bad_segment(path@, i) && e.name@ == segments(path@)[i]
                            && mod_name_fault(e.name@) == Some(e.fault)
                    &&& is_ascii_text(e.name@) ==> ascii_name_fault(e.name@) == Some(e.fault)
                },
            },
            r is Ok ==> forall|i: int|
                0 <= i < segments(path@).len() - 1 && is_ascii_text(#[trigger] segments(path@)[i])
                    ==> ascii_name_fault(segments(path@)[i]) is None,
    {
        let segs = split_path(path);
        let mut i: usize = 0;
        while i < segs.len() - 1
            invariant
                texts(segs@) == segments(path@),
                segs@.len() > 0,
                i <= segs@.len() - 1,
                old(self).wf(),
                *self == *old(self),
                forall|j: int| 0 <= j < i ==> is_mod_name(#[trigger] segments(path@)[j]),
                forall|j: int|
                    0 <= j < i && is_ascii_text(#[trigger] segments(path@)[j]) ==> ascii_name_fault(
                        segments(path@)[j],
                    ) is None,
            decreases segs@.len() - i,
        {
            assert(segments(path@)[i as int] == segs@[i as int]@);
            match validate_mod_name(segs[i].as_str(), path) {
                Ok(_) => {},
                Err(e) => {
                    assert(first_bad_segment(path@, i as int));
                    return Err(e);
                },
            }
            i = i + 1;
        }
        self.add_item(path, tokens);
        Ok(())
    }

    /// Add a named submodule to the root module, merging if one already exists.
    pub fn add_mod(&mut self, name: &str, m: Mod)
        requires
            old(self).wf(),
            m.wf(),
            is_mod_name(name@),
        ensures
            final(self)@ == old(self)@.with_merged_mod(name@, m@),
            final(self).wf(),
    {
        self.root.add_mod(name, m);
    }

    /// Add a named submodule to the root module, unless `name` cannot name one.
    pub fn try_add_mod(&mut self, name: &str, m: Mod) -> (r: Result<(), ModNameError>)
        requires
            old(self).wf(),
            m.wf(),
        ensures
            final(self).wf(),
            match r {
                Ok(_) => {
                    &&& is_mod_name(name@)
                    &&& final(self)@ == old(self)@.with_merged_mod(name@, m@)
                },
                Err(e) => {
                    &&& *final(self) == *old(self)
                    &&& e.refuses(name@)
                },
            },
            is_ascii_text(name@) ==> mod_name_fault(name@) == ascii_name_fault(name@),
    {
        match validate_mod_name(name, name) {
            Ok(_) => {
                self.add_mod(name, m);
                Ok(())
            },
            Err(e) => Err(e),
        }
    }

    /// Return a mutable reference to the root module.
    pub fn get_root_mod(&mut self) -> (r: &mut Mod)
        ensures
            r@ == old(self)@,
            old(self).wf() == r.wf(),
            final(self)@ == final(r)@,
            final(self).wf() == final(r).wf(),
    {
        &mut self.root
    }

    /// Convert into the root module.
    pub fn into_root_mod(self) -> (r: Mod)
        ensures
            r@ == self@,
            r.wf() == self.wf(),
    {
        self.root
    }

    /// Render into one stream.
    ///
    /// The contents of the root module are emitted flat. Each submodule is
    /// wrapped in a `mod` block, with its docs, attributes and visibility. The
    /// docs and attributes of the root module come first, in inner form; its
    /// visibility is not rendered.
    pub fn into_stream(self) -> (r: TokenStream)
        requires
            self.wf(),
        ensures
            trees(r) == root_stream(self@),
    {
        let mut out = self.root.inner_meta();
        append(&mut out, self.root.into_stream());
        out
    }

    /// Render into files, in the order of their paths. The file of the root
    /// module is `lib.rs`.
    ///
    /// A submodule without submodules of its own renders as `foo.rs` in the
    /// directory of its parent; one with submodules renders as `foo/mod.rs`,
    /// and these below `foo/`. Each file declares the submodules of its module,
    /// with their docs, attributes and visibility in front of the declaration.
    /// The docs and attributes of the root module come first in `lib.rs`, in
    /// inner form.
    pub fn into_files(self) -> (r: Vec<(FilePath, TokenStream)>)
        requires
            self.wf(),
        ensures
            ascending(r@),
            file_map(r@) == root_files(self@),
    {
        let mut files: Vec<(FilePath, TokenStream)> = Vec::new();
        let dir = FilePath::new();
        let mut out = self.root.inner_meta();
        assert(file_map(files@) =~= Map::<Seq<Seq<char>>, Seq<Tree>>::empty());
        append(&mut out, self.root.into_file_contents(&dir, &mut files));
        let ghost before = files@;
        let ghost whole = trees(out);
        assert(file_map(before) =~= submodule_files(self@, seq![]));
        let root = dir.join("lib.rs");
        assert(root@ =~= root_file());
        let _displaced = put(&mut files, root, out);
        assert(file_map(files@) =~= file_map(before).insert(root_file(), whole));
        files
    }
}

} // verus!
