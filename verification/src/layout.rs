//! How the files of a module tree come together.
use crate::files::FilePath;
use crate::model::{
    file_tokens, is_submodule_file, module_at, module_file, submodule_files, ModView,
};
use crate::names::is_file_stem;
use crate::table::contents;
use crate::tokens::{trees, Tree};
use proc_macro2::TokenStream;
use vstd::prelude::*;

verus! {

/// A table of files, by what their streams hold.
pub open spec fn file_map(entries: Seq<(FilePath, TokenStream)>) -> Map<Seq<Seq<char>>, Seq<Tree>> {
    contents(entries).map_values(|stream: TokenStream| trees(stream))
}

/// Every name on the way to a submodule can name a file.
pub proof fn lemma_stems(m: ModView, path: Seq<Seq<char>>)
    requires
        m.well_named(),
        module_at(m, path) is Some,
    ensures
        forall|i: int| 0 <= i < path.len() ==> is_file_stem(#[trigger] path[i]),
    decreases path.len(),
{
    if path.len() > 0 {
        let rest = path.drop_first();
        lemma_stems(m.mods[path[0]], rest);
        assert forall|i: int| 0 <= i < path.len() implies is_file_stem(#[trigger] path[i]) by {
            if i > 0 {
                assert(path[i] == rest[i - 1]);
            }
        }
    }
}

/// No two modules share a file.
pub proof fn lemma_file_owner(
    m: ModView,
    dir: Seq<Seq<char>>,
    p: Seq<Seq<char>>,
    q: Seq<Seq<char>>,
    file: Seq<Seq<char>>,
)
    requires
        m.well_named(),
        is_submodule_file(m, dir, p, file),
        is_submodule_file(m, dir, q, file),
    ensures
        p == q,
{
    lemma_stems(m, p);
    lemma_stems(m, q);
    let a = module_at(m, p)->0.is_leaf();
    let b = module_at(m, q)->0.is_leaf();
    let f = module_file(p, a);
    let g = module_file(q, b);
    assert(f =~= g) by {
        assert(f =~= file.skip(dir.len() as int));
        assert(g =~= file.skip(dir.len() as int));
    }
    reveal_strlit(".rs");
    reveal_strlit("mod.rs");
    reveal_strlit("mod");
    if a && b {
        assert(p.drop_last() =~= f.drop_last());
        assert(q.drop_last() =~= g.drop_last());
        let s = p.last();
        let t = q.last();
        assert(f.last() == s + ".rs"@);
        assert(g.last() == t + ".rs"@);
        assert((s + ".rs"@).len() == s.len() + 3);
        assert((t + ".rs"@).len() == t.len() + 3);
        assert(s =~= (s + ".rs"@).take(s.len() as int));
        assert(t =~= (t + ".rs"@).take(t.len() as int));
        assert(p =~= p.drop_last().push(s));
        assert(q =~= q.drop_last().push(t));
    } else if !a && !b {
        assert(p =~= f.drop_last());
        assert(q =~= g.drop_last());
    } else if a {
        lemma_not_mod_file(p.last());
        assert(f.last() == g.last());
    } else {
        lemma_not_mod_file(q.last());
        assert(f.last() == g.last());
    }
}

/// A file stem with its extension is not `mod.rs`.
pub proof fn lemma_not_mod_file(stem: Seq<char>)
    requires
        is_file_stem(stem),
    ensures
        stem + ".rs"@ != "mod.rs"@,
{
    reveal_strlit(".rs");
    reveal_strlit("mod.rs");
    reveal_strlit("mod");
    if stem + ".rs"@ == "mod.rs"@ {
        assert((stem + ".rs"@).len() == stem.len() + 3);
        assert("mod.rs"@.len() == 6);
        assert(stem.len() == 3);
        assert(stem =~= (stem + ".rs"@).take(3));
        assert("mod"@ =~= "mod.rs"@.take(3));
    }
}

/// The files of the submodules below those of the given names.
pub open spec fn files_below(m: ModView, dir: Seq<Seq<char>>, names: Set<Seq<char>>) -> Map<
    Seq<Seq<char>>,
    Seq<Tree>,
> {
    submodule_files(m, dir).restrict(
        Set::new(
            |file: Seq<Seq<char>>|
                exists|path: Seq<Seq<char>>|
                    is_submodule_file(m, dir, path, file) && names.contains(path[0]),
        ),
    )
}

/// A file of a module holds what that module renders to.
pub proof fn lemma_file_contents(
    m: ModView,
    dir: Seq<Seq<char>>,
    path: Seq<Seq<char>>,
    file: Seq<Seq<char>>,
)
    requires
        m.well_named(),
        is_submodule_file(m, dir, path, file),
    ensures
        submodule_files(m, dir).contains_key(file),
        submodule_files(m, dir)[file] == file_tokens(module_at(m, path)->0),
{
    let other = choose|other: Seq<Seq<char>>| is_submodule_file(m, dir, other, file);
    lemma_file_owner(m, dir, path, other, file);
}

/// A path below the submodule `name`.
pub proof fn lemma_path_below(
    m: ModView,
    dir: Seq<Seq<char>>,
    name: Seq<char>,
    rest: Seq<Seq<char>>,
    file: Seq<Seq<char>>,
)
    requires
        m.mods.contains_key(name),
        rest.len() > 0,
    ensures
        is_submodule_file(m, dir, seq![name] + rest, file) == is_submodule_file(
            m.mods[name],
            dir.push(name),
            rest,
            file,
        ),
        module_at(m, seq![name] + rest) == module_at(m.mods[name], rest),
{
    let path = seq![name] + rest;
    assert(path.drop_first() =~= rest);
    if module_at(m, path) is Some {
        let leaf = module_at(m, path)->0.is_leaf();
        assert(dir + module_file(path, leaf) =~= dir.push(name) + module_file(rest, leaf));
    }
}

/// The file of the submodule `name` itself.
pub proof fn lemma_path_of_child(m: ModView, dir: Seq<Seq<char>>, name: Seq<char>)
    requires
        m.mods.contains_key(name),
    ensures
        module_at(m, seq![name]) == Some(m.mods[name]),
        is_submodule_file(
            m,
            dir,
            seq![name],
            dir + module_file(seq![name], m.mods[name].is_leaf()),
        ),
{
    assert(seq![name].drop_first() =~= Seq::<Seq<char>>::empty());
    assert(module_at(m, seq![name]) == module_at(m.mods[name], Seq::<Seq<char>>::empty()));
}

/// The files below one more submodule: those below it, and its own.
pub proof fn lemma_files_next(
    m: ModView,
    dir: Seq<Seq<char>>,
    names: Set<Seq<char>>,
    name: Seq<char>,
)
    requires
        m.well_named(),
        m.mods.contains_key(name),
    ensures
        files_below(m, dir, names.insert(name)) == files_below(m, dir, names).union_prefer_right(
            submodule_files(m.mods[name], dir.push(name)),
        ).insert(
            dir + module_file(seq![name], m.mods[name].is_leaf()),
            file_tokens(m.mods[name]),
        ),
{
    let child = m.mods[name];
    let below = submodule_files(child, dir.push(name));
    let own = dir + module_file(seq![name], child.is_leaf());
    let left = files_below(m, dir, names.insert(name));
    let right = files_below(m, dir, names).union_prefer_right(below).insert(own, file_tokens(child));
    lemma_path_of_child(m, dir, name);
    lemma_file_contents(m, dir, seq![name], own);
    assert forall|f: Seq<Seq<char>>| #[trigger] left.contains_key(f) implies right.contains_key(f)
        && left[f] == right[f] by {
        let path = choose|path: Seq<Seq<char>>|
            is_submodule_file(m, dir, path, f) && names.insert(name).contains(path[0]);
        lemma_file_contents(m, dir, path, f);
        if path[0] == name {
            let rest = path.drop_first();
            assert(path =~= seq![name] + rest);
            if rest.len() == 0 {
                assert(path =~= seq![name]);
            } else {
                lemma_path_below(m, dir, name, rest, f);
                lemma_file_contents(child, dir.push(name), rest, f);
                if f == own {
                    lemma_file_owner(m, dir, path, seq![name], f);
                    assert(false);
                }
            }
        } else {
            assert(files_below(m, dir, names).contains_key(f));
            if f == own {
                lemma_file_owner(m, dir, path, seq![name], f);
                assert(false);
            }
            if below.contains_key(f) {
                let rest = choose|rest: Seq<Seq<char>>|
                    is_submodule_file(child, dir.push(name), rest, f);
                lemma_path_below(m, dir, name, rest, f);
                lemma_file_owner(m, dir, path, seq![name] + rest, f);
                assert((seq![name] + rest)[0] == name);
                assert(false);
            }
        }
    }
    assert forall|f: Seq<Seq<char>>| #[trigger] right.contains_key(f) implies left.contains_key(f) by {
        if f == own {
            assert(seq![name][0] == name);
        } else if below.contains_key(f) {
            let rest = choose|rest: Seq<Seq<char>>|
                is_submodule_file(child, dir.push(name), rest, f);
            lemma_path_below(m, dir, name, rest, f);
            assert((seq![name] + rest)[0] == name);
            lemma_file_contents(m, dir, seq![name] + rest, f);
        } else {
            let path = choose|path: Seq<Seq<char>>|
                is_submodule_file(m, dir, path, f) && names.contains(path[0]);
            assert(names.insert(name).contains(path[0]));
        }
    }
    assert(left.dom() =~= right.dom());
    assert(left =~= right);
}

/// Below none of the submodules there is no file.
pub proof fn lemma_files_none(m: ModView, dir: Seq<Seq<char>>)
    ensures
        files_below(m, dir, Set::empty()) == Map::<Seq<Seq<char>>, Seq<Tree>>::empty(),
{
    assert(files_below(m, dir, Set::empty()) =~= Map::<Seq<Seq<char>>, Seq<Tree>>::empty());
}

/// Below all of the submodules there are all the files.
pub proof fn lemma_files_all(m: ModView, dir: Seq<Seq<char>>)
    ensures
        files_below(m, dir, m.mods.dom()) == submodule_files(m, dir),
{
    assert forall|f: Seq<Seq<char>>| submodule_files(m, dir).contains_key(f) implies files_below(
        m,
        dir,
        m.mods.dom(),
    ).contains_key(f) by {
        let path = choose|path: Seq<Seq<char>>| is_submodule_file(m, dir, path, f);
        assert(m.mods.dom().contains(path[0]));
    }
    assert(files_below(m, dir, m.mods.dom()) =~= submodule_files(m, dir));
}

/// A leaf has no files below it.
pub proof fn lemma_leaf_files(m: ModView, dir: Seq<Seq<char>>)
    requires
        m.is_leaf(),
    ensures
        submodule_files(m, dir) == Map::<Seq<Seq<char>>, Seq<Tree>>::empty(),
{
    assert forall|f: Seq<Seq<char>>| !submodule_files(m, dir).contains_key(f) by {
        if submodule_files(m, dir).contains_key(f) {
            let path = choose|path: Seq<Seq<char>>| is_submodule_file(m, dir, path, f);
            assert(m.mods.dom().contains(path[0]));
        }
    }
    assert(submodule_files(m, dir) =~= Map::<Seq<Seq<char>>, Seq<Tree>>::empty());
}

} // verus!
