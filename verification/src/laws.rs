//! What holds of modules as a whole.
use crate::codespace::{first_bad_segment, is_item_path};
use crate::files::{slashed, FilePath};
use crate::layout::{
    file_map, lemma_file_contents, lemma_file_owner, lemma_leaf_files, lemma_not_mod_file,
    lemma_stems,
};
use crate::model::{
    alone, ascending_texts, attr_tokens, attribute, block_tokens, doc_tokens, file_tokens,
    is_submodule_file, item_at, item_tokens, joined, lemma_sorted, meta_tokens, mod_head, module_at,
    module_file, paragraph, root_file, root_files, root_stream, sorted, stream_tokens,
    submodule_files, ModView, Visibility,
};
use crate::names::{
    ascii_name_fault, is_file_stem, is_mod_name, mod_name_fault, name_fault, ModNameError, NameFault,
};
use crate::order::{
    lemma_text_order, lex_before, path_before, splits_at, text_before, SortKey,
};
use crate::table::{
    ascending, contents, entry_at, has_key, keys, lemma_position, lemma_same_keys,
};
use crate::text::{first_newline, first_separator, lines, segments, texts};
use crate::tokens::{
    has_raw_prefix, is_ascii_text, is_ascii_word, is_keyword, is_unpadded, lexed, parses_as_ident,
    trees, Tree,
};
use proc_macro2::TokenStream;
use vstd::prelude::*;

verus! {

// ---- Items ----

/// What is read at a path is what was there, followed by what was added there.
pub proof fn law_item_read_back(
    m: ModView,
    path: Seq<Seq<char>>,
    tokens: Seq<Tree>,
    other: Seq<Seq<char>>,
)
    requires
        path.len() > 0,
        other.len() > 0,
    ensures
        item_at(m.with_item_at(path, tokens), path) == item_at(m, path) + tokens,
        other != path ==> item_at(m.with_item_at(path, tokens), other) == item_at(m, other),
    decreases path.len(),
{
    let after = m.with_item_at(path, tokens);
    if path.len() == 1 {
        assert(path.drop_last() =~= Seq::<Seq<char>>::empty());
        if other.len() == 1 {
            assert(other.drop_last() =~= Seq::<Seq<char>>::empty());
            if other[0] == path[0] {
                assert(other =~= path);
            }
        } else {
            assert(module_at(after, other.drop_last()) == module_at(m, other.drop_last()));
        }
    } else {
        let name = path[0];
        let rest = path.drop_first();
        let child = m.child(name);
        let below = child.with_item_at(rest, tokens);
        assert(path.drop_last()[0] == name);
        assert(path.drop_last().drop_first() =~= rest.drop_last());
        assert(path.last() == rest.last());
        lemma_child_at(m, path);
        lemma_child_at(after, path);
        assert(after.child(name) == below);
        if other.len() > 1 && other[0] == name {
            law_item_read_back(child, rest, tokens, other.drop_first());
            lemma_child_at(m, other);
            lemma_child_at(after, other);
            if other.drop_first() == rest {
                assert(other =~= seq![name] + rest);
                assert(path =~= seq![name] + rest);
            }
        } else {
            law_item_read_back(child, rest, tokens, rest);
            if other.len() == 1 {
                assert(other.drop_last() =~= Seq::<Seq<char>>::empty());
            } else {
                lemma_child_at(m, other);
                lemma_child_at(after, other);
            }
        }
    }
}

/// What is at a path below a submodule is what that submodule holds there.
pub proof fn lemma_child_at(m: ModView, path: Seq<Seq<char>>)
    requires
        path.len() > 1,
    ensures
        item_at(m, path) == item_at(m.child(path[0]), path.drop_first()),
{
    let front = path.drop_last();
    assert(front.drop_first() =~= path.drop_first().drop_last());
    if !m.mods.contains_key(path[0]) {
        let rest = path.drop_first().drop_last();
        if rest.len() > 0 {
            assert(module_at(ModView::empty(), rest) is None);
        }
    }
}

/// Adding an item makes the modules on the way to it, and no others; it changes
/// the metadata of none, and new ones have none.
pub proof fn law_item_modules(
    m: ModView,
    path: Seq<Seq<char>>,
    tokens: Seq<Tree>,
    at: Seq<Seq<char>>,
)
    requires
        path.len() > 0,
    ensures
        module_at(m.with_item_at(path, tokens), at) is Some <==> module_at(m, at) is Some || (
        at.len() < path.len() && path.take(at.len() as int) == at),
        module_at(m.with_item_at(path, tokens), at) matches Some(after) ==> {
            let before = match module_at(m, at) {
                Some(before) => before,
                None => ModView::empty(),
            };
            after.vis == before.vis && after.docs == before.docs && after.attrs == before.attrs
        },
    decreases path.len(),
{
    let after = m.with_item_at(path, tokens);
    if at.len() == 0 {
        assert(path.take(0) =~= at);
    } else if path.len() > 1 {
        if at[0] == path[0] {
            let rest = path.drop_first();
            let below = at.drop_first();
            let n = at.len() as int;
            law_item_modules(m.child(path[0]), rest, tokens, below);
            if n < path.len() {
                assert(path.take(n) =~= seq![path[0]] + rest.take(n - 1));
                assert(at =~= seq![at[0]] + below);
                assert(path.take(n).drop_first() =~= rest.take(n - 1));
            }
        } else if at.len() < path.len() {
            assert(path.take(at.len() as int)[0] == path[0]);
        }
    }
}

/// Adding twice at one path is adding once what both add.
pub proof fn law_items_accumulate(
    m: ModView,
    path: Seq<Seq<char>>,
    first: Seq<Tree>,
    second: Seq<Tree>,
)
    requires
        path.len() > 0,
    ensures
        m.with_item_at(path, first).with_item_at(path, second) == m.with_item_at(
            path,
            first + second,
        ),
    decreases path.len(),
{
    let left = m.with_item_at(path, first).with_item_at(path, second);
    let right = m.with_item_at(path, first + second);
    if path.len() == 1 {
        assert(m.item(path[0]) + first + second =~= m.item(path[0]) + (first + second));
        assert(left.items =~= right.items);
    } else {
        law_items_accumulate(m.child(path[0]), path.drop_first(), first, second);
        assert(left.mods =~= right.mods);
    }
    assert(left =~= right);
}

/// Additions at different paths can be made in either order.
pub proof fn law_items_commute(
    m: ModView,
    p: Seq<Seq<char>>,
    a: Seq<Tree>,
    q: Seq<Seq<char>>,
    b: Seq<Tree>,
)
    requires
        p.len() > 0,
        q.len() > 0,
        p != q,
    ensures
        m.with_item_at(p, a).with_item_at(q, b) == m.with_item_at(q, b).with_item_at(p, a),
    decreases p.len(),
{
    let left = m.with_item_at(p, a).with_item_at(q, b);
    let right = m.with_item_at(q, b).with_item_at(p, a);
    if p.len() > 1 && q.len() > 1 && p[0] == q[0] {
        if p.drop_first() == q.drop_first() {
            assert(p =~= seq![p[0]] + p.drop_first());
            assert(q =~= seq![q[0]] + q.drop_first());
        }
        law_items_commute(m.child(p[0]), p.drop_first(), a, q.drop_first(), b);
    }
    if p.len() == 1 && q.len() == 1 && p[0] == q[0] {
        assert(p =~= q);
    }
    assert(left.items =~= right.items);
    assert(left.mods =~= right.mods);
    assert(left =~= right);
}

/// A path without `::` is a key of the root module.
pub proof fn law_single_segment(m: ModView, path: Seq<char>, tokens: Seq<Tree>)
    requires
        forall|i: int| !first_separator(path, i),
    ensures
        segments(path) == seq![path],
        m.with_item_at(segments(path), tokens) == m.with_item(path, tokens),
{
}

/// The segments with `::` between each and the next.
pub open spec fn rejoined(segs: Seq<Seq<char>>) -> Seq<char>
    decreases segs.len(),
{
    if segs.len() == 0 {
        seq![]
    } else if segs.len() == 1 {
        segs[0]
    } else {
        segs[0] + seq![':', ':'] + rejoined(segs.drop_first())
    }
}

/// The segments of a path, rejoined, are the path; none of them holds `::`, and
/// none but the last ends in a colon: of `:::` the first two separate.
pub proof fn law_segments(path: Seq<char>)
    ensures
        segments(path).len() > 0,
        rejoined(segments(path)) == path,
        forall|i: int, j: int|
            0 <= i < segments(path).len() && 0 <= j < segments(path)[i].len() - 1 ==> !(
            #[trigger] segments(path)[i][j] == ':' && segments(path)[i][j + 1] == ':'),
        forall|i: int|
            0 <= i < segments(path).len() - 1 && (#[trigger] segments(path)[i]).len() > 0
                ==> segments(path)[i].last() != ':',
    decreases path.len(),
{
    let segs = segments(path);
    if exists|i: int| first_separator(path, i) {
        let k = choose|i: int| first_separator(path, i);
        let rest = path.skip(k + 2);
        law_segments(rest);
        assert(segs.drop_first() =~= segments(rest));
        assert(path.take(k) + seq![':', ':'] + rest =~= path);
        assert forall|i: int, j: int|
            0 <= i < segs.len() && 0 <= j < segs[i].len() - 1 implies !(#[trigger] segs[i][j] == ':'
            && segs[i][j + 1] == ':') by {
            if i == 0 {
                assert(segs[0] == path.take(k));
                assert(path[j] == segs[0][j] && path[j + 1] == segs[0][j + 1]);
            } else {
                assert(segs[i] == segments(rest)[i - 1]);
            }
        }
        assert forall|i: int| 0 <= i < segs.len() - 1 && (#[trigger] segs[i]).len() > 0 implies
            segs[i].last() != ':' by {
            if i == 0 {
                assert(segs[0] == path.take(k));
                assert(path[k - 1] == segs[0].last());
            } else {
                assert(segs[i] == segments(rest)[i - 1]);
            }
        }
    } else {
        assert(segs =~= seq![path]);
        if exists|j: int| 0 <= j < path.len() - 1 && #[trigger] path[j] == ':' && path[j + 1] == ':' {
            let j = choose|j: int|
                0 <= j < path.len() - 1 && #[trigger] path[j] == ':' && path[j + 1] == ':';
            lemma_some_first_separator(path, j);
            assert(false);
        }
    }
}

/// If a text holds `::`, it holds a first one.
pub proof fn lemma_some_first_separator(s: Seq<char>, j: int)
    requires
        0 <= j < s.len() - 1,
        s[j] == ':',
        s[j + 1] == ':',
    ensures
        exists|i: int| first_separator(s, i),
    decreases j,
{
    if exists|k: int| 0 <= k < j && #[trigger] s[k] == ':' && s[k + 1] == ':' {
        let k = choose|k: int| 0 <= k < j && #[trigger] s[k] == ':' && s[k + 1] == ':';
        lemma_some_first_separator(s, k);
    } else {
        assert(first_separator(s, j));
    }
}

/// An item goes under its key, after what is there; all else stays as it is.
pub proof fn law_item(m: ModView, key: Seq<char>, tokens: Seq<Tree>)
    ensures
        m.with_item(key, tokens) == (ModView {
            items: m.items.insert(
                key,
                if m.items.contains_key(key) {
                    m.items[key] + tokens
                } else {
                    tokens
                },
            ),
            ..m
        }),
{
    if !m.items.contains_key(key) {
        assert(Seq::<Tree>::empty() + tokens =~= tokens);
    }
}

/// An item at a path goes into the submodule that the path begins with, which is
/// made if there is none, and there to the rest of the path; at a path of one
/// segment it goes under that key.
pub proof fn law_item_path(
    m: ModView,
    name: Seq<char>,
    rest: Seq<Seq<char>>,
    tokens: Seq<Tree>,
)
    ensures
        m.with_item_at(seq![name], tokens) == m.with_item(name, tokens),
        rest.len() > 0 ==> m.with_item_at(seq![name] + rest, tokens) == (ModView {
            mods: m.mods.insert(
                name,
                (if m.mods.contains_key(name) {
                    m.mods[name]
                } else {
                    ModView::empty()
                }).with_item_at(rest, tokens),
            ),
            ..m
        }),
{
    assert((seq![name] + rest).drop_first() =~= rest);
}

/// A path leads down through the submodules that it names, one after the other,
/// as far as there are such.
pub proof fn law_module_at(m: ModView, name: Seq<char>, rest: Seq<Seq<char>>, key: Seq<char>)
    ensures
        module_at(m, seq![]) == Some(m),
        module_at(m, seq![name] + rest) == (if m.mods.contains_key(name) {
            module_at(m.mods[name], rest)
        } else {
            None
        }),
        item_at(m, rest.push(key)) == (match module_at(m, rest) {
            Some(parent) => if parent.items.contains_key(key) {
                parent.items[key]
            } else {
                seq![]
            },
            None => seq![],
        }),
{
    assert((seq![name] + rest).drop_first() =~= rest);
    assert(rest.push(key).drop_last() =~= rest);
}

// ---- Submodules ----

/// Getting a submodule gives it again, and getting it twice changes nothing
/// more than getting it once.
pub proof fn law_get_mod_again(m: ModView, name: Seq<char>)
    ensures
        m.with_mod(name, m.child(name)).child(name) == m.child(name),
        m.with_mod(name, m.child(name)).with_mod(name, m.child(name)) == m.with_mod(
            name,
            m.child(name),
        ),
        m.mods.contains_key(name) ==> m.with_mod(name, m.child(name)) == m,
{
    let once = m.with_mod(name, m.child(name));
    assert(once.with_mod(name, m.child(name)).mods =~= once.mods);
    if m.mods.contains_key(name) {
        assert(once.mods =~= m.mods);
    }
}

/// Replacing a submodule leaves nothing of what it replaces, and changes nothing
/// else.
pub proof fn law_replace_mod(m: ModView, name: Seq<char>, first: ModView, second: ModView)
    ensures
        m.with_mod(name, first).with_mod(name, second) == m.with_mod(name, second),
        m.with_mod(name, second).child(name) == second,
        m.with_mod(name, second) == (ModView { mods: m.mods.insert(name, second), ..m }),
        m.mods.contains_key(name) ==> m.child(name) == m.mods[name],
        !m.mods.contains_key(name) ==> m.child(name) == ModView::empty(),
{
    assert(m.with_mod(name, first).with_mod(name, second).mods =~= m.with_mod(name, second).mods);
}

/// A submodule that is added keeps its tokens, at the paths below its name,
/// after those that were there; at all other paths nothing changes.
pub proof fn law_add_mod_items(m: ModView, name: Seq<char>, sub: ModView, path: Seq<Seq<char>>)
    requires
        path.len() > 0,
    ensures
        item_at(m.with_merged_mod(name, sub), path) == (if path.len() > 1 && path[0] == name {
            item_at(m, path) + item_at(sub, path.drop_first())
        } else {
            item_at(m, path)
        }),
{
    let after = m.with_merged_mod(name, sub);
    if path.len() == 1 {
        assert(path.drop_last() =~= Seq::<Seq<char>>::empty());
    } else {
        lemma_child_at(m, path);
        lemma_child_at(after, path);
        let rest = path.drop_first();
        if path[0] == name {
            if m.mods.contains_key(name) {
                law_merge_items(m.mods[name], sub, rest);
            } else {
                lemma_empty_items(rest);
                assert(item_at(m, path) + item_at(sub, rest) =~= item_at(sub, rest));
            }
        }
    }
}

/// An empty module holds no tokens.
proof fn lemma_empty_items(path: Seq<Seq<char>>)
    requires
        path.len() > 0,
    ensures
        item_at(ModView::empty(), path) == Seq::<Tree>::empty(),
{
}

// ---- Merging ----

/// At every path a merged module holds the tokens of the one, then those of the
/// other.
pub proof fn law_merge_items(a: ModView, b: ModView, path: Seq<Seq<char>>)
    requires
        path.len() > 0,
    ensures
        item_at(a.merged(b), path) == item_at(a, path) + item_at(b, path),
    decreases path.len(),
{
    let m = a.merged(b);
    if path.len() == 1 {
        assert(path.drop_last() =~= Seq::<Seq<char>>::empty());
        let key = path[0];
        if !m.items.contains_key(key) {
            assert(a.item(key) + b.item(key) =~= Seq::<Tree>::empty());
        }
    } else {
        lemma_child_at(a, path);
        lemma_child_at(b, path);
        lemma_child_at(m, path);
        let name = path[0];
        let rest = path.drop_first();
        lemma_empty_items(rest);
        if a.mods.contains_key(name) && b.mods.contains_key(name) {
            law_merge_items(a.mods[name], b.mods[name], rest);
        } else {
            assert(item_at(m.child(name), rest) =~= item_at(a.child(name), rest) + item_at(
                b.child(name),
                rest,
            ));
        }
    }
}

/// What a path leads to in a merged module: where it leads to a module in both,
/// the merge of these two, with the docs and the attributes of the one followed by
/// those of the other, and the visibility of the one; where in one only, that
/// module as it is.
pub proof fn law_merge_modules(a: ModView, b: ModView, path: Seq<Seq<char>>)
    ensures
        module_at(a.merged(b), path) == (match (module_at(a, path), module_at(b, path)) {
            (Some(x), Some(y)) => Some(x.merged(y)),
            (Some(x), None) => Some(x),
            (None, Some(y)) => Some(y),
            (None, None) => None,
        }),
        module_at(a, path) is Some && module_at(b, path) is Some ==> {
            let x = module_at(a, path)->0;
            let y = module_at(b, path)->0;
            let z = module_at(a.merged(b), path)->0;
            &&& z.docs == x.docs + y.docs
            &&& z.attrs == x.attrs + y.attrs
            &&& z.vis == x.vis
            &&& forall|key: Seq<char>| #[trigger]
                z.items.contains_key(key) == (x.items.contains_key(key) || y.items.contains_key(
                    key,
                ))
        },
    decreases path.len(),
{
    if path.len() > 0 {
        let name = path[0];
        if a.mods.contains_key(name) && b.mods.contains_key(name) {
            law_merge_modules(a.mods[name], b.mods[name], path.drop_first());
        }
    }
}

/// What a path leads to once a submodule is added: below its name, where there was
/// one before, what it leads to in the merge of the two; where there was none, in
/// the added one. At all other paths but the root nothing changes, and of the root
/// only its submodules do.
pub proof fn law_add_mod_modules(
    m: ModView,
    name: Seq<char>,
    sub: ModView,
    path: Seq<Seq<char>>,
)
    ensures
        m.with_merged_mod(name, sub) == (ModView {
            mods: m.with_merged_mod(name, sub).mods,
            ..m
        }),
        path.len() > 0 && path[0] == name ==> module_at(m.with_merged_mod(name, sub), path) == (
        match (module_at(m, path), module_at(sub, path.drop_first())) {
            (Some(x), Some(y)) => Some(x.merged(y)),
            (Some(x), None) => Some(x),
            (None, Some(y)) => Some(y),
            (None, None) => None,
        }),
        path.len() > 0 && path[0] != name ==> module_at(m.with_merged_mod(name, sub), path)
            == module_at(m, path),
        path.len() > 0 && path[0] == name && module_at(m, path) is Some && module_at(
            sub,
            path.drop_first(),
        ) is Some ==> {
            let x = module_at(m, path)->0;
            let y = module_at(sub, path.drop_first())->0;
            let z = module_at(m.with_merged_mod(name, sub), path)->0;
            z.docs == x.docs + y.docs && z.attrs == x.attrs + y.attrs && z.vis == x.vis
        },
{
    let after = m.with_merged_mod(name, sub);
    if path.len() > 0 && path[0] == name {
        let rest = path.drop_first();
        assert(module_at(after, path) == module_at(after.mods[name], rest));
        if m.mods.contains_key(name) {
            law_merge_modules(m.mods[name], sub, rest);
        }
    }
}

/// Merging in an empty module changes nothing; merging into one gives all but
/// the visibility of what is merged in.
pub proof fn law_merge_empty(m: ModView)
    ensures
        m.merged(ModView::empty()) == m,
        ModView::empty().merged(m) == (ModView { vis: Visibility::Pub, ..m }),
{
    let right = m.merged(ModView::empty());
    assert forall|key: Seq<char>| m.items.contains_key(key) implies #[trigger] right.items[key]
        == m.items[key] by {
        assert(m.items[key] + Seq::<Tree>::empty() =~= m.items[key]);
    }
    assert(right.items =~= m.items);
    assert(right.mods =~= m.mods);
    assert(right.docs =~= m.docs);
    assert(right.attrs =~= m.attrs);
    let left = ModView::empty().merged(m);
    assert forall|key: Seq<char>| m.items.contains_key(key) implies #[trigger] left.items[key]
        == m.items[key] by {
        assert(Seq::<Tree>::empty() + m.items[key] =~= m.items[key]);
    }
    assert(left.items =~= m.items);
    assert(left.mods =~= m.mods);
    assert(left.docs =~= m.docs);
    assert(left.attrs =~= m.attrs);
}

/// Three modules can be merged from the left or from the right.
pub proof fn law_merge_associative(a: ModView, b: ModView, c: ModView)
    ensures
        a.merged(b).merged(c) == a.merged(b.merged(c)),
    decreases a,
{
    let left = a.merged(b).merged(c);
    let right = a.merged(b.merged(c));
    assert forall|key: Seq<char>| #[trigger] left.items.contains_key(key) implies left.items[key]
        == right.items[key] by {
        assert(a.item(key) + b.item(key) + c.item(key) =~= a.item(key) + (b.item(key) + c.item(
            key,
        )));
        if !a.merged(b).items.contains_key(key) {
            assert(a.item(key) + b.item(key) =~= Seq::<Tree>::empty());
        }
        if !b.merged(c).items.contains_key(key) {
            assert(b.item(key) + c.item(key) =~= Seq::<Tree>::empty());
        }
    }
    assert(left.items =~= right.items);
    assert forall|name: Seq<char>| #[trigger] left.mods.contains_key(name) implies left.mods[name]
        == right.mods[name] by {
        if a.mods.contains_key(name) && b.mods.contains_key(name) && c.mods.contains_key(name) {
            law_merge_associative(a.mods[name], b.mods[name], c.mods[name]);
        }
    }
    assert(left.mods =~= right.mods);
    assert(left.docs =~= right.docs);
    assert(left.attrs =~= right.attrs);
}

/// Merging in a module that holds one item is adding that item; one paragraph
/// or one attribute, adding that.
pub proof fn law_merge_one(
    m: ModView,
    key: Seq<char>,
    tokens: Seq<Tree>,
    text: Seq<char>,
    attr: Seq<Tree>,
)
    ensures
        m.merged(ModView::empty().with_item(key, tokens)) == m.with_item(key, tokens),
        m.merged(ModView { docs: seq![text], ..ModView::empty() }) == (ModView {
            docs: m.docs.push(text),
            ..m
        }),
        m.merged(ModView { attrs: seq![attr], ..ModView::empty() }) == (ModView {
            attrs: m.attrs.push(attr),
            ..m
        }),
{
    law_merge_empty(m);
    let one = ModView::empty().with_item(key, tokens);
    let after = m.merged(one);
    assert(one.item(key) =~= tokens);
    assert forall|k: Seq<char>| #[trigger] after.items.contains_key(k) implies after.items[k]
        == m.with_item(key, tokens).items[k] by {
        if k != key {
            assert(m.item(k) + Seq::<Tree>::empty() =~= m.item(k));
        }
    }
    assert(after.items =~= m.with_item(key, tokens).items);
    assert(after.mods =~= m.mods);
    assert(after.docs =~= m.docs);
    assert(after.attrs =~= m.attrs);
    let d = m.merged(ModView { docs: seq![text], ..ModView::empty() });
    assert(d.items =~= m.merged(ModView::empty()).items);
    assert(d.mods =~= m.mods);
    assert(d.docs =~= m.docs.push(text));
    assert(d.attrs =~= m.attrs);
    let t = m.merged(ModView { attrs: seq![attr], ..ModView::empty() });
    assert(t.items =~= m.merged(ModView::empty()).items);
    assert(t.mods =~= m.mods);
    assert(t.docs =~= m.docs);
    assert(t.attrs =~= m.attrs.push(attr));
}

// ---- Rendering ----

/// Keys and names are emitted in ascending order, each once.
pub proof fn law_order(m: ModView)
    requires
        m.is_finite(),
    ensures
        ascending_texts(sorted(m.items.dom())),
        sorted(m.items.dom()).to_set() == m.items.dom(),
        ascending_texts(sorted(m.mods.dom())),
        sorted(m.mods.dom()).to_set() == m.mods.dom(),
{
    lemma_some_sorted(m.items.dom());
    lemma_some_sorted(m.mods.dom());
}

/// Every finite set of texts can be sorted.
pub proof fn lemma_some_sorted(set: Set<Seq<char>>)
    requires
        set.finite(),
    ensures
        ascending_texts(sorted(set)),
        sorted(set).to_set() == set,
    decreases set.len(),
{
    if set.len() == 0 {
        let s = Seq::<Seq<char>>::empty();
        assert(s.to_set() =~= set);
        assert(ascending_texts(s) && s.to_set() == set);
    } else {
        let x = set.choose();
        let rest = set.remove(x);
        lemma_some_sorted(rest);
        let s = sorted(rest);
        lemma_insert_sorted(s, x, s.len() as int);
        let t = choose|t: Seq<Seq<char>>|
            ascending_texts(t) && #[trigger] t.to_set() == s.to_set().insert(x);
        assert(t.to_set() =~= set);
    }
}

/// A new text can be put in its place among ascending ones, given that it comes
/// before those from `n` on.
proof fn lemma_insert_sorted(s: Seq<Seq<char>>, x: Seq<char>, n: int)
    requires
        ascending_texts(s),
        !s.contains(x),
        0 <= n <= s.len(),
        forall|i: int| n <= i < s.len() ==> text_before(x, #[trigger] s[i]),
    ensures
        exists|t: Seq<Seq<char>>|
            ascending_texts(t) && #[trigger] t.to_set() == s.to_set().insert(x),
    decreases n,
{
    lemma_text_order();
    let lt = |a: Seq<char>, b: Seq<char>| text_before(a, b);
    if n > 0 && lt(x, s[n - 1]) {
        lemma_insert_sorted(s, x, n - 1);
    } else {
        if n > 0 {
            assert(s.contains(s[n - 1]));
            assert(lt(s[n - 1], x));
        }
        let t = s.insert(n, x);
        assert forall|i: int, j: int|
            #![trigger t[i], t[j]]
            0 <= i < j < t.len() implies text_before(t[i], t[j]) by {
            if j == n && i < n - 1 {
                assert(lt(s[i], s[n - 1]) && lt(s[n - 1], x));
                assert(lt(s[i], x));
            }
            if i < n && j < n {
                assert(t[i] == s[i] && t[j] == s[j]);
            }
            if i > n {
                assert(t[i] == s[i - 1]);
            }
            if j > n {
                assert(t[j] == s[j - 1]);
            }
        }
        assert forall|y: Seq<char>| t.to_set().contains(y) == s.to_set().insert(x).contains(y) by {
            if t.contains(y) {
                let i = choose|i: int| 0 <= i < t.len() && t[i] == y;
                if i < n {
                    assert(s[i] == y);
                } else if i > n {
                    assert(s[i - 1] == y);
                }
            }
            if s.contains(y) {
                let i = choose|i: int| 0 <= i < s.len() && s[i] == y;
                if i < n {
                    assert(t[i] == y);
                } else {
                    assert(t[i + 1] == y);
                }
            }
            assert(t[n] == x);
        }
        assert(t.to_set() =~= s.to_set().insert(x));
    }
}

/// The metadata of a module does not show in its contents.
pub proof fn law_contents_without_meta(
    m: ModView,
    vis: Visibility,
    docs: Seq<Seq<char>>,
    attrs: Seq<Seq<Tree>>,
)
    ensures
        stream_tokens(ModView { vis, docs, attrs, ..m }) == stream_tokens(m),
        file_tokens(ModView { vis, docs, attrs, ..m }) == file_tokens(m),
{
    let other = ModView { vis, docs, attrs, ..m };
    lemma_same_blocks(m, other, sorted(m.mods.dom()));
}

/// Modules with the same submodules have the same blocks.
pub proof fn lemma_same_blocks(a: ModView, b: ModView, names: Seq<Seq<char>>)
    requires
        a.mods == b.mods,
    ensures
        block_tokens(a, names) == block_tokens(b, names),
    decreases names.len(),
{
    if names.len() > 0 {
        lemma_same_blocks(a, b, names.drop_last());
    }
}

/// The visibility of a root module is never rendered.
pub proof fn law_root_visibility(m: ModView, vis: Visibility)
    ensures
        root_stream(ModView { vis, ..m }) == root_stream(m),
        m.well_named() ==> root_files(ModView { vis, ..m }) == root_files(m),
{
    let other = ModView { vis, ..m };
    law_contents_without_meta(m, vis, m.docs, m.attrs);
    if m.well_named() {
        let none = Seq::<Seq<char>>::empty();
        let a = submodule_files(m, none);
        let b = submodule_files(other, none);
        assert forall|file: Seq<Seq<char>>| #[trigger] a.contains_key(file) implies b.contains_key(
            file,
        ) && a[file] == b[file] by {
            let path = choose|path: Seq<Seq<char>>| is_submodule_file(m, none, path, file);
            lemma_same_modules(m, other, path);
            lemma_file_contents(m, none, path, file);
            lemma_file_contents(other, none, path, file);
        }
        assert forall|file: Seq<Seq<char>>| #[trigger] b.contains_key(file) implies a.contains_key(
            file,
        ) by {
            let path = choose|path: Seq<Seq<char>>| is_submodule_file(other, none, path, file);
            lemma_same_modules(m, other, path);
            assert(is_submodule_file(m, none, path, file));
        }
        assert(a =~= b);
    }
}

/// Modules with the same submodules lead to the same modules.
proof fn lemma_same_modules(a: ModView, b: ModView, path: Seq<Seq<char>>)
    requires
        a.mods == b.mods,
    ensures
        path.len() > 0 ==> module_at(a, path) == module_at(b, path),
{
}

/// Two modules hold the same items in the same order, under whatever keys, and
/// so do their submodules at any depth, which have the same names and metadata.
pub open spec fn same_but_keys(a: ModView, b: ModView) -> bool
    decreases a,
{
    &&& sorted(a.items.dom()).map_values(|key: Seq<char>| a.items[key]) == sorted(
        b.items.dom(),
    ).map_values(|key: Seq<char>| b.items[key])
    &&& a.mods.dom() == b.mods.dom()
    &&& forall|name: Seq<char>| #[trigger]
        a.mods.contains_key(name) ==> {
            &&& a.mods[name].vis == b.mods[name].vis
            &&& a.mods[name].docs == b.mods[name].docs
            &&& a.mods[name].attrs == b.mods[name].attrs
            &&& same_but_keys(a.mods[name], b.mods[name])
        }
}

/// The keys of the items are never emitted, at any depth: two modules that are
/// the same but for them render to the same contents; with the same docs and
/// attributes of their own, to the same stream and the same files.
pub proof fn law_keys_not_emitted(a: ModView, b: ModView)
    requires
        same_but_keys(a, b),
        a.is_finite(),
    ensures
        stream_tokens(a) == stream_tokens(b),
        file_tokens(a) == file_tokens(b),
        a.docs == b.docs && a.attrs == b.attrs ==> root_stream(a) == root_stream(b),
        a.docs == b.docs && a.attrs == b.attrs && a.well_named() ==> root_files(a) == root_files(b),
{
    lemma_same_stream(a, b);
    lemma_same_file(a, b);
    if a.docs == b.docs && a.attrs == b.attrs && a.well_named() {
        lemma_same_names(a, b);
        let none = Seq::<Seq<char>>::empty();
        let p = submodule_files(a, none);
        let q = submodule_files(b, none);
        assert forall|file: Seq<Seq<char>>| #[trigger] p.contains_key(file) implies q.contains_key(
            file,
        ) && p[file] == q[file] by {
            let path = choose|path: Seq<Seq<char>>| is_submodule_file(a, none, path, file);
            lemma_same_at(a, b, path);
            lemma_file_contents(a, none, path, file);
            lemma_file_contents(b, none, path, file);
            lemma_same_file(module_at(a, path)->0, module_at(b, path)->0);
        }
        assert forall|file: Seq<Seq<char>>| #[trigger] q.contains_key(file) implies p.contains_key(
            file,
        ) by {
            let path = choose|path: Seq<Seq<char>>| is_submodule_file(b, none, path, file);
            lemma_same_at(a, b, path);
            assert(is_submodule_file(a, none, path, file));
        }
        assert(p =~= q);
    }
}

/// Modules that are the same but for keys render to the same stream.
proof fn lemma_same_stream(a: ModView, b: ModView)
    requires
        same_but_keys(a, b),
    ensures
        stream_tokens(a) == stream_tokens(b),
    decreases a, sorted(a.mods.dom()).len() + 1,
{
    lemma_same_block_list(a, b, sorted(a.mods.dom()));
}

/// Modules that are the same but for keys have the same blocks.
proof fn lemma_same_block_list(a: ModView, b: ModView, names: Seq<Seq<char>>)
    requires
        same_but_keys(a, b),
    ensures
        block_tokens(a, names) == block_tokens(b, names),
    decreases a, names.len(),
{
    if names.len() > 0 {
        lemma_same_block_list(a, b, names.drop_last());
        let name = names.last();
        assert(a.mods.dom().contains(name) == b.mods.dom().contains(name));
        if a.mods.contains_key(name) {
            lemma_same_stream(a.mods[name], b.mods[name]);
        }
    }
}

/// Modules that are the same but for keys render to the same file.
proof fn lemma_same_file(a: ModView, b: ModView)
    requires
        same_but_keys(a, b),
        a.is_finite(),
    ensures
        file_tokens(a) == file_tokens(b),
{
    let names = sorted(a.mods.dom());
    lemma_some_sorted(a.mods.dom());
    let f = |name: Seq<char>| mod_head(name, a.mods[name]) + seq![alone(';')];
    let g = |name: Seq<char>| mod_head(name, b.mods[name]) + seq![alone(';')];
    assert forall|i: int| 0 <= i < names.len() implies #[trigger] names.map_values(f)[i]
        == names.map_values(g)[i] by {
        assert(names.to_set().contains(names[i]));
        assert(a.mods.contains_key(names[i]));
    }
    assert(names.map_values(f) =~= names.map_values(g));
}

/// Modules that are the same but for keys have submodules of the same names.
proof fn lemma_same_names(a: ModView, b: ModView)
    requires
        same_but_keys(a, b),
        a.well_named(),
    ensures
        b.well_named(),
    decreases a,
{
    assert forall|name: Seq<char>| #[trigger] b.mods.contains_key(name) implies is_file_stem(name)
        && b.mods[name].well_named() by {
        assert(a.mods.dom().contains(name));
        assert(a.mods.contains_key(name));
        lemma_same_names(a.mods[name], b.mods[name]);
    }
}

/// Modules that are the same but for keys lead to such modules.
proof fn lemma_same_at(a: ModView, b: ModView, path: Seq<Seq<char>>)
    requires
        same_but_keys(a, b),
        a.is_finite(),
    ensures
        module_at(a, path) is Some == module_at(b, path) is Some,
        module_at(a, path) is Some ==> {
            &&& same_but_keys(module_at(a, path)->0, module_at(b, path)->0)
            &&& module_at(a, path)->0.is_finite()
        },
    decreases path.len(),
{
    if path.len() > 0 {
        assert(a.mods.dom().contains(path[0]) == b.mods.dom().contains(path[0]));
        if a.mods.contains_key(path[0]) {
            lemma_same_at(a.mods[path[0]], b.mods[path[0]], path.drop_first());
        }
    }
}

/// A leaf renders to the same contents in a stream and in a file.
pub proof fn law_leaf_contents(m: ModView)
    requires
        m.is_leaf(),
    ensures
        stream_tokens(m) == item_tokens(m),
        file_tokens(m) == item_tokens(m),
{
    let none = Seq::<Seq<char>>::empty();
    assert(none.to_set() =~= Set::<Seq<char>>::empty());
    lemma_sorted(none);
    assert(m.mods.dom() == none.to_set());
    let f = |name: Seq<char>| mod_head(name, m.mods[name]) + seq![alone(';')];
    assert(none.map_values(f) =~= Seq::<Seq<Tree>>::empty());
    assert(joined(none, f) =~= Seq::<Tree>::empty());
    assert(file_tokens(m) =~= item_tokens(m));
    assert(block_tokens(m, none) =~= Seq::<Tree>::empty());
    assert(stream_tokens(m) =~= item_tokens(m));
}

/// An empty module is public, and holds nothing. It renders to nothing: an empty
/// stream, and one empty file.
pub proof fn law_empty()
    ensures
        ModView::empty().vis == Visibility::Pub,
        ModView::empty().docs.len() == 0,
        ModView::empty().attrs.len() == 0,
        forall|key: Seq<char>| !ModView::empty().items.contains_key(key),
        forall|name: Seq<char>| !ModView::empty().mods.contains_key(name),
        root_stream(ModView::empty()) == Seq::<Tree>::empty(),
        root_files(ModView::empty()) == Map::<Seq<Seq<char>>, Seq<Tree>>::empty().insert(
            root_file(),
            Seq::<Tree>::empty(),
        ),
{
    let m = ModView::empty();
    let none = Seq::<Seq<char>>::empty();
    assert(m.mods.dom() =~= Set::<Seq<char>>::empty());
    law_leaf_contents(m);
    assert(none.to_set() =~= Set::<Seq<char>>::empty());
    lemma_sorted(none);
    assert(m.items.dom() =~= none.to_set());
    let f = |key: Seq<char>| m.items[key];
    assert(none.map_values(f) =~= Seq::<Seq<Tree>>::empty());
    assert(item_tokens(m) =~= Seq::<Tree>::empty());
    assert(doc_tokens(true, m.docs) =~= Seq::<Tree>::empty()) by {
        assert(Seq::new(m.docs.len(), |i: int| paragraph(true, i == 0, m.docs[i]))
            =~= Seq::<Seq<Tree>>::empty());
    }
    assert(attr_tokens(true, m.attrs) =~= Seq::<Tree>::empty()) by {
        assert(m.attrs.map_values(|attr: Seq<Tree>| attribute(true, attr))
            =~= Seq::<Seq<Tree>>::empty());
    }
    assert(meta_tokens(true, m) =~= Seq::<Tree>::empty());
    assert(root_stream(m) =~= Seq::<Tree>::empty());
    lemma_leaf_files(m, seq![]);
    assert(meta_tokens(true, m) + file_tokens(m) =~= Seq::<Tree>::empty());
}

/// Each added paragraph is rendered after the others, with an empty line
/// between, and each added attribute after the others.
pub proof fn law_meta_accumulates(
    inner: bool,
    docs: Seq<Seq<char>>,
    text: Seq<char>,
    attrs: Seq<Seq<Tree>>,
    attr: Seq<Tree>,
)
    ensures
        doc_tokens(inner, docs.push(text)) == doc_tokens(inner, docs) + paragraph(
            inner,
            docs.len() == 0,
            text,
        ),
        attr_tokens(inner, attrs.push(attr)) == attr_tokens(inner, attrs) + attribute(inner, attr),
{
    let before = Seq::new(docs.len(), |i: int| paragraph(inner, i == 0, docs[i]));
    let more = docs.push(text);
    let last = paragraph(inner, docs.len() == 0, text);
    assert(Seq::new(more.len(), |i: int| paragraph(inner, i == 0, more[i])) =~= before.push(last));
    before.lemma_flatten_push(last);
    let f = |a: Seq<Tree>| attribute(inner, a);
    assert(attrs.push(attr).map_values(f) =~= attrs.map_values(f).push(attribute(inner, attr)));
    attrs.map_values(f).lemma_flatten_push(attribute(inner, attr));
}

/// No line of a text holds a newline.
pub proof fn law_lines(text: Seq<char>)
    ensures
        forall|i: int, j: int|
            0 <= i < lines(text).len() && 0 <= j < lines(text)[i].len() ==> #[trigger] lines(
                text,
            )[i][j] != '\n',
    decreases text.len(),
{
    if text.len() > 0 {
        if exists|i: int| first_newline(text, i) {
            let k = choose|i: int| first_newline(text, i);
            let rest = text.skip(k + 1);
            law_lines(rest);
            assert forall|i: int, j: int|
                0 <= i < lines(text).len() && 0 <= j < lines(text)[i].len() implies #[trigger] lines(
                text,
            )[i][j] != '\n' by {
                if i == 0 {
                    assert(lines(text)[0][j] == text[j]);
                } else {
                    assert(lines(text)[i] == lines(rest)[i - 1]);
                }
            }
        } else {
            assert(lines(text) =~= seq![text]);
            assert forall|j: int| 0 <= j < text.len() implies #[trigger] text[j] != '\n' by {
                if text[j] == '\n' {
                    lemma_some_first_newline(text, j);
                }
            }
        }
    }
}

/// A line ends at a newline, or at a carriage return and a newline, neither of
/// which belongs to it; the last one ends where the text ends, if it is not empty.
pub proof fn law_line_ends(line: Seq<char>, rest: Seq<char>)
    requires
        !line.contains('\n'),
    ensures
        lines(seq![]) == Seq::<Seq<char>>::empty(),
        line.len() > 0 ==> lines(line) == seq![line],
        line.len() > 0 ==> line.last() != '\r' ==> lines(line + seq!['\n'] + rest) == seq![line]
            + lines(rest),
        line.len() == 0 ==> lines(line + seq!['\n'] + rest) == seq![line] + lines(rest),
        lines(line + seq!['\r', '\n'] + rest) == seq![line] + lines(rest),
{
    if line.len() > 0 {
        assert forall|i: int| !first_newline(line, i) by {
            if first_newline(line, i) {
                assert(line.contains(line[i]));
            }
        }
    }
    lemma_first_line(line, rest);
    let returned = line.push('\r');
    assert(!returned.contains('\n')) by {
        if returned.contains('\n') {
            let i = choose|i: int| 0 <= i < returned.len() && returned[i] == '\n';
            assert(line.contains(line[i]));
        }
    }
    lemma_first_line(returned, rest);
    assert(returned.drop_last() =~= line);
    assert(returned + seq!['\n'] + rest =~= line + seq!['\r', '\n'] + rest);
}

/// The first line of a text with a newline in it.
proof fn lemma_first_line(line: Seq<char>, rest: Seq<char>)
    requires
        !line.contains('\n'),
    ensures
        lines(line + seq!['\n'] + rest) == seq![
            if line.len() > 0 && line.last() == '\r' {
                line.drop_last()
            } else {
                line
            },
        ] + lines(rest),
{
    let text = line + seq!['\n'] + rest;
    let n = line.len() as int;
    assert(first_newline(text, n)) by {
        assert forall|j: int| 0 <= j < n implies #[trigger] text[j] != '\n' by {
            assert(text[j] == line[j]);
            assert(line.contains(line[j]));
        }
    }
    let k = choose|i: int| first_newline(text, i);
    assert(first_newline(text, k));
    assert(k == n) by {
        if k < n {
            assert(text[k] != '\n');
        } else if n < k {
            assert(text[n] != '\n');
        }
    }
    assert(text.take(n) =~= line);
    assert(text.skip(n + 1) =~= rest);
}

/// Lines with a newline between each and the next.
pub open spec fn unsplit(all: Seq<Seq<char>>) -> Seq<char>
    decreases all.len(),
{
    if all.len() == 0 {
        seq![]
    } else if all.len() == 1 {
        all[0]
    } else {
        all[0] + seq!['\n'] + unsplit(all.drop_first())
    }
}

/// The lines of a text in which no carriage return stands before a newline, put
/// together, are the text, but for a newline at its end.
pub proof fn law_lines_unsplit(text: Seq<char>)
    requires
        forall|i: int| 0 <= i < text.len() - 1 && #[trigger] text[i] == '\r' ==> text[i + 1] != '\n',
    ensures
        text == unsplit(lines(text)) || text == unsplit(lines(text)).push('\n'),
        lines(text).len() == 0 <==> text.len() == 0,
    decreases text.len(),
{
    if text.len() > 0 && exists|i: int| first_newline(text, i) {
        let k = choose|i: int| first_newline(text, i);
        let line = text.take(k);
        let rest = text.skip(k + 1);
        if k > 0 {
            assert(text[k - 1] == line.last());
        }
        assert forall|i: int| 0 <= i < rest.len() - 1 && #[trigger] rest[i] == '\r' implies rest[i
            + 1] != '\n' by {
            assert(text[i + k + 1] == rest[i]);
            assert(text[i + k + 2] == rest[i + 1]);
        }
        law_lines_unsplit(rest);
        let all = lines(text);
        assert(all.drop_first() =~= lines(rest));
        assert(all[0] == line);
        if rest.len() == 0 {
            assert(unsplit(all) == line);
            assert(text =~= unsplit(all).push('\n'));
        } else {
            assert(text =~= line + seq!['\n'] + rest);
            assert(unsplit(all) == line + seq!['\n'] + unsplit(lines(rest)));
            if rest != unsplit(lines(rest)) {
                assert(text =~= unsplit(all).push('\n'));
            }
        }
    }
}

/// If a text holds a newline, it holds a first one.
pub proof fn lemma_some_first_newline(s: Seq<char>, j: int)
    requires
        0 <= j < s.len(),
        s[j] == '\n',
    ensures
        exists|i: int| first_newline(s, i),
    decreases j,
{
    if exists|k: int| 0 <= k < j && #[trigger] s[k] == '\n' {
        let k = choose|k: int| 0 <= k < j && #[trigger] s[k] == '\n';
        lemma_some_first_newline(s, k);
    } else {
        assert(first_newline(s, j));
    }
}

// ---- Names ----

/// Raw identifiers are refused as invalid, `gen` is refused as a keyword, and a
/// name with space or a comment around it is refused.
pub proof fn law_refused_names(name: Seq<char>)
    ensures
        has_raw_prefix(name) ==> mod_name_fault(name) == Some(NameFault::NotIdentifier),
        name == "gen"@ ==> mod_name_fault(name) == Some(NameFault::Keyword),
        !is_unpadded(name) ==> mod_name_fault(name) is Some,
{
    reveal_strlit("gen");
}

/// A name is accepted if it parses as an identifier, unless it is a raw one, or
/// there is space or a comment around it, or it is `gen`. Of those refused, `gen`
/// and the texts that lex into themselves are keywords.
pub proof fn law_accepted_names(name: Seq<char>)
    ensures
        is_mod_name(name) <==> parses_as_ident(name) && is_unpadded(name) && !has_raw_prefix(name)
            && name != "gen"@,
        mod_name_fault(name) is None <==> is_mod_name(name),
        mod_name_fault(name) == Some(NameFault::Keyword) <==> name == "gen"@ || (!is_mod_name(name)
            && !has_raw_prefix(name) && is_ascii_text(name) && lexed(name) == Some(
            seq![Tree::Ident(name)],
        )),
{
    reveal_strlit("gen");
    if let Some(all) = lexed(name) {
        if all.len() == 1 && all[0] == Tree::Ident(name) {
            assert(all =~= seq![Tree::Ident(name)]);
        }
    }
}

/// How a name is judged by whether it parses, and by what it lexes into alone.
pub proof fn law_judged_names(name: Seq<char>, parses: bool, lone: Option<Seq<char>>)
    ensures
        name_fault(name, parses, lone) is None <==> parses && is_unpadded(name)
            && !has_raw_prefix(name) && name != "gen"@,
        name_fault(name, parses, lone) == Some(NameFault::Keyword) <==> name == "gen"@ || (
        !has_raw_prefix(name) && !(parses && is_unpadded(name)) && lone == Some(name)),
{
    reveal_strlit("gen");
}

/// An ASCII name is accepted if it is a word and no keyword; a word that is one,
/// or `gen`, is refused as a keyword, and any other text as no identifier.
pub proof fn law_ascii_names(name: Seq<char>)
    ensures
        ascii_name_fault(name) is None <==> is_ascii_word(name) && !is_keyword(name) && name
            != "gen"@,
        ascii_name_fault(name) == Some(NameFault::Keyword) <==> is_ascii_word(name) && (is_keyword(
            name,
        ) || name == "gen"@),
{
}

/// A path is refused for the first of its segments, the last one left aside, that
/// is no module name; if there is none, it is accepted.
pub proof fn law_refused_paths(path: Seq<char>, i: int, j: int)
    ensures
        first_bad_segment(path, i) ==> 0 <= i < segments(path).len() - 1 && !is_mod_name(
            segments(path)[i],
        ) && !is_item_path(path),
        first_bad_segment(path, i) && 0 <= j < i ==> is_mod_name(segments(path)[j]),
        0 <= j < segments(path).len() - 1 && !is_mod_name(segments(path)[j]) ==> exists|k: int|
            k <= j && first_bad_segment(path, k),
        !is_item_path(path) ==> exists|k: int| first_bad_segment(path, k),
        is_item_path(path) && 0 <= j < segments(path).len() - 1 ==> is_mod_name(segments(path)[j]),
{
    if 0 <= j < segments(path).len() - 1 && !is_mod_name(segments(path)[j]) {
        lemma_some_bad_segment(path, j);
    }
    if !is_item_path(path) {
        let k = choose|k: int|
            0 <= k < segments(path).len() - 1 && !is_mod_name(#[trigger] segments(path)[k]);
        lemma_some_bad_segment(path, k);
    }
}

/// If a segment is no module name, there is a first such.
proof fn lemma_some_bad_segment(path: Seq<char>, j: int)
    requires
        0 <= j < segments(path).len() - 1,
        !is_mod_name(segments(path)[j]),
    ensures
        exists|k: int| k <= j && first_bad_segment(path, k),
    decreases j,
{
    if exists|k: int| 0 <= k < j && !is_mod_name(#[trigger] segments(path)[k]) {
        let k = choose|k: int| 0 <= k < j && !is_mod_name(#[trigger] segments(path)[k]);
        lemma_some_bad_segment(path, k);
        let l = choose|l: int| l <= k && first_bad_segment(path, l);
        assert(l <= j && first_bad_segment(path, l));
    } else {
        assert(first_bad_segment(path, j));
    }
}

/// An error names what was refused, and its message says what, where, and why.
pub proof fn law_messages(e: ModNameError, name: Seq<char>, full: Seq<char>)
    ensures
        e.refuses(name) <==> e.name@ == name && e.full@ == name && mod_name_fault(name) == Some(
            e.fault,
        ),
        ModNameError::message_text(NameFault::Keyword, name, full) == "module name "@ + name
            + " (in "@ + full + ") is a Rust keyword"@,
        ModNameError::message_text(NameFault::NotIdentifier, name, full) == "module name "@ + name
            + " (in "@ + full
            + ") is not a valid Rust identifier (raw identifiers are not supported)"@,
{
}

// ---- Order ----

/// Texts are ordered by their first characters, and by what follows where these
/// are the same; nothing comes before an empty text.
pub proof fn law_text_order(c: char, d: char, x: Seq<char>, y: Seq<char>)
    ensures
        !text_before(x, seq![]),
        text_before(seq![], seq![d] + y),
        text_before(seq![c] + x, seq![d] + y) <==> c < d || (c == d && text_before(x, y)),
{
    lemma_lex_step(c, d, x, y, |p: char, q: char| p < q);
}

/// Paths are ordered by their first components, and by what follows where these
/// are the same; nothing comes before an empty path.
pub proof fn law_path_order(
    c: Seq<char>,
    d: Seq<char>,
    x: Seq<Seq<char>>,
    y: Seq<Seq<char>>,
)
    ensures
        !path_before(x, seq![]),
        path_before(seq![], seq![d] + y),
        path_before(seq![c] + x, seq![d] + y) <==> text_before(c, d) || (c == d && path_before(x, y)),
{
    lemma_lex_step(c, d, x, y, |p: Seq<char>, q: Seq<char>| text_before(p, q));
}

/// One step of the lexicographic order.
proof fn lemma_lex_step<T>(c: T, d: T, x: Seq<T>, y: Seq<T>, lt: spec_fn(T, T) -> bool)
    ensures
        !lex_before(x, seq![], lt),
        lex_before(seq![], seq![d] + y, lt),
        lex_before(seq![c] + x, seq![d] + y, lt) <==> lt(c, d) || (c == d && lex_before(x, y, lt)),
{
    let none = Seq::<T>::empty();
    let a = seq![c] + x;
    let b = seq![d] + y;
    assert(none.take(0) =~= b.take(0));
    assert(splits_at(none, b, lt, 0));
    if lex_before(a, b, lt) {
        let k = choose|k: int| #[trigger] splits_at(a, b, lt, k);
        if k > 0 {
            assert(a.take(k)[0] == c && b.take(k)[0] == d);
            assert(x.take(k - 1) =~= a.take(k).skip(1));
            assert(y.take(k - 1) =~= b.take(k).skip(1));
            assert(splits_at(x, y, lt, k - 1));
        }
    }
    if lt(c, d) {
        assert(a.take(0) =~= b.take(0));
        assert(splits_at(a, b, lt, 0));
    }
    if c == d && lex_before(x, y, lt) {
        let k = choose|k: int| #[trigger] splits_at(x, y, lt, k);
        assert(a.take(k + 1) =~= seq![c] + x.take(k));
        assert(b.take(k + 1) =~= seq![d] + y.take(k));
        assert(splits_at(a, b, lt, k + 1));
    }
}

/// A table holds under each key the value beside it, and under no other key any;
/// its keys stand in order.
pub proof fn law_table<K: SortKey, V>(entries: Seq<(K, V)>, key: K::V, i: int, j: int)
    requires
        ascending(entries),
    ensures
        entry_at(entries, key, i) <==> 0 <= i < entries.len() && entries[i].0@ == key,
        contents(entries).contains_key(key) <==> has_key(entries, key),
        has_key(entries, key) <==> exists|k: int|
            0 <= k < entries.len() && (#[trigger] entries[k]).0@ == key,
        0 <= i < entries.len() ==> contents(entries)[entries[i].0@] == entries[i].1,
        0 <= i < j < entries.len() ==> K::before(entries[i].0@, entries[j].0@),
{
    if 0 <= i < entries.len() {
        lemma_position(entries, i);
    }
    if exists|k: int| 0 <= k < entries.len() && (#[trigger] entries[k]).0@ == key {
        let k = choose|k: int| 0 <= k < entries.len() && (#[trigger] entries[k]).0@ == key;
        assert(entry_at(entries, key, k));
    }
    if has_key(entries, key) {
        let k = choose|k: int| #[trigger] entry_at(entries, key, k);
        assert(entries[k].0@ == key);
    }
}

/// The texts of strings are what the strings hold, one for each.
pub proof fn law_texts(strings: Seq<String>)
    ensures
        texts(strings).len() == strings.len(),
        forall|i: int| 0 <= i < strings.len() ==> #[trigger] texts(strings)[i] == strings[i]@,
{
}

// ---- Files ----

/// A list of files in order holds each file once, under its path and with its
/// contents, and no others; paths stand in order.
pub proof fn law_file_list(
    entries: Seq<(FilePath, TokenStream)>,
    files: Map<Seq<Seq<char>>, Seq<Tree>>,
    i: int,
    j: int,
)
    requires
        ascending(entries),
        file_map(entries) == files,
    ensures
        0 <= i < entries.len() ==> files.contains_key(entries[i].0@) && files[entries[i].0@]
            == trees(entries[i].1),
        0 <= i < j < entries.len() ==> path_before(entries[i].0@, entries[j].0@),
        forall|path: Seq<Seq<char>>| #[trigger]
            files.contains_key(path) ==> exists|k: int|
                0 <= k < entries.len() && (#[trigger] entries[k]).0@ == path,
{
    if 0 <= i < entries.len() {
        lemma_position(entries, i);
    }
    if 0 <= i < j < entries.len() {
        assert(FilePath::before(entries[i].0@, entries[j].0@));
    }
    assert forall|path: Seq<Seq<char>>| #[trigger] files.contains_key(path) implies exists|k: int|
        0 <= k < entries.len() && (#[trigger] entries[k]).0@ == path by {
        law_table(entries, path, 0, 0);
        assert(contents(entries).contains_key(path));
    }
}

/// A path is written as its components, with a slash before each but the first.
pub proof fn law_written_path(path: Seq<Seq<char>>, component: Seq<char>)
    ensures
        slashed(seq![]) == Seq::<char>::empty(),
        slashed(seq![component]) == component,
        path.len() > 0 ==> slashed(path.push(component)) == slashed(path) + seq!['/'] + component,
{
    assert(path.push(component).drop_last() =~= path);
}

/// The file of the root module holds its metadata and its contents. Each
/// submodule, at any depth, has a file of its own, which holds its contents;
/// unless it would be the file of the root module, which is the case of a leaf
/// `lib` at the root. There are no other files.
pub proof fn law_files(m: ModView, path: Seq<Seq<char>>, file: Seq<Seq<char>>)
    requires
        m.well_named(),
    ensures
        root_files(m).contains_key(root_file()),
        root_files(m)[root_file()] == meta_tokens(true, m) + file_tokens(m),
        path.len() > 0 && module_at(m, path) is Some && file == module_file(
            path,
            module_at(m, path)->0.is_leaf(),
        ) && file != root_file() ==> root_files(m).contains_key(file) && root_files(m)[file]
            == file_tokens(module_at(m, path)->0),
        root_files(m).contains_key(file) && file != root_file() ==> exists|owner: Seq<Seq<char>>|
            owner.len() > 0 && #[trigger] module_at(m, owner) is Some && file == module_file(
                owner,
                module_at(m, owner)->0.is_leaf(),
            ),
{
    let none = Seq::<Seq<char>>::empty();
    if path.len() > 0 && module_at(m, path) is Some && file == module_file(
        path,
        module_at(m, path)->0.is_leaf(),
    ) {
        assert(none + file =~= file);
        assert(is_submodule_file(m, none, path, file));
        lemma_file_contents(m, none, path, file);
    }
    if root_files(m).contains_key(file) && file != root_file() {
        let owner = choose|owner: Seq<Seq<char>>| is_submodule_file(m, none, owner, file);
        assert(is_submodule_file(m, none, owner, file));
        let own = module_file(owner, module_at(m, owner)->0.is_leaf());
        assert(none + own =~= own);
    }
}

/// Two submodules never share a file.
pub proof fn law_files_apart(m: ModView, p: Seq<Seq<char>>, q: Seq<Seq<char>>)
    requires
        m.well_named(),
        p.len() > 0,
        q.len() > 0,
        module_at(m, p) is Some,
        module_at(m, q) is Some,
        module_file(p, module_at(m, p)->0.is_leaf()) == module_file(
            q,
            module_at(m, q)->0.is_leaf(),
        ),
    ensures
        p == q,
{
    let none = Seq::<Seq<char>>::empty();
    let file = module_file(p, module_at(m, p)->0.is_leaf());
    assert(none + file =~= file);
    lemma_file_owner(m, none, p, q, file);
}

/// The files of a module come out the same every time: the same paths, at the
/// same positions, with the same contents.
pub proof fn law_files_deterministic(
    m: ModView,
    a: Seq<(FilePath, TokenStream)>,
    b: Seq<(FilePath, TokenStream)>,
)
    requires
        ascending(a),
        file_map(a) == root_files(m),
        ascending(b),
        file_map(b) == root_files(m),
    ensures
        a.len() == b.len(),
        forall|i: int|
            0 <= i < a.len() ==> (#[trigger] a[i]).0@ == b[i].0@ && trees(a[i].1) == trees(b[i].1),
{
    assert(contents(a).dom() =~= file_map(a).dom());
    assert(contents(b).dom() =~= file_map(b).dom());
    lemma_same_keys(a, b);
    assert(keys(a).len() == keys(b).len());
    assert forall|i: int| 0 <= i < a.len() implies (#[trigger] a[i]).0@ == b[i].0@ && trees(a[i].1)
        == trees(b[i].1) by {
        assert(keys(a)[i] == keys(b)[i]);
        lemma_position(a, i);
        lemma_position(b, i);
        assert(file_map(a)[a[i].0@] == trees(a[i].1));
        assert(file_map(b)[b[i].0@] == trees(b[i].1));
    }
}

/// `file` lies in the directory `dir`, or further below.
pub open spec fn lies_below(file: Seq<Seq<char>>, dir: Seq<Seq<char>>) -> bool {
    file.len() > dir.len() && file.take(dir.len() as int) == dir
}

/// A leaf never has a directory.
pub proof fn law_no_directory_for_leaf(m: ModView, path: Seq<Seq<char>>, file: Seq<Seq<char>>)
    requires
        m.well_named(),
        path.len() > 0,
        module_at(m, path) is Some,
        module_at(m, path)->0.is_leaf(),
        root_files(m).contains_key(file),
    ensures
        !lies_below(file, path),
{
    if lies_below(file, path) {
        if file != root_file() {
            lemma_directory_owner(m, path, file);
        }
    }
}

/// A directory with files in it is that of a module with submodules.
proof fn lemma_directory_owner(m: ModView, dir: Seq<Seq<char>>, file: Seq<Seq<char>>)
    requires
        m.well_named(),
        dir.len() > 0,
        root_files(m).contains_key(file),
        file != root_file(),
        lies_below(file, dir),
    ensures
        module_at(m, dir) is Some,
        !module_at(m, dir)->0.is_leaf(),
{
    law_files(m, dir, file);
    let owner = choose|owner: Seq<Seq<char>>|
        owner.len() > 0 && #[trigger] module_at(m, owner) is Some && file == module_file(
            owner,
            module_at(m, owner)->0.is_leaf(),
        );
    let n = dir.len() as int;
    if module_at(m, owner)->0.is_leaf() {
        assert(file.len() == owner.len());
        assert(owner.take(n) =~= file.take(n));
        lemma_parent(m, owner, n);
    } else {
        assert(file.len() == owner.len() + 1);
        assert(owner.take(n) =~= file.take(n));
        if n == owner.len() {
            assert(owner.take(n) =~= owner);
        } else {
            lemma_parent(m, owner, n);
        }
    }
}

/// On the way to a module there are modules with submodules.
proof fn lemma_parent(m: ModView, path: Seq<Seq<char>>, n: int)
    requires
        0 <= n < path.len(),
        module_at(m, path) is Some,
    ensures
        module_at(m, path.take(n)) is Some,
        !module_at(m, path.take(n))->0.is_leaf(),
    decreases n,
{
    if n == 0 {
        assert(m.mods.dom().contains(path[0]));
    } else {
        let rest = path.drop_first();
        lemma_parent(m.mods[path[0]], rest, n - 1);
        assert(path.take(n).drop_first() =~= rest.take(n - 1));
    }
}

/// There is never a file `foo.rs` beside a directory `foo/`. The one exception
/// is the directory `lib/` at the top, that of a submodule `lib` of the root that
/// has submodules itself: the file `lib.rs` of the root module stands beside it.
pub proof fn law_no_file_beside_directory(
    m: ModView,
    parent: Seq<Seq<char>>,
    name: Seq<char>,
    file: Seq<Seq<char>>,
)
    requires
        m.well_named(),
        !(parent.len() == 0 && name == "lib"@),
        root_files(m).contains_key(file),
        lies_below(file, parent.push(name)),
    ensures
        !root_files(m).contains_key(parent.push(name + ".rs"@)),
{
    let dir = parent.push(name);
    let beside = parent.push(name + ".rs"@);
    assert(file.len() > 1);
    lemma_directory_owner(m, dir, file);
    lemma_stems(m, dir);
    assert(dir[dir.len() - 1] == name);
    assert(is_file_stem(name));
    if root_files(m).contains_key(beside) {
        if beside == root_file() {
            reveal_strlit("lib.rs");
            reveal_strlit("lib");
            reveal_strlit(".rs");
            assert(beside.len() == 1);
            assert(beside[0] == "lib.rs"@);
            assert(parent.len() == 0);
            assert((name + ".rs"@).len() == name.len() + 3);
            assert(name =~= (name + ".rs"@).take(name.len() as int));
            assert("lib"@ =~= "lib.rs"@.take(3));
            assert(name == "lib"@);
        } else {
            law_files(m, dir, beside);
            let owner = choose|owner: Seq<Seq<char>>|
                owner.len() > 0 && #[trigger] module_at(m, owner) is Some && beside == module_file(
                    owner,
                    module_at(m, owner)->0.is_leaf(),
                );
            lemma_stems(m, owner);
            if module_at(m, owner)->0.is_leaf() {
                let last = owner.last();
                reveal_strlit(".rs");
                assert(beside.last() == last + ".rs"@);
                assert((name + ".rs"@).len() == name.len() + 3);
                assert((last + ".rs"@).len() == last.len() + 3);
                assert(name =~= (name + ".rs"@).take(name.len() as int));
                assert(last =~= (last + ".rs"@).take(last.len() as int));
                assert(owner.drop_last() =~= beside.drop_last());
                assert(parent =~= beside.drop_last());
                assert(owner =~= dir);
            } else {
                assert(beside.last() == "mod.rs"@);
                lemma_not_mod_file(name);
            }
        }
    }
}

} // verus!
