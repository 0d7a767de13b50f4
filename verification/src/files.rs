//! Relative file paths.
use crate::order::{
    lemma_path_order, path_before, place_text, splits_at, text_before, Placement, SortKey,
};
use crate::text::texts;
use vstd::prelude::*;

verus! {

/// A relative path to a file: directories, then the name of the file. Paths are
/// ordered component by component.
#[derive(Debug)]
pub struct FilePath {
    /// The components, outermost first.
    pub components: Vec<String>,
}

impl View for FilePath {
    type V = Seq<Seq<char>>;

    open spec fn view(&self) -> Seq<Seq<char>> {
        texts(self.components@)
    }
}

/// The components with a slash between each and the next.
pub open spec fn slashed(path: Seq<Seq<char>>) -> Seq<char>
    decreases path.len(),
{
    if path.len() == 0 {
        seq![]
    } else if path.len() == 1 {
        path[0]
    } else {
        slashed(path.drop_last()) + seq!['/'] + path.last()
    }
}

impl FilePath {
    /// The path without components.
    pub fn new() -> (r: FilePath)
        ensures
            r@ == Seq::<Seq<char>>::empty(),
    {
        let r = FilePath { components: Vec::new() };
        assert(r@ =~= Seq::<Seq<char>>::empty());
        r
    }

    /// The path `component` below this one.
    pub fn join(&self, component: &str) -> (r: FilePath)
        ensures
            r@ == self@.push(component@),
    {
        let mut components: Vec<String> = Vec::new();
        let mut i: usize = 0;
        while i < self.components.len()
            invariant
                i <= self.components@.len(),
                texts(components@) == self@.take(i as int),
            decreases self.components@.len() - i,
        {
            let ghost before = texts(components@);
            components.push(self.components[i].clone());
            i = i + 1;
            assert(texts(components@) =~= before.push(self@[i - 1]));
            assert(self@.take(i as int) =~= before.push(self@[i - 1]));
        }
        assert(self@.take(i as int) =~= self@);
        components.push(component.to_owned());
        assert(texts(components@) =~= self@.push(component@));
        FilePath { components }
    }

    /// The path written with slashes.
    pub fn to_text(&self) -> (r: String)
        ensures
            r@ == slashed(self@),
    {
        let mut r = String::new();
        let mut i: usize = 0;
        assert(self@.take(0) =~= seq![]);
        while i < self.components.len()
            invariant
                i <= self.components@.len(),
                r@ == slashed(self@.take(i as int)),
            decreases self.components@.len() - i,
        {
            if i > 0 {
                r.append("/");
                proof {
                    reveal_strlit("/");
                    assert("/"@ =~= seq!['/']);
                }
            }
            r.append(self.components[i].as_str());
            proof {
                let next = self@.take(i + 1);
                assert(next.drop_last() =~= self@.take(i as int));
                assert(next.last() == self.components@[i as int]@);
                if i == 0 {
                    assert(r@ =~= next[0]);
                }
            }
            i = i + 1;
        }
        assert(self@.take(i as int) =~= self@);
        r
    }
}

impl SortKey for FilePath {
    open spec fn before(a: Seq<Seq<char>>, b: Seq<Seq<char>>) -> bool {
        path_before(a, b)
    }

    proof fn lemma_before_order() {
        lemma_path_order();
        assert((|a: Seq<Seq<char>>, b: Seq<Seq<char>>| Self::before(a, b)) =~= (|
            a: Seq<Seq<char>>,
            b: Seq<Seq<char>>,
        | path_before(a, b)));
    }

    fn place(&self, other: &Self) -> (r: Placement) {
        let ghost lt = |x: Seq<char>, y: Seq<char>| text_before(x, y);
        let mut i: usize = 0;
        assert(self@.take(0) =~= other@.take(0));
        while i < self.components.len() && i < other.components.len()
            invariant
                lt == (|x: Seq<char>, y: Seq<char>| text_before(x, y)),
                i <= self@.len(),
                i <= other@.len(),
                self@.take(i as int) == other@.take(i as int),
            decreases self.components@.len() - i,
        {
            match place_text(self.components[i].as_str(), other.components[i].as_str()) {
                Placement::Before => {
                    assert(splits_at(self@, other@, lt, i as int));
                    return Placement::Before;
                },
                Placement::After => {
                    assert(splits_at(other@, self@, lt, i as int));
                    return Placement::After;
                },
                Placement::Same => {},
            }
            assert(self@.take(i + 1) =~= self@.take(i as int).push(self@[i as int]));
            assert(other@.take(i + 1) =~= other@.take(i as int).push(other@[i as int]));
            i = i + 1;
        }
        if i < other.components.len() {
            assert(splits_at(self@, other@, lt, i as int));
            Placement::Before
        } else if i < self.components.len() {
            assert(splits_at(other@, self@, lt, i as int));
            Placement::After
        } else {
            assert(self@ =~= self@.take(i as int));
            assert(other@ =~= other@.take(i as int));
            Placement::Same
        }
    }
}

} // verus!
