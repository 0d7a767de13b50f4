//! The order in which keys are kept.
use vstd::prelude::*;
use vstd::std_specs::iter::IteratorSpec;

verus! {

/// Where one key stands relative to another.
pub enum Placement {
    Before,
    Same,
    After,
}

/// `a` and `b` agree on their first `k` elements, and there `a` either ends
/// or holds the lesser element.
pub open spec fn splits_at<T>(a: Seq<T>, b: Seq<T>, lt: spec_fn(T, T) -> bool, k: int) -> bool {
    &&& 0 <= k <= a.len()
    &&& k < b.len()
    &&& a.take(k) == b.take(k)
    &&& (k == a.len() || lt(a[k], b[k]))
}

/// Lexicographic order on sequences, given the order `lt` of their elements.
pub open spec fn lex_before<T>(a: Seq<T>, b: Seq<T>, lt: spec_fn(T, T) -> bool) -> bool {
    exists|k: int| #[trigger] splits_at(a, b, lt, k)
}

/// Strings are ordered by the code points of their characters.
pub open spec fn text_before(a: Seq<char>, b: Seq<char>) -> bool {
    lex_before(a, b, |x: char, y: char| x < y)
}

/// Paths are ordered component by component.
pub open spec fn path_before(a: Seq<Seq<char>>, b: Seq<Seq<char>>) -> bool {
    lex_before(a, b, |x: Seq<char>, y: Seq<char>| text_before(x, y))
}

/// `lt` is a strict total order.
pub open spec fn strict_order<T>(lt: spec_fn(T, T) -> bool) -> bool {
    &&& forall|a: T| !#[trigger] lt(a, a)
    &&& forall|a: T, b: T, c: T| #[trigger] lt(a, b) && #[trigger] lt(b, c) ==> lt(a, c)
    &&& forall|a: T, b: T| a != b ==> #[trigger] lt(a, b) || lt(b, a)
}

/// The lexicographic order of a strict total order is one itself.
pub proof fn lemma_lex_order<T>(lt: spec_fn(T, T) -> bool)
    requires
        strict_order(lt),
    ensures
        strict_order(|a: Seq<T>, b: Seq<T>| lex_before(a, b, lt)),
{
    let lex = |a: Seq<T>, b: Seq<T>| lex_before(a, b, lt);
    assert forall|a: Seq<T>| !#[trigger] lex(a, a) by {}
    assert forall|a: Seq<T>, b: Seq<T>, c: Seq<T>|
        #[trigger] lex(a, b) && #[trigger] lex(b, c) implies lex(a, c) by {
        let i = choose|i: int| #[trigger] splits_at(a, b, lt, i);
        let j = choose|j: int| #[trigger] splits_at(b, c, lt, j);
        let k = if i <= j {
            i
        } else {
            j
        };
        assert(a.take(k) =~= a.take(i).take(k));
        assert(b.take(k) =~= b.take(i).take(k));
        assert(b.take(k) =~= b.take(j).take(k));
        assert(c.take(k) =~= c.take(j).take(k));
        if i < j {
            assert(b[i] == b.take(j)[i]);
            assert(c[i] == c.take(j)[i]);
        }
        if j < i {
            assert(a[j] == a.take(i)[j]);
            assert(b[j] == b.take(i)[j]);
        }
        assert(splits_at(a, c, lt, k));
    }
    assert forall|a: Seq<T>, b: Seq<T>| a != b implies #[trigger] lex(a, b) || lex(b, a) by {
        assert(a.take(0) =~= b.take(0));
        lemma_lex_total(a, b, lt, 0);
    }
}

/// Two sequences that agree on their first `k` elements are equal or ordered.
proof fn lemma_lex_total<T>(a: Seq<T>, b: Seq<T>, lt: spec_fn(T, T) -> bool, k: int)
    requires
        strict_order(lt),
        0 <= k <= a.len(),
        k <= b.len(),
        a.take(k) == b.take(k),
    ensures
        a == b || lex_before(a, b, lt) || lex_before(b, a, lt),
    decreases a.len() - k,
{
    if k == a.len() && k == b.len() {
        assert(a =~= a.take(k));
        assert(b =~= b.take(k));
    } else if k == a.len() || k == b.len() || a[k] != b[k] {
        assert(splits_at(a, b, lt, k) || splits_at(b, a, lt, k));
    } else {
        assert(a.take(k + 1) =~= a.take(k).push(a[k]));
        assert(b.take(k + 1) =~= b.take(k).push(b[k]));
        lemma_lex_total(a, b, lt, k + 1);
    }
}

/// `text_before` is a strict total order.
pub proof fn lemma_text_order()
    ensures
        strict_order(|a: Seq<char>, b: Seq<char>| text_before(a, b)),
{
    lemma_lex_order(|x: char, y: char| x < y);
    assert((|a: Seq<char>, b: Seq<char>| text_before(a, b)) =~= (|a: Seq<char>, b: Seq<char>|
        lex_before(a, b, |x: char, y: char| x < y)));
}

/// `path_before` is a strict total order.
pub proof fn lemma_path_order()
    ensures
        strict_order(|a: Seq<Seq<char>>, b: Seq<Seq<char>>| path_before(a, b)),
{
    lemma_text_order();
    lemma_lex_order(|x: Seq<char>, y: Seq<char>| text_before(x, y));
    assert((|a: Seq<Seq<char>>, b: Seq<Seq<char>>| path_before(a, b)) =~= (|
        a: Seq<Seq<char>>,
        b: Seq<Seq<char>>,
    | lex_before(a, b, |x: Seq<char>, y: Seq<char>| text_before(x, y))));
}

/// A type whose values are kept in the order of their views.
pub trait SortKey: View + Sized {
    /// `a` comes before `b`.
    spec fn before(a: Self::V, b: Self::V) -> bool;

    /// `before` is a strict total order.
    proof fn lemma_before_order()
        ensures
            strict_order(|a: Self::V, b: Self::V| Self::before(a, b)),
    ;

    /// Where `self` stands relative to `other`.
    fn place(&self, other: &Self) -> (r: Placement)
        ensures
            match r {
                Placement::Before => Self::before(self@, other@),
                Placement::Same => self@ == other@,
                Placement::After => Self::before(other@, self@),
            },
    ;
}

/// Where the text `a` stands relative to `b`.
pub fn place_text(a: &str, b: &str) -> (r: Placement)
    ensures
        match r {
            Placement::Before => text_before(a@, b@),
            Placement::Same => a@ == b@,
            Placement::After => text_before(b@, a@),
        },
{
    let ghost lt = |x: char, y: char| x < y;
    let mut left = a.chars();
    let mut right = b.chars();
    let ghost mut k: int = 0;
    loop
        invariant
            lt == (|x: char, y: char| x < y),
            0 <= k <= a@.len(),
            k <= b@.len(),
            a@.take(k) == b@.take(k),
            left.remaining() == a@.skip(k),
            right.remaining() == b@.skip(k),
        decreases a@.len() - k,
    {
        let x = left.next();
        let y = right.next();
        match (x, y) {
            (None, None) => {
                assert(a@ =~= a@.take(k));
                assert(b@ =~= b@.take(k));
                return Placement::Same;
            },
            (None, Some(_)) => {
                assert(splits_at(a@, b@, lt, k));
                return Placement::Before;
            },
            (Some(_), None) => {
                assert(splits_at(b@, a@, lt, k));
                return Placement::After;
            },
            (Some(p), Some(q)) => {
                if p < q {
                    assert(splits_at(a@, b@, lt, k));
                    return Placement::Before;
                }
                if q < p {
                    assert(splits_at(b@, a@, lt, k));
                    return Placement::After;
                }
                assert(a@.take(k + 1) =~= a@.take(k).push(p));
                assert(b@.take(k + 1) =~= b@.take(k).push(q));
                proof {
                    k = k + 1;
                }
            },
        }
    }
}

impl SortKey for String {
    open spec fn before(a: Seq<char>, b: Seq<char>) -> bool {
        text_before(a, b)
    }

    proof fn lemma_before_order() {
        lemma_text_order();
        assert((|a: Seq<char>, b: Seq<char>| Self::before(a, b)) =~= (|a: Seq<char>, b: Seq<char>|
            text_before(a, b)));
    }

    fn place(&self, other: &Self) -> (r: Placement) {
        place_text(self.as_str(), other.as_str())
    }
}

} // verus!
