//! Facts about sequences and maps that several modules need.

use vstd::prelude::*;

verus! {

/// The first `i + 1` elements are the first `i` and the next one.
pub proof fn lemma_take_to_set<T>(s: Seq<T>, i: int)
    requires
        0 <= i < s.len(),
    ensures
        s.take(i + 1) == s.take(i).push(s[i]),
        s.take(i + 1).to_set() == s.take(i).to_set().insert(s[i]),
{
    let a = s.take(i + 1);
    let b = s.take(i);
    assert(a =~= b.push(s[i]));
    assert forall|x: T| a.to_set().contains(x) == b.to_set().insert(s[i]).contains(x) by {
        if a.contains(x) {
            let k = choose|k: int| 0 <= k < a.len() && a[k] == x;
            if k < i {
                assert(b[k] == x);
            }
        }
        if b.contains(x) {
            let k = choose|k: int| 0 <= k < b.len() && b[k] == x;
            assert(a[k] == x);
        }
        assert(a[i] == s[i]);
    }
    assert(a.to_set() =~= b.to_set().insert(s[i]));
}

/// What is among the first `i + 1` elements is among the first `i` or the next
/// one.
pub proof fn lemma_take_contains<T>(s: Seq<T>, i: int)
    requires
        0 <= i < s.len(),
    ensures
        forall|x: T| #[trigger]
            s.take(i + 1).contains(x) == (s.take(i).contains(x) || x == s[i]),
{
    lemma_take_to_set(s, i);
    assert forall|x: T| #[trigger] s.take(i + 1).contains(x) == (s.take(i).contains(x) || x
        == s[i]) by {
        assert(s.take(i + 1).to_set().contains(x) == s.take(i + 1).contains(x));
        assert(s.take(i).to_set().contains(x) == s.take(i).contains(x));
    }
}

/// Filtering one element more appends it or leaves it out.
pub proof fn lemma_filter_take<T>(s: Seq<T>, f: spec_fn(T) -> bool, i: int)
    requires
        0 <= i < s.len(),
    ensures
        s.take(i + 1).filter(f) == if f(s[i]) {
            s.take(i).filter(f).push(s[i])
        } else {
            s.take(i).filter(f)
        },
{
    reveal(Seq::filter);
    assert(s.take(i + 1).drop_last() =~= s.take(i));
}

/// Nothing comes out of an empty sequence.
pub proof fn lemma_filter_none<T>(s: Seq<T>, f: spec_fn(T) -> bool)
    ensures
        s.take(0).filter(f) == Seq::<T>::empty(),
{
    reveal(Seq::filter);
    assert(s.take(0) =~= Seq::<T>::empty());
}

/// A filtered sequence has the elements that pass, in the same order; it has no
/// duplicates where the sequence has none.
pub proof fn lemma_filter_facts<T>(s: Seq<T>, f: spec_fn(T) -> bool)
    ensures
        forall|x: T| #[trigger] s.filter(f).contains(x) <==> s.contains(x) && f(x),
        s.no_duplicates() ==> s.filter(f).no_duplicates(),
    decreases s.len(),
{
    reveal(Seq::filter);
    if s.len() == 0 {
        assert(s.filter(f) =~= Seq::<T>::empty());
    } else {
        let front = s.drop_last();
        let x = s.last();
        lemma_filter_facts(front, f);
        assert(s =~= front.push(x));
        assert forall|y: T| s.contains(y) == (front.contains(y) || y == x) by {
            if front.contains(y) {
                let k = choose|k: int| 0 <= k < front.len() && front[k] == y;
                assert(s[k] == y);
            }
            if s.contains(y) && y != x {
                let k = choose|k: int| 0 <= k < s.len() && s[k] == y;
                assert(front[k] == y);
            }
            assert(s[s.len() - 1] == x);
        }
        if f(x) {
            let whole = front.filter(f).push(x);
            assert(s.filter(f) == whole);
            assert forall|y: T| whole.contains(y) == (front.filter(f).contains(y) || y == x) by {
                if front.filter(f).contains(y) {
                    let k = choose|k: int|
                        0 <= k < front.filter(f).len() && front.filter(f)[k] == y;
                    assert(whole[k] == y);
                }
                assert(whole[whole.len() - 1] == x);
                if whole.contains(y) && y != x {
                    let k = choose|k: int| 0 <= k < whole.len() && whole[k] == y;
                    assert(front.filter(f)[k] == y);
                }
            }
            if s.no_duplicates() {
                assert(front.no_duplicates());
                assert(!front.contains(x)) by {
                    if front.contains(x) {
                        let k = choose|k: int| 0 <= k < front.len() && front[k] == x;
                        assert(s[k] == s[s.len() - 1]);
                    }
                }
                assert(!front.filter(f).contains(x));
                assert forall|i: int, j: int|
                    0 <= i < whole.len() && 0 <= j < whole.len() && i != j implies whole[i]
                    != whole[j] by {
                    if i == whole.len() - 1 {
                        assert(front.filter(f).contains(front.filter(f)[j]));
                    } else if j == whole.len() - 1 {
                        assert(front.filter(f).contains(front.filter(f)[i]));
                    }
                }
            }
        } else {
            if s.no_duplicates() {
                assert(front.no_duplicates());
            }
        }
    }
}

/// Filtering what is left of a filter is filtering by the second alone, if that
/// passes nothing that the first stops.
pub proof fn lemma_filter_twice<T>(s: Seq<T>, f: spec_fn(T) -> bool, g: spec_fn(T) -> bool)
    requires
        forall|x: T| #[trigger] g(x) ==> f(x),
    ensures
        s.filter(f).filter(g) == s.filter(g),
    decreases s.len(),
{
    reveal(Seq::filter);
    if s.len() > 0 {
        let front = s.drop_last();
        let x = s.last();
        lemma_filter_twice(front, f, g);
        if f(x) {
            let passed = front.filter(f).push(x);
            assert(passed.drop_last() =~= front.filter(f));
            assert(passed.last() == x);
        }
    } else {
        assert(s.filter(f) =~= Seq::<T>::empty());
        assert(s.filter(g) =~= Seq::<T>::empty());
    }
}

/// Two filters that agree on every entry let the same entries pass.
pub proof fn lemma_filter_alike<T>(s: Seq<T>, f: spec_fn(T) -> bool, g: spec_fn(T) -> bool)
    requires
        forall|i: int| 0 <= i < s.len() ==> f(#[trigger] s[i]) == g(s[i]),
    ensures
        s.filter(f) == s.filter(g),
    decreases s.len(),
{
    reveal(Seq::filter);
    if s.len() > 0 {
        let front = s.drop_last();
        assert forall|i: int| 0 <= i < front.len() implies f(#[trigger] front[i]) == g(
            front[i],
        ) by {
            assert(front[i] == s[i]);
        }
        lemma_filter_alike(front, f, g);
        assert(s[s.len() - 1] == s.last());
    }
}

/// Nothing comes out of an empty sequence.
pub proof fn lemma_filter_empty<T>(f: spec_fn(T) -> bool)
    ensures
        Seq::<T>::empty().filter(f) == Seq::<T>::empty(),
{
    reveal(Seq::filter);
}

/// Appending nothing changes nothing.
pub proof fn lemma_add_empty<T>()
    ensures
        forall|s: Seq<T>| #[trigger] (s + Seq::<T>::empty()) == s,
{
    assert forall|s: Seq<T>| #[trigger] (s + Seq::<T>::empty()) == s by {
        assert(s + Seq::<T>::empty() =~= s);
    }
}

/// The first answer that `f` has for an element.
pub open spec fn first_some<T, E>(s: Seq<T>, f: spec_fn(T) -> Option<E>) -> Option<E>
    decreases s.len(),
{
    if s.len() == 0 {
        None
    } else {
        match first_some(s.drop_last(), f) {
            Some(e) => Some(e),
            None => f(s.last()),
        }
    }
}

/// Looking at one element more only matters where there was no answer yet.
pub proof fn lemma_first_some_take<T, E>(s: Seq<T>, f: spec_fn(T) -> Option<E>, i: int)
    requires
        0 <= i < s.len(),
    ensures
        first_some(s.take(i + 1), f) == match first_some(s.take(i), f) {
            Some(e) => Some(e),
            None => f(s[i]),
        },
{
    assert(s.take(i + 1).drop_last() =~= s.take(i));
    assert(s.take(i + 1).last() == s[i]);
}

/// An answer for the first elements is the answer for all of them.
pub proof fn lemma_first_some_prefix<T, E>(s: Seq<T>, f: spec_fn(T) -> Option<E>, i: int)
    requires
        0 <= i <= s.len(),
        first_some(s.take(i), f) is Some,
    ensures
        first_some(s, f) == first_some(s.take(i), f),
    decreases s.len() - i,
{
    if i < s.len() {
        lemma_first_some_take(s, f, i);
        lemma_first_some_prefix(s, f, i + 1);
    } else {
        assert(s.take(i) =~= s);
    }
}

/// There is no answer where none of the elements has one; an answer comes from
/// an element.
pub proof fn lemma_first_some_facts<T, E>(s: Seq<T>, f: spec_fn(T) -> Option<E>)
    ensures
        first_some(s, f) is None <==> forall|k: int| 0 <= k < s.len() ==> f(#[trigger] s[k]) is None,
        first_some(s, f) matches Some(e) ==> exists|k: int|
            0 <= k < s.len() && f(#[trigger] s[k]) == Some(e),
    decreases s.len(),
{
    if s.len() > 0 {
        let front = s.drop_last();
        lemma_first_some_facts(front, f);
        assert(s.last() == s[s.len() - 1]);
        assert(forall|k: int| 0 <= k < front.len() ==> #[trigger] front[k] == s[k]);
        match first_some(front, f) {
            Some(e) => {
                let k = choose|k: int| 0 <= k < front.len() && f(#[trigger] front[k]) == Some(e);
                assert(f(s[k]) == Some(e));
            },
            None => {
                assert forall|k: int| 0 <= k < front.len() implies f(#[trigger] s[k]) is None by {
                    assert(f(front[k]) is None);
                }
            },
        }
    }
}

} // verus!
