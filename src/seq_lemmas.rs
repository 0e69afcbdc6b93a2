use vstd::prelude::*;

verus! {

/// The first `Some` that `f` gives along `s`, or `None` when it gives `None` everywhere.
pub open spec fn first_some<A, B>(s: Seq<A>, f: spec_fn(A) -> Option<B>) -> Option<B>
    decreases s.len(),
{
    if s.len() == 0 {
        None
    } else {
        match first_some(s.drop_last(), f) {
            Some(b) => Some(b),
            None => f(s.last()),
        }
    }
}

/// `first_some` is `None` exactly when `f` is `None` at every element.
pub proof fn lemma_first_some_none<A, B>(s: Seq<A>, f: spec_fn(A) -> Option<B>)
    ensures
        first_some(s, f) is None <==> forall|k: int| 0 <= k < s.len() ==> (#[trigger] f(s[k])) is None,
    decreases s.len(),
{
    if s.len() > 0 {
        lemma_first_some_none(s.drop_last(), f);
        if first_some(s, f) is None {
            assert forall|k: int| 0 <= k < s.len() implies (#[trigger] f(s[k])) is None by {
                if k < s.len() - 1 {
                    assert(s.drop_last()[k] == s[k]);
                }
            }
        } else {
            if first_some(s.drop_last(), f) is None {
                assert(f(s[s.len() - 1]) is Some);
            } else {
                let k = choose|k: int| 0 <= k < s.len() - 1 && (#[trigger] f(s.drop_last()[k])) is Some;
                assert(s.drop_last()[k] == s[k]);
            }
        }
    }
}

/// Where `f` is `None` before index `i` and `Some` at `i`, that is the first `Some`.
pub proof fn lemma_first_some_at<A, B>(s: Seq<A>, f: spec_fn(A) -> Option<B>, i: int)
    requires
        0 <= i < s.len(),
        forall|k: int| 0 <= k < i ==> (#[trigger] f(s[k])) is None,
        f(s[i]) is Some,
    ensures
        first_some(s, f) == f(s[i]),
    decreases s.len(),
{
    if i < s.len() - 1 {
        let t = s.drop_last();
        assert forall|k: int| 0 <= k < i implies (#[trigger] f(t[k])) is None by {
            assert(t[k] == s[k]);
        }
        assert(t[i] == s[i]);
        lemma_first_some_at(t, f, i);
    } else {
        let t = s.drop_last();
        assert forall|k: int| 0 <= k < t.len() implies (#[trigger] f(t[k])) is None by {
            assert(t[k] == s[k]);
        }
        lemma_first_some_none(t, f);
    }
}

/// Along a concatenation, the first `Some` of the left part wins, else that of the right.
pub proof fn lemma_first_some_concat<A, B>(a: Seq<A>, b: Seq<A>, f: spec_fn(A) -> Option<B>)
    ensures
        first_some(a + b, f) == (match first_some(a, f) {
            Some(x) => Some(x),
            None => first_some(b, f),
        }),
    decreases b.len(),
{
    if b.len() == 0 {
        assert(a + b =~= a);
    } else {
        assert((a + b).drop_last() =~= a + b.drop_last());
        lemma_first_some_concat(a, b.drop_last(), f);
    }
}

/// The first `Some` is what `f` gives at some element.
pub proof fn lemma_first_some_found<A, B>(s: Seq<A>, f: spec_fn(A) -> Option<B>)
    ensures
        first_some(s, f) matches Some(b) ==> exists|k: int| 0 <= k < s.len() && #[trigger] f(s[k]) == Some(b),
    decreases s.len(),
{
    if s.len() > 0 {
        lemma_first_some_found(s.drop_last(), f);
        if first_some(s.drop_last(), f) is Some {
            let b = first_some(s.drop_last(), f)->Some_0;
            let k = choose|k: int| 0 <= k < s.len() - 1 && #[trigger] f(s.drop_last()[k]) == Some(b);
            assert(s.drop_last()[k] == s[k]);
        } else if first_some(s, f) is Some {
            assert(f(s[s.len() - 1]) == first_some(s, f));
        }
    }
}

/// Two lists, each strictly increasing under an asymmetric relation, that hold
/// the same elements are equal.
pub proof fn lemma_sorted_unique<A>(l1: Seq<A>, l2: Seq<A>, lt: spec_fn(A, A) -> bool)
    requires
        forall|x: A, y: A| #[trigger] lt(x, y) ==> !lt(y, x),
        forall|a: int, b: int| 0 <= a < b < l1.len() ==> #[trigger] lt(l1[a], l1[b]),
        forall|a: int, b: int| 0 <= a < b < l2.len() ==> #[trigger] lt(l2[a], l2[b]),
        forall|k: int| 0 <= k < l1.len() ==> l2.contains(#[trigger] l1[k]),
        forall|k: int| 0 <= k < l2.len() ==> l1.contains(#[trigger] l2[k]),
    ensures
        l1 == l2,
    decreases l1.len(),
{
    if l1.len() == 0 {
        if l2.len() > 0 {
            assert(l1.contains(l2[0]));
        }
        assert(l1 =~= l2);
    } else {
        assert(l2.contains(l1[0]));
        let j = choose|j: int| 0 <= j < l2.len() && l2[j] == l1[0];
        assert(l1.contains(l2[0]));
        let j2 = choose|j2: int| 0 <= j2 < l1.len() && l1[j2] == l2[0];
        if j > 0 {
            assert(lt(l2[0], l2[j]));
            if j2 > 0 {
                assert(lt(l1[0], l1[j2]));
            }
        }
        assert(l1[0] == l2[0]);
        let t1 = l1.drop_first();
        let t2 = l2.drop_first();
        assert forall|a: int, b: int| 0 <= a < b < t1.len() implies #[trigger] lt(t1[a], t1[b]) by {
            assert(lt(l1[a + 1], l1[b + 1]));
        }
        assert forall|a: int, b: int| 0 <= a < b < t2.len() implies #[trigger] lt(t2[a], t2[b]) by {
            assert(lt(l2[a + 1], l2[b + 1]));
        }
        assert forall|k: int| 0 <= k < t1.len() implies t2.contains(#[trigger] t1[k]) by {
            assert(l2.contains(l1[k + 1]));
            let m = choose|m: int| 0 <= m < l2.len() && l2[m] == l1[k + 1];
            assert(lt(l1[0], l1[k + 1]));
            if m == 0 {
                assert(lt(l1[k + 1], l1[k + 1]));
            }
            assert(t2[m - 1] == t1[k]);
        }
        assert forall|k: int| 0 <= k < t2.len() implies t1.contains(#[trigger] t2[k]) by {
            assert(l1.contains(l2[k + 1]));
            let m = choose|m: int| 0 <= m < l1.len() && l1[m] == l2[k + 1];
            assert(lt(l2[0], l2[k + 1]));
            if m == 0 {
                assert(lt(l2[k + 1], l2[k + 1]));
            }
            assert(t1[m - 1] == t2[k]);
        }
        lemma_sorted_unique(t1, t2, lt);
        assert(l1 =~= l2) by {
            assert forall|k: int| 0 <= k < l1.len() implies l1[k] == l2[k] by {
                if k > 0 {
                    assert(l1[k] == t1[k - 1]);
                    assert(l2[k] == t2[k - 1]);
                }
            }
        }
    }
}

} // verus!
