//! Facts about sequences that the tables of this crate rest on.

use vstd::prelude::*;

verus! {

/// The position of the first item of `s` that meets `pred`, or `s.len()`
/// when none does.
pub open spec fn first_where<A>(s: Seq<A>, pred: spec_fn(A) -> bool) -> int
    decreases s.len(),
{
    if s.len() == 0 || pred(s[0]) {
        0
    } else {
        1 + first_where(s.drop_first(), pred)
    }
}

/// The first position stands inside the sequence or at its end, no item
/// before it meets the predicate, and the item at it does where it stands
/// inside.
pub proof fn lemma_first_where<A>(s: Seq<A>, pred: spec_fn(A) -> bool)
    ensures
        0 <= first_where(s, pred) <= s.len(),
        forall|j: int| 0 <= j < first_where(s, pred) ==> !pred(#[trigger] s[j]),
        first_where(s, pred) < s.len() ==> pred(s[first_where(s, pred)]),
    decreases s.len(),
{
    if s.len() == 0 || pred(s[0]) {
    } else {
        let t = s.drop_first();
        lemma_first_where(t, pred);
        assert forall|j: int| 0 <= j < first_where(s, pred) implies !pred(#[trigger] s[j]) by {
            if j > 0 {
                assert(s[j] == t[j - 1]);
            }
        }
        if first_where(s, pred) < s.len() {
            assert(s[first_where(s, pred)] == t[first_where(t, pred)]);
        }
    }
}

/// A position that has no item meeting `pred` before it and either ends
/// `s` or holds such an item is the first such position.
pub proof fn lemma_first_where_is<A>(s: Seq<A>, pred: spec_fn(A) -> bool, i: int)
    requires
        0 <= i <= s.len(),
        forall|j: int| 0 <= j < i ==> !pred(#[trigger] s[j]),
        i < s.len() ==> pred(s[i]),
    ensures
        first_where(s, pred) == i,
{
    lemma_first_where(s, pred);
}

/// A filtered sequence holds exactly the items of the sequence that meet
/// the predicate.
pub proof fn lemma_filter_holds<A>(s: Seq<A>, pred: spec_fn(A) -> bool, x: A)
    ensures
        s.filter(pred).contains(x) <==> s.contains(x) && pred(x),
    decreases s.len(),
{
    reveal(Seq::filter);
    if s.len() == 0 {
    } else {
        let rest = s.drop_last();
        lemma_filter_holds(rest, pred, x);
        let f = rest.filter(pred);
        if s.contains(x) && pred(x) {
            let i = choose|i: int| 0 <= i < s.len() && s[i] == x;
            if i == s.len() - 1 {
                assert(s.filter(pred).last() == x);
            } else {
                assert(rest[i] == x);
                let j = choose|j: int| 0 <= j < f.len() && f[j] == x;
                assert(s.filter(pred)[j] == x);
            }
        }
        if s.filter(pred).contains(x) {
            let j = choose|j: int| 0 <= j < s.filter(pred).len() && s.filter(pred)[j] == x;
            if j < f.len() {
                assert(f[j] == x);
                let i = choose|i: int| 0 <= i < rest.len() && rest[i] == x;
                assert(s[i] == x);
            } else {
                assert(s[s.len() - 1] == x);
            }
        }
    }
}

/// Filtering keeps a sequence free of duplicates.
pub proof fn lemma_filter_no_duplicates<A>(s: Seq<A>, pred: spec_fn(A) -> bool)
    requires
        s.no_duplicates(),
    ensures
        s.filter(pred).no_duplicates(),
    decreases s.len(),
{
    reveal(Seq::filter);
    if s.len() == 0 {
    } else {
        let rest = s.drop_last();
        assert(rest.no_duplicates());
        lemma_filter_no_duplicates(rest, pred);
        let f = rest.filter(pred);
        if pred(s.last()) {
            lemma_filter_holds(rest, pred, s.last());
            if rest.contains(s.last()) {
                let i = choose|i: int| 0 <= i < rest.len() && rest[i] == s.last();
                assert(s[i] == s[s.len() - 1]);
            }
            assert forall|i: int, j: int|
                0 <= i < f.push(s.last()).len() && 0 <= j < f.push(s.last()).len() && i
                    != j implies f.push(s.last())[i] != f.push(s.last())[j] by {
                if i < f.len() && j == f.len() {
                    assert(f.contains(f[i]));
                }
                if j < f.len() && i == f.len() {
                    assert(f.contains(f[j]));
                }
            }
        }
    }
}

/// No two items of `s` have the same key.
pub open spec fn distinct_by<A, K>(s: Seq<A>, key: spec_fn(A) -> K) -> bool {
    forall|i: int, j: int| 0 <= i < s.len() && 0 <= j < s.len() && i != j ==> key(s[i]) != key(s[j])
}

/// Filtering keeps the keys of a sequence distinct.
pub proof fn lemma_filter_distinct_by<A, K>(
    s: Seq<A>,
    key: spec_fn(A) -> K,
    pred: spec_fn(A) -> bool,
)
    requires
        distinct_by(s, key),
    ensures
        distinct_by(s.filter(pred), key),
    decreases s.len(),
{
    reveal(Seq::filter);
    if s.len() == 0 {
    } else {
        let rest = s.drop_last();
        assert(distinct_by(rest, key)) by {
            assert forall|i: int, j: int|
                0 <= i < rest.len() && 0 <= j < rest.len() && i != j implies key(rest[i]) != key(
                rest[j],
            ) by {
                assert(rest[i] == s[i] && rest[j] == s[j]);
            }
        }
        lemma_filter_distinct_by(rest, key, pred);
        let f = rest.filter(pred);
        if pred(s.last()) {
            let g = f.push(s.last());
            assert forall|i: int, j: int|
                0 <= i < g.len() && 0 <= j < g.len() && i != j implies key(g[i]) != key(g[j]) by {
                if i < f.len() && j == f.len() {
                    lemma_filter_holds(rest, pred, f[i]);
                    assert(f.contains(f[i]));
                    let k = choose|k: int| 0 <= k < rest.len() && rest[k] == f[i];
                    assert(s[k] == f[i]);
                    assert(key(s[k]) != key(s[s.len() - 1]));
                }
                if j < f.len() && i == f.len() {
                    lemma_filter_holds(rest, pred, f[j]);
                    assert(f.contains(f[j]));
                    let k = choose|k: int| 0 <= k < rest.len() && rest[k] == f[j];
                    assert(s[k] == f[j]);
                    assert(key(s[k]) != key(s[s.len() - 1]));
                }
            }
        }
    }
}

/// Among items with distinct keys, at most one meets a predicate that
/// speaks of the key alone, and exactly one does where some item does.
pub proof fn lemma_filter_at_most_one<A, K>(
    s: Seq<A>,
    key: spec_fn(A) -> K,
    pred: spec_fn(A) -> bool,
    k: K,
)
    requires
        distinct_by(s, key),
        forall|x: A| #[trigger] pred(x) <==> key(x) == k,
    ensures
        s.filter(pred).len() == if first_where(s, pred) < s.len() {
            1nat
        } else {
            0nat
        },
    decreases s.len(),
{
    reveal(Seq::filter);
    lemma_first_where(s, pred);
    if s.len() == 0 {
    } else {
        let rest = s.drop_last();
        assert(distinct_by(rest, key)) by {
            assert forall|i: int, j: int|
                0 <= i < rest.len() && 0 <= j < rest.len() && i != j implies key(rest[i]) != key(
                rest[j],
            ) by {
                assert(rest[i] == s[i] && rest[j] == s[j]);
            }
        }
        lemma_filter_at_most_one(rest, key, pred, k);
        lemma_first_where(rest, pred);
        let f = first_where(s, pred);
        let g = first_where(rest, pred);
        if pred(s.last()) {
            if g < rest.len() {
                assert(rest[g] == s[g]);
                assert(key(s[g]) != key(s[s.len() - 1]));
            }
            assert(f < s.len()) by {
                if f >= s.len() {
                    assert(!pred(s[s.len() - 1]));
                }
            }
        } else {
            if g < rest.len() {
                assert(pred(s[g]));
                assert(f < s.len()) by {
                    if f >= s.len() {
                        assert(!pred(s[g]));
                    }
                }
            } else {
                assert(f >= s.len()) by {
                    if f < s.len() {
                        if f < rest.len() {
                            assert(rest[f] == s[f]);
                            assert(!pred(rest[f]));
                        }
                    }
                }
            }
        }
    }
}

} // verus!
