//! Facts about filtering and counting over sequences, used by the
//! propagation and collapse proofs.

use vstd::prelude::*;

verus! {

/// How many entries of `s` satisfy `pred`.
pub open spec fn count_if<A>(s: Seq<A>, pred: spec_fn(A) -> bool) -> int
    decreases s.len(),
{
    if s.len() == 0 {
        0
    } else {
        count_if(s.drop_last(), pred) + if pred(s.last()) {
            1int
        } else {
            0int
        }
    }
}

/// The count lies between zero and the length.
pub proof fn lemma_count_if_bounds<A>(s: Seq<A>, pred: spec_fn(A) -> bool)
    ensures
        0 <= count_if(s, pred) <= s.len(),
    decreases s.len(),
{
    if s.len() > 0 {
        lemma_count_if_bounds(s.drop_last(), pred);
    }
}

/// Updating one entry moves the count by the difference of the two
/// entries' verdicts.
pub proof fn lemma_count_if_update<A>(s: Seq<A>, pred: spec_fn(A) -> bool, i: int, v: A)
    requires
        0 <= i < s.len(),
    ensures
        count_if(s.update(i, v), pred) == count_if(s, pred) - (if pred(s[i]) {
            1int
        } else {
            0int
        }) + (if pred(v) {
            1int
        } else {
            0int
        }),
    decreases s.len(),
{
    let t = s.update(i, v);
    if i == s.len() - 1 {
        assert(t.drop_last() =~= s.drop_last());
    } else {
        assert(t.drop_last() =~= s.drop_last().update(i, v));
        lemma_count_if_update(s.drop_last(), pred, i, v);
    }
}

/// Every entry of a filtered sequence occurs in the original.
pub proof fn lemma_filter_in_original<A>(s: Seq<A>, pred: spec_fn(A) -> bool)
    ensures
        forall|i: int|
            0 <= i < s.filter(pred).len() ==> s.contains(#[trigger] s.filter(pred)[i]),
    decreases s.len(),
{
    reveal(Seq::filter);
    if s.len() > 0 {
        lemma_filter_in_original(s.drop_last(), pred);
        assert forall|i: int|
            0 <= i < s.filter(pred).len() implies s.contains(#[trigger] s.filter(pred)[i]) by {
            let f = s.filter(pred);
            let g = s.drop_last().filter(pred);
            if pred(s.last()) {
                if i < f.len() - 1 {
                    assert(f[i] == g[i]);
                    assert(s.drop_last().contains(g[i]));
                    let j = choose|j: int|
                        0 <= j < s.drop_last().len() && s.drop_last()[j] == g[i];
                    assert(s[j] == g[i]);
                } else {
                    assert(f[i] == s.last());
                    assert(s[s.len() - 1] == s.last());
                }
            } else {
                assert(f[i] == g[i]);
                assert(s.drop_last().contains(g[i]));
                let j = choose|j: int| 0 <= j < s.drop_last().len() && s.drop_last()[j] == g[i];
                assert(s[j] == g[i]);
            }
        }
    }
}

/// A filter that keeps every entry returns the sequence unchanged.
pub proof fn lemma_filter_all_pass<A>(s: Seq<A>, pred: spec_fn(A) -> bool)
    requires
        forall|i: int| 0 <= i < s.len() ==> pred(#[trigger] s[i]),
    ensures
        s.filter(pred) == s,
    decreases s.len(),
{
    reveal(Seq::filter);
    if s.len() > 0 {
        lemma_filter_all_pass(s.drop_last(), pred);
        assert(pred(s.last()));
        assert(s.filter(pred) =~= s);
    } else {
        assert(s.filter(pred) =~= s);
    }
}

/// A filter that loses no length keeps the sequence unchanged.
pub proof fn lemma_filter_same_len_same_seq<A>(s: Seq<A>, pred: spec_fn(A) -> bool)
    requires
        s.filter(pred).len() == s.len(),
    ensures
        s.filter(pred) == s,
    decreases s.len(),
{
    reveal(Seq::filter);
    if s.len() > 0 {
        s.drop_last().lemma_filter_len(pred);
        if pred(s.last()) {
            lemma_filter_same_len_same_seq(s.drop_last(), pred);
            assert(s.filter(pred) =~= s);
        } else {
            assert(s.filter(pred).len() <= s.len() - 1);
        }
    } else {
        assert(s.filter(pred) =~= s);
    }
}

/// A filtered sequence holds an entry exactly when the original holds it
/// and it passes.
pub proof fn lemma_filter_contains_iff<A>(s: Seq<A>, pred: spec_fn(A) -> bool, t: A)
    ensures
        s.filter(pred).contains(t) == (s.contains(t) && pred(t)),
{
    if s.filter(pred).contains(t) {
        let i = choose|i: int| 0 <= i < s.filter(pred).len() && s.filter(pred)[i] == t;
        s.lemma_filter_pred(pred, i);
        lemma_filter_in_original(s, pred);
        assert(s.contains(s.filter(pred)[i]));
    }
    if s.contains(t) && pred(t) {
        let i = choose|i: int| 0 <= i < s.len() && s[i] == t;
        s.lemma_filter_contains(pred, i);
    }
}

/// Filtering after appending one entry appends it exactly when it passes.
pub proof fn lemma_filter_of_push<A>(s: Seq<A>, x: A, pred: spec_fn(A) -> bool)
    ensures
        pred(x) ==> s.push(x).filter(pred) == s.filter(pred).push(x),
        !pred(x) ==> s.push(x).filter(pred) == s.filter(pred),
{
    reveal(Seq::filter);
    assert(s.push(x).drop_last() =~= s);
    assert(s.push(x).last() == x);
}

/// A filter that keeps no entry returns the empty sequence.
pub proof fn lemma_filter_all_fail<A>(s: Seq<A>, pred: spec_fn(A) -> bool)
    requires
        forall|i: int| 0 <= i < s.len() ==> !pred(#[trigger] s[i]),
    ensures
        s.filter(pred) == Seq::<A>::empty(),
    decreases s.len(),
{
    reveal(Seq::filter);
    if s.len() > 0 {
        lemma_filter_all_fail(s.drop_last(), pred);
        assert(s.filter(pred) =~= Seq::<A>::empty());
    } else {
        assert(s.filter(pred) =~= Seq::<A>::empty());
    }
}

/// The entries of `s` that the list `kept` still holds, in their order
/// in `s`.
pub open spec fn retained<A>(s: Seq<A>, kept: Seq<A>) -> Seq<A> {
    s.filter(|t: A| kept.contains(t))
}

/// A list that holds every entry of `s` retains all of `s`.
pub proof fn lemma_retained_all<A>(s: Seq<A>, kept: Seq<A>)
    requires
        forall|i: int| 0 <= i < s.len() ==> kept.contains(#[trigger] s[i]),
    ensures
        retained(s, kept) == s,
{
    lemma_filter_all_pass(s, |t: A| kept.contains(t));
}

/// Two lists holding the same entries of `s` retain the same sublist.
pub proof fn lemma_retained_agree<A>(s: Seq<A>, kept1: Seq<A>, kept2: Seq<A>)
    requires
        forall|i: int| 0 <= i < s.len() ==> kept1.contains(#[trigger] s[i]) == kept2.contains(s[i]),
    ensures
        retained(s, kept1) == retained(s, kept2),
    decreases s.len(),
{
    reveal(Seq::filter);
    if s.len() > 0 {
        lemma_retained_agree(s.drop_last(), kept1, kept2);
        assert(s.drop_last().filter(|t: A| kept1.contains(t)) == s.drop_last().filter(
            |t: A| kept2.contains(t),
        ));
    }
}

/// Filtering a list that is retained from `orig` yields a list that is
/// again retained from `orig`: narrowing by any rule keeps the result a
/// membership filter of the original.
pub proof fn lemma_retained_chain<A>(orig: Seq<A>, cur: Seq<A>, pred: spec_fn(A) -> bool)
    requires
        cur == retained(orig, cur),
    ensures
        cur.filter(pred) == retained(orig, cur.filter(pred)),
    decreases orig.len(),
{
    reveal(Seq::filter);
    let fresh = cur.filter(pred);
    if orig.len() == 0 {
        assert(retained(orig, cur) =~= Seq::<A>::empty());
        assert(cur.len() == 0);
        assert(cur.filter(pred) =~= Seq::<A>::empty());
        assert(retained(orig, fresh) =~= Seq::<A>::empty());
    } else {
        let d = orig.drop_last();
        let x = orig.last();
        if cur.contains(x) {
            // the retained form splits off its last entry, x itself
            assert(cur == retained(d, cur).push(x));
            let cur_d = retained(d, cur);
            assert(cur == cur_d.push(x));
            assert forall|i: int| 0 <= i < d.len() implies cur.contains(#[trigger] d[i])
                == cur_d.contains(d[i]) by {
                if d[i] == x {
                    lemma_filter_contains_iff(d, |t: A| cur.contains(t), x);
                } else {
                    if cur.contains(d[i]) {
                        let j = choose|j: int| 0 <= j < cur.len() && cur[j] == d[i];
                        assert(cur[j] == cur_d.push(x)[j]);
                        assert(cur_d.contains(d[i]));
                    }
                    if cur_d.contains(d[i]) {
                        let j = choose|j: int| 0 <= j < cur_d.len() && cur_d[j] == d[i];
                        assert(cur[j] == d[i]);
                    }
                }
            }
            lemma_retained_agree(d, cur, cur_d);
            assert(cur_d == retained(d, cur_d));
            lemma_retained_chain(d, cur_d, pred);
            let nd = cur_d.filter(pred);
            lemma_filter_of_push(cur_d, x, pred);
            if pred(x) {
                assert(fresh == nd.push(x));
                assert(fresh.contains(x)) by {
                    assert(fresh[fresh.len() - 1] == x);
                }
                assert(retained(orig, fresh) == retained(d, fresh).push(x));
                assert forall|i: int| 0 <= i < d.len() implies fresh.contains(#[trigger] d[i])
                    == nd.contains(d[i]) by {
                    if d[i] == x {
                        assert(cur_d.contains(x)) by {
                            lemma_filter_contains_iff(d, |t: A| cur.contains(t), x);
                        }
                        lemma_filter_contains_iff(cur_d, pred, x);
                        assert(nd.contains(x));
                    } else {
                        if fresh.contains(d[i]) {
                            let j = choose|j: int| 0 <= j < fresh.len() && fresh[j] == d[i];
                            assert(nd.push(x)[j] == d[i]);
                            assert(nd.contains(d[i]));
                        }
                        if nd.contains(d[i]) {
                            let j = choose|j: int| 0 <= j < nd.len() && nd[j] == d[i];
                            assert(fresh[j] == d[i]);
                        }
                    }
                }
                lemma_retained_agree(d, fresh, nd);
                assert(retained(d, fresh) == nd);
            } else {
                assert(fresh == nd);
                assert(!fresh.contains(x)) by {
                    if fresh.contains(x) {
                        lemma_filter_contains_iff(cur_d, pred, x);
                    }
                }
                assert(retained(orig, fresh) == retained(d, fresh));
                lemma_retained_agree(d, fresh, nd);
            }
        } else {
            assert(cur == retained(d, cur));
            lemma_retained_chain(d, cur, pred);
            assert(!fresh.contains(x)) by {
                if fresh.contains(x) {
                    lemma_filter_contains_iff(cur, pred, x);
                }
            }
            assert(retained(orig, fresh) == retained(d, fresh));
        }
    }
}

/// A filter that agrees pointwise with membership in `m` is the list
/// retained by `m`.
pub proof fn lemma_retained_as_filter<A>(s: Seq<A>, m: Seq<A>, pred: spec_fn(A) -> bool)
    requires
        forall|i: int| 0 <= i < s.len() ==> pred(#[trigger] s[i]) == m.contains(s[i]),
    ensures
        s.filter(pred) == retained(s, m),
    decreases s.len(),
{
    reveal(Seq::filter);
    if s.len() > 0 {
        lemma_retained_as_filter(s.drop_last(), m, pred);
    }
}

/// Retaining is transitive: a list retained from `cur`, itself retained
/// from `orig`, is retained from `orig`.
pub proof fn lemma_retained_chain_kept<A>(orig: Seq<A>, cur: Seq<A>, fresh: Seq<A>)
    requires
        cur == retained(orig, cur),
        fresh == retained(cur, fresh),
    ensures
        fresh == retained(orig, fresh),
{
    let pred = |t: A| fresh.contains(t);
    lemma_retained_as_filter(cur, fresh, pred);
    assert(cur.filter(pred) == fresh);
    lemma_retained_chain(orig, cur, pred);
}

/// One step of filtering from the front: extending the prefix by one entry
/// extends the filtered prefix exactly when the entry passes.
pub proof fn lemma_filter_step<A>(s: Seq<A>, pred: spec_fn(A) -> bool, i: int)
    requires
        0 <= i < s.len(),
    ensures
        pred(s[i]) ==> s.subrange(0, i + 1).filter(pred) == s.subrange(0, i).filter(pred).push(
            s[i],
        ),
        !pred(s[i]) ==> s.subrange(0, i + 1).filter(pred) == s.subrange(0, i).filter(pred),
{
    reveal(Seq::filter);
    let t = s.subrange(0, i + 1);
    assert(t.drop_last() =~= s.subrange(0, i));
    assert(t.last() == s[i]);
}

} // verus!
