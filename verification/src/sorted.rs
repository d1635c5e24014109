//! Lists that are strictly sorted by an asymmetric relation are determined by
//! the values they hold.
use vstd::prelude::*;

verus! {

/// Every pair of positions `i < j` of `s` is ordered by `lt`.
pub open spec fn strictly_sorted<T>(s: Seq<T>, lt: spec_fn(T, T) -> bool) -> bool {
    forall|i: int, j: int| #![trigger s[i], s[j]] 0 <= i < j < s.len() ==> lt(s[i], s[j])
}

/// `lt` never holds both ways.
pub open spec fn is_asymmetric<T>(lt: spec_fn(T, T) -> bool) -> bool {
    forall|x: T, y: T| #[trigger] lt(x, y) ==> !lt(y, x)
}

/// Two lists strictly sorted by the same asymmetric relation and holding the
/// same values are equal.
pub proof fn lemma_sorted_lists_equal<T>(s1: Seq<T>, s2: Seq<T>, lt: spec_fn(T, T) -> bool)
    requires
        strictly_sorted(s1, lt),
        strictly_sorted(s2, lt),
        is_asymmetric(lt),
        forall|x: T| s1.contains(x) <==> s2.contains(x),
    ensures
        s1 == s2,
    decreases s1.len(),
{
    if s1.len() == 0 {
        if s2.len() > 0 {
            assert(s2.contains(s2[0]));
        }
        assert(s1 =~= s2);
    } else {
        assert(s1.contains(s1[0]));
        let k = choose|k: int| 0 <= k < s2.len() && s2[k] == s1[0];
        assert(s2.contains(s2[0]));
        let k1 = choose|k1: int| 0 <= k1 < s1.len() && s1[k1] == s2[0];
        if k > 0 {
            assert(lt(s2[0], s2[k]));
            if k1 > 0 {
                assert(lt(s1[0], s1[k1]));
            }
            assert(false);
        }
        let t1 = s1.drop_first();
        let t2 = s2.drop_first();
        assert forall|i: int, j: int| #![trigger t1[i], t1[j]] 0 <= i < j < t1.len() implies lt(
            t1[i],
            t1[j],
        ) by {
            assert(t1[i] == s1[i + 1] && t1[j] == s1[j + 1]);
        }
        assert forall|i: int, j: int| #![trigger t2[i], t2[j]] 0 <= i < j < t2.len() implies lt(
            t2[i],
            t2[j],
        ) by {
            assert(t2[i] == s2[i + 1] && t2[j] == s2[j + 1]);
        }
        assert forall|x: T| t1.contains(x) <==> t2.contains(x) by {
            if t1.contains(x) {
                let i = choose|i: int| 0 <= i < t1.len() && t1[i] == x;
                assert(s1[i + 1] == x);
                assert(lt(s1[0], s1[i + 1]));
                assert(s2.contains(x));
                let j = choose|j: int| 0 <= j < s2.len() && s2[j] == x;
                if j == 0 {
                    assert(lt(s1[0], x) && x == s2[0] && s2[0] == s1[0]);
                    assert(!lt(x, s1[0]));
                    assert(false);
                }
                assert(t2[j - 1] == x);
            }
            if t2.contains(x) {
                let i = choose|i: int| 0 <= i < t2.len() && t2[i] == x;
                assert(s2[i + 1] == x);
                assert(lt(s2[0], s2[i + 1]));
                assert(s1.contains(x));
                let j = choose|j: int| 0 <= j < s1.len() && s1[j] == x;
                if j == 0 {
                    assert(lt(s2[0], x) && x == s1[0] && s2[0] == s1[0]);
                    assert(!lt(x, s2[0]));
                    assert(false);
                }
                assert(t1[j - 1] == x);
            }
        }
        lemma_sorted_lists_equal(t1, t2, lt);
        assert(s1 =~= seq![s1[0]] + t1);
        assert(s2 =~= seq![s2[0]] + t2);
    }
}

/// Filtering keeps a list strictly sorted.
pub proof fn lemma_filter_sorted<T>(s: Seq<T>, pred: spec_fn(T) -> bool, lt: spec_fn(T, T) -> bool)
    requires
        strictly_sorted(s, lt),
    ensures
        strictly_sorted(s.filter(pred), lt),
    decreases s.len(),
{
    reveal(Seq::filter);
    if s.len() > 0 {
        let d = s.drop_last();
        assert forall|i: int, j: int| #![trigger d[i], d[j]] 0 <= i < j < d.len() implies lt(
            d[i],
            d[j],
        ) by {
            assert(d[i] == s[i] && d[j] == s[j]);
        }
        lemma_filter_sorted(d, pred, lt);
        let sub = d.filter(pred);
        let out = s.filter(pred);
        if pred(s.last()) {
            assert(out == sub.push(s.last()));
            assert forall|i: int, j: int| #![trigger out[i], out[j]] 0 <= i < j < out.len() implies lt(
                out[i],
                out[j],
            ) by {
                if j < sub.len() {
                    assert(out[i] == sub[i] && out[j] == sub[j]);
                } else {
                    assert(out[i] == sub[i]);
                    assert(sub.contains(sub[i]));
                    d.lemma_filter_contains_rev(pred, sub[i]);
                    let k = choose|k: int| 0 <= k < d.len() && d[k] == sub[i];
                    assert(s[k] == sub[i]);
                    assert(out[j] == s[s.len() - 1]);
                }
            }
        } else {
            assert(out == sub);
        }
    }
}

} // verus!
