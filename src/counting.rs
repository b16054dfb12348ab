use vstd::prelude::*;

verus! {

/// Number of positions of `s` that hold `v`.
pub open spec fn count_in<T>(s: Seq<T>, v: T) -> nat
    decreases s.len(),
{
    if s.len() == 0 {
        0
    } else {
        count_in(s.drop_last(), v) + if s.last() == v {
            1nat
        } else {
            0nat
        }
    }
}

/// `s` with every element after its first occurrence removed, order kept.
pub open spec fn dedup_first<T>(s: Seq<T>) -> Seq<T>
    decreases s.len(),
{
    if s.len() == 0 {
        Seq::empty()
    } else {
        let d = dedup_first(s.drop_last());
        if d.contains(s.last()) {
            d
        } else {
            d.push(s.last())
        }
    }
}

/// Replacing one element changes the count by what left and what came in.
pub proof fn lemma_count_update<T>(s: Seq<T>, i: int, x: T, v: T)
    requires
        0 <= i < s.len(),
    ensures
        count_in(s.update(i, x), v) + (if s[i] == v {
            1int
        } else {
            0int
        }) == count_in(s, v) + (if x == v {
            1int
        } else {
            0int
        }),
    decreases s.len(),
{
    let t = s.update(i, x);
    if i == s.len() - 1 {
        assert(t.drop_last() =~= s.drop_last());
    } else {
        assert(t.drop_last() =~= s.drop_last().update(i, x));
        lemma_count_update(s.drop_last(), i, x, v);
    }
}

/// A value that occurs nowhere is counted zero times.
pub proof fn lemma_count_none<T>(s: Seq<T>, v: T)
    requires
        forall|i: int| 0 <= i < s.len() ==> s[i] != v,
    ensures
        count_in(s, v) == 0,
    decreases s.len(),
{
    if s.len() > 0 {
        lemma_count_none(s.drop_last(), v);
    }
}

/// What `dedup_first` keeps: every element once, and nothing else.
pub proof fn lemma_dedup_first<T>(s: Seq<T>)
    ensures
        dedup_first(s).no_duplicates(),
        forall|x: T| dedup_first(s).contains(x) <==> s.contains(x),
        dedup_first(s).len() <= s.len(),
    decreases s.len(),
{
    if s.len() > 0 {
        let p = s.drop_last();
        lemma_dedup_first(p);
        let d = dedup_first(p);
        assert forall|x: T| s.contains(x) <==> (p.contains(x) || x == s.last()) by {
            if s.contains(x) {
                let k = choose|k: int| 0 <= k < s.len() && s[k] == x;
                if k < s.len() - 1 {
                    assert(p[k] == x);
                }
            }
            if p.contains(x) {
                let k = choose|k: int| 0 <= k < p.len() && p[k] == x;
                assert(s[k] == x);
            }
            if x == s.last() {
                assert(s[s.len() - 1] == x);
            }
        }
        if !d.contains(s.last()) {
            let e = d.push(s.last());
            assert forall|a: int, b: int| 0 <= a < e.len() && 0 <= b < e.len() && a != b implies e[a]
                != e[b] by {
                if a < d.len() && b < d.len() {
                } else if a == d.len() {
                    assert(d[b] == e[b]);
                } else {
                    assert(d[a] == e[a]);
                }
            }
            assert forall|x: T| e.contains(x) <==> (d.contains(x) || x == s.last()) by {
                if e.contains(x) {
                    let k = choose|k: int| 0 <= k < e.len() && e[k] == x;
                    if k < d.len() {
                        assert(d[k] == x);
                    }
                }
                if d.contains(x) {
                    let k = choose|k: int| 0 <= k < d.len() && d[k] == x;
                    assert(e[k] == x);
                }
                if x == s.last() {
                    assert(e[d.len() as int] == x);
                }
            }
        }
    }
}


/// An element of the first `k + 1` elements is among the first `k` or is the `k`-th.
pub proof fn lemma_prefix_contains<T>(s: Seq<T>, k: int, x: T)
    requires
        0 <= k < s.len(),
    ensures
        s.subrange(0, k + 1).contains(x) <==> (s.subrange(0, k).contains(x) || s[k] == x),
{
    let a = s.subrange(0, k);
    let b = s.subrange(0, k + 1);
    if b.contains(x) {
        let j = choose|j: int| 0 <= j < b.len() && b[j] == x;
        if j < k {
            assert(a[j] == x);
        }
    }
    if a.contains(x) {
        let j = choose|j: int| 0 <= j < a.len() && a[j] == x;
        assert(b[j] == x);
    }
    if s[k] == x {
        assert(b[k] == x);
    }
}

} // verus!
