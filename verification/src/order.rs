use vstd::prelude::*;
use crate::text::{chars_of, same_text};

verus! {

/// `a` comes before `b` in the lexicographic order of code points: at the
/// first place where they differ `a` has the smaller character, or `a` ends
/// there and `b` does not.
pub open spec fn lex_less(a: Seq<char>, b: Seq<char>) -> bool {
    exists|k: int| differs_first_at(a, b, k)
}

/// `a` and `b` agree before `k`, and at `k` the first is smaller or over.
pub open spec fn differs_first_at(a: Seq<char>, b: Seq<char>, k: int) -> bool {
    &&& 0 <= k <= a.len()
    &&& k < b.len()
    &&& a.take(k) == b.take(k)
    &&& k < a.len() ==> a[k] < b[k]
}

/// Each string of `s` comes before the ones after it.
pub open spec fn strictly_sorted(s: Seq<Seq<char>>) -> bool {
    forall|i: int, j: int| 0 <= i < j < s.len() ==> lex_less(#[trigger] s[i], #[trigger] s[j])
}

proof fn lemma_agree_then_decide(a: Seq<char>, b: Seq<char>, k: int)
    requires
        0 <= k <= a.len(),
        k <= b.len(),
        a.take(k) == b.take(k),
    ensures
        a == b || lex_less(a, b) || lex_less(b, a),
    decreases a.len() - k,
{
    if k == a.len() && k == b.len() {
        assert(a.take(k) =~= a);
        assert(b.take(k) =~= b);
    } else if k == a.len() {
        assert(differs_first_at(a, b, k));
    } else if k == b.len() {
        assert(differs_first_at(b, a, k));
    } else if a[k] == b[k] {
        assert(a.take(k + 1) =~= a.take(k).push(a[k]));
        assert(b.take(k + 1) =~= b.take(k).push(b[k]));
        lemma_agree_then_decide(a, b, k + 1);
    } else if a[k] < b[k] {
        assert(differs_first_at(a, b, k));
    } else {
        assert(differs_first_at(b, a, k));
    }
}

/// Of two different strings one comes before the other.
pub proof fn lemma_lex_total(a: Seq<char>, b: Seq<char>)
    ensures
        a == b || lex_less(a, b) || lex_less(b, a),
{
    assert(a.take(0) =~= b.take(0));
    lemma_agree_then_decide(a, b, 0);
}

/// No string comes before itself.
pub proof fn lemma_lex_irreflexive(a: Seq<char>)
    ensures
        !lex_less(a, a),
{
}

/// The order is transitive.
pub proof fn lemma_lex_transitive(a: Seq<char>, b: Seq<char>, c: Seq<char>)
    requires
        lex_less(a, b),
        lex_less(b, c),
    ensures
        lex_less(a, c),
{
    let k1 = choose|k: int| differs_first_at(a, b, k);
    let k2 = choose|k: int| differs_first_at(b, c, k);
    let k = if k1 <= k2 {
        k1
    } else {
        k2
    };
    assert(a.take(k) =~= a.take(k1).take(k));
    assert(b.take(k) =~= b.take(k1).take(k));
    assert(b.take(k) =~= b.take(k2).take(k));
    assert(c.take(k) =~= c.take(k2).take(k));
    if k1 < k2 {
        assert(b[k1] == b.take(k2)[k1]);
        assert(c[k1] == c.take(k2)[k1]);
    } else if k2 < k1 {
        assert(a[k2] == a.take(k1)[k2]);
        assert(b[k2] == b.take(k1)[k2]);
    }
    assert(differs_first_at(a, c, k));
}

/// No two strings come before each other.
pub proof fn lemma_lex_asymmetric(a: Seq<char>, b: Seq<char>)
    requires
        lex_less(a, b),
    ensures
        !lex_less(b, a),
{
    if lex_less(b, a) {
        lemma_lex_transitive(a, b, a);
        lemma_lex_irreflexive(a);
    }
}

/// Whether `a` comes before `b` in the lexicographic order of code points.
pub fn text_less(a: &str, b: &str) -> (less: bool)
    ensures
        less == lex_less(a@, b@),
{
    let x = chars_of(a);
    let y = chars_of(b);
    let mut i: usize = 0;
    proof {
        assert(x@.take(0) =~= y@.take(0));
    }
    while i < x.len() && i < y.len()
        invariant
            x@ == a@,
            y@ == b@,
            i <= x@.len(),
            i <= y@.len(),
            x@.take(i as int) == y@.take(i as int),
        decreases x@.len() - i,
    {
        let p = x[i];
        let q = y[i];
        if p < q {
            proof {
                assert(differs_first_at(x@, y@, i as int));
            }
            return true;
        }
        if q < p {
            proof {
                assert(differs_first_at(y@, x@, i as int));
                lemma_lex_asymmetric(y@, x@);
            }
            return false;
        }
        proof {
            assert(x@.take(i + 1) =~= x@.take(i as int).push(x@[i as int]));
            assert(y@.take(i + 1) =~= y@.take(i as int).push(y@[i as int]));
        }
        i = i + 1;
    }
    if i < y.len() {
        proof {
            assert(differs_first_at(x@, y@, i as int));
        }
        true
    } else {
        proof {
            if i < x@.len() {
                assert(differs_first_at(y@, x@, i as int));
                lemma_lex_asymmetric(y@, x@);
            } else {
                assert(x@.take(i as int) =~= x@);
                assert(y@.take(i as int) =~= y@);
                lemma_lex_irreflexive(x@);
            }
        }
        false
    }
}

/// Whether `name` begins with `prefix`.
pub fn starts_with(name: &str, prefix: &str) -> (starts: bool)
    ensures
        starts == prefix@.is_prefix_of(name@),
{
    let x = chars_of(name);
    let p = chars_of(prefix);
    if p.len() > x.len() {
        return false;
    }
    let mut i: usize = 0;
    while i < p.len()
        invariant
            x@ == name@,
            p@ == prefix@,
            p@.len() <= x@.len(),
            i <= p@.len(),
            p@.take(i as int) == x@.take(i as int),
        decreases p@.len() - i,
    {
        if p[i] != x[i] {
            proof {
                assert(x@.subrange(0, p@.len() as int)[i as int] != p@[i as int]);
            }
            return false;
        }
        proof {
            assert(x@.take(i + 1) =~= x@.take(i as int).push(x@[i as int]));
            assert(p@.take(i + 1) =~= p@.take(i as int).push(p@[i as int]));
        }
        i = i + 1;
    }
    proof {
        assert(p@.take(p@.len() as int) =~= p@);
    }
    true
}

/// `out` holds the strings of `names` that begin with `prefix`, each once,
/// in lexicographic order.
pub open spec fn is_selection(names: Seq<Seq<char>>, prefix: Seq<char>, out: Seq<Seq<char>>)
    -> bool {
    &&& strictly_sorted(out)
    &&& forall|w: Seq<char>| #[trigger]
        out.contains(w) <==> names.contains(w) && prefix.is_prefix_of(w)
}

/// Strictly sorted lists with the same strings are the same list.
pub proof fn lemma_sorted_lists_equal(a: Seq<Seq<char>>, b: Seq<Seq<char>>)
    requires
        strictly_sorted(a),
        strictly_sorted(b),
        forall|w: Seq<char>| a.contains(w) <==> b.contains(w),
    ensures
        a == b,
    decreases a.len(),
{
    if a.len() == 0 {
        if b.len() > 0 {
            assert(b.contains(b[0]));
            assert(a.contains(b[0]));
        }
        assert(a =~= b);
    } else if b.len() == 0 {
        assert(a.contains(a[0]));
        assert(b.contains(a[0]));
    } else {
        let x = a.last();
        let y = b.last();
        assert(a.contains(x));
        assert(b.contains(y));
        let i = choose|i: int| 0 <= i < b.len() && b[i] == x;
        let j = choose|j: int| 0 <= j < a.len() && a[j] == y;
        lemma_lex_total(x, y);
        if lex_less(x, y) {
            if j < a.len() - 1 {
                assert(lex_less(a[j], a[a.len() - 1]));
                lemma_lex_asymmetric(x, y);
            } else {
                lemma_lex_irreflexive(x);
            }
        } else if lex_less(y, x) {
            if i < b.len() - 1 {
                assert(lex_less(b[i], b[b.len() - 1]));
                lemma_lex_asymmetric(y, x);
            } else {
                lemma_lex_irreflexive(y);
            }
        }
        assert(x == y);
        let a0 = a.drop_last();
        let b0 = b.drop_last();
        assert forall|w: Seq<char>| a0.contains(w) <==> b0.contains(w) by {
            if a0.contains(w) {
                let p = choose|p: int| 0 <= p < a0.len() && a0[p] == w;
                assert(a[p] == w);
                assert(lex_less(a[p], a[a.len() - 1]));
                assert(a.contains(w));
                let q = choose|q: int| 0 <= q < b.len() && b[q] == w;
                if q == b.len() - 1 {
                    lemma_lex_irreflexive(w);
                }
                assert(b0[q] == w);
            }
            if b0.contains(w) {
                let p = choose|p: int| 0 <= p < b0.len() && b0[p] == w;
                assert(b[p] == w);
                assert(lex_less(b[p], b[b.len() - 1]));
                assert(b.contains(w));
                let q = choose|q: int| 0 <= q < a.len() && a[q] == w;
                if q == a.len() - 1 {
                    lemma_lex_irreflexive(w);
                }
                assert(a0[q] == w);
            }
        }
        assert(strictly_sorted(a0)) by {
            assert forall|i: int, j: int| 0 <= i < j < a0.len() implies lex_less(
                #[trigger] a0[i],
                #[trigger] a0[j],
            ) by {
                assert(lex_less(a[i], a[j]));
            }
        }
        assert(strictly_sorted(b0)) by {
            assert forall|i: int, j: int| 0 <= i < j < b0.len() implies lex_less(
                #[trigger] b0[i],
                #[trigger] b0[j],
            ) by {
                assert(lex_less(b[i], b[j]));
            }
        }
        lemma_sorted_lists_equal(a0, b0);
        assert(a =~= a0.push(x));
        assert(b =~= b0.push(y));
    }
}

/// There is one selection and no other.
pub proof fn lemma_selection_unique(
    names: Seq<Seq<char>>,
    prefix: Seq<char>,
    a: Seq<Seq<char>>,
    b: Seq<Seq<char>>,
)
    requires
        is_selection(names, prefix, a),
        is_selection(names, prefix, b),
    ensures
        a == b,
{
    assert forall|w: Seq<char>| a.contains(w) <==> b.contains(w) by {
        assert(a.contains(w) <==> names.contains(w) && prefix.is_prefix_of(w));
        assert(b.contains(w) <==> names.contains(w) && prefix.is_prefix_of(w));
    }
    lemma_sorted_lists_equal(a, b);
}

/// The strings of `names` that begin with `prefix`, each once, in
/// lexicographic order.
pub fn select_matches(names: &Vec<String>, prefix: &str) -> (out: Vec<String>)
    ensures
        is_selection(names.deep_view(), prefix@, out.deep_view()),
{
    let mut out: Vec<String> = Vec::new();
    let ghost all = names.deep_view();
    let mut i: usize = 0;
    proof {
        assert(out.deep_view() =~= Seq::<Seq<char>>::empty());
        assert(all.take(0) =~= Seq::<Seq<char>>::empty());
    }
    while i < names.len()
        invariant
            all == names.deep_view(),
            i <= names@.len(),
            is_selection(all.take(i as int), prefix@, out.deep_view()),
        decreases names@.len() - i,
    {
        let name = &names[i];
        let ghost w = name@;
        let ghost seen = all.take(i as int);
        let ghost before = out.deep_view();
        proof {
            assert(all.take(i + 1) =~= seen.push(w));
            assert forall|v: Seq<char>| #[trigger]
                seen.push(w).contains(v) <==> seen.contains(v) || v == w by {
                if seen.contains(v) {
                    let p = choose|p: int| 0 <= p < seen.len() && seen[p] == v;
                    assert(seen.push(w)[p] == v);
                }
                if v == w {
                    assert(seen.push(w)[seen.len() as int] == v);
                }
            }
        }
        if starts_with(name.as_str(), prefix) {
            let mut j: usize = 0;
            while j < out.len() && text_less(out[j].as_str(), name.as_str())
                invariant
                    j <= out@.len(),
                    before == out.deep_view(),
                    w == name@,
                    forall|k: int| 0 <= k < j ==> lex_less(#[trigger] before[k], w),
                decreases out@.len() - j,
            {
                j = j + 1;
            }
            if j < out.len() && same_text(out[j].as_str(), name.as_str()) {
                proof {
                    assert(before[j as int] == w);
                }
            } else {
                out.insert(j, name.clone());
                proof {
                    let after = out.deep_view();
                    assert(after =~= before.insert(j as int, w));
                    if j < before.len() {
                        lemma_lex_total(before[j as int], w);
                    }
                    assert forall|p: int, q: int| 0 <= p < q < after.len() implies lex_less(
                        #[trigger] after[p],
                        #[trigger] after[q],
                    ) by {
                        if q < j {
                            assert(lex_less(before[p], before[q]));
                        } else if q == j {
                            assert(lex_less(before[p], w));
                        } else if p == j {
                            if q - 1 > j {
                                assert(lex_less(before[j as int], before[q - 1]));
                                lemma_lex_transitive(w, before[j as int], before[q - 1]);
                            }
                        } else if p < j {
                            assert(lex_less(before[p], before[q - 1]));
                        } else {
                            assert(lex_less(before[p - 1], before[q - 1]));
                        }
                    }
                    assert forall|v: Seq<char>| #[trigger]
                        after.contains(v) <==> before.contains(v) || v == w by {
                        if before.contains(v) {
                            let p = choose|p: int| 0 <= p < before.len() && before[p] == v;
                            if p < j {
                                assert(after[p] == v);
                            } else {
                                assert(after[p + 1] == v);
                            }
                        }
                        if v == w {
                            assert(after[j as int] == v);
                        }
                        if after.contains(v) {
                            let p = choose|p: int| 0 <= p < after.len() && after[p] == v;
                            if p < j {
                                assert(before[p] == v);
                            } else if p > j {
                                assert(before[p - 1] == v);
                            }
                        }
                    }
                }
            }
        }
        i = i + 1;
    }
    proof {
        assert(all.take(names@.len() as int) =~= all);
    }
    out
}

} // verus!
