//! Paths of child indices ("crumbs") and their lexicographic order.

use vstd::prelude::*;

verus! {

/// `a` and `b` agree before index `k`, and at `k` either `a` has ended while `b`
/// goes on, or both go on and `a` holds the smaller index.
pub open spec fn lt_at(a: Seq<usize>, b: Seq<usize>, k: int) -> bool {
    &&& 0 <= k <= a.len()
    &&& k < b.len()
    &&& forall|j: int| 0 <= j < k ==> a[j] == b[j]
    &&& (k == a.len() || a[k] < b[k])
}

/// Strict lexicographic order on paths.
pub open spec fn lex_lt(a: Seq<usize>, b: Seq<usize>) -> bool {
    exists|k: int| lt_at(a, b, k)
}

/// `p` is a proper prefix of `q`.
pub open spec fn is_proper_prefix(p: Seq<usize>, q: Seq<usize>) -> bool {
    p.len() < q.len() && q.take(p.len() as int) == p
}

/// Every path in `s` comes strictly before the paths after it.
pub open spec fn strictly_increasing(s: Seq<Seq<usize>>) -> bool {
    forall|i: int, j: int| 0 <= i < j < s.len() ==> lex_lt(#[trigger] s[i], #[trigger] s[j])
}

/// No path comes before itself, nor both before and after another.
pub proof fn lemma_lex_asymmetric(a: Seq<usize>, b: Seq<usize>)
    ensures
        !(lex_lt(a, b) && lex_lt(b, a)),
{
    if lex_lt(a, b) && lex_lt(b, a) {
        let k = choose|k: int| lt_at(a, b, k);
        let m = choose|m: int| lt_at(b, a, m);
        if k < m {
            assert(a[k] == b[k]);
        } else if m < k {
            assert(a[m] == b[m]);
        }
    }
}

/// The order is transitive.
pub proof fn lemma_lex_transitive(a: Seq<usize>, b: Seq<usize>, c: Seq<usize>)
    requires
        lex_lt(a, b),
        lex_lt(b, c),
    ensures
        lex_lt(a, c),
{
    let k = choose|k: int| lt_at(a, b, k);
    let m = choose|m: int| lt_at(b, c, m);
    if k < m {
        assert(b[k] == c[k]);
        assert(lt_at(a, c, k));
    } else if m < k {
        assert(a[m] == b[m]);
        assert(lt_at(a, c, m));
    } else {
        assert(lt_at(a, c, k));
    }
}

proof fn lemma_lex_total_from(a: Seq<usize>, b: Seq<usize>, i: int)
    requires
        0 <= i <= a.len(),
        i <= b.len(),
        forall|j: int| 0 <= j < i ==> a[j] == b[j],
        a != b,
    ensures
        lex_lt(a, b) || lex_lt(b, a),
    decreases a.len() - i,
{
    if i == a.len() {
        if i == b.len() {
            assert(a =~= b);
        } else {
            assert(lt_at(a, b, i));
        }
    } else if i == b.len() {
        assert(lt_at(b, a, i));
    } else if a[i] < b[i] {
        assert(lt_at(a, b, i));
    } else if b[i] < a[i] {
        assert(lt_at(b, a, i));
    } else {
        lemma_lex_total_from(a, b, i + 1);
    }
}

/// Any two distinct paths are ordered one way or the other.
pub proof fn lemma_lex_total(a: Seq<usize>, b: Seq<usize>)
    requires
        a != b,
    ensures
        lex_lt(a, b) || lex_lt(b, a),
{
    lemma_lex_total_from(a, b, 0);
}

/// Two strictly increasing sequences that hold the same paths are the same
/// sequence.
pub proof fn lemma_sorted_unique(a: Seq<Seq<usize>>, b: Seq<Seq<usize>>)
    requires
        strictly_increasing(a),
        strictly_increasing(b),
        forall|p: Seq<usize>| a.contains(p) <==> b.contains(p),
    ensures
        a == b,
    decreases a.len(),
{
    if a.len() == 0 {
        if b.len() > 0 {
            assert(b.contains(b[0]));
        }
        assert(a =~= b);
    } else if b.len() == 0 {
        assert(a.contains(a[0]));
    } else {
        assert(a.contains(a[0]));
        assert(b.contains(b[0]));
        if a[0] != b[0] {
            let i = choose|i: int| 0 <= i < a.len() && a[i] == b[0];
            let j = choose|j: int| 0 <= j < b.len() && b[j] == a[0];
            assert(lex_lt(a[0], a[i]));
            assert(lex_lt(b[0], b[j]));
            lemma_lex_asymmetric(a[0], b[0]);
        }
        let a1 = a.drop_first();
        let b1 = b.drop_first();
        assert forall|p: Seq<usize>| a1.contains(p) implies b1.contains(p) by {
            let i = choose|i: int| 0 <= i < a1.len() && a1[i] == p;
            assert(lex_lt(a[0], a[i + 1]));
            assert(b.contains(p));
            let j = choose|j: int| 0 <= j < b.len() && b[j] == p;
            if j == 0 {
                lemma_lex_asymmetric(p, p);
            }
            assert(b1[j - 1] == p);
        }
        assert forall|p: Seq<usize>| b1.contains(p) implies a1.contains(p) by {
            let j = choose|j: int| 0 <= j < b1.len() && b1[j] == p;
            assert(lex_lt(b[0], b[j + 1]));
            assert(a.contains(p));
            let i = choose|i: int| 0 <= i < a.len() && a[i] == p;
            if i == 0 {
                lemma_lex_asymmetric(p, p);
            }
            assert(a1[i - 1] == p);
        }
        assert forall|i: int, j: int| 0 <= i < j < a1.len() implies lex_lt(
            #[trigger] a1[i],
            #[trigger] a1[j],
        ) by {
            assert(lex_lt(a[i + 1], a[j + 1]));
        }
        assert forall|i: int, j: int| 0 <= i < j < b1.len() implies lex_lt(
            #[trigger] b1[i],
            #[trigger] b1[j],
        ) by {
            assert(lex_lt(b[i + 1], b[j + 1]));
        }
        lemma_sorted_unique(a1, b1);
        assert(a =~= b1.insert(0, b[0]));
        assert(b =~= b1.insert(0, b[0]));
    }
}

/// A strictly increasing sequence of paths holds no path twice.
pub proof fn lemma_increasing_no_duplicates(s: Seq<Seq<usize>>)
    requires
        strictly_increasing(s),
    ensures
        s.no_duplicates(),
{
    assert forall|i: int, j: int| 0 <= i < s.len() && 0 <= j < s.len() && i != j implies s[i]
        != s[j] by {
        if i < j {
            assert(lex_lt(s[i], s[j]));
        } else {
            assert(lex_lt(s[j], s[i]));
        }
        lemma_lex_asymmetric(s[i], s[j]);
    }
}

} // verus!
