//! The triangular feed-pair domain and the shape of legal traversals.

use vstd::prelude::*;
use vstd::arithmetic::div_mod::lemma_div_multiples_vanish;
use vstd::set_lib::{lemma_len_subset, lemma_set_disjoint_lens};
use crate::FeedPair;

verus! {

broadcast use vstd::set::group_set_axioms;

/// The pair `p` lies in the triangular domain: `0 <= x <= y < n`.
pub open spec fn in_domain(n: int, p: FeedPair) -> bool {
    p.0 <= p.1 && (p.1 as int) < n
}

/// Both coordinates of `q` are within `r` of the ones of `p`.
pub open spec fn within_radius(r: int, p: FeedPair, q: FeedPair) -> bool {
    -r <= p.0 - q.0 <= r && -r <= p.1 - q.1 <= r
}

/// `q` is a legal successor of `p`: in the domain and within the radius.
pub open spec fn valid_step(n: int, r: int, p: FeedPair, q: FeedPair) -> bool {
    in_domain(n, q) && within_radius(r, p, q)
}

/// A legal traversal prefix: every pair in the domain, no pair repeated,
/// every consecutive move within the step radius.
pub open spec fn valid_path(n: int, r: int, s: Seq<FeedPair>) -> bool {
    &&& forall|i: int| 0 <= i < s.len() ==> in_domain(n, #[trigger] s[i])
    &&& forall|i: int, j: int| 0 <= i < j < s.len() ==> s[i] != s[j]
    &&& forall|i: int| 0 <= i < s.len() - 1 ==> valid_step(n, r, #[trigger] s[i], s[i + 1])
}

/// A complete traversal: a valid path that visits the whole domain.
pub open spec fn complete_path(n: int, r: int, s: Seq<FeedPair>) -> bool {
    &&& valid_path(n, r, s)
    &&& s.len() == tri(n)
    &&& forall|p: FeedPair| in_domain(n, p) ==> s.contains(p)
}

/// Size of the triangular domain for `n` feeds: `n (n + 1) / 2`.
pub open spec fn tri(n: int) -> int
    decreases n,
{
    if n <= 0 {
        0
    } else {
        tri(n - 1) + n
    }
}

/// `tri` equals its closed form.
pub proof fn lemma_tri_closed_form(n: int)
    requires
        n >= 0,
    ensures
        tri(n) == n * (n + 1) / 2,
    decreases n,
{
    assert(2 * tri(n) == n * (n + 1)) by {
        lemma_tri_double(n);
    }
    lemma_div_multiples_vanish(tri(n), 2);
}

proof fn lemma_tri_double(n: int)
    requires
        n >= 0,
    ensures
        2 * tri(n) == n * (n + 1),
    decreases n,
{
    if n == 0 {
    } else {
        lemma_tri_double(n - 1);
        assert((n - 1) * n + 2 * n == n * (n + 1)) by (nonlinear_arith);
    }
}

/// Appending a fresh, legal step keeps a path valid.
pub proof fn lemma_valid_path_push(n: int, r: int, s: Seq<FeedPair>, q: FeedPair)
    requires
        valid_path(n, r, s),
        s.len() > 0,
        valid_step(n, r, s.last(), q),
        !s.contains(q),
    ensures
        valid_path(n, r, s.push(q)),
{
    let t = s.push(q);
    assert forall|i: int| 0 <= i < t.len() implies in_domain(n, #[trigger] t[i]) by {
        if i < s.len() {
            assert(t[i] == s[i]);
        }
    }
    assert forall|i: int, j: int| 0 <= i < j < t.len() implies t[i] != t[j] by {
        if j < s.len() {
        } else {
            assert(t[j] == q);
            assert(t[i] == s[i]);
            assert(!s.contains(q));
            assert(s[i] != q);
        }
    }
    assert forall|i: int| 0 <= i < t.len() - 1 implies valid_step(n, r, #[trigger] t[i], t[i + 1]) by {
        if i < s.len() - 1 {
            assert(t[i] == s[i] && t[i + 1] == s[i + 1]);
        } else {
            assert(t[i] == s.last() && t[i + 1] == q);
        }
    }
}

/// Column `{(x, y) : x < k}` of the domain, built one pair at a time so
/// that its cardinality is plain.
spec fn col_rec(y: usize, k: usize) -> Set<FeedPair>
    decreases k,
{
    if k == 0 {
        Set::empty()
    } else {
        col_rec(y, (k - 1) as usize).insert((((k - 1) as usize), y))
    }
}

proof fn lemma_col_rec(y: usize, k: usize)
    ensures
        col_rec(y, k).finite(),
        col_rec(y, k).len() == k,
        forall|p: FeedPair| col_rec(y, k).contains(p) <==> (p.1 == y && (p.0 as int) < k),
    decreases k,
{
    if k == 0 {
    } else {
        lemma_col_rec(y, (k - 1) as usize);
        assert(!col_rec(y, (k - 1) as usize).contains((((k - 1) as usize), y)));
    }
}

/// The domain for `n` feeds, built column by column.
spec fn dom_rec(n: usize) -> Set<FeedPair>
    decreases n,
{
    if n == 0 {
        Set::empty()
    } else {
        dom_rec((n - 1) as usize) + col_rec((n - 1) as usize, n)
    }
}

proof fn lemma_dom_rec(n: usize)
    ensures
        dom_rec(n).finite(),
        dom_rec(n).len() == tri(n as int),
        forall|p: FeedPair| dom_rec(n).contains(p) <==> in_domain(n as int, p),
    decreases n,
{
    if n == 0 {
    } else {
        let m = (n - 1) as usize;
        lemma_dom_rec(m);
        lemma_col_rec(m, n);
        assert forall|p: FeedPair| dom_rec(m).contains(p)
            implies !col_rec(m, n).contains(p) by {
            assert(in_domain(m as int, p));
        }
        assert(dom_rec(m).disjoint(col_rec(m, n)));
        lemma_set_disjoint_lens(dom_rec(m), col_rec(m, n));
        assert(dom_rec(n) == dom_rec(m) + col_rec(m, n));
        assert forall|p: FeedPair| dom_rec(n).contains(p) <==> in_domain(n as int, p) by {
            assert(dom_rec(n).contains(p) <==> dom_rec(m).contains(p) || col_rec(m, n).contains(
                p,
            ));
            assert(dom_rec(m).contains(p) <==> in_domain(m as int, p));
            assert(col_rec(m, n).contains(p) <==> (p.1 == m && (p.0 as int) < n));
        }
    }
}

/// A duplicate-free sequence of `tri(n)` in-domain pairs visits every pair
/// of the domain: pigeonhole over the domain's cardinality.
pub proof fn lemma_full_coverage(n: usize, s: Seq<FeedPair>)
    requires
        forall|i: int| 0 <= i < s.len() ==> in_domain(n as int, #[trigger] s[i]),
        forall|i: int, j: int| 0 <= i < j < s.len() ==> s[i] != s[j],
        s.len() == tri(n as int),
    ensures
        forall|p: FeedPair| in_domain(n as int, p) ==> s.contains(p),
{
    assert(s.no_duplicates());
    s.unique_seq_to_set();
    lemma_dom_rec(n);
    assert forall|p: FeedPair| in_domain(n as int, p) implies s.contains(p) by {
        if !s.to_set().contains(p) {
            assert(s.to_set() <= dom_rec(n).remove(p)) by {
                assert forall|q: FeedPair| s.to_set().contains(q)
                    implies dom_rec(n).remove(p).contains(q) by {
                    assert(s.contains(q));
                    let i = choose|i: int| 0 <= i < s.len() && s[i] == q;
                    assert(in_domain(n as int, s[i]));
                }
            }
            lemma_len_subset(s.to_set(), dom_rec(n).remove(p));
            assert(dom_rec(n).remove(p).len() == tri(n as int) - 1);
            assert(false);
        }
    }
}

} // verus!
