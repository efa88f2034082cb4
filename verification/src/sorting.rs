//! Stable sorting of positions by a key with a strict total order.

use vstd::prelude::*;
use crate::text::{lex_lt, lex_less, lemma_lex_irreflexive, lemma_lex_transitive, lemma_lex_total};

verus! {

/// A key type with a strict total order and an executable comparison.
pub trait SortKey: Sized {
    spec fn key_lt(self, other: Self) -> bool;

    proof fn lemma_irreflexive(a: Self)
        ensures
            !a.key_lt(a),
    ;

    proof fn lemma_transitive(a: Self, b: Self, c: Self)
        requires
            a.key_lt(b),
            b.key_lt(c),
        ensures
            a.key_lt(c),
    ;

    /// Keys that are not below `b` are above everything below `b`.
    proof fn lemma_lt_le(a: Self, b: Self, c: Self)
        requires
            a.key_lt(b),
            !c.key_lt(b),
        ensures
            a.key_lt(c),
    ;

    fn less(&self, other: &Self) -> (r: bool)
        ensures
            r == self.key_lt(*other),
    ;
}

/// Dates compare as `Option<DateTime>` does: no date first, then by time.
impl SortKey for Option<i64> {
    open spec fn key_lt(self, other: Self) -> bool {
        match (self, other) {
            (None, Some(_)) => true,
            (Some(a), Some(b)) => a < b,
            _ => false,
        }
    }

    proof fn lemma_irreflexive(a: Self) {
    }

    proof fn lemma_transitive(a: Self, b: Self, c: Self) {
    }

    proof fn lemma_lt_le(a: Self, b: Self, c: Self) {
    }

    fn less(&self, other: &Self) -> (r: bool) {
        match (self, other) {
            (None, Some(_)) => true,
            (Some(a), Some(b)) => *a < *b,
            _ => false,
        }
    }
}

/// Date first, then node id: the order of flat message listings.
impl SortKey for (Option<i64>, u32) {
    open spec fn key_lt(self, other: Self) -> bool {
        self.0.key_lt(other.0) || (self.0 == other.0 && self.1 < other.1)
    }

    proof fn lemma_irreflexive(a: Self) {
    }

    proof fn lemma_transitive(a: Self, b: Self, c: Self) {
    }

    proof fn lemma_lt_le(a: Self, b: Self, c: Self) {
    }

    fn less(&self, other: &Self) -> (r: bool) {
        if self.0.less(&other.0) {
            true
        } else if other.0.less(&self.0) {
            false
        } else {
            self.1 < other.1
        }
    }
}

/// Text compares character by character, as `String`s do.
impl SortKey for Vec<char> {
    open spec fn key_lt(self, other: Self) -> bool {
        lex_lt(self@, other@)
    }

    proof fn lemma_irreflexive(a: Self) {
        lemma_lex_irreflexive(a@);
    }

    proof fn lemma_transitive(a: Self, b: Self, c: Self) {
        lemma_lex_transitive(a@, b@, c@);
    }

    proof fn lemma_lt_le(a: Self, b: Self, c: Self) {
        lemma_lex_total(b@, c@);
        if lex_lt(b@, c@) {
            lemma_lex_transitive(a@, b@, c@);
        }
    }

    fn less(&self, other: &Self) -> (r: bool) {
        lex_less(self, other)
    }
}

/// `order` lists each of the positions `0..n` once, so that no position
/// comes after one it is `lt`-below, and positions that are not `lt`-ordered
/// come in increasing order: what a stable sort of `n` items by `lt` yields.
pub open spec fn stably_sorted(n: nat, lt: spec_fn(int, int) -> bool, order: Seq<usize>) -> bool {
    &&& order.len() == n
    &&& order.no_duplicates()
    &&& forall|i: int| 0 <= i < order.len() ==> order[i] < n
    &&& forall|j: int, k: int|
        0 <= j < k < order.len() ==> !lt(order[k] as int, order[j] as int) && (lt(
            order[j] as int,
            order[k] as int,
        ) || order[j] < order[k])
}

/// Stable sortedness depends only on how `lt` compares the positions.
pub proof fn lemma_stably_sorted_ext(
    n: nat,
    f: spec_fn(int, int) -> bool,
    g: spec_fn(int, int) -> bool,
    order: Seq<usize>,
)
    requires
        stably_sorted(n, f, order),
        forall|a: int, b: int| 0 <= a < n && 0 <= b < n ==> #[trigger] f(a, b) == g(a, b),
    ensures
        stably_sorted(n, g, order),
{
    assert forall|j: int, k: int| 0 <= j < k < order.len() implies !g(
        order[k] as int,
        order[j] as int,
    ) && (g(order[j] as int, order[k] as int) || order[j] < order[k]) by {
        assert(f(order[k] as int, order[j] as int) == g(order[k] as int, order[j] as int));
        assert(f(order[j] as int, order[k] as int) == g(order[j] as int, order[k] as int));
    }
}

/// The positions of `keys` in stably sorted order (insertion sort).
pub fn stable_order<K: SortKey>(keys: &Vec<K>) -> (r: Vec<usize>)
    ensures
        stably_sorted(keys.len() as nat, |a: int, b: int| keys@[a].key_lt(keys@[b]), r@),
{
    let mut r: Vec<usize> = Vec::new();
    let n = keys.len();
    let mut k: usize = 0;
    while k < n
        invariant
            k <= n == keys.len(),
            r.len() == k,
            r@.no_duplicates(),
            forall|i: int| 0 <= i < r.len() ==> r[i] < k,
            forall|a: int, b: int|
                0 <= a < b < r.len() ==> !keys@[r[b] as int].key_lt(keys@[r[a] as int]) && (
                keys@[r[a] as int].key_lt(keys@[r[b] as int]) || r[a] < r[b]),
        decreases n - k,
    {
        let mut p: usize = 0;
        while p < r.len() && !keys[k].less(&keys[r[p]])
            invariant
                p <= r.len(),
                k < n == keys.len(),
                forall|i: int| 0 <= i < r.len() ==> r[i] < k,
                forall|j: int| 0 <= j < p ==> !keys@[k as int].key_lt(keys@[r[j] as int]),
            decreases r.len() - p,
        {
            p = p + 1;
        }
        let ghost old_r = r@;
        proof {
            // Everything from position `p` on is strictly greater than the new key.
            assert forall|j: int| p <= j < old_r.len() implies keys@[k as int].key_lt(
                keys@[old_r[j] as int],
            ) by {
                let kk = keys@[k as int];
                let a = keys@[old_r[p as int] as int];
                let b = keys@[old_r[j] as int];
                if j > p {
                    K::lemma_lt_le(kk, a, b);
                }
            }
        }
        r.insert(p, k);
        proof {
            assert forall|i: int| 0 <= i < r.len() implies r[i] < k + 1 by {
                if i < p {
                    assert(r[i] == old_r[i]);
                } else if i > p {
                    assert(r[i] == old_r[i - 1]);
                }
            }
            assert(r@.no_duplicates()) by {
                assert forall|a: int, b: int| 0 <= a < b < r.len() implies r[a] != r[b] by {
                    if a < p && b < p {
                        assert(r[a] == old_r[a] && r[b] == old_r[b]);
                    } else if a < p && b == p {
                        assert(r[a] == old_r[a]);
                    } else if a < p && b > p {
                        assert(r[a] == old_r[a] && r[b] == old_r[b - 1]);
                    } else if a == p {
                        assert(r[b] == old_r[b - 1]);
                    } else {
                        assert(r[a] == old_r[a - 1] && r[b] == old_r[b - 1]);
                    }
                }
            }
            assert forall|a: int, b: int| 0 <= a < b < r.len() implies !keys@[r[b] as int].key_lt(
                keys@[r[a] as int],
            ) && (keys@[r[a] as int].key_lt(keys@[r[b] as int]) || r[a] < r[b]) by {
                if a < p && b < p {
                    assert(r[a] == old_r[a] && r[b] == old_r[b]);
                } else if a < p && b == p {
                    assert(r[a] == old_r[a]);
                    assert(r[b] == k);
                } else if a < p && b > p {
                    assert(r[a] == old_r[a] && r[b] == old_r[b - 1]);
                } else if a == p {
                    assert(r[a] == k);
                    assert(r[b] == old_r[b - 1]);
                    let x = keys@[k as int];
                    let y = keys@[old_r[b - 1] as int];
                    if y.key_lt(x) {
                        K::lemma_transitive(x, y, x);
                        K::lemma_irreflexive(x);
                    }
                } else {
                    assert(r[a] == old_r[a - 1] && r[b] == old_r[b - 1]);
                }
            }
        }
        k = k + 1;
    }
    r
}

/// A stable order of `n` positions lists every position.
pub proof fn lemma_order_covers(n: nat, lt: spec_fn(int, int) -> bool, ord: Seq<usize>, x: int)
    requires
        stably_sorted(n, lt, ord),
        0 <= x < n,
    ensures
        exists|j: int| 0 <= j < ord.len() && ord[j] == x,
{
    let s = ord.map_values(|v: usize| v as int);
    assert forall|p: int, q: int| 0 <= p < q < s.len() implies s[p] != s[q] by {
        assert(ord[p] != ord[q]);
    }
    assert(s.no_duplicates());
    s.unique_seq_to_set();
    if !(exists|j: int| 0 <= j < ord.len() && ord[j] == x) {
        let r = vstd::set_lib::set_int_range(0, n as int).remove(x);
        vstd::set_lib::lemma_int_range(0, n as int);
        assert(vstd::set_lib::set_int_range(0, n as int).contains(x));
        assert(r.len() == n - 1);
        assert forall|y: int| s.to_set().contains(y) implies r.contains(y) by {
            let j = choose|j: int| 0 <= j < s.len() && s[j] == y;
            assert(ord[j] < n);
            assert(ord[j] as int != x);
        }
        vstd::set_lib::lemma_len_subset(s.to_set(), r);
    }
}

} // verus!
