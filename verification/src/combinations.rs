//! Selections of `k` positions out of `n`, listed in lexicographic order,
//! and the selections of categories that they pick from a pool.

use crate::chart::{Type, TYPE_COUNT};
use itertools::Itertools;
use vstd::prelude::*;

verus! {

/// `t` holds `k` positions from `lo` up to but not including `n`, each
/// greater than the one before it.
pub open spec fn is_tuple_from(t: Seq<int>, lo: int, n: int, k: int) -> bool {
    &&& t.len() == k
    &&& forall|i: int| 0 <= i < t.len() ==> lo <= #[trigger] t[i] < n
    &&& forall|i: int, j: int| 0 <= i < j < t.len() ==> #[trigger] t[i] < #[trigger] t[j]
}

/// `a` and `b` agree before position `p`, where `a` is smaller.
pub open spec fn lex_less_at(a: Seq<int>, b: Seq<int>, p: int) -> bool {
    &&& 0 <= p < a.len()
    &&& p < b.len()
    &&& a[p] < b[p]
    &&& forall|q: int| 0 <= q < p ==> #[trigger] a[q] == b[q]
}

/// `a` comes before `b` in lexicographic order: at the first position where
/// they differ, `a` is smaller.
pub open spec fn lex_less(a: Seq<int>, b: Seq<int>) -> bool {
    exists|p: int| lex_less_at(a, b, p)
}

/// Each entry of `r` comes lexicographically before every later one.
pub open spec fn strictly_sorted(r: Seq<Seq<int>>) -> bool {
    forall|i: int, j: int| 0 <= i < j < r.len() ==> lex_less(#[trigger] r[i], #[trigger] r[j])
}

/// `r` lists the selections of `k` positions out of `lo..n`: every entry is
/// one, every one is an entry, and the entries stand in lexicographic order,
/// so none stands twice.
pub open spec fn is_lex_listing_from(r: Seq<Seq<int>>, lo: int, n: int, k: int) -> bool {
    &&& forall|i: int| 0 <= i < r.len() ==> is_tuple_from(#[trigger] r[i], lo, n, k)
    &&& strictly_sorted(r)
    &&& forall|t: Seq<int>| is_tuple_from(t, lo, n, k) ==> r.contains(t)
}

/// `r` lists the selections of `k` positions out of `0..n` in lexicographic
/// order.
pub open spec fn is_lex_listing(r: Seq<Seq<int>>, n: int, k: int) -> bool {
    is_lex_listing_from(r, 0, n, k)
}

/// `t` with `head` put in front.
pub open spec fn prepend(head: int, t: Seq<int>) -> Seq<int> {
    seq![head] + t
}

/// The selections of `k` positions out of `lo..n` in lexicographic order:
/// first those that begin with `lo`, then those that do not.
pub open spec fn combinations_from(lo: int, n: int, k: nat) -> Seq<Seq<int>>
    decreases n - lo, k,
{
    if k == 0 {
        seq![Seq::<int>::empty()]
    } else if lo >= n {
        Seq::<Seq<int>>::empty()
    } else {
        combinations_from(lo + 1, n, (k - 1) as nat).map_values(|t: Seq<int>| prepend(lo, t))
            + combinations_from(lo + 1, n, k)
    }
}

/// The selections of `k` positions out of `0..n` in lexicographic order.
pub open spec fn lex_combinations(n: nat, k: nat) -> Seq<Seq<int>> {
    combinations_from(0, n as int, k)
}

/// The number of ways to choose `k` out of `n`.
pub open spec fn binomial(n: nat, k: nat) -> nat
    decreases n,
{
    if k == 0 {
        1
    } else if n == 0 {
        0
    } else {
        binomial((n - 1) as nat, (k - 1) as nat) + binomial((n - 1) as nat, k)
    }
}

/// The positions that each vector of `v` holds, as integers.
pub open spec fn index_rows(v: Seq<Vec<usize>>) -> Seq<Seq<int>> {
    Seq::new(v.len(), |i: int| v[i]@.map_values(|x: usize| x as int))
}

/// What each vector of `v` holds.
pub open spec fn rows(v: Seq<Vec<Type>>) -> Seq<Seq<Type>> {
    Seq::new(v.len(), |i: int| v[i]@)
}

/// The categories of `pool` at the positions `t`, in the order of `t`.
pub open spec fn select(pool: Seq<Type>, t: Seq<int>) -> Seq<Type> {
    Seq::new(t.len(), |i: int| pool[t[i]])
}

/// The selections of `k` categories out of `pool`, each in pool order, listed
/// in lexicographic order of the positions that they take.
pub open spec fn combination_listing(pool: Seq<Type>, k: nat) -> Seq<Seq<Type>> {
    lex_combinations(pool.len(), k).map_values(|t: Seq<int>| select(pool, t))
}

/// Lexicographic order is irreflexive and asymmetric.
pub proof fn lemma_lex_less_asymmetric(a: Seq<int>, b: Seq<int>)
    requires
        lex_less(a, b),
    ensures
        !lex_less(b, a),
        a != b,
{
    let p = choose|p: int| lex_less_at(a, b, p);
    if lex_less(b, a) {
        let q = choose|q: int| lex_less_at(b, a, q);
        if p < q {
            assert(b[p] == a[p]);
        } else if q < p {
            assert(a[q] == b[q]);
        }
    }
}

/// Two sequences in strict lexicographic order with the same entries are
/// the same sequence.
pub proof fn lemma_sorted_same_members_equal(a: Seq<Seq<int>>, b: Seq<Seq<int>>)
    requires
        strictly_sorted(a),
        strictly_sorted(b),
        forall|t: Seq<int>| a.contains(t) <==> b.contains(t),
    ensures
        a == b,
    decreases a.len(),
{
    if a.len() == 0 {
        if b.len() > 0 {
            assert(b.contains(b[0]));
        }
        assert(a =~= b);
    } else {
        assert(a.contains(a[0]));
        let j = choose|j: int| 0 <= j < b.len() && b[j] == a[0];
        assert(b.contains(b[0]));
        let i = choose|i: int| 0 <= i < a.len() && a[i] == b[0];
        if j > 0 {
            lemma_lex_less_asymmetric(b[0], b[j]);
            if i > 0 {
                assert(lex_less(a[0], a[i]));
            }
        }
        assert(a[0] == b[0]);
        let a1 = a.skip(1);
        let b1 = b.skip(1);
        assert forall|t: Seq<int>| a1.contains(t) <==> b1.contains(t) by {
            if a1.contains(t) {
                let m = choose|m: int| 0 <= m < a1.len() && a1[m] == t;
                assert(a[m + 1] == t);
                lemma_lex_less_asymmetric(a[0], a[m + 1]);
                assert(a.contains(t));
                let m2 = choose|m2: int| 0 <= m2 < b.len() && b[m2] == t;
                assert(b1[m2 - 1] == t);
            }
            if b1.contains(t) {
                let m = choose|m: int| 0 <= m < b1.len() && b1[m] == t;
                assert(b[m + 1] == t);
                lemma_lex_less_asymmetric(b[0], b[m + 1]);
                assert(b.contains(t));
                let m2 = choose|m2: int| 0 <= m2 < a.len() && a[m2] == t;
                assert(a1[m2 - 1] == t);
            }
        }
        assert forall|x: int, y: int| 0 <= x < y < a1.len() implies lex_less(
            #[trigger] a1[x],
            #[trigger] a1[y],
        ) by {
            assert(lex_less(a[x + 1], a[y + 1]));
        }
        assert forall|x: int, y: int| 0 <= x < y < b1.len() implies lex_less(
            #[trigger] b1[x],
            #[trigger] b1[y],
        ) by {
            assert(lex_less(b[x + 1], b[y + 1]));
        }
        lemma_sorted_same_members_equal(a1, b1);
        assert(a =~= seq![a[0]] + a1);
        assert(b =~= seq![b[0]] + b1);
    }
}

/// Only one sequence lists the selections of `k` positions out of `lo..n`
/// in lexicographic order.
pub proof fn lemma_listing_unique(a: Seq<Seq<int>>, b: Seq<Seq<int>>, lo: int, n: int, k: int)
    requires
        is_lex_listing_from(a, lo, n, k),
        is_lex_listing_from(b, lo, n, k),
    ensures
        a == b,
{
    assert forall|t: Seq<int>| a.contains(t) <==> b.contains(t) by {
        if a.contains(t) {
            let i = choose|i: int| 0 <= i < a.len() && a[i] == t;
            assert(is_tuple_from(a[i], lo, n, k));
        }
        if b.contains(t) {
            let i = choose|i: int| 0 <= i < b.len() && b[i] == t;
            assert(is_tuple_from(b[i], lo, n, k));
        }
    }
    lemma_sorted_same_members_equal(a, b);
}

/// Putting a position in front of two selections keeps their order.
proof fn lemma_prepend_keeps_order(head: int, a: Seq<int>, b: Seq<int>)
    requires
        lex_less(a, b),
    ensures
        lex_less(prepend(head, a), prepend(head, b)),
{
    let p = choose|p: int| lex_less_at(a, b, p);
    let pa = prepend(head, a);
    let pb = prepend(head, b);
    assert forall|q: int| 0 <= q < p + 1 implies #[trigger] pa[q] == pb[q] by {
        if q > 0 {
            assert(a[q - 1] == b[q - 1]);
        }
    }
    assert(lex_less_at(pa, pb, p + 1));
}

/// `combinations_from` lists the selections of `k` positions out of
/// `lo..n` in lexicographic order.
pub proof fn lemma_combinations_from_is_listing(lo: int, n: int, k: nat)
    ensures
        is_lex_listing_from(combinations_from(lo, n, k), lo, n, k as int),
    decreases n - lo, k,
{
    let r = combinations_from(lo, n, k);
    if k == 0 {
        assert forall|t: Seq<int>| is_tuple_from(t, lo, n, 0) implies r.contains(t) by {
            assert(t =~= Seq::<int>::empty());
            assert(r[0] == t);
        }
    } else if lo >= n {
        assert forall|t: Seq<int>| is_tuple_from(t, lo, n, k as int) implies r.contains(t) by {
            assert(lo <= t[0] < n);
        }
    } else {
        let with = combinations_from(lo + 1, n, (k - 1) as nat);
        let without = combinations_from(lo + 1, n, k);
        let front = with.map_values(|t: Seq<int>| prepend(lo, t));
        lemma_combinations_from_is_listing(lo + 1, n, (k - 1) as nat);
        lemma_combinations_from_is_listing(lo + 1, n, k);
        assert(r == front + without);
        assert forall|i: int| 0 <= i < r.len() implies is_tuple_from(
            #[trigger] r[i],
            lo,
            n,
            k as int,
        ) by {
            if i < front.len() {
                assert(is_tuple_from(with[i], lo + 1, n, k - 1));
                let t = r[i];
                assert(t == prepend(lo, with[i]));
                assert forall|x: int| 0 <= x < t.len() implies lo <= #[trigger] t[x] < n by {
                    if x > 0 {
                        assert(t[x] == with[i][x - 1]);
                    }
                }
                assert forall|x: int, y: int| 0 <= x < y < t.len() implies #[trigger] t[x]
                    < #[trigger] t[y] by {
                    assert(t[y] == with[i][y - 1]);
                    if x > 0 {
                        assert(t[x] == with[i][x - 1]);
                    }
                }
            } else {
                assert(is_tuple_from(without[i - front.len()], lo + 1, n, k as int));
            }
        }
        assert forall|i: int, j: int| 0 <= i < j < r.len() implies lex_less(
            #[trigger] r[i],
            #[trigger] r[j],
        ) by {
            if j < front.len() {
                assert(lex_less(with[i], with[j]));
                lemma_prepend_keeps_order(lo, with[i], with[j]);
            } else if i < front.len() {
                let u = without[j - front.len()];
                assert(is_tuple_from(with[i], lo + 1, n, k - 1));
                assert(is_tuple_from(u, lo + 1, n, k as int));
                assert(lo + 1 <= u[0]);
                assert(lex_less_at(r[i], r[j], 0));
            } else {
                assert(lex_less(without[i - front.len()], without[j - front.len()]));
            }
        }
        assert forall|t: Seq<int>| is_tuple_from(t, lo, n, k as int) implies r.contains(t) by {
            assert(lo <= t[0] < n);
            if t[0] == lo {
                let rest = t.skip(1);
                assert forall|x: int, y: int| 0 <= x < y < rest.len() implies #[trigger] rest[x]
                    < #[trigger] rest[y] by {
                    assert(t[x + 1] < t[y + 1]);
                }
                assert forall|x: int| 0 <= x < rest.len() implies lo + 1 <= #[trigger] rest[x]
                    < n by {
                    assert(t[0] < t[x + 1]);
                }
                assert(is_tuple_from(rest, lo + 1, n, k - 1));
                assert(with.contains(rest));
                let i = choose|i: int| 0 <= i < with.len() && with[i] == rest;
                assert(prepend(lo, rest) =~= t);
                assert(r[i] == t);
            } else {
                assert forall|x: int| 0 <= x < t.len() implies lo + 1 <= #[trigger] t[x] < n by {
                    if x > 0 {
                        assert(t[0] < t[x]);
                    }
                }
                assert(is_tuple_from(t, lo + 1, n, k as int));
                assert(without.contains(t));
                let i = choose|i: int| 0 <= i < without.len() && without[i] == t;
                assert(r[front.len() + i] == t);
            }
        }
    }
}

/// `lex_combinations(n, k)` lists the selections of `k` positions out of
/// `0..n` in lexicographic order, and it is the only sequence that does.
pub proof fn lemma_lex_combinations_is_the_listing(r: Seq<Seq<int>>, n: nat, k: nat)
    ensures
        is_lex_listing(lex_combinations(n, k), n as int, k as int),
        is_lex_listing(r, n as int, k as int) ==> r == lex_combinations(n, k),
{
    lemma_combinations_from_is_listing(0, n as int, k);
    if is_lex_listing(r, n as int, k as int) {
        lemma_listing_unique(r, lex_combinations(n, k), 0, n as int, k as int);
    }
}

/// There are `binomial(n - lo, k)` selections of `k` positions out of
/// `lo..n`.
pub proof fn lemma_combinations_from_len(lo: int, n: int, k: nat)
    requires
        lo <= n,
    ensures
        combinations_from(lo, n, k).len() == binomial((n - lo) as nat, k),
    decreases n - lo, k,
{
    if k > 0 && lo < n {
        lemma_combinations_from_len(lo + 1, n, (k - 1) as nat);
        lemma_combinations_from_len(lo + 1, n, k);
    }
}

/// There are 792 ways to choose five out of twelve.
pub proof fn lemma_twelve_choose_five()
    ensures
        binomial(12, 5) == 792,
{
    reveal_with_fuel(binomial, 13);
}

/// A selection of `k` positions out of `lo..n` needs `k` positions to
/// select from.
pub proof fn lemma_tuple_fits(t: Seq<int>, lo: int, n: int, k: int)
    requires
        is_tuple_from(t, lo, n, k),
    ensures
        k <= 0 || lo + k <= n,
    decreases k,
{
    if k > 0 {
        assert(lo <= t[0] < n);
        if k > 1 {
            let rest = t.skip(1);
            assert forall|x: int, y: int| 0 <= x < y < rest.len() implies #[trigger] rest[x]
                < #[trigger] rest[y] by {
                assert(t[x + 1] < t[y + 1]);
            }
            assert forall|x: int| 0 <= x < rest.len() implies lo + 1 <= #[trigger] rest[x] < n by {
                assert(t[0] < t[x + 1]);
            }
            lemma_tuple_fits(rest, lo + 1, n, k - 1);
        }
    }
}

/// The positions `lo..n` of a pool without repetitions hold every member
/// of `s`: then some increasing selection of positions picks exactly `s`.
proof fn lemma_positions_of_set(pool: Seq<Type>, s: Set<Type>, lo: int) -> (t: Seq<int>)
    requires
        0 <= lo,
        pool.no_duplicates(),
        s.finite(),
        forall|x: Type| s.contains(x) ==> exists|i: int| lo <= i < pool.len() && pool[i] == x,
    ensures
        is_tuple_from(t, lo, pool.len() as int, s.len() as int),
        select(pool, t).to_set() == s,
    decreases pool.len() - lo,
{
    if lo >= pool.len() {
        assert(s =~= Set::<Type>::empty()) by {
            if exists|x: Type| s.contains(x) {
                let x = choose|x: Type| s.contains(x);
                let i = choose|i: int| lo <= i < pool.len() && pool[i] == x;
            }
        }
        let t = Seq::<int>::empty();
        assert(select(pool, t).to_set() =~= s);
        t
    } else {
        let head = pool[lo];
        let rest = s.remove(head);
        assert forall|x: Type| rest.contains(x) implies exists|i: int|
            lo + 1 <= i < pool.len() && pool[i] == x by {
            let i = choose|i: int| lo <= i < pool.len() && pool[i] == x;
            assert(lo + 1 <= i < pool.len() && pool[i] == x);
        }
        let u = lemma_positions_of_set(pool, rest, lo + 1);
        if s.contains(head) {
            let t = prepend(lo, u);
            assert forall|x: int| 0 <= x < t.len() implies lo <= #[trigger] t[x] < pool.len() by {
                if x > 0 {
                    assert(t[x] == u[x - 1]);
                }
            }
            assert forall|x: int, y: int| 0 <= x < y < t.len() implies #[trigger] t[x]
                < #[trigger] t[y] by {
                assert(t[y] == u[y - 1]);
                if x > 0 {
                    assert(t[x] == u[x - 1]);
                }
            }
            let picked = select(pool, t);
            let before = select(pool, u);
            assert forall|x: Type| picked.to_set().contains(x) <==> s.contains(x) by {
                if picked.contains(x) {
                    let q = choose|q: int| 0 <= q < picked.len() && picked[q] == x;
                    if q > 0 {
                        assert(before[q - 1] == x);
                        assert(before.to_set().contains(x));
                    }
                }
                if s.contains(x) {
                    if x == head {
                        assert(picked[0] == x);
                    } else {
                        assert(before.to_set().contains(x));
                        let q = choose|q: int| 0 <= q < before.len() && before[q] == x;
                        assert(picked[q + 1] == x);
                    }
                }
            }
            assert(picked.to_set() =~= s);
            t
        } else {
            assert(rest =~= s);
            assert forall|x: int| 0 <= x < u.len() implies lo <= #[trigger] u[x] < pool.len() by {}
            u
        }
    }
}

/// The listing of the selections of `k` categories out of a pool without
/// repetitions is complete and free of repetitions: it has
/// `binomial(pool.len(), k)` entries; every entry holds `k` different
/// categories of the pool; no two entries hold the same set of categories;
/// and every set of `k` categories of the pool is held by an entry.
pub proof fn lemma_listing_complete(pool: Seq<Type>, k: nat)
    requires
        pool.no_duplicates(),
    ensures
        combination_listing(pool, k).len() == binomial(pool.len(), k),
        forall|i: int|
            0 <= i < combination_listing(pool, k).len() ==> {
                let c = #[trigger] combination_listing(pool, k)[i];
                &&& c.len() == k
                &&& c.no_duplicates()
                &&& c.to_set().subset_of(pool.to_set())
            },
        forall|i: int, j: int|
            0 <= i < j < combination_listing(pool, k).len() ==> (
            #[trigger] combination_listing(pool, k)[i]).to_set() != (#[trigger] combination_listing(
                pool,
                k,
            )[j]).to_set(),
        forall|s: Set<Type>|
            s.finite() && s.len() == k && s.subset_of(pool.to_set()) ==> exists|i: int|
                0 <= i < combination_listing(pool, k).len() && (#[trigger] combination_listing(
                    pool,
                    k,
                )[i]).to_set() == s,
{
    let n = pool.len();
    let positions = lex_combinations(n, k);
    let listing = combination_listing(pool, k);
    lemma_combinations_from_len(0, n as int, k);
    lemma_combinations_from_is_listing(0, n as int, k);
    assert forall|i: int| 0 <= i < listing.len() implies {
        let c = #[trigger] listing[i];
        &&& c.len() == k
        &&& c.no_duplicates()
        &&& c.to_set().subset_of(pool.to_set())
    } by {
        let t = positions[i];
        let c = listing[i];
        assert(is_tuple_from(t, 0, n as int, k as int));
        assert(c == select(pool, t));
        assert forall|x: int, y: int| 0 <= x < c.len() && 0 <= y < c.len() && x != y implies c[x]
            != c[y] by {
            if x < y {
                assert(t[x] < t[y]);
            } else {
                assert(t[y] < t[x]);
            }
            assert(0 <= t[x] < n && 0 <= t[y] < n);
        }
        assert forall|x: Type| c.to_set().contains(x) implies pool.to_set().contains(x) by {
            let q = choose|q: int| 0 <= q < c.len() && c[q] == x;
            assert(0 <= t[q] < n);
            assert(pool[t[q]] == x);
        }
    }
    assert forall|i: int, j: int| 0 <= i < j < listing.len() implies (#[trigger] listing[i]).to_set()
        != (#[trigger] listing[j]).to_set() by {
        let a = positions[i];
        let b = positions[j];
        assert(is_tuple_from(a, 0, n as int, k as int));
        assert(is_tuple_from(b, 0, n as int, k as int));
        assert(lex_less(a, b));
        let p = choose|p: int| lex_less_at(a, b, p);
        let x = pool[a[p]];
        let ca = select(pool, a);
        let cb = select(pool, b);
        assert(ca[p] == x);
        assert(ca.to_set().contains(x));
        if cb.to_set().contains(x) {
            let q = choose|q: int| 0 <= q < cb.len() && cb[q] == x;
            assert(0 <= a[p] < n && 0 <= b[q] < n);
            assert(b[q] == a[p]);
            if q < p {
                assert(a[q] == b[q]);
                assert(a[q] < a[p]);
            } else if q > p {
                assert(b[p] < b[q]);
            }
        }
    }
    assert forall|s: Set<Type>|
        s.finite() && s.len() == k && s.subset_of(pool.to_set()) implies exists|i: int|
        0 <= i < listing.len() && (#[trigger] listing[i]).to_set() == s by {
        assert forall|x: Type| s.contains(x) implies exists|i: int|
            0 <= i < pool.len() && pool[i] == x by {
            assert(pool.to_set().contains(x));
            let i = choose|i: int| 0 <= i < pool.len() && pool[i] == x;
        }
        let t = lemma_positions_of_set(pool, s, 0);
        assert(positions.contains(t));
        let i = choose|i: int| 0 <= i < positions.len() && positions[i] == t;
        assert(listing[i] == select(pool, t));
    }
}

/// The selections of `k` positions out of `0..n`, from
/// `itertools::Itertools::combinations` on the range `0..n`. The adaptor
/// starts at the positions `0..k` and steps to the next selection in
/// lexicographic order until none is left, so it yields every increasing
/// selection once, in that order. The bounds keep the listing small: the
/// adaptor allocates `k` positions at the start and `collect` one vector for
/// each selection.
#[verifier::external_body]
fn index_combinations(n: usize, k: usize) -> (r: Vec<Vec<usize>>)
    requires
        k <= n <= TYPE_COUNT,
    ensures
        is_lex_listing(index_rows(r@), n as int, k as int),
{
    (0..n).combinations(k).collect()
}

/// The categories of `pool` at the given positions.
pub fn select_members(pool: &[Type], positions: &[usize]) -> (r: Vec<Type>)
    requires
        forall|i: int| 0 <= i < positions@.len() ==> positions@[i] < pool@.len(),
    ensures
        r@ == select(pool@, positions@.map_values(|x: usize| x as int)),
{
    let mut r: Vec<Type> = Vec::new();
    let mut i: usize = 0;
    while i < positions.len()
        invariant
            i <= positions@.len(),
            forall|j: int| 0 <= j < positions@.len() ==> positions@[j] < pool@.len(),
            r@.len() == i,
            forall|j: int| 0 <= j < i ==> r@[j] == pool@[positions@[j] as int],
        decreases positions@.len() - i,
    {
        r.push(pool[positions[i]]);
        i = i + 1;
    }
    assert(r@ =~= select(pool@, positions@.map_values(|x: usize| x as int)));
    r
}

/// All selections of `k` categories out of `categories`. Each selection
/// keeps the order of `categories`, and the selections come in
/// lexicographic order of the positions that they take. For `k` above the
/// number of categories there is none, and for `k == 0` there is one, the
/// empty selection.
pub fn enumerate_combinations(categories: &[Type], k: usize) -> (r: Vec<Vec<Type>>)
    requires
        categories@.len() <= TYPE_COUNT,
    ensures
        rows(r@) == combination_listing(categories@, k as nat),
{
    let n = categories.len();
    let mut r: Vec<Vec<Type>> = Vec::new();
    let ghost listing = lex_combinations(n as nat, k as nat);
    proof {
        lemma_combinations_from_is_listing(0, n as int, k as nat);
    }
    if k > n {
        proof {
            if listing.len() > 0 {
                lemma_tuple_fits(listing[0], 0, n as int, k as int);
            }
            assert(rows(r@) =~= combination_listing(categories@, k as nat));
        }
        return r;
    }
    let positions = index_combinations(n, k);
    proof {
        lemma_listing_unique(index_rows(positions@), listing, 0, n as int, k as int);
    }
    let mut i: usize = 0;
    while i < positions.len()
        invariant
            i <= positions@.len(),
            n == categories@.len(),
            index_rows(positions@) == listing,
            is_lex_listing(listing, n as int, k as int),
            r@.len() == i,
            forall|j: int| 0 <= j < i ==> (#[trigger] r@[j])@ == select(categories@, listing[j]),
        decreases positions@.len() - i,
    {
        proof {
            assert(is_tuple_from(listing[i as int], 0, n as int, k as int));
            assert(listing[i as int] == positions@[i as int]@.map_values(|x: usize| x as int));
            assert forall|j: int| 0 <= j < positions@[i as int]@.len() implies positions@[i as int]@[j]
                < n by {
                assert(listing[i as int][j] == positions@[i as int]@[j] as int);
            }
        }
        let members = select_members(categories, positions[i].as_slice());
        r.push(members);
        i = i + 1;
    }
    assert(rows(r@) =~= combination_listing(categories@, k as nat));
    r
}

} // verus!
