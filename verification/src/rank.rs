//! Ranking: the best `k` of a list of scored documents.
//!
//! A document is known here by its position in the store and by its score
//! key, an integer that is larger where the score is higher. A document
//! comes before another in the ranking if its key is larger, or if the keys
//! are equal and it stands earlier in the store. This order is total and
//! strict, so a ranking is unique.

use vstd::prelude::*;

verus! {

/// Whether document `i` comes before document `j` in the ranking: by the
/// larger key, and between equal keys by the earlier position.
pub open spec fn outranks(keys: Seq<u64>, i: int, j: int) -> bool {
    keys[i] > keys[j] || (keys[i] == keys[j] && i < j)
}

/// Whether `order` lists the best `k` of the first `n` documents, best
/// first; all `n` of them where `k` is not smaller.
pub open spec fn top_of(keys: Seq<u64>, n: int, k: int, order: Seq<usize>) -> bool {
    &&& order.len() == if k < n {
        k
    } else {
        n
    }
    &&& forall|a: int| 0 <= a < order.len() ==> #[trigger] order[a] < n
    &&& forall|a: int, b: int|
        0 <= a < b < order.len() ==> outranks(
            keys,
            #[trigger] order[a] as int,
            #[trigger] order[b] as int,
        )
    &&& forall|a: int, x: usize|
        #![trigger order[a], order.contains(x)]
        0 <= a < order.len() && x < n && !order.contains(x) ==> outranks(
            keys,
            order[a] as int,
            x as int,
        )
}

/// Whether `order` is the ranking of the documents with the keys `keys`,
/// cut to `k` places: it holds `k` positions, or all of them where there
/// are fewer than `k` documents; each listed document comes before the ones
/// listed after it; and each document that is not listed comes after all
/// that are.
pub open spec fn is_top(keys: Seq<u64>, k: nat, order: Seq<usize>) -> bool {
    top_of(keys, keys.len() as int, k as int, order)
}

/// Whether `order` lists each of the first `n` documents.
pub open spec fn covers(order: Seq<usize>, n: int) -> bool {
    forall|x: usize| x < n ==> #[trigger] order.contains(x)
}

/// What one more document does to the best `k`: the document with position
/// `n` enters `order` at place `p`, behind the documents whose key is not
/// smaller, and the list is cut to `k` places again.
proof fn lemma_enter(keys: Seq<u64>, n: int, k: int, order: Seq<usize>, p: int)
    requires
        0 <= n < keys.len(),
        n < usize::MAX,
        0 < k,
        top_of(keys, n, k, order),
        order.len() < k ==> covers(order, n),
        0 <= p <= order.len(),
        forall|q: int| p <= q < order.len() ==> keys[#[trigger] order[q] as int] < keys[n],
        p > 0 ==> keys[order[p - 1] as int] >= keys[n],
    ensures
        p < k && order.len() == k ==> top_of(
            keys,
            n + 1,
            k,
            order.insert(p, n as usize).take(k),
        ),
        p < k && order.len() < k ==> top_of(keys, n + 1, k, order.insert(p, n as usize)),
        order.len() < k ==> p < k && covers(order.insert(p, n as usize), n + 1),
        p >= k ==> top_of(keys, n + 1, k, order),
{
    let me = n as usize;
    assert forall|q: int| 0 <= q < p implies keys[#[trigger] order[q] as int] >= keys[n] by {
        if q < p - 1 {
            assert(outranks(keys, order[q] as int, order[p - 1] as int));
        }
    }
    if p >= k {
        assert forall|a: int, x: usize|
            #![trigger order[a], order.contains(x)]
            0 <= a < order.len() && x < n + 1 && !order.contains(x) implies outranks(
            keys,
            order[a] as int,
            x as int,
        ) by {
            if x == me {
                assert(keys[order[a] as int] >= keys[n]);
                assert(order[a] < n);
            }
        }
    } else {
        let wide = order.insert(p, me);
        assert forall|a: int, b: int| 0 <= a < b < wide.len() implies outranks(
            keys,
            #[trigger] wide[a] as int,
            #[trigger] wide[b] as int,
        ) by {
            if b < p {
                assert(wide[a] == order[a] && wide[b] == order[b]);
            } else if b == p {
                assert(wide[a] == order[a]);
                assert(keys[order[a] as int] >= keys[n]);
                assert(order[a] < n);
            } else if a < p {
                assert(wide[a] == order[a] && wide[b] == order[b - 1]);
            } else if a == p {
                assert(wide[b] == order[b - 1]);
                assert(keys[order[b - 1] as int] < keys[n]);
            } else {
                assert(wide[a] == order[a - 1] && wide[b] == order[b - 1]);
            }
        }
        assert forall|x: usize| order.contains(x) implies wide.contains(x) by {
            let q = choose|q: int| 0 <= q < order.len() && order[q] == x;
            if q < p {
                assert(wide[q] == x);
            } else {
                assert(wide[q + 1] == x);
            }
        }
        assert(wide[p] == me);
        if order.len() < k {
            assert forall|a: int, x: usize|
                #![trigger wide[a], wide.contains(x)]
                0 <= a < wide.len() && x < n + 1 && !wide.contains(x) implies outranks(
                keys,
                wide[a] as int,
                x as int,
            ) by {
                if x < n {
                    assert(order.contains(x));
                }
            }
            assert forall|a: int| 0 <= a < wide.len() implies #[trigger] wide[a] < n + 1 by {
                if a < p {
                    assert(wide[a] == order[a]);
                } else if a > p {
                    assert(wide[a] == order[a - 1]);
                }
            }
        } else {
            let cut = wide.take(k);
            let out = order[k - 1];
            assert(wide[k] == out);
            assert forall|a: int| 0 <= a < cut.len() implies #[trigger] cut[a] < n + 1 by {
                if a < p {
                    assert(wide[a] == order[a]);
                } else if a > p {
                    assert(wide[a] == order[a - 1]);
                }
            }
            assert forall|a: int, b: int| 0 <= a < b < cut.len() implies outranks(
                keys,
                #[trigger] cut[a] as int,
                #[trigger] cut[b] as int,
            ) by {
                assert(cut[a] == wide[a] && cut[b] == wide[b]);
            }
            assert forall|a: int, x: usize|
                #![trigger cut[a], cut.contains(x)]
                0 <= a < cut.len() && x < n + 1 && !cut.contains(x) implies outranks(
                keys,
                cut[a] as int,
                x as int,
            ) by {
                assert(cut[a] == wide[a]);
                assert(cut[p] == me);
                if x == out {
                    assert(outranks(keys, wide[a] as int, wide[k] as int));
                } else {
                    assert(x != me);
                    if order.contains(x) {
                        let q = choose|q: int| 0 <= q < order.len() && order[q] == x;
                        if q < p {
                            assert(cut[q] == x);
                        } else {
                            assert(wide[q + 1] == x);
                            assert(cut[q + 1] == x);
                        }
                    }
                    assert(!order.contains(x));
                    if a < p {
                        assert(cut[a] == order[a]);
                    } else if a == p {
                        assert(outranks(keys, order[p] as int, x as int));
                        assert(keys[order[p] as int] < keys[n]);
                    } else {
                        assert(cut[a] == order[a - 1]);
                    }
                }
            }
        }
    }
}

/// Two rankings of the same documents, cut to the same number of places,
/// agree at place `a`.
proof fn lemma_same_place(keys: Seq<u64>, k: nat, x: Seq<usize>, y: Seq<usize>, a: int)
    requires
        is_top(keys, k, x),
        is_top(keys, k, y),
        0 <= a < x.len(),
    ensures
        x[a] == y[a],
    decreases a,
{
    assert forall|c: int| 0 <= c < a implies x[c] == y[c] by {
        lemma_same_place(keys, k, x, y, c);
    }
    if x[a] != y[a] {
        if outranks(keys, x[a] as int, y[a] as int) {
            lemma_not_behind(keys, k, y, x, a);
        } else {
            lemma_not_behind(keys, k, x, y, a);
        }
    }
}

/// If two rankings agree before place `a`, the document that `y` has there
/// does not come before the one that `x` has there.
proof fn lemma_not_behind(keys: Seq<u64>, k: nat, x: Seq<usize>, y: Seq<usize>, a: int)
    requires
        is_top(keys, k, x),
        is_top(keys, k, y),
        0 <= a < x.len(),
        forall|c: int| 0 <= c < a ==> x[c] == y[c],
    ensures
        !outranks(keys, y[a] as int, x[a] as int),
{
    let d = y[a];
    if outranks(keys, d as int, x[a] as int) {
        if x.contains(d) {
            let c = choose|c: int| 0 <= c < x.len() && x[c] == d;
            if c < a {
                assert(outranks(keys, y[c] as int, y[a] as int));
            } else if c > a {
                assert(outranks(keys, x[a] as int, x[c] as int));
            }
        } else {
            assert(outranks(keys, x[a] as int, d as int));
        }
    }
}

/// A ranking is unique: the keys and the number of places decide it.
pub proof fn lemma_ranking_unique(keys: Seq<u64>, k: nat, x: Seq<usize>, y: Seq<usize>)
    requires
        is_top(keys, k, x),
        is_top(keys, k, y),
    ensures
        x == y,
{
    assert forall|a: int| 0 <= a < x.len() implies x[a] == y[a] by {
        lemma_same_place(keys, k, x, y, a);
    }
    assert(x =~= y);
}

/// A ranking has no more places than were asked for and no more than there
/// are documents; its keys never rise from one place to the next; and no
/// document is listed twice.
pub proof fn lemma_ranking_shape(keys: Seq<u64>, k: nat, order: Seq<usize>)
    requires
        is_top(keys, k, order),
    ensures
        order.len() <= k,
        order.len() <= keys.len(),
        k == 0 ==> order.len() == 0,
        forall|a: int, b: int|
            0 <= a <= b < order.len() ==> keys[#[trigger] order[a] as int]
                >= keys[#[trigger] order[b] as int],
        forall|a: int|
            0 <= a && a + 1 < order.len() ==> keys[#[trigger] order[a] as int] >= keys[order[a
                + 1] as int],
        forall|a: int, b: int|
            0 <= a < b < order.len() ==> #[trigger] order[a] != #[trigger] order[b],
{
    assert forall|a: int, b: int| 0 <= a <= b < order.len() implies keys[#[trigger] order[a] as int]
        >= keys[#[trigger] order[b] as int] by {
        if a < b {
            assert(outranks(keys, order[a] as int, order[b] as int));
        }
    }
    assert forall|a: int| 0 <= a && a + 1 < order.len() implies keys[#[trigger] order[a] as int]
        >= keys[order[a + 1] as int] by {
        assert(outranks(keys, order[a] as int, order[a + 1] as int));
    }
    assert forall|a: int, b: int| 0 <= a < b < order.len() implies #[trigger] order[a]
        != #[trigger] order[b] by {
        assert(outranks(keys, order[a] as int, order[b] as int));
    }
}

/// Ranks the documents: returns the positions of the `k` documents with
/// the largest keys, the largest first, and of all documents where there
/// are fewer than `k`. Between documents with equal keys the one that
/// stands earlier in `keys` comes first. Where there are no more documents
/// than places, each document is listed.
pub fn top_k(keys: &Vec<u64>, k: usize) -> (order: Vec<usize>)
    ensures
        is_top(keys@, k as nat, order@),
        k >= keys@.len() ==> covers(order@, keys@.len() as int),
{
    let mut order: Vec<usize> = Vec::new();
    if k == 0 {
        return order;
    }
    let mut n: usize = 0;
    while n < keys.len()
        invariant
            0 < k,
            n <= keys@.len(),
            top_of(keys@, n as int, k as int, order@),
            n <= k ==> covers(order@, n as int),
        decreases keys@.len() - n,
    {
        let key: u64 = keys[n];
        let mut p: usize = order.len();
        while p > 0 && keys[order[p - 1]] < key
            invariant
                p <= order@.len(),
                n < keys@.len(),
                key == keys@[n as int],
                forall|a: int| 0 <= a < order@.len() ==> #[trigger] order@[a] < n,
                forall|q: int| p <= q < order@.len() ==> keys@[#[trigger] order@[q] as int] < key,
            decreases p,
        {
            p -= 1;
        }
        proof {
            lemma_enter(keys@, n as int, k as int, order@, p as int);
        }
        if p < k {
            let ghost held = order@;
            order.insert(p, n);
            order.truncate(k);
            assert(held.len() < k ==> order@ =~= held.insert(p as int, n));
            assert(held.len() == k ==> order@ =~= held.insert(p as int, n).take(k as int));
        }
        n += 1;
    }
    order
}

} // verus!
