//! Stable ordering of item indices by integer keys.
//!
//! The simulation sorts agents into lanes and bus trips by departure time.
//! Both orderings are expressed here as a stable sort of item indices by a
//! `u128` key: ties keep their index order.
use vstd::prelude::*;

verus! {

/// Index `i` comes strictly before index `j` when its key is smaller, or the
/// keys are equal and `i` is the earlier item (stability).
pub open spec fn key_lt(keys: Seq<u128>, i: usize, j: usize) -> bool {
    ||| keys[i as int] < keys[j as int]
    ||| (keys[i as int] == keys[j as int] && i < j)
}

/// `s` is strictly increasing in the stable key order.
pub open spec fn sorted_by_key(keys: Seq<u128>, s: Seq<usize>) -> bool {
    forall|a: int, b: int| 0 <= a < b < s.len() ==> #[trigger] key_lt(keys, s[a], s[b])
}

/// Every element of `s` lies in `[lo, hi)`.
pub open spec fn within(s: Seq<usize>, lo: int, hi: int) -> bool {
    forall|a: int| 0 <= a < s.len() ==> lo <= #[trigger] s[a] < hi
}

/// Merge two key-sorted index runs taken from disjoint index ranges.
fn merge_runs(keys: &Vec<u128>, a: Vec<usize>, b: Vec<usize>, Ghost(lo): Ghost<int>, Ghost(mid): Ghost<int>, Ghost(hi): Ghost<int>) -> (r: Vec<usize>)
    requires
        0 <= lo <= mid <= hi <= keys@.len(),
        sorted_by_key(keys@, a@),
        sorted_by_key(keys@, b@),
        within(a@, lo, mid),
        within(b@, mid, hi),
    ensures
        sorted_by_key(keys@, r@),
        within(r@, lo, hi),
        r@.len() == a@.len() + b@.len(),
{
    let mut r: Vec<usize> = Vec::new();
    let mut i: usize = 0;
    let mut j: usize = 0;
    while i < a.len() || j < b.len()
        invariant
            0 <= lo <= mid <= hi <= keys@.len(),
            sorted_by_key(keys@, a@),
            sorted_by_key(keys@, b@),
            within(a@, lo, mid),
            within(b@, mid, hi),
            i <= a@.len(),
            j <= b@.len(),
            r@.len() == i + j,
            sorted_by_key(keys@, r@),
            within(r@, lo, hi),
            i < a@.len() ==> forall|k: int| 0 <= k < r@.len() ==> key_lt(keys@, #[trigger] r@[k], a@[i as int]),
            j < b@.len() ==> forall|k: int| 0 <= k < r@.len() ==> key_lt(keys@, #[trigger] r@[k], b@[j as int]),
        decreases a@.len() + b@.len() - i - j,
    {
        let take_a = if i >= a.len() {
            false
        } else if j >= b.len() {
            true
        } else {
            keys[a[i]] <= keys[b[j]]
        };
        if take_a {
            let x = a[i];
            proof {
                assert(lo <= x < mid);
                if j < b@.len() {
                    assert(mid <= b@[j as int]);
                    assert(key_lt(keys@, x, b@[j as int]));
                }
            }
            r.push(x);
            i = i + 1;
            proof {
                if i < a@.len() {
                    assert(key_lt(keys@, a@[i - 1], a@[i as int]));
                }
                assert forall|p: int, q: int| 0 <= p < q < r@.len() implies #[trigger] key_lt(keys@, r@[p], r@[q]) by {
                    if q == r@.len() - 1 {
                        assert(r@[p] == r@.drop_last()[p]);
                    } else {
                        assert(r@[p] == r@.drop_last()[p]);
                        assert(r@[q] == r@.drop_last()[q]);
                    }
                }
            }
        } else {
            let y = b[j];
            proof {
                assert(mid <= y < hi);
            }
            r.push(y);
            j = j + 1;
            proof {
                if j < b@.len() {
                    assert(key_lt(keys@, b@[j - 1], b@[j as int]));
                }
                assert forall|p: int, q: int| 0 <= p < q < r@.len() implies #[trigger] key_lt(keys@, r@[p], r@[q]) by {
                    if q == r@.len() - 1 {
                        assert(r@[p] == r@.drop_last()[p]);
                    } else {
                        assert(r@[p] == r@.drop_last()[p]);
                        assert(r@[q] == r@.drop_last()[q]);
                    }
                }
            }
        }
    }
    r
}

/// Sort the indices `lo..hi` by key, stably.
fn sort_range(keys: &Vec<u128>, lo: usize, hi: usize) -> (r: Vec<usize>)
    requires
        lo <= hi,
        hi <= keys@.len(),
    ensures
        sorted_by_key(keys@, r@),
        within(r@, lo as int, hi as int),
        r@.len() == hi - lo,
    decreases hi - lo,
{
    if hi - lo == 0 {
        Vec::new()
    } else if hi - lo == 1 {
        let mut r = Vec::new();
        r.push(lo);
        r
    } else {
        let mid = lo + (hi - lo) / 2;
        let a = sort_range(keys, lo, mid);
        let b = sort_range(keys, mid, hi);
        merge_runs(keys, a, b, Ghost(lo as int), Ghost(mid as int), Ghost(hi as int))
    }
}

/// The indices `0..keys.len()` ordered by key; equal keys keep index order.
pub fn stable_order_by_key(keys: &Vec<u128>) -> (r: Vec<usize>)
    ensures
        r@.len() == keys@.len(),
        within(r@, 0, keys@.len() as int),
        sorted_by_key(keys@, r@),
{
    let n = keys.len();
    sort_range(keys, 0, n)
}

/// A key-sorted list of `n` indices drawn from `0..n` lists every index once.
pub proof fn lemma_sorted_is_permutation(keys: Seq<u128>, s: Seq<usize>, n: usize)
    requires
        s.len() == n,
        n <= keys.len(),
        within(s, 0, n as int),
        sorted_by_key(keys, s),
    ensures
        s.no_duplicates(),
        forall|i: usize| i < n ==> s.contains(i),
{
    assert forall|a: int, b: int| 0 <= a < s.len() && 0 <= b < s.len() && a != b implies s[a] != s[b] by {
        if a < b {
            assert(key_lt(keys, s[a], s[b]));
        } else {
            assert(key_lt(keys, s[b], s[a]));
        }
    }
    s.unique_seq_to_set();
    assert forall|i: usize| i < n implies s.contains(i) by {
        if !s.contains(i) {
            let full = Set::<usize>::range(0usize, n);
            <usize as vstd::set_lib::FiniteRange>::range_properties(0usize, n);
            let without = full.remove(i);
            assert(s.to_set().subset_of(without)) by {
                assert forall|x: usize| s.to_set().contains(x) implies without.contains(x) by {
                    let k = choose|k: int| 0 <= k < s.len() && s[k] == x;
                    assert(within(s, 0, n as int));
                    assert(0 <= s[k] < n);
                }
            }
            assert(full.contains(i));
            vstd::set_lib::lemma_len_subset(s.to_set(), without);
        }
    }
}

} // verus!
