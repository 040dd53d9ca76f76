//! Stable ordering by a key, as `slice::sort_by_key` gives it.
//!
//! A sort is described by the permutation of indices it applies: the result
//! lists the positions of the input, ordered by key, with equal keys kept in
//! their input order. These three properties determine the permutation
//! uniquely (see [`lemma_stable_order_unique`]).
use vstd::prelude::*;

verus! {

/// A key with a total preorder, and an executable comparison for it.
pub trait SortKey: Sized {
    spec fn key_le(self, other: Self) -> bool;

    proof fn lemma_key_le_total(a: Self, b: Self)
        ensures
            a.key_le(b) || b.key_le(a),
    ;

    proof fn lemma_key_le_trans(a: Self, b: Self, c: Self)
        requires
            a.key_le(b),
            b.key_le(c),
        ensures
            a.key_le(c),
    ;

    fn le(&self, other: &Self) -> (r: bool)
        ensures
            r == self.key_le(*other),
    ;
}

/// `perm` lists each index below `n` exactly once.
pub open spec fn is_index_permutation(perm: Seq<usize>, n: nat) -> bool {
    &&& perm.len() == n
    &&& forall|a: int| 0 <= a < perm.len() ==> #[trigger] perm[a] < n
    &&& forall|a: int, b: int| 0 <= a < b < perm.len() ==> perm[a] != perm[b]
}

/// The comparison a [`SortKey`] provides, as a spec function.
pub open spec fn key_order<K: SortKey>() -> spec_fn(K, K) -> bool {
    |a: K, b: K| a.key_le(b)
}

/// Reading `keys` in the order `perm` gives non-decreasing keys under `le`.
pub open spec fn ordered_by<V>(keys: Seq<V>, le: spec_fn(V, V) -> bool, perm: Seq<usize>) -> bool {
    forall|a: int, b: int|
        0 <= a < b < perm.len() ==> #[trigger] le(keys[perm[a] as int], keys[perm[b] as int])
}

/// Positions whose keys are equal under `le` keep their input order.
pub open spec fn keeps_ties_in_order<V>(keys: Seq<V>, le: spec_fn(V, V) -> bool, perm: Seq<usize>) -> bool {
    forall|a: int, b: int|
        0 <= a < b < perm.len() && #[trigger] le(keys[perm[b] as int], keys[perm[a] as int])
            ==> perm[a] < perm[b]
}

/// `perm` is the order in which a stable sort of `keys` by `le` lists them.
pub open spec fn is_stable_order_by<V>(keys: Seq<V>, le: spec_fn(V, V) -> bool, perm: Seq<usize>) -> bool {
    &&& is_index_permutation(perm, keys.len())
    &&& ordered_by(keys, le, perm)
    &&& keeps_ties_in_order(keys, le, perm)
}

/// `perm` is the order in which a stable sort by key lists `keys`.
pub open spec fn is_stable_order<K: SortKey>(keys: Seq<K>, perm: Seq<usize>) -> bool {
    is_stable_order_by(keys, key_order::<K>(), perm)
}

/// A stable order of keys is a stable order of anything compared the same way.
pub proof fn lemma_stable_order_transfer<K: SortKey, V>(
    keys: Seq<K>,
    views: Seq<V>,
    le: spec_fn(V, V) -> bool,
    perm: Seq<usize>,
)
    requires
        is_stable_order(keys, perm),
        views.len() == keys.len(),
        forall|i: int, j: int|
            0 <= i < keys.len() && 0 <= j < keys.len() ==> #[trigger] keys[i].key_le(keys[j]) == le(
                views[i],
                views[j],
            ),
    ensures
        is_stable_order_by(views, le, perm),
{
    assert forall|a: int, b: int| 0 <= a < b < perm.len() implies #[trigger] le(views[perm[a] as int], views[perm[b] as int]) by {
        assert(key_order::<K>()(keys[perm[a] as int], keys[perm[b] as int]));
        assert(keys[perm[a] as int].key_le(keys[perm[b] as int]));
    }
    assert forall|a: int, b: int| 0 <= a < b < perm.len() && #[trigger] le(views[perm[b] as int], views[perm[a] as int]) implies perm[a] < perm[b] by {
        assert(keys[perm[b] as int].key_le(keys[perm[a] as int]));
        assert(key_order::<K>()(keys[perm[b] as int], keys[perm[a] as int]));
    }
}

/// The stable order of `keys` under `le` (unique when it exists, see
/// [`lemma_stable_order_unique`]).
pub open spec fn stable_order_of<V>(keys: Seq<V>, le: spec_fn(V, V) -> bool) -> Seq<usize> {
    choose|p: Seq<usize>| is_stable_order_by(keys, le, p)
}

/// `items` listed in the stable order of their keys under `le`.
pub open spec fn sorted_by<T, V>(items: Seq<T>, keys: Seq<V>, le: spec_fn(V, V) -> bool) -> Seq<T> {
    permuted(items, stable_order_of(keys, le))
}

/// Any stable order found is the one `stable_order_of` names.
pub proof fn lemma_stable_order_of<V>(keys: Seq<V>, le: spec_fn(V, V) -> bool, p: Seq<usize>)
    requires
        is_stable_order_by(keys, le, p),
    ensures
        stable_order_of(keys, le) == p,
{
    let c = stable_order_of(keys, le);
    assert(is_stable_order_by(keys, le, c));
    lemma_stable_order_unique(keys, le, c, p);
}

/// `out` holds the elements of `items` in the order `perm`.
pub open spec fn permuted<T>(items: Seq<T>, perm: Seq<usize>) -> Seq<T> {
    Seq::new(perm.len(), |i: int| items[perm[i] as int])
}

/// The positions of `keys` in stable sorted order.
pub fn stable_order<K: SortKey>(keys: &Vec<K>) -> (perm: Vec<usize>)
    ensures
        is_stable_order(keys@, perm@),
{
    let mut perm: Vec<usize> = Vec::new();
    let n = keys.len();
    let mut i: usize = 0;
    while i < n
        invariant
            n == keys@.len(),
            i <= n,
            perm@.len() == i,
            forall|a: int| 0 <= a < perm@.len() ==> #[trigger] perm@[a] < i,
            forall|a: int, b: int| 0 <= a < b < perm@.len() ==> perm@[a] != perm@[b],
            forall|a: int, b: int|
                0 <= a < b < perm@.len() ==> #[trigger] keys@[perm@[a] as int].key_le(
                    #[trigger] keys@[perm@[b] as int],
                ),
            forall|a: int, b: int|
                0 <= a < b < perm@.len() && #[trigger] keys@[perm@[b] as int].key_le(
                    #[trigger] keys@[perm@[a] as int],
                ) ==> perm@[a] < perm@[b],
        decreases n - i,
    {
        // Find the first position whose key is strictly greater than key i.
        let mut p: usize = 0;
        while p < perm.len() && keys[perm[p]].le(&keys[i])
            invariant
                n == keys@.len(),
                i < n,
                p <= perm@.len(),
                perm@.len() == i,
                forall|a: int| 0 <= a < perm@.len() ==> #[trigger] perm@[a] < i,
                forall|a: int| 0 <= a < p ==> #[trigger] keys@[perm@[a] as int].key_le(keys@[i as int]),
            decreases perm.len() - p,
        {
            p = p + 1;
        }
        let ghost old_perm = perm@;
        proof {
            // Everything from p on is strictly greater than key i.
            assert forall|q: int| p <= q < old_perm.len() implies !#[trigger] keys@[old_perm[q] as int].key_le(keys@[i as int]) by {
                if keys@[old_perm[q] as int].key_le(keys@[i as int]) {
                    assert(!keys@[old_perm[p as int] as int].key_le(keys@[i as int]));
                    if p < q {
                        assert(keys@[old_perm[p as int] as int].key_le(keys@[old_perm[q] as int]));
                        K::lemma_key_le_trans(keys@[old_perm[p as int] as int], keys@[old_perm[q] as int], keys@[i as int]);
                    }
                }
            }
        }
        perm.insert(p, i);
        proof {
            let np = perm@;
            assert(np == old_perm.insert(p as int, i));
            assert forall|a: int| 0 <= a < np.len() implies #[trigger] np[a] < i + 1 by {
                if a < p {
                    assert(np[a] == old_perm[a]);
                } else if a > p {
                    assert(np[a] == old_perm[a - 1]);
                }
            }
            assert forall|a: int, b: int| 0 <= a < b < np.len() implies np[a] != np[b] by {
                if a < p {
                    assert(np[a] == old_perm[a]);
                } else if a > p {
                    assert(np[a] == old_perm[a - 1]);
                }
                if b < p {
                    assert(np[b] == old_perm[b]);
                } else if b > p {
                    assert(np[b] == old_perm[b - 1]);
                }
            }
            assert forall|a: int, b: int| 0 <= a < b < np.len() implies #[trigger] keys@[np[a] as int].key_le(
                #[trigger] keys@[np[b] as int],
            ) by {
                if b < p {
                    assert(np[a] == old_perm[a]);
                    assert(np[b] == old_perm[b]);
                } else if b == p {
                    assert(np[a] == old_perm[a]);
                } else if a < p {
                    assert(np[a] == old_perm[a]);
                    assert(np[b] == old_perm[b - 1]);
                } else if a == p {
                    assert(np[b] == old_perm[b - 1]);
                    assert(!keys@[old_perm[b - 1] as int].key_le(keys@[i as int]));
                    K::lemma_key_le_total(keys@[old_perm[b - 1] as int], keys@[i as int]);
                } else {
                    assert(np[a] == old_perm[a - 1]);
                    assert(np[b] == old_perm[b - 1]);
                }
            }
            assert forall|a: int, b: int| 0 <= a < b < np.len() && #[trigger] keys@[np[b] as int].key_le(
                #[trigger] keys@[np[a] as int],
            ) implies np[a] < np[b] by {
                if b < p {
                    assert(np[a] == old_perm[a]);
                    assert(np[b] == old_perm[b]);
                } else if b == p {
                    assert(np[a] == old_perm[a]);
                } else if a < p {
                    assert(np[a] == old_perm[a]);
                    assert(np[b] == old_perm[b - 1]);
                } else if a == p {
                    assert(np[b] == old_perm[b - 1]);
                } else {
                    assert(np[a] == old_perm[a - 1]);
                    assert(np[b] == old_perm[b - 1]);
                }
            }
        }
        i = i + 1;
    }
    proof {
        let le = key_order::<K>();
        assert forall|a: int, b: int| 0 <= a < b < perm@.len() implies #[trigger] le(keys@[perm@[a] as int], keys@[perm@[b] as int]) by {
            assert(keys@[perm@[a] as int].key_le(keys@[perm@[b] as int]));
        }
        assert forall|a: int, b: int| 0 <= a < b < perm@.len() && #[trigger] le(keys@[perm@[b] as int], keys@[perm@[a] as int]) implies perm@[a] < perm@[b] by {
            assert(keys@[perm@[b] as int].key_le(keys@[perm@[a] as int]));
        }
    }
    perm
}

/// Two stable orders of the same keys are the same order: a stable sort by
/// key has exactly one possible result.
pub proof fn lemma_stable_order_unique<V>(keys: Seq<V>, le: spec_fn(V, V) -> bool, p1: Seq<usize>, p2: Seq<usize>)
    requires
        is_stable_order_by(keys, le, p1),
        is_stable_order_by(keys, le, p2),
    ensures
        p1 == p2,
{
    // The position of index x in a stable order is the number of indices that
    // come before it: those with a strictly smaller key, or an equal key and a
    // smaller index. Both orders agree on that count for every index.
    assert forall|k: int| 0 <= k < p1.len() implies p1[k] == p2[k] by {
        if p1[k] != p2[k] {
            let x = p1[k];
            lemma_permutation_onto(p2, keys.len(), x as nat);
            let j = choose|j: int| 0 <= j < p2.len() && p2[j] == x;
            lemma_rank_is_position(keys, le, p1, k);
            lemma_rank_is_position(keys, le, p2, j);
            assert(k == j);
        }
    }
    assert(p1 =~= p2);
}

/// Number of indices that a stable order places before index `x`.
pub open spec fn rank<V>(keys: Seq<V>, le: spec_fn(V, V) -> bool, x: int) -> nat {
    placed_before(keys, le, x).len()
}

/// The indices that a stable order places before index `x`.
pub open spec fn placed_before<V>(keys: Seq<V>, le: spec_fn(V, V) -> bool, x: int) -> Set<int> {
    Set::new(|y: int| 0 <= y < keys.len() && y != x && comes_before(keys, le, y, x))
}

/// In a stable order, `y` comes before `x`.
pub open spec fn comes_before<V>(keys: Seq<V>, le: spec_fn(V, V) -> bool, y: int, x: int) -> bool {
    ||| !le(keys[x], keys[y])
    ||| (le(keys[y], keys[x]) && le(keys[x], keys[y]) && y < x)
}

/// An injective map from `n` positions into `n` values hits every value.
pub proof fn lemma_permutation_onto(p: Seq<usize>, n: nat, x: nat)
    requires
        is_index_permutation(p, n),
        x < n,
    ensures
        exists|j: int| 0 <= j < p.len() && p[j] == x,
{
    let vals = Set::new(|v: int| exists|j: int| 0 <= j < p.len() && p[j] == v);
    let dom = Set::new(|j: int| 0 <= j < p.len());
    assert(dom =~= vstd::set_lib::set_int_range(0, n as int));
    vstd::set_lib::lemma_int_range(0, n as int);
    let f = |j: int| p[j] as int;
    assert forall|a: int, b: int| dom.contains(a) && dom.contains(b) && #[trigger] f(a) == #[trigger] f(b) implies a == b by {
        if a < b {
            assert(p[a] != p[b]);
        } else if b < a {
            assert(p[b] != p[a]);
        }
    }
    assert(vstd::relations::injective_on(f, dom)) by {
        assert forall|a: int, b: int| dom.contains(a) && dom.contains(b) && #[trigger] f(a) == #[trigger] f(b) implies a == b by {
            if a < b {
                assert(p[a] != p[b]);
            } else if b < a {
                assert(p[b] != p[a]);
            }
        }
    }
    vstd::set_lib::lemma_map_size(dom, dom.map(f), f);
    let range = vstd::set_lib::set_int_range(0, n as int);
    assert(dom.map(f).subset_of(range)) by {
        assert forall|v: int| dom.map(f).contains(v) implies range.contains(v) by {
            let j = choose|j: int| dom.contains(j) && f(j) == v;
            assert(p[j] < n);
        }
    }
    vstd::set_lib::lemma_subset_equality(dom.map(f), range);
    assert(range.contains(x as int));
    let j = choose|j: int| dom.contains(j) && f(j) == x as int;
    assert(0 <= j < p.len() && p[j] == x);
}

proof fn lemma_rank_is_position<V>(keys: Seq<V>, le: spec_fn(V, V) -> bool, p: Seq<usize>, k: int)
    requires
        is_stable_order_by(keys, le, p),
        0 <= k < p.len(),
    ensures
        rank(keys, le, p[k] as int) == k,
{
    let x = p[k] as int;
    let before = placed_before(keys, le, x);
    let first = Set::new(|j: int| 0 <= j < k);
    let f = |j: int| p[j] as int;
    assert(first =~= vstd::set_lib::set_int_range(0, k));
    vstd::set_lib::lemma_int_range(0, k);
    assert(vstd::relations::injective_on(f, first)) by {
        assert forall|a: int, b: int| first.contains(a) && first.contains(b) && #[trigger] f(a) == #[trigger] f(b) implies a == b by {
            if a < b {
                assert(p[a] != p[b]);
            } else if b < a {
                assert(p[b] != p[a]);
            }
        }
    }
    vstd::set_lib::lemma_map_size(first, first.map(f), f);
    assert forall|y: int| before.contains(y) <==> #[trigger] first.map(f).contains(y) by {
        if before.contains(y) {
            lemma_permutation_onto(p, keys.len(), y as nat);
            let j = choose|j: int| 0 <= j < p.len() && p[j] == y;
            if j >= k {
                if j == k {
                    assert(y == x);
                } else {
                    assert(le(keys[p[k] as int], keys[p[j] as int]));
                    if le(keys[p[j] as int], keys[p[k] as int]) {
                        assert(p[k] < p[j]);
                    }
                }
                assert(false);
            }
            assert(first.contains(j) && f(j) == y);
        }
        if first.map(f).contains(y) {
            let j = choose|j: int| first.contains(j) && f(j) == y;
            assert(le(keys[p[j] as int], keys[p[k] as int]));
            assert(p[j] != p[k]);
            if le(keys[p[k] as int], keys[p[j] as int]) {
                assert(p[j] < p[k]);
            }
        }
    }
    assert(before =~= first.map(f));
    assert(first.len() == k);
    assert(first.map(f).len() == k);
}

/// `le` is a total preorder.
pub open spec fn is_total_preorder<V>(le: spec_fn(V, V) -> bool) -> bool {
    &&& forall|a: V, b: V| #[trigger] le(a, b) || le(b, a)
    &&& forall|a: V, b: V, c: V| #[trigger] le(a, b) && #[trigger] le(b, c) ==> le(a, c)
}

proof fn lemma_placed_before_bounded<V>(keys: Seq<V>, le: spec_fn(V, V) -> bool, x: int)
    requires
        0 <= x < keys.len(),
    ensures
        placed_before(keys, le, x).finite(),
        rank(keys, le, x) < keys.len(),
{
    let all = vstd::set_lib::set_int_range(0, keys.len() as int);
    vstd::set_lib::lemma_int_range(0, keys.len() as int);
    let others = all.remove(x);
    assert(placed_before(keys, le, x).subset_of(others));
    vstd::set_lib::lemma_len_subset(placed_before(keys, le, x), others);
}

/// Whatever comes before `y` also comes before `x` when `y` does.
proof fn lemma_rank_increases<V>(keys: Seq<V>, le: spec_fn(V, V) -> bool, y: int, x: int)
    requires
        is_total_preorder(le),
        0 <= x < keys.len(),
        0 <= y < keys.len(),
        y != x,
        comes_before(keys, le, y, x),
    ensures
        rank(keys, le, y) < rank(keys, le, x),
{
    lemma_placed_before_bounded(keys, le, x);
    lemma_placed_before_bounded(keys, le, y);
    let by = placed_before(keys, le, y);
    let bx = placed_before(keys, le, x);
    assert forall|z: int| by.contains(z) implies bx.contains(z) by {
        assert(le(keys[x], keys[z]) || le(keys[z], keys[x]));
        assert(le(keys[y], keys[z]) || le(keys[z], keys[y]));
        assert(le(keys[x], keys[y]) || le(keys[y], keys[x]));
        if le(keys[x], keys[z]) && le(keys[z], keys[y]) {
            assert(le(keys[x], keys[y]));
        }
        if le(keys[x], keys[y]) && le(keys[y], keys[z]) {
            assert(le(keys[x], keys[z]));
        }
        if le(keys[z], keys[y]) && le(keys[y], keys[x]) {
            assert(le(keys[z], keys[x]));
        }
        if z == x {
            assert(le(keys[x], keys[y]) && le(keys[y], keys[x]));
        }
    }
    assert(!by.contains(y));
    assert(by.insert(y).subset_of(bx));
    vstd::set_lib::lemma_len_subset(by.insert(y), bx);
}

/// Under a total preorder, every list of keys has a stable order.
pub proof fn lemma_stable_order_exists<V>(keys: Seq<V>, le: spec_fn(V, V) -> bool)
    requires
        is_total_preorder(le),
        keys.len() <= usize::MAX,
    ensures
        is_stable_order_by(keys, le, stable_order_of(keys, le)),
{
    let n = keys.len();
    let dom = vstd::set_lib::set_int_range(0, n as int);
    vstd::set_lib::lemma_int_range(0, n as int);
    let f = |x: int| rank(keys, le, x) as int;
    assert forall|x: int| 0 <= x < n implies #[trigger] rank(keys, le, x) < n by {
        lemma_placed_before_bounded(keys, le, x);
    }
    assert forall|a: int, b: int| dom.contains(a) && dom.contains(b) && a != b implies #[trigger] f(a) != #[trigger] f(b) by {
        assert(le(keys[a], keys[b]) || le(keys[b], keys[a]));
        if comes_before(keys, le, a, b) {
            lemma_rank_increases(keys, le, a, b);
        } else {
            lemma_rank_increases(keys, le, b, a);
        }
    }
    assert(vstd::relations::injective_on(f, dom));
    vstd::set_lib::lemma_map_size(dom, dom.map(f), f);
    assert(dom.map(f).subset_of(dom)) by {
        assert forall|v: int| dom.map(f).contains(v) implies dom.contains(v) by {
            let x = choose|x: int| dom.contains(x) && f(x) == v;
            assert(rank(keys, le, x) < n);
        }
    }
    vstd::set_lib::lemma_subset_equality(dom.map(f), dom);
    let p = Seq::new(n, |k: int| (choose|x: int| 0 <= x < n && rank(keys, le, x) == k) as usize);
    assert forall|k: int| 0 <= k < n implies 0 <= #[trigger] p[k] < n && rank(keys, le, p[k] as int) == k by {
        assert(dom.map(f).contains(k));
        let x = choose|x: int| dom.contains(x) && f(x) == k;
        assert(0 <= x < n && rank(keys, le, x) == k);
        let c = choose|x: int| 0 <= x < n && rank(keys, le, x) == k;
        assert(0 <= c < n && rank(keys, le, c) == k);
        assert(p[k] == c);
    }
    assert(is_index_permutation(p, n));
    assert forall|a: int, b: int| 0 <= a < b < p.len() implies #[trigger] le(keys[p[a] as int], keys[p[b] as int]) by {
        if !le(keys[p[a] as int], keys[p[b] as int]) {
            lemma_rank_increases(keys, le, p[b] as int, p[a] as int);
        }
    }
    assert forall|a: int, b: int|
        0 <= a < b < p.len() && #[trigger] le(keys[p[b] as int], keys[p[a] as int]) implies p[a] < p[b] by {
        assert(le(keys[p[a] as int], keys[p[b] as int]));
        if p[b] < p[a] {
            lemma_rank_increases(keys, le, p[b] as int, p[a] as int);
        }
    }
    assert(is_stable_order_by(keys, le, p));
}

impl SortKey for u32 {
    open spec fn key_le(self, other: Self) -> bool {
        self <= other
    }

    proof fn lemma_key_le_total(a: Self, b: Self) {
    }

    proof fn lemma_key_le_trans(a: Self, b: Self, c: Self) {
    }

    fn le(&self, other: &Self) -> (r: bool) {
        *self <= *other
    }
}

impl SortKey for (usize, u32) {
    open spec fn key_le(self, other: Self) -> bool {
        self.0 < other.0 || (self.0 == other.0 && self.1 <= other.1)
    }

    proof fn lemma_key_le_total(a: Self, b: Self) {
    }

    proof fn lemma_key_le_trans(a: Self, b: Self, c: Self) {
    }

    fn le(&self, other: &Self) -> (r: bool) {
        self.0 < other.0 || (self.0 == other.0 && self.1 <= other.1)
    }
}

// ---------------------------------------------------------------------------
// Strings compare character by character (for UTF-8 strings this is the
// byte order `String`'s `Ord` uses), a proper prefix first.
// ---------------------------------------------------------------------------

pub open spec fn chars_lt(a: Seq<char>, b: Seq<char>) -> bool
    decreases a.len(),
{
    if a.len() == 0 {
        b.len() > 0
    } else if b.len() == 0 {
        false
    } else if a[0] != b[0] {
        a[0] < b[0]
    } else {
        chars_lt(a.drop_first(), b.drop_first())
    }
}

pub proof fn lemma_chars_lt_total(a: Seq<char>, b: Seq<char>)
    ensures
        a == b || chars_lt(a, b) || chars_lt(b, a),
        !(chars_lt(a, b) && chars_lt(b, a)),
        !chars_lt(a, a),
    decreases a.len(),
{
    if a.len() > 0 && b.len() > 0 && a[0] == b[0] {
        lemma_chars_lt_total(a.drop_first(), b.drop_first());
        if a.drop_first() == b.drop_first() {
            assert(a =~= seq![a[0]] + a.drop_first());
            assert(b =~= seq![b[0]] + b.drop_first());
        }
    } else if a.len() == 0 && b.len() == 0 {
        assert(a =~= b);
    }
    if a.len() > 0 {
        lemma_chars_lt_total(a.drop_first(), a.drop_first());
    }
}

pub proof fn lemma_chars_lt_trans(a: Seq<char>, b: Seq<char>, c: Seq<char>)
    requires
        chars_lt(a, b),
        chars_lt(b, c),
    ensures
        chars_lt(a, c),
    decreases a.len(),
{
    if a.len() > 0 && b.len() > 0 && c.len() > 0 && a[0] == b[0] && b[0] == c[0] {
        lemma_chars_lt_trans(a.drop_first(), b.drop_first(), c.drop_first());
    }
}

/// Whether `a` sorts strictly before `b`.
pub fn chars_less(a: &Vec<char>, b: &Vec<char>) -> (r: bool)
    ensures
        r == chars_lt(a@, b@),
{
    let mut i: usize = 0;
    assert(a@.skip(0) =~= a@);
    assert(b@.skip(0) =~= b@);
    while i < a.len() && i < b.len()
        invariant
            i <= a@.len(),
            i <= b@.len(),
            chars_lt(a@, b@) == chars_lt(a@.skip(i as int), b@.skip(i as int)),
        decreases a.len() - i,
    {
        let ghost sa = a@.skip(i as int);
        let ghost sb = b@.skip(i as int);
        assert(sa[0] == a@[i as int]);
        assert(sb[0] == b@[i as int]);
        if a[i] != b[i] {
            return a[i] < b[i];
        }
        assert(sa.drop_first() == a@.skip(i + 1));
        assert(sb.drop_first() == b@.skip(i + 1));
        i = i + 1;
    }
    i < b.len()
}

/// The order of `Option<(String, u32)>` keys on their views: `None` first,
/// then by string, then by number.
pub open spec fn day_time_le(x: Option<(Seq<char>, nat)>, y: Option<(Seq<char>, nat)>) -> bool {
    match (x, y) {
        (None, _) => true,
        (Some(_), None) => false,
        (Some((d1, m1)), Some((d2, m2))) => chars_lt(d1, d2) || (d1 == d2 && m1 <= m2),
    }
}

pub open spec fn day_time_view(k: Option<(String, u32)>) -> Option<(Seq<char>, nat)> {
    match k {
        Some((d, m)) => Some((d@, m as nat)),
        None => None,
    }
}

impl SortKey for Option<(String, u32)> {
    open spec fn key_le(self, other: Self) -> bool {
        day_time_le(day_time_view(self), day_time_view(other))
    }

    proof fn lemma_key_le_total(a: Self, b: Self) {
        match (a, b) {
            (Some((d1, _)), Some((d2, _))) => lemma_chars_lt_total(d1@, d2@),
            _ => {},
        }
    }

    proof fn lemma_key_le_trans(a: Self, b: Self, c: Self) {
        match (a, b, c) {
            (Some((d1, _)), Some((d2, _)), Some((d3, _))) => {
                lemma_chars_lt_total(d1@, d2@);
                lemma_chars_lt_total(d2@, d3@);
                if chars_lt(d1@, d2@) && chars_lt(d2@, d3@) {
                    lemma_chars_lt_trans(d1@, d2@, d3@);
                }
            },
            _ => {},
        }
    }

    fn le(&self, other: &Self) -> (r: bool) {
        match (self, other) {
            (None, _) => true,
            (Some(_), None) => false,
            (Some((d1, m1)), Some((d2, m2))) => {
                let a = crate::text::chars_of(d1.as_str());
                let b = crate::text::chars_of(d2.as_str());
                if chars_less(&a, &b) {
                    true
                } else {
                    crate::text::same_chars(&a, &b) && *m1 <= *m2
                }
            },
        }
    }
}

impl SortKey for String {
    open spec fn key_le(self, other: Self) -> bool {
        self@ == other@ || chars_lt(self@, other@)
    }

    proof fn lemma_key_le_total(a: Self, b: Self) {
        lemma_chars_lt_total(a@, b@);
    }

    proof fn lemma_key_le_trans(a: Self, b: Self, c: Self) {
        if chars_lt(a@, b@) && chars_lt(b@, c@) {
            lemma_chars_lt_trans(a@, b@, c@);
        }
    }

    fn le(&self, other: &Self) -> (r: bool) {
        let a = crate::text::chars_of(self.as_str());
        let b = crate::text::chars_of(other.as_str());
        crate::text::same_chars(&a, &b) || chars_less(&a, &b)
    }
}

/// The order of optional texts on their views: `None` first, then by text.
pub open spec fn opt_text_le(x: Option<Seq<char>>, y: Option<Seq<char>>) -> bool {
    match (x, y) {
        (None, _) => true,
        (Some(_), None) => false,
        (Some(a), Some(b)) => a == b || chars_lt(a, b),
    }
}

pub open spec fn opt_text_view(k: Option<String>) -> Option<Seq<char>> {
    match k {
        Some(s) => Some(s@),
        None => None,
    }
}

impl SortKey for Option<String> {
    open spec fn key_le(self, other: Self) -> bool {
        opt_text_le(opt_text_view(self), opt_text_view(other))
    }

    proof fn lemma_key_le_total(a: Self, b: Self) {
        match (a, b) {
            (Some(x), Some(y)) => lemma_chars_lt_total(x@, y@),
            _ => {},
        }
    }

    proof fn lemma_key_le_trans(a: Self, b: Self, c: Self) {
        match (a, b, c) {
            (Some(x), Some(y), Some(z)) => {
                if chars_lt(x@, y@) && chars_lt(y@, z@) {
                    lemma_chars_lt_trans(x@, y@, z@);
                }
            },
            _ => {},
        }
    }

    fn le(&self, other: &Self) -> (r: bool) {
        match (self, other) {
            (None, _) => true,
            (Some(_), None) => false,
            (Some(x), Some(y)) => SortKey::le(x, y),
        }
    }
}

/// Pairs compare by their first part, and by their second where the first
/// parts tie.
impl<A: SortKey, B: SortKey> SortKey for (A, B) {
    open spec fn key_le(self, other: Self) -> bool {
        self.0.key_le(other.0) && (!other.0.key_le(self.0) || self.1.key_le(other.1))
    }

    proof fn lemma_key_le_total(a: Self, b: Self) {
        A::lemma_key_le_total(a.0, b.0);
        B::lemma_key_le_total(a.1, b.1);
    }

    proof fn lemma_key_le_trans(a: Self, b: Self, c: Self) {
        A::lemma_key_le_trans(a.0, b.0, c.0);
        if c.0.key_le(a.0) {
            A::lemma_key_le_trans(c.0, a.0, b.0);
            A::lemma_key_le_trans(b.0, c.0, a.0);
            B::lemma_key_le_trans(a.1, b.1, c.1);
        }
    }

    fn le(&self, other: &Self) -> (r: bool) {
        if !self.0.le(&other.0) {
            false
        } else if !other.0.le(&self.0) {
            true
        } else {
            self.1.le(&other.1)
        }
    }
}

} // verus!
