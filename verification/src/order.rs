//! Stable ordering of files by relative path, in the order of `str`.
use vstd::prelude::*;

use crate::text::{lemma_text_lt_order, text_less, text_lt};

verus! {

/// Values that carry a relative path by which they are ordered.
pub trait PathKeyed {
    /// The path by which the value is ordered.
    spec fn path_key(&self) -> Seq<char>;

    /// The path by which the value is ordered.
    fn path(&self) -> (p: &str)
        ensures
            p@ == self.path_key(),
    ;
}

/// The position at which an element with key `k` enters `s` so that it
/// follows every element whose key is not greater than `k` (searching from
/// the end).
pub open spec fn insertion_point<T>(s: Seq<T>, key: spec_fn(T) -> Seq<char>, k: Seq<char>) -> int
    decreases s.len(),
{
    if s.len() == 0 {
        0
    } else if text_lt(k, key(s.last())) {
        insertion_point(s.drop_last(), key, k)
    } else {
        s.len() as int
    }
}

/// The stable sort of `s` by `key`: elements in key order, elements with
/// equal keys in their original order.
pub open spec fn sort_by_key<T>(s: Seq<T>, key: spec_fn(T) -> Seq<char>) -> Seq<T>
    decreases s.len(),
{
    if s.len() == 0 {
        s
    } else {
        let r = sort_by_key(s.drop_last(), key);
        r.insert(insertion_point(r, key, key(s.last())), s.last())
    }
}

/// Every element's key is not greater than the keys after it.
pub open spec fn is_sorted_by_key<T>(s: Seq<T>, key: spec_fn(T) -> Seq<char>) -> bool {
    forall|i: int, j: int| 0 <= i < j < s.len() ==> !text_lt(#[trigger] key(s[j]), #[trigger] key(s[i]))
}

/// Keys strictly increase along `s`.
pub open spec fn is_strictly_sorted_by_key<T>(s: Seq<T>, key: spec_fn(T) -> Seq<char>) -> bool {
    forall|i: int, j: int| 0 <= i < j < s.len() ==> text_lt(#[trigger] key(s[i]), #[trigger] key(s[j]))
}

/// No two elements of `s` share a key.
pub open spec fn keys_distinct<T>(s: Seq<T>, key: spec_fn(T) -> Seq<char>) -> bool {
    forall|i: int, j: int| 0 <= i < s.len() && 0 <= j < s.len() && i != j ==> #[trigger] key(s[i]) != #[trigger] key(s[j])
}

/// In a sorted sequence, the insertion point separates the keys not greater
/// than `k` from those greater than `k`.
proof fn lemma_insertion_point<T>(s: Seq<T>, key: spec_fn(T) -> Seq<char>, k: Seq<char>)
    requires
        is_sorted_by_key(s, key),
    ensures
        0 <= insertion_point(s, key, k) <= s.len(),
        forall|i: int| 0 <= i < insertion_point(s, key, k) ==> !text_lt(k, #[trigger] key(s[i])),
        forall|i: int| insertion_point(s, key, k) <= i < s.len() ==> text_lt(k, #[trigger] key(s[i])),
    decreases s.len(),
{
    if s.len() > 0 {
        let p = s.drop_last();
        assert(is_sorted_by_key(p, key)) by {
            assert forall|i: int, j: int| 0 <= i < j < p.len() implies !text_lt(#[trigger] key(p[j]), #[trigger] key(p[i])) by {
                assert(p[i] == s[i] && p[j] == s[j]);
            }
        }
        lemma_insertion_point(p, key, k);
        if text_lt(k, key(s.last())) {
            assert forall|i: int| 0 <= i < insertion_point(s, key, k) implies !text_lt(k, #[trigger] key(s[i])) by {
                assert(p[i] == s[i]);
            }
            assert forall|i: int| insertion_point(s, key, k) <= i < s.len() implies text_lt(k, #[trigger] key(s[i])) by {
                if i < s.len() - 1 {
                    assert(p[i] == s[i]);
                }
            }
        } else {
            assert forall|i: int| 0 <= i < s.len() implies !text_lt(k, #[trigger] key(s[i])) by {
                if i < s.len() - 1 {
                    assert(!text_lt(key(s[s.len() - 1]), key(s[i])));
                    lemma_text_lt_order(k, key(s[i]), key(s[s.len() - 1]));
                    lemma_text_lt_order(key(s[i]), key(s[s.len() - 1]), k);
                    lemma_text_lt_order(k, key(s[s.len() - 1]), key(s[i]));
                }
            }
        }
    }
}

/// Inserting at the insertion point keeps a sorted sequence sorted.
proof fn lemma_insert_sorted<T>(s: Seq<T>, key: spec_fn(T) -> Seq<char>, x: T)
    requires
        is_sorted_by_key(s, key),
    ensures
        is_sorted_by_key(s.insert(insertion_point(s, key, key(x)), x), key),
{
    let p = insertion_point(s, key, key(x));
    lemma_insertion_point(s, key, key(x));
    let r = s.insert(p, x);
    assert forall|i: int, j: int| 0 <= i < j < r.len() implies !text_lt(#[trigger] key(r[j]), #[trigger] key(r[i])) by {
        if i < p && j < p {
            assert(r[i] == s[i] && r[j] == s[j]);
        } else if i < p && j == p {
            assert(r[i] == s[i]);
        } else if i < p && j > p {
            assert(r[i] == s[i] && r[j] == s[j - 1]);
            assert(!text_lt(key(x), key(s[i])));
            assert(text_lt(key(x), key(s[j - 1])));
            lemma_text_lt_order(key(s[j - 1]), key(s[i]), key(x));
            lemma_text_lt_order(key(x), key(s[j - 1]), key(s[i]));
        } else if i == p {
            assert(r[j] == s[j - 1]);
            lemma_text_lt_order(key(x), key(s[j - 1]), key(x));
        } else {
            assert(r[i] == s[i - 1] && r[j] == s[j - 1]);
        }
    }
}

/// The stable sort is sorted and holds the same elements.
pub proof fn lemma_sort_by_key<T>(s: Seq<T>, key: spec_fn(T) -> Seq<char>)
    ensures
        is_sorted_by_key(sort_by_key(s, key), key),
        sort_by_key(s, key).to_multiset() == s.to_multiset(),
        sort_by_key(s, key).len() == s.len(),
    decreases s.len(),
{
    broadcast use vstd::seq_lib::group_to_multiset_ensures;

    if s.len() > 0 {
        let r = sort_by_key(s.drop_last(), key);
        lemma_sort_by_key(s.drop_last(), key);
        lemma_insert_sorted(r, key, s.last());
        lemma_insertion_point(r, key, key(s.last()));
        let p = insertion_point(r, key, key(s.last()));
        r.insert_ensures(p, s.last());
        lemma_insert_multiset(r, p, s.last());
        assert(s =~= s.drop_last().push(s.last()));
    }
}

proof fn lemma_insert_multiset<T>(s: Seq<T>, p: int, x: T)
    requires
        0 <= p <= s.len(),
    ensures
        s.insert(p, x).to_multiset() == s.to_multiset().insert(x),
{
    broadcast use vstd::seq_lib::group_to_multiset_ensures;

    let a = s.subrange(0, p);
    let b = s.subrange(p, s.len() as int);
    assert(s =~= a + b);
    assert(s.insert(p, x) =~= a.push(x) + b);
    vstd::seq_lib::lemma_multiset_commutative(a, b);
    vstd::seq_lib::lemma_multiset_commutative(a.push(x), b);
}

/// Sorting commutes with a map that preserves keys.
pub proof fn lemma_sort_map<A, B>(
    s: Seq<A>,
    key_a: spec_fn(A) -> Seq<char>,
    f: spec_fn(A) -> B,
    key_b: spec_fn(B) -> Seq<char>,
)
    requires
        forall|a: A| #[trigger] key_b(f(a)) == key_a(a),
    ensures
        sort_by_key(s, key_a).map_values(f) == sort_by_key(s.map_values(f), key_b),
    decreases s.len(),
{
    if s.len() > 0 {
        let ra = sort_by_key(s.drop_last(), key_a);
        lemma_sort_map(s.drop_last(), key_a, f, key_b);
        assert(s.map_values(f).drop_last() =~= s.drop_last().map_values(f));
        lemma_insertion_point_map(ra, key_a, f, key_b, key_a(s.last()));
        let p = insertion_point(ra, key_a, key_a(s.last()));
        lemma_insertion_point_range(ra, key_a, key_a(s.last()));
        assert(ra.insert(p, s.last()).map_values(f) =~= ra.map_values(f).insert(p, f(s.last())));
    }
}

proof fn lemma_insertion_point_range<T>(s: Seq<T>, key: spec_fn(T) -> Seq<char>, k: Seq<char>)
    ensures
        0 <= insertion_point(s, key, k) <= s.len(),
    decreases s.len(),
{
    if s.len() > 0 {
        lemma_insertion_point_range(s.drop_last(), key, k);
    }
}

proof fn lemma_insertion_point_map<A, B>(
    s: Seq<A>,
    key_a: spec_fn(A) -> Seq<char>,
    f: spec_fn(A) -> B,
    key_b: spec_fn(B) -> Seq<char>,
    k: Seq<char>,
)
    requires
        forall|a: A| #[trigger] key_b(f(a)) == key_a(a),
    ensures
        insertion_point(s, key_a, k) == insertion_point(s.map_values(f), key_b, k),
    decreases s.len(),
{
    if s.len() > 0 {
        assert(s.map_values(f).drop_last() =~= s.drop_last().map_values(f));
        assert(key_b(f(s.last())) == key_a(s.last()));
        lemma_insertion_point_map(s.drop_last(), key_a, f, key_b, k);
    }
}

/// Two sequences with strictly increasing keys and the same elements are
/// equal.
pub proof fn lemma_strictly_sorted_unique<T>(a: Seq<T>, b: Seq<T>, key: spec_fn(T) -> Seq<char>)
    requires
        is_strictly_sorted_by_key(a, key),
        is_strictly_sorted_by_key(b, key),
        forall|x: T| a.contains(x) <==> b.contains(x),
    ensures
        a == b,
    decreases a.len() + b.len(),
{
    if a.len() == 0 || b.len() == 0 {
        if a.len() > 0 {
            assert(a.contains(a[0]));
        }
        if b.len() > 0 {
            assert(b.contains(b[0]));
        }
        assert(a =~= b);
    } else {
        assert(a.contains(a[0]));
        let j = choose|j: int| 0 <= j < b.len() && b[j] == a[0];
        assert(b.contains(b[0]));
        let i = choose|i: int| 0 <= i < a.len() && a[i] == b[0];
        if j > 0 {
            assert(text_lt(key(b[0]), key(b[j])));
            if i > 0 {
                assert(text_lt(key(a[0]), key(a[i])));
                lemma_text_lt_order(key(a[0]), key(b[0]), key(a[0]));
            } else {
                lemma_text_lt_order(key(a[0]), key(a[0]), key(a[0]));
            }
        } else if i > 0 {
            assert(text_lt(key(a[0]), key(a[i])));
            lemma_text_lt_order(key(a[0]), key(a[0]), key(a[0]));
        }
        assert(a[0] == b[0]);
        let a1 = a.drop_first();
        let b1 = b.drop_first();
        assert forall|x: T| a1.contains(x) <==> b1.contains(x) by {
            if a1.contains(x) {
                let k = choose|k: int| 0 <= k < a1.len() && a1[k] == x;
                assert(a.contains(x));
                let m = choose|m: int| 0 <= m < b.len() && b[m] == x;
                assert(text_lt(key(a[0]), key(a[k + 1])));
                if m == 0 {
                    lemma_text_lt_order(key(x), key(x), key(x));
                }
                assert(b1[m - 1] == x);
            }
            if b1.contains(x) {
                let k = choose|k: int| 0 <= k < b1.len() && b1[k] == x;
                assert(b.contains(x));
                let m = choose|m: int| 0 <= m < a.len() && a[m] == x;
                assert(text_lt(key(b[0]), key(b[k + 1])));
                if m == 0 {
                    lemma_text_lt_order(key(x), key(x), key(x));
                }
                assert(a1[m - 1] == x);
            }
        }
        lemma_strictly_sorted_unique(a1, b1, key);
        assert(a =~= seq![a[0]] + a1);
        assert(b =~= seq![b[0]] + b1);
    }
}

/// Sorting keeps exactly the elements of the sequence.
pub proof fn lemma_sort_contains<T>(s: Seq<T>, key: spec_fn(T) -> Seq<char>)
    ensures
        forall|x: T| sort_by_key(s, key).contains(x) <==> s.contains(x),
    decreases s.len(),
{
    broadcast use vstd::seq_lib::group_to_multiset_ensures;

    lemma_sort_by_key(s, key);
    assert forall|x: T| sort_by_key(s, key).contains(x) <==> s.contains(x) by {
        assert(sort_by_key(s, key).to_multiset().count(x) == s.to_multiset().count(x));
    }
}

/// Sorting a sequence whose keys are distinct gives strictly increasing
/// keys.
pub proof fn lemma_sort_strict<T>(s: Seq<T>, key: spec_fn(T) -> Seq<char>)
    requires
        keys_distinct(s, key),
    ensures
        is_strictly_sorted_by_key(sort_by_key(s, key), key),
    decreases s.len(),
{
    if s.len() > 0 {
        let p = s.drop_last();
        let x = s.last();
        assert(keys_distinct(p, key)) by {
            assert forall|i: int, j: int| 0 <= i < p.len() && 0 <= j < p.len() && i != j implies #[trigger] key(p[i]) != #[trigger] key(p[j]) by {
                assert(p[i] == s[i] && p[j] == s[j]);
            }
        }
        lemma_sort_strict(p, key);
        let r = sort_by_key(p, key);
        lemma_sort_by_key(p, key);
        lemma_sort_contains(p, key);
        lemma_insertion_point(r, key, key(x));
        let ip = insertion_point(r, key, key(x));
        let q = r.insert(ip, x);
        assert forall|i: int| 0 <= i < r.len() implies #[trigger] key(r[i]) != key(x) by {
            assert(r.contains(r[i]));
            assert(p.contains(r[i]));
            let m = choose|m: int| 0 <= m < p.len() && p[m] == r[i];
            assert(s[m] == p[m]);
            assert(key(s[m]) != key(s[s.len() - 1]));
        }
        assert forall|i: int, j: int| 0 <= i < j < q.len() implies text_lt(#[trigger] key(q[i]), #[trigger] key(q[j])) by {
            if i < ip && j < ip {
                assert(q[i] == r[i] && q[j] == r[j]);
            } else if i < ip && j == ip {
                assert(q[i] == r[i]);
                lemma_text_lt_order(key(x), key(r[i]), key(x));
            } else if i < ip && j > ip {
                assert(q[i] == r[i] && q[j] == r[j - 1]);
            } else if i == ip {
                assert(q[j] == r[j - 1]);
            } else {
                assert(q[i] == r[i - 1] && q[j] == r[j - 1]);
            }
        }
    }
}

/// Sorting a sequence that is already sorted leaves it unchanged.
pub proof fn lemma_sort_sorted<T>(s: Seq<T>, key: spec_fn(T) -> Seq<char>)
    requires
        is_sorted_by_key(s, key),
    ensures
        sort_by_key(s, key) == s,
    decreases s.len(),
{
    if s.len() > 0 {
        let p = s.drop_last();
        assert(is_sorted_by_key(p, key)) by {
            assert forall|i: int, j: int| 0 <= i < j < p.len() implies !text_lt(
                #[trigger] key(p[j]),
                #[trigger] key(p[i]),
            ) by {
                assert(p[i] == s[i] && p[j] == s[j]);
            }
        }
        lemma_sort_sorted(p, key);
        if p.len() > 0 {
            assert(!text_lt(key(s[s.len() - 1]), key(s[s.len() - 2])));
            assert(p.last() == s[s.len() - 2]);
        }
        assert(insertion_point(p, key, key(s.last())) == p.len());
        assert(p.insert(p.len() as int, s.last()) =~= s);
    }
}

/// The position before which `k` is inserted: the first element whose key is
/// greater than `k`.
fn upper_bound<T: PathKeyed>(v: &Vec<T>, k: &str) -> (p: usize)
    requires
        is_sorted_by_key(v@, |t: T| t.path_key()),
    ensures
        p == insertion_point(v@, |t: T| t.path_key(), k@),
{
    let ghost key = |t: T| t.path_key();
    proof {
        lemma_insertion_point(v@, key, k@);
    }
    let mut lo: usize = 0;
    let mut hi: usize = v.len();
    while lo < hi
        invariant
            0 <= lo <= hi <= v@.len(),
            key == (|t: T| t.path_key()),
            lo <= insertion_point(v@, key, k@) <= hi,
            forall|i: int| 0 <= i < insertion_point(v@, key, k@) ==> !text_lt(k@, #[trigger] key(v@[i])),
            forall|i: int| insertion_point(v@, key, k@) <= i < v@.len() ==> text_lt(k@, #[trigger] key(v@[i])),
        decreases hi - lo,
    {
        let mid = lo + (hi - lo) / 2;
        assert(key(v@[mid as int]) == v@[mid as int].path_key());
        if text_less(k, v[mid].path()) {
            hi = mid;
        } else {
            lo = mid + 1;
        }
    }
    lo
}

/// The stable sort of `v` by relative path.
pub fn sort_by_path<T: PathKeyed>(v: Vec<T>) -> (r: Vec<T>)
    ensures
        r@ == sort_by_key(v@, |t: T| t.path_key()),
{
    let ghost key = |t: T| t.path_key();
    let ghost input = v@;
    let mut r: Vec<T> = Vec::new();
    for x in it: v.into_iter()
        invariant
            key == (|t: T| t.path_key()),
            it.seq() == input,
            r@ == sort_by_key(input.take(it.index() as int), key),
    {
        proof {
            lemma_sort_by_key(input.take(it.index() as int), key);
        }
        let p = upper_bound(&r, x.path());
        proof {
            lemma_insertion_point_range(r@, key, key(x));
        }
        r.insert(p, x);
        proof {
            assert(input.take(it.index() + 1).drop_last() =~= input.take(it.index() as int));
        }
    }
    proof {
        assert(input.take(input.len() as int) =~= input);
    }
    r
}

} // verus!
