//! Association lists with unique keys, and executable set operations on
//! duplicate-free vectors. These are the building blocks for the grammar's
//! production map and for the FIRST/FOLLOW symbol maps.

use vstd::prelude::*;
use vstd::std_specs::cmp::PartialEqSpec;

verus! {

/// Holds when the executable `==` of `T` decides logical equality, so that a
/// comparison in executable code tells us exactly which values are equal.
pub open spec fn reflects_eq<T: PartialEq>() -> bool {
    &&& T::obeys_eq_spec()
    &&& forall|a: T, b: T| #[trigger] a.eq_spec(&b) <==> a == b
}

/// Index of the first entry of `m` whose key is `k`, or `-1` when there is none.
pub open spec fn key_index<K, V>(m: Seq<(K, V)>, k: K) -> int
    decreases m.len(),
{
    if m.len() == 0 {
        -1
    } else if m[0].0 == k {
        0
    } else {
        let r = key_index(m.drop_first(), k);
        if r == -1 {
            -1
        } else {
            r + 1
        }
    }
}

pub open spec fn has_key<K, V>(m: Seq<(K, V)>, k: K) -> bool {
    key_index(m, k) >= 0
}

/// The value stored under key `k`; meaningful only when `has_key(m, k)`.
pub open spec fn value_of<K, V>(m: Seq<(K, V)>, k: K) -> V {
    m[key_index(m, k)].1
}

pub proof fn lemma_key_index<K, V>(m: Seq<(K, V)>, k: K)
    ensures
        key_index(m, k) >= -1,
        key_index(m, k) == -1 <==> (forall|j: int|
            0 <= j < m.len() ==> (#[trigger] m[j]).0 != k),
        key_index(m, k) >= 0 ==> {
            &&& key_index(m, k) < m.len()
            &&& m[key_index(m, k)].0 == k
            &&& forall|j: int| 0 <= j < key_index(m, k) ==> (#[trigger] m[j]).0 != k
        },
    decreases m.len(),
{
    if m.len() > 0 && m[0].0 != k {
        let d = m.drop_first();
        lemma_key_index(d, k);
        assert forall|j: int| 0 <= j < d.len() implies #[trigger] d[j] == m[j + 1] by {}
        let r = key_index(d, k);
        if r == -1 {
            assert forall|j: int| 0 <= j < m.len() implies (#[trigger] m[j]).0 != k by {
                if j >= 1 {
                    assert(d[j - 1].0 != k);
                    assert(d[j - 1] == m[j]);
                }
            }
        } else {
            assert(key_index(m, k) == r + 1);
            assert(m[r + 1] == d[r]);
            assert(m[r + 1].0 == k);
            assert forall|j: int| 0 <= j < r + 1 implies (#[trigger] m[j]).0 != k by {
                if j >= 1 {
                    assert(d[j - 1].0 != k);
                    assert(d[j - 1] == m[j]);
                }
            }
        }
    }
}

/// The first index of `m` at which a key equal to `k` stands, as an option.
pub fn find_key<K: PartialEq, V>(m: &Vec<(K, V)>, k: &K) -> (r: Option<usize>)
    requires
        reflects_eq::<K>(),
    ensures
        match r {
            Some(i) => i == key_index(m@, *k) && i < m@.len() && m@[i as int].0 == *k,
            None => key_index(m@, *k) == -1,
        },
{
    let n = m.len();
    let mut i: usize = 0;
    while i < n
        invariant
            reflects_eq::<K>(),
            n == m@.len(),
            i <= n,
            forall|j: int| 0 <= j < i ==> (#[trigger] m@[j]).0 != *k,
        decreases n - i,
    {
        if m[i].0.eq(k) {
            proof {
                lemma_key_index(m@, *k);
                let ki = key_index(m@, *k);
                if ki == -1 {
                    assert(m@[i as int].0 != *k);
                } else if ki < i {
                    assert(m@[ki].0 == *k);
                } else if ki > i {
                    assert(m@[i as int].0 != *k);
                }
            }
            return Some(i);
        }
        i += 1;
    }
    proof {
        lemma_key_index(m@, *k);
        let ki = key_index(m@, *k);
        if ki >= 0 {
            assert(m@[ki].0 == *k);
        }
    }
    None
}

/// Whether `v` holds an element equal to `x`.
pub fn vec_contains<T: PartialEq>(v: &Vec<T>, x: &T) -> (r: bool)
    requires
        reflects_eq::<T>(),
    ensures
        r == v@.contains(*x),
{
    let n = v.len();
    let mut i: usize = 0;
    while i < n
        invariant
            reflects_eq::<T>(),
            n == v@.len(),
            i <= n,
            forall|j: int| 0 <= j < i ==> v@[j] != *x,
        decreases n - i,
    {
        if v[i].eq(x) {
            return true;
        }
        i += 1;
    }
    false
}

/// Adds `x` to the duplicate-free vector `v` when it is not yet present.
/// Reports whether an element was added.
pub fn set_insert<T: PartialEq + Copy>(v: &mut Vec<T>, x: &T) -> (added: bool)
    requires
        reflects_eq::<T>(),
    ensures
        added == !old(v)@.contains(*x),
        added ==> final(v)@ == old(v)@.push(*x),
        !added ==> final(v)@ == old(v)@,
        forall|y: T| #[trigger] final(v)@.contains(y) <==> (old(v)@.contains(y) || y == *x),
        (forall|a: int, b: int| 0 <= a < b < old(v)@.len() ==> old(v)@[a] != old(v)@[b])
            ==> (forall|a: int, b: int|
            0 <= a < b < final(v)@.len() ==> final(v)@[a] != final(v)@[b]),
        final(v)@.len() >= old(v)@.len(),
        added ==> final(v)@.len() == old(v)@.len() + 1,
{
    if vec_contains(v, x) {
        false
    } else {
        v.push(*x);
        proof {
            lemma_push_contains(old(v)@, *x);
            if forall|a: int, b: int|
                0 <= a < b < old(v)@.len() ==> old(v)@[a] != old(v)@[b] {
                assert forall|a: int, b: int|
                    0 <= a < b < v@.len() implies v@[a] != v@[b] by {
                    if b == old(v)@.len() {
                        assert(old(v)@.contains(old(v)@[a]));
                    }
                }
            }
        }
        true
    }
}

pub proof fn lemma_push_contains<A>(s: Seq<A>, x: A)
    ensures
        forall|y: A| #[trigger] s.push(x).contains(y) <==> (s.contains(y) || y == x),
{
    assert forall|y: A| #[trigger] s.push(x).contains(y) implies (s.contains(y) || y == x) by {
        let i = choose|i: int| 0 <= i < s.push(x).len() && s.push(x)[i] == y;
        if i < s.len() {
            assert(s[i] == y);
        }
    }
    assert forall|y: A| s.contains(y) || y == x implies #[trigger] s.push(x).contains(y) by {
        if s.contains(y) {
            let i = choose|i: int| 0 <= i < s.len() && s[i] == y;
            assert(s.push(x)[i] == y);
        } else {
            assert(s.push(x)[s.len() as int] == y);
        }
    }
}

pub proof fn lemma_filter_push<A>(s: Seq<A>, pred: spec_fn(A) -> bool, x: A)
    ensures
        s.push(x).filter(pred) == if pred(x) {
            s.filter(pred).push(x)
        } else {
            s.filter(pred)
        },
{
    reveal(Seq::filter);
    assert(s.push(x).drop_last() =~= s);
    assert(s.push(x).last() == x);
}

/// Filtering a sequence with a first element keeps that element exactly
/// when it satisfies the predicate.
pub proof fn lemma_filter_add_first<A>(s: Seq<A>, pred: spec_fn(A) -> bool, x: A)
    ensures
        seq![x].add(s).filter(pred) == if pred(x) {
            seq![x].add(s.filter(pred))
        } else {
            s.filter(pred)
        },
    decreases s.len(),
{
    reveal(Seq::filter);
    let u = seq![x].add(s);
    if s.len() == 0 {
        assert(u =~= seq![x]);
        assert(u.drop_last() =~= Seq::<A>::empty());
        assert(u.last() == x);
        assert(u.filter(pred) == if pred(x) {
            Seq::<A>::empty().filter(pred).push(x)
        } else {
            Seq::<A>::empty().filter(pred)
        });
        assert(Seq::<A>::empty().filter(pred) == Seq::<A>::empty());
        assert(s.filter(pred) == Seq::<A>::empty());
        if pred(x) {
            assert(u.filter(pred) =~= seq![x].add(s.filter(pred)));
        } else {
            assert(u.filter(pred) =~= s.filter(pred));
        }
    } else {
        assert(u.drop_last() =~= seq![x].add(s.drop_last()));
        assert(u.last() == s.last());
        lemma_filter_add_first(s.drop_last(), pred, x);
        let ihl = seq![x].add(s.drop_last()).filter(pred);
        assert(u.drop_last().filter(pred) == ihl);
        assert(u.filter(pred) == if pred(s.last()) {
            ihl.push(s.last())
        } else {
            ihl
        });
        assert(s.filter(pred) == if pred(s.last()) {
            s.drop_last().filter(pred).push(s.last())
        } else {
            s.drop_last().filter(pred)
        });
        if pred(x) {
            assert(ihl == seq![x].add(s.drop_last().filter(pred)));
            if pred(s.last()) {
                assert(ihl.push(s.last()) =~= seq![x].add(
                    s.drop_last().filter(pred).push(s.last()),
                ));
            }
            assert(u.filter(pred) =~= seq![x].add(s.filter(pred)));
        } else {
            assert(ihl == s.drop_last().filter(pred));
            assert(u.filter(pred) =~= s.filter(pred));
        }
    }
}

pub proof fn lemma_filter_subset<A>(s: Seq<A>, pred: spec_fn(A) -> bool, x: A)
    requires
        s.filter(pred).contains(x),
    ensures
        s.contains(x),
        pred(x),
    decreases s.len(),
{
    reveal(Seq::filter);
    if s.len() > 0 {
        if s.last() == x && pred(x) {
            assert(s[s.len() - 1] == x);
        } else {
            if s.drop_last().filter(pred).contains(x) {
                lemma_filter_subset(s.drop_last(), pred, x);
                let i = choose|i: int|
                    0 <= i < s.drop_last().len() && s.drop_last()[i] == x;
                assert(s[i] == x);
            } else {
                let fs = s.filter(pred);
                let i = choose|i: int| 0 <= i < fs.len() && fs[i] == x;
                if pred(s.last()) {
                    assert(fs == s.drop_last().filter(pred).push(s.last()));
                    assert(s.drop_last().filter(pred).contains(x) || x == s.last());
                }
            }
        }
    }
}

pub proof fn lemma_filter_absent<A>(s: Seq<A>, pred: spec_fn(A) -> bool)
    requires
        forall|i: int| 0 <= i < s.len() ==> !pred(#[trigger] s[i]),
    ensures
        s.filter(pred) == Seq::<A>::empty(),
    decreases s.len(),
{
    reveal(Seq::filter);
    if s.len() > 0 {
        assert(!pred(s[s.len() - 1]));
        assert forall|i: int| 0 <= i < s.drop_last().len() implies !pred(
            #[trigger] s.drop_last()[i],
        ) by {
            assert(s.drop_last()[i] == s[i]);
        }
        lemma_filter_absent(s.drop_last(), pred);
    }
}

/// Adds every element of `src` that is missing from the duplicate-free vector
/// `dst`. Reports whether anything was added.
pub fn insert_all<T: PartialEq + Copy>(dst: &mut Vec<T>, src: &Vec<T>) -> (added: bool)
    requires
        reflects_eq::<T>(),
    ensures
        forall|y: T| #[trigger]
            final(dst)@.contains(y) <==> (old(dst)@.contains(y) || src@.contains(y)),
        (forall|a: int, b: int| 0 <= a < b < old(dst)@.len() ==> old(dst)@[a] != old(dst)@[b])
            ==> (forall|a: int, b: int|
            0 <= a < b < final(dst)@.len() ==> final(dst)@[a] != final(dst)@[b]),
        final(dst)@.len() >= old(dst)@.len(),
        added == (final(dst)@.len() > old(dst)@.len()),
        !added ==> final(dst)@ == old(dst)@,
{
    let n = src.len();
    let mut i: usize = 0;
    let mut added = false;
    while i < n
        invariant
            reflects_eq::<T>(),
            n == src@.len(),
            i <= n,
            forall|y: T| #[trigger]
                dst@.contains(y) <==> (old(dst)@.contains(y) || src@.take(i as int).contains(
                    y,
                )),
            (forall|a: int, b: int| 0 <= a < b < old(dst)@.len() ==> old(dst)@[a] != old(
                dst,
            )@[b]) ==> (forall|a: int, b: int|
                0 <= a < b < dst@.len() ==> dst@[a] != dst@[b]),
            dst@.len() >= old(dst)@.len(),
            added == (dst@.len() > old(dst)@.len()),
            !added ==> dst@ == old(dst)@,
        decreases n - i,
    {
        let a = set_insert(dst, &src[i]);
        added = added || a;
        proof {
            let tk = src@.take(i + 1 as int);
            assert(tk.drop_last() =~= src@.take(i as int));
            assert(tk.last() == src@[i as int]);
            lemma_push_contains(src@.take(i as int), src@[i as int]);
            assert(tk =~= src@.take(i as int).push(src@[i as int]));
        }
        i += 1;
    }
    proof {
        assert(src@.take(n as int) =~= src@);
    }
    added
}

/// Like `insert_all`, but leaves out the elements equal to `excluded`.
pub fn insert_all_except<T: PartialEq + Copy>(dst: &mut Vec<T>, src: &Vec<T>, excluded: &T) -> (
    added: bool)
    requires
        reflects_eq::<T>(),
    ensures
        forall|y: T| #[trigger]
            final(dst)@.contains(y) <==> (old(dst)@.contains(y) || (src@.contains(y) && y
                != *excluded)),
        (forall|a: int, b: int| 0 <= a < b < old(dst)@.len() ==> old(dst)@[a] != old(dst)@[b])
            ==> (forall|a: int, b: int|
            0 <= a < b < final(dst)@.len() ==> final(dst)@[a] != final(dst)@[b]),
        final(dst)@.len() >= old(dst)@.len(),
        added == (final(dst)@.len() > old(dst)@.len()),
        !added ==> final(dst)@ == old(dst)@,
{
    let n = src.len();
    let mut i: usize = 0;
    let mut added = false;
    while i < n
        invariant
            reflects_eq::<T>(),
            n == src@.len(),
            i <= n,
            forall|y: T| #[trigger]
                dst@.contains(y) <==> (old(dst)@.contains(y) || (src@.take(i as int).contains(y)
                    && y != *excluded)),
            (forall|a: int, b: int| 0 <= a < b < old(dst)@.len() ==> old(dst)@[a] != old(
                dst,
            )@[b]) ==> (forall|a: int, b: int|
                0 <= a < b < dst@.len() ==> dst@[a] != dst@[b]),
            dst@.len() >= old(dst)@.len(),
            added == (dst@.len() > old(dst)@.len()),
            !added ==> dst@ == old(dst)@,
        decreases n - i,
    {
        if !src[i].eq(excluded) {
            let a = set_insert(dst, &src[i]);
            added = added || a;
        }
        proof {
            let tk = src@.take(i + 1 as int);
            assert(tk.drop_last() =~= src@.take(i as int));
            assert(tk.last() == src@[i as int]);
            lemma_push_contains(src@.take(i as int), src@[i as int]);
            assert(tk =~= src@.take(i as int).push(src@[i as int]));
        }
        i += 1;
    }
    proof {
        assert(src@.take(n as int) =~= src@);
    }
    added
}

/// A duplicate-free sequence whose elements all come from `u` is no longer
/// than `u`.
pub proof fn lemma_distinct_subset_len<T>(s: Seq<T>, u: Seq<T>)
    requires
        forall|a: int, b: int| 0 <= a < b < s.len() ==> s[a] != s[b],
        forall|y: T| s.contains(y) ==> u.contains(y),
    ensures
        s.len() <= u.len(),
{
    broadcast use vstd::seq_lib::group_seq_lib_default;
    broadcast use vstd::set::group_set_axioms;

    assert(s.no_duplicates());
    s.unique_seq_to_set();
    u.lemma_cardinality_of_set();
    assert forall|y: T| s.to_set().contains(y) implies u.to_set().contains(y) by {
        assert(s.contains(y));
        assert(u.contains(y));
    }
    vstd::set_lib::lemma_len_subset(s.to_set(), u.to_set());
}

/// The summed lengths of the value vectors of an association list.
pub open spec fn total_vals_len<K, T>(m: Seq<(K, Vec<T>)>) -> nat
    decreases m.len(),
{
    if m.len() == 0 {
        0
    } else {
        total_vals_len(m.drop_last()) + m.last().1@.len()
    }
}

pub proof fn lemma_total_vals_update<K, T>(m: Seq<(K, Vec<T>)>, i: int, e: (K, Vec<T>))
    requires
        0 <= i < m.len(),
    ensures
        total_vals_len(m.update(i, e)) + m[i].1@.len() == total_vals_len(m) + e.1@.len(),
    decreases m.len(),
{
    let m2 = m.update(i, e);
    if i == m.len() - 1 {
        assert(m2.drop_last() =~= m.drop_last());
        assert(m2.last() == e);
    } else {
        assert(m2.drop_last() =~= m.drop_last().update(i, e));
        assert(m2.last() == m.last());
        lemma_total_vals_update(m.drop_last(), i, e);
        assert(m.drop_last()[i] == m[i]);
    }
}

pub proof fn lemma_total_vals_bound<K, T>(m: Seq<(K, Vec<T>)>, cap: nat)
    requires
        forall|i: int| 0 <= i < m.len() ==> (#[trigger] m[i]).1@.len() <= cap,
    ensures
        total_vals_len(m) <= m.len() * cap,
    decreases m.len(),
{
    if m.len() > 0 {
        assert forall|i: int|
            0 <= i < m.drop_last().len() implies (#[trigger] m.drop_last()[i]).1@.len()
            <= cap by {
            assert(m.drop_last()[i] == m[i]);
        }
        lemma_total_vals_bound(m.drop_last(), cap);
        assert(m.last() == m[m.len() - 1]);
        assert((m.len() - 1) * cap + cap == m.len() * cap) by (nonlinear_arith);
    }
}

/// A fresh vector holding the same elements as `v`.
pub fn copy_vec<T: Copy>(v: &Vec<T>) -> (r: Vec<T>)
    ensures
        r@ == v@,
{
    let n = v.len();
    let mut r: Vec<T> = Vec::new();
    let mut i: usize = 0;
    while i < n
        invariant
            n == v@.len(),
            i <= n,
            r@ == v@.take(i as int),
        decreases n - i,
    {
        r.push(v[i]);
        assert(r@ =~= v@.take(i + 1 as int));
        i += 1;
    }
    assert(r@ =~= v@);
    r
}

} // verus!
