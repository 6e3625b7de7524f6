//! What holds of every sort.

use vstd::prelude::*;

use crate::order::{
    in_order, inserted, law_stable_sort, lemma_text_order_flips, path_order, stable_sort,
    text_order, Order, Ranked,
};

verus! {

/// The elements of `s` that are equal to `x` in the order, as they follow each
/// other in `s`.
pub open spec fn alike<T: Ranked>(s: Seq<T::V>, x: T::V) -> Seq<T::V>
    decreases s.len(),
{
    if s.len() == 0 {
        s
    } else if T::order(s.last(), x) == Order::Equal {
        alike::<T>(s.drop_last(), x).push(s.last())
    } else {
        alike::<T>(s.drop_last(), x)
    }
}

proof fn lemma_inserted_alike<T: Ranked>(s: Seq<T::V>, e: T::V, x: T::V)
    ensures
        alike::<T>(inserted::<T>(s, e), x) == alike::<T>(s.push(e), x),
    decreases s.len(),
{
    reveal_with_fuel(alike, 3);
    assert(s.push(e).drop_last() =~= s);
    if s.len() > 0 && T::order(s.last(), e) == Order::Greater {
        let p = s.drop_last();
        let r = inserted::<T>(p, e);
        lemma_inserted_alike::<T>(p, e, x);
        assert(r.push(s.last()).drop_last() =~= r);
        assert(p.push(e).drop_last() =~= p);
        // The last element and `e` are not equal, so they are not both equal
        // to `x`.
        if T::order(s.last(), x) == Order::Equal && T::order(e, x) == Order::Equal {
            T::lemma_order_flips(e, x);
            T::lemma_order_chains(s.last(), x, e);
        }
    }
}

/// Sorting is stable: elements that are equal in the order follow each other
/// as they did before.
pub proof fn law_sort_stable<T: Ranked>(s: Seq<T::V>, x: T::V)
    ensures
        alike::<T>(stable_sort::<T>(s), x) == alike::<T>(s, x),
    decreases s.len(),
{
    if s.len() > 0 {
        let p = s.drop_last();
        law_sort_stable::<T>(p, x);
        let q = stable_sort::<T>(p);
        lemma_inserted_alike::<T>(q, s.last(), x);
        assert(q.push(s.last()).drop_last() =~= q);
    }
}

/// Two ordered lists of the same elements are the same list, if no two
/// different elements are equal in the order.
proof fn lemma_in_order_unique<T: Ranked>(a: Seq<T::V>, b: Seq<T::V>)
    requires
        in_order::<T>(a),
        in_order::<T>(b),
        a.to_multiset() == b.to_multiset(),
        forall|x: T::V, y: T::V|
            a.contains(x) && a.contains(y) && #[trigger] T::order(x, y) == Order::Equal ==> x == y,
    ensures
        a == b,
    decreases a.len(),
{
    broadcast use vstd::seq_lib::group_to_multiset_ensures;

    a.to_multiset_ensures();
    b.to_multiset_ensures();
    assert(a.len() == b.len());
    if a.len() > 0 {
        let x = a.last();
        let y = b.last();
        assert(a.contains(x) && b.contains(y));
        assert(a.to_multiset().count(x) > 0);
        assert(b.to_multiset().count(y) > 0);
        assert(b.contains(x));
        assert(a.contains(y));
        let i = choose|i: int| 0 <= i < b.len() && b[i] == x;
        let j = choose|j: int| 0 <= j < a.len() && a[j] == y;
        T::lemma_order_flips(x, y);
        if x != y {
            assert(T::order(b[i], b[b.len() - 1]) != Order::Greater);
            assert(T::order(a[j], a[a.len() - 1]) != Order::Greater);
            assert(T::order(x, y) == Order::Equal);
        }
        assert(x == y);
        let p = a.drop_last();
        let q = b.drop_last();
        assert(a =~= p.push(x));
        assert(b =~= q.push(y));
        assert(p.to_multiset() =~= a.to_multiset().remove(x));
        assert(q.to_multiset() =~= b.to_multiset().remove(y));
        assert forall|u: T::V| p.contains(u) implies a.contains(u) by {
            let k = choose|k: int| 0 <= k < p.len() && p[k] == u;
            assert(a[k] == u);
        }
        lemma_in_order_unique::<T>(p, q);
    } else {
        assert(a =~= b);
    }
}

/// The same elements are sorted to the same list, however they are arranged,
/// if no two different elements are equal in the order.
pub proof fn law_sort_canonical<T: Ranked>(a: Seq<T::V>, b: Seq<T::V>)
    requires
        a.to_multiset() == b.to_multiset(),
        forall|x: T::V, y: T::V|
            a.contains(x) && a.contains(y) && #[trigger] T::order(x, y) == Order::Equal ==> x == y,
    ensures
        stable_sort::<T>(a) == stable_sort::<T>(b),
{
    law_stable_sort::<T>(a);
    law_stable_sort::<T>(b);
    lemma_in_order_unique::<T>(stable_sort::<T>(a), stable_sort::<T>(b));
}

/// The same texts are sorted to the same list, however they are arranged.
pub proof fn law_sort_texts(a: Seq<Seq<char>>, b: Seq<Seq<char>>)
    requires
        a.to_multiset() == b.to_multiset(),
    ensures
        stable_sort::<String>(a) == stable_sort::<String>(b),
{
    assert forall|x: Seq<char>, y: Seq<char>| #[trigger]
        String::order(x, y) == Order::Equal implies x == y by {
        lemma_text_order_flips(x, y);
    }
    law_sort_canonical::<String>(a, b);
}

/// Texts are ordered by the first character in which they differ; where one is
/// the start of the other, it comes first.
pub proof fn law_text_order(common: Seq<char>, a: Seq<char>, b: Seq<char>)
    requires
        a.len() > 0 && b.len() > 0 ==> a[0] != b[0],
    ensures
        text_order(common + a, common + b) == if a.len() == 0 && b.len() == 0 {
            Order::Equal
        } else if a.len() == 0 || (b.len() > 0 && a[0] < b[0]) {
            Order::Less
        } else {
            Order::Greater
        },
    decreases common.len(),
{
    let x = common + a;
    let y = common + b;
    if common.len() == 0 {
        assert(x =~= a);
        assert(y =~= b);
    } else {
        assert(x[0] == common[0] && y[0] == common[0]);
        assert(x.skip(1) =~= common.skip(1) + a);
        assert(y.skip(1) =~= common.skip(1) + b);
        law_text_order(common.skip(1), a, b);
    }
}

/// Paths are ordered by the first component in which they differ; where one is
/// the start of the other, it comes first.
pub proof fn law_path_order(common: Seq<Seq<char>>, a: Seq<Seq<char>>, b: Seq<Seq<char>>)
    requires
        a.len() > 0 && b.len() > 0 ==> a[0] != b[0],
    ensures
        path_order(common + a, common + b) == if a.len() == 0 && b.len() == 0 {
            Order::Equal
        } else if a.len() == 0 {
            Order::Less
        } else if b.len() == 0 {
            Order::Greater
        } else {
            text_order(a[0], b[0])
        },
    decreases common.len(),
{
    let x = common + a;
    let y = common + b;
    if common.len() == 0 {
        assert(x =~= a);
        assert(y =~= b);
        if a.len() > 0 && b.len() > 0 {
            lemma_text_order_flips(a[0], b[0]);
        }
    } else {
        lemma_text_order_flips(common[0], common[0]);
        assert(x[0] == common[0] && y[0] == common[0]);
        assert(x.skip(1) =~= common.skip(1) + a);
        assert(y.skip(1) =~= common.skip(1) + b);
        law_path_order(common.skip(1), a, b);
    }
}

} // verus!
