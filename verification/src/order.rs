//! The order of strings, and stable sorting.

use vstd::prelude::*;

use crate::text::strings;

verus! {

/// How one value stands to another.
#[derive(Clone, Copy, Debug, PartialEq, Eq, Structural)]
pub enum Order {
    Less,
    Equal,
    Greater,
}

impl Order {
    pub open spec fn flipped(self) -> Order {
        match self {
            Order::Less => Order::Greater,
            Order::Equal => Order::Equal,
            Order::Greater => Order::Less,
        }
    }
}

/// The order of two texts: by the first character in which they differ, and
/// a proper prefix before the longer text.
pub open spec fn text_order(a: Seq<char>, b: Seq<char>) -> Order
    decreases a.len(),
{
    if a.len() == 0 {
        if b.len() == 0 {
            Order::Equal
        } else {
            Order::Less
        }
    } else if b.len() == 0 {
        Order::Greater
    } else if a[0] < b[0] {
        Order::Less
    } else if b[0] < a[0] {
        Order::Greater
    } else {
        text_order(a.skip(1), b.skip(1))
    }
}

/// Only equal texts are equal in the order, and swapping two texts turns
/// their order round.
pub proof fn lemma_text_order_flips(a: Seq<char>, b: Seq<char>)
    ensures
        text_order(b, a) == text_order(a, b).flipped(),
        text_order(a, b) == Order::Equal <==> a == b,
    decreases a.len(),
{
    if a.len() > 0 && b.len() > 0 {
        lemma_text_order_flips(a.skip(1), b.skip(1));
        if a[0] == b[0] && a.skip(1) == b.skip(1) {
            assert(a =~= seq![a[0]] + a.skip(1));
            assert(b =~= seq![b[0]] + b.skip(1));
        }
    } else if a.len() == 0 && b.len() == 0 {
        assert(a =~= b);
    }
}

/// The order of texts is transitive.
pub proof fn lemma_text_order_chains(a: Seq<char>, b: Seq<char>, c: Seq<char>)
    requires
        text_order(a, b) != Order::Greater,
        text_order(b, c) != Order::Greater,
    ensures
        text_order(a, c) != Order::Greater,
        text_order(a, b) == Order::Less || text_order(b, c) == Order::Less ==> text_order(a, c)
            == Order::Less,
    decreases a.len(),
{
    if a.len() > 0 && b.len() > 0 && c.len() > 0 {
        if a[0] == b[0] && b[0] == c[0] {
            lemma_text_order_chains(a.skip(1), b.skip(1), c.skip(1));
        }
    }
}

/// The order of two strings.
pub fn compare_text(a: &str, b: &str) -> (r: Order)
    ensures
        r == text_order(a@, b@),
{
    let mut left = a.chars();
    let mut right = b.chars();
    let ghost mut done: nat = 0;
    assert(a@.skip(0) =~= a@);
    assert(b@.skip(0) =~= b@);
    loop
        invariant
            done <= a@.len(),
            done <= b@.len(),
            vstd::std_specs::iter::IteratorSpec::obeys_prophetic_iter_laws(&left),
            vstd::std_specs::iter::IteratorSpec::obeys_prophetic_iter_laws(&right),
            vstd::std_specs::iter::IteratorSpec::remaining(&left) == a@.skip(done as int),
            vstd::std_specs::iter::IteratorSpec::remaining(&right) == b@.skip(done as int),
            text_order(a@, b@) == text_order(a@.skip(done as int), b@.skip(done as int)),
        decreases a@.len() - done,
    {
        let x = left.next();
        let y = right.next();
        match (x, y) {
            (Some(c), Some(d)) => {
                if c < d {
                    return Order::Less;
                }
                if d < c {
                    return Order::Greater;
                }
                proof {
                    assert(a@.skip(done as int).skip(1) =~= a@.skip(done as int + 1));
                    assert(b@.skip(done as int).skip(1) =~= b@.skip(done as int + 1));
                    done = done + 1;
                }
            },
            (None, None) => {
                return Order::Equal;
            },
            (None, Some(_)) => {
                return Order::Less;
            },
            (Some(_), None) => {
                return Order::Greater;
            },
        }
    }
}

/// The order of two lists of texts: by the first element in which they
/// differ, and a proper prefix before the longer list.
pub open spec fn path_order(a: Seq<Seq<char>>, b: Seq<Seq<char>>) -> Order
    decreases a.len(),
{
    if a.len() == 0 {
        if b.len() == 0 {
            Order::Equal
        } else {
            Order::Less
        }
    } else if b.len() == 0 {
        Order::Greater
    } else {
        match text_order(a[0], b[0]) {
            Order::Equal => path_order(a.skip(1), b.skip(1)),
            o => o,
        }
    }
}

/// Only equal lists are equal in the order, and swapping two lists turns
/// their order round.
pub proof fn lemma_path_order_flips(a: Seq<Seq<char>>, b: Seq<Seq<char>>)
    ensures
        path_order(b, a) == path_order(a, b).flipped(),
        path_order(a, b) == Order::Equal <==> a == b,
    decreases a.len(),
{
    if a.len() > 0 && b.len() > 0 {
        lemma_text_order_flips(a[0], b[0]);
        lemma_path_order_flips(a.skip(1), b.skip(1));
        if a[0] == b[0] && a.skip(1) == b.skip(1) {
            assert(a =~= seq![a[0]] + a.skip(1));
            assert(b =~= seq![b[0]] + b.skip(1));
        }
    } else if a.len() == 0 && b.len() == 0 {
        assert(a =~= b);
    }
}

/// The order of lists of texts is transitive.
pub proof fn lemma_path_order_chains(a: Seq<Seq<char>>, b: Seq<Seq<char>>, c: Seq<Seq<char>>)
    requires
        path_order(a, b) != Order::Greater,
        path_order(b, c) != Order::Greater,
    ensures
        path_order(a, c) != Order::Greater,
        path_order(a, b) == Order::Less || path_order(b, c) == Order::Less ==> path_order(a, c)
            == Order::Less,
    decreases a.len(),
{
    if a.len() > 0 && b.len() > 0 && c.len() > 0 {
        lemma_text_order_chains(a[0], b[0], c[0]);
        lemma_text_order_flips(a[0], b[0]);
        lemma_text_order_flips(b[0], c[0]);
        if a[0] == b[0] && b[0] == c[0] {
            lemma_path_order_chains(a.skip(1), b.skip(1), c.skip(1));
        }
    }
}

/// The order of two lists of strings.
pub fn compare_paths(a: &Vec<String>, b: &Vec<String>) -> (r: Order)
    ensures
        r == path_order(strings(a@), strings(b@)),
{
    let mut i: usize = 0;
    assert(strings(a@).skip(0) =~= strings(a@));
    assert(strings(b@).skip(0) =~= strings(b@));
    while i < a.len() && i < b.len()
        invariant
            i <= a@.len(),
            i <= b@.len(),
            path_order(strings(a@), strings(b@)) == path_order(
                strings(a@).skip(i as int),
                strings(b@).skip(i as int),
            ),
        decreases a@.len() - i,
    {
        let o = compare_text(a[i].as_str(), b[i].as_str());
        match o {
            Order::Equal => {},
            _ => {
                return o;
            },
        }
        assert(strings(a@).skip(i as int).skip(1) =~= strings(a@).skip(i as int + 1));
        assert(strings(b@).skip(i as int).skip(1) =~= strings(b@).skip(i as int + 1));
        i += 1;
    }
    if i < b.len() {
        Order::Less
    } else if i < a.len() {
        Order::Greater
    } else {
        Order::Equal
    }
}

/// Values with a total order on what they stand for.
pub trait Ranked: View + Sized {
    spec fn order(a: Self::V, b: Self::V) -> Order;

    proof fn lemma_order_flips(a: Self::V, b: Self::V)
        ensures
            Self::order(b, a) == Self::order(a, b).flipped(),
    ;

    proof fn lemma_order_chains(a: Self::V, b: Self::V, c: Self::V)
        requires
            Self::order(a, b) != Order::Greater,
            Self::order(b, c) != Order::Greater,
        ensures
            Self::order(a, c) != Order::Greater,
    ;

    fn compare(&self, other: &Self) -> (r: Order)
        ensures
            r == Self::order(self@, other@),
    ;
}

impl Ranked for String {
    open spec fn order(a: Seq<char>, b: Seq<char>) -> Order {
        text_order(a, b)
    }

    proof fn lemma_order_flips(a: Seq<char>, b: Seq<char>) {
        lemma_text_order_flips(a, b);
    }

    proof fn lemma_order_chains(a: Seq<char>, b: Seq<char>, c: Seq<char>) {
        lemma_text_order_chains(a, b, c);
    }

    fn compare(&self, other: &Self) -> (r: Order) {
        compare_text(self.as_str(), other.as_str())
    }
}

/// What the elements of a sequence stand for.
pub open spec fn views<T: View>(s: Seq<T>) -> Seq<T::V> {
    Seq::new(s.len(), |i: int| s[i]@)
}

/// `s` with `x` put in behind every trailing element that does not come after it.
pub open spec fn inserted<T: Ranked>(s: Seq<T::V>, x: T::V) -> Seq<T::V>
    decreases s.len(),
{
    if s.len() == 0 || T::order(s.last(), x) != Order::Greater {
        s.push(x)
    } else {
        inserted::<T>(s.drop_last(), x).push(s.last())
    }
}

/// The elements of `s` in order; those that are equal in the order keep the
/// order that they have in `s`.
pub open spec fn stable_sort<T: Ranked>(s: Seq<T::V>) -> Seq<T::V>
    decreases s.len(),
{
    if s.len() == 0 {
        s
    } else {
        inserted::<T>(stable_sort::<T>(s.drop_last()), s.last())
    }
}

/// Whether no element comes after a later one.
pub open spec fn in_order<T: Ranked>(s: Seq<T::V>) -> bool {
    forall|i: int, j: int| 0 <= i < j < s.len() ==> T::order(s[i], s[j]) != Order::Greater
}

/// Where `x` goes in an ordered sequence.
proof fn lemma_inserted_at<T: Ranked>(s: Seq<T::V>, x: T::V, at: int)
    requires
        0 <= at <= s.len(),
        at == 0 || T::order(s[at - 1], x) != Order::Greater,
        forall|i: int| at <= i < s.len() ==> T::order(#[trigger] s[i], x) == Order::Greater,
    ensures
        inserted::<T>(s, x) == s.insert(at, x),
    decreases s.len(),
{
    if at == s.len() {
        assert(s.insert(at, x) =~= s.push(x));
    } else {
        lemma_inserted_at::<T>(s.drop_last(), x, at);
        assert(s.insert(at, x) =~= s.drop_last().insert(at, x).push(s.last()));
    }
}

/// Putting an element into an ordered sequence keeps the order and adds just
/// that element.
proof fn lemma_inserted_in_order<T: Ranked>(s: Seq<T::V>, x: T::V)
    requires
        in_order::<T>(s),
    ensures
        in_order::<T>(inserted::<T>(s, x)),
        inserted::<T>(s, x).to_multiset() == s.to_multiset().insert(x),
        forall|y: T::V| #[trigger]
            inserted::<T>(s, x).contains(y) <==> s.contains(y) || y == x,
    decreases s.len(),
{
    broadcast use vstd::seq_lib::group_to_multiset_ensures;

    let r = inserted::<T>(s, x);
    if s.len() == 0 || T::order(s.last(), x) != Order::Greater {
        assert forall|i: int, j: int| 0 <= i < j < r.len() implies T::order(r[i], r[j])
            != Order::Greater by {
            if j == s.len() && i < s.len() - 1 {
                T::lemma_order_chains(s[i], s.last(), x);
            }
        }
        assert forall|y: T::V| #[trigger] r.contains(y) <==> s.contains(y) || y == x by {
            if s.contains(y) {
                let i = choose|i: int| 0 <= i < s.len() && s[i] == y;
                assert(r[i] == y);
            }
            if y == x {
                assert(r[s.len() as int] == y);
            }
        }
    } else {
        let p = s.drop_last();
        let q = inserted::<T>(p, x);
        lemma_inserted_in_order::<T>(p, x);
        assert forall|i: int, j: int| 0 <= i < j < r.len() implies T::order(r[i], r[j])
            != Order::Greater by {
            if j == q.len() {
                assert(q.contains(q[i]));
                if q[i] == x {
                    T::lemma_order_flips(s.last(), x);
                } else {
                    let k = choose|k: int| 0 <= k < p.len() && p[k] == q[i];
                    assert(s[k] == q[i]);
                }
            }
        }
        assert(s =~= p.push(s.last()));
        assert(r.to_multiset() =~= s.to_multiset().insert(x));
        assert forall|y: T::V| #[trigger] r.contains(y) <==> s.contains(y) || y == x by {
            if r.contains(y) {
                let i = choose|i: int| 0 <= i < r.len() && r[i] == y;
                if i < q.len() {
                    assert(q.contains(y));
                    if y != x {
                        let k = choose|k: int| 0 <= k < p.len() && p[k] == y;
                        assert(s[k] == y);
                    }
                }
            }
            if s.contains(y) {
                let i = choose|i: int| 0 <= i < s.len() && s[i] == y;
                if i < p.len() {
                    assert(p[i] == y);
                    assert(q.contains(y));
                    let k = choose|k: int| 0 <= k < q.len() && q[k] == y;
                    assert(r[k] == y);
                } else {
                    assert(r[q.len() as int] == y);
                }
            }
            if y == x {
                assert(q.contains(y));
                let k = choose|k: int| 0 <= k < q.len() && q[k] == y;
                assert(r[k] == y);
            }
        }
    }
}

/// Sorting puts a sequence in order, and neither adds nor drops an element.
pub proof fn law_stable_sort<T: Ranked>(s: Seq<T::V>)
    ensures
        in_order::<T>(stable_sort::<T>(s)),
        stable_sort::<T>(s).to_multiset() == s.to_multiset(),
        stable_sort::<T>(s).len() == s.len(),
        forall|y: T::V| #[trigger] stable_sort::<T>(s).contains(y) <==> s.contains(y),
    decreases s.len(),
{
    broadcast use vstd::seq_lib::group_to_multiset_ensures;

    if s.len() > 0 {
        let p = s.drop_last();
        law_stable_sort::<T>(p);
        lemma_inserted_in_order::<T>(stable_sort::<T>(p), s.last());
        assert(s =~= p.push(s.last()));
        assert(stable_sort::<T>(s).to_multiset() =~= s.to_multiset());
        assert forall|y: T::V| #[trigger] stable_sort::<T>(s).contains(y) <==> s.contains(y) by {
            if s.contains(y) {
                let i = choose|i: int| 0 <= i < s.len() && s[i] == y;
                if i < p.len() {
                    assert(p[i] == y);
                }
            }
            if stable_sort::<T>(s).contains(y) && y != s.last() {
                assert(stable_sort::<T>(p).contains(y));
                let i = choose|i: int| 0 <= i < p.len() && p[i] == y;
                assert(s[i] == y);
            }
            if y == s.last() {
                assert(s[s.len() - 1] == y);
            }
        }
        stable_sort::<T>(s).to_multiset_ensures();
        s.to_multiset_ensures();
    }
}

/// Sorts a vector; elements that are equal in the order keep their places
/// relative to one another.
pub fn sort<T: Ranked>(v: &mut Vec<T>)
    ensures
        views(final(v)@) == stable_sort::<T>(views(old(v)@)),
{
    let mut rest: Vec<T> = Vec::new();
    rest.append(v);
    let ghost all = rest@;
    let mut done: Vec<T> = Vec::new();
    let n = rest.len();
    // The elements still to be sorted in; the next of them is the last.
    let mut turned: Vec<T> = Vec::new();
    while rest.len() > 0
        invariant
            rest@.len() + turned@.len() == n,
            all.len() == n,
            rest@ == all.take(rest@.len() as int),
            forall|i: int| 0 <= i < turned@.len() ==> #[trigger] turned@[i] == all[n - 1 - i],
        decreases rest@.len(),
    {
        if let Some(x) = rest.pop() {
            turned.push(x);
        }
    }
    while turned.len() > 0
        invariant
            done@.len() + turned@.len() == n,
            all.len() == n,
            forall|i: int| 0 <= i < turned@.len() ==> #[trigger] turned@[i] == all[n - 1 - i],
            views(done@) == stable_sort::<T>(views(all).take(done@.len() as int)),
        decreases turned@.len(),
    {
        let ghost k = done@.len() as int;
        let ghost before = done@;
        if let Some(x) = turned.pop() {
            proof {
                law_stable_sort::<T>(views(all).take(k));
                assert(views(all).take(k + 1).drop_last() =~= views(all).take(k));
                assert(x == all[k]);
            }
            let mut low: usize = 0;
            let mut high: usize = done.len();
            while low < high
                invariant
                    low <= high <= done@.len(),
                    in_order::<T>(views(done@)),
                    forall|i: int|
                        0 <= i < low ==> T::order(#[trigger] views(done@)[i], x@) != Order::Greater,
                    forall|i: int|
                        high <= i < done@.len() ==> T::order(#[trigger] views(done@)[i], x@)
                            == Order::Greater,
                decreases high - low,
            {
                let mid: usize = low + (high - low) / 2;
                let o = done[mid].compare(&x);
                let ghost d = views(done@);
                match o {
                    Order::Greater => {
                        proof {
                            assert forall|i: int| mid <= i < done@.len() implies T::order(
                                #[trigger] d[i],
                                x@,
                            ) == Order::Greater by {
                                if i > mid && T::order(d[i], x@) != Order::Greater {
                                    T::lemma_order_chains(d[mid as int], d[i], x@);
                                }
                            }
                        }
                        high = mid;
                    },
                    _ => {
                        proof {
                            assert forall|i: int| 0 <= i <= mid implies T::order(
                                #[trigger] d[i],
                                x@,
                            ) != Order::Greater by {
                                if i < mid {
                                    T::lemma_order_chains(d[i], d[mid as int], x@);
                                }
                            }
                        }
                        low = mid + 1;
                    },
                }
            }
            proof {
                lemma_inserted_at::<T>(views(done@), x@, low as int);
            }
            done.insert(low, x);
            assert(views(done@) =~= views(before).insert(low as int, x@));
        }
    }
    assert(views(all).take(n as int) =~= views(all));
    *v = done;
}

} // verus!
