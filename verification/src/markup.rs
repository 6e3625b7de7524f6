//! Finding things in the markup of a page.

use vstd::prelude::*;

use crate::text::{first_match, lemma_first_match_is, occurs_at, Pattern};

verus! {

/// At how many places `p` stands in a text.
pub open spec fn count_of(s: Seq<char>, p: Seq<char>) -> nat
    decreases s.len(),
{
    if s.len() == 0 {
        0
    } else if p.is_prefix_of(s) {
        1 + count_of(s.skip(1), p)
    } else {
        count_of(s.skip(1), p)
    }
}

/// The stretch of a text from `from` to the next quotation mark.
pub open spec fn value_at(s: Seq<char>, from: int) -> Seq<char> {
    s.skip(from).take(first_match(s.skip(from), Pattern::Char('"')) as int)
}

/// What stands from `from` to the next quotation mark, at each place where `p`
/// stands in a text.
pub open spec fn values_of(s: Seq<char>, p: Seq<char>, from: int) -> Seq<Seq<char>>
    decreases s.len(),
{
    if s.len() == 0 {
        seq![]
    } else if p.is_prefix_of(s) {
        seq![value_at(s, from)] + values_of(s.skip(1), p, from)
    } else {
        values_of(s.skip(1), p, from)
    }
}

/// There are as many values as places.
pub proof fn lemma_values_counted(s: Seq<char>, p: Seq<char>, from: int)
    ensures
        values_of(s, p, from).len() == count_of(s, p),
    decreases s.len(),
{
    if s.len() > 0 {
        lemma_values_counted(s.skip(1), p, from);
    }
}

/// Whether `p` may start at a position of `a`: it does not differ from `a` as
/// far as that goes.
pub open spec fn may_start(a: Seq<char>, p: Seq<char>, i: int) -> bool {
    forall|k: int| 0 <= k < p.len() && i + k < a.len() ==> a[i + k] == #[trigger] p[k]
}

/// Whether `p` starts nowhere in `a`, whatever comes after it.
pub open spec fn inert(a: Seq<char>, p: Seq<char>) -> bool {
    forall|i: int| 0 <= i < a.len() ==> !#[trigger] may_start(a, p, i)
}

/// Whether `p` stands at `n` places that start in `a`, whatever comes after it.
pub open spec fn counts(a: Seq<char>, p: Seq<char>, n: nat) -> bool {
    forall|tail: Seq<char>| #[trigger] count_of(a + tail, p) == n + count_of(tail, p)
}

/// Whether the values at the places that start in `a` are those of `list`,
/// whatever comes after it.
pub open spec fn yields(a: Seq<char>, p: Seq<char>, from: int, list: Seq<Seq<char>>) -> bool {
    forall|tail: Seq<char>| #[trigger]
        values_of(a + tail, p, from) == list + values_of(tail, p, from)
}

proof fn lemma_prefix_may_start(a: Seq<char>, tail: Seq<char>, p: Seq<char>)
    requires
        p.is_prefix_of(a + tail),
    ensures
        may_start(a, p, 0),
{
    assert forall|k: int| 0 <= k < p.len() && 0 + k < a.len() implies a[0 + k] == #[trigger] p[k] by {
        assert((a + tail).subrange(0, p.len() as int)[k] == (a + tail)[k]);
    }
}

proof fn lemma_may_start_skip(a: Seq<char>, p: Seq<char>, i: int)
    requires
        0 <= i < a.skip(1).len(),
        may_start(a.skip(1), p, i),
    ensures
        may_start(a, p, i + 1),
{
    assert forall|k: int| 0 <= k < p.len() && (i + 1) + k < a.len() implies a[(i + 1) + k]
        == #[trigger] p[k] by {
        assert(a.skip(1)[i + k] == a[(i + 1) + k]);
    }
}

pub proof fn lemma_inert_skip(a: Seq<char>, p: Seq<char>)
    requires
        inert(a, p),
        a.len() > 0,
    ensures
        inert(a.skip(1), p),
{
    assert forall|i: int| 0 <= i < a.skip(1).len() implies !#[trigger] may_start(
        a.skip(1),
        p,
        i,
    ) by {
        if may_start(a.skip(1), p, i) {
            lemma_may_start_skip(a, p, i);
            assert(!may_start(a, p, i + 1));
        }
    }
}

pub proof fn lemma_inert_counts(a: Seq<char>, p: Seq<char>)
    requires
        inert(a, p),
    ensures
        counts(a, p, 0),
    decreases a.len(),
{
    assert forall|tail: Seq<char>| #[trigger] count_of(a + tail, p) == 0 + count_of(tail, p) by {
        if a.len() == 0 {
            assert(a + tail =~= tail);
        } else {
            lemma_inert_skip(a, p);
            lemma_inert_counts(a.skip(1), p);
            assert((a + tail).skip(1) =~= a.skip(1) + tail);
            assert(!may_start(a, p, 0));
            if p.is_prefix_of(a + tail) {
                lemma_prefix_may_start(a, tail, p);
            }
            assert(count_of(a.skip(1) + tail, p) == 0 + count_of(tail, p));
        }
    }
}

pub proof fn lemma_inert_yields(a: Seq<char>, p: Seq<char>, from: int)
    requires
        inert(a, p),
    ensures
        yields(a, p, from, seq![]),
    decreases a.len(),
{
    let none = Seq::<Seq<char>>::empty();
    assert forall|tail: Seq<char>| #[trigger] values_of(a + tail, p, from) == none + values_of(
        tail,
        p,
        from,
    ) by {
        assert(none + values_of(tail, p, from) =~= values_of(tail, p, from));
        if a.len() == 0 {
            assert(a + tail =~= tail);
        } else {
            lemma_inert_skip(a, p);
            lemma_inert_yields(a.skip(1), p, from);
            assert((a + tail).skip(1) =~= a.skip(1) + tail);
            assert(!may_start(a, p, 0));
            if p.is_prefix_of(a + tail) {
                lemma_prefix_may_start(a, tail, p);
            }
            assert(values_of(a.skip(1) + tail, p, from) == none + values_of(tail, p, from));
        }
    }
}

/// Whether `p` stands at `at` in `a` and starts nowhere else.
pub open spec fn alone(a: Seq<char>, p: Seq<char>, at: int) -> bool {
    &&& 0 <= at
    &&& at + p.len() <= a.len()
    &&& a.subrange(at, at + p.len()) == p
    &&& forall|i: int| 0 <= i < a.len() && i != at ==> !#[trigger] may_start(a, p, i)
}

proof fn lemma_alone_skip(a: Seq<char>, p: Seq<char>, at: int)
    requires
        alone(a, p, at),
        at > 0,
    ensures
        alone(a.skip(1), p, at - 1),
{
    let b = a.skip(1);
    assert(b.subrange(at - 1, at - 1 + p.len()) =~= a.subrange(at, at + p.len()));
    assert forall|i: int| 0 <= i < b.len() && i != at - 1 implies !#[trigger] may_start(b, p, i) by {
        if may_start(b, p, i) {
            lemma_may_start_skip(a, p, i);
            assert(!may_start(a, p, i + 1));
        }
    }
}

proof fn lemma_alone_inert(a: Seq<char>, p: Seq<char>)
    requires
        alone(a, p, 0),
        p.len() > 0,
    ensures
        inert(a.skip(1), p),
{
    assert forall|i: int| 0 <= i < a.skip(1).len() implies !#[trigger] may_start(
        a.skip(1),
        p,
        i,
    ) by {
        if may_start(a.skip(1), p, i) {
            lemma_may_start_skip(a, p, i);
            assert(!may_start(a, p, i + 1));
        }
    }
}

pub proof fn lemma_alone_counts(a: Seq<char>, p: Seq<char>, at: int)
    requires
        alone(a, p, at),
        p.len() > 0,
    ensures
        counts(a, p, 1),
    decreases a.len(),
{
    assert forall|tail: Seq<char>| #[trigger] count_of(a + tail, p) == 1 + count_of(tail, p) by {
        assert((a + tail).skip(1) =~= a.skip(1) + tail);
        if at > 0 {
            lemma_alone_skip(a, p, at);
            lemma_alone_counts(a.skip(1), p, at - 1);
            assert(!may_start(a, p, 0));
            if p.is_prefix_of(a + tail) {
                lemma_prefix_may_start(a, tail, p);
            }
            assert(count_of(a.skip(1) + tail, p) == 1 + count_of(tail, p));
        } else {
            assert((a + tail).subrange(0, p.len() as int) =~= p);
            lemma_alone_inert(a, p);
            lemma_inert_counts(a.skip(1), p);
            assert(count_of(a.skip(1) + tail, p) == 0 + count_of(tail, p));
        }
    }
}

pub proof fn lemma_alone_yields(a: Seq<char>, p: Seq<char>, from: int, at: int, value: Seq<char>)
    requires
        alone(a, p, at),
        p.len() > 0,
        0 <= from,
        at + from + value.len() < a.len(),
        a.subrange(at + from, at + from + value.len()) == value,
        a[at + from + value.len()] == '"',
        !value.contains('"'),
    ensures
        yields(a, p, from, seq![value]),
    decreases a.len(),
{
    assert forall|tail: Seq<char>| #[trigger] values_of(a + tail, p, from) == seq![value]
        + values_of(tail, p, from) by {
        let s = a + tail;
        let b = a.skip(1);
        assert(s.skip(1) =~= b + tail);
        if at > 0 {
            lemma_alone_skip(a, p, at);
            assert(b.subrange(at - 1 + from, at - 1 + from + value.len()) =~= value) by {
                assert(a.subrange(at + from, at + from + value.len()) =~= b.subrange(
                    at - 1 + from,
                    at - 1 + from + value.len(),
                ));
            }
            lemma_alone_yields(b, p, from, at - 1, value);
            assert(!may_start(a, p, 0));
            if p.is_prefix_of(s) {
                lemma_prefix_may_start(a, tail, p);
            }
            assert(values_of(b + tail, p, from) == seq![value] + values_of(tail, p, from));
        } else {
            assert(s.subrange(0, p.len() as int) =~= p);
            lemma_alone_inert(a, p);
            lemma_inert_yields(b, p, from);
            let none = Seq::<Seq<char>>::empty();
            assert(values_of(b + tail, p, from) == none + values_of(tail, p, from));
            assert(none + values_of(tail, p, from) =~= values_of(tail, p, from));
            let t = s.skip(from);
            let n = value.len() as int;
            assert forall|i: int| 0 <= i < n implies !Pattern::Char('"').admits(
                #[trigger] t[i],
            ) by {
                assert(a.subrange(from, from + n)[i] == t[i]);
                assert(value.contains(value[i]));
            }
            assert(t[n] == a[from + n]);
            lemma_first_match_is(t, Pattern::Char('"'), n);
            assert(t.take(n) =~= value) by {
                assert forall|i: int| 0 <= i < n implies t.take(n)[i] == value[i] by {
                    assert(a.subrange(from, from + n)[i] == t[i]);
                }
            }
        }
    }
}

pub proof fn lemma_counts_add(a: Seq<char>, m: nat, b: Seq<char>, n: nat, p: Seq<char>)
    requires
        counts(a, p, m),
        counts(b, p, n),
    ensures
        counts(a + b, p, m + n),
{
    assert forall|tail: Seq<char>| #[trigger] count_of((a + b) + tail, p) == (m + n) + count_of(
        tail,
        p,
    ) by {
        assert((a + b) + tail =~= a + (b + tail));
        assert(count_of(a + (b + tail), p) == m + count_of(b + tail, p));
        assert(count_of(b + tail, p) == n + count_of(tail, p));
    }
}

pub proof fn lemma_yields_add(
    a: Seq<char>,
    x: Seq<Seq<char>>,
    b: Seq<char>,
    y: Seq<Seq<char>>,
    p: Seq<char>,
    from: int,
)
    requires
        yields(a, p, from, x),
        yields(b, p, from, y),
    ensures
        yields(a + b, p, from, x + y),
{
    assert forall|tail: Seq<char>| #[trigger] values_of((a + b) + tail, p, from) == (x + y)
        + values_of(tail, p, from) by {
        assert((a + b) + tail =~= a + (b + tail));
        assert(values_of(a + (b + tail), p, from) == x + values_of(b + tail, p, from));
        assert(values_of(b + tail, p, from) == y + values_of(tail, p, from));
        assert((x + y) + values_of(tail, p, from) =~= x + (y + values_of(tail, p, from)));
    }
}

/// What a text yields where nothing comes after it.
pub proof fn lemma_whole(a: Seq<char>, p: Seq<char>)
    ensures
        forall|n: nat| #[trigger] counts(a, p, n) ==> count_of(a, p) == n,
        forall|from: int, list: Seq<Seq<char>>| #[trigger]
            yields(a, p, from, list) ==> values_of(a, p, from) == list,
{
    let none = Seq::<char>::empty();
    assert(a + none =~= a);
    assert forall|n: nat| #[trigger] counts(a, p, n) implies count_of(a, p) == n by {
        assert(count_of(a + none, p) == n + count_of(none, p));
    }
    assert forall|from: int, list: Seq<Seq<char>>| #[trigger]
        yields(a, p, from, list) implies values_of(a, p, from) == list by {
        assert(values_of(a + none, p, from) == list + values_of(none, p, from));
        assert(list + values_of(none, p, from) =~= list);
    }
}

/// Whether wherever `q` stands in a text, `p` stands and has the value `v`.
pub open spec fn refines(q: Seq<char>, p: Seq<char>, from: int, v: Seq<char>) -> bool {
    forall|s: Seq<char>| #[trigger]
        q.is_prefix_of(s) ==> p.is_prefix_of(s) && value_at(s, from) == v
}

proof fn lemma_value_found(s: Seq<char>, q: Seq<char>, p: Seq<char>, from: int, v: Seq<char>)
    requires
        refines(q, p, from, v),
        count_of(s, q) > 0,
    ensures
        values_of(s, p, from).contains(v),
    decreases s.len(),
{
    let all = values_of(s, p, from);
    let rest = values_of(s.skip(1), p, from);
    if q.is_prefix_of(s) {
        assert(all[0] == v);
    } else {
        lemma_value_found(s.skip(1), q, p, from, v);
        let i = choose|i: int| 0 <= i < rest.len() && rest[i] == v;
        if p.is_prefix_of(s) {
            assert(all[i + 1] == v);
        } else {
            assert(all[i] == v);
        }
    }
}

/// What has one value does not stand at two places.
pub proof fn lemma_once(s: Seq<char>, q: Seq<char>, p: Seq<char>, from: int, v: Seq<char>)
    requires
        refines(q, p, from, v),
        values_of(s, p, from).no_duplicates(),
    ensures
        count_of(s, q) <= 1,
    decreases s.len(),
{
    if s.len() > 0 {
        let all = values_of(s, p, from);
        let rest = values_of(s.skip(1), p, from);
        assert(rest.no_duplicates()) by {
            if p.is_prefix_of(s) {
                assert forall|i: int, j: int| 0 <= i < rest.len() && 0 <= j < rest.len() && i != j
                    implies rest[i] != rest[j] by {
                    assert(all[i + 1] == rest[i] && all[j + 1] == rest[j]);
                }
            }
        }
        lemma_once(s.skip(1), q, p, from, v);
        if q.is_prefix_of(s) && count_of(s.skip(1), q) > 0 {
            lemma_value_found(s.skip(1), q, p, from, v);
            let i = choose|i: int| 0 <= i < rest.len() && rest[i] == v;
            assert(all[0] == v && all[i + 1] == v);
        }
    }
}

/// What occurs in a text stands at a place.
pub proof fn lemma_occurs_counted(s: Seq<char>, q: Seq<char>, at: int)
    requires
        occurs_at(s, q, at),
        q.len() > 0,
    ensures
        count_of(s, q) > 0,
    decreases s.len(),
{
    if at == 0 {
        assert(q =~= s.subrange(0, q.len() as int));
    } else {
        assert(s.skip(1).subrange(at - 1, at - 1 + q.len()) =~= s.subrange(at, at + q.len()));
        lemma_occurs_counted(s.skip(1), q, at - 1);
    }
}

/// A mark, a value and a quotation mark stand where the mark has the value.
pub proof fn lemma_refines(mark: Seq<char>, p: Seq<char>, v: Seq<char>)
    requires
        !v.contains('"'),
        p.is_prefix_of(mark + v),
    ensures
        refines(mark + v + "\""@, p, mark.len() as int, v),
{
    reveal_strlit("\"");
    let q = mark + v + "\""@;
    let from = mark.len() as int;
    let n = v.len() as int;
    assert forall|s: Seq<char>| #[trigger] q.is_prefix_of(s) implies p.is_prefix_of(s) && value_at(
        s,
        from,
    ) == v by {
        assert forall|i: int| 0 <= i < q.len() implies s[i] == q[i] by {
            assert(s.subrange(0, q.len() as int)[i] == s[i]);
        }
        assert(p =~= s.subrange(0, p.len() as int)) by {
            assert forall|i: int| 0 <= i < p.len() implies p[i] == s[i] by {
                assert((mark + v).subrange(0, p.len() as int)[i] == (mark + v)[i]);
                assert(q[i] == (mark + v)[i]);
            }
        }
        let t = s.skip(from);
        assert forall|i: int| 0 <= i < n implies !Pattern::Char('"').admits(#[trigger] t[i]) by {
            assert(t[i] == q[from + i]);
            assert(q[from + i] == v[i]);
            assert(v.contains(v[i]));
        }
        assert(t[n] == q[from + n]);
        lemma_first_match_is(t, Pattern::Char('"'), n);
        assert(t.take(n) =~= v) by {
            assert forall|i: int| 0 <= i < n implies t.take(n)[i] == v[i] by {
                assert(t[i] == q[from + i]);
            }
        }
    }
}

} // verus!
