//! A map from strings to values that keeps its keys in order.

use vstd::prelude::*;

use crate::order::{
    compare_text, lemma_text_order_chains, lemma_text_order_flips, text_order, Order,
};
use crate::text::strings;

verus! {

/// Whether every text comes before all later ones.
pub open spec fn strictly_increasing(s: Seq<Seq<char>>) -> bool {
    forall|i: int, j: int| 0 <= i < j < s.len() ==> text_order(s[i], s[j]) == Order::Less
}

/// An increasing list with `k` added, unless it holds `k` already.
pub open spec fn with_key(s: Seq<Seq<char>>, k: Seq<char>) -> Seq<Seq<char>>
    decreases s.len(),
{
    if s.len() == 0 {
        s.push(k)
    } else {
        match text_order(s.last(), k) {
            Order::Less => s.push(k),
            Order::Equal => s,
            Order::Greater => with_key(s.drop_last(), k).push(s.last()),
        }
    }
}

/// The different texts of `s`, in order.
pub open spec fn sorted_distinct(s: Seq<Seq<char>>) -> Seq<Seq<char>>
    decreases s.len(),
{
    if s.len() == 0 {
        s
    } else {
        with_key(sorted_distinct(s.drop_last()), s.last())
    }
}

proof fn lemma_with_key(s: Seq<Seq<char>>, k: Seq<char>)
    requires
        strictly_increasing(s),
    ensures
        strictly_increasing(with_key(s, k)),
        forall|x: Seq<char>| #[trigger] with_key(s, k).contains(x) <==> s.contains(x) || x == k,
    decreases s.len(),
{
    let r = with_key(s, k);
    if s.len() == 0 {
        assert(r[0] == k);
        assert forall|x: Seq<char>| #[trigger] r.contains(x) <==> s.contains(x) || x == k by {}
    } else {
        lemma_text_order_flips(s.last(), k);
        match text_order(s.last(), k) {
            Order::Less => {
                assert forall|i: int, j: int| 0 <= i < j < r.len() implies text_order(r[i], r[j])
                    == Order::Less by {
                    if j == s.len() && i < s.len() - 1 {
                        lemma_text_order_chains(s[i], s.last(), k);
                    }
                }
                assert forall|x: Seq<char>| #[trigger] r.contains(x) <==> s.contains(x) || x
                    == k by {
                    if s.contains(x) {
                        let i = choose|i: int| 0 <= i < s.len() && s[i] == x;
                        assert(r[i] == x);
                    }
                    assert(r[s.len() as int] == k);
                }
            },
            Order::Equal => {
                assert(s[s.len() - 1] == k);
            },
            Order::Greater => {
                let p = s.drop_last();
                let q = with_key(p, k);
                lemma_with_key(p, k);
                assert forall|i: int, j: int| 0 <= i < j < r.len() implies text_order(r[i], r[j])
                    == Order::Less by {
                    if j == q.len() {
                        assert(q.contains(q[i]));
                        if q[i] != k {
                            let m = choose|m: int| 0 <= m < p.len() && p[m] == q[i];
                            assert(s[m] == q[i]);
                        }
                    }
                }
                assert forall|x: Seq<char>| #[trigger] r.contains(x) <==> s.contains(x) || x
                    == k by {
                    if r.contains(x) {
                        let i = choose|i: int| 0 <= i < r.len() && r[i] == x;
                        if i < q.len() {
                            assert(q.contains(x));
                            if x != k {
                                let m = choose|m: int| 0 <= m < p.len() && p[m] == x;
                                assert(s[m] == x);
                            }
                        } else {
                            assert(s[s.len() - 1] == x);
                        }
                    }
                    if s.contains(x) || x == k {
                        if x == k || x != s.last() {
                            if x != k {
                                let i = choose|i: int| 0 <= i < s.len() && s[i] == x;
                                assert(p[i] == x);
                            }
                            assert(q.contains(x));
                            let m = choose|m: int| 0 <= m < q.len() && q[m] == x;
                            assert(r[m] == x);
                        } else {
                            assert(r[q.len() as int] == x);
                        }
                    }
                }
            },
        }
    }
}

/// `sorted_distinct` lists the texts of a sequence in increasing order, each
/// of them once.
pub proof fn law_sorted_distinct(s: Seq<Seq<char>>)
    ensures
        strictly_increasing(sorted_distinct(s)),
        forall|x: Seq<char>| #[trigger] sorted_distinct(s).contains(x) <==> s.contains(x),
    decreases s.len(),
{
    if s.len() > 0 {
        let p = s.drop_last();
        law_sorted_distinct(p);
        lemma_with_key(sorted_distinct(p), s.last());
        assert forall|x: Seq<char>| #[trigger] sorted_distinct(s).contains(x) <==> s.contains(
            x,
        ) by {
            if s.contains(x) {
                let i = choose|i: int| 0 <= i < s.len() && s[i] == x;
                if i < p.len() {
                    assert(p[i] == x);
                }
            }
            if p.contains(x) {
                let i = choose|i: int| 0 <= i < p.len() && p[i] == x;
                assert(s[i] == x);
            }
            assert(s[s.len() - 1] == s.last());
        }
    }
}

/// Two increasing lists of the same texts are the same list.
pub proof fn lemma_increasing_unique(a: Seq<Seq<char>>, b: Seq<Seq<char>>)
    requires
        strictly_increasing(a),
        strictly_increasing(b),
        forall|x: Seq<char>| #[trigger] a.contains(x) <==> b.contains(x),
    ensures
        a == b,
    decreases a.len(),
{
    if a.len() == 0 {
        if b.len() > 0 {
            assert(b.contains(b[0]));
            assert(a.contains(b[0]));
        }
        assert(a =~= b);
    } else {
        assert(a.contains(a.last()));
        let j = choose|j: int| 0 <= j < b.len() && b[j] == a.last();
        assert(b.contains(b.last()));
        assert(a.contains(b.last()));
        let i = choose|i: int| 0 <= i < a.len() && a[i] == b.last();
        lemma_text_order_flips(a[i], a.last());
        lemma_text_order_flips(b[j], b.last());
        assert(a.last() == b.last());
        let p = a.drop_last();
        let q = b.drop_last();
        assert forall|x: Seq<char>| #[trigger] p.contains(x) <==> q.contains(x) by {
            lemma_text_order_flips(a.last(), a.last());
            if p.contains(x) {
                let m = choose|m: int| 0 <= m < p.len() && p[m] == x;
                assert(a[m] == x);
                assert(a.contains(x));
                let n = choose|n: int| 0 <= n < b.len() && b[n] == x;
                assert(q[n] == x);
            }
            if q.contains(x) {
                let m = choose|m: int| 0 <= m < q.len() && q[m] == x;
                assert(b[m] == x);
                assert(b.contains(x));
                assert(a.contains(x));
                let n = choose|n: int| 0 <= n < a.len() && a[n] == x;
                assert(p[n] == x);
            }
        }
        lemma_increasing_unique(p, q);
        assert(a =~= p.push(a.last()));
        assert(b =~= q.push(b.last()));
    }
}

/// A map from strings to values. Its keys are kept in increasing order, and
/// each of them is there once.
pub struct TextMap<V> {
    keys: Vec<String>,
    values: Vec<V>,
}

impl<V> View for TextMap<V> {
    type V = Map<Seq<char>, V>;

    closed spec fn view(&self) -> Map<Seq<char>, V> {
        Map::new(
            |k: Seq<char>| self.key_list().contains(k),
            |k: Seq<char>| self.values@[self.key_list().index_of(k)],
        )
    }
}

impl<V> TextMap<V> {
    /// The keys in order.
    pub closed spec fn key_list(&self) -> Seq<Seq<char>> {
        strings(self.keys@)
    }

    pub closed spec fn wf(&self) -> bool {
        &&& self.keys@.len() == self.values@.len()
        &&& strictly_increasing(strings(self.keys@))
    }

    /// The key list is increasing and holds the keys of the map.
    pub proof fn lemma_keys(&self)
        requires
            self.wf(),
        ensures
            strictly_increasing(self.key_list()),
            forall|k: Seq<char>| #[trigger] self@.dom().contains(k) <==> self.key_list().contains(k),
    {
    }

    /// The keys of a map are the different texts of any sequence that holds
    /// the same texts.
    pub proof fn lemma_keys_are(&self, s: Seq<Seq<char>>)
        requires
            self.wf(),
            forall|k: Seq<char>| #[trigger] self@.dom().contains(k) <==> s.contains(k),
        ensures
            self.key_list() == sorted_distinct(s),
    {
        law_sorted_distinct(s);
        assert forall|k: Seq<char>| #[trigger] self.key_list().contains(k) <==> sorted_distinct(
            s,
        ).contains(k) by {
            assert(self@.dom().contains(k) <==> s.contains(k));
        }
        lemma_increasing_unique(self.key_list(), sorted_distinct(s));
    }

    proof fn lemma_value(&self, i: int)
        requires
            self.wf(),
            0 <= i < self.keys@.len(),
        ensures
            self@.dom().contains(self.key_list()[i]),
            self@[self.key_list()[i]] == self.values@[i],
    {
        let ks = self.key_list();
        assert(ks.contains(ks[i]));
        let j = ks.index_of(ks[i]);
        lemma_text_order_flips(ks[i], ks[j]);
        assert(i == j);
    }

    pub fn new() -> (r: Self)
        ensures
            r.wf(),
            r@ == Map::<Seq<char>, V>::empty(),
    {
        let r = TextMap { keys: Vec::new(), values: Vec::new() };
        assert(r@ =~= Map::<Seq<char>, V>::empty());
        r
    }

    /// The number of keys.
    pub fn len(&self) -> (r: usize)
        requires
            self.wf(),
        ensures
            r == self.key_list().len(),
    {
        self.keys.len()
    }

    /// The key at a place in the order.
    pub fn key_at(&self, i: usize) -> (r: &String)
        requires
            self.wf(),
            i < self.key_list().len(),
        ensures
            r@ == self.key_list()[i as int],
    {
        &self.keys[i]
    }

    /// The value of the key at a place in the order.
    pub fn value_at(&self, i: usize) -> (r: &V)
        requires
            self.wf(),
            i < self.key_list().len(),
        ensures
            self@.dom().contains(self.key_list()[i as int]),
            *r == self@[self.key_list()[i as int]],
    {
        proof {
            self.lemma_value(i as int);
        }
        &self.values[i]
    }

    /// The place of a key, or the place where it would go.
    fn search(&self, key: &str) -> (r: Result<usize, usize>)
        requires
            self.wf(),
        ensures
            match r {
                Ok(i) => i < self.keys@.len() && self.key_list()[i as int] == key@,
                Err(i) => {
                    &&& i <= self.keys@.len()
                    &&& forall|j: int|
                        0 <= j < i ==> text_order(#[trigger] self.key_list()[j], key@)
                            == Order::Less
                    &&& forall|j: int|
                        i <= j < self.keys@.len() ==> text_order(#[trigger] self.key_list()[j], key@)
                            == Order::Greater
                },
            },
    {
        let mut low: usize = 0;
        let mut high: usize = self.keys.len();
        while low < high
            invariant
                self.wf(),
                low <= high <= self.keys@.len(),
                forall|j: int|
                    0 <= j < low ==> text_order(#[trigger] self.key_list()[j], key@) == Order::Less,
                forall|j: int|
                    high <= j < self.keys@.len() ==> text_order(#[trigger] self.key_list()[j], key@)
                        == Order::Greater,
            decreases high - low,
        {
            let mid: usize = low + (high - low) / 2;
            let ghost ks = self.key_list();
            match compare_text(self.keys[mid].as_str(), key) {
                Order::Equal => {
                    proof {
                        lemma_text_order_flips(ks[mid as int], key@);
                    }
                    return Ok(mid);
                },
                Order::Less => {
                    proof {
                        assert forall|j: int| 0 <= j <= mid implies text_order(
                            #[trigger] ks[j],
                            key@,
                        ) == Order::Less by {
                            if j < mid {
                                lemma_text_order_chains(ks[j], ks[mid as int], key@);
                            }
                        }
                    }
                    low = mid + 1;
                },
                Order::Greater => {
                    proof {
                        assert forall|j: int| mid <= j < self.keys@.len() implies text_order(
                            #[trigger] ks[j],
                            key@,
                        ) == Order::Greater by {
                            if j > mid {
                                lemma_text_order_flips(ks[mid as int], key@);
                                lemma_text_order_flips(ks[j], key@);
                                lemma_text_order_chains(key@, ks[mid as int], ks[j]);
                            }
                        }
                    }
                    high = mid;
                },
            }
        }
        Err(low)
    }

    proof fn lemma_absent(&self, key: Seq<char>, at: int)
        requires
            self.wf(),
            0 <= at <= self.keys@.len(),
            forall|j: int|
                0 <= j < at ==> text_order(#[trigger] self.key_list()[j], key) == Order::Less,
            forall|j: int|
                at <= j < self.keys@.len() ==> text_order(#[trigger] self.key_list()[j], key)
                    == Order::Greater,
        ensures
            !self@.dom().contains(key),
    {
        lemma_text_order_flips(key, key);
    }

    /// The value of a key.
    pub fn get(&self, key: &str) -> (r: Option<&V>)
        requires
            self.wf(),
        ensures
            match r {
                Some(v) => self@.dom().contains(key@) && *v == self@[key@],
                None => !self@.dom().contains(key@),
            },
    {
        match self.search(key) {
            Ok(i) => {
                proof {
                    self.lemma_value(i as int);
                }
                Some(&self.values[i])
            },
            Err(_at) => {
                proof {
                    self.lemma_absent(key@, _at as int);
                }
                None
            },
        }
    }

    /// Sets the value of a key, and with it replaces the one that it had.
    pub fn insert(&mut self, key: String, value: V)
        requires
            old(self).wf(),
        ensures
            final(self).wf(),
            final(self)@ == old(self)@.insert(key@, value),
    {
        let ghost before = *self;
        let ghost ks = self.key_list();
        match self.search(key.as_str()) {
            Ok(i) => {
                self.values.set(i, value);
                proof {
                    assert(self.key_list() =~= ks);
                    before.lemma_value(i as int);
                    assert forall|k: Seq<char>| #[trigger] ks.contains(k) implies self@[k]
                        == before@.insert(key@, value)[k] by {
                        let j = choose|j: int| 0 <= j < ks.len() && ks[j] == k;
                        before.lemma_value(j);
                        self.lemma_value(j);
                        if j != i {
                            lemma_text_order_flips(ks[i as int], ks[j]);
                        }
                    }
                    assert(self@ =~= before@.insert(key@, value));
                }
            },
            Err(at) => {
                let ghost k0 = key@;
                proof {
                    self.lemma_absent(key@, at as int);
                }
                self.keys.insert(at, key);
                self.values.insert(at, value);
                proof {
                    let now = self.key_list();
                    assert(now =~= ks.insert(at as int, k0));
                    assert forall|i: int, j: int| 0 <= i < j < now.len() implies text_order(
                        now[i],
                        now[j],
                    ) == Order::Less by {
                        if j == at {
                            assert(now[i] == ks[i]);
                        } else if i == at {
                            assert(now[j] == ks[j - 1]);
                            lemma_text_order_flips(ks[j - 1], k0);
                        }
                    }
                    assert forall|k: Seq<char>| #[trigger] now.contains(k) <==> ks.contains(k)
                        || k == k0 by {
                        if ks.contains(k) {
                            let j = choose|j: int| 0 <= j < ks.len() && ks[j] == k;
                            if j < at {
                                assert(now[j] == k);
                            } else {
                                assert(now[j + 1] == k);
                            }
                        }
                        assert(now[at as int] == k0);
                        if now.contains(k) {
                            let j = choose|j: int| 0 <= j < now.len() && now[j] == k;
                            if j < at {
                                assert(ks[j] == k);
                            } else if j > at {
                                assert(ks[j - 1] == k);
                            }
                        }
                    }
                    assert forall|k: Seq<char>| #[trigger] now.contains(k) implies self@[k]
                        == before@.insert(k0, value)[k] by {
                        let j = choose|j: int| 0 <= j < now.len() && now[j] == k;
                        self.lemma_value(j);
                        if j < at {
                            before.lemma_value(j);
                        } else if j > at {
                            before.lemma_value(j - 1);
                        }
                    }
                    assert(self@ =~= before@.insert(k0, value));
                }
            },
        }
    }
}

impl<T> TextMap<Vec<T>> {
    /// Appends an item to the list of a key, which is empty before the first one.
    pub fn append(&mut self, key: String, item: T)
        requires
            old(self).wf(),
        ensures
            final(self).wf(),
            final(self)@.dom() == old(self)@.dom().insert(key@),
            final(self)@[key@]@ == (if old(self)@.dom().contains(key@) {
                old(self)@[key@]@
            } else {
                seq![]
            }).push(item),
            forall|k: Seq<char>|
                k != key@ && old(self)@.dom().contains(k) ==> #[trigger] final(self)@[k] == old(
                    self,
                )@[k],
    {
        let ghost before = *self;
        let ghost ks = self.key_list();
        match self.search(key.as_str()) {
            Ok(i) => {
                proof {
                    self.lemma_value(i as int);
                }
                self.values[i].push(item);
                proof {
                    assert(self.key_list() =~= ks);
                    self.lemma_value(i as int);
                    assert forall|k: Seq<char>|
                        k != key@ && before@.dom().contains(k) implies #[trigger] self@[k]
                        == before@[k] by {
                        let j = choose|j: int| 0 <= j < ks.len() && ks[j] == k;
                        before.lemma_value(j);
                        self.lemma_value(j);
                    }
                    assert(self@.dom() =~= before@.dom().insert(key@));
                }
            },
            Err(at) => {
                proof {
                    self.lemma_absent(key@, at as int);
                }
                let mut items: Vec<T> = Vec::new();
                items.push(item);
                self.insert(key, items);
            },
        }
    }
}

/// The keys of two maps in order, each of them once.
pub fn merged_keys<V, W>(a: &TextMap<V>, b: &TextMap<W>) -> (r: Vec<String>)
    requires
        a.wf(),
        b.wf(),
    ensures
        strictly_increasing(strings(r@)),
        forall|k: Seq<char>| #[trigger]
            strings(r@).contains(k) <==> a@.dom().contains(k) || b@.dom().contains(k),
{
    let mut all: TextMap<bool> = TextMap::new();
    let mut i: usize = 0;
    while i < a.len()
        invariant
            a.wf(),
            all.wf(),
            i <= a.key_list().len(),
            forall|k: Seq<char>| #[trigger]
                all@.dom().contains(k) <==> a.key_list().take(i as int).contains(k),
        decreases a.key_list().len() - i,
    {
        let ghost ks = a.key_list();
        let ghost before = all@;
        all.insert(a.key_at(i).clone(), true);
        proof {
            lemma_take_contains(ks, i as int);
        }
        i += 1;
    }
    assert(a.key_list().take(i as int) =~= a.key_list());
    i = 0;
    while i < b.len()
        invariant
            a.wf(),
            b.wf(),
            all.wf(),
            i <= b.key_list().len(),
            forall|k: Seq<char>| #[trigger]
                all@.dom().contains(k) <==> a.key_list().contains(k) || b.key_list().take(
                    i as int,
                ).contains(k),
        decreases b.key_list().len() - i,
    {
        let ghost ks = b.key_list();
        all.insert(b.key_at(i).clone(), true);
        proof {
            lemma_take_contains(ks, i as int);
        }
        i += 1;
    }
    assert(b.key_list().take(i as int) =~= b.key_list());
    proof {
        a.lemma_keys();
        b.lemma_keys();
        all.lemma_keys();
    }
    let r = all.keys;
    assert(strings(r@) == all.key_list());
    assert forall|k: Seq<char>| #[trigger]
        strings(r@).contains(k) <==> a@.dom().contains(k) || b@.dom().contains(k) by {
        assert(all@.dom().contains(k) <==> all.key_list().contains(k));
    }
    r
}

/// What a prefix that is one element longer holds.
pub proof fn lemma_take_contains(s: Seq<Seq<char>>, n: int)
    requires
        0 <= n < s.len(),
    ensures
        forall|k: Seq<char>| #[trigger]
            s.take(n + 1).contains(k) <==> s.take(n).contains(k) || k == s[n],
{
    assert forall|k: Seq<char>| #[trigger]
        s.take(n + 1).contains(k) <==> s.take(n).contains(k) || k == s[n] by {
        let a = s.take(n);
        let b = s.take(n + 1);
        if a.contains(k) {
            let i = choose|i: int| 0 <= i < a.len() && a[i] == k;
            assert(b[i] == k);
        }
        if b.contains(k) {
            let i = choose|i: int| 0 <= i < b.len() && b[i] == k;
            if i < n {
                assert(a[i] == k);
            }
        }
        assert(b[n] == s[n]);
    }
}

} // verus!
