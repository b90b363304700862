use vstd::prelude::*;

use crate::block::BlockId;
use crate::order::{
    compare_str, lemma_order_equal, lemma_order_flip, lemma_order_trans, rank_by_count, rank_view, ranked, ranks_view,
    seq_order, Named, Order,
};

verus! {

/// How many of the indices `0..n` satisfy `pred`.
pub open spec fn count_up_to(n: int, pred: spec_fn(int) -> bool) -> nat
    decreases n,
{
    if n <= 0 {
        0
    } else {
        count_up_to(n - 1, pred) + if pred(n - 1) {
            1nat
        } else {
            0nat
        }
    }
}

pub proof fn lemma_count_bound(n: int, pred: spec_fn(int) -> bool)
    requires
        n >= 0,
    ensures
        count_up_to(n, pred) <= n,
    decreases n,
{
    if n > 0 {
        lemma_count_bound(n - 1, pred);
    }
}

/// A key of a report counter, seen as a sequence of optional strings.
pub trait CountKey: Sized {
    spec fn kview(&self) -> Seq<Option<Seq<char>>>;

    fn same_key(&self, other: &Self) -> (r: bool)
        ensures
            r == (self.kview() == other.kview()),
    ;

    /// Three-way comparison of keys in key order.
    fn compare_key(&self, other: &Self) -> (r: Order)
        ensures
            r == key_order(self.kview(), other.kview()),
    ;
}

/// Order of optional strings: an absent one first, then in `str` order.
pub open spec fn opt_order(a: Option<Seq<char>>, b: Option<Seq<char>>) -> Order {
    match (a, b) {
        (None, None) => Order::Equal,
        (None, Some(_)) => Order::Less,
        (Some(_), None) => Order::Greater,
        (Some(x), Some(y)) => seq_order(x, y),
    }
}

/// Order of counter keys: component by component, as tuples of strings and
/// optional strings compare.
pub open spec fn key_order(a: Seq<Option<Seq<char>>>, b: Seq<Option<Seq<char>>>) -> Order
    decreases a.len(),
{
    if a.len() == 0 {
        if b.len() == 0 {
            Order::Equal
        } else {
            Order::Less
        }
    } else if b.len() == 0 {
        Order::Greater
    } else if opt_order(a[0], b[0]) != Order::Equal {
        opt_order(a[0], b[0])
    } else {
        key_order(a.drop_first(), b.drop_first())
    }
}

proof fn lemma_opt_order(a: Option<Seq<char>>, b: Option<Seq<char>>, c: Option<Seq<char>>)
    ensures
        (opt_order(a, b) == Order::Equal) == (a == b),
        (opt_order(a, b) == Order::Less) == (opt_order(b, a) == Order::Greater),
        opt_order(a, b) == Order::Less && opt_order(b, c) == Order::Less ==> opt_order(a, c) == Order::Less,
        opt_order(a, b) != Order::Greater && opt_order(b, c) != Order::Greater ==> opt_order(a, c) != Order::Greater,
{
    match (a, b, c) {
        (Some(x), Some(y), Some(z)) => {
            lemma_order_equal(x, y);
            lemma_order_equal(x, z);
            lemma_order_equal(y, z);
            lemma_order_flip(x, y);
            lemma_order_trans(x, y, z);
        },
        (Some(x), Some(y), _) => {
            lemma_order_equal(x, y);
            lemma_order_flip(x, y);
        },
        _ => {},
    }
}

/// Keys compare equal exactly when they are the same key, and comparing
/// the other way round flips the outcome.
pub proof fn lemma_key_order(a: Seq<Option<Seq<char>>>, b: Seq<Option<Seq<char>>>)
    ensures
        (key_order(a, b) == Order::Equal) == (a == b),
        (key_order(a, b) == Order::Less) == (key_order(b, a) == Order::Greater),
    decreases a.len(),
{
    if a.len() == 0 || b.len() == 0 {
        if a.len() == 0 && b.len() == 0 {
            assert(a =~= b);
        }
    } else {
        lemma_opt_order(a[0], b[0], b[0]);
        lemma_opt_order(b[0], a[0], a[0]);
        lemma_key_order(a.drop_first(), b.drop_first());
        if opt_order(a[0], b[0]) == Order::Equal && a.drop_first() == b.drop_first() {
            assert(a =~= seq![a[0]] + a.drop_first());
            assert(b =~= seq![b[0]] + b.drop_first());
        }
        if a == b {
            assert(a[0] == b[0]);
            assert(a.drop_first() =~= b.drop_first());
        }
    }
}

/// Keys of one component, or of two, compare by their first component and
/// then by the rest.
proof fn lemma_key_order_unfold(a: Seq<Option<Seq<char>>>, b: Seq<Option<Seq<char>>>)
    requires
        a.len() > 0,
        b.len() > 0,
    ensures
        key_order(a, b) == if opt_order(a[0], b[0]) != Order::Equal {
            opt_order(a[0], b[0])
        } else {
            key_order(a.drop_first(), b.drop_first())
        },
        key_order(Seq::<Option<Seq<char>>>::empty(), Seq::<Option<Seq<char>>>::empty()) == Order::Equal,
{
}

/// Key order is transitive.
pub proof fn lemma_key_order_trans(a: Seq<Option<Seq<char>>>, b: Seq<Option<Seq<char>>>, c: Seq<Option<Seq<char>>>)
    ensures
        key_order(a, b) != Order::Greater && key_order(b, c) != Order::Greater ==> key_order(a, c) != Order::Greater,
    decreases a.len(),
{
    if a.len() > 0 && b.len() > 0 && c.len() > 0 {
        lemma_opt_order(a[0], b[0], c[0]);
        lemma_opt_order(a[0], c[0], c[0]);
        lemma_opt_order(b[0], c[0], c[0]);
        lemma_opt_order(a[0], b[0], b[0]);
        if opt_order(a[0], b[0]) == Order::Equal && opt_order(b[0], c[0]) == Order::Equal {
            lemma_key_order_trans(a.drop_first(), b.drop_first(), c.drop_first());
        }
    }
}

impl CountKey for String {
    open spec fn kview(&self) -> Seq<Option<Seq<char>>> {
        seq![Some(self@)]
    }

    fn compare_key(&self, other: &Self) -> (r: Order) {
        let r = compare_str(self.as_str(), other.as_str());
        proof {
            lemma_key_order_unfold(self.kview(), other.kview());
            assert(self.kview().drop_first() =~= Seq::<Option<Seq<char>>>::empty());
            assert(other.kview().drop_first() =~= Seq::<Option<Seq<char>>>::empty());
        }
        r
    }

    fn same_key(&self, other: &Self) -> (r: bool) {
        let r = *self == *other;
        proof {
            if !r {
                assert(self.kview()[0] != other.kview()[0]);
            }
        }
        r
    }
}

impl CountKey for (String, String) {
    open spec fn kview(&self) -> Seq<Option<Seq<char>>> {
        seq![Some(self.0@), Some(self.1@)]
    }

    fn compare_key(&self, other: &Self) -> (r: Order) {
        let first = compare_str(self.0.as_str(), other.0.as_str());
        proof {
            let (a, b) = (self.kview().drop_first(), other.kview().drop_first());
            assert(a =~= seq![Some(self.1@)]);
            assert(b =~= seq![Some(other.1@)]);
            assert(a.drop_first() =~= Seq::<Option<Seq<char>>>::empty());
            assert(b.drop_first() =~= Seq::<Option<Seq<char>>>::empty());
            lemma_key_order_unfold(self.kview(), other.kview());
            lemma_key_order_unfold(a, b);
        }
        match first {
            Order::Equal => compare_str(self.1.as_str(), other.1.as_str()),
            _ => first,
        }
    }

    fn same_key(&self, other: &Self) -> (r: bool) {
        let a = self.0 == other.0;
        let b = self.1 == other.1;
        proof {
            if !a {
                assert(self.kview()[0] != other.kview()[0]);
            }
            if !b {
                assert(self.kview()[1] != other.kview()[1]);
            }
            if a && b {
                assert(self.kview() =~= other.kview());
            }
        }
        a && b
    }
}

impl CountKey for BlockId {
    open spec fn kview(&self) -> Seq<Option<Seq<char>>> {
        seq![Some(self@)]
    }

    fn compare_key(&self, other: &Self) -> (r: Order) {
        let r = compare_str(self.as_str(), other.as_str());
        proof {
            lemma_key_order_unfold(self.kview(), other.kview());
            assert(self.kview().drop_first() =~= Seq::<Option<Seq<char>>>::empty());
            assert(other.kview().drop_first() =~= Seq::<Option<Seq<char>>>::empty());
        }
        r
    }

    fn same_key(&self, other: &Self) -> (r: bool) {
        let r = self.same(other);
        proof {
            if !r {
                assert(self.kview()[0] != other.kview()[0]);
            }
        }
        r
    }
}

pub open spec fn opt_view(o: Option<String>) -> Option<Seq<char>> {
    match o {
        Some(s) => Some(s@),
        None => None,
    }
}

impl CountKey for (String, Option<String>) {
    open spec fn kview(&self) -> Seq<Option<Seq<char>>> {
        seq![Some(self.0@), opt_view(self.1)]
    }

    fn compare_key(&self, other: &Self) -> (r: Order) {
        let first = compare_str(self.0.as_str(), other.0.as_str());
        proof {
            let (a, b) = (self.kview().drop_first(), other.kview().drop_first());
            assert(a =~= seq![opt_view(self.1)]);
            assert(b =~= seq![opt_view(other.1)]);
            assert(a.drop_first() =~= Seq::<Option<Seq<char>>>::empty());
            assert(b.drop_first() =~= Seq::<Option<Seq<char>>>::empty());
            lemma_key_order_unfold(self.kview(), other.kview());
            lemma_key_order_unfold(a, b);
        }
        match first {
            Order::Equal => match (&self.1, &other.1) {
                (None, None) => Order::Equal,
                (None, Some(_)) => Order::Less,
                (Some(_), None) => Order::Greater,
                (Some(x), Some(y)) => compare_str(x.as_str(), y.as_str()),
            },
            _ => first,
        }
    }

    fn same_key(&self, other: &Self) -> (r: bool) {
        let a = self.0 == other.0;
        let b = match (&self.1, &other.1) {
            (Some(x), Some(y)) => *x == *y,
            (None, None) => true,
            _ => false,
        };
        proof {
            if !a {
                assert(self.kview()[0] != other.kview()[0]);
            }
            if !b {
                assert(self.kview()[1] != other.kview()[1]);
            }
            if a && b {
                assert(self.kview() =~= other.kview());
            }
        }
        a && b
    }
}

pub open spec fn counts_total<K>(s: Seq<(K, u64)>) -> int
    decreases s.len(),
{
    if s.len() == 0 {
        0
    } else {
        counts_total(s.drop_last()) + s.last().1
    }
}

/// Occurrence counts by key.
#[derive(Debug, Clone)]
pub struct Counts<K> {
    entries: Vec<(K, u64)>,
}

impl<K: CountKey> Counts<K> {
    pub closed spec fn keys(&self) -> Seq<Seq<Option<Seq<char>>>> {
        self.entries@.map_values(|e: (K, u64)| e.0.kview())
    }

    pub closed spec fn wf(&self) -> bool {
        &&& self.keys().no_duplicates()
        &&& forall|i: int| 0 <= i < self.entries@.len() ==> (#[trigger] self.entries@[i]).1 > 0
    }

    /// The count of key `k` (zero where never counted).
    pub closed spec fn count(&self, k: Seq<Option<Seq<char>>>) -> nat {
        if exists|i: int| 0 <= i < self.entries@.len() && self.entries@[i].0.kview() == k {
            self.entries@[choose|i: int| 0 <= i < self.entries@.len() && self.entries@[i].0.kview() == k].1 as nat
        } else {
            0
        }
    }

    /// The sum of all counts.
    pub closed spec fn total_view(&self) -> int {
        counts_total(self.entries@)
    }

    pub closed spec fn len_view(&self) -> nat {
        self.entries@.len()
    }

    pub fn new() -> (r: Counts<K>)
        ensures
            r.wf(),
            forall|k: Seq<Option<Seq<char>>>| r.count(k) == 0,
            r.total_view() == 0,
            r.len_view() == 0,
    {
        Counts { entries: Vec::new() }
    }

    /// Count one more occurrence of `key`.
    pub fn increment(&mut self, key: K)
        requires
            old(self).wf(),
            old(self).count(key.kview()) < u64::MAX,
        ensures
            final(self).wf(),
            final(self).count(key.kview()) == old(self).count(key.kview()) + 1,
            forall|k: Seq<Option<Seq<char>>>| k != key.kview() ==> #[trigger] final(self).count(k) == old(self).count(k),
            final(self).total_view() == old(self).total_view() + 1,
            final(self).len_view() == old(self).len_view() + if old(self).count(key.kview()) == 0 {
                1int
            } else {
                0int
            },
    {
        let mut i: usize = 0;
        while i < self.entries.len()
            invariant
                i <= self.entries.len(),
                self.entries@ == old(self).entries@,
                old(self).wf(),
                old(self).count(key.kview()) < u64::MAX,
                forall|j: int| 0 <= j < i ==> #[trigger] self.entries@[j].0.kview() != key.kview(),
            decreases self.entries.len() - i,
        {
            if self.entries[i].0.same_key(&key) {
                proof {
                    let c = choose|c: int| 0 <= c < self.entries@.len() && self.entries@[c].0.kview() == key.kview();
                    assert(self.keys()[c] == self.keys()[i as int]);
                    assert(c == i);
                }
                let n = self.entries[i].1;
                let ghost old_entries = self.entries@;
                assert(old(self).count(key.kview()) == n);
                self.entries.set(i, (key, n + 1));
                proof {
                    assert(self.keys() =~= old(self).keys());
                    lemma_counts_total_update(old_entries, i as int, self.entries@[i as int]);
                    assert(self.entries@ == old_entries.update(i as int, self.entries@[i as int]));
                    assert forall|k: Seq<Option<Seq<char>>>| k != key.kview() implies #[trigger] self.count(k) == old(self).count(k) by {
                        if exists|j: int| 0 <= j < old_entries.len() && old_entries[j].0.kview() == k {
                            let j = choose|j: int| 0 <= j < old_entries.len() && old_entries[j].0.kview() == k;
                            assert(self.keys()[j] == k);
                            assert(self.entries@[j].0.kview() == k);
                            let c = choose|c: int| 0 <= c < self.entries@.len() && self.entries@[c].0.kview() == k;
                            assert(self.keys()[c] == self.keys()[j]);
                            assert(c == j);
                            assert(j != i);
                        } else {
                            assert forall|j: int| 0 <= j < self.entries@.len() implies self.entries@[j].0.kview() != k by {
                                assert(self.keys()[j] == old(self).keys()[j]);
                                assert(old(self).keys()[j] == old_entries[j].0.kview());
                            }
                        }
                    }
                    let c2 = choose|c: int| 0 <= c < self.entries@.len() && self.entries@[c].0.kview() == key.kview();
                    assert(self.keys()[c2] == self.keys()[i as int]);
                    assert(c2 == i);
                    assert forall|j: int| 0 <= j < self.entries@.len() implies (#[trigger] self.entries@[j]).1 > 0 by {
                        if j != i {
                            assert(self.entries@[j] == old_entries[j]);
                        }
                    }
                }
                return;
            }
            i += 1;
        }
        let ghost old_entries = self.entries@;
        self.entries.push((key, 1));
        proof {
            assert(self.keys() =~= old(self).keys().push(key.kview()));
            assert forall|j: int| 0 <= j < old(self).keys().len() implies old(self).keys()[j] != key.kview() by {
                assert(old(self).keys()[j] == old_entries[j].0.kview());
            }
            assert(!old(self).keys().contains(key.kview()));
            assert forall|k: Seq<Option<Seq<char>>>| k != key.kview() implies #[trigger] self.count(k) == old(self).count(k) by {
                if exists|j: int| 0 <= j < old_entries.len() && old_entries[j].0.kview() == k {
                    let j = choose|j: int| 0 <= j < old_entries.len() && old_entries[j].0.kview() == k;
                    assert(self.entries@[j].0.kview() == k);
                    let c = choose|c: int| 0 <= c < self.entries@.len() && self.entries@[c].0.kview() == k;
                    assert(self.keys()[c] == self.keys()[j]);
                }
                if exists|j: int| 0 <= j < self.entries@.len() && self.entries@[j].0.kview() == k {
                    let j = choose|j: int| 0 <= j < self.entries@.len() && self.entries@[j].0.kview() == k;
                    assert(old_entries[j].0.kview() == k);
                }
            }
            assert(self.entries@[old_entries.len() as int].0.kview() == key.kview());
            assert forall|j: int| 0 <= j < self.entries@.len() implies (#[trigger] self.entries@[j]).1 > 0 by {
                if j < old_entries.len() {
                    assert(self.entries@[j] == old_entries[j]);
                }
            }
            let c = choose|c: int| 0 <= c < self.entries@.len() && self.entries@[c].0.kview() == key.kview();
            assert(self.keys()[c] == self.keys()[old_entries.len() as int]);
            assert(self.entries@.drop_last() == old_entries);
        }
    }

    /// The count of `key`.
    pub fn get(&self, key: &K) -> (r: u64)
        requires
            self.wf(),
        ensures
            r == self.count(key.kview()),
    {
        let mut i: usize = 0;
        while i < self.entries.len()
            invariant
                i <= self.entries.len(),
                self.wf(),
                forall|j: int| 0 <= j < i ==> #[trigger] self.entries@[j].0.kview() != key.kview(),
            decreases self.entries.len() - i,
        {
            if self.entries[i].0.same_key(key) {
                proof {
                    let c = choose|c: int| 0 <= c < self.entries@.len() && self.entries@[c].0.kview() == key.kview();
                    assert(self.keys()[c] == self.keys()[i as int]);
                }
                return self.entries[i].1;
            }
            i += 1;
        }
        0
    }

    /// Number of distinct keys counted.
    pub fn len(&self) -> (r: usize)
        ensures
            r == self.len_view(),
    {
        self.entries.len()
    }

    pub fn is_empty(&self) -> (r: bool)
        ensures
            r == (self.len_view() == 0),
    {
        self.entries.len() == 0
    }

    /// The counted keys with their counts, in the order first counted.
    pub closed spec fn entries_view(&self) -> Seq<(K, u64)> {
        self.entries@
    }

    /// The counted keys with their counts, in the order first counted.
    pub fn entries(&self) -> (r: &[(K, u64)])
        ensures
            r@ == self.entries_view(),
            r@.len() == self.len_view(),
    {
        self.entries.as_slice()
    }

    /// The positions of the entries in ascending key order, the order in
    /// which a sorted map lists its keys.
    pub fn key_order_positions(&self) -> (r: Vec<usize>)
        requires
            self.wf(),
        ensures
            r@.len() == self.entries_view().len(),
            forall|a: int| 0 <= a < r@.len() ==> #[trigger] r@[a] < self.entries_view().len(),
            forall|a: int, b: int|
                0 <= a < b < r@.len() ==> key_order(
                    self.entries_view()[#[trigger] r@[a] as int].0.kview(),
                    self.entries_view()[#[trigger] r@[b] as int].0.kview(),
                ) == Order::Less,
    {
        let n = self.entries.len();
        let ghost e = self.entries@;
        let mut rest: Vec<usize> = Vec::new();
        let mut i: usize = 0;
        while i < n
            invariant
                n == e.len(),
                i <= n,
                rest@.len() == i,
                forall|j: int| 0 <= j < i ==> #[trigger] rest@[j] == j,
            decreases n - i,
        {
            rest.push(i);
            i += 1;
        }
        let mut out: Vec<usize> = Vec::new();
        while rest.len() > 0
            invariant
                n == e.len(),
                e == self.entries@,
                self.wf(),
                out@.len() + rest@.len() == n,
                forall|a: int| 0 <= a < out@.len() ==> #[trigger] out@[a] < n,
                forall|b: int| 0 <= b < rest@.len() ==> #[trigger] rest@[b] < n,
                out@.no_duplicates(),
                rest@.no_duplicates(),
                forall|a: int, b: int| 0 <= a < out@.len() && 0 <= b < rest@.len() ==> #[trigger] out@[a] != #[trigger] rest@[b],
                forall|a: int, b: int|
                    0 <= a < b < out@.len() ==> key_order(
                        e[#[trigger] out@[a] as int].0.kview(),
                        e[#[trigger] out@[b] as int].0.kview(),
                    ) == Order::Less,
                forall|a: int, b: int|
                    0 <= a < out@.len() && 0 <= b < rest@.len() ==> key_order(
                        e[#[trigger] out@[a] as int].0.kview(),
                        e[#[trigger] rest@[b] as int].0.kview(),
                    ) == Order::Less,
            decreases rest@.len(),
        {
            let mut m: usize = 0;
            let mut j: usize = 1;
            proof {
                lemma_key_order(e[rest@[0] as int].0.kview(), e[rest@[0] as int].0.kview());
            }
            while j < rest.len()
                invariant
                    n == e.len(),
                    e == self.entries@,
                    forall|b: int| 0 <= b < rest@.len() ==> #[trigger] rest@[b] < n,
                    m < j <= rest@.len(),
                    forall|k: int|
                        0 <= k < j ==> key_order(e[rest@[m as int] as int].0.kview(), e[#[trigger] rest@[k] as int].0.kview())
                            != Order::Greater,
                decreases rest@.len() - j,
            {
                let candidate = &self.entries[rest[j]].0;
                if candidate.compare_key(&self.entries[rest[m]].0) == Order::Less {
                    proof {
                        assert forall|k: int| 0 <= k < j + 1 implies key_order(
                            e[rest@[j as int] as int].0.kview(),
                            e[#[trigger] rest@[k] as int].0.kview(),
                        ) != Order::Greater by {
                            let (x, y) = (e[rest@[j as int] as int].0.kview(), e[rest@[m as int] as int].0.kview());
                            lemma_key_order(x, y);
                            lemma_key_order(x, x);
                            if k < j {
                                lemma_key_order_trans(x, y, e[rest@[k] as int].0.kview());
                            }
                        }
                    }
                    m = j;
                } else {
                    proof {
                        lemma_key_order(e[rest@[j as int] as int].0.kview(), e[rest@[m as int] as int].0.kview());
                    }
                }
                j += 1;
            }
            let ghost old_rest = rest@;
            let ghost old_out = out@;
            let p = rest.remove(m);
            out.push(p);
            proof {
                assert(old_rest[m as int] == p);
                assert forall|b: int| 0 <= b < rest@.len() implies #[trigger] rest@[b] == old_rest[if b < m { b } else { b + 1 }] by {}
                assert forall|b: int| 0 <= b < rest@.len() implies key_order(
                    e[p as int].0.kview(),
                    e[#[trigger] rest@[b] as int].0.kview(),
                ) == Order::Less by {
                    let ob = if b < m { b } else { b + 1 };
                    assert(rest@[b] == old_rest[ob]);
                    assert(old_rest[ob] != old_rest[m as int]);
                    assert(self.keys()[p as int] != self.keys()[old_rest[ob] as int]);
                    lemma_key_order(e[p as int].0.kview(), e[rest@[b] as int].0.kview());
                }
                assert forall|a: int, b: int| 0 <= a < b < out@.len() implies key_order(
                    e[#[trigger] out@[a] as int].0.kview(),
                    e[#[trigger] out@[b] as int].0.kview(),
                ) == Order::Less by {
                    if b == out@.len() - 1 {
                        assert(out@[b] == old_rest[m as int]);
                        assert(old_out[a] == out@[a]);
                    } else {
                        assert(old_out[a] == out@[a] && old_out[b] == out@[b]);
                    }
                }
                assert forall|a: int, b: int| 0 <= a < out@.len() && 0 <= b < rest@.len() implies key_order(
                    e[#[trigger] out@[a] as int].0.kview(),
                    e[#[trigger] rest@[b] as int].0.kview(),
                ) == Order::Less by {
                    let ob = if b < m { b } else { b + 1 };
                    assert(rest@[b] == old_rest[ob]);
                    if a < old_out.len() {
                        assert(out@[a] == old_out[a]);
                    }
                }
                assert forall|a: int, b: int| 0 <= a < out@.len() && 0 <= b < rest@.len() implies #[trigger] out@[a]
                    != #[trigger] rest@[b] by {
                    let ob = if b < m { b } else { b + 1 };
                    assert(rest@[b] == old_rest[ob]);
                    if a < old_out.len() {
                        assert(out@[a] == old_out[a]);
                    }
                }
                assert(out@.no_duplicates()) by {
                    assert forall|a: int, b: int| 0 <= a < out@.len() && 0 <= b < out@.len() && a != b implies out@[a]
                        != out@[b] by {
                        if a < old_out.len() && b < old_out.len() {
                            assert(out@[a] == old_out[a] && out@[b] == old_out[b]);
                        } else if a < old_out.len() {
                            assert(out@[a] == old_out[a]);
                        } else if b < old_out.len() {
                            assert(out@[b] == old_out[b]);
                        }
                    }
                }
                assert(rest@.no_duplicates()) by {
                    assert forall|a: int, b: int| 0 <= a < rest@.len() && 0 <= b < rest@.len() && a != b implies rest@[a]
                        != rest@[b] by {
                        let oa = if a < m { a } else { a + 1 };
                        let ob = if b < m { b } else { b + 1 };
                        assert(rest@[a] == old_rest[oa] && rest@[b] == old_rest[ob]);
                    }
                }
            }
        }
        out
    }

    /// The entries list each counted key once, with its count.
    pub proof fn lemma_entries(&self)
        requires
            self.wf(),
        ensures
            self.entries_view().len() == self.len_view(),
            forall|i: int|
                0 <= i < self.entries_view().len() ==> #[trigger] self.count(self.entries_view()[i].0.kview())
                    == self.entries_view()[i].1 && self.entries_view()[i].1 > 0,
            forall|i: int, j: int|
                0 <= i < j < self.entries_view().len() ==> (#[trigger] self.entries_view()[i]).0.kview()
                    != (#[trigger] self.entries_view()[j]).0.kview(),
            forall|k: Seq<Option<Seq<char>>>|
                #[trigger] self.count(k) > 0 ==> exists|i: int|
                    0 <= i < self.entries_view().len() && self.entries_view()[i].0.kview() == k,
    {
        assert forall|i: int| 0 <= i < self.entries_view().len() implies #[trigger] self.count(
            self.entries_view()[i].0.kview(),
        ) == self.entries_view()[i].1 && self.entries_view()[i].1 > 0 by {
            let k = self.entries@[i].0.kview();
            assert(self.keys()[i] == k);
            assert(exists|c: int| 0 <= c < self.entries@.len() && self.entries@[c].0.kview() == k);
            assert forall|c: int| 0 <= c < self.entries@.len() && self.entries@[c].0.kview() == k implies c == i by {
                assert(self.keys()[c] == k);
            }
            assert(self.entries@[i].1 > 0);
            assert(self.count(k) == self.entries@[i].1 as nat);
            assert(self.entries_view()[i] == self.entries@[i]);
        }
        assert forall|k: Seq<Option<Seq<char>>>|
            #[trigger] self.count(k) > 0 implies exists|i: int|
                0 <= i < self.entries_view().len() && self.entries_view()[i].0.kview() == k by {
            if !(exists|c: int| 0 <= c < self.entries@.len() && self.entries@[c].0.kview() == k) {
                assert(self.count(k) == 0);
            } else {
                let c = choose|c: int| 0 <= c < self.entries@.len() && self.entries@[c].0.kview() == k;
                assert(self.entries_view()[c] == self.entries@[c]);
                assert(0 <= c < self.entries_view().len() && self.entries_view()[c].0.kview() == k);
            }
        }
        assert forall|i: int, j: int|
            0 <= i < j < self.entries_view().len() implies (#[trigger] self.entries_view()[i]).0.kview()
                != (#[trigger] self.entries_view()[j]).0.kview() by {
            assert(self.keys()[i] != self.keys()[j]);
        }
    }

    /// The sum of all counts.
    pub fn total(&self) -> (r: u64)
        requires
            self.total_view() <= u64::MAX,
        ensures
            r == self.total_view(),
    {
        let mut sum: u64 = 0;
        let mut i: usize = 0;
        while i < self.entries.len()
            invariant
                i <= self.entries.len(),
                sum == counts_total(self.entries@.take(i as int)),
                counts_total(self.entries@) <= u64::MAX,
            decreases self.entries.len() - i,
        {
            assert(self.entries@.take(i + 1).drop_last() == self.entries@.take(i as int));
            proof {
                lemma_counts_total_prefix(self.entries@, i as int + 1);
            }
            sum = sum + self.entries[i].1;
            i += 1;
        }
        assert(self.entries@.take(i as int) == self.entries@);
        sum
    }
}

pub proof fn lemma_counts_total_prefix<K>(s: Seq<(K, u64)>, n: int)
    requires
        0 <= n <= s.len(),
    ensures
        0 <= counts_total(s.take(n)) <= counts_total(s),
    decreases s.len() - n,
{
    if n < s.len() {
        lemma_counts_total_prefix(s, n + 1);
        assert(s.take(n + 1).drop_last() == s.take(n));
    } else {
        assert(s.take(n) == s);
    }
    lemma_counts_total_nonneg(s.take(n));
}

pub proof fn lemma_counts_total_update<K>(s: Seq<(K, u64)>, i: int, e: (K, u64))
    requires
        0 <= i < s.len(),
    ensures
        counts_total(s.update(i, e)) == counts_total(s) - s[i].1 + e.1,
    decreases s.len(),
{
    if i == s.len() - 1 {
        assert(s.update(i, e).drop_last() == s.drop_last());
    } else {
        lemma_counts_total_update(s.drop_last(), i, e);
        assert(s.update(i, e).drop_last() == s.drop_last().update(i, e));
    }
}

pub proof fn lemma_counts_total_nonneg<K>(s: Seq<(K, u64)>)
    ensures
        counts_total(s) >= 0,
    decreases s.len(),
{
    if s.len() > 0 {
        lemma_counts_total_nonneg(s.drop_last());
    }
}

/// Everything that changed (or would change) in one region.
#[derive(Debug)]
pub struct RegionReport {
    pub name: String,
    pub size: (i32, i32, i32),
    /// Replacement counts keyed by `(source block, target block)`.
    pub replacements: Counts<(String, String)>,
    /// Blocks left untouched because they carry block entity data, keyed by
    /// block name.
    pub skipped_block_entities: Counts<String>,
    /// Property-drop notes for replacements that occurred in this region.
    pub warnings: Vec<String>,
    /// Counts of blocks that passed through unchanged (air excluded), keyed
    /// by block name and the detected category key, if any.
    pub kept: Counts<(String, Option<String>)>,
    /// Number of non-air blocks in the region.
    pub blocks: u64,
}

impl RegionReport {
    /// An empty report for a region.
    pub fn new(name: String, size: (i32, i32, i32)) -> (r: RegionReport)
        ensures
            r.name == name,
            r.size == size,
            r.replacements.wf(),
            r.skipped_block_entities.wf(),
            r.kept.wf(),
            forall|k: Seq<Option<Seq<char>>>| #[trigger] r.replacements.count(k) == 0,
            forall|k: Seq<Option<Seq<char>>>| #[trigger] r.skipped_block_entities.count(k) == 0,
            forall|k: Seq<Option<Seq<char>>>| #[trigger] r.kept.count(k) == 0,
            r.replacements.total_view() == 0,
            r.skipped_block_entities.len_view() == 0,
            r.warnings@.len() == 0,
            r.blocks == 0,
    {
        RegionReport {
            name,
            size,
            replacements: Counts::new(),
            skipped_block_entities: Counts::new(),
            warnings: Vec::new(),
            kept: Counts::new(),
            blocks: 0,
        }
    }

    /// Number of blocks replaced.
    pub fn replaced(&self) -> (r: u64)
        requires
            self.replacements.total_view() <= u64::MAX,
        ensures
            r == self.replacements.total_view(),
    {
        self.replacements.total()
    }
}

pub open spec fn replaced_total(s: Seq<RegionReport>) -> int
    decreases s.len(),
{
    if s.len() == 0 {
        0
    } else {
        replaced_total(s.drop_last()) + s.last().replacements.total_view()
    }
}

pub open spec fn blocks_total(s: Seq<RegionReport>) -> int
    decreases s.len(),
{
    if s.len() == 0 {
        0
    } else {
        blocks_total(s.drop_last()) + s.last().blocks
    }
}

pub open spec fn warnings_total(s: Seq<RegionReport>) -> int
    decreases s.len(),
{
    if s.len() == 0 {
        0
    } else {
        warnings_total(s.drop_last()) + s.last().warnings@.len() + s.last().skipped_block_entities.len_view()
    }
}

/// The reports of all normalized regions.
#[derive(Debug, Default)]
pub struct ChangeReport {
    pub regions: Vec<RegionReport>,
}

impl ChangeReport {
    /// Number of blocks replaced across regions.
    pub fn replaced(&self) -> (r: u64)
        requires
            forall|i: int| 0 <= i <= self.regions@.len() ==> replaced_total(#[trigger] self.regions@.take(i)) <= u64::MAX,
            forall|i: int| 0 <= i < self.regions@.len() ==> (#[trigger] self.regions@[i]).replacements.total_view() >= 0,
        ensures
            r == replaced_total(self.regions@),
    {
        let mut sum: u64 = 0;
        let mut i: usize = 0;
        while i < self.regions.len()
            invariant
                i <= self.regions.len(),
                forall|j: int| 0 <= j <= self.regions@.len() ==> replaced_total(#[trigger] self.regions@.take(j)) <= u64::MAX,
                forall|j: int| 0 <= j < self.regions@.len() ==> (#[trigger] self.regions@[j]).replacements.total_view() >= 0,
                sum == replaced_total(self.regions@.take(i as int)),
            decreases self.regions.len() - i,
        {
            assert(self.regions@.take(i + 1).drop_last() == self.regions@.take(i as int));
            assert(replaced_total(self.regions@.take(i + 1)) <= u64::MAX);
            let n = self.regions[i].replaced();
            sum = sum + n;
            i += 1;
        }
        assert(self.regions@.take(i as int) == self.regions@);
        sum
    }

    /// Number of counted blocks across regions.
    pub fn blocks(&self) -> (r: u64)
        requires
            forall|i: int| 0 <= i <= self.regions@.len() ==> blocks_total(#[trigger] self.regions@.take(i)) <= u64::MAX,
        ensures
            r == blocks_total(self.regions@),
    {
        let mut sum: u64 = 0;
        let mut i: usize = 0;
        while i < self.regions.len()
            invariant
                i <= self.regions.len(),
                forall|j: int| 0 <= j <= self.regions@.len() ==> blocks_total(#[trigger] self.regions@.take(j)) <= u64::MAX,
                sum == blocks_total(self.regions@.take(i as int)),
            decreases self.regions.len() - i,
        {
            assert(self.regions@.take(i + 1).drop_last() == self.regions@.take(i as int));
            assert(blocks_total(self.regions@.take(i + 1)) <= u64::MAX);
            sum = sum + self.regions[i].blocks;
            i += 1;
        }
        assert(self.regions@.take(i as int) == self.regions@);
        sum
    }

    /// Number of warnings across regions: property drops and kinds of
    /// skipped block entity blocks.
    pub fn warning_count(&self) -> (r: usize)
        requires
            forall|i: int| 0 <= i <= self.regions@.len() ==> warnings_total(#[trigger] self.regions@.take(i)) <= usize::MAX,
        ensures
            r == warnings_total(self.regions@),
    {
        let mut sum: usize = 0;
        let mut i: usize = 0;
        while i < self.regions.len()
            invariant
                i <= self.regions.len(),
                forall|j: int| 0 <= j <= self.regions@.len() ==> warnings_total(#[trigger] self.regions@.take(j)) <= usize::MAX,
                sum == warnings_total(self.regions@.take(i as int)),
            decreases self.regions.len() - i,
        {
            assert(self.regions@.take(i + 1).drop_last() == self.regions@.take(i as int));
            assert(warnings_total(self.regions@.take(i + 1)) <= usize::MAX);
            sum = sum + self.regions[i].warnings.len() + self.regions[i].skipped_block_entities.len();
            i += 1;
        }
        assert(self.regions@.take(i as int) == self.regions@);
        sum
    }
}


/// A counter key known by a single name.
pub trait RankKey: CountKey + Named {
    proof fn lemma_key_is_name(&self)
        ensures
            self.kview() == seq![Some(self.name_view())],
    ;

    fn copy_key(&self) -> (r: Self)
        ensures
            r.kview() == self.kview(),
            r.name_view() == self.name_view(),
    ;
}

impl RankKey for String {
    proof fn lemma_key_is_name(&self) {
    }

    fn copy_key(&self) -> (r: Self) {
        self.clone()
    }
}

impl RankKey for BlockId {
    proof fn lemma_key_is_name(&self) {
    }

    fn copy_key(&self) -> (r: Self) {
        self.copy()
    }
}

/// The counted names with their counts, most counted first, equal counts
/// by name.
pub fn ranked_entries<K: RankKey>(counts: &Counts<K>) -> (r: Vec<(K, u64)>)
    requires
        counts.wf(),
    ensures
        ranked(ranks_view(r@)),
        forall|i: int|
            0 <= i < r@.len() ==> (#[trigger] r@[i]).1 == counts.count(seq![Some(r@[i].0.name_view())])
                && r@[i].1 > 0,
        forall|n: Seq<char>|
            #[trigger] counts.count(seq![Some(n)]) > 0 ==> exists|i: int| 0 <= i < r@.len() && r@[i].0.name_view() == n,
        forall|i: int, j: int|
            0 <= i < j < r@.len() ==> (#[trigger] r@[i]).0.name_view() != (#[trigger] r@[j]).0.name_view(),
{
    let entries = counts.entries();
    let mut listed: Vec<(K, u64)> = Vec::new();
    let mut e: usize = 0;
    proof {
        counts.lemma_entries();
    }
    while e < entries.len()
        invariant
            e <= entries@.len(),
            entries@ == counts.entries_view(),
            ranks_view(listed@) == ranks_view(entries@.take(e as int)),
        decreases entries@.len() - e,
    {
        let key = entries[e].0.copy_key();
        listed.push((key, entries[e].1));
        proof {
            assert(ranks_view(entries@.take(e + 1)) =~= ranks_view(entries@.take(e as int)).push(
                rank_view(entries@[e as int]),
            ));
            assert(ranks_view(listed@) =~= ranks_view(entries@.take(e + 1)));
        }
        e += 1;
    }
    proof {
        assert(entries@.take(e as int) == entries@);
    }
    let out = rank_by_count(listed);
    proof {
        let ev = ranks_view(entries@);
        let rv = ranks_view(out@);
        assert(ev.no_duplicates()) by {
            assert forall|a: int, b: int| 0 <= a < ev.len() && 0 <= b < ev.len() && a != b implies ev[a] != ev[b] by {
                if a < b {
                    assert(entries@[a].0.kview() != entries@[b].0.kview());
                } else {
                    assert(entries@[b].0.kview() != entries@[a].0.kview());
                }
                entries@[a].0.lemma_key_is_name();
                entries@[b].0.lemma_key_is_name();
            }
        }
        ev.lemma_multiset_has_no_duplicates();
        rv.lemma_multiset_has_no_duplicates_conv();
        ev.to_multiset_ensures();
        rv.to_multiset_ensures();
        assert forall|i: int| 0 <= i < out@.len() implies (#[trigger] out@[i]).1 == counts.count(
            seq![Some(out@[i].0.name_view())],
        ) && out@[i].1 > 0 by {
            assert(rv[i] == rank_view(out@[i]));
            assert(rv.to_multiset().count(rv[i]) > 0);
            assert(ev.contains(rv[i]));
            let j = choose|j: int| 0 <= j < ev.len() && ev[j] == rv[i];
            entries@[j].0.lemma_key_is_name();
            assert(counts.count(entries@[j].0.kview()) == entries@[j].1);
        }
        assert forall|n: Seq<char>| #[trigger] counts.count(seq![Some(n)]) > 0 implies exists|i: int|
            0 <= i < out@.len() && out@[i].0.name_view() == n by {
            let k = seq![Some(n)];
            let j = choose|j: int| 0 <= j < entries@.len() && entries@[j].0.kview() == k;
            entries@[j].0.lemma_key_is_name();
            assert(entries@[j].0.kview()[0] == Some(entries@[j].0.name_view()));
            assert(ev[j] == rank_view(entries@[j]));
            assert(ev.to_multiset().count(ev[j]) > 0);
            assert(rv.contains(ev[j]));
            let i = choose|i: int| 0 <= i < rv.len() && rv[i] == ev[j];
            assert(out@[i].0.name_view() == n);
        }
        assert forall|i: int, j: int| 0 <= i < j < out@.len() implies (#[trigger] out@[i]).0.name_view()
            != (#[trigger] out@[j]).0.name_view() by {
            if out@[i].0.name_view() == out@[j].0.name_view() {
                assert(rv[i] == rank_view(out@[i]));
                assert(rv[j] == rank_view(out@[j]));
                assert(rv[i] == rv[j]);
            }
        }
    }
    out
}

} // verus!
