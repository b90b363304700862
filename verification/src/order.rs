use vstd::prelude::*;

use vstd::multiset::Multiset;

use crate::text::chars_of;

verus! {

broadcast use vstd::seq_lib::group_seq_properties;

/// The outcome of a three-way comparison.
#[derive(Debug, Clone, Copy, PartialEq, Eq, Structural)]
pub enum Order {
    Less,
    Equal,
    Greater,
}

/// Lexicographic order of character sequences by code point; the order of
/// `str`'s `Ord`, since UTF-8 keeps the code point order.
pub open spec fn seq_order(a: Seq<char>, b: Seq<char>) -> Order
    decreases a.len(),
{
    if a.len() == 0 {
        if b.len() == 0 {
            Order::Equal
        } else {
            Order::Less
        }
    } else if b.len() == 0 {
        Order::Greater
    } else if a[0] < b[0] {
        Order::Less
    } else if a[0] > b[0] {
        Order::Greater
    } else {
        seq_order(a.drop_first(), b.drop_first())
    }
}

pub open spec fn seq_le(a: Seq<char>, b: Seq<char>) -> bool {
    seq_order(a, b) != Order::Greater
}

/// Order of string pairs: by the first, then by the second.
pub open spec fn pair_order(a: (Seq<char>, Seq<char>), b: (Seq<char>, Seq<char>)) -> Order {
    if seq_order(a.0, b.0) != Order::Equal {
        seq_order(a.0, b.0)
    } else {
        seq_order(a.1, b.1)
    }
}

pub open spec fn pair_le(a: (Seq<char>, Seq<char>), b: (Seq<char>, Seq<char>)) -> bool {
    pair_order(a, b) != Order::Greater
}

pub open spec fn pair_view(p: (String, String)) -> (Seq<char>, Seq<char>) {
    (p.0@, p.1@)
}

pub open spec fn pairs_view(s: Seq<(String, String)>) -> Seq<(Seq<char>, Seq<char>)> {
    s.map_values(|p: (String, String)| pair_view(p))
}

pub open spec fn pairs_sorted(s: Seq<(Seq<char>, Seq<char>)>) -> bool {
    forall|i: int, j: int| 0 <= i < j < s.len() ==> pair_le(#[trigger] s[i], #[trigger] s[j])
}

pub proof fn lemma_order_equal(a: Seq<char>, b: Seq<char>)
    ensures
        (seq_order(a, b) == Order::Equal) == (a == b),
    decreases a.len(),
{
    if a.len() > 0 && b.len() > 0 && a[0] == b[0] {
        lemma_order_equal(a.drop_first(), b.drop_first());
        if a.drop_first() == b.drop_first() {
            assert(a =~= seq![a[0]] + a.drop_first());
            assert(b =~= seq![b[0]] + b.drop_first());
        }
    }
    if a.len() > 0 && b.len() > 0 && a == b {
        assert(a[0] == b[0]);
    }
}

pub proof fn lemma_order_flip(a: Seq<char>, b: Seq<char>)
    ensures
        (seq_order(a, b) == Order::Less) == (seq_order(b, a) == Order::Greater),
        (seq_order(a, b) == Order::Equal) == (seq_order(b, a) == Order::Equal),
    decreases a.len(),
{
    if a.len() > 0 && b.len() > 0 && a[0] == b[0] {
        lemma_order_flip(a.drop_first(), b.drop_first());
    }
}

pub proof fn lemma_order_trans(a: Seq<char>, b: Seq<char>, c: Seq<char>)
    ensures
        seq_order(a, b) == Order::Less && seq_order(b, c) == Order::Less ==> seq_order(a, c) == Order::Less,
        seq_le(a, b) && seq_le(b, c) ==> seq_le(a, c),
    decreases a.len(),
{
    lemma_order_equal(a, b);
    lemma_order_equal(b, c);
    if a.len() > 0 && b.len() > 0 && c.len() > 0 && a[0] == b[0] && b[0] == c[0] {
        lemma_order_trans(a.drop_first(), b.drop_first(), c.drop_first());
    }
}

pub proof fn lemma_pair_total(a: (Seq<char>, Seq<char>), b: (Seq<char>, Seq<char>))
    ensures
        pair_le(a, b) || pair_le(b, a),
        pair_le(a, b) && pair_le(b, a) ==> a == b,
{
    lemma_order_flip(a.0, b.0);
    lemma_order_flip(a.1, b.1);
    lemma_order_equal(a.0, b.0);
    lemma_order_equal(a.1, b.1);
}

pub proof fn lemma_pair_trans(
    a: (Seq<char>, Seq<char>),
    b: (Seq<char>, Seq<char>),
    c: (Seq<char>, Seq<char>),
)
    ensures
        pair_le(a, b) && pair_le(b, c) ==> pair_le(a, c),
{
    lemma_order_trans(a.0, b.0, c.0);
    lemma_order_trans(a.1, b.1, c.1);
    lemma_order_equal(a.0, b.0);
    lemma_order_equal(b.0, c.0);
    lemma_order_equal(a.0, c.0);
    lemma_order_flip(a.0, b.0);
    lemma_order_flip(b.0, c.0);
}

/// Three-way comparison of two strings in `str` order.
pub fn compare_str(a: &str, b: &str) -> (r: Order)
    ensures
        r == seq_order(a@, b@),
{
    let x = chars_of(a);
    let y = chars_of(b);
    let mut i: usize = 0;
    assert(x@.skip(0) == x@ && y@.skip(0) == y@);
    while i < x.len() && i < y.len()
        invariant
            i <= x.len() && i <= y.len(),
            x@ == a@ && y@ == b@,
            seq_order(x@, y@) == seq_order(x@.skip(i as int), y@.skip(i as int)),
        decreases x.len() - i,
    {
        assert(x@.skip(i as int)[0] == x@[i as int] && y@.skip(i as int)[0] == y@[i as int]);
        let ghost xs = x@.skip(i as int);
        let ghost ys = y@.skip(i as int);
        assert(xs.len() > 0 && ys.len() > 0);
        if x[i] < y[i] {
            assert(xs[0] < ys[0]);
            assert(seq_order(xs, ys) == Order::Less);
            return Order::Less;
        }
        if x[i] > y[i] {
            assert(seq_order(xs, ys) == Order::Greater);
            return Order::Greater;
        }
        assert(x@.skip(i as int).drop_first() == x@.skip(i + 1));
        assert(y@.skip(i as int).drop_first() == y@.skip(i + 1));
        i += 1;
    }
    if i == x.len() && i == y.len() {
        Order::Equal
    } else if i == x.len() {
        Order::Less
    } else {
        Order::Greater
    }
}

/// Three-way comparison of two string pairs.
pub fn compare_pair(a: &(String, String), b: &(String, String)) -> (r: Order)
    ensures
        r == pair_order(pair_view(*a), pair_view(*b)),
{
    let first = compare_str(a.0.as_str(), b.0.as_str());
    match first {
        Order::Equal => compare_str(a.1.as_str(), b.1.as_str()),
        _ => first,
    }
}

/// Two sorted sequences with the same elements are equal.
pub proof fn lemma_sorted_unique(s: Seq<(Seq<char>, Seq<char>)>, t: Seq<(Seq<char>, Seq<char>)>)
    requires
        pairs_sorted(s),
        pairs_sorted(t),
        s.to_multiset() == t.to_multiset(),
    ensures
        s == t,
    decreases s.len(),
{
    s.to_multiset_ensures();
    t.to_multiset_ensures();
    if s.len() == 0 {
        assert(t.len() == 0);
        assert(s =~= t);
    } else {
        assert(t.len() == s.len());
        let a = s[0];
        let b = t[0];
        assert(s.contains(a));
        assert(t.to_multiset().count(a) > 0);
        assert(t.contains(a));
        let j = choose|j: int| 0 <= j < t.len() && t[j] == a;
        assert(s.to_multiset().count(b) > 0);
        assert(s.contains(b));
        let i = choose|i: int| 0 <= i < s.len() && s[i] == b;
        if i > 0 {
            assert(pair_le(s[0], s[i]));
        }
        if j > 0 {
            assert(pair_le(t[0], t[j]));
        }
        lemma_pair_total(a, a);
        lemma_pair_total(b, b);
        assert(pair_le(a, b));
        assert(pair_le(b, a));
        lemma_pair_total(a, b);
        assert(a == b);
        let s2 = s.drop_first();
        let t2 = t.drop_first();
        assert(s =~= seq![a] + s2);
        assert(t =~= seq![a] + t2);
        assert(s.remove(0) =~= s2);
        assert(t.remove(0) =~= t2);
        assert(s2.to_multiset() == s.to_multiset().remove(a));
        assert(t2.to_multiset() == t.to_multiset().remove(a));
        assert forall|x: int, y: int| 0 <= x < y < s2.len() implies pair_le(
            #[trigger] s2[x],
            #[trigger] s2[y],
        ) by {
            assert(s2[x] == s[x + 1] && s2[y] == s[y + 1]);
        }
        assert forall|x: int, y: int| 0 <= x < y < t2.len() implies pair_le(
            #[trigger] t2[x],
            #[trigger] t2[y],
        ) by {
            assert(t2[x] == t[x + 1] && t2[y] == t[y + 1]);
        }
        lemma_sorted_unique(s2, t2);
    }
}

/// Index of a smallest pair of `v`.
fn min_pair_index(v: &Vec<(String, String)>) -> (r: usize)
    requires
        v.len() > 0,
    ensures
        r < v.len(),
        forall|k: int| 0 <= k < v.len() ==> pair_le(pair_view(v@[r as int]), pair_view(#[trigger] v@[k])),
{
    let mut best: usize = 0;
    let mut i: usize = 1;
    proof {
        lemma_pair_total(pair_view(v@[0]), pair_view(v@[0]));
    }
    while i < v.len()
        invariant
            v.len() > 0,
            best < i <= v.len(),
            forall|k: int| 0 <= k < i ==> pair_le(pair_view(v@[best as int]), pair_view(#[trigger] v@[k])),
        decreases v.len() - i,
    {
        if compare_pair(&v[i], &v[best]) == Order::Less {
            proof {
                assert forall|k: int| 0 <= k < i + 1 implies pair_le(
                    pair_view(v@[i as int]),
                    pair_view(#[trigger] v@[k]),
                ) by {
                    if k < i {
                        lemma_pair_trans(pair_view(v@[i as int]), pair_view(v@[best as int]), pair_view(v@[k]));
                    } else {
                        lemma_pair_total(pair_view(v@[i as int]), pair_view(v@[k]));
                    }
                }
            }
            best = i;
        } else {
            proof {
                lemma_order_flip(pair_view(v@[i as int]).0, pair_view(v@[best as int]).0);
                lemma_order_flip(pair_view(v@[i as int]).1, pair_view(v@[best as int]).1);
            }
        }
        i += 1;
    }
    best
}

/// The pairs of `v` in ascending order.
pub fn sort_pairs(v: Vec<(String, String)>) -> (r: Vec<(String, String)>)
    ensures
        pairs_sorted(pairs_view(r@)),
        pairs_view(r@).to_multiset() == pairs_view(v@).to_multiset(),
        r.len() == v.len(),
{
    let mut rest = v;
    let mut out: Vec<(String, String)> = Vec::new();
    let ghost total = pairs_view(rest@).to_multiset();
    while rest.len() > 0
        invariant
            pairs_sorted(pairs_view(out@)),
            forall|a: int, b: int|
                0 <= a < out.len() && 0 <= b < rest.len() ==> pair_le(
                    pair_view(#[trigger] out@[a]),
                    pair_view(#[trigger] rest@[b]),
                ),
            pairs_view(out@).to_multiset().add(pairs_view(rest@).to_multiset()) == total,
            out.len() + rest.len() == v.len(),
        decreases rest.len(),
    {
        let m = min_pair_index(&rest);
        let ghost old_rest = rest@;
        let ghost old_out = out@;
        let p = rest.remove(m);
        out.push(p);
        proof {
            pairs_view(old_rest).to_multiset_ensures();
            pairs_view(old_out).to_multiset_ensures();
            assert(pairs_view(rest@) =~= pairs_view(old_rest).remove(m as int));
            assert(pairs_view(out@) =~= pairs_view(old_out).push(pair_view(p)));
            assert(pairs_view(old_rest)[m as int] == pair_view(p));
            assert forall|i: int, j: int| 0 <= i < j < pairs_view(out@).len() implies pair_le(
                #[trigger] pairs_view(out@)[i],
                #[trigger] pairs_view(out@)[j],
            ) by {
                if j == out.len() - 1 {
                    assert(pair_le(pair_view(old_out[i]), pair_view(old_rest[m as int])));
                } else {
                    assert(pair_le(pairs_view(old_out)[i], pairs_view(old_out)[j]));
                }
            }
            assert forall|a: int, b: int| 0 <= a < out.len() && 0 <= b < rest.len() implies pair_le(
                pair_view(#[trigger] out@[a]),
                pair_view(#[trigger] rest@[b]),
            ) by {
                let ob = if b < m { b } else { b + 1 };
                assert(rest@[b] == old_rest[ob]);
                if a == out.len() - 1 {
                    assert(pair_le(pair_view(old_rest[m as int]), pair_view(old_rest[ob])));
                } else {
                    assert(pair_le(pair_view(old_out[a]), pair_view(old_rest[ob])));
                }
            }
        }
    }
    proof {
        pairs_view(rest@).to_multiset_ensures();
        assert(pairs_view(rest@).to_multiset() =~= Multiset::empty());
    }
    out
}

pub open spec fn strings_sorted(s: Seq<Seq<char>>) -> bool {
    forall|i: int, j: int| 0 <= i < j < s.len() ==> seq_le(#[trigger] s[i], #[trigger] s[j])
}

pub proof fn lemma_seq_total(a: Seq<char>, b: Seq<char>)
    ensures
        seq_le(a, b) || seq_le(b, a),
        seq_le(a, a),
{
    lemma_order_flip(a, b);
    lemma_order_equal(a, a);
}

/// Index of a smallest string of `v`.
fn min_string_index(v: &Vec<String>) -> (r: usize)
    requires
        v.len() > 0,
    ensures
        r < v.len(),
        forall|k: int| 0 <= k < v.len() ==> seq_le(v@[r as int]@, (#[trigger] v@[k])@),
{
    let mut best: usize = 0;
    let mut i: usize = 1;
    proof {
        lemma_seq_total(v@[0]@, v@[0]@);
    }
    while i < v.len()
        invariant
            v.len() > 0,
            best < i <= v.len(),
            forall|k: int| 0 <= k < i ==> seq_le(v@[best as int]@, (#[trigger] v@[k])@),
        decreases v.len() - i,
    {
        if compare_str(v[i].as_str(), v[best].as_str()) == Order::Less {
            proof {
                assert forall|k: int| 0 <= k < i + 1 implies seq_le(v@[i as int]@, (#[trigger] v@[k])@) by {
                    if k < i {
                        lemma_order_trans(v@[i as int]@, v@[best as int]@, v@[k]@);
                    } else {
                        lemma_seq_total(v@[k]@, v@[k]@);
                    }
                }
            }
            best = i;
        } else {
            proof {
                lemma_order_flip(v@[i as int]@, v@[best as int]@);
            }
        }
        i += 1;
    }
    best
}

/// The strings of `v` in ascending order.
pub fn sort_strings(v: Vec<String>) -> (r: Vec<String>)
    ensures
        strings_sorted(r@.map_values(|s: String| s@)),
        r@.map_values(|s: String| s@).to_multiset() == v@.map_values(|s: String| s@).to_multiset(),
        r.len() == v.len(),
{
    let mut rest = v;
    let mut out: Vec<String> = Vec::new();
    let ghost total = rest@.map_values(|s: String| s@).to_multiset();
    while rest.len() > 0
        invariant
            strings_sorted(out@.map_values(|s: String| s@)),
            forall|a: int, b: int|
                0 <= a < out.len() && 0 <= b < rest.len() ==> seq_le((#[trigger] out@[a])@, (#[trigger] rest@[b])@),
            out@.map_values(|s: String| s@).to_multiset().add(rest@.map_values(|s: String| s@).to_multiset()) == total,
            out.len() + rest.len() == v.len(),
        decreases rest.len(),
    {
        let m = min_string_index(&rest);
        let ghost old_rest = rest@;
        let ghost old_out = out@;
        let p = rest.remove(m);
        out.push(p);
        proof {
            let f = |s: String| s@;
            old_rest.map_values(f).to_multiset_ensures();
            old_out.map_values(f).to_multiset_ensures();
            assert(rest@.map_values(f) =~= old_rest.map_values(f).remove(m as int));
            assert(out@.map_values(f) =~= old_out.map_values(f).push(p@));
            assert(old_rest.map_values(f)[m as int] == p@);
            assert forall|i: int, j: int| 0 <= i < j < out@.map_values(f).len() implies seq_le(
                #[trigger] out@.map_values(f)[i],
                #[trigger] out@.map_values(f)[j],
            ) by {
                if j == out.len() - 1 {
                    assert(seq_le(old_out[i]@, old_rest[m as int]@));
                } else {
                    assert(seq_le(old_out.map_values(f)[i], old_out.map_values(f)[j]));
                }
            }
            assert forall|a: int, b: int| 0 <= a < out.len() && 0 <= b < rest.len() implies seq_le(
                (#[trigger] out@[a])@,
                (#[trigger] rest@[b])@,
            ) by {
                let ob = if b < m { b } else { b + 1 };
                assert(rest@[b] == old_rest[ob]);
                if a == out.len() - 1 {
                    assert(seq_le(old_rest[m as int]@, old_rest[ob]@));
                } else {
                    assert(seq_le(old_out[a]@, old_rest[ob]@));
                }
            }
        }
    }
    proof {
        rest@.map_values(|s: String| s@).to_multiset_ensures();
        assert(rest@.map_values(|s: String| s@).to_multiset() =~= Multiset::empty());
    }
    out
}


/// A value known by a name, such as a block id.
pub trait Named: Sized {
    spec fn name_view(&self) -> Seq<char>;

    fn name_str(&self) -> (r: &str)
        ensures
            r@ == self.name_view(),
    ;
}

impl Named for String {
    open spec fn name_view(&self) -> Seq<char> {
        self@
    }

    fn name_str(&self) -> (r: &str) {
        self.as_str()
    }
}

/// A named count seen as its name and count.
pub open spec fn rank_view<K: Named>(e: (K, u64)) -> (Seq<char>, u64) {
    (e.0.name_view(), e.1)
}

pub open spec fn ranks_view<K: Named>(s: Seq<(K, u64)>) -> Seq<(Seq<char>, u64)> {
    s.map_values(|e: (K, u64)| rank_view(e))
}

/// Ranking order: higher counts first, then names in ascending order.
pub open spec fn rank_le(a: (Seq<char>, u64), b: (Seq<char>, u64)) -> bool {
    a.1 > b.1 || (a.1 == b.1 && seq_le(a.0, b.0))
}

pub open spec fn ranked(s: Seq<(Seq<char>, u64)>) -> bool {
    forall|i: int, j: int| 0 <= i < j < s.len() ==> rank_le(#[trigger] s[i], #[trigger] s[j])
}

proof fn lemma_rank_total(a: (Seq<char>, u64), b: (Seq<char>, u64))
    ensures
        rank_le(a, b) || rank_le(b, a),
        rank_le(a, a),
{
    lemma_seq_total(a.0, b.0);
}

proof fn lemma_rank_trans(a: (Seq<char>, u64), b: (Seq<char>, u64), c: (Seq<char>, u64))
    ensures
        rank_le(a, b) && rank_le(b, c) ==> rank_le(a, c),
{
    lemma_order_trans(a.0, b.0, c.0);
}

/// Index of a first-ranked entry of `v`.
fn top_rank_index<K: Named>(v: &Vec<(K, u64)>) -> (r: usize)
    requires
        v.len() > 0,
    ensures
        r < v.len(),
        forall|k: int| 0 <= k < v.len() ==> rank_le(rank_view(v@[r as int]), rank_view(#[trigger] v@[k])),
{
    let mut best: usize = 0;
    let mut i: usize = 1;
    proof {
        lemma_rank_total(rank_view(v@[0]), rank_view(v@[0]));
    }
    while i < v.len()
        invariant
            v.len() > 0,
            best < i <= v.len(),
            forall|k: int| 0 <= k < i ==> rank_le(rank_view(v@[best as int]), rank_view(#[trigger] v@[k])),
        decreases v.len() - i,
    {
        let better = v[i].1 > v[best].1 || (v[i].1 == v[best].1 && compare_str(
            v[i].0.name_str(),
            v[best].0.name_str(),
        ) == Order::Less);
        if better {
            proof {
                assert(rank_le(rank_view(v@[i as int]), rank_view(v@[best as int])));
                assert forall|k: int| 0 <= k < i + 1 implies rank_le(
                    rank_view(v@[i as int]),
                    rank_view(#[trigger] v@[k]),
                ) by {
                    if k < i {
                        lemma_rank_trans(rank_view(v@[i as int]), rank_view(v@[best as int]), rank_view(v@[k]));
                    } else {
                        lemma_rank_total(rank_view(v@[k]), rank_view(v@[k]));
                    }
                }
            }
            best = i;
        } else {
            proof {
                lemma_order_flip(v@[i as int].0.name_view(), v@[best as int].0.name_view());
                lemma_order_equal(v@[i as int].0.name_view(), v@[best as int].0.name_view());
                assert(rank_le(rank_view(v@[best as int]), rank_view(v@[i as int])));
            }
        }
        i += 1;
    }
    best
}

/// The entries of `v` ranked: higher counts first, then names in ascending
/// order.
pub fn rank_by_count<K: Named>(v: Vec<(K, u64)>) -> (r: Vec<(K, u64)>)
    ensures
        ranked(ranks_view(r@)),
        ranks_view(r@).to_multiset() == ranks_view(v@).to_multiset(),
        r.len() == v.len(),
{
    let mut rest = v;
    let mut out: Vec<(K, u64)> = Vec::new();
    let ghost total = ranks_view(rest@).to_multiset();
    while rest.len() > 0
        invariant
            ranked(ranks_view(out@)),
            forall|a: int, b: int|
                0 <= a < out.len() && 0 <= b < rest.len() ==> rank_le(
                    rank_view(#[trigger] out@[a]),
                    rank_view(#[trigger] rest@[b]),
                ),
            ranks_view(out@).to_multiset().add(ranks_view(rest@).to_multiset()) == total,
            out.len() + rest.len() == v.len(),
        decreases rest.len(),
    {
        let m = top_rank_index(&rest);
        let ghost old_rest = rest@;
        let ghost old_out = out@;
        let p = rest.remove(m);
        out.push(p);
        proof {
            ranks_view(old_rest).to_multiset_ensures();
            ranks_view(old_out).to_multiset_ensures();
            assert(ranks_view(rest@) =~= ranks_view(old_rest).remove(m as int));
            assert(ranks_view(out@) =~= ranks_view(old_out).push(rank_view(p)));
            assert(ranks_view(old_rest)[m as int] == rank_view(p));
            assert forall|i: int, j: int| 0 <= i < j < ranks_view(out@).len() implies rank_le(
                #[trigger] ranks_view(out@)[i],
                #[trigger] ranks_view(out@)[j],
            ) by {
                if j == out.len() - 1 {
                    assert(rank_le(rank_view(old_out[i]), rank_view(old_rest[m as int])));
                } else {
                    assert(rank_le(ranks_view(old_out)[i], ranks_view(old_out)[j]));
                }
            }
            assert forall|a: int, b: int| 0 <= a < out.len() && 0 <= b < rest.len() implies rank_le(
                rank_view(#[trigger] out@[a]),
                rank_view(#[trigger] rest@[b]),
            ) by {
                let ob = if b < m { b } else { b + 1 };
                assert(rest@[b] == old_rest[ob]);
                if a == out.len() - 1 {
                    assert(rank_le(rank_view(old_rest[m as int]), rank_view(old_rest[ob])));
                } else {
                    assert(rank_le(rank_view(old_out[a]), rank_view(old_rest[ob])));
                }
            }
        }
    }
    proof {
        ranks_view(rest@).to_multiset_ensures();
        assert(ranks_view(rest@).to_multiset() =~= Multiset::empty());
    }
    out
}

} // verus!
