use vstd::prelude::*;

verus! {

/// `char::is_whitespace`: the Unicode `White_Space` property.
pub open spec fn is_white_space(c: char) -> bool {
    ||| ('\u{9}' <= c && c <= '\u{d}')
    ||| c == ' '
    ||| c == '\u{85}'
    ||| c == '\u{a0}'
    ||| c == '\u{1680}'
    ||| ('\u{2000}' <= c && c <= '\u{200a}')
    ||| c == '\u{2028}'
    ||| c == '\u{2029}'
    ||| c == '\u{202f}'
    ||| c == '\u{205f}'
    ||| c == '\u{3000}'
}

pub fn check_white_space(c: char) -> (r: bool)
    ensures
        r == is_white_space(c),
{
    ('\u{9}' <= c && c <= '\u{d}') || c == ' ' || c == '\u{85}' || c == '\u{a0}' || c
        == '\u{1680}' || ('\u{2000}' <= c && c <= '\u{200a}') || c == '\u{2028}' || c
        == '\u{2029}' || c == '\u{202f}' || c == '\u{205f}' || c == '\u{3000}'
}

/// Leading white space removed.
pub open spec fn trim_start(s: Seq<char>) -> Seq<char>
    decreases s.len(),
{
    if s.len() > 0 && is_white_space(s[0]) {
        trim_start(s.drop_first())
    } else {
        s
    }
}

/// Trailing white space removed.
pub open spec fn trim_end(s: Seq<char>) -> Seq<char>
    decreases s.len(),
{
    if s.len() > 0 && is_white_space(s.last()) {
        trim_end(s.drop_last())
    } else {
        s
    }
}

/// `str::trim`: leading and trailing white space removed.
pub open spec fn trim(s: Seq<char>) -> Seq<char> {
    trim_end(trim_start(s))
}

proof fn lemma_trim_start_head(s: Seq<char>)
    ensures
        trim_start(s).len() == 0 || !is_white_space(trim_start(s)[0]),
    decreases s.len(),
{
    if s.len() > 0 && is_white_space(s[0]) {
        lemma_trim_start_head(s.drop_first());
    }
}

proof fn lemma_trim_end_prefix(u: Seq<char>)
    ensures
        trim_end(u).len() <= u.len(),
        trim_end(u) == u.take(trim_end(u).len() as int),
        trim_end(u).len() == 0 || !is_white_space(trim_end(u).last()),
    decreases u.len(),
{
    if u.len() > 0 && is_white_space(u.last()) {
        lemma_trim_end_prefix(u.drop_last());
        assert(u.drop_last().take(trim_end(u).len() as int) == u.take(trim_end(u).len() as int));
    } else {
        assert(u.take(u.len() as int) == u);
    }
}

/// Trimming twice trims as much as trimming once.
pub proof fn lemma_trim_idempotent(s: Seq<char>)
    ensures
        trim(trim(s)) == trim(s),
{
    let u = trim_start(s);
    let v = trim_end(u);
    lemma_trim_start_head(s);
    lemma_trim_end_prefix(u);
    if v.len() > 0 {
        assert(v[0] == u[0]);
        assert(trim_start(v) == v);
    } else {
        assert(trim_start(v) == v);
    }
    assert(trim_end(v) == v);
}

/// Index of the first occurrence of `c` in `s`, if any.
pub open spec fn first_index_of(s: Seq<char>, c: char) -> Option<int> {
    if exists|i: int| 0 <= i < s.len() && s[i] == c {
        Some(choose|i: int| 0 <= i < s.len() && s[i] == c && forall|j: int| 0 <= j < i ==> s[j] != c)
    } else {
        None
    }
}

/// `str::split_once` on a single character.
pub open spec fn split_once(s: Seq<char>, c: char) -> Option<(Seq<char>, Seq<char>)> {
    match first_index_of(s, c) {
        Some(k) => Some((s.take(k), s.skip(k + 1))),
        None => None,
    }
}

/// `s` ends with `p`.
pub open spec fn ends_with(s: Seq<char>, p: Seq<char>) -> bool {
    p.len() <= s.len() && s.skip(s.len() - p.len()) == p
}

/// `s` starts with `p`.
pub open spec fn starts_with(s: Seq<char>, p: Seq<char>) -> bool {
    p.len() <= s.len() && s.take(p.len() as int) == p
}

/// `s` holds `p` as a contiguous part.
pub open spec fn contains_seq(s: Seq<char>, p: Seq<char>) -> bool {
    exists|i: int| 0 <= i && i + p.len() <= s.len() && #[trigger] s.subrange(i, i + p.len()) == p
}

pub proof fn lemma_first_index(s: Seq<char>, c: char, i: int)
    requires
        0 <= i < s.len(),
        s[i] == c,
        forall|j: int| 0 <= j < i ==> s[j] != c,
    ensures
        first_index_of(s, c) == Some(i),
{
    let k = choose|k: int| 0 <= k < s.len() && s[k] == c && forall|j: int| 0 <= j < k ==> s[j] != c;
    assert(0 <= k < s.len() && s[k] == c && forall|j: int| 0 <= j < k ==> s[j] != c);
    if k < i {
        assert(s[k] != c);
    }
    if i < k {
        assert(s[i] != c);
    }
}

pub proof fn lemma_no_index(s: Seq<char>, c: char)
    requires
        forall|j: int| 0 <= j < s.len() ==> s[j] != c,
    ensures
        first_index_of(s, c) is None,
{
}

/// `String::push`: the string with one more character at its end.
#[verifier::external_body]
pub(crate) fn push_char(s: &mut String, c: char)
    ensures
        final(s)@ == old(s)@.push(c),
{
    s.push(c);
}

/// The characters of a string slice, in order.
pub fn chars_of(s: &str) -> (v: Vec<char>)
    ensures
        v@ == s@,
{
    let mut v: Vec<char> = Vec::new();
    for c in it: s.chars()
        invariant
            v@ == it.seq().take(it.index() as int),
            it.seq() == s@,
    {
        v.push(c);
    }
    v
}

/// A string made of the characters `v[from..to]`.
pub fn string_from_range(v: &Vec<char>, from: usize, to: usize) -> (s: String)
    requires
        from <= to <= v.len(),
    ensures
        s@ == v@.subrange(from as int, to as int),
{
    let mut s = String::new();
    let mut i = from;
    while i < to
        invariant
            from <= i <= to <= v.len(),
            s@ == v@.subrange(from as int, i as int),
        decreases to - i,
    {
        push_char(&mut s, v[i]);
        assert(v@.subrange(from as int, i + 1) == v@.subrange(from as int, i as int).push(v@[i as int]));
        i += 1;
    }
    s
}

/// A string made of all characters of `v`.
pub fn string_from(v: &Vec<char>) -> (s: String)
    ensures
        s@ == v@,
{
    let s = string_from_range(v, 0, v.len());
    assert(v@.subrange(0, v@.len() as int) == v@);
    s
}

/// A copy of `v[from..to]`.
pub fn sub_chars(v: &Vec<char>, from: usize, to: usize) -> (r: Vec<char>)
    requires
        from <= to <= v.len(),
    ensures
        r@ == v@.subrange(from as int, to as int),
{
    let mut r: Vec<char> = Vec::new();
    let mut i = from;
    while i < to
        invariant
            from <= i <= to <= v.len(),
            r@ == v@.subrange(from as int, i as int),
        decreases to - i,
    {
        r.push(v[i]);
        assert(v@.subrange(from as int, i + 1) == v@.subrange(from as int, i as int).push(v@[i as int]));
        i += 1;
    }
    r
}

/// String equality on string slices.
pub fn str_eq(a: &str, b: &str) -> (r: bool)
    ensures
        r == (a@ == b@),
{
    let x = chars_of(a);
    let y = chars_of(b);
    chars_eq(&x, &y)
}

/// Equality of two character vectors.
pub fn chars_eq(x: &Vec<char>, y: &Vec<char>) -> (r: bool)
    ensures
        r == (x@ == y@),
{
    if x.len() != y.len() {
        return false;
    }
    let mut i: usize = 0;
    while i < x.len()
        invariant
            x.len() == y.len(),
            i <= x.len(),
            forall|j: int| 0 <= j < i ==> x@[j] == y@[j],
        decreases x.len() - i,
    {
        if x[i] != y[i] {
            return false;
        }
        i += 1;
    }
    assert(x@ =~= y@);
    true
}

/// The range `[start, end)` of `v` that `str::trim` keeps.
pub fn trim_bounds(v: &Vec<char>) -> (r: (usize, usize))
    ensures
        r.0 <= r.1 <= v.len(),
        v@.subrange(r.0 as int, r.1 as int) == trim(v@),
{
    let mut a: usize = 0;
    assert(v@.skip(0) == v@);
    while a < v.len() && check_white_space(v[a])
        invariant
            a <= v.len(),
            trim_start(v@) == trim_start(v@.skip(a as int)),
        decreases v.len() - a,
    {
        assert(v@.skip(a as int).drop_first() == v@.skip(a + 1));
        a += 1;
    }
    let ghost t = v@.skip(a as int);
    assert(trim_start(v@) == t);
    let mut b: usize = v.len();
    while b > a && check_white_space(v[b - 1])
        invariant
            a <= b <= v.len(),
            t == v@.skip(a as int),
            trim_end(t) == trim_end(v@.subrange(a as int, b as int)),
        decreases b - a,
    {
        assert(v@.subrange(a as int, b as int).drop_last() == v@.subrange(a as int, b - 1));
        b -= 1;
    }
    assert(trim_end(v@.subrange(a as int, b as int)) == v@.subrange(a as int, b as int));
    (a, b)
}

/// Characters of `s` with leading and trailing white space removed.
pub fn trimmed_chars(s: &str) -> (r: Vec<char>)
    ensures
        r@ == trim(s@),
{
    let v = chars_of(s);
    let (a, b) = trim_bounds(&v);
    sub_chars(&v, a, b)
}

/// Index of the first `c` in `v[from..]`, if any.
pub fn find_char_from(v: &Vec<char>, c: char, from: usize) -> (r: Option<usize>)
    requires
        from <= v.len(),
    ensures
        match r {
            Some(i) => first_index_of(v@.skip(from as int), c) == Some(i - from) && from <= i
                < v.len(),
            None => first_index_of(v@.skip(from as int), c) is None,
        },
{
    let mut i = from;
    while i < v.len()
        invariant
            from <= i <= v.len(),
            forall|j: int| from <= j < i ==> v@[j] != c,
        decreases v.len() - i,
    {
        if v[i] == c {
            proof {
                lemma_first_index(v@.skip(from as int), c, i - from);
            }
            return Some(i);
        }
        i += 1;
    }
    proof {
        lemma_no_index(v@.skip(from as int), c);
    }
    None
}

/// Index of the first `c` in `v`, if any.
pub fn find_char(v: &Vec<char>, c: char) -> (r: Option<usize>)
    ensures
        match r {
            Some(i) => first_index_of(v@, c) == Some(i as int) && i < v.len(),
            None => first_index_of(v@, c) is None,
        },
{
    let r = find_char_from(v, c, 0);
    assert(v@.skip(0) == v@);
    r
}

/// Whether `v` ends with `p`.
pub fn chars_end_with(v: &Vec<char>, p: &Vec<char>) -> (r: bool)
    ensures
        r == ends_with(v@, p@),
{
    if p.len() > v.len() {
        return false;
    }
    let off = v.len() - p.len();
    let mut i: usize = 0;
    while i < p.len()
        invariant
            off + p.len() == v.len(),
            i <= p.len(),
            forall|j: int| 0 <= j < i ==> v@[off + j] == p@[j],
        decreases p.len() - i,
    {
        if v[off + i] != p[i] {
            assert(v@.skip(off as int)[i as int] != p@[i as int]);
            return false;
        }
        i += 1;
    }
    assert(v@.skip(off as int) =~= p@);
    true
}

/// Whether `v` starts with `p`.
pub fn chars_start_with(v: &Vec<char>, p: &Vec<char>) -> (r: bool)
    ensures
        r == starts_with(v@, p@),
{
    if p.len() > v.len() {
        return false;
    }
    let mut i: usize = 0;
    while i < p.len()
        invariant
            p.len() <= v.len(),
            i <= p.len(),
            forall|j: int| 0 <= j < i ==> v@[j] == p@[j],
        decreases p.len() - i,
    {
        if v[i] != p[i] {
            assert(v@.take(p.len() as int)[i as int] != p@[i as int]);
            return false;
        }
        i += 1;
    }
    assert(v@.take(p.len() as int) =~= p@);
    true
}

/// Whether `p` occurs as a contiguous part of `v`.
pub fn chars_contain(v: &Vec<char>, p: &Vec<char>) -> (r: bool)
    ensures
        r == contains_seq(v@, p@),
{
    if p.len() > v.len() {
        return false;
    }
    let mut i: usize = 0;
    while i <= v.len() - p.len()
        invariant
            p.len() <= v.len(),
            i <= v.len() - p.len() + 1,
            forall|k: int| 0 <= k < i ==> #[trigger] v@.subrange(k, k + p.len()) != p@,
        decreases v.len() - p.len() + 1 - i,
    {
        let mut j: usize = 0;
        let mut same = true;
        while j < p.len()
            invariant
                p.len() <= v.len(),
                i + p.len() <= v.len(),
                j <= p.len(),
                same == forall|m: int| 0 <= m < j ==> v@[i + m] == p@[m],
            decreases p.len() - j,
        {
            if v[i + j] != p[j] {
                same = false;
            }
            j += 1;
        }
        if same {
            assert(v@.subrange(i as int, i + p.len()) =~= p@);
            return true;
        }
        assert(v@.subrange(i as int, i + p.len()) != p@) by {
            let m = choose|m: int| 0 <= m < p.len() && v@[i + m] != p@[m];
            assert(v@.subrange(i as int, i + p.len())[m] != p@[m]);
        }
        i += 1;
    }
    assert forall|k: int| 0 <= k && k + p@.len() <= v@.len() implies #[trigger] v@.subrange(
        k,
        k + p@.len(),
    ) != p@ by {
        assert(k < i);
    }
    false
}

/// Whether the characters of `v` hold `c`.
pub fn chars_have(v: &Vec<char>, c: char) -> (r: bool)
    ensures
        r == v@.contains(c),
{
    let mut i: usize = 0;
    while i < v.len()
        invariant
            i <= v.len(),
            forall|j: int| 0 <= j < i ==> v@[j] != c,
        decreases v.len() - i,
    {
        if v[i] == c {
            assert(v@[i as int] == c);
            return true;
        }
        i += 1;
    }
    false
}

/// `str::split` on a single character: the parts between occurrences of `c`.
#[verifier::opaque]
pub open spec fn split_by(s: Seq<char>, c: char) -> Seq<Seq<char>>
    decreases s.len(),
{
    match first_index_of(s, c) {
        Some(k) => if 0 <= k < s.len() {
            seq![s.take(k)] + split_by(s.skip(k + 1), c)
        } else {
            seq![s]
        },
        None => seq![s],
    }
}

pub proof fn lemma_first_index_bounds(s: Seq<char>, c: char)
    ensures
        first_index_of(s, c) matches Some(k) ==> 0 <= k < s.len() && s[k] == c && forall|j: int|
            0 <= j < k ==> s[j] != c,
{
    if first_index_of(s, c) is Some {
        let i = choose|i: int| 0 <= i < s.len() && s[i] == c;
        assert(0 <= i < s.len() && s[i] == c);
        let k = choose|k: int| 0 <= k < s.len() && s[k] == c && forall|j: int| 0 <= j < k ==> s[j] != c;
        if !(0 <= k < s.len() && s[k] == c && forall|j: int| 0 <= j < k ==> s[j] != c) {
            // a least index exists: walk down from i
            lemma_least_index(s, c, i);
        }
    }
}

proof fn lemma_least_index(s: Seq<char>, c: char, i: int)
    requires
        0 <= i < s.len(),
        s[i] == c,
    ensures
        exists|k: int| 0 <= k < s.len() && s[k] == c && forall|j: int| 0 <= j < k ==> s[j] != c,
    decreases i,
{
    if exists|j: int| 0 <= j < i && s[j] == c {
        let j = choose|j: int| 0 <= j < i && s[j] == c;
        lemma_least_index(s, c, j);
    } else {
        assert(forall|j: int| 0 <= j < i ==> s[j] != c);
    }
}

pub proof fn lemma_split_step(s: Seq<char>, c: char, k: int)
    requires
        first_index_of(s, c) == Some(k),
        0 <= k < s.len(),
    ensures
        split_by(s, c) == seq![s.take(k)] + split_by(s.skip(k + 1), c),
{
    reveal(split_by);
}

/// `str::split` gives at least one part.
pub proof fn lemma_split_nonempty(s: Seq<char>, c: char)
    ensures
        split_by(s, c).len() >= 1,
{
    reveal(split_by);
    lemma_first_index_bounds(s, c);
}

pub proof fn lemma_split_last(s: Seq<char>, c: char)
    requires
        first_index_of(s, c) is None,
    ensures
        split_by(s, c) == seq![s],
{
    reveal(split_by);
}

proof fn lemma_split_advance(v: Seq<char>, c: char, start: int, k: int, views: Seq<Seq<char>>, all: Seq<Seq<char>>)
    requires
        0 <= start <= k < v.len(),
        first_index_of(v.skip(start), c) == Some(k - start),
        views + split_by(v.skip(start), c) == all,
    ensures
        views.push(v.subrange(start, k)) + split_by(v.skip(k + 1), c) == all,
{
    let rest = v.skip(start);
    lemma_split_step(rest, c, k - start);
    assert(rest.take(k - start) =~= v.subrange(start, k));
    assert(rest.skip(k - start + 1) =~= v.skip(k + 1));
    assert(views + split_by(rest, c) =~= views.push(v.subrange(start, k)) + split_by(v.skip(k + 1), c));
}

proof fn lemma_split_finish(v: Seq<char>, c: char, start: int, views: Seq<Seq<char>>, all: Seq<Seq<char>>)
    requires
        0 <= start <= v.len(),
        first_index_of(v.skip(start), c) is None,
        views + split_by(v.skip(start), c) == all,
    ensures
        views.push(v.subrange(start, v.len() as int)) == all,
{
    lemma_split_last(v.skip(start), c);
    assert(v.subrange(start, v.len() as int) =~= v.skip(start));
    assert(views + seq![v.skip(start)] =~= views.push(v.skip(start)));
}

/// The parts of `v` between occurrences of `c`.
pub fn split_chars(v: &Vec<char>, c: char) -> (r: Vec<Vec<char>>)
    ensures
        r@.len() == split_by(v@, c).len(),
        forall|i: int| 0 <= i < r@.len() ==> #[trigger] r@[i]@ == split_by(v@, c)[i],
{
    let mut parts: Vec<Vec<char>> = Vec::new();
    let ghost mut views: Seq<Seq<char>> = Seq::empty();
    let mut start: usize = 0;
    assert(v@.skip(0) == v@);
    assert(views + split_by(v@, c) =~= split_by(v@, c));
    loop
        invariant
            start <= v.len(),
            parts@.len() == views.len(),
            forall|i: int| 0 <= i < parts@.len() ==> #[trigger] parts@[i]@ == views[i],
            views + split_by(v@.skip(start as int), c) == split_by(v@, c),
        decreases v.len() - start,
    {
        match find_char_from(v, c, start) {
            Some(k) => {
                let piece = sub_chars(v, start, k);
                proof {
                    lemma_split_advance(v@, c, start as int, k as int, views, split_by(v@, c));
                    views = views.push(piece@);
                }
                parts.push(piece);
                start = k + 1;
            },
            None => {
                let piece = sub_chars(v, start, v.len());
                proof {
                    lemma_split_finish(v@, c, start as int, views, split_by(v@, c));
                    views = views.push(piece@);
                }
                parts.push(piece);
                return parts;
            },
        }
    }
}

/// Index of the first occurrence of `p` as a contiguous part of `s`.
pub open spec fn find_seq(s: Seq<char>, p: Seq<char>) -> Option<int> {
    if exists|i: int| 0 <= i && i + p.len() <= s.len() && #[trigger] s.subrange(i, i + p.len()) == p {
        Some(
            choose|i: int|
                0 <= i && i + p.len() <= s.len() && #[trigger] s.subrange(i, i + p.len()) == p
                    && forall|j: int| 0 <= j < i ==> #[trigger] s.subrange(j, j + p.len()) != p,
        )
    } else {
        None
    }
}

/// Index of the first occurrence of `p` in `v`.
pub fn find_chars(v: &Vec<char>, p: &Vec<char>) -> (r: Option<usize>)
    ensures
        match r {
            Some(i) => find_seq(v@, p@) == Some(i as int) && i + p.len() <= v.len(),
            None => find_seq(v@, p@) is None,
        },
{
    if p.len() > v.len() {
        return None;
    }
    let mut i: usize = 0;
    while i <= v.len() - p.len()
        invariant
            p.len() <= v.len(),
            i <= v.len() - p.len() + 1,
            forall|k: int| 0 <= k < i ==> #[trigger] v@.subrange(k, k + p.len()) != p@,
        decreases v.len() - p.len() + 1 - i,
    {
        let mut j: usize = 0;
        let mut same = true;
        while j < p.len()
            invariant
                p.len() <= v.len(),
                i + p.len() <= v.len(),
                j <= p.len(),
                same == forall|m: int| 0 <= m < j ==> v@[i + m] == p@[m],
            decreases p.len() - j,
        {
            if v[i + j] != p[j] {
                same = false;
            }
            j += 1;
        }
        if same {
            assert(v@.subrange(i as int, i + p.len()) =~= p@);
            proof {
                let ii = i as int;
                let k = choose|k: int|
                    0 <= k && k + p@.len() <= v@.len() && #[trigger] v@.subrange(k, k + p@.len()) == p@
                        && forall|j: int| 0 <= j < k ==> #[trigger] v@.subrange(j, j + p@.len()) != p@;
                assert(0 <= k && k + p@.len() <= v@.len() && v@.subrange(k, k + p@.len()) == p@
                        && forall|j: int| 0 <= j < k ==> #[trigger] v@.subrange(j, j + p@.len()) != p@);
                if k < ii {
                    assert(v@.subrange(k, k + p@.len()) != p@);
                }
                if ii < k {
                    assert(v@.subrange(ii, ii + p@.len()) != p@);
                }
            }
            return Some(i);
        }
        assert(v@.subrange(i as int, i + p.len()) != p@) by {
            let m = choose|m: int| 0 <= m < p.len() && v@[i + m] != p@[m];
            assert(v@.subrange(i as int, i + p.len())[m] != p@[m]);
        }
        i += 1;
    }
    assert forall|k: int| 0 <= k && k + p@.len() <= v@.len() implies #[trigger] v@.subrange(
        k,
        k + p@.len(),
    ) != p@ by {
        assert(k < i);
    }
    None
}

/// `a` followed by `b`.
pub fn concat_chars(a: &Vec<char>, b: &Vec<char>) -> (r: Vec<char>)
    ensures
        r@ == a@ + b@,
{
    let mut r = sub_chars(a, 0, a.len());
    assert(a@.subrange(0, a@.len() as int) == a@);
    let mut i: usize = 0;
    while i < b.len()
        invariant
            i <= b.len(),
            r@ == a@ + b@.take(i as int),
        decreases b.len() - i,
    {
        r.push(b[i]);
        assert(b@.take(i + 1) == b@.take(i as int).push(b@[i as int]));
        assert(r@ =~= a@ + b@.take(i + 1));
        i += 1;
    }
    assert(b@.take(i as int) == b@);
    r
}


/// `prefix`, `middle` and `suffix` in one string.
pub fn surround(prefix: &str, middle: &str, suffix: &str) -> (r: String)
    ensures
        r@ == prefix@ + middle@ + suffix@,
{
    let a = concat_chars(&chars_of(prefix), &chars_of(middle));
    let b = concat_chars(&a, &chars_of(suffix));
    string_from(&b)
}

} // verus!
