use vstd::prelude::*;

verus! {

/// Position of the first entry of `e` whose name is `key`.
pub open spec fn key_index<T>(e: Seq<(String, T)>, key: Seq<char>) -> Option<int> {
    if exists|i: int| 0 <= i < e.len() && #[trigger] e[i].0@ == key {
        Some(
            choose|i: int|
                0 <= i < e.len() && #[trigger] e[i].0@ == key && forall|j: int|
                    0 <= j < i ==> #[trigger] e[j].0@ != key,
        )
    } else {
        None
    }
}

/// The value of the first entry of `e` whose name is `key`.
pub open spec fn lookup<T>(e: Seq<(String, T)>, key: Seq<char>) -> Option<T> {
    match key_index(e, key) {
        Some(i) => Some(e[i].1),
        None => None,
    }
}

pub proof fn lemma_key_index<T>(e: Seq<(String, T)>, key: Seq<char>, i: int)
    requires
        0 <= i < e.len(),
        e[i].0@ == key,
        forall|j: int| 0 <= j < i ==> #[trigger] e[j].0@ != key,
    ensures
        key_index(e, key) == Some(i),
{
    let k = choose|k: int|
        0 <= k < e.len() && #[trigger] e[k].0@ == key && forall|j: int|
            0 <= j < k ==> #[trigger] e[j].0@ != key;
    assert(0 <= k < e.len() && e[k].0@ == key && forall|j: int| 0 <= j < k ==> #[trigger] e[j].0@ != key);
    if k < i {
        assert(e[k].0@ != key);
    }
    if i < k {
        assert(e[i].0@ != key);
    }
}

/// Position of the first entry of `e` named `key`.
pub fn find_key<T>(e: &Vec<(String, T)>, key: &str) -> (r: Option<usize>)
    ensures
        match r {
            Some(i) => key_index(e@, key@) == Some(i as int) && i < e.len(),
            None => key_index(e@, key@) is None,
        },
{
    let mut i: usize = 0;
    while i < e.len()
        invariant
            i <= e.len(),
            forall|j: int| 0 <= j < i ==> #[trigger] e@[j].0@ != key@,
        decreases e.len() - i,
    {
        if crate::text::str_eq(e[i].0.as_str(), key) {
            proof {
                lemma_key_index(e@, key@, i as int);
            }
            return Some(i);
        }
        i += 1;
    }
    None
}

/// Whether no two entries of `e` have the same name.
pub open spec fn keys_distinct<T>(e: Seq<(String, T)>) -> bool {
    forall|i: int, j: int| 0 <= i < j < e.len() ==> #[trigger] e[i].0@ != #[trigger] e[j].0@
}

/// Where names are distinct, looking an entry's name up finds that entry.
pub proof fn lemma_lookup_distinct<T>(e: Seq<(String, T)>, i: int)
    requires
        keys_distinct(e),
        0 <= i < e.len(),
    ensures
        key_index(e, e[i].0@) == Some(i),
        lookup(e, e[i].0@) == Some(e[i].1),
{
    assert forall|j: int| 0 <= j < i implies #[trigger] e[j].0@ != e[i].0@ by {
        assert(e[j].0@ != e[i].0@);
    }
    lemma_key_index(e, e[i].0@, i);
}

/// Whether no two entries of `e` have the same name.
pub fn distinct_keys<T>(e: &Vec<(String, T)>) -> (r: bool)
    ensures
        r == keys_distinct(e@),
{
    let mut j: usize = 0;
    while j < e.len()
        invariant
            j <= e.len(),
            forall|a: int, b: int| 0 <= a < b < j ==> #[trigger] e@[a].0@ != #[trigger] e@[b].0@,
        decreases e.len() - j,
    {
        let mut i: usize = 0;
        while i < j
            invariant
                i <= j < e.len(),
                forall|a: int, b: int| 0 <= a < b < j ==> #[trigger] e@[a].0@ != #[trigger] e@[b].0@,
                forall|a: int| 0 <= a < i ==> #[trigger] e@[a].0@ != e@[j as int].0@,
            decreases j - i,
        {
            if crate::text::str_eq(e[i].0.as_str(), e[j].0.as_str()) {
                return false;
            }
            i += 1;
        }
        j += 1;
    }
    true
}

/// The strings of `v`, as character sequences.
pub open spec fn strings_view(v: Seq<String>) -> Seq<Seq<char>> {
    v.map_values(|s: String| s@)
}

/// Whether one of the strings of `v` is `s`.
pub fn strings_have(v: &Vec<String>, s: &str) -> (r: bool)
    ensures
        r == strings_view(v@).contains(s@),
{
    let mut i: usize = 0;
    while i < v.len()
        invariant
            i <= v.len(),
            forall|j: int| 0 <= j < i ==> #[trigger] v@[j]@ != s@,
        decreases v.len() - i,
    {
        if crate::text::str_eq(v[i].as_str(), s) {
            assert(strings_view(v@)[i as int] == s@);
            return true;
        }
        i += 1;
    }
    assert forall|j: int| 0 <= j < strings_view(v@).len() implies strings_view(v@)[j] != s@ by {
        assert(strings_view(v@)[j] == v@[j]@);
    }
    false
}

} // verus!
