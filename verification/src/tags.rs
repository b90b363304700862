use vstd::prelude::*;

use crate::lookup::{find_key, key_index, lemma_key_index, lookup, strings_have, strings_view};
use crate::report::{count_up_to, lemma_count_bound};
use crate::text::{chars_of, chars_start_with, starts_with, string_from, sub_chars};

verus! {

/// One value of a tag file's `values` list, as read: a name (a block, or a
/// `#` tag reference), an object entry with its `id` when that is a string,
/// or anything else.
#[derive(Debug, Clone)]
pub enum TagValue {
    Name(String),
    Entry(Option<String>),
    Other,
}

/// The name a tag value lists, if any: a name itself, or an entry's `id`.
pub open spec fn tag_value_name(v: TagValue) -> Option<Seq<char>> {
    match v {
        TagValue::Name(s) => Some(s@),
        TagValue::Entry(Some(s)) => Some(s@),
        _ => None,
    }
}

/// The names a tag file lists, in order; values without a name are left out.
pub open spec fn tag_value_names(vs: Seq<TagValue>) -> Seq<Seq<char>>
    decreases vs.len(),
{
    if vs.len() == 0 {
        Seq::empty()
    } else {
        let rest = tag_value_names(vs.drop_last());
        match tag_value_name(vs.last()) {
            Some(n) => rest.push(n),
            None => rest,
        }
    }
}

/// The names a tag file's values list, in order.
pub fn tag_names(values: &Vec<TagValue>) -> (r: Vec<String>)
    ensures
        strings_view(r@) == tag_value_names(values@),
{
    let mut out: Vec<String> = Vec::new();
    let mut i: usize = 0;
    assert(values@.take(0) =~= Seq::<TagValue>::empty());
    while i < values.len()
        invariant
            i <= values@.len(),
            strings_view(out@) == tag_value_names(values@.take(i as int)),
        decreases values@.len() - i,
    {
        assert(values@.take(i + 1).drop_last() =~= values@.take(i as int));
        assert(values@.take(i + 1).last() == values@[i as int]);
        let ghost before = strings_view(out@);
        match &values[i] {
            TagValue::Name(s) => {
                out.push(s.clone());
            },
            TagValue::Entry(Some(s)) => {
                out.push(s.clone());
            },
            _ => {},
        }
        assert(strings_view(out@) =~= tag_value_names(values@.take(i + 1)));
        i += 1;
    }
    assert(values@.take(i as int) =~= values@);
    out
}

/// How a tag refers to another: `#minecraft:` and its name.
pub open spec fn tag_prefix() -> Seq<char> {
    "#minecraft:"@
}

/// Tag `a` lists tag `b` as `#minecraft:b`.
pub open spec fn tag_refs(raw: Seq<(String, Vec<String>)>, a: Seq<char>, b: Seq<char>) -> bool {
    match lookup(raw, a) {
        Some(entries) => strings_view(entries@).contains(tag_prefix() + b),
        None => false,
    }
}

/// A chain of tags, each listing the next as a `#minecraft:` reference.
pub open spec fn is_chain(raw: Seq<(String, Vec<String>)>, p: Seq<Seq<char>>) -> bool {
    &&& p.len() > 0
    &&& forall|i: int| 0 <= i < p.len() - 1 ==> tag_refs(raw, #[trigger] p[i], p[i + 1])
}

/// Tag `to` is reached from tag `from` through references, or is `from`.
pub open spec fn reachable(raw: Seq<(String, Vec<String>)>, from: Seq<char>, to: Seq<char>) -> bool {
    exists|p: Seq<Seq<char>>| #[trigger] is_chain(raw, p) && p[0] == from && p.last() == to
}

/// Tag `t` lists the block `e` itself (not a tag reference).
pub open spec fn lists_block(raw: Seq<(String, Vec<String>)>, t: Seq<char>, e: Seq<char>) -> bool {
    &&& !starts_with(e, "#"@)
    &&& match lookup(raw, t) {
        Some(entries) => strings_view(entries@).contains(e),
        None => false,
    }
}

/// Entry `x` of `raw` lists the block `v` itself.
spec fn entry_lists(raw: Seq<(String, Vec<String>)>, x: int, v: Seq<char>) -> bool {
    !starts_with(v, "#"@) && strings_view(raw[x].1@).contains(v)
}

/// The blocks of the resolved tag `name`: those listed by any tag it reaches
/// through `#minecraft:` references, itself included.
pub open spec fn resolved_has(raw: Seq<(String, Vec<String>)>, name: Seq<char>, e: Seq<char>) -> bool {
    exists|t: Seq<char>| #[trigger] reachable(raw, name, t) && lists_block(raw, t, e)
}

/// Entry `j` is the first with its name and its tag is reached from `name`.
#[verifier::opaque]
spec fn marked_ok(raw: Seq<(String, Vec<String>)>, name: Seq<char>, j: int) -> bool {
    &&& key_index(raw, raw[j].0@) == Some(j)
    &&& reachable(raw, name, raw[j].0@)
}

/// Every tag that entry `j` refers to and that has entries is marked.
#[verifier::opaque]
spec fn closed_at(raw: Seq<(String, Vec<String>)>, reached: Seq<bool>, j: int) -> bool {
    forall|b: Seq<char>|
        #[trigger] tag_refs(raw, raw[j].0@, b) && key_index(raw, b) is Some ==> reached[key_index(raw, b)->Some_0]
}

proof fn lemma_reach_step(raw: Seq<(String, Vec<String>)>, from: Seq<char>, m: Seq<char>, to: Seq<char>)
    requires
        reachable(raw, from, m),
        tag_refs(raw, m, to),
    ensures
        reachable(raw, from, to),
{
    let p = choose|p: Seq<Seq<char>>| #[trigger] is_chain(raw, p) && p[0] == from && p.last() == m;
    let q = p.push(to);
    assert forall|i: int| 0 <= i < q.len() - 1 implies tag_refs(raw, #[trigger] q[i], q[i + 1]) by {
        if i < p.len() - 1 {
            assert(q[i] == p[i] && q[i + 1] == p[i + 1]);
        } else {
            assert(q[i] == m);
        }
    }
    assert(is_chain(raw, q) && q[0] == from && q.last() == to);
}

proof fn lemma_reach_self(raw: Seq<(String, Vec<String>)>, name: Seq<char>)
    ensures
        reachable(raw, name, name),
{
    let p = seq![name];
    assert(is_chain(raw, p) && p[0] == name && p.last() == name);
}

/// Along a chain from a marked start, every tag with entries is marked.
#[verifier::rlimit(40)]
proof fn lemma_chain_marked(raw: Seq<(String, Vec<String>)>, reached: Seq<bool>, p: Seq<Seq<char>>, i: int)
    requires
        reached.len() == raw.len(),
        is_chain(raw, p),
        0 <= i < p.len(),
        key_index(raw, p[0]) is Some ==> reached[key_index(raw, p[0])->Some_0],
        forall|j: int| 0 <= j < raw.len() && #[trigger] reached[j] ==> closed_at(raw, reached, j),
        key_index(raw, p[i]) is Some,
    ensures
        reached[key_index(raw, p[i])->Some_0],
    decreases i,
{
    if i > 0 {
        assert(tag_refs(raw, p[i - 1], p[i]));
        assert(lookup(raw, p[i - 1]) is Some);
        lemma_chain_marked(raw, reached, p, i - 1);
        let km = key_index(raw, p[i - 1])->Some_0;
        lemma_key_index_name(raw, p[i - 1]);
        assert(closed_at(raw, reached, km));
        reveal(closed_at);
        assert(tag_refs(raw, raw[km].0@, p[i]));
    }
}

proof fn lemma_key_index_name(raw: Seq<(String, Vec<String>)>, m: Seq<char>)
    requires
        key_index(raw, m) is Some,
    ensures
        0 <= key_index(raw, m)->Some_0 < raw.len(),
        raw[key_index(raw, m)->Some_0].0@ == m,
        forall|j: int| 0 <= j < key_index(raw, m)->Some_0 ==> raw[j].0@ != m,
{
    let i = choose|i: int| 0 <= i < raw.len() && #[trigger] raw[i].0@ == m;
    lemma_least_key(raw, m, i);
}

proof fn lemma_least_key(raw: Seq<(String, Vec<String>)>, m: Seq<char>, i: int)
    requires
        0 <= i < raw.len(),
        raw[i].0@ == m,
    ensures
        exists|k: int| 0 <= k < raw.len() && #[trigger] raw[k].0@ == m && forall|j: int| 0 <= j < k ==> #[trigger] raw[j].0@ != m,
    decreases i,
{
    if exists|j: int| 0 <= j < i && #[trigger] raw[j].0@ == m {
        let j = choose|j: int| 0 <= j < i && #[trigger] raw[j].0@ == m;
        lemma_least_key(raw, m, j);
    } else {
        assert(forall|j: int| 0 <= j < i ==> #[trigger] raw[j].0@ != m);
    }
}

/// Mark the tags that entry `j` refers to; how many were newly marked.
#[verifier::rlimit(60)]
fn mark_refs(
    raw: &Vec<(String, Vec<String>)>,
    reached: &mut Vec<bool>,
    j: usize,
    prefix: &Vec<char>,
    Ghost(name): Ghost<Seq<char>>,
) -> (added: usize)
    requires
        old(reached)@.len() == raw@.len(),
        j < raw@.len(),
        old(reached)@[j as int],
        prefix@ == tag_prefix(),
        forall|x: int| 0 <= x < raw@.len() && #[trigger] old(reached)@[x] ==> marked_ok(raw@, name, x),
    ensures
        final(reached)@.len() == raw@.len(),
        forall|x: int| 0 <= x < raw@.len() && #[trigger] old(reached)@[x] ==> final(reached)@[x],
        forall|x: int| 0 <= x < raw@.len() && #[trigger] final(reached)@[x] ==> marked_ok(raw@, name, x),
        count_up_to(raw@.len() as int, |x: int| final(reached)@[x]) == count_up_to(
            raw@.len() as int,
            |x: int| old(reached)@[x],
        ) + added,
        added == 0 ==> final(reached)@ == old(reached)@ && closed_at(raw@, final(reached)@, j as int),
{
    let n = raw.len();
    let entries = &raw[j].1;
    let ghost start = reached@;
    let mut added: usize = 0;
    let mut e: usize = 0;
    proof {
        assert(marked_ok(raw@, name, j as int));
        reveal(marked_ok);
        assert(lookup(raw@, raw@[j as int].0@) == Some(raw@[j as int].1));
        assert(reachable(raw@, name, raw@[j as int].0@));
    }
    while e < entries.len()
        invariant
            n == raw@.len(),
            j < n,
            start == old(reached)@,
            reached@.len() == n,
            entries@ == raw@[j as int].1@,
            lookup(raw@, raw@[j as int].0@) == Some(raw@[j as int].1),
            prefix@ == tag_prefix(),
            e <= entries@.len(),
            forall|x: int| 0 <= x < n && #[trigger] start[x] ==> reached@[x],
            forall|x: int| 0 <= x < n && #[trigger] reached@[x] ==> marked_ok(raw@, name, x),
            reachable(raw@, name, raw@[j as int].0@),
            count_up_to(n as int, |x: int| reached@[x]) == count_up_to(n as int, |x: int| start[x]) + added,
            added == 0 ==> reached@ == start,
            added == 0 ==> forall|k: int|
                0 <= k < e && starts_with(#[trigger] strings_view(entries@)[k], tag_prefix())
                    && key_index(raw@, strings_view(entries@)[k].skip(11)) is Some ==> reached@[key_index(
                    raw@,
                    strings_view(entries@)[k].skip(11),
                )->Some_0],
        decreases entries@.len() - e,
    {
        let entry = chars_of(entries[e].as_str());
        proof {
            assert(strings_view(entries@)[e as int] == entry@);
            reveal_strlit("#minecraft:");
        }
        if chars_start_with(&entry, prefix) {
            let nested = string_from(&sub_chars(&entry, 11, entry.len()));
            proof {
                assert(nested@ == strings_view(entries@)[e as int].skip(11));
                assert(tag_prefix() + nested@ =~= strings_view(entries@)[e as int]);
                assert(strings_view(entries@).contains(tag_prefix() + nested@));
                assert(tag_refs(raw@, raw@[j as int].0@, nested@));
            }
            match find_key(raw, nested.as_str()) {
                Some(k) => {
                    if !reached[k] {
                        let ghost before = reached@;
                        reached.set(k, true);
                        proof {
                            lemma_count_set(before, k as int, n as int);
                            assert((|x: int| reached@[x]) =~= (|x: int| before.update(k as int, true)[x]));
                            lemma_reach_step(raw@, name, raw@[j as int].0@, nested@);
                            lemma_key_index_name(raw@, nested@);
                            assert(marked_ok(raw@, name, k as int)) by {
                                reveal(marked_ok);
                            }
                            assert forall|x: int| 0 <= x < n && #[trigger] reached@[x] implies marked_ok(raw@, name, x) by {
                                if x != k {
                                    assert(before[x]);
                                }
                            }
                            lemma_count_bound(n as int, |x: int| reached@[x]);
                        }
                        added = added + 1;
                    }
                },
                None => {},
            }
        }
        e += 1;
    }
    proof {
        if added == 0 {
            reveal(closed_at);
            assert forall|b: Seq<char>| #[trigger] tag_refs(raw@, raw@[j as int].0@, b) && key_index(raw@, b) is Some
                implies reached@[key_index(raw@, b)->Some_0] by {
                let k = choose|k: int| 0 <= k < strings_view(entries@).len() && strings_view(entries@)[k] == tag_prefix() + b;
                reveal_strlit("#minecraft:");
                assert(strings_view(entries@)[k].take(11) =~= tag_prefix());
                assert(starts_with(strings_view(entries@)[k], tag_prefix()));
                assert(strings_view(entries@)[k].skip(11) =~= b);
            }
        }
    }
    added
}

/// Add the blocks entry `j` lists to `out`, each once.
fn collect_blocks(raw: &Vec<(String, Vec<String>)>, j: usize, out: &mut Vec<String>)
    requires
        j < raw@.len(),
        strings_view(old(out)@).no_duplicates(),
    ensures
        strings_view(final(out)@).no_duplicates(),
        forall|v: Seq<char>|
            #[trigger] strings_view(final(out)@).contains(v) <==> (strings_view(old(out)@).contains(v) || entry_lists(
                raw@,
                j as int,
                v,
            )),
{
    let entries = &raw[j].1;
    let ghost before = strings_view(out@);
    let ghost ev = strings_view(entries@);
    let hash = chars_of("#");
    let mut e: usize = 0;
    assert(ev.take(0) =~= Seq::<Seq<char>>::empty());
    while e < entries.len()
        invariant
            j < raw@.len(),
            entries@ == raw@[j as int].1@,
            ev == strings_view(entries@),
            before == strings_view(old(out)@),
            hash@ == "#"@,
            e <= entries@.len(),
            strings_view(out@).no_duplicates(),
            forall|v: Seq<char>| #[trigger] strings_view(out@).contains(v) <==> (before.contains(v) || (ev.take(
                e as int,
            ).contains(v) && !starts_with(v, "#"@))),
        decreases entries@.len() - e,
    {
        let entry = &entries[e];
        let text = chars_of(entry.as_str());
        let ghost v = entry@;
        assert(ev[e as int] == v);
        assert(ev.take(e + 1) == ev.take(e as int).push(v));
        let ghost old_out = strings_view(out@);
        let hashed = chars_start_with(&text, &hash);
        let present = strings_have(out, entry.as_str());
        let need = !hashed && !present;
        proof {
            assert(text@ == v);
            assert(need == (!starts_with(v, "#"@) && !old_out.contains(v)));
        }
        if need {
            out.push(entry.clone());
        }
        proof {
            if need {
                assert(strings_view(out@) =~= old_out.push(v));
            } else {
                assert(strings_view(out@) == old_out);
            }
            assert forall|w: Seq<char>| #[trigger] strings_view(out@).contains(w) <==> (before.contains(w) || (ev.take(
                e + 1,
            ).contains(w) && !starts_with(w, "#"@))) by {
                assert(old_out.contains(w) == (before.contains(w) || (ev.take(e as int).contains(w) && !starts_with(
                    w,
                    "#"@,
                ))));
                if need {
                    lemma_push_contains(old_out, v, w);
                    assert(strings_view(out@).contains(w) == (old_out.contains(w) || w == v));
                } else {
                    assert(strings_view(out@).contains(w) == old_out.contains(w));
                }
                if ev.take(e + 1).contains(w) && w != v {
                    let t1 = ev.take(e + 1);
                    let k = choose|k: int| 0 <= k < t1.len() && #[trigger] t1[k] == w;
                    assert(ev.take(e as int)[k] == w);
                }
                if ev.take(e as int).contains(w) {
                    let t0 = ev.take(e as int);
                    let k = choose|k: int| 0 <= k < t0.len() && #[trigger] t0[k] == w;
                    assert(ev.take(e + 1)[k] == w);
                }
                if w == v {
                    assert(ev.take(e + 1)[e as int] == v);
                }
            }
        }
        e += 1;
    }
    proof {
        assert(ev.take(e as int) =~= ev);
        assert forall|v: Seq<char>| #[trigger] strings_view(out@).contains(v) <==> (before.contains(v) || entry_lists(
            raw@,
            j as int,
            v,
        )) by {
        }
    }
}

/// The blocks of tag `name` with its `#minecraft:` references resolved,
/// each once.
pub fn resolve_tag(raw: &Vec<(String, Vec<String>)>, name: &str) -> (r: Vec<String>)
    ensures
        strings_view(r@).no_duplicates(),
        forall|e: Seq<char>| #[trigger] strings_view(r@).contains(e) <==> resolved_has(raw@, name@, e),
{
    let n = raw.len();
    let mut reached: Vec<bool> = Vec::new();
    let mut i: usize = 0;
    while i < n
        invariant
            n == raw@.len(),
            i <= n,
            reached@.len() == i,
            forall|j: int| 0 <= j < i ==> !#[trigger] reached@[j],
        decreases n - i,
    {
        reached.push(false);
        i += 1;
    }
    let mut marked: usize = 0;
    match find_key(raw, name) {
        Some(k) => {
            let ghost before = reached@;
            reached.set(k, true);
            marked = 1;
            proof {
                lemma_key_index_name(raw@, name@);
                lemma_reach_self(raw@, name@);
                assert(reachable(raw@, name@, raw@[k as int].0@));
                assert(marked_ok(raw@, name@, k as int)) by {
                    reveal(marked_ok);
                }
                lemma_count_single(reached@, k as int, n as int);
            }
        },
        None => {
            proof {
                lemma_count_none_below(reached@, n as int);
            }
        },
    }
    let prefix = chars_of("#minecraft:");
    let mut changed = true;
    while changed
        invariant
            n == raw@.len(),
            reached@.len() == n,
            prefix@ == tag_prefix(),
            marked == count_up_to(n as int, |j: int| reached@[j]),
            marked <= n,
            key_index(raw@, name@) is Some ==> reached@[key_index(raw@, name@)->Some_0],
            forall|j: int| 0 <= j < n && #[trigger] reached@[j] ==> marked_ok(raw@, name@, j),
            !changed ==> forall|j: int| 0 <= j < n && #[trigger] reached@[j] ==> closed_at(raw@, reached@, j),
        decreases n - marked + if changed {
            1int
        } else {
            0int
        },
    {
        changed = false;
        let ghost start = reached@;
        let ghost start_marked = marked;
        let mut j: usize = 0;
        while j < n
            invariant
                n == raw@.len(),
                reached@.len() == n,
                prefix@ == tag_prefix(),
                j <= n,
                marked == count_up_to(n as int, |x: int| reached@[x]),
                marked <= n,
                marked >= start_marked,
                changed ==> marked > start_marked,
                !changed ==> reached@ == start,
                key_index(raw@, name@) is Some ==> reached@[key_index(raw@, name@)->Some_0],
                forall|x: int| 0 <= x < n && #[trigger] reached@[x] ==> marked_ok(raw@, name@, x),
                !changed ==> forall|x: int| 0 <= x < j && #[trigger] reached@[x] ==> closed_at(raw@, reached@, x),
            decreases n - j,
        {
            if reached[j] {
                let ghost before = reached@;
                let added = mark_refs(raw, &mut reached, j, &prefix, Ghost(name@));
                proof {
                    lemma_count_bound(n as int, |x: int| reached@[x]);
                    if key_index(raw@, name@) is Some {
                        lemma_key_index_name(raw@, name@);
                        assert(before[key_index(raw@, name@)->Some_0]);
                    }
                }
                if added > 0 {
                    marked = marked + added;
                    changed = true;
                }
            }
            j += 1;
        }
    }
    let ghost closed = reached@;
    proof {
        assert forall|t: Seq<char>| #[trigger] reachable(raw@, name@, t) && key_index(raw@, t) is Some implies closed[key_index(raw@, t)->Some_0] by {
            let p = choose|p: Seq<Seq<char>>| #[trigger] is_chain(raw@, p) && p[0] == name@ && p.last() == t;
            lemma_chain_marked(raw@, reached@, p, p.len() - 1);
        }
    }
    let mut out: Vec<String> = Vec::new();
    let mut j: usize = 0;
    while j < n
        invariant
            n == raw@.len(),
            reached@.len() == n,
            reached@ == closed,
            j <= n,
            forall|x: int| 0 <= x < n && #[trigger] reached@[x] ==> marked_ok(raw@, name@, x),
            strings_view(out@).no_duplicates(),
            forall|v: Seq<char>| #[trigger] strings_view(out@).contains(v) <==> exists|x: int|
                0 <= x < j && reached@[x] && entry_lists(raw@, x, v),
        decreases n - j,
    {
        let ghost before = strings_view(out@);
        if reached[j] {
            collect_blocks(raw, j, &mut out);
        }
        proof {
            assert forall|v: Seq<char>| #[trigger] strings_view(out@).contains(v) <==> exists|x: int|
                0 <= x < j + 1 && reached@[x] && entry_lists(raw@, x, v) by {
                if exists|x: int| 0 <= x < j + 1 && reached@[x] && entry_lists(raw@, x, v) {
                    let x = choose|x: int| 0 <= x < j + 1 && reached@[x] && entry_lists(raw@, x, v);
                    if x < j {
                        assert(before.contains(v));
                    }
                }
                if before.contains(v) {
                    let x = choose|x: int| 0 <= x < j && reached@[x] && entry_lists(raw@, x, v);
                }
            }
        }
        j += 1;
    }
    proof {
        assert forall|v: Seq<char>| #[trigger] strings_view(out@).contains(v) <==> resolved_has(raw@, name@, v) by {
            if strings_view(out@).contains(v) {
                let x = choose|x: int| 0 <= x < n && reached@[x] && entry_lists(raw@, x, v);
                assert(marked_ok(raw@, name@, x));
                reveal(marked_ok);
                assert(reachable(raw@, name@, raw@[x].0@));
                assert(lookup(raw@, raw@[x].0@) == Some(raw@[x].1));
                assert(lists_block(raw@, raw@[x].0@, v));
            }
            if resolved_has(raw@, name@, v) {
                let t = choose|t: Seq<char>| #[trigger] reachable(raw@, name@, t) && lists_block(raw@, t, v);
                assert(lookup(raw@, t) is Some);
                let x = key_index(raw@, t)->Some_0;
                lemma_key_index_name(raw@, t);
                assert(closed[x]);
                assert(reached@[x]);
                assert(entry_lists(raw@, x, v));
            }
        }
    }
    out
}

proof fn lemma_push_contains(s: Seq<Seq<char>>, v: Seq<char>, w: Seq<char>)
    ensures
        s.push(v).contains(w) == (s.contains(w) || w == v),
{
    if s.push(v).contains(w) {
        let k = choose|k: int| 0 <= k < s.push(v).len() && s.push(v)[k] == w;
        if k < s.len() {
            assert(s[k] == w);
        }
    }
    if s.contains(w) {
        let k = choose|k: int| 0 <= k < s.len() && s[k] == w;
        assert(s.push(v)[k] == w);
    }
    if w == v {
        assert(s.push(v)[s.len() as int] == v);
    }
}

proof fn lemma_count_none(s: Seq<bool>, n: int)
    requires
        0 <= n <= s.len(),
        forall|j: int| 0 <= j < s.len() ==> !#[trigger] s[j],
    ensures
        count_up_to(n, |j: int| s[j]) == 0,
    decreases n,
{
    if n > 0 {
        lemma_count_none(s, n - 1);
    }
}

proof fn lemma_count_single(s: Seq<bool>, k: int, n: int)
    requires
        0 <= k < n <= s.len(),
        s[k],
        forall|j: int| 0 <= j < s.len() && j != k ==> !#[trigger] s[j],
    ensures
        count_up_to(n, |j: int| s[j]) == 1,
    decreases n,
{
    if n - 1 > k {
        lemma_count_single(s, k, n - 1);
    } else {
        assert forall|j: int| 0 <= j < k implies !#[trigger] s[j] by {}
        lemma_count_none_below(s, k);
    }
}

proof fn lemma_count_none_below(s: Seq<bool>, n: int)
    requires
        0 <= n <= s.len(),
        forall|j: int| 0 <= j < n ==> !#[trigger] s[j],
    ensures
        count_up_to(n, |j: int| s[j]) == 0,
    decreases n,
{
    if n > 0 {
        lemma_count_none_below(s, n - 1);
    }
}

/// Setting an unset flag counts one more.
proof fn lemma_count_set(s: Seq<bool>, k: int, n: int)
    requires
        0 <= k < n <= s.len(),
        !s[k],
    ensures
        count_up_to(n, |j: int| s.update(k, true)[j]) == count_up_to(n, |j: int| s[j]) + 1,
    decreases n,
{
    if n - 1 > k {
        lemma_count_set(s, k, n - 1);
    } else {
        lemma_count_same(s, s.update(k, true), k);
    }
}

proof fn lemma_count_same(a: Seq<bool>, b: Seq<bool>, n: int)
    requires
        0 <= n <= a.len(),
        n <= b.len(),
        forall|j: int| 0 <= j < n ==> a[j] == b[j],
    ensures
        count_up_to(n, |j: int| a[j]) == count_up_to(n, |j: int| b[j]),
    decreases n,
{
    if n > 0 {
        lemma_count_same(a, b, n - 1);
    }
}

/// Every tag with its `#minecraft:` references resolved, in the order given.
pub fn resolve_tags(raw: &Vec<(String, Vec<String>)>) -> (r: Vec<(String, Vec<String>)>)
    ensures
        r@.len() == raw@.len(),
        forall|i: int| 0 <= i < r@.len() ==> (#[trigger] r@[i]).0@ == raw@[i].0@ && strings_view(r@[i].1@).no_duplicates()
            && forall|e: Seq<char>| strings_view(r@[i].1@).contains(e) <==> resolved_has(raw@, raw@[i].0@, e),
{
    let mut out: Vec<(String, Vec<String>)> = Vec::new();
    let mut i: usize = 0;
    while i < raw.len()
        invariant
            i <= raw@.len(),
            out@.len() == i,
            forall|k: int| 0 <= k < i ==> (#[trigger] out@[k]).0@ == raw@[k].0@ && strings_view(out@[k].1@).no_duplicates()
                && forall|e: Seq<char>| strings_view(out@[k].1@).contains(e) <==> resolved_has(raw@, raw@[k].0@, e),
        decreases raw@.len() - i,
    {
        let values = resolve_tag(raw, raw[i].0.as_str());
        out.push((raw[i].0.clone(), values));
        i += 1;
    }
    out
}

/// A resolved tag holds the blocks it lists itself and every block of the
/// tags it references: references are followed to the end, cycles included.
pub proof fn law_tags_include_their_references(
    raw: Seq<(String, Vec<String>)>,
    a: Seq<char>,
    b: Seq<char>,
    e: Seq<char>,
)
    ensures
        lists_block(raw, a, e) ==> resolved_has(raw, a, e),
        tag_refs(raw, a, b) && resolved_has(raw, b, e) ==> resolved_has(raw, a, e),
{
    if lists_block(raw, a, e) {
        let p = seq![a];
        assert(is_chain(raw, p));
        assert(reachable(raw, a, a));
    }
    if tag_refs(raw, a, b) && resolved_has(raw, b, e) {
        let t = choose|t: Seq<char>| #[trigger] reachable(raw, b, t) && lists_block(raw, t, e);
        let p = choose|p: Seq<Seq<char>>| #[trigger] is_chain(raw, p) && p[0] == b && p.last() == t;
        let q = seq![a] + p;
        assert forall|i: int| 0 <= i < q.len() - 1 implies tag_refs(raw, #[trigger] q[i], q[i + 1]) by {
            if i == 0 {
                assert(q[1] == p[0]);
            } else {
                assert(q[i] == p[i - 1] && q[i + 1] == p[i]);
            }
        }
        assert(is_chain(raw, q));
        assert(q.last() == t);
        assert(reachable(raw, a, t));
    }
}

} // verus!
