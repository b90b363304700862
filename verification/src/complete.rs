use vstd::prelude::*;

use crate::lookup::strings_view;
use crate::order::{lemma_order_equal, lemma_order_flip, lemma_order_trans, lemma_seq_total, seq_le, sort_strings, strings_sorted};
use crate::schematic::{Schematic, SchematicRegion};
use crate::text::str_eq;
use crate::text::{chars_have, chars_of, chars_start_with, concat_chars, find_char, split_once, starts_with, string_from, sub_chars};

verus! {

/// A block id completes a partial word: the id, or its path after the
/// namespace, starts with it.
pub open spec fn block_matches(id: Seq<char>, partial: Seq<char>) -> bool {
    starts_with(id, partial) || match split_once(id, ':') {
        Some(parts) => starts_with(parts.1, partial),
        None => false,
    }
}

/// How a completed id is shown: the implicit `minecraft:` namespace is left
/// out unless the partial word names a namespace.
pub open spec fn shown_id(id: Seq<char>, partial: Seq<char>) -> Seq<char> {
    if !partial.contains(':') && starts_with(id, "minecraft:"@) {
        id.skip(10)
    } else {
        id
    }
}

/// The completions of `partial` among `blocks`, each after `prefix`, in the
/// order of `blocks`.
pub open spec fn completions(blocks: Seq<Seq<char>>, partial: Seq<char>, prefix: Seq<char>) -> Seq<Seq<char>>
    decreases blocks.len(),
{
    if blocks.len() == 0 {
        Seq::empty()
    } else {
        let rest = completions(blocks.drop_last(), partial, prefix);
        if block_matches(blocks.last(), partial) {
            rest.push(prefix + shown_id(blocks.last(), partial))
        } else {
            rest
        }
    }
}

/// The completion of `partial` by block `id`, if it matches.
fn complete_one(id: &Vec<char>, p: &Vec<char>, pre: &Vec<char>) -> (r: Option<String>)
    ensures
        match r {
            Some(c) => block_matches(id@, p@) && c@ == pre@ + shown_id(id@, p@),
            None => !block_matches(id@, p@),
        },
{
    let whole = chars_start_with(id, p);
    let by_path = match find_char(id, ':') {
        Some(k) => {
            let path = sub_chars(id, k + 1, id.len());
            proof {
                assert(path@ == id@.skip(k + 1));
            }
            chars_start_with(&path, p)
        },
        None => false,
    };
    if !(whole || by_path) {
        return None;
    }
    let mc = chars_of("minecraft:");
    proof {
        reveal_strlit("minecraft:");
    }
    let shown = if !chars_have(p, ':') && chars_start_with(id, &mc) {
        let tail = sub_chars(id, 10, id.len());
        proof {
            assert(id@.subrange(10, id@.len() as int) == id@.skip(10));
        }
        tail
    } else {
        let all = sub_chars(id, 0, id.len());
        proof {
            assert(id@.subrange(0, id@.len() as int) == id@);
        }
        all
    };
    Some(string_from(&concat_chars(pre, &shown)))
}

/// Complete a block id: the matching ids of `blocks` after `prefix`.
pub fn candidates(blocks: &[String], partial: &str, prefix: &str) -> (r: Vec<String>)
    ensures
        strings_view(r@) == completions(strings_view(blocks@), partial@, prefix@),
{
    let p = chars_of(partial);
    let pre = chars_of(prefix);
    let mut out: Vec<String> = Vec::new();
    let mut i: usize = 0;
    proof {
        assert(strings_view(blocks@).take(0) =~= Seq::<Seq<char>>::empty());
    }
    while i < blocks.len()
        invariant
            i <= blocks@.len(),
            p@ == partial@,
            pre@ == prefix@,
            strings_view(out@) == completions(strings_view(blocks@).take(i as int), partial@, prefix@),
        decreases blocks@.len() - i,
    {
        let id = chars_of(blocks[i].as_str());
        proof {
            assert(strings_view(blocks@).take(i + 1).drop_last() == strings_view(blocks@).take(i as int));
            assert(strings_view(blocks@).take(i + 1).last() == id@);
        }
        let ghost before = strings_view(out@);
        match complete_one(&id, &p, &pre) {
            Some(c) => {
                out.push(c);
                proof {
                    assert(strings_view(out@) =~= before.push(prefix@ + shown_id(id@, partial@)));
                }
            },
            None => {},
        }
        i += 1;
    }
    proof {
        assert(strings_view(blocks@).take(i as int) =~= strings_view(blocks@));
    }
    out
}

/// The names among `names` that start with `partial`, in order, each
/// followed by `suffix`.
pub open spec fn names_starting(names: Seq<Seq<char>>, partial: Seq<char>, suffix: Seq<char>) -> Seq<Seq<char>>
    decreases names.len(),
{
    if names.len() == 0 {
        Seq::empty()
    } else {
        let rest = names_starting(names.drop_last(), partial, suffix);
        if starts_with(names.last(), partial) {
            rest.push(names.last() + suffix)
        } else {
            rest
        }
    }
}

/// Index of the last occurrence of `c` in `s`, if any.
pub open spec fn last_index_of(s: Seq<char>, c: char) -> Option<int>
    decreases s.len(),
{
    if s.len() == 0 {
        None
    } else if s.last() == c {
        Some(s.len() - 1)
    } else {
        last_index_of(s.drop_last(), c)
    }
}

/// How an override word being typed splits: past a `=` the target is
/// being completed, after all up to and including the `=`; before it a
/// source, after all up to and including the last `,`. The flag says
/// whether the target is being completed; then come the part kept as it is
/// and the partial block id.
pub open spec fn override_word(t: Seq<char>) -> (bool, Seq<char>, Seq<char>) {
    match split_once(t, '=') {
        Some(parts) => (true, parts.0.push('='), parts.1),
        None => match last_index_of(t, ',') {
            Some(k) => (false, t.take(k + 1), t.skip(k + 1)),
            None => (false, Seq::empty(), t),
        },
    }
}

/// Split an override word being typed into what stays and the block id to
/// complete.
pub fn split_override_word(current: &str) -> (r: (bool, String, String))
    ensures
        (r.0, r.1@, r.2@) == override_word(current@),
{
    let v = chars_of(current);
    match find_char(&v, '=') {
        Some(k) => {
            let left = sub_chars(&v, 0, k + 1);
            let partial = sub_chars(&v, k + 1, v.len());
            proof {
                crate::text::lemma_first_index_bounds(v@, '=');
                assert(left@ =~= v@.take(k as int).push('='));
                assert(partial@ =~= v@.skip(k + 1));
            }
            return (true, string_from(&left), string_from(&partial));
        },
        None => {},
    }
    let mut i = v.len();
    proof {
        assert(v@.take(i as int) =~= v@);
    }
    while i > 0 && v[i - 1] != ','
        invariant
            i <= v@.len(),
            last_index_of(v@, ',') == last_index_of(v@.take(i as int), ','),
        decreases i,
    {
        proof {
            assert(v@.take(i as int).drop_last() =~= v@.take(i - 1));
        }
        i -= 1;
    }
    if i == 0 {
        proof {
            assert(v@.take(0) =~= Seq::<char>::empty());
        }
        let rest = sub_chars(&v, 0, v.len());
        proof {
            assert(rest@ =~= v@);
            reveal_strlit("");
        }
        (false, string_from(&Vec::new()), string_from(&rest))
    } else {
        proof {
            assert(v@.take(i as int).last() == ',');
        }
        let done = sub_chars(&v, 0, i);
        let partial = sub_chars(&v, i, v.len());
        proof {
            assert(done@ =~= v@.take(i as int));
            assert(partial@ =~= v@.skip(i as int));
        }
        (false, string_from(&done), string_from(&partial))
    }
}

/// Complete a region name, or the old name of an `OLD=NEW` rename (with
/// `=` appended; none once the word holds `=`).
pub fn region_candidates(names: &[String], partial: &str, rename: bool) -> (r: Vec<String>)
    ensures
        strings_view(r@) == if rename && partial@.contains('=') {
            Seq::empty()
        } else {
            names_starting(strings_view(names@), partial@, if rename {
                "="@
            } else {
                Seq::empty()
            })
        },
{
    let p = chars_of(partial);
    if rename && chars_have(&p, '=') {
        return Vec::new();
    }
    let suffix: Vec<char> = if rename {
        vec!['=']
    } else {
        Vec::new()
    };
    proof {
        reveal_strlit("=");
        assert(suffix@ == if rename {
            "="@
        } else {
            Seq::<char>::empty()
        });
        assert(strings_view(names@).take(0) =~= Seq::<Seq<char>>::empty());
    }
    let mut out: Vec<String> = Vec::new();
    let mut i: usize = 0;
    while i < names.len()
        invariant
            i <= names@.len(),
            p@ == partial@,
            suffix@ == if rename {
                "="@
            } else {
                Seq::<char>::empty()
            },
            strings_view(out@) == names_starting(strings_view(names@).take(i as int), partial@, suffix@),
        decreases names@.len() - i,
    {
        let name = chars_of(names[i].as_str());
        proof {
            assert(strings_view(names@).take(i + 1).drop_last() == strings_view(names@).take(i as int));
            assert(strings_view(names@).take(i + 1).last() == name@);
        }
        if chars_start_with(&name, &p) {
            let ghost before = strings_view(out@);
            out.push(string_from(&concat_chars(&name, &suffix)));
            proof {
                assert(strings_view(out@) =~= before.push(name@ + suffix@));
            }
        }
        i += 1;
    }
    proof {
        assert(strings_view(names@).take(i as int) =~= strings_view(names@));
    }
    out
}


/// Sorted strings with repeats left out.
fn dedup_sorted(v: Vec<String>) -> (r: Vec<String>)
    requires
        strings_sorted(strings_view(v@)),
    ensures
        strings_sorted(strings_view(r@)),
        strings_view(r@).no_duplicates(),
        forall|n: Seq<char>| #[trigger] strings_view(r@).contains(n) <==> strings_view(v@).contains(n),
{
    let mut out: Vec<String> = Vec::new();
    let mut i: usize = 0;
    while i < v.len()
        invariant
            i <= v@.len(),
            strings_sorted(strings_view(v@)),
            strings_sorted(strings_view(out@)),
            strings_view(out@).no_duplicates(),
            out@.len() > 0 ==> i > 0 && strings_view(out@).last() == strings_view(v@)[i - 1],
            i > 0 ==> out@.len() > 0,
            forall|n: Seq<char>| #[trigger] strings_view(out@).contains(n) <==> strings_view(v@).take(i as int).contains(n),
        decreases v@.len() - i,
    {
        let ghost sv = strings_view(v@);
        let ghost before = strings_view(out@);
        assert(sv.take(i + 1) == sv.take(i as int).push(sv[i as int]));
        let repeat = out.len() > 0 && str_eq(out[out.len() - 1].as_str(), v[i].as_str());
        if !repeat {
            out.push(v[i].clone());
            proof {
                assert(strings_view(out@) =~= before.push(sv[i as int]));
                if before.len() > 0 {
                    assert(seq_le(before.last(), sv[i as int]));
                    lemma_order_equal(before.last(), sv[i as int]);
                }
                assert forall|a: int, b: int| 0 <= a < b < strings_view(out@).len() implies seq_le(
                    #[trigger] strings_view(out@)[a],
                    #[trigger] strings_view(out@)[b],
                ) by {
                    if b == before.len() && a < b {
                        let l = before.len() - 1;
                        assert(seq_le(before[a], before[l]) || a == l);
                        lemma_order_trans(before[a], before[l], sv[i as int]);
                        lemma_seq_total(before[a], before[a]);
                    }
                }
                assert forall|x: int, y: int| 0 <= x < y < strings_view(out@).len() implies strings_view(out@)[x]
                    != strings_view(out@)[y] by {
                    if y == before.len() {
                        let l = before.len() - 1;
                        if x < l {
                            assert(before[x] != before[l]);
                            lemma_order_trans(before[x], before[l], sv[i as int]);
                            lemma_order_equal(before[x], sv[i as int]);
                            lemma_order_flip(before[x], before[l]);
                            lemma_order_equal(before[x], before[l]);
                            lemma_order_flip(before[l], sv[i as int]);
                            if before[x] == sv[i as int] {
                                assert(seq_le(before[l], before[x]));
                                assert(seq_le(before[x], before[l]));
                            }
                        }
                    }
                }
            }
        }
        proof {
            assert forall|n: Seq<char>| #[trigger] strings_view(out@).contains(n) <==> sv.take(i + 1).contains(n) by {
                lemma_push_contains(sv.take(i as int), sv[i as int], n);
                if !repeat {
                    lemma_push_contains(before, sv[i as int], n);
                } else {
                    assert(before.last() == sv[i as int]);
                    assert(before.contains(sv[i as int])) by {
                        assert(before[before.len() - 1] == sv[i as int]);
                    }
                }
            }
        }
        i += 1;
    }
    proof {
        assert(strings_view(v@).take(i as int) =~= strings_view(v@));
    }
    out
}

proof fn lemma_push_contains(s: Seq<Seq<char>>, v: Seq<char>, w: Seq<char>)
    ensures
        s.push(v).contains(w) == (s.contains(w) || w == v),
{
    if s.push(v).contains(w) {
        let k = choose|k: int| 0 <= k < s.push(v).len() && s.push(v)[k] == w;
        if k < s.len() {
            assert(s[k] == w);
        }
    }
    if s.contains(w) {
        let k = choose|k: int| 0 <= k < s.len() && s[k] == w;
        assert(s.push(v)[k] == w);
    }
    if w == v {
        assert(s.push(v)[s.len() as int] == v);
    }
}

/// A block name some region palette of `regions` holds.
pub open spec fn in_palettes(regions: Seq<SchematicRegion>, n: Seq<char>) -> bool {
    exists|i: int, j: int|
        0 <= i < regions.len() && 0 <= j < regions[i].palette_view().len() && #[trigger] regions[i].palette_view()[j].name@ == n
}

/// The blocks a schematic holds, as completion sources: the names in its
/// region palettes, air left out, sorted, each once.
pub fn palette_block_names(schematic: &Schematic) -> (r: Vec<String>)
    ensures
        strings_sorted(strings_view(r@)),
        strings_view(r@).no_duplicates(),
        forall|n: Seq<char>|
            #[trigger] strings_view(r@).contains(n) <==> (in_palettes(schematic.regions@, n) && n != "minecraft:air"@),
{
    let mut names: Vec<String> = Vec::new();
    let mut i: usize = 0;
    while i < schematic.regions.len()
        invariant
            i <= schematic.regions@.len(),
            forall|n: Seq<char>| #[trigger] strings_view(names@).contains(n) <==> (in_palettes(schematic.regions@.take(i as int), n)
                && n != "minecraft:air"@),
        decreases schematic.regions@.len() - i,
    {
        let palette = schematic.regions[i].block_palette();
        let ghost start = strings_view(names@);
        let mut j: usize = 0;
        while j < palette.len()
            invariant
                i < schematic.regions@.len(),
                palette@ == schematic.regions@[i as int].palette_view(),
                j <= palette@.len(),
                forall|n: Seq<char>| #[trigger] strings_view(names@).contains(n) <==> (start.contains(n) || (exists|k: int|
                    0 <= k < j && #[trigger] palette@[k].name@ == n) && n != "minecraft:air"@),
            decreases palette@.len() - j,
        {
            let ghost before = strings_view(names@);
            let ghost nm = palette@[j as int].name@;
            if !str_eq(palette[j].name.as_str(), "minecraft:air") {
                names.push(palette[j].name.clone());
                proof {
                    assert(strings_view(names@) =~= before.push(nm));
                }
            }
            proof {
                assert forall|n: Seq<char>| #[trigger] strings_view(names@).contains(n) <==> (start.contains(n) || (exists|k: int|
                    0 <= k < j + 1 && #[trigger] palette@[k].name@ == n) && n != "minecraft:air"@) by {
                    lemma_push_contains(before, nm, n);
                    if exists|k: int| 0 <= k < j + 1 && #[trigger] palette@[k].name@ == n {
                        let k = choose|k: int| 0 <= k < j + 1 && #[trigger] palette@[k].name@ == n;
                        if k < j {
                            assert(exists|k2: int| 0 <= k2 < j && #[trigger] palette@[k2].name@ == n);
                        }
                    }
                    if exists|k: int| 0 <= k < j && #[trigger] palette@[k].name@ == n {
                        let k = choose|k: int| 0 <= k < j && #[trigger] palette@[k].name@ == n;
                        assert(0 <= k < j + 1 && palette@[k].name@ == n);
                    }
                }
            }
            j += 1;
        }
        proof {
            let regions = schematic.regions@;
            assert forall|n: Seq<char>| #[trigger] strings_view(names@).contains(n) <==> (in_palettes(regions.take(i + 1), n)
                && n != "minecraft:air"@) by {
                if in_palettes(regions.take(i + 1), n) {
                    let (a, b) = choose|a: int, b: int|
                        0 <= a < regions.take(i + 1).len() && 0 <= b < regions.take(i + 1)[a].palette_view().len()
                            && #[trigger] regions.take(i + 1)[a].palette_view()[b].name@ == n;
                    if a < i {
                        assert(regions.take(i as int)[a] == regions[a]);
                        assert(in_palettes(regions.take(i as int), n));
                    } else {
                        assert(palette@[b].name@ == n);
                    }
                }
                if in_palettes(regions.take(i as int), n) {
                    let (a, b) = choose|a: int, b: int|
                        0 <= a < regions.take(i as int).len() && 0 <= b < regions.take(i as int)[a].palette_view().len()
                            && #[trigger] regions.take(i as int)[a].palette_view()[b].name@ == n;
                    assert(regions.take(i + 1)[a] == regions[a]);
                    assert(regions.take(i + 1)[a].palette_view()[b].name@ == n);
                }
                if exists|k: int| 0 <= k < palette@.len() && #[trigger] palette@[k].name@ == n {
                    let k = choose|k: int| 0 <= k < palette@.len() && #[trigger] palette@[k].name@ == n;
                    assert(regions.take(i + 1)[i as int] == regions[i as int]);
                    assert(regions.take(i + 1)[i as int].palette_view()[k].name@ == n);
                }
            }
        }
        i += 1;
    }
    proof {
        assert(schematic.regions@.take(i as int) =~= schematic.regions@);
    }
    let sorted = sort_strings(names);
    proof {
        let a = strings_view(sorted@);
        let b = strings_view(names@);
        a.to_multiset_ensures();
        b.to_multiset_ensures();
        assert forall|n: Seq<char>| a.contains(n) == b.contains(n) by {
            assert(a.to_multiset().count(n) == b.to_multiset().count(n));
        }
    }
    dedup_sorted(sorted)
}

} // verus!
