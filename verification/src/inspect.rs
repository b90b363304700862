use vstd::prelude::*;

use crate::block::{parse_block_id, state_key, BlockId, BlockState};
use crate::category::{category_key, detect, detect_spec, is_solid_candidate, is_solid_candidate_spec, Category};
use crate::mcdata::McData;
use crate::order::{ranked, Named};
use crate::palette::{overrides_view, Palette};
use crate::block::BlockIdErrorKind;
use crate::overrides::OverrideSpec;
use crate::plan::{entry_spec, find_override, key_view_of, lemma_key_view_of, lemma_target_for_concat, target_for, untouchable};
use crate::report::{count_up_to, lemma_count_bound, opt_view, ranked_entries, Counts};
use crate::schematic::SchematicRegion;
use crate::text::{chars_of, str_eq, string_from};

verus! {

/// The category key detected for a block state, if any.
pub open spec fn detected_label(state: BlockState, mcdata: McData) -> Option<Seq<char>> {
    match detect_spec(key_view_of(state), mcdata) {
        Some(c) => Some(category_key(c)),
        None => None,
    }
}

/// The marker shown next to a block, mirroring what normalize would do with
/// the palette: a configuration override beats protection, both beat
/// categories, and only blocks the solid prompt would offer are candidates.
pub open spec fn marker_spec(state: BlockState, palette: Palette, mcdata: McData) -> Option<Seq<char>> {
    match parse_block_id(state.name@) {
        Err(_) => detected_label(state, mcdata),
        Ok(id) => if target_for(overrides_view(palette.overrides@), id) is Some {
            Some("override"@)
        } else if palette.protected.has(id, mcdata) {
            Some("protected"@)
        } else if palette.solid_members.has(id, mcdata) {
            Some("solid"@)
        } else {
            match detected_label(state, mcdata) {
                Some(d) => Some(d),
                None => if is_solid_candidate_spec(id, mcdata) && !(palette.targets@.dom().contains(
                    Category::Solid,
                ) && palette.targets@[Category::Solid] == id) {
                    Some("solid candidate"@)
                } else {
                    None
                },
            }
        },
    }
}

fn text(s: &str) -> (r: String)
    ensures
        r@ == s@,
{
    string_from(&chars_of(s))
}

/// The marker shown next to a block in an inspection.
pub fn marker(state: &BlockState, palette: &Palette, mcdata: &McData) -> (r: Option<String>)
    ensures
        opt_view(r) == marker_spec(*state, *palette, *mcdata),
{
    let key = state_key(state);
    proof {
        lemma_key_view_of(key@, *state);
    }
    let detected = match detect(&key, mcdata) {
        Some(c) => Some(text(c.key())),
        None => None,
    };
    let id = match BlockId::parse(key.name()) {
        Ok(id) => id,
        Err(_) => return detected,
    };
    if find_override(palette.overrides.as_slice(), &id).is_some() {
        return Some(text("override"));
    }
    if palette.protected.contains(&id, mcdata) {
        return Some(text("protected"));
    }
    if palette.solid_members.contains(&id, mcdata) {
        return Some(text("solid"));
    }
    match detected {
        Some(d) => Some(d),
        None => {
            let is_target = match palette.targets.get(&Category::Solid) {
                Some(t) => t.same(&id),
                None => false,
            };
            if is_solid_candidate(id.as_str(), mcdata) && !is_target {
                Some(text("solid candidate"))
            } else {
                None
            }
        },
    }
}

/// How many blocks of `region` are named `name`.
pub open spec fn name_count(region: SchematicRegion, name: Seq<char>) -> nat {
    count_up_to(region.grid().len() as int, |i: int| region.grid()[i].name@ == name)
}

/// `i` is the first palette entry of `region` named `name`.
pub open spec fn first_in_palette(region: SchematicRegion, name: Seq<char>, i: int) -> bool {
    &&& 0 <= i < region.palette_view().len()
    &&& region.palette_view()[i].name@ == name
    &&& forall|j: int| 0 <= j < i ==> (#[trigger] region.palette_view()[j]).name@ != name
}

/// The marker of the first palette entry named `name`: the one an
/// inspection shows for every block of that name.
pub open spec fn name_marker(region: SchematicRegion, name: Seq<char>, palette: Palette, mcdata: McData) -> Option<
    Seq<char>,
> {
    marker_spec(
        region.palette_view()[choose|i: int| first_in_palette(region, name, i)],
        palette,
        mcdata,
    )
}

/// One line of a region's block listing.
#[derive(Debug, Clone)]
pub struct BlockLine {
    pub name: String,
    pub count: u64,
    pub marker: Option<String>,
}

pub open spec fn line_view(l: BlockLine) -> (Seq<char>, u64) {
    (l.name@, l.count)
}

/// Index of the first palette entry named `name`.
fn first_named_state(states: &[BlockState], name: &str) -> (r: Option<usize>)
    ensures
        match r {
            Some(i) => i < states@.len() && states@[i as int].name@ == name@ && forall|j: int|
                0 <= j < i ==> (#[trigger] states@[j]).name@ != name@,
            None => forall|j: int| 0 <= j < states@.len() ==> (#[trigger] states@[j]).name@ != name@,
        },
{
    let mut i: usize = 0;
    while i < states.len()
        invariant
            i <= states@.len(),
            forall|j: int| 0 <= j < i ==> (#[trigger] states@[j]).name@ != name@,
        decreases states@.len() - i,
    {
        if str_eq(states[i].name.as_str(), name) {
            return Some(i);
        }
        i += 1;
    }
    None
}

/// The blocks of a region by name, most used first (equal counts by name),
/// each with the marker of its first palette entry.
pub fn block_lines(region: &SchematicRegion, palette: &Palette, mcdata: &McData) -> (r: Vec<BlockLine>)
    requires
        region.wf(),
    ensures
        ranked(r@.map_values(|l: BlockLine| line_view(l))),
        forall|i: int|
            0 <= i < r@.len() ==> (#[trigger] r@[i]).count == name_count(*region, r@[i].name@) && r@[i].count > 0
                && opt_view(r@[i].marker) == name_marker(*region, r@[i].name@, *palette, *mcdata),
        forall|n: Seq<char>| #[trigger] name_count(*region, n) > 0 ==> exists|i: int| 0 <= i < r@.len() && r@[i].name@ == n,
        forall|i: int, j: int| 0 <= i < j < r@.len() ==> (#[trigger] r@[i]).name@ != (#[trigger] r@[j]).name@,
{
    let mut counts: Counts<String> = Counts::new();
    let n = region.volume();
    proof {
        region.lemma_wf();
    }
    let mut i: usize = 0;
    while i < n
        invariant
            region.wf(),
            n == region.grid().len(),
            n <= i32::MAX,
            i <= n,
            counts.wf(),
            forall|k: Seq<Option<Seq<char>>>| #[trigger] counts.count(k) == if k.len() == 1 && k[0] is Some {
                count_up_to(i as int, |j: int| region.grid()[j].name@ == k[0]->0)
            } else {
                0
            },
        decreases n - i,
    {
        let state = region.block_at_index(i);
        let name = state.name.clone();
        let ghost key = seq![Some(name@)];
        proof {
            assert(key[0]->0 == name@);
            lemma_count_bound(i as int, |j: int| region.grid()[j].name@ == name@);
        }
        counts.increment(name);
        proof {
            assert forall|k: Seq<Option<Seq<char>>>| #[trigger] counts.count(k) == if k.len() == 1 && k[0] is Some {
                count_up_to(i + 1, |j: int| region.grid()[j].name@ == k[0]->0)
            } else {
                0
            } by {
                if k.len() == 1 && k[0] is Some {
                    let m = k[0]->0;
                    assert(count_up_to(i + 1, |j: int| region.grid()[j].name@ == m) == count_up_to(
                        i as int,
                        |j: int| region.grid()[j].name@ == m,
                    ) + if region.grid()[i as int].name@ == m {
                        1nat
                    } else {
                        0nat
                    });
                    if m == name@ {
                        assert(k =~= key);
                    } else {
                        assert(k != key);
                    }
                } else {
                    assert(k != key);
                }
            }
        }
        i += 1;
    }
    let ranked_names = ranked_entries(&counts);
    let states = region.block_palette();
    let mut lines: Vec<BlockLine> = Vec::new();
    let mut e: usize = 0;
    while e < ranked_names.len()
        invariant
            e <= ranked_names@.len(),
            region.wf(),
            n == region.grid().len(),
            states@ == region.palette_view(),
            lines@.len() == e,
            forall|k: Seq<Option<Seq<char>>>| #[trigger] counts.count(k) == if k.len() == 1 && k[0] is Some {
                count_up_to(n as int, |j: int| region.grid()[j].name@ == k[0]->0)
            } else {
                0
            },
            forall|i: int|
                0 <= i < ranked_names@.len() ==> (#[trigger] ranked_names@[i]).1 == counts.count(
                    seq![Some(ranked_names@[i].0@)],
                ) && ranked_names@[i].1 > 0,
            forall|i: int|
                0 <= i < e ==> line_view(#[trigger] lines@[i]) == (ranked_names@[i].0@, ranked_names@[i].1)
                    && opt_view(lines@[i].marker) == name_marker(*region, lines@[i].name@, *palette, *mcdata),
        decreases ranked_names@.len() - e,
    {
        let name = ranked_names[e].0.clone();
        let count = ranked_names[e].1;
        let ghost key = seq![Some(name@)];
        proof {
            assert(key[0]->0 == name@);
            assert(counts.count(key) > 0);
            lemma_named_in_palette(*region, name@, n as int, |j: int| region.grid()[j].name@ == key[0]->0);
        }
        let first = first_named_state(states, name.as_str());
        let marker = match first {
            Some(p) => {
                proof {
                    assert(first_in_palette(*region, name@, p as int));
                    let c = choose|c: int| first_in_palette(*region, name@, c);
                    assert(c == p as int) by {
                        if c < p {
                            assert(states@[c].name@ != name@);
                        }
                        if p < c {
                            assert(region.palette_view()[p as int].name@ != name@);
                        }
                    }
                }
                marker(&states[p], palette, mcdata)
            },
            None => None,
        };
        lines.push(BlockLine { name, count, marker });
        e += 1;
    }
    proof {
        assert(lines@.map_values(|l: BlockLine| line_view(l)) =~= crate::order::ranks_view(ranked_names@));
        assert forall|m: Seq<char>| #[trigger] name_count(*region, m) > 0 implies exists|i: int|
            0 <= i < lines@.len() && lines@[i].name@ == m by {
            let k = seq![Some(m)];
            assert(k[0]->0 == m);
            assert(counts.count(k) > 0);
            let i = choose|i: int| 0 <= i < ranked_names@.len() && ranked_names@[i].0.name_view() == m;
            assert(line_view(lines@[i]) == (ranked_names@[i].0@, ranked_names@[i].1));
        }
        assert forall|i: int| 0 <= i < lines@.len() implies (#[trigger] lines@[i]).count == name_count(
            *region,
            lines@[i].name@,
        ) && lines@[i].count > 0 by {
            assert(line_view(lines@[i]) == (ranked_names@[i].0@, ranked_names@[i].1));
            let k = seq![Some(ranked_names@[i].0@)];
            assert(k[0]->0 == lines@[i].name@);
        }
        assert forall|i: int, j: int| 0 <= i < j < lines@.len() implies (#[trigger] lines@[i]).name@
            != (#[trigger] lines@[j]).name@ by {
            assert(line_view(lines@[i]) == (ranked_names@[i].0@, ranked_names@[i].1));
            assert(line_view(lines@[j]) == (ranked_names@[j].0@, ranked_names@[j].1));
        }
    }
    lines
}

proof fn lemma_named_in_palette(region: SchematicRegion, name: Seq<char>, n: int, pred: spec_fn(int) -> bool)
    requires
        region.wf(),
        n == region.grid().len(),
        forall|j: int| #[trigger] pred(j) ==> region.grid()[j].name@ == name,
        count_up_to(n, pred) > 0,
    ensures
        exists|p: int| 0 <= p < region.palette_view().len() && region.palette_view()[p].name@ == name,
{
    let j = lemma_count_witness(n, pred);
    region.lemma_grid_in_palette(j);
}

proof fn lemma_count_witness(n: int, pred: spec_fn(int) -> bool) -> (j: int)
    requires
        count_up_to(n, pred) > 0,
    ensures
        0 <= j < n,
        pred(j),
    decreases n,
{
    if pred(n - 1) {
        n - 1
    } else {
        lemma_count_witness(n - 1, pred)
    }
}

/// No category key, nor `solid candidate`, reads `override` or `protected`.
proof fn lemma_labels_differ(c: Category)
    ensures
        category_key(c) != "override"@,
        category_key(c) != "protected"@,
        "solid candidate"@ != "override"@,
        "solid candidate"@ != "protected"@,
        "override"@ != "protected"@,
{
    reveal_strlit("override");
    reveal_strlit("protected");
    reveal_strlit("solid candidate");
    reveal_strlit("solid");
    reveal_strlit("glass");
    reveal_strlit("glass_pane");
    reveal_strlit("terracotta");
    reveal_strlit("wall");
    reveal_strlit("stair");
    reveal_strlit("slab");
    reveal_strlit("coral");
    assert(category_key(c).len() != 8 && category_key(c).len() != 9);
    assert("solid candidate"@.len() == 15);
    assert("override"@.len() == 8 && "protected"@.len() == 9);
}

/// Without command line overrides, normalize decides a block named by a
/// configuration override by that override, and keeps a protected block no
/// override names.
proof fn lemma_entry_without_cli(
    state: BlockState,
    palette: Palette,
    selection: Seq<Seq<char>>,
    mcdata: McData,
    id: Seq<char>,
)
    requires
        !untouchable(state.name@),
        parse_block_id(state.name@) == Ok::<Seq<char>, BlockIdErrorKind>(id),
    ensures
        target_for(overrides_view(palette.overrides@), id) matches Some(t) ==> entry_spec(
            state,
            palette,
            Seq::<OverrideSpec>::empty(),
            selection,
            mcdata,
        ).0 == match t {
            Some(tt) => Some((tt, true)),
            None => None,
        },
        target_for(overrides_view(palette.overrides@), id) is None && palette.protected.has(id, mcdata) ==> entry_spec(
            state,
            palette,
            Seq::<OverrideSpec>::empty(),
            selection,
            mcdata,
        ).0 is None,
{
    assert(overrides_view(Seq::<OverrideSpec>::empty()) =~= Seq::empty());
    lemma_target_for_concat(Seq::empty(), overrides_view(palette.overrides@), id);
    assert(Seq::<(Seq<Seq<char>>, Option<Seq<char>>)>::empty() + overrides_view(palette.overrides@)
        =~= overrides_view(palette.overrides@));
}

/// The marker of a block with a valid id follows normalize's precedence: a
/// configuration override marks it `override`; otherwise protection marks
/// it `protected`, whatever category it has; otherwise a standing solid
/// member is `solid`; otherwise it shows its detected category; a block with
/// no category is a `solid candidate` exactly when the solid prompt could
/// offer it, and unmarked otherwise.
pub proof fn law_marker_precedence(state: BlockState, palette: Palette, mcdata: McData, id: Seq<char>)
    requires
        parse_block_id(state.name@) == Ok::<Seq<char>, BlockIdErrorKind>(id),
    ensures
        target_for(overrides_view(palette.overrides@), id) is Some ==> marker_spec(state, palette, mcdata) == Some(
            "override"@,
        ),
        target_for(overrides_view(palette.overrides@), id) is None && palette.protected.has(id, mcdata)
            ==> marker_spec(state, palette, mcdata) == Some("protected"@),
        target_for(overrides_view(palette.overrides@), id) is None && !palette.protected.has(id, mcdata)
            && palette.solid_members.has(id, mcdata) ==> marker_spec(state, palette, mcdata) == Some("solid"@),
        target_for(overrides_view(palette.overrides@), id) is None && !palette.protected.has(id, mcdata)
            && !palette.solid_members.has(id, mcdata) && detect_spec(key_view_of(state), mcdata) is Some
            ==> marker_spec(state, palette, mcdata) == Some(category_key(detect_spec(key_view_of(state), mcdata)->Some_0)),
        target_for(overrides_view(palette.overrides@), id) is None && !palette.protected.has(id, mcdata)
            && !palette.solid_members.has(id, mcdata) && detect_spec(key_view_of(state), mcdata) is None
            ==> marker_spec(state, palette, mcdata) == (if is_solid_candidate_spec(id, mcdata) && !(
            palette.targets@.dom().contains(Category::Solid) && palette.targets@[Category::Solid] == id) {
            Some("solid candidate"@)
        } else {
            None
        }),
{
}

/// A block whose name is not a valid id shows only its detected category.
pub proof fn law_marker_of_invalid_names(state: BlockState, palette: Palette, mcdata: McData)
    requires
        parse_block_id(state.name@) is Err,
    ensures
        marker_spec(state, palette, mcdata) == match detect_spec(key_view_of(state), mcdata) {
            Some(c) => Some(category_key(c)),
            None => None,
        },
{
}

/// The marker mirrors what normalize does without command line overrides:
/// a block is marked `override` exactly when a configuration override names
/// it, and then normalize replaces it (or keeps it, for an empty target) as
/// that override says; a block marked `protected` is kept.
pub proof fn law_marker_mirrors_normalize(
    state: BlockState,
    palette: Palette,
    selection: Seq<Seq<char>>,
    mcdata: McData,
    id: Seq<char>,
)
    requires
        !untouchable(state.name@),
        parse_block_id(state.name@) == Ok::<Seq<char>, BlockIdErrorKind>(id),
    ensures
        (marker_spec(state, palette, mcdata) == Some("override"@)) == (target_for(
            overrides_view(palette.overrides@),
            id,
        ) is Some),
        target_for(overrides_view(palette.overrides@), id) matches Some(t) ==> entry_spec(
            state,
            palette,
            Seq::<OverrideSpec>::empty(),
            selection,
            mcdata,
        ).0 == match t {
            Some(tt) => Some((tt, true)),
            None => None,
        },
        marker_spec(state, palette, mcdata) == Some("protected"@) ==> entry_spec(
            state,
            palette,
            Seq::<OverrideSpec>::empty(),
            selection,
            mcdata,
        ).0 is None,
{
    lemma_labels_differ(Category::Solid);
    if let Some(c) = detect_spec(key_view_of(state), mcdata) {
        lemma_labels_differ(c);
    }
    lemma_entry_without_cli(state, palette, selection, mcdata, id);
}

} // verus!
