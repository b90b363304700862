use vstd::prelude::*;
use vstd::multiset::Multiset;

use crate::block::{
    id_namespace, id_path, is_key_of, parse_block_id, state_key, state_view, BlockId, BlockIdErrorKind,
    BlockState, BlockStateKey,
};
use crate::category::{category_key, detect, detect_spec, is_solid_candidate, is_solid_candidate_spec, Category};
use crate::lookup::{find_key, lookup, strings_have, strings_view};
use crate::mcdata::{BlockInfo, McData};
use crate::order::{
    lemma_order_equal, lemma_sorted_unique, pairs_sorted, rank_le, seq_order, Order, pairs_view, rank_by_count, rank_view, ranked, ranks_view, sort_strings, strings_sorted,
};
use crate::overrides::{ids_view, opt_id_view, OverrideSpec};
use crate::palette::{overrides_view, Palette};
use crate::report::{count_up_to, lemma_count_bound, opt_view, ranked_entries, Counts, CountKey, RegionReport};
use crate::schematic::{
    dim, in_bounds, index_of, lemma_pos_of_index, pos_of, valid_size, volume_of, BlockPos, SchematicRegion,
};
use crate::text::{
    chars_have, chars_of, chars_start_with, concat_chars, find_chars, find_seq, starts_with,
    str_eq, string_from, sub_chars,
};

verus! {

broadcast use vstd::seq_lib::group_seq_properties;

/// Blocks that are never counted, reported or replaced.
pub open spec fn untouchable(name: Seq<char>) -> bool {
    name == "minecraft:air"@ || name == "minecraft:cave_air"@ || name == "minecraft:void_air"@
        || name == "minecraft:structure_void"@
}

pub fn is_untouchable(name: &str) -> (r: bool)
    ensures
        r == untouchable(name@),
{
    str_eq(name, "minecraft:air") || str_eq(name, "minecraft:cave_air") || str_eq(
        name,
        "minecraft:void_air",
    ) || str_eq(name, "minecraft:structure_void")
}

/// What happens to one palette entry.
#[derive(Debug, Clone)]
pub enum Decision {
    Keep,
    Replace {
        state: BlockState,
        /// Property names of the source state the target's schema does not
        /// accept, dropped from the replacement.
        dropped: Vec<String>,
        /// Whether this replacement came from an explicit override rather
        /// than a palette category; explicit replacements also apply to
        /// blocks with block entity data.
        explicit: bool,
    },
}

/// A replacement names each of its properties once.
pub open spec fn names_once(d: Decision) -> bool {
    match d {
        Decision::Replace { state, .. } => state.wf(),
        Decision::Keep => true,
    }
}

#[derive(Debug, Clone)]
pub struct EntryPlan {
    pub decision: Decision,
    pub category: Option<Category>,
    /// Whether the block is configuration protected: kept despite its
    /// category, unless an explicit override targets it.
    pub protected: bool,
}

/// The key of a block state: its name and its properties in ascending order.
pub open spec fn key_view_of(state: BlockState) -> (Seq<char>, Seq<(Seq<char>, Seq<char>)>) {
    (
        state.name@,
        choose|s: Seq<(Seq<char>, Seq<char>)>|
            pairs_sorted(s) && s.to_multiset() == pairs_view(state.properties@).to_multiset(),
    )
}

pub proof fn lemma_key_view_of(k: (Seq<char>, Seq<(Seq<char>, Seq<char>)>), state: BlockState)
    requires
        is_key_of(k, state_view(state).0, state_view(state).1),
    ensures
        k == key_view_of(state),
{
    let m = pairs_view(state.properties@).to_multiset();
    assert(pairs_sorted(k.1) && k.1.to_multiset() == m);
    assert(exists|s: Seq<(Seq<char>, Seq<char>)>| pairs_sorted(s) && s.to_multiset() == m);
    let c = choose|s: Seq<(Seq<char>, Seq<char>)>|
        pairs_sorted(s) && s.to_multiset() == pairs_view(state.properties@).to_multiset();
    assert(pairs_sorted(c) && c.to_multiset() == m);
    lemma_sorted_unique(c, k.1);
    assert(key_view_of(state) == (state.name@, c));
}

/// The target of the first override listing `id` as a source.
pub open spec fn target_for(os: Seq<(Seq<Seq<char>>, Option<Seq<char>>)>, id: Seq<char>) -> Option<
    Option<Seq<char>>,
>
    decreases os.len(),
{
    if os.len() == 0 {
        None
    } else if os[0].0.contains(id) {
        Some(os[0].1)
    } else {
        target_for(os.drop_first(), id)
    }
}

pub proof fn lemma_target_for_concat(
    a: Seq<(Seq<Seq<char>>, Option<Seq<char>>)>,
    b: Seq<(Seq<Seq<char>>, Option<Seq<char>>)>,
    id: Seq<char>,
)
    ensures
        target_for(a + b, id) == match target_for(a, id) {
            Some(t) => Some(t),
            None => target_for(b, id),
        },
    decreases a.len(),
{
    if a.len() > 0 {
        assert((a + b)[0] == a[0]);
        assert((a + b).drop_first() == a.drop_first() + b);
        lemma_target_for_concat(a.drop_first(), b, id);
    } else {
        assert(a + b == b);
    }
}

/// The coral block of family `family` with the shape and dead or alive state
/// of `source`: `dead_brain_coral_fan` with `tube` is `dead_tube_coral_fan`.
/// None where `source` has no `_coral` part, is already of that family, or
/// the result is no valid id.
pub open spec fn coral_target(source: Seq<char>, family: Seq<char>) -> Option<Seq<char>> {
    let p = id_path(source);
    let dead = starts_with(p, "dead_"@);
    let rest = if dead {
        p.skip(5)
    } else {
        p
    };
    match find_seq(rest, "_coral"@) {
        None => None,
        Some(k) => if rest.take(k) == family {
            None
        } else {
            let text = id_namespace(source) + seq![':'] + (if dead {
                "dead_"@
            } else {
                Seq::empty()
            }) + family + rest.skip(k);
            match parse_block_id(text) {
                Ok(t) => Some(t),
                Err(_) => None,
            }
        },
    }
}

/// The block a category replaces `source` with, if any.
pub open spec fn category_target(category: Option<Category>, source: Seq<char>, palette: Palette) -> Option<
    Seq<char>,
> {
    match category {
        Some(Category::Coral) => match palette.coral_family {
            Some(f) => coral_target(source, f@),
            None => None,
        },
        Some(c) => if palette.targets@.dom().contains(c) && palette.targets@[c] != source {
            Some(palette.targets@[c])
        } else {
            None
        },
        None => None,
    }
}

/// What is decided for a palette entry: the replacement target and whether
/// it is explicit (None keeps the block), the category, and protection.
/// Precedence: untouchable blocks and unparsable names are kept, then CLI
/// overrides in argument order, configuration overrides, protection, and
/// the category target.
pub open spec fn entry_spec(
    state: BlockState,
    palette: Palette,
    cli: Seq<OverrideSpec>,
    selection: Seq<Seq<char>>,
    mcdata: McData,
) -> (Option<(Seq<char>, bool)>, Option<Category>, bool) {
    if untouchable(state.name@) {
        (None, None, false)
    } else {
        match parse_block_id(state.name@) {
            Err(_) => (None, None, false),
            Ok(source) => {
                let category = if selection.contains(source) || palette.solid_members.has(
                    source,
                    mcdata,
                ) {
                    Some(Category::Solid)
                } else {
                    detect_spec(key_view_of(state), mcdata)
                };
                match target_for(overrides_view(cli) + overrides_view(palette.overrides@), source) {
                    Some(t) => (
                        match t {
                            Some(tt) => Some((tt, true)),
                            None => None,
                        },
                        category,
                        false,
                    ),
                    None => if palette.protected.has(source, mcdata) {
                        (None, category, true)
                    } else {
                        (
                            match category_target(category, source, palette) {
                                Some(t) => Some((t, false)),
                                None => None,
                            },
                            category,
                            false,
                        )
                    },
                }
            },
        }
    }
}

/// The target's property schema accepts a property; without extracted data
/// every property is accepted.
pub open spec fn accepts(schema: Option<BlockInfo>, p: (Seq<char>, Seq<char>)) -> bool {
    match schema {
        None => true,
        Some(info) => match lookup(info.properties@, p.0) {
            Some(values) => strings_view(values@).contains(p.1),
            None => false,
        },
    }
}

/// The properties of `state` that carry over to `target`, in order.
pub open spec fn kept_props(state: BlockState, target: Seq<char>, mcdata: McData) -> Seq<
    (Seq<char>, Seq<char>),
> {
    pairs_view(state.properties@).filter(|p: (Seq<char>, Seq<char>)| accepts(mcdata.block_info(target), p))
}

/// The names of the properties of `state` that `target` does not accept.
pub open spec fn dropped_names(state: BlockState, target: Seq<char>, mcdata: McData) -> Seq<Seq<char>> {
    pairs_view(state.properties@).filter(
        |p: (Seq<char>, Seq<char>)| !accepts(mcdata.block_info(target), p),
    ).map_values(|p: (Seq<char>, Seq<char>)| p.0)
}

/// A decision carries out what was decided for `state`.
pub open spec fn decision_realizes(
    d: Decision,
    target: Option<(Seq<char>, bool)>,
    state: BlockState,
    mcdata: McData,
) -> bool {
    match target {
        None => d is Keep,
        Some(t) => match d {
            Decision::Keep => false,
            Decision::Replace { state: s2, dropped, explicit } => {
                &&& s2.name@ == t.0
                &&& explicit == t.1
                &&& pairs_view(s2.properties@) == kept_props(state, t.0, mcdata)
                &&& strings_sorted(strings_view(dropped@))
                &&& strings_view(dropped@).to_multiset() == dropped_names(state, t.0, mcdata).to_multiset()
            },
        },
    }
}

/// An entry plan carries out what was decided for `state`.
pub open spec fn entry_realizes(
    e: EntryPlan,
    state: BlockState,
    palette: Palette,
    cli: Seq<OverrideSpec>,
    selection: Seq<Seq<char>>,
    mcdata: McData,
) -> bool {
    let s = entry_spec(state, palette, cli, selection, mcdata);
    &&& e.category == s.1
    &&& e.protected == s.2
    &&& decision_realizes(e.decision, s.0, state, mcdata)
}

fn accepted_by(schema: Option<&BlockInfo>, name: &String, value: &String) -> (r: bool)
    ensures
        r == accepts(
            match schema {
                Some(i) => Some(*i),
                None => None,
            },
            (name@, value@),
        ),
{
    match schema {
        None => true,
        Some(info) => match find_key(&info.properties, name.as_str()) {
            Some(j) => strings_have(&info.properties[j].1, value.as_str()),
            None => false,
        },
    }
}

/// Keeping some of a list of properties keeps each name once.
proof fn lemma_kept_names_distinct(s: Seq<(Seq<char>, Seq<char>)>, p: spec_fn((Seq<char>, Seq<char>)) -> bool)
    requires
        forall|i: int, j: int| 0 <= i < j < s.len() ==> #[trigger] s[i].0 != #[trigger] s[j].0,
    ensures
        forall|i: int, j: int| 0 <= i < j < s.filter(p).len() ==> #[trigger] s.filter(p)[i].0 != #[trigger] s.filter(p)[j].0,
    decreases s.len(),
{
    reveal(Seq::filter);
    if s.len() > 0 {
        let r = s.drop_last();
        assert forall|i: int, j: int| 0 <= i < j < r.len() implies #[trigger] r[i].0 != #[trigger] r[j].0 by {
            assert(r[i] == s[i] && r[j] == s[j]);
        }
        lemma_kept_names_distinct(r, p);
        let f = r.filter(p);
        if p(s.last()) {
            assert forall|k: int| 0 <= k < f.len() implies #[trigger] f[k].0 != s.last().0 by {
                assert(f.contains(f[k]));
                r.lemma_filter_contains_rev(p, f[k]);
                let idx = choose|idx: int| 0 <= idx < r.len() && r[idx] == f[k];
                assert(s[idx] == r[idx]);
            }
            assert(s.filter(p) == f.push(s.last()));
        } else {
            assert(s.filter(p) == f);
        }
    }
}

/// Replace `state` by `target`, keeping the properties the target's schema
/// accepts.
fn replace_with(state: &BlockState, target: &BlockId, explicit: bool, mcdata: &McData) -> (r: Decision)
    ensures
        decision_realizes(r, Some((target@, explicit)), *state, *mcdata),
        state.wf() ==> (r matches Decision::Replace { state: s, .. } && s.wf()),
{
    let schema = mcdata.block(target.as_str());
    let ghost sch = mcdata.block_info(target@);
    let ghost pred = |p: (Seq<char>, Seq<char>)| accepts(sch, p);
    let ghost npred = |p: (Seq<char>, Seq<char>)| !accepts(sch, p);
    let ghost fst = |p: (Seq<char>, Seq<char>)| p.0;
    let ghost pv = pairs_view(state.properties@);
    let mut kept: Vec<(String, String)> = Vec::new();
    let mut dropped: Vec<String> = Vec::new();
    let mut i: usize = 0;
    assert(pv.take(0) =~= Seq::<(Seq<char>, Seq<char>)>::empty());
    assert(pairs_view(kept@) =~= pv.take(0).filter(pred));
    assert(strings_view(dropped@) =~= pv.take(0).filter(npred).map_values(fst));
    while i < state.properties.len()
        invariant
            i <= state.properties.len(),
            pv == pairs_view(state.properties@),
            sch == mcdata.block_info(target@),
            match schema {
                Some(info) => sch == Some(*info),
                None => sch is None,
            },
            pred == (|p: (Seq<char>, Seq<char>)| accepts(sch, p)),
            npred == (|p: (Seq<char>, Seq<char>)| !accepts(sch, p)),
            fst == (|p: (Seq<char>, Seq<char>)| p.0),
            pairs_view(kept@) == pv.take(i as int).filter(pred),
            strings_view(dropped@) == pv.take(i as int).filter(npred).map_values(fst),
        decreases state.properties.len() - i,
    {
        let name = &state.properties[i].0;
        let value = &state.properties[i].1;
        let ghost x = pv[i as int];
        assert(pv.take(i + 1) == pv.take(i as int).push(x));
        proof {
            pv.take(i as int).lemma_filter_push(x, pred);
            pv.take(i as int).lemma_filter_push(x, npred);
        }
        let ghost old_kept = kept@;
        let ghost old_dropped = dropped@;
        if accepted_by(schema, name, value) {
            kept.push((name.clone(), value.clone()));
            assert(pairs_view(kept@) =~= pairs_view(old_kept).push(x));
        } else {
            dropped.push(name.clone());
            assert(strings_view(dropped@) =~= strings_view(old_dropped).push(x.0));
            assert(pv.take(i as int).filter(npred).push(x).map_values(fst) =~= pv.take(i as int).filter(
                npred,
            ).map_values(fst).push(x.0));
        }
        i += 1;
    }
    assert(pv.take(i as int) == pv);
    proof {
        if state.wf() {
            assert forall|a: int, b: int| 0 <= a < b < pv.len() implies #[trigger] pv[a].0 != #[trigger] pv[b].0 by {
                assert(pv[a].0 == state.properties@[a].0@ && pv[b].0 == state.properties@[b].0@);
            }
            lemma_kept_names_distinct(pv, pred);
            let kv = pairs_view(kept@);
            assert forall|a: int, b: int| 0 <= a < b < kept@.len() implies #[trigger] kept@[a].0@ != #[trigger] kept@[b].0@ by {
                assert(kv[a].0 == kept@[a].0@ && kv[b].0 == kept@[b].0@);
            }
        }
    }
    let sorted = sort_strings(dropped);
    Decision::Replace {
        state: BlockState { name: string_from(&chars_of(target.as_str())), properties: kept },
        dropped: sorted,
        explicit,
    }
}

/// Swap the family of a coral block while preserving its shape and dead or
/// alive state.
fn coral_replacement(state: &BlockState, source: &BlockId, family: &String, mcdata: &McData) -> (r: Decision)
    ensures
        decision_realizes(
            r,
            match coral_target(source@, family@) {
                Some(t) => Some((t, false)),
                None => None,
            },
            *state,
            *mcdata,
        ),
        state.wf() ==> names_once(r),
{
    let path = chars_of(source.path().as_str());
    let dead_prefix = chars_of("dead_");
    assert("dead_"@.len() == 5) by {
        reveal_strlit("dead_");
    }
    let dead = chars_start_with(&path, &dead_prefix);
    let rest = if dead {
        sub_chars(&path, 5, path.len())
    } else {
        sub_chars(&path, 0, path.len())
    };
    assert(path@.subrange(0, path@.len() as int) == path@);
    assert(path@.subrange(5, path@.len() as int) =~= path@.skip(5) || !dead);
    let coral = match find_chars(&rest, &chars_of("_coral")) {
        Some(k) => k,
        None => return Decision::Keep,
    };
    let source_family = sub_chars(&rest, 0, coral);
    let suffix = sub_chars(&rest, coral, rest.len());
    assert(source_family@ == rest@.take(coral as int));
    assert(suffix@ == rest@.skip(coral as int));
    let fam = chars_of(family.as_str());
    if crate::text::chars_eq(&source_family, &fam) {
        return Decision::Keep;
    }
    let mut text = chars_of(source.namespace().as_str());
    text.push(':');
    if dead {
        text = concat_chars(&text, &dead_prefix);
    }
    let text = concat_chars(&text, &fam);
    let text = concat_chars(&text, &suffix);
    proof {
        let head = id_namespace(source@) + seq![':'];
        if dead {
            assert(text@ =~= head + "dead_"@ + family@ + rest@.skip(coral as int));
        } else {
            assert(text@ =~= head + Seq::<char>::empty() + family@ + rest@.skip(coral as int));
        }
    }
    let target = match BlockId::parse(string_from(&text).as_str()) {
        Ok(t) => t,
        Err(_) => return Decision::Keep,
    };
    replace_with(state, &target, false, mcdata)
}

/// Whether `sources` lists `id`.
fn sources_have(sources: &Vec<BlockId>, id: &BlockId) -> (r: bool)
    ensures
        r == ids_view(sources@).contains(id@),
{
    let mut i: usize = 0;
    while i < sources.len()
        invariant
            i <= sources.len(),
            forall|j: int| 0 <= j < i ==> #[trigger] sources@[j]@ != id@,
        decreases sources.len() - i,
    {
        if sources[i].same(id) {
            assert(ids_view(sources@)[i as int] == id@);
            return true;
        }
        i += 1;
    }
    assert forall|j: int| 0 <= j < ids_view(sources@).len() implies ids_view(sources@)[j] != id@ by {
        assert(ids_view(sources@)[j] == sources@[j]@);
    }
    false
}

/// The first override of `os` listing `id` as a source.
pub(crate) fn find_override<'a>(os: &'a [OverrideSpec], id: &BlockId) -> (r: Option<&'a OverrideSpec>)
    ensures
        match r {
            Some(o) => target_for(overrides_view(os@), id@) == Some(opt_id_view(o.target)),
            None => target_for(overrides_view(os@), id@) is None,
        },
{
    let ghost ov = overrides_view(os@);
    let mut i: usize = 0;
    assert(ov.skip(0) == ov);
    while i < os.len()
        invariant
            ov == overrides_view(os@),
            i <= os.len(),
            target_for(ov, id@) == target_for(ov.skip(i as int), id@),
        decreases os.len() - i,
    {
        assert(ov.skip(i as int)[0] == os@[i as int].spec_view());
        if sources_have(&os[i].sources, id) {
            return Some(&os[i]);
        }
        assert(ov.skip(i as int).drop_first() == ov.skip(i + 1));
        i += 1;
    }
    None
}

/// Whether the selection lists `id`.
fn selected(selection: &Vec<BlockId>, id: &BlockId) -> (r: bool)
    ensures
        r == ids_view(selection@).contains(id@),
{
    sources_have(selection, id)
}

/// Decide the fate of one palette entry.
fn plan_entry(
    state: &BlockState,
    key: &BlockStateKey,
    palette: &Palette,
    cli_overrides: &[OverrideSpec],
    solid_selection: &Vec<BlockId>,
    mcdata: &McData,
) -> (r: EntryPlan)
    requires
        is_key_of(key@, state_view(*state).0, state_view(*state).1),
    ensures
        entry_realizes(r, *state, *palette, cli_overrides@, ids_view(solid_selection@), *mcdata),
        state.wf() ==> names_once(r.decision),
{
    proof {
        lemma_key_view_of(key@, *state);
    }
    if is_untouchable(key.name()) {
        return EntryPlan { decision: Decision::Keep, category: None, protected: false };
    }
    let source = match BlockId::parse(key.name()) {
        Ok(id) => id,
        Err(_) => return EntryPlan { decision: Decision::Keep, category: None, protected: false },
    };
    let category = if selected(solid_selection, &source) || palette.solid_members.contains(
        &source,
        mcdata,
    ) {
        Some(Category::Solid)
    } else {
        detect(key, mcdata)
    };
    proof {
        lemma_target_for_concat(overrides_view(cli_overrides@), overrides_view(palette.overrides@), source@);
    }
    let matched = match find_override(cli_overrides, &source) {
        Some(o) => Some(o),
        None => {
            let configured = palette.overrides.as_slice();
            assert(configured@ == palette.overrides@);
            find_override(configured, &source)
        },
    };
    if let Some(spec) = matched {
        let decision = match &spec.target {
            None => Decision::Keep,
            Some(target) => replace_with(state, target, true, mcdata),
        };
        return EntryPlan { decision, category, protected: false };
    }
    if palette.protected.contains(&source, mcdata) {
        return EntryPlan { decision: Decision::Keep, category, protected: true };
    }
    let decision = match category {
        Some(Category::Coral) => match &palette.coral_family {
            Some(family) => coral_replacement(state, &source, family, mcdata),
            None => Decision::Keep,
        },
        Some(c) => match palette.targets.get(&c) {
            Some(target) => if !target.same(&source) {
                replace_with(state, target, false, mcdata)
            } else {
                Decision::Keep
            },
            None => Decision::Keep,
        },
        None => Decision::Keep,
    };
    EntryPlan { decision, category, protected: false }
}

/// `i` is the first palette entry with its key.
pub open spec fn first_with_key(entries: Seq<BlockState>, i: int) -> bool {
    forall|j: int| 0 <= j < i ==> key_view_of(#[trigger] entries[j]) != key_view_of(entries[i])
}

pub open spec fn plan_keys(e: Seq<(BlockStateKey, EntryPlan)>) -> Seq<(Seq<char>, Seq<(Seq<char>, Seq<char>)>)> {
    e.map_values(|x: (BlockStateKey, EntryPlan)| x.0@)
}

/// A plan holds an entry for exactly the keys of the palette entries `pe`,
/// and the entry of each key carries out what is decided for the first
/// palette entry with that key.
pub open spec fn built_from(
    plan: ReplacementPlan,
    pe: Seq<BlockState>,
    palette: Palette,
    cli: Seq<OverrideSpec>,
    selection: Seq<Seq<char>>,
    mcdata: McData,
) -> bool {
    &&& forall|k: (Seq<char>, Seq<(Seq<char>, Seq<char>)>)|
        #[trigger] plan.plan_for(k) is Some <==> exists|i: int| 0 <= i < pe.len() && key_view_of(pe[i]) == k
    &&& forall|i: int|
        0 <= i < pe.len() && first_with_key(pe, i) ==> entry_realizes(
            #[trigger] plan.plan_for(key_view_of(pe[i]))->Some_0,
            pe[i],
            palette,
            cli,
            selection,
            mcdata,
        )
}

/// Precomputed replacement decisions for every entry of a region's block
/// state palette, so the per-block pass is a plain lookup.
#[derive(Debug, Default)]
pub struct ReplacementPlan {
    entries: Vec<(BlockStateKey, EntryPlan)>,
}

/// Position of the entry with key `key`.
fn position_of(entries: &Vec<(BlockStateKey, EntryPlan)>, key: &BlockStateKey) -> (r: Option<usize>)
    ensures
        match r {
            Some(m) => m < entries.len() && plan_keys(entries@)[m as int] == key@,
            None => !plan_keys(entries@).contains(key@),
        },
{
    let mut m: usize = 0;
    while m < entries.len()
        invariant
            m <= entries.len(),
            forall|j: int| 0 <= j < m ==> #[trigger] plan_keys(entries@)[j] != key@,
        decreases entries.len() - m,
    {
        if entries[m].0.same(key) {
            return Some(m);
        }
        m += 1;
    }
    None
}

impl ReplacementPlan {
    pub closed spec fn keys(&self) -> Seq<(Seq<char>, Seq<(Seq<char>, Seq<char>)>)> {
        plan_keys(self.entries@)
    }

    pub closed spec fn plans(&self) -> Seq<EntryPlan> {
        self.entries@.map_values(|x: (BlockStateKey, EntryPlan)| x.1)
    }

    #[verifier::type_invariant]
    closed spec fn wf(&self) -> bool {
        self.keys().no_duplicates()
    }

    /// The plan of the palette entry with key `k`.
    pub open spec fn plan_for(&self, k: (Seq<char>, Seq<(Seq<char>, Seq<char>)>)) -> Option<EntryPlan> {
        if exists|i: int| 0 <= i < self.keys().len() && self.keys()[i] == k {
            Some(self.plans()[choose|i: int| 0 <= i < self.keys().len() && self.keys()[i] == k])
        } else {
            None
        }
    }

    pub fn get(&self, key: &BlockStateKey) -> (r: Option<&EntryPlan>)
        ensures
            match r {
                Some(e) => self.plan_for(key@) == Some(*e),
                None => self.plan_for(key@) is None,
            },
    {
        proof {
            use_type_invariant(self);
        }
        match position_of(&self.entries, key) {
            Some(m) => {
                proof {
                    let c = choose|i: int| 0 <= i < self.keys().len() && self.keys()[i] == key@;
                    assert(self.keys()[m as int] == key@);
                    assert(c == m as int);
                }
                Some(&self.entries[m].1)
            },
            None => None,
        }
    }

    /// Decide the fate of every palette entry. Precedence per entry: CLI
    /// overrides (in argument order), then configuration overrides, then
    /// protection, then the palette category target. `solid_selection`
    /// holds the blocks chosen for solid normalization in this run, on top of
    /// the configured standing members.
    #[verifier::rlimit(40)]
    pub fn build(
        palette_entries: &[BlockState],
        palette: &Palette,
        cli_overrides: &[OverrideSpec],
        solid_selection: &Vec<BlockId>,
        mcdata: &McData,
    ) -> (r: ReplacementPlan)
        ensures
            built_from(r, palette_entries@, *palette, cli_overrides@, ids_view(solid_selection@), *mcdata),
            forall|i: int|
                0 <= i < palette_entries@.len() && first_with_key(palette_entries@, i) && palette_entries@[i].wf()
                    ==> names_once(#[trigger] r.plan_for(key_view_of(palette_entries@[i]))->Some_0.decision),
    {
        let ghost pe = palette_entries@;
        let ghost sel = ids_view(solid_selection@);
        let mut entries: Vec<(BlockStateKey, EntryPlan)> = Vec::new();
        let ghost mut origin: Seq<int> = Seq::empty();
        let mut idx: usize = 0;
        while idx < palette_entries.len()
            invariant
                pe == palette_entries@,
                sel == ids_view(solid_selection@),
                idx <= pe.len(),
                plan_keys(entries@).no_duplicates(),
                origin.len() == entries@.len(),
                forall|m: int|
                    0 <= m < entries@.len() ==> 0 <= #[trigger] origin[m] < idx && key_view_of(pe[origin[m]])
                        == plan_keys(entries@)[m] && first_with_key(pe, origin[m]) && entry_realizes(
                        entries@[m].1,
                        pe[origin[m]],
                        *palette,
                        cli_overrides@,
                        sel,
                        *mcdata,
                    ),
                forall|m: int|
                    0 <= m < entries@.len() && (#[trigger] pe[origin[m]]).wf() ==> names_once(entries@[m].1.decision),
                forall|i: int| 0 <= i < idx ==> plan_keys(entries@).contains(key_view_of(#[trigger] pe[i])),
            decreases pe.len() - idx,
        {
            let state = &palette_entries[idx];
            let key = state_key(state);
            proof {
                lemma_key_view_of(key@, *state);
            }
            match position_of(&entries, &key) {
                Some(_) => {},
                None => {
                    proof {
                        assert forall|j: int| 0 <= j < idx implies key_view_of(#[trigger] pe[j]) != key_view_of(pe[idx as int]) by {
                            assert(plan_keys(entries@).contains(key_view_of(pe[j])));
                        }
                    }
                    let plan = plan_entry(state, &key, palette, cli_overrides, solid_selection, mcdata);
                    let ghost old = entries@;
                    entries.push((key, plan));
                    proof {
                        origin = origin.push(idx as int);
                        assert(plan_keys(entries@) =~= plan_keys(old).push(key_view_of(pe[idx as int])));
                        assert forall|a: int, b: int| 0 <= a < b < plan_keys(entries@).len() implies plan_keys(entries@)[a] != plan_keys(entries@)[b] by {
                            if b == old.len() {
                                assert(plan_keys(old).contains(plan_keys(old)[a]));
                            } else {
                                assert(plan_keys(old)[a] != plan_keys(old)[b]);
                            }
                        }
                        assert forall|i: int| 0 <= i < idx + 1 implies plan_keys(entries@).contains(key_view_of(#[trigger] pe[i])) by {
                            if i < idx {
                                let m = choose|m: int| 0 <= m < plan_keys(old).len() && plan_keys(old)[m] == key_view_of(pe[i]);
                                assert(plan_keys(entries@)[m] == key_view_of(pe[i]));
                            } else {
                                assert(plan_keys(entries@)[old.len() as int] == key_view_of(pe[i]));
                            }
                        }
                    }
                },
            }
            idx += 1;
        }
        let r = ReplacementPlan { entries };
        proof {
            assert forall|k: (Seq<char>, Seq<(Seq<char>, Seq<char>)>)|
                #[trigger] r.plan_for(k) is Some <==> exists|i: int|
                    0 <= i < pe.len() && key_view_of(pe[i]) == k by {
                if r.plan_for(k) is Some {
                    let m = choose|m: int| 0 <= m < r.keys().len() && r.keys()[m] == k;
                    assert(key_view_of(pe[origin[m]]) == k);
                }
                if exists|i: int| 0 <= i < pe.len() && key_view_of(pe[i]) == k {
                    let i = choose|i: int| 0 <= i < pe.len() && key_view_of(pe[i]) == k;
                    assert(plan_keys(entries@).contains(key_view_of(pe[i])));
                }
            }
            assert forall|i: int|
                0 <= i < pe.len() && first_with_key(pe, i) implies entry_realizes(
                    #[trigger] r.plan_for(key_view_of(pe[i]))->Some_0,
                    pe[i],
                    *palette,
                    cli_overrides@,
                    sel,
                    *mcdata,
                ) by {
                assert(plan_keys(entries@).contains(key_view_of(pe[i])));
                let m = choose|m: int| 0 <= m < r.keys().len() && r.keys()[m] == key_view_of(pe[i]);
                let o = origin[m];
                if o < i {
                    assert(key_view_of(pe[o]) != key_view_of(pe[i]));
                }
                if i < o {
                    assert(key_view_of(pe[i]) != key_view_of(pe[o]));
                }
                assert(o == i);
                assert(r.plans()[m] == entries@[m].1);
            }
            assert forall|i: int|
                0 <= i < pe.len() && first_with_key(pe, i) && pe[i].wf() implies names_once(
                    #[trigger] r.plan_for(key_view_of(pe[i]))->Some_0.decision,
                ) by {
                assert(plan_keys(entries@).contains(key_view_of(pe[i])));
                let m = choose|m: int| 0 <= m < r.keys().len() && r.keys()[m] == key_view_of(pe[i]);
                let o = origin[m];
                if o < i {
                    assert(key_view_of(pe[o]) != key_view_of(pe[i]));
                }
                if i < o {
                    assert(key_view_of(pe[i]) != key_view_of(pe[o]));
                }
                assert(o == i);
                assert(r.plans()[m] == entries@[m].1);
            }
        }
        r
    }
}

/// The local position of grid index `i`.
pub open spec fn pos_at(size: BlockPos, i: int) -> BlockPos {
    BlockPos { x: pos_of(size, i).0 as i32, y: pos_of(size, i).1 as i32, z: pos_of(size, i).2 as i32 }
}

/// The block at grid index `i` carries block entity data.
pub open spec fn has_entity_at(region: SchematicRegion, i: int) -> bool {
    region.entities_view().contains(pos_at(region.size_view(), i))
}

/// The plan entry for the block at grid index `i`.
pub open spec fn entry_at(plan: ReplacementPlan, region: SchematicRegion, i: int) -> Option<EntryPlan> {
    plan.plan_for(key_view_of(region.grid()[i]))
}

/// The block at grid index `i` is replaced: its entry replaces it, and
/// category replacements skip blocks with block entity data.
pub open spec fn replaces_at(plan: ReplacementPlan, region: SchematicRegion, i: int) -> bool {
    match entry_at(plan, region, i) {
        Some(e) => match e.decision {
            Decision::Replace { explicit, .. } => explicit || !has_entity_at(region, i),
            Decision::Keep => false,
        },
        None => false,
    }
}

/// A category replacement passes over the block at `i` for its block entity.
pub open spec fn skips_at(plan: ReplacementPlan, region: SchematicRegion, i: int) -> bool {
    match entry_at(plan, region, i) {
        Some(e) => match e.decision {
            Decision::Replace { explicit, .. } => !explicit && has_entity_at(region, i),
            Decision::Keep => false,
        },
        None => false,
    }
}

/// The block at `i` is kept by its entry and is not air.
pub open spec fn keeps_at(plan: ReplacementPlan, region: SchematicRegion, i: int) -> bool {
    match entry_at(plan, region, i) {
        Some(e) => e.decision is Keep && !untouchable(region.grid()[i].name@),
        None => false,
    }
}

/// How a kept block is labelled in the report.
pub open spec fn kept_label(e: EntryPlan) -> Option<Seq<char>> {
    if e.protected {
        Some("protected"@)
    } else {
        match e.category {
            Some(c) => Some(category_key(c)),
            None => None,
        }
    }
}

/// The replacement state for the block at `i`.
pub open spec fn replacement_at(plan: ReplacementPlan, region: SchematicRegion, i: int) -> BlockState {
    entry_at(plan, region, i)->Some_0.decision->Replace_state
}

/// The dropped property names for the block at `i`.
pub open spec fn dropped_at(plan: ReplacementPlan, region: SchematicRegion, i: int) -> Seq<Seq<char>> {
    strings_view(entry_at(plan, region, i)->Some_0.decision->Replace_dropped@)
}

pub open spec fn warns_at(plan: ReplacementPlan, region: SchematicRegion, i: int) -> bool {
    replaces_at(plan, region, i) && dropped_at(plan, region, i).len() > 0
}

pub open spec fn warn_pair(plan: ReplacementPlan, region: SchematicRegion, i: int) -> (Seq<char>, Seq<char>) {
    (region.grid()[i].name@, replacement_at(plan, region, i).name@)
}

pub open spec fn warned_before(plan: ReplacementPlan, region: SchematicRegion, n: int, pair: (Seq<char>, Seq<char>)) -> bool {
    exists|j: int| 0 <= j < n && warns_at(plan, region, j) && #[trigger] warn_pair(plan, region, j) == pair
}

/// Strings joined by a separator.
pub open spec fn join(list: Seq<Seq<char>>, sep: Seq<char>) -> Seq<char>
    decreases list.len(),
{
    if list.len() == 0 {
        Seq::empty()
    } else if list.len() == 1 {
        list[0]
    } else {
        join(list.drop_last(), sep) + sep + list.last()
    }
}

/// `dropped {names} replacing {from} -> {to}`.
pub open spec fn warning_text(dropped: Seq<Seq<char>>, from: Seq<char>, to: Seq<char>) -> Seq<char> {
    "dropped "@ + join(dropped, ", "@) + " replacing "@ + from + " -> "@ + to
}

/// The property-drop warnings of the first `n` blocks: one per distinct
/// `(from, to)` pair, at its first replacement that drops properties.
pub open spec fn warnings_up_to(plan: ReplacementPlan, region: SchematicRegion, n: int) -> Seq<Seq<char>>
    decreases n,
{
    if n <= 0 {
        Seq::empty()
    } else {
        warnings_up_to(plan, region, n - 1) + if warns_at(plan, region, n - 1) && !warned_before(
            plan,
            region,
            n - 1,
            warn_pair(plan, region, n - 1),
        ) {
            seq![warning_text(dropped_at(plan, region, n - 1), warn_pair(plan, region, n - 1).0, warn_pair(plan, region, n - 1).1)]
        } else {
            Seq::empty()
        }
    }
}

/// The block entity positions removed among the first `n` blocks: those of
/// explicitly replaced blocks.
pub open spec fn removed_up_to(plan: ReplacementPlan, region: SchematicRegion, n: int) -> Multiset<BlockPos>
    decreases n,
{
    if n <= 0 {
        Multiset::empty()
    } else {
        let rest = removed_up_to(plan, region, n - 1);
        if replaces_at(plan, region, n - 1) && has_entity_at(region, n - 1) {
            rest.insert(pos_at(region.size_view(), n - 1))
        } else {
            rest
        }
    }
}

/// A verified copy of a block state.
pub fn copy_state(s: &BlockState) -> (r: BlockState)
    ensures
        r.name@ == s.name@,
        pairs_view(r.properties@) == pairs_view(s.properties@),
        state_view(r) == state_view(*s),
        key_view_of(r) == key_view_of(*s),
{
    let mut props: Vec<(String, String)> = Vec::new();
    let mut i: usize = 0;
    while i < s.properties.len()
        invariant
            i <= s.properties.len(),
            pairs_view(props@) == pairs_view(s.properties@).take(i as int),
        decreases s.properties.len() - i,
    {
        props.push((s.properties[i].0.clone(), s.properties[i].1.clone()));
        assert(pairs_view(s.properties@).take(i + 1) =~= pairs_view(s.properties@).take(i as int).push(
            pairs_view(s.properties@)[i as int],
        ));
        assert(pairs_view(props@) =~= pairs_view(s.properties@).take(i + 1));
        i += 1;
    }
    assert(pairs_view(s.properties@).take(i as int) =~= pairs_view(s.properties@));
    BlockState { name: s.name.clone(), properties: props }
}

/// `dropped {names} replacing {from} -> {to}`.
fn make_warning(dropped: &Vec<String>, from: &String, to: &String) -> (r: String)
    ensures
        r@ == warning_text(strings_view(dropped@), from@, to@),
{
    let mut text: Vec<char> = chars_of("dropped ");
    let sep = chars_of(", ");
    let mut i: usize = 0;
    let ghost head = "dropped "@;
    let ghost names = strings_view(dropped@);
    while i < dropped.len()
        invariant
            i <= dropped.len(),
            names == strings_view(dropped@),
            sep@ == ", "@,
            text@ == head + join(names.take(i as int), ", "@),
        decreases dropped.len() - i,
    {
        assert(names.take(i + 1).drop_last() == names.take(i as int));
        assert(names.take(i + 1).last() == dropped@[i as int]@);
        if i > 0 {
            text = concat_chars(&text, &sep);
        }
        text = concat_chars(&text, &chars_of(dropped[i].as_str()));
        proof {
            if i == 0 {
                assert(names.take(1) =~= seq![names[0]]);
                assert(names.take(0) =~= Seq::<Seq<char>>::empty());
            }
        }
        assert(text@ =~= head + join(names.take(i + 1), ", "@));
        i += 1;
    }
    assert(names.take(i as int) == names);
    text = concat_chars(&text, &chars_of(" replacing "));
    text = concat_chars(&text, &chars_of(from.as_str()));
    text = concat_chars(&text, &chars_of(" -> "));
    text = concat_chars(&text, &chars_of(to.as_str()));
    assert(text@ =~= warning_text(names, from@, to@));
    string_from(&text)
}

/// Whether `positions` holds `p`.
fn positions_have(positions: &Vec<BlockPos>, p: BlockPos) -> (r: bool)
    ensures
        r == positions@.contains(p),
{
    let mut i: usize = 0;
    while i < positions.len()
        invariant
            i <= positions.len(),
            forall|j: int| 0 <= j < i ==> positions@[j] != p,
        decreases positions.len() - i,
    {
        if positions[i] == p {
            return true;
        }
        i += 1;
    }
    false
}

/// Whether the pair list holds `(a, b)`.
fn pairs_have(pairs: &Vec<(String, String)>, a: &String, b: &String) -> (r: bool)
    ensures
        r == pairs_view(pairs@).contains((a@, b@)),
{
    let mut i: usize = 0;
    while i < pairs.len()
        invariant
            i <= pairs.len(),
            forall|j: int| 0 <= j < i ==> #[trigger] pairs_view(pairs@)[j] != (a@, b@),
        decreases pairs.len() - i,
    {
        if pairs[i].0 == *a && pairs[i].1 == *b {
            assert(pairs_view(pairs@)[i as int] == (a@, b@));
            return true;
        }
        i += 1;
    }
    false
}


/// The report key of the replacement at `i`: `(source name, target name)`.
pub open spec fn replacement_key(plan: ReplacementPlan, region: SchematicRegion, i: int) -> Seq<Option<Seq<char>>> {
    seq![Some(region.grid()[i].name@), Some(replacement_at(plan, region, i).name@)]
}

/// The block at `i` is replaced and counted under key `k`.
pub open spec fn replaced_as(plan: ReplacementPlan, region: SchematicRegion, k: Seq<Option<Seq<char>>>, i: int) -> bool {
    replaces_at(plan, region, i) && replacement_key(plan, region, i) == k
}

/// The block at `i` is skipped for its block entity and counted under key `k`.
pub open spec fn skipped_as(plan: ReplacementPlan, region: SchematicRegion, k: Seq<Option<Seq<char>>>, i: int) -> bool {
    skips_at(plan, region, i) && seq![Some(region.grid()[i].name@)] == k
}

/// The block at `i` is kept and counted under key `k`: its name and label.
pub open spec fn kept_as(plan: ReplacementPlan, region: SchematicRegion, k: Seq<Option<Seq<char>>>, i: int) -> bool {
    keeps_at(plan, region, i) && seq![Some(region.grid()[i].name@), kept_label(entry_at(plan, region, i)->Some_0)]
        == k
}

/// The block at `i` counts towards the region's block total.
pub open spec fn counted_at(region: SchematicRegion, i: int) -> bool {
    !untouchable(region.grid()[i].name@)
}

/// The block state at `i` once the plan has been applied.
pub open spec fn applied_at(plan: ReplacementPlan, region: SchematicRegion, i: int) -> (Seq<char>, Multiset<
    (Seq<char>, Seq<char>),
>) {
    if replaces_at(plan, region, i) {
        state_view(replacement_at(plan, region, i))
    } else {
        state_view(region.grid()[i])
    }
}

proof fn lemma_pos_at_injective(size: BlockPos, i: int, j: int)
    requires
        valid_size(size),
        0 <= i < volume_of(size),
        0 <= j < volume_of(size),
    ensures
        i != j ==> pos_at(size, i) != pos_at(size, j),
        in_bounds(size, pos_at(size, i)),
{
    lemma_pos_of_index(size, i);
    lemma_pos_of_index(size, j);
}

proof fn lemma_removed_excludes(plan: ReplacementPlan, region: SchematicRegion, n: int, i: int)
    requires
        valid_size(region.size_view()),
        0 <= n <= i < volume_of(region.size_view()),
    ensures
        removed_up_to(plan, region, n).count(pos_at(region.size_view(), i)) == 0,
    decreases n,
{
    if n > 0 {
        lemma_removed_excludes(plan, region, n - 1, i);
        lemma_pos_at_injective(region.size_view(), n - 1, i);
    }
}

/// Copy of a list of positions.
fn copy_positions(s: &[BlockPos]) -> (r: Vec<BlockPos>)
    ensures
        r@ == s@,
{
    let mut r: Vec<BlockPos> = Vec::new();
    let mut i: usize = 0;
    while i < s.len()
        invariant
            i <= s.len(),
            r@ == s@.take(i as int),
        decreases s.len() - i,
    {
        r.push(s[i]);
        assert(s@.take(i + 1) =~= s@.take(i as int).push(s@[i as int]));
        i += 1;
    }
    assert(s@.take(i as int) =~= s@);
    r
}

/// The report label of a kept entry: `protected`, or its category key.
fn label_of(entry: &EntryPlan) -> (r: Option<String>)
    ensures
        opt_view(r) == kept_label(*entry),
{
    if entry.protected {
        Some(string_from(&chars_of("protected")))
    } else {
        match entry.category {
            Some(c) => Some(string_from(&chars_of(c.key()))),
            None => None,
        }
    }
}


/// Walk a region and apply a plan to every block, in grid order. Blocks
/// with block entity data are only replaced by explicit overrides (removing
/// the stale block entity); category replacements skip them.
#[verifier::rlimit(60)]
pub fn apply(region: &mut SchematicRegion, plan: &ReplacementPlan) -> (r: RegionReport)
    requires
        old(region).wf(),
    ensures
        final(region).wf(),
        final(region).name_view() == old(region).name_view(),
        final(region).size_view() == old(region).size_view(),
        final(region).position_view() == old(region).position_view(),
        final(region).grid().len() == old(region).grid().len(),
        forall|i: int|
            0 <= i < old(region).grid().len() ==> state_view(#[trigger] final(region).grid()[i]) == applied_at(
                *plan,
                *old(region),
                i,
            ),
        forall|i: int|
            0 <= i < old(region).grid().len() && !replaces_at(*plan, *old(region), i)
                ==> #[trigger] final(region).grid()[i] == old(region).grid()[i],
        old(region).entities_view().to_multiset() == final(region).entities_view().to_multiset().add(
            removed_up_to(*plan, *old(region), old(region).grid().len() as int),
        ),
        r.name@ == old(region).name_view(),
        r.size.0 == dim(old(region).size_view().x),
        r.size.1 == dim(old(region).size_view().y),
        r.size.2 == dim(old(region).size_view().z),
        r.blocks == count_up_to(old(region).grid().len() as int, |i: int| counted_at(*old(region), i)),
        r.replacements.wf(),
        r.skipped_block_entities.wf(),
        r.kept.wf(),
        forall|k: Seq<Option<Seq<char>>>|
            #[trigger] r.replacements.count(k) == count_up_to(
                old(region).grid().len() as int,
                |i: int| replaced_as(*plan, *old(region), k, i),
            ),
        r.replacements.total_view() == count_up_to(
            old(region).grid().len() as int,
            |i: int| replaces_at(*plan, *old(region), i),
        ),
        forall|k: Seq<Option<Seq<char>>>|
            #[trigger] r.skipped_block_entities.count(k) == count_up_to(
                old(region).grid().len() as int,
                |i: int| skipped_as(*plan, *old(region), k, i),
            ),
        forall|k: Seq<Option<Seq<char>>>|
            #[trigger] r.kept.count(k) == count_up_to(
                old(region).grid().len() as int,
                |i: int| kept_as(*plan, *old(region), k, i),
            ),
        strings_view(r.warnings@) == warnings_up_to(*plan, *old(region), old(region).grid().len() as int),
{
    let ghost o = *region;
    let size = region.abs_size();
    let mut report = RegionReport::new(string_from(&chars_of(region.name())), size);
    let positions = copy_positions(region.block_entities());
    let mut warned: Vec<(String, String)> = Vec::new();
    let n = region.volume();
    proof {
        o.lemma_wf();
        crate::schematic::lemma_volume_nonneg(o.size_view());
        assert(region.entities_view().to_multiset().add(removed_up_to(*plan, o, 0)) =~= o.entities_view().to_multiset());
        assert(strings_view(report.warnings@) =~= warnings_up_to(*plan, o, 0));
        assert forall|p: (Seq<char>, Seq<char>)| #[trigger] pairs_view(warned@).contains(p) <==> warned_before(*plan, o, 0, p) by {
            assert(pairs_view(warned@).len() == 0);
        }
    }
    let mut i: usize = 0;
    while i < n
        invariant
            n == o.grid().len(),
            n <= i32::MAX,
            o.wf(),
            i <= n,
            positions@ == o.entities_view(),
            walked(*plan, o, *region, report, warned@, i as int),
            report.name@ == o.name_view(),
            report.size.0 == dim(o.size_view().x),
            report.size.1 == dim(o.size_view().y),
            report.size.2 == dim(o.size_view().z),
            report.blocks == count_up_to(i as int, |j: int| counted_at(o, j)),
        decreases n - i,
    {
        let position = region.position_of_index(i);
        let current = region.block_at_index(i);
        let key = state_key(current);
        let from = current.name.clone();
        proof {
            o.lemma_wf();
            lemma_key_view_of(key@, *current);
            lemma_pos_of_index(o.size_view(), i as int);
            assert(position == pos_at(o.size_view(), i as int));
            lemma_count_bound(i as int, |j: int| counted_at(o, j));
        }
        let counted = !is_untouchable(key.name());
        if counted {
            report.blocks = report.blocks + 1;
        }
        apply_entry(region, plan, i, position, &key, from, &positions, &mut report, &mut warned, Ghost(o));
        i += 1;
    }
    report
}

/// What the walk over the first `i` blocks has done to the region.
spec fn region_walked(plan: ReplacementPlan, o: SchematicRegion, region: SchematicRegion, i: int) -> bool {
    let n = o.grid().len() as int;
    &&& region.wf()
    &&& region.name_view() == o.name_view()
    &&& region.size_view() == o.size_view()
    &&& region.position_view() == o.position_view()
    &&& region.grid().len() == n
    &&& forall|j: int| i <= j < n ==> #[trigger] region.grid()[j] == o.grid()[j]
    &&& forall|j: int| 0 <= j < i ==> state_view(#[trigger] region.grid()[j]) == applied_at(plan, o, j)
    &&& forall|j: int| 0 <= j < i && !replaces_at(plan, o, j) ==> #[trigger] region.grid()[j] == o.grid()[j]
    &&& o.entities_view().to_multiset() == region.entities_view().to_multiset().add(removed_up_to(plan, o, i))
}

/// The replacements and warnings recorded for the first `i` blocks.
spec fn replacements_walked(
    plan: ReplacementPlan,
    o: SchematicRegion,
    report: RegionReport,
    warned: Seq<(String, String)>,
    i: int,
) -> bool {
    &&& report.replacements.wf()
    &&& forall|k: Seq<Option<Seq<char>>>|
        #[trigger] report.replacements.count(k) == count_up_to(i, |j: int| replaced_as(plan, o, k, j))
    &&& report.replacements.total_view() == count_up_to(i, |j: int| replaces_at(plan, o, j))
    &&& strings_view(report.warnings@) == warnings_up_to(plan, o, i)
    &&& forall|p: (Seq<char>, Seq<char>)| #[trigger] pairs_view(warned).contains(p) <==> warned_before(plan, o, i, p)
}

/// The skipped blocks recorded for the first `i` blocks.
spec fn skipped_walked(plan: ReplacementPlan, o: SchematicRegion, skipped: Counts<String>, i: int) -> bool {
    &&& skipped.wf()
    &&& forall|k: Seq<Option<Seq<char>>>| #[trigger] skipped.count(k) == count_up_to(i, |j: int| skipped_as(plan, o, k, j))
}

/// The kept blocks recorded for the first `i` blocks.
spec fn kept_walked(plan: ReplacementPlan, o: SchematicRegion, kept: Counts<(String, Option<String>)>, i: int) -> bool {
    &&& kept.wf()
    &&& forall|k: Seq<Option<Seq<char>>>| #[trigger] kept.count(k) == count_up_to(i, |j: int| kept_as(plan, o, k, j))
}

/// What the walk over the first `i` blocks has done to the region, the
/// report and the warned pairs.
spec fn walked(
    plan: ReplacementPlan,
    o: SchematicRegion,
    region: SchematicRegion,
    report: RegionReport,
    warned: Seq<(String, String)>,
    i: int,
) -> bool {
    &&& region_walked(plan, o, region, i)
    &&& replacements_walked(plan, o, report, warned, i)
    &&& skipped_walked(plan, o, report.skipped_block_entities, i)
    &&& kept_walked(plan, o, report.kept, i)
}

/// Apply the plan to the block at grid index `i`.
fn apply_entry(
    region: &mut SchematicRegion,
    plan: &ReplacementPlan,
    i: usize,
    position: BlockPos,
    key: &BlockStateKey,
    from: String,
    positions: &Vec<BlockPos>,
    report: &mut RegionReport,
    warned: &mut Vec<(String, String)>,
    Ghost(o): Ghost<SchematicRegion>,
)
    requires
        o.wf(),
        i < o.grid().len(),
        o.grid().len() <= i32::MAX,
        walked(*plan, o, *old(region), *old(report), old(warned)@, i as int),
        key@ == key_view_of(o.grid()[i as int]),
        from@ == o.grid()[i as int].name@,
        position == pos_at(o.size_view(), i as int),
        positions@ == o.entities_view(),
    ensures
        walked(*plan, o, *final(region), *final(report), final(warned)@, i + 1),
        final(report).name == old(report).name,
        final(report).size == old(report).size,
        final(report).blocks == old(report).blocks,
{
    let ghost ii = i as int;
    match plan.get(key) {
        None => {
            proof {
                assert(entry_at(*plan, o, ii) is None);
                lemma_nothing_replaced_at(*plan, o, *region, *report, warned@, ii);
                lemma_skipped_unchanged(*plan, o, report.skipped_block_entities, ii);
                lemma_kept_unchanged(*plan, o, report.kept, ii);
            }
        },
        Some(entry) => {
            proof {
                assert(entry_at(*plan, o, ii) == Some(*entry));
            }
            match &entry.decision {
                Decision::Keep => {
                    proof {
                        lemma_nothing_replaced_at(*plan, o, *region, *report, warned@, ii);
                        lemma_skipped_unchanged(*plan, o, report.skipped_block_entities, ii);
                    }
                    if !is_untouchable(key.name()) {
                        let label = label_of(entry);
                        let ghost k = seq![Some(from@), opt_view(label)];
                        proof {
                            lemma_count_bound(ii, |j: int| kept_as(*plan, o, k, j));
                            assert(kept_as(*plan, o, k, ii));
                        }
                        let ghost before = report.kept;
                        report.kept.increment((from, label));
                        proof {
                            assert forall|k2: Seq<Option<Seq<char>>>| #[trigger] report.kept.count(k2) == count_up_to(
                                ii + 1,
                                |j: int| kept_as(*plan, o, k2, j),
                            ) by {
                                lemma_count_step(ii, |j: int| kept_as(*plan, o, k2, j));
                                assert(before.count(k2) == count_up_to(ii, |j: int| kept_as(*plan, o, k2, j)));
                            }
                        }
                    } else {
                        proof {
                            lemma_kept_unchanged(*plan, o, report.kept, ii);
                        }
                    }
                },
                Decision::Replace { state, dropped, explicit } => {
                    let has_entity = positions_have(positions, position);
                    proof {
                        assert(has_entity == has_entity_at(o, ii));
                        lemma_kept_unchanged(*plan, o, report.kept, ii);
                    }
                    if has_entity && !*explicit {
                        let ghost k = seq![Some(from@)];
                        proof {
                            lemma_nothing_replaced_at(*plan, o, *region, *report, warned@, ii);
                            lemma_count_bound(ii, |j: int| skipped_as(*plan, o, k, j));
                            assert(skipped_as(*plan, o, k, ii));
                        }
                        let ghost before = report.skipped_block_entities;
                        report.skipped_block_entities.increment(from);
                        proof {
                            assert forall|k2: Seq<Option<Seq<char>>>| #[trigger] report.skipped_block_entities.count(k2)
                                == count_up_to(ii + 1, |j: int| skipped_as(*plan, o, k2, j)) by {
                                lemma_count_step(ii, |j: int| skipped_as(*plan, o, k2, j));
                                assert(before.count(k2) == count_up_to(ii, |j: int| skipped_as(*plan, o, k2, j)));
                            }
                        }
                    } else {
                        proof {
                            lemma_skipped_unchanged(*plan, o, report.skipped_block_entities, ii);
                        }
                        replace_at(region, plan, i, position, from, state, dropped, has_entity, report, warned, Ghost(o));
                    }
                },
            }
        },
    }
}

proof fn lemma_count_step(i: int, p: spec_fn(int) -> bool)
    requires
        i >= 0,
    ensures
        count_up_to(i + 1, p) == count_up_to(i, p) + if p(i) {
            1nat
        } else {
            0nat
        },
{
}

proof fn lemma_skipped_unchanged(plan: ReplacementPlan, o: SchematicRegion, skipped: Counts<String>, i: int)
    requires
        i >= 0,
        skipped_walked(plan, o, skipped, i),
        !skips_at(plan, o, i),
    ensures
        skipped_walked(plan, o, skipped, i + 1),
{
    assert forall|k: Seq<Option<Seq<char>>>|
        #[trigger] skipped.count(k) == count_up_to(i + 1, |j: int| skipped_as(plan, o, k, j)) by {
        lemma_count_step(i, |j: int| skipped_as(plan, o, k, j));
    }
}

proof fn lemma_kept_unchanged(plan: ReplacementPlan, o: SchematicRegion, kept: Counts<(String, Option<String>)>, i: int)
    requires
        i >= 0,
        kept_walked(plan, o, kept, i),
        !keeps_at(plan, o, i),
    ensures
        kept_walked(plan, o, kept, i + 1),
{
    assert forall|k: Seq<Option<Seq<char>>>|
        #[trigger] kept.count(k) == count_up_to(i + 1, |j: int| kept_as(plan, o, k, j)) by {
        lemma_count_step(i, |j: int| kept_as(plan, o, k, j));
    }
}

/// Nothing is replaced at `i`: region, replacements and warnings carry over.
proof fn lemma_nothing_replaced_at(
    plan: ReplacementPlan,
    o: SchematicRegion,
    region: SchematicRegion,
    report: RegionReport,
    warned: Seq<(String, String)>,
    i: int,
)
    requires
        0 <= i < o.grid().len(),
        region_walked(plan, o, region, i),
        replacements_walked(plan, o, report, warned, i),
        !replaces_at(plan, o, i),
    ensures
        region_walked(plan, o, region, i + 1),
        replacements_walked(plan, o, report, warned, i + 1),
{
    assert(region.grid()[i] == o.grid()[i]);
    assert(removed_up_to(plan, o, i + 1) == removed_up_to(plan, o, i));
    assert forall|k: Seq<Option<Seq<char>>>|
        #[trigger] report.replacements.count(k) == count_up_to(i + 1, |j: int| replaced_as(plan, o, k, j)) by {
        lemma_count_step(i, |j: int| replaced_as(plan, o, k, j));
    }
    lemma_count_step(i, |j: int| replaces_at(plan, o, j));
    assert(warnings_up_to(plan, o, i + 1) =~= warnings_up_to(plan, o, i));
    assert forall|p: (Seq<char>, Seq<char>)| #[trigger] pairs_view(warned).contains(p) <==> warned_before(plan, o, i + 1, p) by {
        if warned_before(plan, o, i + 1, p) {
            let j = choose|j: int| 0 <= j < i + 1 && warns_at(plan, o, j) && #[trigger] warn_pair(plan, o, j) == p;
            assert(j < i);
            assert(warned_before(plan, o, i, p));
        }
        if warned_before(plan, o, i, p) {
            let j = choose|j: int| 0 <= j < i && warns_at(plan, o, j) && #[trigger] warn_pair(plan, o, j) == p;
            assert(warned_before(plan, o, i + 1, p));
        }
    }
}

/// Replace the block at grid index `i` by its plan entry's state.
fn replace_at(
    region: &mut SchematicRegion,
    plan: &ReplacementPlan,
    i: usize,
    position: BlockPos,
    from: String,
    state: &BlockState,
    dropped: &Vec<String>,
    has_entity: bool,
    report: &mut RegionReport,
    warned: &mut Vec<(String, String)>,
    Ghost(o): Ghost<SchematicRegion>,
)
    requires
        o.wf(),
        i < o.grid().len(),
        o.grid().len() <= i32::MAX,
        region_walked(*plan, o, *old(region), i as int),
        replacements_walked(*plan, o, *old(report), old(warned)@, i as int),
        replaces_at(*plan, o, i as int),
        *state == replacement_at(*plan, o, i as int),
        strings_view(dropped@) == dropped_at(*plan, o, i as int),
        has_entity == has_entity_at(o, i as int),
        from@ == o.grid()[i as int].name@,
        position == pos_at(o.size_view(), i as int),
    ensures
        region_walked(*plan, o, *final(region), i + 1),
        replacements_walked(*plan, o, *final(report), final(warned)@, i + 1),
        final(report).name == old(report).name,
        final(report).size == old(report).size,
        final(report).blocks == old(report).blocks,
        final(report).skipped_block_entities == old(report).skipped_block_entities,
        final(report).kept == old(report).kept,
{
    let ghost ii = i as int;
    let ghost size = o.size_view();
    proof {
        o.lemma_wf();
        lemma_pos_at_injective(size, ii, ii);
    }
    if has_entity {
        proof {
            broadcast use vstd::seq_lib::group_to_multiset_ensures;
            lemma_removed_excludes(*plan, o, ii, ii);
            assert(o.entities_view().contains(position));
            assert(o.entities_view().to_multiset().count(position) > 0);
            assert(region.entities_view().to_multiset().count(position) > 0);
            assert(region.entities_view().contains(position));
        }
        let ghost before = region.entities_view();
        region.remove_block_entity(position);
        proof {
            let m = removed_up_to(*plan, o, ii);
            assert(removed_up_to(*plan, o, ii + 1) == m.insert(position));
            assert(before.to_multiset() =~= region.entities_view().to_multiset().insert(position));
            assert(o.entities_view().to_multiset() =~= region.entities_view().to_multiset().add(m.insert(position)));
        }
    } else {
        proof {
            assert(removed_up_to(*plan, o, ii + 1) == removed_up_to(*plan, o, ii));
        }
    }
    let to = state.name.clone();
    let ghost before_grid = region.grid();
    region.set_block_at_index(i, copy_state(state));
    proof {
        assert forall|j: int| 0 <= j < ii + 1 implies state_view(#[trigger] region.grid()[j]) == applied_at(*plan, o, j) by {
            if j < ii {
                assert(region.grid()[j] == before_grid[j]);
            }
        }
    }
    let ghost pair = (from@, to@);
    let ghost warned_before_step = warned@;
    let need = dropped.len() > 0 && !pairs_have(warned, &from, &to);
    if need {
        report.warnings.push(make_warning(dropped, &from, &to));
        warned.push((from.clone(), to.clone()));
    }
    proof {
        assert(warns_at(*plan, o, ii) == (dropped@.len() > 0));
        assert(warned_before(*plan, o, ii, pair) == pairs_view(warned_before_step).contains(pair));
        if need {
            assert(pairs_view(warned@) =~= pairs_view(warned_before_step).push(pair));
            assert(strings_view(report.warnings@) =~= warnings_up_to(*plan, o, ii) + seq![
                warning_text(dropped_at(*plan, o, ii), pair.0, pair.1),
            ]);
        } else {
            assert(warned@ == warned_before_step);
            assert(strings_view(report.warnings@) =~= warnings_up_to(*plan, o, ii) + Seq::<Seq<char>>::empty());
        }
        assert(strings_view(report.warnings@) == warnings_up_to(*plan, o, ii + 1));
        lemma_count_step(ii, |j: int| replaces_at(*plan, o, j));
        assert(warn_pair(*plan, o, ii) == pair);
        assert forall|p: (Seq<char>, Seq<char>)| #[trigger] pairs_view(warned@).contains(p) <==> warned_before(*plan, o, ii + 1, p) by {
            if warned_before(*plan, o, ii + 1, p) {
                let j = choose|j: int| 0 <= j < ii + 1 && warns_at(*plan, o, j) && #[trigger] warn_pair(*plan, o, j) == p;
                if j < ii {
                    assert(warned_before(*plan, o, ii, p));
                    assert(pairs_view(warned_before_step).contains(p));
                }
            }
            if warned_before(*plan, o, ii, p) {
                let j = choose|j: int| 0 <= j < ii && warns_at(*plan, o, j) && #[trigger] warn_pair(*plan, o, j) == p;
                assert(warned_before(*plan, o, ii + 1, p));
            }
            if pairs_view(warned@).contains(p) && !pairs_view(warned_before_step).contains(p) {
                assert(p == pair);
                assert(warns_at(*plan, o, ii));
                assert(warned_before(*plan, o, ii + 1, p));
            }
            if pairs_view(warned_before_step).contains(p) {
                let j = choose|j: int| 0 <= j < pairs_view(warned_before_step).len() && pairs_view(warned_before_step)[j] == p;
                assert(pairs_view(warned@)[j] == p);
            }
        }
    }
    let ghost k = seq![Some(from@), Some(to@)];
    proof {
        lemma_count_bound(ii, |j: int| replaced_as(*plan, o, k, j));
        assert(replaced_as(*plan, o, k, ii));
    }
    let ghost before = report.replacements;
    report.replacements.increment((from, to));
    proof {
        assert forall|k2: Seq<Option<Seq<char>>>| #[trigger] report.replacements.count(k2) == count_up_to(
            ii + 1,
            |j: int| replaced_as(*plan, o, k2, j),
        ) by {
            lemma_count_step(ii, |j: int| replaced_as(*plan, o, k2, j));
            assert(before.count(k2) == count_up_to(ii, |j: int| replaced_as(*plan, o, k2, j)));
        }
        assert(report.replacements.total_view() == count_up_to(ii + 1, |j: int| replaces_at(*plan, o, j)));
    }
}


/// No override of `os` names `id` among its sources.
pub open spec fn named_by_none(os: Seq<(Seq<Seq<char>>, Option<Seq<char>>)>, id: Seq<char>) -> bool {
    forall|o: int| 0 <= o < os.len() ==> !(#[trigger] os[o]).0.contains(id)
}

proof fn lemma_unmatched_names_none(os: Seq<(Seq<Seq<char>>, Option<Seq<char>>)>, id: Seq<char>)
    requires
        target_for(os, id) is None,
    ensures
        named_by_none(os, id),
    decreases os.len(),
{
    if os.len() > 0 {
        lemma_unmatched_names_none(os.drop_first(), id);
        assert forall|o: int| 0 <= o < os.len() implies !(#[trigger] os[o]).0.contains(id) by {
            if o > 0 {
                assert(os[o] == os.drop_first()[o - 1]);
            }
        }
    }
}

/// What being offered in the solid prompt says of a block, in terms of the
/// configuration: a plain building block that is not the solid target, not
/// protected, not a standing solid member, and named as a source by no
/// command line and no configuration override.
pub open spec fn offered_block(id: Seq<char>, palette: Palette, cli: Seq<OverrideSpec>, mcdata: McData) -> bool {
    &&& is_solid_candidate_spec(id, mcdata)
    &&& !(palette.targets@.dom().contains(Category::Solid) && palette.targets@[Category::Solid] == id)
    &&& !palette.protected.has(id, mcdata)
    &&& !palette.solid_members.has(id, mcdata)
    &&& named_by_none(overrides_view(palette.overrides@), id)
    &&& named_by_none(overrides_view(cli), id)
}

/// A block that an override names as a source, from the command line or
/// the configuration, is never offered in the solid prompt: the override
/// already decides it. Neither are protected blocks, standing solid
/// members, the solid target itself, or blocks that are not plain building
/// blocks.
pub proof fn law_solid_prompt_offers_only_undecided_blocks(
    id: Seq<char>,
    palette: Palette,
    cli: Seq<OverrideSpec>,
    mcdata: McData,
)
    requires
        solid_eligible(id, palette, cli, mcdata),
    ensures
        offered_block(id, palette, cli, mcdata),
{
    lemma_target_for_concat(overrides_view(cli), overrides_view(palette.overrides@), id);
    lemma_unmatched_names_none(overrides_view(cli), id);
    lemma_unmatched_names_none(overrides_view(palette.overrides@), id);
}

/// A block is offered for solid normalization: a plain building block that
/// is not the solid target itself, not protected, not a standing solid
/// member, and not the source of an override.
pub open spec fn solid_eligible(id: Seq<char>, palette: Palette, cli: Seq<OverrideSpec>, mcdata: McData) -> bool {
    &&& is_solid_candidate_spec(id, mcdata)
    &&& !(palette.targets@.dom().contains(Category::Solid) && palette.targets@[Category::Solid] == id)
    &&& !palette.protected.has(id, mcdata)
    &&& !palette.solid_members.has(id, mcdata)
    &&& target_for(overrides_view(cli) + overrides_view(palette.overrides@), id) is None
}

/// The block at `i` of `region` has a name that parses to `id`.
pub open spec fn block_is(region: SchematicRegion, id: Seq<char>, i: int) -> bool {
    parse_block_id(region.grid()[i].name@) == Ok::<Seq<char>, BlockIdErrorKind>(id)
}

/// How many blocks of `region` are `id`.
pub open spec fn occurrences_in(region: SchematicRegion, id: Seq<char>) -> nat {
    count_up_to(region.grid().len() as int, |i: int| block_is(region, id, i))
}

/// How many blocks of all `regions` are `id`.
pub open spec fn occurrences(regions: Seq<&SchematicRegion>, id: Seq<char>) -> nat
    decreases regions.len(),
{
    if regions.len() == 0 {
        0
    } else {
        occurrences(regions.drop_last(), id) + occurrences_in(*regions.last(), id)
    }
}

/// The number of grid positions of all `regions`.
pub open spec fn volumes(regions: Seq<&SchematicRegion>) -> nat
    decreases regions.len(),
{
    if regions.len() == 0 {
        0
    } else {
        volumes(regions.drop_last()) + regions.last().grid().len()
    }
}

proof fn lemma_occurrences_bound(regions: Seq<&SchematicRegion>, id: Seq<char>)
    ensures
        occurrences(regions, id) <= volumes(regions),
    decreases regions.len(),
{
    if regions.len() > 0 {
        lemma_occurrences_bound(regions.drop_last(), id);
        lemma_count_bound(regions.last().grid().len() as int, |i: int| block_is(*regions.last(), id, i));
    }
}

proof fn lemma_volumes_prefix(regions: Seq<&SchematicRegion>, n: int)
    requires
        0 <= n < regions.len(),
    ensures
        volumes(regions.take(n)) + regions[n].grid().len() <= volumes(regions),
    decreases regions.len() - n,
{
    assert(regions.take(n + 1).drop_last() == regions.take(n));
    if n + 1 < regions.len() {
        lemma_volumes_prefix(regions, n + 1);
    } else {
        assert(regions.take(n + 1) == regions);
    }
}

/// The count a solid candidate ranking holds for key `k` after the blocks
/// counted so far: eligible ids with their occurrences.
spec fn candidate_count(k: Seq<Option<Seq<char>>>, seen: spec_fn(Seq<char>) -> nat, palette: Palette, cli: Seq<OverrideSpec>, mcdata: McData) -> nat {
    if k.len() == 1 && k[0] is Some && solid_eligible(k[0]->0, palette, cli, mcdata) {
        seen(k[0]->0)
    } else {
        0
    }
}

fn is_solid_eligible(id: &BlockId, target: Option<&BlockId>, palette: &Palette, cli_overrides: &[OverrideSpec], mcdata: &McData) -> (r: bool)
    requires
        match target {
            Some(t) => palette.targets@.dom().contains(Category::Solid) && palette.targets@[Category::Solid] == t@,
            None => !palette.targets@.dom().contains(Category::Solid),
        },
    ensures
        r == solid_eligible(id@, *palette, cli_overrides@, *mcdata),
{
    if !is_solid_candidate(id.as_str(), mcdata) {
        return false;
    }
    let is_target = match target {
        Some(t) => t.same(id),
        None => false,
    };
    if is_target || palette.protected.contains(id, mcdata) || palette.solid_members.contains(id, mcdata) {
        return false;
    }
    proof {
        lemma_target_for_concat(overrides_view(cli_overrides@), overrides_view(palette.overrides@), id@);
    }
    let configured = palette.overrides.as_slice();
    match find_override(cli_overrides, id) {
        Some(_) => false,
        None => find_override(configured, id).is_none(),
    }
}

/// Rank the blocks eligible for solid normalization across regions by how
/// often they occur: plain building blocks that are not protected, not
/// standing members, not overridden, and not already the solid target. The
/// most used come first; equal counts go by block id.
#[verifier::rlimit(60)]
pub fn solid_candidates(
    regions: &[&SchematicRegion],
    palette: &Palette,
    cli_overrides: &[OverrideSpec],
    mcdata: &McData,
) -> (r: Vec<(BlockId, u64)>)
    requires
        forall|i: int| 0 <= i < regions@.len() ==> (#[trigger] regions@[i]).wf(),
        volumes(regions@) <= u64::MAX,
    ensures
        ranked(ranks_view(r@)),
        forall|i: int|
            0 <= i < r@.len() ==> solid_eligible((#[trigger] r@[i]).0@, *palette, cli_overrides@, *mcdata)
                && r@[i].1 == occurrences(regions@, r@[i].0@) && r@[i].1 > 0,
        forall|id: Seq<char>|
            solid_eligible(id, *palette, cli_overrides@, *mcdata) && #[trigger] occurrences(regions@, id) > 0
                ==> exists|i: int| 0 <= i < r@.len() && r@[i].0@ == id,
        forall|i: int, j: int| 0 <= i < j < r@.len() ==> (#[trigger] r@[i]).0@ != (#[trigger] r@[j]).0@,
        forall|i: int| 0 <= i < r@.len() ==> offered_block((#[trigger] r@[i]).0@, *palette, cli_overrides@, *mcdata),
        forall|i: int, j: int|
            0 <= i < j < r@.len() ==> (#[trigger] r@[i]).1 > (#[trigger] r@[j]).1 || (r@[i].1 == r@[j].1
                && seq_order(r@[i].0@, r@[j].0@) == Order::Less),
{
    let target = palette.targets.get(&Category::Solid);
    let mut counts: Counts<BlockId> = Counts::new();
    let ghost pal = *palette;
    let ghost cli = cli_overrides@;
    let ghost md = *mcdata;
    let mut ri: usize = 0;
    proof {
        assert forall|k: Seq<Option<Seq<char>>>| #[trigger] counts.count(k) == candidate_count(
            k,
            |id: Seq<char>| occurrences(regions@.take(0), id),
            pal,
            cli,
            md,
        ) by {
            assert(regions@.take(0).len() == 0);
        }
    }
    while ri < regions.len()
        invariant
            ri <= regions@.len(),
            pal == *palette,
            cli == cli_overrides@,
            md == *mcdata,
            match target {
                Some(t) => palette.targets@.dom().contains(Category::Solid) && palette.targets@[Category::Solid] == t@,
                None => !palette.targets@.dom().contains(Category::Solid),
            },
            forall|i: int| 0 <= i < regions@.len() ==> (#[trigger] regions@[i]).wf(),
            volumes(regions@) <= u64::MAX,
            counts.wf(),
            forall|k: Seq<Option<Seq<char>>>| #[trigger] counts.count(k) == candidate_count(
                k,
                |id: Seq<char>| occurrences(regions@.take(ri as int), id),
                pal,
                cli,
                md,
            ),
        decreases regions@.len() - ri,
    {
        let region: &SchematicRegion = regions[ri];
        let ghost before = regions@.take(ri as int);
        proof {
            region.lemma_wf();
            lemma_volumes_prefix(regions@, ri as int);
        }
        let n = region.volume();
        let mut i: usize = 0;
        while i < n
            invariant
                ri < regions@.len(),
                *region == *regions@[ri as int],
                n == region.grid().len(),
                region.wf(),
                i <= n,
                before == regions@.take(ri as int),
                pal == *palette,
                cli == cli_overrides@,
                md == *mcdata,
                match target {
                    Some(t) => palette.targets@.dom().contains(Category::Solid) && palette.targets@[Category::Solid]
                        == t@,
                    None => !palette.targets@.dom().contains(Category::Solid),
                },
                volumes(before) + n <= u64::MAX,
                counts.wf(),
                forall|k: Seq<Option<Seq<char>>>| #[trigger] counts.count(k) == candidate_count(
                    k,
                    |id: Seq<char>| occurrences(before, id) + count_up_to(i as int, |j: int| block_is(*region, id, j)),
                    pal,
                    cli,
                    md,
                ),
            decreases n - i,
        {
            let state = region.block_at_index(i);
            let parsed = BlockId::parse(state.name.as_str());
            let ghost old_counts = counts;
            match parsed {
                Ok(id) => {
                    let eligible = is_solid_eligible(&id, target, palette, cli_overrides, mcdata);
                    if eligible {
                        let ghost k = seq![Some(id@)];
                        proof {
                            lemma_occurrences_bound(before, id@);
                            lemma_count_bound(i as int, |j: int| block_is(*region, id@, j));
                            assert(k[0]->0 == id@);
                        }
                        counts.increment(id);
                    }
                    proof {
                        assert forall|k: Seq<Option<Seq<char>>>| #[trigger] counts.count(k) == candidate_count(
                            k,
                            |id2: Seq<char>| occurrences(before, id2) + count_up_to(i + 1, |j: int| block_is(*region, id2, j)),
                            pal,
                            cli,
                            md,
                        ) by {
                            if k.len() == 1 && k[0] is Some {
                                let id2 = k[0]->0;
                                lemma_count_step(i as int, |j: int| block_is(*region, id2, j));
                                if id2 != id@ {
                                    assert(k != seq![Some(id@)]);
                                } else {
                                    assert(k =~= seq![Some(id@)]);
                                }
                            } else {
                                assert(k != seq![Some(id@)]);
                            }
                        }
                    }
                },
                Err(_) => {
                    proof {
                        assert forall|k: Seq<Option<Seq<char>>>| #[trigger] counts.count(k) == candidate_count(
                            k,
                            |id2: Seq<char>| occurrences(before, id2) + count_up_to(i + 1, |j: int| block_is(*region, id2, j)),
                            pal,
                            cli,
                            md,
                        ) by {
                            if k.len() == 1 && k[0] is Some {
                                lemma_count_step(i as int, |j: int| block_is(*region, k[0]->0, j));
                            }
                        }
                    }
                },
            }
            i += 1;
        }
        proof {
            assert(regions@.take(ri + 1).drop_last() == before);
            assert(regions@.take(ri + 1).last() == regions@[ri as int]);
            assert forall|k: Seq<Option<Seq<char>>>| #[trigger] counts.count(k) == candidate_count(
                k,
                |id: Seq<char>| occurrences(regions@.take(ri + 1), id),
                pal,
                cli,
                md,
            ) by {
                if k.len() == 1 && k[0] is Some {
                    let id = k[0]->0;
                    assert(occurrences(regions@.take(ri + 1), id) == occurrences(before, id) + occurrences_in(*region, id));
                }
            }
        }
        ri += 1;
    }
    proof {
        assert(regions@.take(ri as int) == regions@);
    }
    let ranked_list = ranked_entries(&counts);
    proof {
        assert forall|i: int|
            0 <= i < ranked_list@.len() implies solid_eligible(
                (#[trigger] ranked_list@[i]).0@,
                *palette,
                cli_overrides@,
                *mcdata,
            ) && ranked_list@[i].1 == occurrences(regions@, ranked_list@[i].0@) && ranked_list@[i].1 > 0 by {
            let k = seq![Some(ranked_list@[i].0@)];
            assert(k[0]->0 == ranked_list@[i].0@);
        }
        assert forall|id: Seq<char>|
            solid_eligible(id, *palette, cli_overrides@, *mcdata) && #[trigger] occurrences(regions@, id) > 0
                implies exists|i: int| 0 <= i < ranked_list@.len() && ranked_list@[i].0@ == id by {
            let k = seq![Some(id)];
            assert(k[0]->0 == id);
            assert(counts.count(k) > 0);
        }
        assert forall|i: int, j: int|
            0 <= i < j < ranked_list@.len() implies (#[trigger] ranked_list@[i]).1 > (#[trigger] ranked_list@[j]).1 || (
            ranked_list@[i].1 == ranked_list@[j].1 && seq_order(ranked_list@[i].0@, ranked_list@[j].0@) == Order::Less) by {
            let rv = ranks_view(ranked_list@);
            assert(rv[i] == rank_view(ranked_list@[i]) && rv[j] == rank_view(ranked_list@[j]));
            assert(rank_le(rv[i], rv[j]));
            lemma_order_equal(ranked_list@[i].0@, ranked_list@[j].0@);
        }
        assert forall|i: int| 0 <= i < ranked_list@.len() implies offered_block(
            (#[trigger] ranked_list@[i]).0@,
            *palette,
            cli_overrides@,
            *mcdata,
        ) by {
            law_solid_prompt_offers_only_undecided_blocks(ranked_list@[i].0@, *palette, cli_overrides@, *mcdata);
        }
    }
    ranked_list
}


/// Air and the other untouchable blocks are kept, whatever the overrides,
/// the palette and the selection say.
pub proof fn law_untouchable_blocks_are_kept(
    state: BlockState,
    palette: Palette,
    cli: Seq<OverrideSpec>,
    selection: Seq<Seq<char>>,
    mcdata: McData,
)
    requires
        untouchable(state.name@),
    ensures
        entry_spec(state, palette, cli, selection, mcdata).0 is None,
{
}

/// Command line overrides beat configuration overrides, protection and
/// categories: the first command line override naming a block decides it,
/// and an empty target keeps it.
pub proof fn law_cli_override_wins(
    state: BlockState,
    palette: Palette,
    cli: Seq<OverrideSpec>,
    selection: Seq<Seq<char>>,
    mcdata: McData,
    source: Seq<char>,
    target: Option<Seq<char>>,
)
    requires
        !untouchable(state.name@),
        parse_block_id(state.name@) == Ok::<Seq<char>, BlockIdErrorKind>(source),
        target_for(overrides_view(cli), source) == Some(target),
    ensures
        entry_spec(state, palette, cli, selection, mcdata).0 == match target {
            Some(t) => Some((t, true)),
            None => None,
        },
{
    lemma_target_for_concat(overrides_view(cli), overrides_view(palette.overrides@), source);
}

/// Configuration overrides beat protection and categories: when no command
/// line override names a block, the first configuration override naming it
/// decides it, and an empty target keeps it.
pub proof fn law_config_override_beats_categories(
    state: BlockState,
    palette: Palette,
    cli: Seq<OverrideSpec>,
    selection: Seq<Seq<char>>,
    mcdata: McData,
    source: Seq<char>,
    target: Option<Seq<char>>,
)
    requires
        !untouchable(state.name@),
        parse_block_id(state.name@) == Ok::<Seq<char>, BlockIdErrorKind>(source),
        target_for(overrides_view(cli), source) is None,
        target_for(overrides_view(palette.overrides@), source) == Some(target),
    ensures
        entry_spec(state, palette, cli, selection, mcdata).0 == match target {
            Some(t) => Some((t, true)),
            None => None,
        },
{
    lemma_target_for_concat(overrides_view(cli), overrides_view(palette.overrides@), source);
}

/// Protected blocks are never replaced by a category: with no override
/// naming it, a protected block is kept and marked protected.
pub proof fn law_protected_blocks_survive_categories(
    state: BlockState,
    palette: Palette,
    cli: Seq<OverrideSpec>,
    selection: Seq<Seq<char>>,
    mcdata: McData,
    source: Seq<char>,
)
    requires
        !untouchable(state.name@),
        parse_block_id(state.name@) == Ok::<Seq<char>, BlockIdErrorKind>(source),
        target_for(overrides_view(cli), source) is None,
        target_for(overrides_view(palette.overrides@), source) is None,
        palette.protected.has(source, mcdata),
    ensures
        entry_spec(state, palette, cli, selection, mcdata).0 is None,
        entry_spec(state, palette, cli, selection, mcdata).2,
{
    lemma_target_for_concat(overrides_view(cli), overrides_view(palette.overrides@), source);
}

/// A category without a configured target passes its blocks through
/// untouched, and so does a category whose target is the block itself.
pub proof fn law_category_without_other_target_keeps(
    state: BlockState,
    palette: Palette,
    cli: Seq<OverrideSpec>,
    selection: Seq<Seq<char>>,
    mcdata: McData,
    source: Seq<char>,
    category: Category,
)
    requires
        !untouchable(state.name@),
        parse_block_id(state.name@) == Ok::<Seq<char>, BlockIdErrorKind>(source),
        target_for(overrides_view(cli), source) is None,
        target_for(overrides_view(palette.overrides@), source) is None,
        entry_spec(state, palette, cli, selection, mcdata).1 == Some(category),
        category != Category::Coral,
        !palette.targets@.dom().contains(category) || palette.targets@[category] == source,
    ensures
        entry_spec(state, palette, cli, selection, mcdata).0 is None,
{
    lemma_target_for_concat(overrides_view(cli), overrides_view(palette.overrides@), source);
}

/// Blocks of no category, modded ones included, pass through untouched
/// unless an override names them.
pub proof fn law_uncategorized_blocks_pass_through(
    state: BlockState,
    palette: Palette,
    cli: Seq<OverrideSpec>,
    selection: Seq<Seq<char>>,
    mcdata: McData,
    source: Seq<char>,
)
    requires
        parse_block_id(state.name@) == Ok::<Seq<char>, BlockIdErrorKind>(source),
        target_for(overrides_view(cli), source) is None,
        target_for(overrides_view(palette.overrides@), source) is None,
        entry_spec(state, palette, cli, selection, mcdata).1 is None,
    ensures
        entry_spec(state, palette, cli, selection, mcdata).0 is None,
{
    lemma_target_for_concat(overrides_view(cli), overrides_view(palette.overrides@), source);
}

/// Nothing is normalized as solid without a choice: a block counts as solid
/// only when this run's selection or the standing solid members hold it,
/// since detection never yields the solid category.
pub proof fn law_solid_needs_a_choice(
    state: BlockState,
    palette: Palette,
    cli: Seq<OverrideSpec>,
    selection: Seq<Seq<char>>,
    mcdata: McData,
    source: Seq<char>,
)
    requires
        parse_block_id(state.name@) == Ok::<Seq<char>, BlockIdErrorKind>(source),
        entry_spec(state, palette, cli, selection, mcdata).1 == Some(Category::Solid),
    ensures
        selection.contains(source) || palette.solid_members.has(source, mcdata),
{
}

proof fn lemma_first_with_same_key(pe: Seq<BlockState>, j: int) -> (f: int)
    requires
        0 <= j < pe.len(),
    ensures
        0 <= f <= j,
        first_with_key(pe, f),
        key_view_of(pe[f]) == key_view_of(pe[j]),
    decreases j,
{
    if first_with_key(pe, j) {
        j
    } else {
        let m = choose|m: int| 0 <= m < j && key_view_of(#[trigger] pe[m]) == key_view_of(pe[j]);
        lemma_first_with_same_key(pe, m)
    }
}

/// Applying a plan built for a region's palette never replaces air or
/// another untouchable block.
pub proof fn law_untouchable_blocks_survive_apply(
    plan: ReplacementPlan,
    region: SchematicRegion,
    i: int,
    palette: Palette,
    cli: Seq<OverrideSpec>,
    selection: Seq<Seq<char>>,
    mcdata: McData,
)
    requires
        built_from(plan, region.palette_view(), palette, cli, selection, mcdata),
        0 <= i < region.grid().len(),
        untouchable(region.grid()[i].name@),
    ensures
        !replaces_at(plan, region, i),
        applied_at(plan, region, i) == state_view(region.grid()[i]),
{
    lemma_untouchable_not_replaced(plan, region.palette_view(), region, i, palette, cli, selection, mcdata);
}

proof fn lemma_untouchable_not_replaced(
    plan: ReplacementPlan,
    pe: Seq<BlockState>,
    region: SchematicRegion,
    i: int,
    palette: Palette,
    cli: Seq<OverrideSpec>,
    selection: Seq<Seq<char>>,
    mcdata: McData,
)
    requires
        built_from(plan, pe, palette, cli, selection, mcdata),
        0 <= i < region.grid().len(),
        untouchable(region.grid()[i].name@),
    ensures
        !replaces_at(plan, region, i),
{
    let k = key_view_of(region.grid()[i]);
    if plan.plan_for(k) is Some {
        let j = choose|j: int| 0 <= j < pe.len() && key_view_of(pe[j]) == k;
        let f = lemma_first_with_same_key(pe, j);
        assert(pe[f].name@ == k.0);
        assert(entry_realizes(plan.plan_for(key_view_of(pe[f]))->Some_0, pe[f], palette, cli, selection, mcdata));
    }
}

proof fn lemma_count_mono(n: int, p: spec_fn(int) -> bool, q: spec_fn(int) -> bool)
    requires
        forall|i: int| 0 <= i < n && #[trigger] p(i) ==> q(i),
    ensures
        count_up_to(n, p) <= count_up_to(n, q),
    decreases n,
{
    if n > 0 {
        lemma_count_mono(n - 1, p, q);
    }
}

/// Applying a plan built for a region's palette replaces at most as many
/// blocks as the region counts: air and the other untouchable blocks are
/// neither counted nor replaced.
pub proof fn law_replaced_within_blocks(
    plan: ReplacementPlan,
    region: SchematicRegion,
    palette: Palette,
    cli: Seq<OverrideSpec>,
    selection: Seq<Seq<char>>,
    mcdata: McData,
)
    requires
        built_from(plan, region.palette_view(), palette, cli, selection, mcdata),
    ensures
        count_up_to(region.grid().len() as int, |i: int| replaces_at(plan, region, i)) <= count_up_to(
            region.grid().len() as int,
            |i: int| counted_at(region, i),
        ),
{
    assert forall|i: int|
        0 <= i < region.grid().len() && #[trigger] replaces_at(plan, region, i) implies counted_at(region, i) by {
        if untouchable(region.grid()[i].name@) {
            lemma_untouchable_not_replaced(plan, region.palette_view(), region, i, palette, cli, selection, mcdata);
        }
    }
    lemma_count_mono(
        region.grid().len() as int,
        |i: int| replaces_at(plan, region, i),
        |i: int| counted_at(region, i),
    );
}

/// Category replacements pass over blocks with block entity data: such a
/// block is replaced only by an explicit override.
pub proof fn law_block_entities_need_an_override(plan: ReplacementPlan, region: SchematicRegion, i: int)
    requires
        has_entity_at(region, i),
        replaces_at(plan, region, i),
    ensures
        entry_at(plan, region, i)->Some_0.decision->Replace_explicit,
{
}

proof fn lemma_filter_keeps_all<A>(s: Seq<A>, pred: spec_fn(A) -> bool)
    requires
        forall|x: A| #[trigger] pred(x),
    ensures
        s.filter(pred) == s,
    decreases s.len(),
{
    reveal(Seq::filter);
    if s.len() > 0 {
        lemma_filter_keeps_all(s.drop_last(), pred);
        assert(s.drop_last().push(s.last()) =~= s);
    }
}

/// A replacement keeps every property of the source block that the
/// target's schema accepts, and only those; with no extracted data for the
/// target every property is kept and none is dropped.
pub proof fn law_replacement_keeps_accepted_properties(
    state: BlockState,
    target: Seq<char>,
    mcdata: McData,
    p: (Seq<char>, Seq<char>),
)
    ensures
        kept_props(state, target, mcdata).contains(p) <==> (pairs_view(state.properties@).contains(p) && accepts(
            mcdata.block_info(target),
            p,
        )),
        mcdata.block_info(target) is None ==> kept_props(state, target, mcdata) == pairs_view(state.properties@)
            && dropped_names(state, target, mcdata).len() == 0,
{
    let props = pairs_view(state.properties@);
    let pred = |q: (Seq<char>, Seq<char>)| accepts(mcdata.block_info(target), q);
    let npred = |q: (Seq<char>, Seq<char>)| !accepts(mcdata.block_info(target), q);
    if kept_props(state, target, mcdata).contains(p) {
        props.lemma_filter_contains_rev(pred, p);
        let k = choose|k: int| 0 <= k < props.filter(pred).len() && props.filter(pred)[k] == p;
        props.lemma_filter_pred(pred, k);
    }
    if props.contains(p) && pred(p) {
        let i = choose|i: int| 0 <= i < props.len() && props[i] == p;
        props.lemma_filter_contains(pred, i);
    }
    if mcdata.block_info(target) is None {
        lemma_filter_keeps_all(props, pred);
        props.lemma_all_neg_filter_empty(npred);
    }
}

} // verus!
