use vstd::prelude::*;

use crate::block::BlockStateKey;
use crate::mcdata::McData;
use crate::text::{
    chars_contain, chars_end_with, chars_of, contains_seq, ends_with, find_char, split_once,
    str_eq, sub_chars,
};

verus! {

/// Block categories a palette can normalize.
#[derive(Debug, Clone, Copy, PartialEq, Eq, Hash, Structural)]
pub enum Category {
    Solid,
    Glass,
    GlassPane,
    Terracotta,
    Wall,
    Stair,
    Slab,
    Coral,
}

/// The configuration key of a category.
pub open spec fn category_key(c: Category) -> Seq<char> {
    match c {
        Category::Solid => "solid"@,
        Category::Glass => "glass"@,
        Category::GlassPane => "glass_pane"@,
        Category::Terracotta => "terracotta"@,
        Category::Wall => "wall"@,
        Category::Stair => "stair"@,
        Category::Slab => "slab"@,
        Category::Coral => "coral"@,
    }
}

impl Category {
    pub fn key(self) -> (r: &'static str)
        ensures
            r@ == category_key(self),
    {
        match self {
            Category::Solid => "solid",
            Category::Glass => "glass",
            Category::GlassPane => "glass_pane",
            Category::Terracotta => "terracotta",
            Category::Wall => "wall",
            Category::Stair => "stair",
            Category::Slab => "slab",
            Category::Coral => "coral",
        }
    }
}

/// Layer one: the first of the vanilla tags, in a fixed order, that holds the
/// block.
pub open spec fn detect_by_tag_spec(name: Seq<char>, mcdata: McData) -> Option<Category> {
    if mcdata.tag_has("stairs"@, name) {
        Some(Category::Stair)
    } else if mcdata.tag_has("slabs"@, name) {
        Some(Category::Slab)
    } else if mcdata.tag_has("walls"@, name) {
        Some(Category::Wall)
    } else if mcdata.tag_has("glazed_terracotta"@, name) {
        Some(Category::Terracotta)
    } else if mcdata.tag_has("impermeable"@, name) {
        Some(Category::Glass)
    } else if mcdata.tag_has("corals"@, name) || mcdata.tag_has("coral_blocks"@, name)
        || mcdata.tag_has("wall_corals"@, name) {
        Some(Category::Coral)
    } else {
        None
    }
}

/// The category of a blocks report definition type. Vanilla glass panes share
/// the iron bars class, so that class needs "glass" in the block name.
pub open spec fn kind_category(kind: Seq<char>, name: Seq<char>) -> Option<Category> {
    if kind == "minecraft:stair"@ {
        Some(Category::Stair)
    } else if kind == "minecraft:slab"@ {
        Some(Category::Slab)
    } else if kind == "minecraft:wall"@ {
        Some(Category::Wall)
    } else if kind == "minecraft:stained_glass_pane"@ {
        Some(Category::GlassPane)
    } else if kind == "minecraft:iron_bars"@ && contains_seq(name, "glass"@) {
        Some(Category::GlassPane)
    } else if kind == "minecraft:transparent"@ || kind == "minecraft:stained_glass"@ || kind
        == "minecraft:tinted_glass"@ {
        Some(Category::Glass)
    } else if kind == "minecraft:glazed_terracotta"@ {
        Some(Category::Terracotta)
    } else if kind == "minecraft:coral_plant"@ || kind == "minecraft:base_coral_plant"@ || kind
        == "minecraft:coral_fan"@ || kind == "minecraft:base_coral_fan"@ || kind
        == "minecraft:coral_wall_fan"@ || kind == "minecraft:base_coral_wall_fan"@ || kind
        == "minecraft:coral_block"@ {
        Some(Category::Coral)
    } else {
        None
    }
}

/// Layer two: the block's definition type in the blocks report.
pub open spec fn detect_by_definition_spec(name: Seq<char>, mcdata: McData) -> Option<Category> {
    match mcdata.block_info(name) {
        Some(info) => match info.definition.kind {
            Some(kind) => kind_category(kind@, name),
            None => None,
        },
        None => None,
    }
}

/// The value of the first property named `n`.
#[verifier::opaque]
pub open spec fn prop_value(ps: Seq<(Seq<char>, Seq<char>)>, n: Seq<char>) -> Option<Seq<char>> {
    if exists|i: int| 0 <= i < ps.len() && #[trigger] ps[i].0 == n {
        Some(
            ps[choose|i: int|
                0 <= i < ps.len() && #[trigger] ps[i].0 == n && forall|j: int|
                    0 <= j < i ==> #[trigger] ps[j].0 != n].1,
        )
    } else {
        None
    }
}

/// The state has a property named `n`.
pub open spec fn has_prop(ps: Seq<(Seq<char>, Seq<char>)>, n: Seq<char>) -> bool {
    prop_value(ps, n) is Some
}

pub open spec fn is_wall_side(v: Seq<char>) -> bool {
    v == "none"@ || v == "low"@ || v == "tall"@
}

pub open spec fn is_bool_value(v: Seq<char>) -> bool {
    v == "true"@ || v == "false"@
}

pub open spec fn has_four_sides(ps: Seq<(Seq<char>, Seq<char>)>) -> bool {
    has_prop(ps, "north"@) && has_prop(ps, "east"@) && has_prop(ps, "south"@) && has_prop(
        ps,
        "west"@,
    )
}

pub open spec fn sides_all(ps: Seq<(Seq<char>, Seq<char>)>, wall: bool) -> bool {
    let n = prop_value(ps, "north"@).unwrap();
    let e = prop_value(ps, "east"@).unwrap();
    let s = prop_value(ps, "south"@).unwrap();
    let w = prop_value(ps, "west"@).unwrap();
    if wall {
        is_wall_side(n) && is_wall_side(e) && is_wall_side(s) && is_wall_side(w)
    } else {
        is_bool_value(n) && is_bool_value(e) && is_bool_value(s) && is_bool_value(w)
    }
}

/// Layer three: the state property signature. Fences and iron bars share the
/// boolean side signature of panes, so panes also need a name hint.
pub open spec fn detect_by_signature_spec(
    name: Seq<char>,
    ps: Seq<(Seq<char>, Seq<char>)>,
) -> Option<Category> {
    if has_prop(ps, "facing"@) && has_prop(ps, "half"@) && has_prop(ps, "shape"@) {
        Some(Category::Stair)
    } else if (match prop_value(ps, "type"@) {
        Some(v) => v == "top"@ || v == "bottom"@ || v == "double"@,
        None => false,
    }) {
        Some(Category::Slab)
    } else if has_four_sides(ps) && sides_all(ps, true) && has_prop(ps, "up"@) {
        Some(Category::Wall)
    } else if has_four_sides(ps) && sides_all(ps, false) && (contains_seq(name, "pane"@)
        || contains_seq(name, "glass"@)) {
        Some(Category::GlassPane)
    } else {
        None
    }
}

/// The path of a block name: the part after the first ':', or all of it.
pub open spec fn name_path(name: Seq<char>) -> Seq<char> {
    match split_once(name, ':') {
        Some(parts) => parts.1,
        None => name,
    }
}

/// Layer four: the name pattern.
pub open spec fn detect_by_name_spec(name: Seq<char>) -> Option<Category> {
    let p = name_path(name);
    if contains_seq(p, "coral"@) {
        Some(Category::Coral)
    } else if ends_with(p, "_stairs"@) {
        Some(Category::Stair)
    } else if ends_with(p, "_slab"@) {
        Some(Category::Slab)
    } else if ends_with(p, "_wall"@) {
        Some(Category::Wall)
    } else if ends_with(p, "_pane"@) {
        Some(Category::GlassPane)
    } else if ends_with(p, "glazed_terracotta"@) {
        Some(Category::Terracotta)
    } else if ends_with(p, "glass"@) {
        Some(Category::Glass)
    } else {
        None
    }
}

pub open spec fn or_else(a: Option<Category>, b: Option<Category>) -> Option<Category> {
    match a {
        Some(c) => Some(c),
        None => b,
    }
}

/// The intrinsic category of a block state, layered from most to least
/// authoritative: vanilla tag, definition type, property signature, name.
/// Solid is never detected.
pub open spec fn detect_spec(key: (Seq<char>, Seq<(Seq<char>, Seq<char>)>), mcdata: McData) -> Option<
    Category,
> {
    or_else(
        detect_by_tag_spec(key.0, mcdata),
        or_else(
            detect_by_definition_spec(key.0, mcdata),
            or_else(detect_by_signature_spec(key.0, key.1), detect_by_name_spec(key.0)),
        ),
    )
}

/// A vanilla tag that decides a category holds the block.
pub open spec fn held_by(mcdata: McData, tag: Seq<char>, name: Seq<char>) -> bool {
    mcdata.tag_has(tag, name)
}

/// No vanilla tag that decides a category holds the block.
pub open spec fn in_no_category_tag(name: Seq<char>, mcdata: McData) -> bool {
    &&& !held_by(mcdata, "stairs"@, name)
    &&& !held_by(mcdata, "slabs"@, name)
    &&& !held_by(mcdata, "walls"@, name)
    &&& !held_by(mcdata, "glazed_terracotta"@, name)
    &&& !held_by(mcdata, "impermeable"@, name)
    &&& !held_by(mcdata, "corals"@, name)
    &&& !held_by(mcdata, "coral_blocks"@, name)
    &&& !held_by(mcdata, "wall_corals"@, name)
}

/// The vanilla tags decide first, consulted in the order stairs, slabs,
/// walls, glazed terracotta, impermeable, corals: a block in one of them
/// (and in none before it) gets that tag's category, whatever its
/// definition type, properties or name say. Stained and tinted glass are in
/// `impermeable`, so they are glass, not panes.
pub proof fn law_vanilla_tags_decide(key: (Seq<char>, Seq<(Seq<char>, Seq<char>)>), mcdata: McData)
    ensures
        held_by(mcdata, "stairs"@, key.0) ==> detect_spec(key, mcdata) == Some(Category::Stair),
        !held_by(mcdata, "stairs"@, key.0) && held_by(mcdata, "slabs"@, key.0) ==> detect_spec(key, mcdata)
            == Some(Category::Slab),
        !held_by(mcdata, "stairs"@, key.0) && !held_by(mcdata, "slabs"@, key.0) && held_by(mcdata, "walls"@, key.0)
            ==> detect_spec(key, mcdata) == Some(Category::Wall),
        !held_by(mcdata, "stairs"@, key.0) && !held_by(mcdata, "slabs"@, key.0) && !held_by(mcdata, "walls"@, key.0)
            && held_by(mcdata, "glazed_terracotta"@, key.0) ==> detect_spec(key, mcdata) == Some(Category::Terracotta),
        !held_by(mcdata, "stairs"@, key.0) && !held_by(mcdata, "slabs"@, key.0) && !held_by(mcdata, "walls"@, key.0)
            && !held_by(mcdata, "glazed_terracotta"@, key.0) && held_by(mcdata, "impermeable"@, key.0)
            ==> detect_spec(key, mcdata) == Some(Category::Glass),
        !held_by(mcdata, "stairs"@, key.0) && !held_by(mcdata, "slabs"@, key.0) && !held_by(mcdata, "walls"@, key.0)
            && !held_by(mcdata, "glazed_terracotta"@, key.0) && !held_by(mcdata, "impermeable"@, key.0) && (held_by(
            mcdata,
            "corals"@,
            key.0,
        ) || held_by(mcdata, "coral_blocks"@, key.0) || held_by(mcdata, "wall_corals"@, key.0))
            ==> detect_spec(key, mcdata) == Some(Category::Coral),
{
}

/// The definition type the blocks report gives a block, if any.
pub open spec fn report_kind(name: Seq<char>, mcdata: McData) -> Option<Seq<char>> {
    match mcdata.block_info(name) {
        Some(info) => match info.definition.kind {
            Some(k) => Some(k@),
            None => None,
        },
        None => None,
    }
}

/// Below the tags, the blocks report's definition type decides: stairs,
/// slabs and walls by their class; panes by the stained pane class, or the
/// iron bars class with "glass" in the name; glass by the transparent,
/// stained and tinted glass classes; glazed terracotta and the coral
/// classes by theirs.
pub proof fn law_definition_types_decide(key: (Seq<char>, Seq<(Seq<char>, Seq<char>)>), mcdata: McData, kind: Seq<char>)
    requires
        in_no_category_tag(key.0, mcdata),
        report_kind(key.0, mcdata) == Some(kind),
    ensures
        kind == "minecraft:stair"@ ==> detect_spec(key, mcdata) == Some(Category::Stair),
        kind == "minecraft:slab"@ ==> detect_spec(key, mcdata) == Some(Category::Slab),
        kind == "minecraft:wall"@ ==> detect_spec(key, mcdata) == Some(Category::Wall),
        kind == "minecraft:stained_glass_pane"@ ==> detect_spec(key, mcdata) == Some(Category::GlassPane),
        kind == "minecraft:iron_bars"@ && contains_seq(key.0, "glass"@) ==> detect_spec(key, mcdata) == Some(
            Category::GlassPane,
        ),
        kind == "minecraft:transparent"@ || kind == "minecraft:stained_glass"@ || kind == "minecraft:tinted_glass"@
            ==> detect_spec(key, mcdata) == Some(Category::Glass),
        kind == "minecraft:glazed_terracotta"@ ==> detect_spec(key, mcdata) == Some(Category::Terracotta),
        kind == "minecraft:coral_plant"@ || kind == "minecraft:base_coral_plant"@ || kind == "minecraft:coral_fan"@
            || kind == "minecraft:base_coral_fan"@ || kind == "minecraft:coral_wall_fan"@ || kind
            == "minecraft:base_coral_wall_fan"@ || kind == "minecraft:coral_block"@ ==> detect_spec(key, mcdata)
            == Some(Category::Coral),
{
    assert(detect_by_tag_spec(key.0, mcdata) is None);
    assert(kind_category(kind, key.0) is Some ==> detect_spec(key, mcdata) == kind_category(kind, key.0));
    assert(kind_category("minecraft:stair"@, key.0) == Some(Category::Stair)) by {
        reveal_strlit("minecraft:stair");
        assert("minecraft:stair"@.len() == 15);
    }
    assert(kind_category("minecraft:slab"@, key.0) == Some(Category::Slab)) by {
        reveal_strlit("minecraft:stair");
        assert("minecraft:stair"@.len() == 15);
        reveal_strlit("minecraft:slab");
        assert("minecraft:slab"@.len() == 14);
        assert("minecraft:slab"@[11] != "minecraft:stair"@[11]);
    }
    assert(kind_category("minecraft:wall"@, key.0) == Some(Category::Wall)) by {
        reveal_strlit("minecraft:stair");
        assert("minecraft:stair"@.len() == 15);
        reveal_strlit("minecraft:slab");
        assert("minecraft:slab"@.len() == 14);
        reveal_strlit("minecraft:wall");
        assert("minecraft:wall"@.len() == 14);
        assert("minecraft:wall"@[10] != "minecraft:stair"@[10]);
        assert("minecraft:wall"@[10] != "minecraft:slab"@[10]);
    }
    assert(kind_category("minecraft:stained_glass_pane"@, key.0) == Some(Category::GlassPane)) by {
        reveal_strlit("minecraft:stair");
        assert("minecraft:stair"@.len() == 15);
        reveal_strlit("minecraft:slab");
        assert("minecraft:slab"@.len() == 14);
        reveal_strlit("minecraft:wall");
        assert("minecraft:wall"@.len() == 14);
        reveal_strlit("minecraft:stained_glass_pane");
        assert("minecraft:stained_glass_pane"@.len() == 28);
    }
    assert(contains_seq(key.0, "glass"@) ==> kind_category("minecraft:iron_bars"@, key.0) == Some(Category::GlassPane)) by {
        reveal_strlit("minecraft:stair");
        assert("minecraft:stair"@.len() == 15);
        reveal_strlit("minecraft:slab");
        assert("minecraft:slab"@.len() == 14);
        reveal_strlit("minecraft:wall");
        assert("minecraft:wall"@.len() == 14);
        reveal_strlit("minecraft:stained_glass_pane");
        assert("minecraft:stained_glass_pane"@.len() == 28);
        reveal_strlit("minecraft:iron_bars");
        assert("minecraft:iron_bars"@.len() == 19);
    }
    assert(kind_category("minecraft:transparent"@, key.0) == Some(Category::Glass)) by {
        reveal_strlit("minecraft:stair");
        assert("minecraft:stair"@.len() == 15);
        reveal_strlit("minecraft:slab");
        assert("minecraft:slab"@.len() == 14);
        reveal_strlit("minecraft:wall");
        assert("minecraft:wall"@.len() == 14);
        reveal_strlit("minecraft:stained_glass_pane");
        assert("minecraft:stained_glass_pane"@.len() == 28);
        reveal_strlit("minecraft:iron_bars");
        assert("minecraft:iron_bars"@.len() == 19);
        reveal_strlit("minecraft:transparent");
        assert("minecraft:transparent"@.len() == 21);
    }
    assert(kind_category("minecraft:stained_glass"@, key.0) == Some(Category::Glass)) by {
        reveal_strlit("minecraft:stair");
        assert("minecraft:stair"@.len() == 15);
        reveal_strlit("minecraft:slab");
        assert("minecraft:slab"@.len() == 14);
        reveal_strlit("minecraft:wall");
        assert("minecraft:wall"@.len() == 14);
        reveal_strlit("minecraft:stained_glass_pane");
        assert("minecraft:stained_glass_pane"@.len() == 28);
        reveal_strlit("minecraft:iron_bars");
        assert("minecraft:iron_bars"@.len() == 19);
        reveal_strlit("minecraft:transparent");
        assert("minecraft:transparent"@.len() == 21);
        reveal_strlit("minecraft:stained_glass");
        assert("minecraft:stained_glass"@.len() == 23);
    }
    assert(kind_category("minecraft:tinted_glass"@, key.0) == Some(Category::Glass)) by {
        reveal_strlit("minecraft:stair");
        assert("minecraft:stair"@.len() == 15);
        reveal_strlit("minecraft:slab");
        assert("minecraft:slab"@.len() == 14);
        reveal_strlit("minecraft:wall");
        assert("minecraft:wall"@.len() == 14);
        reveal_strlit("minecraft:stained_glass_pane");
        assert("minecraft:stained_glass_pane"@.len() == 28);
        reveal_strlit("minecraft:iron_bars");
        assert("minecraft:iron_bars"@.len() == 19);
        reveal_strlit("minecraft:transparent");
        assert("minecraft:transparent"@.len() == 21);
        reveal_strlit("minecraft:stained_glass");
        assert("minecraft:stained_glass"@.len() == 23);
        reveal_strlit("minecraft:tinted_glass");
        assert("minecraft:tinted_glass"@.len() == 22);
    }
    assert(kind_category("minecraft:glazed_terracotta"@, key.0) == Some(Category::Terracotta)) by {
        reveal_strlit("minecraft:stair");
        assert("minecraft:stair"@.len() == 15);
        reveal_strlit("minecraft:slab");
        assert("minecraft:slab"@.len() == 14);
        reveal_strlit("minecraft:wall");
        assert("minecraft:wall"@.len() == 14);
        reveal_strlit("minecraft:stained_glass_pane");
        assert("minecraft:stained_glass_pane"@.len() == 28);
        reveal_strlit("minecraft:iron_bars");
        assert("minecraft:iron_bars"@.len() == 19);
        reveal_strlit("minecraft:transparent");
        assert("minecraft:transparent"@.len() == 21);
        reveal_strlit("minecraft:stained_glass");
        assert("minecraft:stained_glass"@.len() == 23);
        reveal_strlit("minecraft:tinted_glass");
        assert("minecraft:tinted_glass"@.len() == 22);
        reveal_strlit("minecraft:glazed_terracotta");
        assert("minecraft:glazed_terracotta"@.len() == 27);
    }
    assert(kind_category("minecraft:coral_plant"@, key.0) == Some(Category::Coral)) by {
        reveal_strlit("minecraft:stair");
        assert("minecraft:stair"@.len() == 15);
        reveal_strlit("minecraft:slab");
        assert("minecraft:slab"@.len() == 14);
        reveal_strlit("minecraft:wall");
        assert("minecraft:wall"@.len() == 14);
        reveal_strlit("minecraft:stained_glass_pane");
        assert("minecraft:stained_glass_pane"@.len() == 28);
        reveal_strlit("minecraft:iron_bars");
        assert("minecraft:iron_bars"@.len() == 19);
        reveal_strlit("minecraft:transparent");
        assert("minecraft:transparent"@.len() == 21);
        reveal_strlit("minecraft:stained_glass");
        assert("minecraft:stained_glass"@.len() == 23);
        reveal_strlit("minecraft:tinted_glass");
        assert("minecraft:tinted_glass"@.len() == 22);
        reveal_strlit("minecraft:glazed_terracotta");
        assert("minecraft:glazed_terracotta"@.len() == 27);
        reveal_strlit("minecraft:coral_plant");
        assert("minecraft:coral_plant"@.len() == 21);
        assert("minecraft:coral_plant"@[10] != "minecraft:transparent"@[10]);
    }
    assert(kind_category("minecraft:base_coral_plant"@, key.0) == Some(Category::Coral)) by {
        reveal_strlit("minecraft:stair");
        assert("minecraft:stair"@.len() == 15);
        reveal_strlit("minecraft:slab");
        assert("minecraft:slab"@.len() == 14);
        reveal_strlit("minecraft:wall");
        assert("minecraft:wall"@.len() == 14);
        reveal_strlit("minecraft:stained_glass_pane");
        assert("minecraft:stained_glass_pane"@.len() == 28);
        reveal_strlit("minecraft:iron_bars");
        assert("minecraft:iron_bars"@.len() == 19);
        reveal_strlit("minecraft:transparent");
        assert("minecraft:transparent"@.len() == 21);
        reveal_strlit("minecraft:stained_glass");
        assert("minecraft:stained_glass"@.len() == 23);
        reveal_strlit("minecraft:tinted_glass");
        assert("minecraft:tinted_glass"@.len() == 22);
        reveal_strlit("minecraft:glazed_terracotta");
        assert("minecraft:glazed_terracotta"@.len() == 27);
        reveal_strlit("minecraft:coral_plant");
        assert("minecraft:coral_plant"@.len() == 21);
        reveal_strlit("minecraft:base_coral_plant");
        assert("minecraft:base_coral_plant"@.len() == 26);
    }
    assert(kind_category("minecraft:coral_fan"@, key.0) == Some(Category::Coral)) by {
        reveal_strlit("minecraft:stair");
        assert("minecraft:stair"@.len() == 15);
        reveal_strlit("minecraft:slab");
        assert("minecraft:slab"@.len() == 14);
        reveal_strlit("minecraft:wall");
        assert("minecraft:wall"@.len() == 14);
        reveal_strlit("minecraft:stained_glass_pane");
        assert("minecraft:stained_glass_pane"@.len() == 28);
        reveal_strlit("minecraft:iron_bars");
        assert("minecraft:iron_bars"@.len() == 19);
        reveal_strlit("minecraft:transparent");
        assert("minecraft:transparent"@.len() == 21);
        reveal_strlit("minecraft:stained_glass");
        assert("minecraft:stained_glass"@.len() == 23);
        reveal_strlit("minecraft:tinted_glass");
        assert("minecraft:tinted_glass"@.len() == 22);
        reveal_strlit("minecraft:glazed_terracotta");
        assert("minecraft:glazed_terracotta"@.len() == 27);
        reveal_strlit("minecraft:coral_plant");
        assert("minecraft:coral_plant"@.len() == 21);
        reveal_strlit("minecraft:base_coral_plant");
        assert("minecraft:base_coral_plant"@.len() == 26);
        reveal_strlit("minecraft:coral_fan");
        assert("minecraft:coral_fan"@.len() == 19);
        assert("minecraft:coral_fan"@[10] != "minecraft:iron_bars"@[10]);
    }
    assert(kind_category("minecraft:base_coral_fan"@, key.0) == Some(Category::Coral)) by {
        reveal_strlit("minecraft:stair");
        assert("minecraft:stair"@.len() == 15);
        reveal_strlit("minecraft:slab");
        assert("minecraft:slab"@.len() == 14);
        reveal_strlit("minecraft:wall");
        assert("minecraft:wall"@.len() == 14);
        reveal_strlit("minecraft:stained_glass_pane");
        assert("minecraft:stained_glass_pane"@.len() == 28);
        reveal_strlit("minecraft:iron_bars");
        assert("minecraft:iron_bars"@.len() == 19);
        reveal_strlit("minecraft:transparent");
        assert("minecraft:transparent"@.len() == 21);
        reveal_strlit("minecraft:stained_glass");
        assert("minecraft:stained_glass"@.len() == 23);
        reveal_strlit("minecraft:tinted_glass");
        assert("minecraft:tinted_glass"@.len() == 22);
        reveal_strlit("minecraft:glazed_terracotta");
        assert("minecraft:glazed_terracotta"@.len() == 27);
        reveal_strlit("minecraft:coral_plant");
        assert("minecraft:coral_plant"@.len() == 21);
        reveal_strlit("minecraft:base_coral_plant");
        assert("minecraft:base_coral_plant"@.len() == 26);
        reveal_strlit("minecraft:coral_fan");
        assert("minecraft:coral_fan"@.len() == 19);
        reveal_strlit("minecraft:base_coral_fan");
        assert("minecraft:base_coral_fan"@.len() == 24);
    }
    assert(kind_category("minecraft:coral_wall_fan"@, key.0) == Some(Category::Coral)) by {
        reveal_strlit("minecraft:stair");
        assert("minecraft:stair"@.len() == 15);
        reveal_strlit("minecraft:slab");
        assert("minecraft:slab"@.len() == 14);
        reveal_strlit("minecraft:wall");
        assert("minecraft:wall"@.len() == 14);
        reveal_strlit("minecraft:stained_glass_pane");
        assert("minecraft:stained_glass_pane"@.len() == 28);
        reveal_strlit("minecraft:iron_bars");
        assert("minecraft:iron_bars"@.len() == 19);
        reveal_strlit("minecraft:transparent");
        assert("minecraft:transparent"@.len() == 21);
        reveal_strlit("minecraft:stained_glass");
        assert("minecraft:stained_glass"@.len() == 23);
        reveal_strlit("minecraft:tinted_glass");
        assert("minecraft:tinted_glass"@.len() == 22);
        reveal_strlit("minecraft:glazed_terracotta");
        assert("minecraft:glazed_terracotta"@.len() == 27);
        reveal_strlit("minecraft:coral_plant");
        assert("minecraft:coral_plant"@.len() == 21);
        reveal_strlit("minecraft:base_coral_plant");
        assert("minecraft:base_coral_plant"@.len() == 26);
        reveal_strlit("minecraft:coral_fan");
        assert("minecraft:coral_fan"@.len() == 19);
        reveal_strlit("minecraft:base_coral_fan");
        assert("minecraft:base_coral_fan"@.len() == 24);
        reveal_strlit("minecraft:coral_wall_fan");
        assert("minecraft:coral_wall_fan"@.len() == 24);
    }
    assert(kind_category("minecraft:base_coral_wall_fan"@, key.0) == Some(Category::Coral)) by {
        reveal_strlit("minecraft:stair");
        assert("minecraft:stair"@.len() == 15);
        reveal_strlit("minecraft:slab");
        assert("minecraft:slab"@.len() == 14);
        reveal_strlit("minecraft:wall");
        assert("minecraft:wall"@.len() == 14);
        reveal_strlit("minecraft:stained_glass_pane");
        assert("minecraft:stained_glass_pane"@.len() == 28);
        reveal_strlit("minecraft:iron_bars");
        assert("minecraft:iron_bars"@.len() == 19);
        reveal_strlit("minecraft:transparent");
        assert("minecraft:transparent"@.len() == 21);
        reveal_strlit("minecraft:stained_glass");
        assert("minecraft:stained_glass"@.len() == 23);
        reveal_strlit("minecraft:tinted_glass");
        assert("minecraft:tinted_glass"@.len() == 22);
        reveal_strlit("minecraft:glazed_terracotta");
        assert("minecraft:glazed_terracotta"@.len() == 27);
        reveal_strlit("minecraft:coral_plant");
        assert("minecraft:coral_plant"@.len() == 21);
        reveal_strlit("minecraft:base_coral_plant");
        assert("minecraft:base_coral_plant"@.len() == 26);
        reveal_strlit("minecraft:coral_fan");
        assert("minecraft:coral_fan"@.len() == 19);
        reveal_strlit("minecraft:base_coral_fan");
        assert("minecraft:base_coral_fan"@.len() == 24);
        reveal_strlit("minecraft:coral_wall_fan");
        assert("minecraft:coral_wall_fan"@.len() == 24);
        reveal_strlit("minecraft:base_coral_wall_fan");
        assert("minecraft:base_coral_wall_fan"@.len() == 29);
    }
    assert(kind_category("minecraft:coral_block"@, key.0) == Some(Category::Coral)) by {
        reveal_strlit("minecraft:stair");
        assert("minecraft:stair"@.len() == 15);
        reveal_strlit("minecraft:slab");
        assert("minecraft:slab"@.len() == 14);
        reveal_strlit("minecraft:wall");
        assert("minecraft:wall"@.len() == 14);
        reveal_strlit("minecraft:stained_glass_pane");
        assert("minecraft:stained_glass_pane"@.len() == 28);
        reveal_strlit("minecraft:iron_bars");
        assert("minecraft:iron_bars"@.len() == 19);
        reveal_strlit("minecraft:transparent");
        assert("minecraft:transparent"@.len() == 21);
        reveal_strlit("minecraft:stained_glass");
        assert("minecraft:stained_glass"@.len() == 23);
        reveal_strlit("minecraft:tinted_glass");
        assert("minecraft:tinted_glass"@.len() == 22);
        reveal_strlit("minecraft:glazed_terracotta");
        assert("minecraft:glazed_terracotta"@.len() == 27);
        reveal_strlit("minecraft:coral_plant");
        assert("minecraft:coral_plant"@.len() == 21);
        reveal_strlit("minecraft:base_coral_plant");
        assert("minecraft:base_coral_plant"@.len() == 26);
        reveal_strlit("minecraft:coral_fan");
        assert("minecraft:coral_fan"@.len() == 19);
        reveal_strlit("minecraft:base_coral_fan");
        assert("minecraft:base_coral_fan"@.len() == 24);
        reveal_strlit("minecraft:coral_wall_fan");
        assert("minecraft:coral_wall_fan"@.len() == 24);
        reveal_strlit("minecraft:base_coral_wall_fan");
        assert("minecraft:base_coral_wall_fan"@.len() == 29);
        reveal_strlit("minecraft:coral_block");
        assert("minecraft:coral_block"@.len() == 21);
        assert("minecraft:coral_block"@[10] != "minecraft:transparent"@[10]);
    }
}

/// The configuration key of each category, and no two share one.
pub proof fn law_category_keys()
    ensures
        category_key(Category::Solid) == "solid"@,
        category_key(Category::Glass) == "glass"@,
        category_key(Category::GlassPane) == "glass_pane"@,
        category_key(Category::Terracotta) == "terracotta"@,
        category_key(Category::Wall) == "wall"@,
        category_key(Category::Stair) == "stair"@,
        category_key(Category::Slab) == "slab"@,
        category_key(Category::Coral) == "coral"@,
        forall|a: Category, b: Category| #[trigger] category_key(a) == #[trigger] category_key(b) ==> a == b,
{
    reveal_strlit("solid");
    reveal_strlit("glass");
    reveal_strlit("glass_pane");
    reveal_strlit("terracotta");
    reveal_strlit("wall");
    reveal_strlit("stair");
    reveal_strlit("slab");
    reveal_strlit("coral");
    assert("solid"@.len() == 5 && "glass"@.len() == 5 && "glass_pane"@.len() == 10 && "terracotta"@.len() == 10);
    assert("wall"@.len() == 4 && "stair"@.len() == 5 && "slab"@.len() == 4 && "coral"@.len() == 5);
    assert("solid"@[0] != "glass"@[0] && "solid"@[0] != "coral"@[0] && "glass"@[0] != "coral"@[0]);
    assert("stair"@[1] != "solid"@[1] && "stair"@[0] != "glass"@[0] && "stair"@[0] != "coral"@[0]);
    assert("glass_pane"@[0] != "terracotta"@[0] && "wall"@[0] != "slab"@[0]);
}

/// A block that no category tag holds, that the blocks report does not
/// list and that has no state properties is categorized by its name's path
/// (the part after the namespace): "coral" anywhere, then the endings
/// `_stairs`, `_slab`, `_wall`, `_pane`, `glazed_terracotta`, `glass`.
pub proof fn law_names_decide_last(key: (Seq<char>, Seq<(Seq<char>, Seq<char>)>), mcdata: McData)
    requires
        in_no_category_tag(key.0, mcdata),
        mcdata.block_info(key.0) is None,
        key.1.len() == 0,
    ensures
        contains_seq(name_path(key.0), "coral"@) ==> detect_spec(key, mcdata) == Some(Category::Coral),
        !contains_seq(name_path(key.0), "coral"@) && ends_with(name_path(key.0), "_stairs"@) ==> detect_spec(key, mcdata)
            == Some(Category::Stair),
        !contains_seq(name_path(key.0), "coral"@) && !ends_with(name_path(key.0), "_stairs"@) && ends_with(
            name_path(key.0),
            "_slab"@,
        ) ==> detect_spec(key, mcdata) == Some(Category::Slab),
        !contains_seq(name_path(key.0), "coral"@) && !ends_with(name_path(key.0), "_stairs"@) && !ends_with(
            name_path(key.0),
            "_slab"@,
        ) && ends_with(name_path(key.0), "_wall"@) ==> detect_spec(key, mcdata) == Some(Category::Wall),
        !contains_seq(name_path(key.0), "coral"@) && !ends_with(name_path(key.0), "_stairs"@) && !ends_with(
            name_path(key.0),
            "_slab"@,
        ) && !ends_with(name_path(key.0), "_wall"@) && ends_with(name_path(key.0), "_pane"@) ==> detect_spec(key, mcdata)
            == Some(Category::GlassPane),
        !contains_seq(name_path(key.0), "coral"@) && !ends_with(name_path(key.0), "_stairs"@) && !ends_with(
            name_path(key.0),
            "_slab"@,
        ) && !ends_with(name_path(key.0), "_wall"@) && !ends_with(name_path(key.0), "_pane"@) && ends_with(
            name_path(key.0),
            "glazed_terracotta"@,
        ) ==> detect_spec(key, mcdata) == Some(Category::Terracotta),
        !contains_seq(name_path(key.0), "coral"@) && !ends_with(name_path(key.0), "_stairs"@) && !ends_with(
            name_path(key.0),
            "_slab"@,
        ) && !ends_with(name_path(key.0), "_wall"@) && !ends_with(name_path(key.0), "_pane"@) && !ends_with(
            name_path(key.0),
            "glazed_terracotta"@,
        ) && ends_with(name_path(key.0), "glass"@) ==> detect_spec(key, mcdata) == Some(Category::Glass),
{
    reveal(prop_value);
    assert(detect_by_tag_spec(key.0, mcdata) is None);
    assert(detect_by_definition_spec(key.0, mcdata) is None);
    assert(!has_prop(key.1, "facing"@) && prop_value(key.1, "type"@) is None && !has_prop(key.1, "north"@));
    assert(detect_by_signature_spec(key.0, key.1) is None);
}

/// A block that no category tag holds and that the blocks report does not
/// list is categorized by its state properties: `facing`, `half` and
/// `shape` make a stair; a `type` of top, bottom or double a slab; four
/// sides of none, low or tall with `up` a wall; four boolean sides a pane
/// when "pane" or "glass" is in the name.
pub proof fn law_properties_decide_next(key: (Seq<char>, Seq<(Seq<char>, Seq<char>)>), mcdata: McData)
    requires
        in_no_category_tag(key.0, mcdata),
        mcdata.block_info(key.0) is None,
    ensures
        has_prop(key.1, "facing"@) && has_prop(key.1, "half"@) && has_prop(key.1, "shape"@) ==> detect_spec(key, mcdata)
            == Some(Category::Stair),
        !(has_prop(key.1, "facing"@) && has_prop(key.1, "half"@) && has_prop(key.1, "shape"@)) && (prop_value(
            key.1,
            "type"@,
        ) == Some("top"@) || prop_value(key.1, "type"@) == Some("bottom"@) || prop_value(key.1, "type"@) == Some(
            "double"@,
        )) ==> detect_spec(key, mcdata) == Some(Category::Slab),
        !has_prop(key.1, "facing"@) && !has_prop(key.1, "type"@) && has_four_sides(key.1) && sides_all(key.1, true)
            && has_prop(key.1, "up"@) ==> detect_spec(key, mcdata) == Some(Category::Wall),
        !has_prop(key.1, "facing"@) && !has_prop(key.1, "type"@) && has_four_sides(key.1) && sides_all(key.1, false)
            && !sides_all(key.1, true) && (contains_seq(key.0, "pane"@) || contains_seq(key.0, "glass"@))
            ==> detect_spec(key, mcdata) == Some(Category::GlassPane),
{
    assert(detect_by_tag_spec(key.0, mcdata) is None);
    assert(detect_by_definition_spec(key.0, mcdata) is None);
}

/// Blocks that may be offered as solid building blocks: their class is the
/// featureless block (or terracotta) and they have no state properties.
pub open spec fn is_solid_candidate_spec(name: Seq<char>, mcdata: McData) -> bool {
    match mcdata.block_info(name) {
        Some(info) => match info.definition.kind {
            Some(kind) => (kind@ == "minecraft:block"@ || kind@ == "minecraft:terracotta"@)
                && info.properties@.len() == 0,
            None => false,
        },
        None => false,
    }
}

/// A block may be offered as solid exactly when the blocks report lists it
/// with the plain block (or terracotta) class and no state properties.
pub proof fn law_solid_candidates_are_plain_blocks(name: Seq<char>, mcdata: McData)
    ensures
        is_solid_candidate_spec(name, mcdata) <==> (report_kind(name, mcdata) == Some("minecraft:block"@)
            || report_kind(name, mcdata) == Some("minecraft:terracotta"@)) && mcdata.block_info(name)->Some_0.properties@.len()
            == 0,
{
}

/// Detect the intrinsic category of a block state, layered from most to
/// least authoritative: vanilla tag, blocks report definition type, state
/// property signature, name pattern.
pub fn detect(state: &BlockStateKey, mcdata: &McData) -> (r: Option<Category>)
    ensures
        r == detect_spec(state@, *mcdata),
{
    let name = state.name();
    if let Some(c) = detect_by_tag(name, mcdata) {
        return Some(c);
    }
    if let Some(c) = detect_by_definition(name, mcdata) {
        return Some(c);
    }
    if let Some(c) = detect_by_signature(state) {
        return Some(c);
    }
    detect_by_name(name)
}

/// Whether a block could be normalized as a solid building block.
pub fn is_solid_candidate(name: &str, mcdata: &McData) -> (r: bool)
    ensures
        r == is_solid_candidate_spec(name@, *mcdata),
{
    match mcdata.block(name) {
        Some(info) => match &info.definition.kind {
            Some(kind) => (str_eq(kind.as_str(), "minecraft:block") || str_eq(
                kind.as_str(),
                "minecraft:terracotta",
            )) && info.properties.len() == 0,
            None => false,
        },
        None => false,
    }
}

fn detect_by_tag(name: &str, mcdata: &McData) -> (r: Option<Category>)
    ensures
        r == detect_by_tag_spec(name@, *mcdata),
{
    if mcdata.tag_contains("stairs", name) {
        Some(Category::Stair)
    } else if mcdata.tag_contains("slabs", name) {
        Some(Category::Slab)
    } else if mcdata.tag_contains("walls", name) {
        Some(Category::Wall)
    } else if mcdata.tag_contains("glazed_terracotta", name) {
        Some(Category::Terracotta)
    } else if mcdata.tag_contains("impermeable", name) {
        Some(Category::Glass)
    } else if mcdata.tag_contains("corals", name) || mcdata.tag_contains("coral_blocks", name)
        || mcdata.tag_contains("wall_corals", name) {
        Some(Category::Coral)
    } else {
        None
    }
}

fn detect_by_definition(name: &str, mcdata: &McData) -> (r: Option<Category>)
    ensures
        r == detect_by_definition_spec(name@, *mcdata),
{
    let info = match mcdata.block(name) {
        Some(info) => info,
        None => return None,
    };
    let kind = match &info.definition.kind {
        Some(kind) => kind.as_str(),
        None => return None,
    };
    if str_eq(kind, "minecraft:stair") {
        Some(Category::Stair)
    } else if str_eq(kind, "minecraft:slab") {
        Some(Category::Slab)
    } else if str_eq(kind, "minecraft:wall") {
        Some(Category::Wall)
    } else if str_eq(kind, "minecraft:stained_glass_pane") {
        Some(Category::GlassPane)
    } else if str_eq(kind, "minecraft:iron_bars") && chars_contain(
        &chars_of(name),
        &chars_of("glass"),
    ) {
        Some(Category::GlassPane)
    } else if str_eq(kind, "minecraft:transparent") || str_eq(kind, "minecraft:stained_glass")
        || str_eq(kind, "minecraft:tinted_glass") {
        Some(Category::Glass)
    } else if str_eq(kind, "minecraft:glazed_terracotta") {
        Some(Category::Terracotta)
    } else if str_eq(kind, "minecraft:coral_plant") || str_eq(kind, "minecraft:base_coral_plant")
        || str_eq(kind, "minecraft:coral_fan") || str_eq(kind, "minecraft:base_coral_fan")
        || str_eq(kind, "minecraft:coral_wall_fan") || str_eq(
        kind,
        "minecraft:base_coral_wall_fan",
    ) || str_eq(kind, "minecraft:coral_block") {
        Some(Category::Coral)
    } else {
        None
    }
}

/// The value of the first property named `n`, if any.
fn value_of(ps: &[(String, String)], n: &str) -> (r: Option<String>)
    ensures
        match r {
            Some(v) => prop_value(crate::order::pairs_view(ps@), n@) == Some(v@),
            None => prop_value(crate::order::pairs_view(ps@), n@) is None,
        },
{
    let ghost pv = crate::order::pairs_view(ps@);
    let mut i: usize = 0;
    while i < ps.len()
        invariant
            i <= ps.len(),
            pv == crate::order::pairs_view(ps@),
            forall|j: int| 0 <= j < i ==> #[trigger] pv[j].0 != n@,
        decreases ps.len() - i,
    {
        if str_eq(ps[i].0.as_str(), n) {
            proof {
                reveal(prop_value);
                assert(pv[i as int].0 == n@);
                let k = choose|k: int|
                    0 <= k < pv.len() && #[trigger] pv[k].0 == n@ && forall|j: int|
                        0 <= j < k ==> #[trigger] pv[j].0 != n@;
                assert(0 <= k < pv.len() && pv[k].0 == n@ && forall|j: int| 0 <= j < k ==> #[trigger] pv[j].0 != n@);
                if k < i {
                    assert(pv[k].0 != n@);
                }
                if i < k {
                    assert(pv[i as int].0 != n@);
                }
                assert(k == i);
                assert(prop_value(pv, n@) == Some(pv[i as int].1));
                assert(pv[i as int].1 == ps@[i as int].1@);
            }
            let v = ps[i].1.clone();
            return Some(v);
        }
        i += 1;
    }
    proof {
        reveal(prop_value);
    }
    None
}

fn is_one_of(v: &String, a: &str, b: &str, c: &str) -> (r: bool)
    ensures
        r == (v@ == a@ || v@ == b@ || v@ == c@),
{
    str_eq(v.as_str(), a) || str_eq(v.as_str(), b) || str_eq(v.as_str(), c)
}

fn sides_check(n: &String, e: &String, s: &String, w: &String, wall: bool) -> (r: bool)
    ensures
        r == if wall {
            is_wall_side(n@) && is_wall_side(e@) && is_wall_side(s@) && is_wall_side(w@)
        } else {
            is_bool_value(n@) && is_bool_value(e@) && is_bool_value(s@) && is_bool_value(w@)
        },
{
    if wall {
        is_one_of(n, "none", "low", "tall") && is_one_of(e, "none", "low", "tall") && is_one_of(
            s,
            "none",
            "low",
            "tall",
        ) && is_one_of(w, "none", "low", "tall")
    } else {
        is_one_of(n, "true", "false", "false") && is_one_of(e, "true", "false", "false")
            && is_one_of(s, "true", "false", "false") && is_one_of(w, "true", "false", "false")
    }
}

fn pane_hint(name: &str) -> (r: bool)
    ensures
        r == (contains_seq(name@, "pane"@) || contains_seq(name@, "glass"@)),
{
    let chars = chars_of(name);
    chars_contain(&chars, &chars_of("pane")) || chars_contain(&chars, &chars_of("glass"))
}

#[verifier::rlimit(40)]
fn detect_by_signature(state: &BlockStateKey) -> (r: Option<Category>)
    ensures
        r == detect_by_signature_spec(state@.0, state@.1),
{
    let ps = state.properties();
    let name = state.name();
    let ghost pv = state@.1;
    if value_of(ps, "facing").is_some() && value_of(ps, "half").is_some() && value_of(
        ps,
        "shape",
    ).is_some() {
        return Some(Category::Stair);
    }
    if let Some(t) = value_of(ps, "type") {
        if is_one_of(&t, "top", "bottom", "double") {
            return Some(Category::Slab);
        }
    }
    let north = value_of(ps, "north");
    let east = value_of(ps, "east");
    let south = value_of(ps, "south");
    let west = value_of(ps, "west");
    match (north, east, south, west) {
        (Some(n), Some(e), Some(s), Some(w)) => {
            assert(has_four_sides(pv));
            if sides_check(&n, &e, &s, &w, true) && value_of(ps, "up").is_some() {
                return Some(Category::Wall);
            }
            if sides_check(&n, &e, &s, &w, false) && pane_hint(name) {
                return Some(Category::GlassPane);
            }
            None
        },
        _ => {
            assert(!has_four_sides(pv));
            None
        },
    }
}

fn detect_by_name(name: &str) -> (r: Option<Category>)
    ensures
        r == detect_by_name_spec(name@),
{
    let v = chars_of(name);
    let path = match find_char(&v, ':') {
        Some(k) => {
            assert(v@.skip(k + 1) == v@.subrange(k + 1, v@.len() as int));
            sub_chars(&v, k + 1, v.len())
        },
        None => v,
    };
    if chars_contain(&path, &chars_of("coral")) {
        Some(Category::Coral)
    } else if chars_end_with(&path, &chars_of("_stairs")) {
        Some(Category::Stair)
    } else if chars_end_with(&path, &chars_of("_slab")) {
        Some(Category::Slab)
    } else if chars_end_with(&path, &chars_of("_wall")) {
        Some(Category::Wall)
    } else if chars_end_with(&path, &chars_of("_pane")) {
        Some(Category::GlassPane)
    } else if chars_end_with(&path, &chars_of("glazed_terracotta")) {
        Some(Category::Terracotta)
    } else if chars_end_with(&path, &chars_of("glass")) {
        Some(Category::Glass)
    } else {
        None
    }
}

} // verus!
