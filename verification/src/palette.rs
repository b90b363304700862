use vstd::prelude::*;

use std::path::PathBuf;

use crate::block::{parse_block_id, BlockId, BlockIdError, BlockIdErrorKind};
use crate::category::Category;
use crate::lookup::{strings_view};
use crate::mcdata::McData;
use crate::order::{compare_str, lemma_order_trans, seq_order, Order};
use crate::overrides::{parse_override_spec, OverrideError, OverrideErrorKind, OverrideSpec};
use crate::text::{chars_of, push_char, starts_with, string_from_range, sub_chars};

verus! {

/// Category targets, later entries winning over earlier ones.
pub open spec fn targets_map(s: Seq<(Category, BlockId)>) -> Map<Category, Seq<char>>
    decreases s.len(),
{
    if s.len() == 0 {
        Map::empty()
    } else {
        targets_map(s.drop_last()).insert(s.last().0, s.last().1@)
    }
}

/// The palette target of each configured category.
#[derive(Debug, Default)]
pub struct TargetMap {
    entries: Vec<(Category, BlockId)>,
}

impl View for TargetMap {
    type V = Map<Category, Seq<char>>;

    closed spec fn view(&self) -> Map<Category, Seq<char>> {
        targets_map(self.entries@)
    }
}

impl TargetMap {
    pub fn new() -> (r: TargetMap)
        ensures
            r@ == Map::<Category, Seq<char>>::empty(),
    {
        TargetMap { entries: Vec::new() }
    }

    /// Set the target of `category`, replacing any earlier one.
    pub fn insert(&mut self, category: Category, id: BlockId)
        ensures
            final(self)@ == old(self)@.insert(category, id@),
    {
        let ghost old_entries = self.entries@;
        self.entries.push((category, id));
        assert(self.entries@.drop_last() == old_entries);
    }

    /// The target of `category`, if configured.
    pub fn get(&self, category: &Category) -> (r: Option<&BlockId>)
        ensures
            match r {
                Some(id) => self@.dom().contains(*category) && self@[*category] == id@,
                None => !self@.dom().contains(*category),
            },
    {
        let ghost s = self.entries@;
        let mut i = self.entries.len();
        assert(s.take(i as int) == s);
        while i > 0
            invariant
                i <= s.len(),
                s == self.entries@,
                targets_map(s).dom().contains(*category) == targets_map(s.take(i as int)).dom().contains(*category),
                targets_map(s).dom().contains(*category) ==> targets_map(s)[*category] == targets_map(s.take(i as int))[*category],
            decreases i,
        {
            assert(s.take(i as int).drop_last() == s.take(i - 1));
            if self.entries[i - 1].0 == *category {
                return Some(&self.entries[i - 1].1);
            }
            i -= 1;
        }
        None
    }
}

/// Which member list of the configuration.
#[derive(Debug, Clone, Copy, PartialEq, Eq, Structural)]
pub enum MemberList {
    Solid,
    Protected,
}

/// The configuration name of a member list.
pub open spec fn member_list_key(list: MemberList) -> Seq<char> {
    match list {
        MemberList::Solid => "solid"@,
        MemberList::Protected => "protected"@,
    }
}

impl MemberList {
    /// The configuration name of this member list.
    pub fn key(self) -> (r: &'static str)
        ensures
            r@ == member_list_key(self),
    {
        match self {
            MemberList::Solid => "solid",
            MemberList::Protected => "protected",
        }
    }
}

/// A configured set of blocks: explicit ids plus `#minecraft:...` vanilla
/// tag references resolved against the extracted game data.
#[derive(Debug, Default)]
pub struct MemberSet {
    ids: Vec<BlockId>,
    tags: Vec<String>,
}

pub open spec fn id_seq_view(v: Seq<BlockId>) -> Seq<Seq<char>> {
    v.map_values(|id: BlockId| id@)
}

impl MemberSet {
    /// The explicit member ids.
    pub closed spec fn ids_view(&self) -> Seq<Seq<char>> {
        id_seq_view(self.ids@)
    }

    /// The referenced tag names, without `#minecraft:`.
    pub closed spec fn tags_view(&self) -> Seq<Seq<char>> {
        strings_view(self.tags@)
    }

    /// Block `id` belongs to the set: listed, or held by a referenced tag.
    pub open spec fn has(&self, id: Seq<char>, mcdata: McData) -> bool {
        self.ids_view().contains(id) || exists|i: int|
            0 <= i < self.tags_view().len() && mcdata.tag_has(#[trigger] self.tags_view()[i], id)
    }

    pub fn new() -> (r: MemberSet)
        ensures
            r.ids_view().len() == 0,
            r.tags_view().len() == 0,
    {
        MemberSet { ids: Vec::new(), tags: Vec::new() }
    }

    pub fn insert(&mut self, id: BlockId)
        ensures
            final(self).ids_view() == old(self).ids_view().push(id@),
            final(self).tags_view() == old(self).tags_view(),
    {
        let ghost old_ids = self.ids@;
        self.ids.push(id);
        assert(id_seq_view(self.ids@) =~= id_seq_view(old_ids).push(id@));
    }

    pub fn has_entries(&self) -> (r: bool)
        ensures
            r == (self.ids_view().len() > 0 || self.tags_view().len() > 0),
    {
        self.ids.len() > 0 || self.tags.len() > 0
    }

    pub fn contains(&self, id: &BlockId, mcdata: &McData) -> (r: bool)
        ensures
            r == self.has(id@, *mcdata),
    {
        let mut i: usize = 0;
        while i < self.ids.len()
            invariant
                i <= self.ids.len(),
                forall|j: int| 0 <= j < i ==> #[trigger] self.ids@[j]@ != id@,
            decreases self.ids.len() - i,
        {
            if self.ids[i].same(id) {
                assert(id_seq_view(self.ids@)[i as int] == id@);
                return true;
            }
            i += 1;
        }
        assert(!id_seq_view(self.ids@).contains(id@)) by {
            assert forall|j: int| 0 <= j < id_seq_view(self.ids@).len() implies id_seq_view(self.ids@)[j] != id@ by {
                assert(id_seq_view(self.ids@)[j] == self.ids@[j]@);
            }
        }
        let mut k: usize = 0;
        while k < self.tags.len()
            invariant
                k <= self.tags.len(),
                forall|j: int| 0 <= j < k ==> !mcdata.tag_has(#[trigger] strings_view(self.tags@)[j], id@),
            decreases self.tags.len() - k,
        {
            if mcdata.tag_contains(self.tags[k].as_str(), id.as_str()) {
                assert(mcdata.tag_has(self.tags_view()[k as int], id@));
                return true;
            }
            k += 1;
        }
        false
    }
}

/// Why a palette configuration was refused.
#[derive(Debug, Clone, Copy, PartialEq, Eq, Structural)]
pub enum PaletteErrorKind {
    /// A category target is not a valid block id.
    InvalidTarget(Category, BlockIdErrorKind),
    /// The coral family is empty or holds other than `a-z`, `0-9`, `_`.
    InvalidCoralFamily,
    /// A `#` member does not reference a `minecraft:` tag.
    InvalidTagReference(MemberList),
    /// A member is not a valid block id.
    InvalidMember(MemberList, BlockIdErrorKind),
    /// An override is malformed.
    InvalidOverride(OverrideErrorKind),
}

/// A refused palette configuration, with what it refused.
#[derive(Debug, Clone)]
pub enum PaletteError {
    InvalidTarget { category: Category, cause: BlockIdError },
    InvalidCoralFamily { family: String },
    InvalidTagReference { list: MemberList, entry: String },
    InvalidMember { list: MemberList, cause: BlockIdError },
    InvalidOverride { cause: OverrideError },
}

impl PaletteError {
    /// Why the configuration was refused.
    pub fn get_kind(&self) -> (r: PaletteErrorKind)
        ensures
            r == self.kind(),
    {
        match self {
            PaletteError::InvalidTarget { category, cause } => PaletteErrorKind::InvalidTarget(*category, cause.kind),
            PaletteError::InvalidCoralFamily { .. } => PaletteErrorKind::InvalidCoralFamily,
            PaletteError::InvalidTagReference { list, .. } => PaletteErrorKind::InvalidTagReference(*list),
            PaletteError::InvalidMember { list, cause } => PaletteErrorKind::InvalidMember(*list, cause.kind),
            PaletteError::InvalidOverride { cause } => PaletteErrorKind::InvalidOverride(cause.kind),
        }
    }

    pub open spec fn kind(self) -> PaletteErrorKind {
        match self {
            PaletteError::InvalidTarget { category, cause } => PaletteErrorKind::InvalidTarget(
                category,
                cause.kind,
            ),
            PaletteError::InvalidCoralFamily { .. } => PaletteErrorKind::InvalidCoralFamily,
            PaletteError::InvalidTagReference { list, .. } => PaletteErrorKind::InvalidTagReference(
                list,
            ),
            PaletteError::InvalidMember { list, cause } => PaletteErrorKind::InvalidMember(
                list,
                cause.kind,
            ),
            PaletteError::InvalidOverride { cause } => PaletteErrorKind::InvalidOverride(cause.kind),
        }
    }
}

/// `[data]` of the configuration file.
#[derive(Debug, Default)]
pub struct RawData {
    pub jar: Option<PathBuf>,
}

/// `[palette]` of the configuration file.
#[derive(Debug, Default)]
pub struct RawPalette {
    pub solid: Option<String>,
    pub glass: Option<String>,
    pub glass_pane: Option<String>,
    pub terracotta: Option<String>,
    pub wall: Option<String>,
    pub stair: Option<String>,
    pub slab: Option<String>,
    pub coral: Option<String>,
}

/// A `members` list of the configuration file.
#[derive(Debug, Default)]
pub struct RawMembers {
    pub members: Vec<String>,
}

/// `[categories]` of the configuration file.
#[derive(Debug, Default)]
pub struct RawCategories {
    pub solid: RawMembers,
    pub protected: RawMembers,
}

/// A configuration file as read: `[overrides]` in key order, each key once
/// (see [`in_key_order`]).
#[derive(Debug, Default)]
pub struct RawConfig {
    pub data: RawData,
    pub palette: RawPalette,
    pub categories: RawCategories,
    pub overrides: Vec<(String, String)>,
}

/// A parsed and validated palette configuration.
#[derive(Debug)]
pub struct Palette {
    pub targets: TargetMap,
    /// Coral is normalized to a family (e.g. `tube`) rather than a block,
    /// preserving each block's shape and dead/alive state.
    pub coral_family: Option<String>,
    /// Standing solid selection: replaced without the interactive prompt.
    pub solid_members: MemberSet,
    /// Blocks no category may replace; explicit overrides still apply.
    pub protected: MemberSet,
    pub overrides: Vec<OverrideSpec>,
    pub jar: Option<PathBuf>,
}

impl Default for Palette {
    fn default() -> (r: Palette)
        ensures
            r.targets@ == Map::<Category, Seq<char>>::empty(),
            r.coral_family is None,
            r.solid_members.ids_view().len() == 0,
            r.solid_members.tags_view().len() == 0,
            r.protected.ids_view().len() == 0,
            r.protected.tags_view().len() == 0,
            r.overrides@.len() == 0,
            r.jar is None,
    {
        Palette {
            targets: TargetMap::new(),
            coral_family: None,
            solid_members: MemberSet::new(),
            protected: MemberSet::new(),
            overrides: Vec::new(),
            jar: None,
        }
    }
}

/// The configured targets in the order they are checked.
pub open spec fn raw_targets(p: RawPalette) -> Seq<(Category, Option<String>)> {
    seq![
        (Category::Solid, p.solid),
        (Category::Glass, p.glass),
        (Category::GlassPane, p.glass_pane),
        (Category::Terracotta, p.terracotta),
        (Category::Wall, p.wall),
        (Category::Stair, p.stair),
        (Category::Slab, p.slab),
    ]
}

/// The targets of the given categories, or the first invalid one.
pub open spec fn parse_targets_spec(ts: Seq<(Category, Option<String>)>) -> Result<
    Map<Category, Seq<char>>,
    PaletteErrorKind,
>
    decreases ts.len(),
{
    if ts.len() == 0 {
        Ok(Map::empty())
    } else {
        match parse_targets_spec(ts.drop_last()) {
            Err(e) => Err(e),
            Ok(m) => match ts.last().1 {
                None => Ok(m),
                Some(t) => match parse_block_id(t@) {
                    Ok(id) => Ok(m.insert(ts.last().0, id)),
                    Err(k) => Err(PaletteErrorKind::InvalidTarget(ts.last().0, k)),
                },
            },
        }
    }
}

/// The configuration key a category's target is read from; coral has none
/// (it is configured as a family).
pub open spec fn configured_target(p: RawPalette, c: Category) -> Option<String> {
    match c {
        Category::Solid => p.solid,
        Category::Glass => p.glass,
        Category::GlassPane => p.glass_pane,
        Category::Terracotta => p.terracotta,
        Category::Wall => p.wall,
        Category::Stair => p.stair,
        Category::Slab => p.slab,
        Category::Coral => None,
    }
}

proof fn lemma_targets_parsed(ts: Seq<(Category, Option<String>)>)
    requires
        parse_targets_spec(ts) is Ok,
    ensures
        forall|c: Category|
            #[trigger] parse_targets_spec(ts)->Ok_0.dom().contains(c) ==> exists|i: int|
                0 <= i < ts.len() && ts[i].0 == c && ts[i].1 is Some,
        forall|i: int|
            0 <= i < ts.len() && (#[trigger] ts[i]).1 is Some ==> parse_targets_spec(ts)->Ok_0.dom().contains(ts[i].0),
        forall|i: int|
            0 <= i < ts.len() && (#[trigger] ts[i]).1 is Some && (forall|j: int| i < j < ts.len() ==> ts[j].0 != ts[i].0)
                ==> parse_block_id(ts[i].1->Some_0@) == Ok::<Seq<char>, BlockIdErrorKind>(
                parse_targets_spec(ts)->Ok_0[ts[i].0],
            ),
    decreases ts.len(),
{
    if ts.len() > 0 {
        let r = ts.drop_last();
        lemma_targets_parsed(r);
        let m = parse_targets_spec(r)->Ok_0;
        let n = ts.len() - 1;
        assert forall|c: Category| #[trigger] parse_targets_spec(ts)->Ok_0.dom().contains(c) implies exists|i: int|
            0 <= i < ts.len() && ts[i].0 == c && ts[i].1 is Some by {
            if m.dom().contains(c) {
                let i = choose|i: int| 0 <= i < r.len() && r[i].0 == c && r[i].1 is Some;
                assert(ts[i] == r[i]);
            } else {
                assert(ts[n].0 == c && ts[n].1 is Some);
            }
        }
        assert forall|i: int| 0 <= i < ts.len() && (#[trigger] ts[i]).1 is Some implies parse_targets_spec(ts)->Ok_0.dom().contains(ts[i].0) by {
            if i < n {
                assert(r[i] == ts[i]);
            }
        }
        assert forall|i: int|
            0 <= i < ts.len() && (#[trigger] ts[i]).1 is Some && (forall|j: int| i < j < ts.len() ==> ts[j].0 != ts[i].0)
                implies parse_block_id(ts[i].1->Some_0@) == Ok::<Seq<char>, BlockIdErrorKind>(
                parse_targets_spec(ts)->Ok_0[ts[i].0],
            ) by {
            if i < n {
                assert(r[i] == ts[i]);
                assert forall|j: int| i < j < r.len() implies r[j].0 != r[i].0 by {
                    assert(r[j] == ts[j]);
                }
                assert(ts[n].0 != ts[i].0);
            }
        }
    }
}

/// Each category's target comes from its own configuration key: a valid
/// configuration has a target for a category exactly when that key is set,
/// and the target is the key's block id, parsed; coral gets no target (it
/// is a family).
pub proof fn law_each_target_comes_from_its_own_key(raw: RawConfig, p: Palette)
    requires
        palette_matches(raw, p),
    ensures
        forall|c: Category| #[trigger] p.targets@.dom().contains(c) <==> configured_target(raw.palette, c) is Some,
        forall|c: Category|
            #[trigger] configured_target(raw.palette, c) is Some ==> parse_block_id(
                configured_target(raw.palette, c)->Some_0@,
            ) == Ok::<Seq<char>, BlockIdErrorKind>(p.targets@[c]),
{
    let ts = raw_targets(raw.palette);
    lemma_targets_parsed(ts);
    assert forall|c: Category| #[trigger] p.targets@.dom().contains(c) <==> configured_target(raw.palette, c) is Some by {
        if p.targets@.dom().contains(c) {
            let i = choose|i: int| 0 <= i < ts.len() && ts[i].0 == c && ts[i].1 is Some;
            assert(configured_target(raw.palette, c) == ts[i].1);
        }
        let i: int = match c {
            Category::Solid => 0,
            Category::Glass => 1,
            Category::GlassPane => 2,
            Category::Terracotta => 3,
            Category::Wall => 4,
            Category::Stair => 5,
            Category::Slab => 6,
            Category::Coral => 0,
        };
        if configured_target(raw.palette, c) is Some {
            assert(ts[i].0 == c && ts[i].1 == configured_target(raw.palette, c));
        }
    }
    assert forall|c: Category| #[trigger] configured_target(raw.palette, c) is Some implies parse_block_id(
        configured_target(raw.palette, c)->Some_0@,
    ) == Ok::<Seq<char>, BlockIdErrorKind>(p.targets@[c]) by {
        let i: int = match c {
            Category::Solid => 0,
            Category::Glass => 1,
            Category::GlassPane => 2,
            Category::Terracotta => 3,
            Category::Wall => 4,
            Category::Stair => 5,
            Category::Slab => 6,
            Category::Coral => 0,
        };
        assert(ts[i].0 == c && ts[i].1 == configured_target(raw.palette, c));
        assert(forall|j: int| i < j < ts.len() ==> ts[j].0 != ts[i].0);
    }
}

/// A member entry is a block id rather than a `#` tag reference.
pub open spec fn names_a_block(e: Seq<char>) -> bool {
    e.len() == 0 || e[0] != '#'
}

proof fn lemma_members_parsed(es: Seq<Seq<char>>, list: MemberList)
    requires
        parse_members_spec(es, list) is Ok,
    ensures
        forall|k: int|
            0 <= k < es.len() && names_a_block(#[trigger] es[k]) ==> parse_block_id(es[k]) is Ok
                && parse_members_spec(es, list)->Ok_0.0.contains(parse_block_id(es[k])->Ok_0),
        forall|k: int|
            0 <= k < es.len() && !names_a_block(#[trigger] es[k]) ==> starts_with(es[k].drop_first(), "minecraft:"@)
                && parse_members_spec(es, list)->Ok_0.1.contains(es[k].drop_first().skip(10)),
    decreases es.len(),
{
    if es.len() > 0 {
        let r = es.drop_last();
        lemma_members_parsed(r, list);
        let acc = parse_members_spec(r, list)->Ok_0;
        let all = parse_members_spec(es, list)->Ok_0;
        assert forall|x: Seq<char>| acc.0.contains(x) implies all.0.contains(x) by {
            let i = choose|i: int| 0 <= i < acc.0.len() && acc.0[i] == x;
            assert(all.0[i] == x);
        }
        assert forall|x: Seq<char>| acc.1.contains(x) implies all.1.contains(x) by {
            let i = choose|i: int| 0 <= i < acc.1.len() && acc.1[i] == x;
            assert(all.1[i] == x);
        }
        assert forall|k: int| 0 <= k < es.len() - 1 implies #[trigger] es[k] == r[k] by {}
        let n = es.len() - 1;
        if names_a_block(es[n]) {
            assert(all.0[all.0.len() - 1] == parse_block_id(es[n])->Ok_0);
        } else {
            assert(all.1[all.1.len() - 1] == es[n].drop_first().skip(10));
        }
    }
}

/// Each member list comes from its own configuration list: every block id
/// listed under `[categories.solid]` (or `.protected`) belongs to the
/// palette's solid members (or protected set), and so does every block of a
/// `#minecraft:` tag listed there.
pub proof fn law_member_lists_come_from_their_own_keys(raw: RawConfig, p: Palette, mcdata: McData)
    requires
        palette_matches(raw, p),
    ensures
        forall|k: int|
            0 <= k < raw.categories.solid.members@.len() && names_a_block(#[trigger] raw.categories.solid.members@[k]@)
                ==> p.solid_members.has(parse_block_id(raw.categories.solid.members@[k]@)->Ok_0, mcdata),
        forall|k: int|
            0 <= k < raw.categories.protected.members@.len() && names_a_block(
                #[trigger] raw.categories.protected.members@[k]@,
            ) ==> p.protected.has(parse_block_id(raw.categories.protected.members@[k]@)->Ok_0, mcdata),
        forall|k: int, id: Seq<char>|
            0 <= k < raw.categories.solid.members@.len() && !names_a_block(#[trigger] raw.categories.solid.members@[k]@)
                && #[trigger] mcdata.tag_has(raw.categories.solid.members@[k]@.drop_first().skip(10), id)
                ==> p.solid_members.has(id, mcdata),
        forall|k: int, id: Seq<char>|
            0 <= k < raw.categories.protected.members@.len() && !names_a_block(
                #[trigger] raw.categories.protected.members@[k]@,
            ) && #[trigger] mcdata.tag_has(raw.categories.protected.members@[k]@.drop_first().skip(10), id)
                ==> p.protected.has(id, mcdata),
{
    let se = strings_view(raw.categories.solid.members@);
    let pe = strings_view(raw.categories.protected.members@);
    lemma_members_parsed(se, MemberList::Solid);
    lemma_members_parsed(pe, MemberList::Protected);
    assert forall|k: int|
        0 <= k < raw.categories.solid.members@.len() && names_a_block(#[trigger] raw.categories.solid.members@[k]@)
            implies p.solid_members.has(parse_block_id(raw.categories.solid.members@[k]@)->Ok_0, mcdata) by {
        assert(se[k] == raw.categories.solid.members@[k]@);
    }
    assert forall|k: int|
        0 <= k < raw.categories.protected.members@.len() && names_a_block(
            #[trigger] raw.categories.protected.members@[k]@,
        ) implies p.protected.has(parse_block_id(raw.categories.protected.members@[k]@)->Ok_0, mcdata) by {
        assert(pe[k] == raw.categories.protected.members@[k]@);
    }
    assert forall|k: int, id: Seq<char>|
        0 <= k < raw.categories.solid.members@.len() && !names_a_block(#[trigger] raw.categories.solid.members@[k]@)
            && #[trigger] mcdata.tag_has(raw.categories.solid.members@[k]@.drop_first().skip(10), id)
            implies p.solid_members.has(id, mcdata) by {
        assert(se[k] == raw.categories.solid.members@[k]@);
        let t = se[k].drop_first().skip(10);
        let i = choose|i: int| 0 <= i < p.solid_members.tags_view().len() && p.solid_members.tags_view()[i] == t;
        assert(mcdata.tag_has(p.solid_members.tags_view()[i], id));
    }
    assert forall|k: int, id: Seq<char>|
        0 <= k < raw.categories.protected.members@.len() && !names_a_block(
            #[trigger] raw.categories.protected.members@[k]@,
        ) && #[trigger] mcdata.tag_has(raw.categories.protected.members@[k]@.drop_first().skip(10), id)
            implies p.protected.has(id, mcdata) by {
        assert(pe[k] == raw.categories.protected.members@[k]@);
        let t = pe[k].drop_first().skip(10);
        let i = choose|i: int| 0 <= i < p.protected.tags_view().len() && p.protected.tags_view()[i] == t;
        assert(mcdata.tag_has(p.protected.tags_view()[i], id));
    }
}

pub open spec fn is_family_char(c: char) -> bool {
    ('a' <= c && c <= 'z') || ('0' <= c && c <= '9') || c == '_'
}

/// A coral family name such as `tube`.
pub open spec fn valid_family(f: Seq<char>) -> bool {
    f.len() > 0 && forall|i: int| 0 <= i < f.len() ==> is_family_char(#[trigger] f[i])
}

/// One member entry: a tag reference (`true`, the tag name) or a block id
/// (`false`, the canonical id).
pub open spec fn member_entry_spec(e: Seq<char>, list: MemberList) -> Result<
    (bool, Seq<char>),
    PaletteErrorKind,
> {
    if e.len() > 0 && e[0] == '#' {
        if starts_with(e.drop_first(), "minecraft:"@) {
            Ok((true, e.drop_first().skip(10)))
        } else {
            Err(PaletteErrorKind::InvalidTagReference(list))
        }
    } else {
        match parse_block_id(e) {
            Ok(id) => Ok((false, id)),
            Err(k) => Err(PaletteErrorKind::InvalidMember(list, k)),
        }
    }
}

/// The ids and tag names of a member list, or its first invalid entry.
pub open spec fn parse_members_spec(es: Seq<Seq<char>>, list: MemberList) -> Result<
    (Seq<Seq<char>>, Seq<Seq<char>>),
    PaletteErrorKind,
>
    decreases es.len(),
{
    if es.len() == 0 {
        Ok((Seq::empty(), Seq::empty()))
    } else {
        match parse_members_spec(es.drop_last(), list) {
            Err(e) => Err(e),
            Ok(acc) => match member_entry_spec(es.last(), list) {
                Err(e) => Err(e),
                Ok(entry) => if entry.0 {
                    Ok((acc.0, acc.1.push(entry.1)))
                } else {
                    Ok((acc.0.push(entry.1), acc.1))
                },
            },
        }
    }
}

/// The override text of a configured `source = target` pair.
pub open spec fn override_text(p: (Seq<char>, Seq<char>)) -> Seq<char> {
    p.0 + seq!['='] + p.1
}

/// Whether the keys of overrides strictly ascend in `str` order, as the keys
/// of a configuration file's `[overrides]` table are read: sorted, each once.
pub open spec fn in_key_order(os: Seq<(Seq<char>, Seq<char>)>) -> bool {
    forall|i: int, j: int| 0 <= i < j < os.len() ==> seq_order(#[trigger] os[i].0, #[trigger] os[j].0) == Order::Less
}

/// Whether the keys of overrides strictly ascend in `str` order.
pub fn overrides_in_key_order(overrides: &Vec<(String, String)>) -> (r: bool)
    ensures
        r == in_key_order(string_pairs_view(overrides@)),
{
    let ghost os = string_pairs_view(overrides@);
    if overrides.len() == 0 {
        return true;
    }
    let mut k: usize = 1;
    while k < overrides.len()
        invariant
            1 <= k <= overrides@.len(),
            os == string_pairs_view(overrides@),
            forall|i: int, j: int| 0 <= i < j < k ==> seq_order(#[trigger] os[i].0, #[trigger] os[j].0) == Order::Less,
        decreases overrides@.len() - k,
    {
        let order = compare_str(overrides[k - 1].0.as_str(), overrides[k].0.as_str());
        assert(os[k - 1].0 == overrides@[k - 1].0@ && os[k as int].0 == overrides@[k as int].0@);
        match order {
            Order::Less => {},
            _ => {
                return false;
            },
        }
        assert forall|i: int, j: int| 0 <= i < j < k + 1 implies seq_order(#[trigger] os[i].0, #[trigger] os[j].0) == Order::Less by {
            if j == k && i < k - 1 {
                lemma_order_trans(os[i].0, os[k - 1].0, os[j].0);
            }
        }
        k += 1;
    }
    true
}

/// The configured overrides, or the first malformed one.
pub open spec fn parse_overrides_spec(os: Seq<(Seq<char>, Seq<char>)>) -> Result<
    Seq<(Seq<Seq<char>>, Option<Seq<char>>)>,
    PaletteErrorKind,
>
    decreases os.len(),
{
    if os.len() == 0 {
        Ok(Seq::empty())
    } else {
        match parse_overrides_spec(os.drop_last()) {
            Err(e) => Err(e),
            Ok(acc) => match parse_override_spec(override_text(os.last())) {
                Ok(v) => Ok(acc.push(v)),
                Err(k) => Err(PaletteErrorKind::InvalidOverride(k)),
            },
        }
    }
}

pub open spec fn opt_string_view(o: Option<String>) -> Option<Seq<char>> {
    match o {
        Some(s) => Some(s@),
        None => None,
    }
}

pub open spec fn string_pairs_view(v: Seq<(String, String)>) -> Seq<(Seq<char>, Seq<char>)> {
    v.map_values(|p: (String, String)| (p.0@, p.1@))
}

/// The first rule a configuration breaks, checked in order: targets, coral
/// family, solid members, protected members, overrides.
pub open spec fn palette_outcome(raw: RawConfig) -> Result<(), PaletteErrorKind> {
    match parse_targets_spec(raw_targets(raw.palette)) {
        Err(e) => Err(e),
        Ok(_) => if raw.palette.coral is Some && !valid_family(raw.palette.coral->Some_0@) {
            Err(PaletteErrorKind::InvalidCoralFamily)
        } else {
            match parse_members_spec(strings_view(raw.categories.solid.members@), MemberList::Solid) {
                Err(e) => Err(e),
                Ok(_) => match parse_members_spec(
                    strings_view(raw.categories.protected.members@),
                    MemberList::Protected,
                ) {
                    Err(e) => Err(e),
                    Ok(_) => match parse_overrides_spec(string_pairs_view(raw.overrides@)) {
                        Err(e) => Err(e),
                        Ok(_) => Ok(()),
                    },
                },
            }
        },
    }
}

pub open spec fn overrides_view(v: Seq<OverrideSpec>) -> Seq<(Seq<Seq<char>>, Option<Seq<char>>)> {
    v.map_values(|o: OverrideSpec| o.spec_view())
}

/// The palette that a valid configuration describes.
pub open spec fn palette_matches(raw: RawConfig, p: Palette) -> bool {
    &&& palette_outcome(raw) is Ok
    &&& p.targets@ == parse_targets_spec(raw_targets(raw.palette))->Ok_0
    &&& opt_string_view(p.coral_family) == opt_string_view(raw.palette.coral)
    &&& (p.solid_members.ids_view(), p.solid_members.tags_view()) == parse_members_spec(
        strings_view(raw.categories.solid.members@),
        MemberList::Solid,
    )->Ok_0
    &&& (p.protected.ids_view(), p.protected.tags_view()) == parse_members_spec(
        strings_view(raw.categories.protected.members@),
        MemberList::Protected,
    )->Ok_0
    &&& overrides_view(p.overrides@) == parse_overrides_spec(string_pairs_view(raw.overrides@))->Ok_0
    &&& p.jar == raw.data.jar
}

fn parse_targets(p: &RawPalette) -> (r: Result<TargetMap, PaletteError>)
    ensures
        match r {
            Ok(m) => parse_targets_spec(raw_targets(*p)) == Ok::<Map<Category, Seq<char>>, PaletteErrorKind>(m@),
            Err(e) => parse_targets_spec(raw_targets(*p)) == Err::<Map<Category, Seq<char>>, PaletteErrorKind>(e.kind()),
        },
{
    let ts: Vec<(Category, &Option<String>)> = vec![
        (Category::Solid, &p.solid),
        (Category::Glass, &p.glass),
        (Category::GlassPane, &p.glass_pane),
        (Category::Terracotta, &p.terracotta),
        (Category::Wall, &p.wall),
        (Category::Stair, &p.stair),
        (Category::Slab, &p.slab),
    ];
    let ghost spec_ts = raw_targets(*p);
    assert(ts@.len() == 7);
    assert(forall|j: int| 0 <= j < 7 ==> (#[trigger] ts@[j]).0 == spec_ts[j].0 && *ts@[j].1 == spec_ts[j].1);
    let mut m = TargetMap::new();
    let mut i: usize = 0;
    while i < ts.len()
        invariant
            spec_ts == raw_targets(*p),
            ts@.len() == 7,
            spec_ts.len() == 7,
            forall|j: int| 0 <= j < 7 ==> (#[trigger] ts@[j]).0 == spec_ts[j].0 && *ts@[j].1 == spec_ts[j].1,
            i <= 7,
            parse_targets_spec(spec_ts.take(i as int)) == Ok::<Map<Category, Seq<char>>, PaletteErrorKind>(m@),
        decreases 7 - i,
    {
        assert(spec_ts.take(i + 1).drop_last() == spec_ts.take(i as int));
        assert(spec_ts.take(i + 1).last() == spec_ts[i as int]);
        let (category, target) = ts[i];
        if let Some(t) = target {
            match BlockId::parse(t.as_str()) {
                Ok(id) => {
                    m.insert(category, id);
                },
                Err(e) => {
                    assert(spec_ts.take(7) == spec_ts);
                    assert(parse_targets_spec(spec_ts.take(i + 1)) == Err::<Map<Category, Seq<char>>, PaletteErrorKind>(
                        PaletteErrorKind::InvalidTarget(category, e.kind),
                    ));
                    proof {
                        lemma_targets_error_stays(spec_ts, i as int + 1);
                    }
                    return Err(PaletteError::InvalidTarget { category, cause: e });
                },
            }
        }
        i += 1;
    }
    assert(spec_ts.take(7) == spec_ts);
    Ok(m)
}

/// Once a prefix of the targets fails, every longer prefix fails the same way.
proof fn lemma_targets_error_stays(ts: Seq<(Category, Option<String>)>, n: int)
    requires
        0 <= n <= ts.len(),
        parse_targets_spec(ts.take(n)) is Err,
    ensures
        parse_targets_spec(ts) == parse_targets_spec(ts.take(n)),
    decreases ts.len() - n,
{
    if n < ts.len() {
        assert(ts.take(n + 1).drop_last() == ts.take(n));
        lemma_targets_error_stays(ts, n + 1);
    } else {
        assert(ts.take(n) == ts);
    }
}

fn check_family(f: &String) -> (r: bool)
    ensures
        r == valid_family(f@),
{
    let v = chars_of(f.as_str());
    if v.len() == 0 {
        return false;
    }
    let mut i: usize = 0;
    while i < v.len()
        invariant
            v@ == f@,
            i <= v.len(),
            forall|j: int| 0 <= j < i ==> is_family_char(#[trigger] v@[j]),
        decreases v.len() - i,
    {
        let c = v[i];
        if !(('a' <= c && c <= 'z') || ('0' <= c && c <= '9') || c == '_') {
            assert(!is_family_char(v@[i as int]));
            return false;
        }
        i += 1;
    }
    true
}

proof fn lemma_members_error_stays(es: Seq<Seq<char>>, list: MemberList, n: int)
    requires
        0 <= n <= es.len(),
        parse_members_spec(es.take(n), list) is Err,
    ensures
        parse_members_spec(es, list) == parse_members_spec(es.take(n), list),
    decreases es.len() - n,
{
    if n < es.len() {
        assert(es.take(n + 1).drop_last() == es.take(n));
        lemma_members_error_stays(es, list, n + 1);
    } else {
        assert(es.take(n) == es);
    }
}

fn parse_members(raw: &RawMembers, list: MemberList) -> (r: Result<MemberSet, PaletteError>)
    ensures
        match r {
            Ok(set) => parse_members_spec(strings_view(raw.members@), list) == Ok::<(Seq<Seq<char>>, Seq<Seq<char>>), PaletteErrorKind>(
                (set.ids_view(), set.tags_view()),
            ),
            Err(e) => parse_members_spec(strings_view(raw.members@), list) == Err::<(Seq<Seq<char>>, Seq<Seq<char>>), PaletteErrorKind>(e.kind()),
        },
{
    let ghost es = strings_view(raw.members@);
    let mut ids: Vec<BlockId> = Vec::new();
    let mut tags: Vec<String> = Vec::new();
    let mc = chars_of("minecraft:");
    assert(mc@ == "minecraft:"@);
    let mut i: usize = 0;
    assert(es.take(0) =~= Seq::<Seq<char>>::empty());
    assert(id_seq_view(ids@) =~= Seq::<Seq<char>>::empty());
    assert(strings_view(tags@) =~= Seq::<Seq<char>>::empty());
    while i < raw.members.len()
        invariant
            es == strings_view(raw.members@),
            mc@ == "minecraft:"@,
            i <= raw.members.len(),
            parse_members_spec(es.take(i as int), list) == Ok::<(Seq<Seq<char>>, Seq<Seq<char>>), PaletteErrorKind>(
                (id_seq_view(ids@), strings_view(tags@)),
            ),
        decreases raw.members.len() - i,
    {
        let entry = &raw.members[i];
        let ghost e = es[i as int];
        assert(e == entry@);
        assert(es.take(i + 1).drop_last() == es.take(i as int));
        assert(es.take(i + 1).last() == e);
        let v = chars_of(entry.as_str());
        if v.len() > 0 && v[0] == '#' {
            let rest = sub_chars(&v, 1, v.len());
            assert(rest@ == e.drop_first());
            if crate::text::chars_start_with(&rest, &mc) {
                assert("minecraft:"@.len() == 10) by {
                    reveal_strlit("minecraft:");
                }
                let name = string_from_range(&rest, 10, rest.len());
                assert(name@ == e.drop_first().skip(10));
                let ghost old_tags = tags@;
                tags.push(name);
                assert(strings_view(tags@) =~= strings_view(old_tags).push(name@));
            } else {
                proof {
                    lemma_members_error_stays(es, list, i + 1);
                    assert(es.take(raw.members.len() as int) == es);
                }
                return Err(PaletteError::InvalidTagReference { list, entry: entry.clone() });
            }
        } else {
            match BlockId::parse(entry.as_str()) {
                Ok(id) => {
                    let ghost old_ids = ids@;
                    ids.push(id);
                    assert(id_seq_view(ids@) =~= id_seq_view(old_ids).push(id@));
                },
                Err(cause) => {
                    proof {
                        lemma_members_error_stays(es, list, i + 1);
                        assert(es.take(raw.members.len() as int) == es);
                    }
                    return Err(PaletteError::InvalidMember { list, cause });
                },
            }
        }
        i += 1;
    }
    assert(es.take(raw.members.len() as int) == es);
    MemberSet { ids, tags }.ok_with()
}

impl MemberSet {
    fn ok_with(self) -> (r: Result<MemberSet, PaletteError>)
        ensures
            r matches Ok(s) && s.ids_view() == self.ids_view() && s.tags_view() == self.tags_view(),
    {
        Ok(self)
    }
}

proof fn lemma_overrides_error_stays(os: Seq<(Seq<char>, Seq<char>)>, n: int)
    requires
        0 <= n <= os.len(),
        parse_overrides_spec(os.take(n)) is Err,
    ensures
        parse_overrides_spec(os) == parse_overrides_spec(os.take(n)),
    decreases os.len() - n,
{
    if n < os.len() {
        assert(os.take(n + 1).drop_last() == os.take(n));
        lemma_overrides_error_stays(os, n + 1);
    } else {
        assert(os.take(n) == os);
    }
}

/// `source=target` as one override text.
fn join_override(source: &String, target: &String) -> (r: String)
    ensures
        r@ == override_text((source@, target@)),
{
    let mut s = source.clone();
    push_char(&mut s, '=');
    let t = chars_of(target.as_str());
    let mut i: usize = 0;
    while i < t.len()
        invariant
            i <= t.len(),
            s@ == source@ + seq!['='] + t@.take(i as int),
        decreases t.len() - i,
    {
        push_char(&mut s, t[i]);
        assert(t@.take(i + 1) == t@.take(i as int).push(t@[i as int]));
        assert(s@ =~= source@ + seq!['='] + t@.take(i + 1));
        i += 1;
    }
    assert(t@.take(i as int) == t@);
    s
}

fn parse_overrides(raw: &Vec<(String, String)>) -> (r: Result<Vec<OverrideSpec>, PaletteError>)
    ensures
        match r {
            Ok(v) => parse_overrides_spec(string_pairs_view(raw@)) == Ok::<Seq<(Seq<Seq<char>>, Option<Seq<char>>)>, PaletteErrorKind>(
                overrides_view(v@),
            ),
            Err(e) => parse_overrides_spec(string_pairs_view(raw@)) == Err::<Seq<(Seq<Seq<char>>, Option<Seq<char>>)>, PaletteErrorKind>(e.kind()),
        },
{
    let ghost os = string_pairs_view(raw@);
    let mut out: Vec<OverrideSpec> = Vec::new();
    let mut i: usize = 0;
    assert(os.take(0) =~= Seq::<(Seq<char>, Seq<char>)>::empty());
    assert(overrides_view(out@) =~= Seq::<(Seq<Seq<char>>, Option<Seq<char>>)>::empty());
    while i < raw.len()
        invariant
            os == string_pairs_view(raw@),
            i <= raw.len(),
            parse_overrides_spec(os.take(i as int)) == Ok::<Seq<(Seq<Seq<char>>, Option<Seq<char>>)>, PaletteErrorKind>(overrides_view(out@)),
        decreases raw.len() - i,
    {
        assert(os.take(i + 1).drop_last() == os.take(i as int));
        assert(os.take(i + 1).last() == os[i as int]);
        let text = join_override(&raw[i].0, &raw[i].1);
        match OverrideSpec::parse(text.as_str()) {
            Ok(spec) => {
                let ghost old = out@;
                out.push(spec);
                assert(overrides_view(out@) =~= overrides_view(old).push(spec.spec_view()));
            },
            Err(cause) => {
                proof {
                    lemma_overrides_error_stays(os, i + 1);
                    assert(os.take(raw.len() as int) == os);
                }
                return Err(PaletteError::InvalidOverride { cause });
            },
        }
        i += 1;
    }
    assert(os.take(raw.len() as int) == os);
    Ok(out)
}

/// Validate a configuration file's contents into a palette.
pub fn parse(raw: RawConfig) -> (r: Result<Palette, PaletteError>)
    requires
        in_key_order(string_pairs_view(raw.overrides@)),
    ensures
        match r {
            Ok(p) => palette_matches(raw, p),
            Err(e) => palette_outcome(raw) == Err::<(), PaletteErrorKind>(e.kind()),
        },
{
    let targets = match parse_targets(&raw.palette) {
        Ok(t) => t,
        Err(e) => return Err(e),
    };
    if let Some(family) = &raw.palette.coral {
        if !check_family(family) {
            return Err(PaletteError::InvalidCoralFamily { family: family.clone() });
        }
    }
    let solid_members = match parse_members(&raw.categories.solid, MemberList::Solid) {
        Ok(m) => m,
        Err(e) => return Err(e),
    };
    let protected = match parse_members(&raw.categories.protected, MemberList::Protected) {
        Ok(m) => m,
        Err(e) => return Err(e),
    };
    let overrides = match parse_overrides(&raw.overrides) {
        Ok(o) => o,
        Err(e) => return Err(e),
    };
    let RawConfig { data, palette, categories: _, overrides: _ } = raw;
    Ok(
        Palette {
            targets,
            coral_family: palette.coral,
            solid_members,
            protected,
            overrides,
            jar: data.jar,
        },
    )
}


/// Which palette configuration to load: an explicit path, else the first
/// search path that is a file (`search` pairs each path with whether it is
/// one).
pub fn discover(explicit: Option<&PathBuf>, search: &[(PathBuf, bool)]) -> (r: Option<PathBuf>)
    ensures
        match explicit {
            Some(p) => r == Some(*p),
            None => match r {
                Some(p) => exists|i: int|
                    0 <= i < search@.len() && search@[i].1 && search@[i].0 == p && forall|j: int|
                        0 <= j < i ==> !(#[trigger] search@[j]).1,
                None => forall|i: int| 0 <= i < search@.len() ==> !(#[trigger] search@[i]).1,
            },
        },
{
    if let Some(path) = explicit {
        return Some(crate::paths::copy_path(path));
    }
    let mut i: usize = 0;
    while i < search.len()
        invariant
            explicit is None,
            i <= search@.len(),
            forall|j: int| 0 <= j < i ==> !(#[trigger] search@[j]).1,
        decreases search@.len() - i,
    {
        if search[i].1 {
            return Some(crate::paths::copy_path(&search[i].0));
        }
        i += 1;
    }
    None
}

} // verus!
