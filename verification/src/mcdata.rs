use vstd::prelude::*;

use crate::lookup::{find_key, key_index, keys_distinct, lookup, strings_have, strings_view};
use crate::paths::copy_path;
use crate::text::str_eq;

use std::path::PathBuf;

verus! {

/// Identity of one extracted Minecraft version in the data cache.
#[derive(Debug, Clone)]
pub struct CacheManifest {
    pub id: String,
    pub data_version: i32,
}

impl CacheManifest {
    pub fn copy(&self) -> (r: CacheManifest)
        ensures
            r.id@ == self.id@,
            r.data_version == self.data_version,
    {
        CacheManifest { id: self.id.clone(), data_version: self.data_version }
    }
}

/// The definition type of a block in the blocks report (its class).
#[derive(Debug, Clone, Default)]
pub struct BlockDefinition {
    pub kind: Option<String>,
}

/// What the blocks report says of one block: its definition and the schema
/// of its state properties (property name to allowed values).
#[derive(Debug, Clone, Default)]
pub struct BlockInfo {
    pub definition: BlockDefinition,
    pub properties: Vec<(String, Vec<String>)>,
}

/// Block data extracted from a Minecraft jar: definition types and state
/// property schemas by block, and the vanilla block tags with nested tag
/// references resolved.
///
/// [`McData::empty`] models the degraded mode used when no data has been
/// extracted: every lookup misses.
#[derive(Debug)]
pub struct McData {
    manifest: Option<CacheManifest>,
    blocks: Vec<(String, BlockInfo)>,
    tags: Vec<(String, Vec<String>)>,
}

impl McData {
    pub closed spec fn blocks_seq(&self) -> Seq<(String, BlockInfo)> {
        self.blocks@
    }

    pub closed spec fn tags_seq(&self) -> Seq<(String, Vec<String>)> {
        self.tags@
    }

    pub closed spec fn manifest_view(&self) -> Option<CacheManifest> {
        self.manifest
    }

    /// Each block and each tag is listed once: the blocks report and the
    /// tag files name each once.
    pub open spec fn wf(&self) -> bool {
        keys_distinct(self.blocks_seq()) && keys_distinct(self.tags_seq())
    }

    /// The blocks report entry of block `id`.
    pub open spec fn block_info(&self, id: Seq<char>) -> Option<BlockInfo> {
        lookup(self.blocks_seq(), id)
    }

    /// Whether the resolved tag `tag` holds block `id`.
    pub open spec fn tag_has(&self, tag: Seq<char>, id: Seq<char>) -> bool {
        match lookup(self.tags_seq(), tag) {
            Some(values) => strings_view(values@).contains(id),
            None => false,
        }
    }

    pub fn empty() -> (r: McData)
        ensures
            r.blocks_seq().len() == 0,
            r.tags_seq().len() == 0,
            r.manifest_view() is None,
            r.wf(),
            forall|id: Seq<char>| r.block_info(id) is None,
            forall|tag: Seq<char>, id: Seq<char>| !r.tag_has(tag, id),
    {
        McData { manifest: None, blocks: Vec::new(), tags: Vec::new() }
    }

    /// Data of an extracted version: its manifest, blocks report entries and
    /// resolved tags.
    pub fn new(
        manifest: CacheManifest,
        blocks: Vec<(String, BlockInfo)>,
        tags: Vec<(String, Vec<String>)>,
    ) -> (r: McData)
        requires
            keys_distinct(blocks@),
            keys_distinct(tags@),
        ensures
            r.wf(),
            r.blocks_seq() == blocks@,
            r.tags_seq() == tags@,
            r.manifest_view() == Some(manifest),
    {
        McData { manifest: Some(manifest), blocks, tags }
    }

    /// Data with no manifest, as used by tests.
    pub fn for_tests(blocks: Vec<(String, BlockInfo)>, tags: Vec<(String, Vec<String>)>) -> (r: McData)
        requires
            keys_distinct(blocks@),
            keys_distinct(tags@),
        ensures
            r.wf(),
            r.blocks_seq() == blocks@,
            r.tags_seq() == tags@,
            r.manifest_view() is None,
    {
        McData { manifest: None, blocks, tags }
    }

    pub fn manifest(&self) -> (r: Option<&CacheManifest>)
        ensures
            match r {
                Some(m) => self.manifest_view() == Some(*m),
                None => self.manifest_view() is None,
            },
    {
        match &self.manifest {
            Some(m) => Some(m),
            None => None,
        }
    }

    /// No data was extracted for this run.
    pub fn is_degraded(&self) -> (r: bool)
        ensures
            r == self.manifest_view() is None,
    {
        self.manifest.is_none()
    }

    pub fn block(&self, id: &str) -> (r: Option<&BlockInfo>)
        ensures
            match r {
                Some(info) => self.block_info(id@) == Some(*info),
                None => self.block_info(id@) is None,
            },
    {
        match find_key(&self.blocks, id) {
            Some(i) => Some(&self.blocks[i].1),
            None => None,
        }
    }

    pub fn tag_contains(&self, tag: &str, id: &str) -> (r: bool)
        ensures
            r == self.tag_has(tag@, id@),
    {
        match find_key(&self.tags, tag) {
            Some(i) => strings_have(&self.tags[i].1, id),
            None => false,
        }
    }
}


/// An extracted version in the data cache: its manifest and directory.
#[derive(Debug)]
pub struct CachedVersion {
    pub manifest: CacheManifest,
    pub path: PathBuf,
}

impl CachedVersion {
    /// A copy of this entry.
    pub fn copy(&self) -> (r: CachedVersion)
        ensures
            r.manifest.id@ == self.manifest.id@,
            r.manifest.data_version == self.manifest.data_version,
            r.path == self.path,
    {
        CachedVersion { manifest: self.manifest.copy(), path: copy_path(&self.path) }
    }
}

pub open spec fn data_versions(v: Seq<CachedVersion>) -> Seq<i32> {
    v.map_values(|c: CachedVersion| c.manifest.data_version)
}

/// The best cached version for a schematic of data version `dv`: the first
/// of the oldest versions at least as new as the schematic, else the first
/// listed one.
pub open spec fn best_version_index(dvs: Seq<i32>, dv: i32) -> Option<int> {
    if exists|i: int| 0 <= i < dvs.len() && dvs[i] >= dv {
        Some(
            choose|i: int|
                0 <= i < dvs.len() && dvs[i] >= dv && (forall|j: int|
                    0 <= j < dvs.len() && dvs[j] >= dv ==> dvs[i] <= dvs[j]) && (forall|j: int|
                    0 <= j < i && dvs[j] >= dv ==> dvs[j] > dvs[i]),
        )
    } else if dvs.len() > 0 {
        Some(0)
    } else {
        None
    }
}

/// Index of the best cached version for a schematic of data version
/// `data_version`.
fn best_index(versions: &[CachedVersion], data_version: i32) -> (r: Option<usize>)
    ensures
        match r {
            Some(i) => i < versions@.len() && best_version_index(data_versions(versions@), data_version) == Some(
                i as int,
            ),
            None => best_version_index(data_versions(versions@), data_version) is None,
        },
{
    let ghost dvs = data_versions(versions@);
    let mut best: Option<usize> = None;
    let mut i: usize = 0;
    while i < versions.len()
        invariant
            dvs == data_versions(versions@),
            i <= versions@.len(),
            match best {
                Some(b) => b < i && dvs[b as int] >= data_version && (forall|j: int|
                    0 <= j < i && dvs[j] >= data_version ==> dvs[b as int] <= dvs[j]) && (forall|j: int|
                    0 <= j < b && dvs[j] >= data_version ==> dvs[j] > dvs[b as int]),
                None => forall|j: int| 0 <= j < i ==> dvs[j] < data_version,
            },
        decreases versions@.len() - i,
    {
        let dv = versions[i].manifest.data_version;
        assert(dvs[i as int] == dv);
        if dv >= data_version {
            match best {
                Some(b) => {
                    if dv < versions[b].manifest.data_version {
                        best = Some(i);
                    }
                },
                None => {
                    best = Some(i);
                },
            }
        }
        i += 1;
    }
    match best {
        Some(b) => {
            proof {
                let c = choose|c: int|
                    0 <= c < dvs.len() && dvs[c] >= data_version && (forall|j: int|
                        0 <= j < dvs.len() && dvs[j] >= data_version ==> dvs[c] <= dvs[j]) && (forall|j: int|
                        0 <= j < c && dvs[j] >= data_version ==> dvs[j] > dvs[c]);
                assert(dvs[c] == dvs[b as int]);
                if c < b {
                    assert(dvs[c] > dvs[b as int]);
                }
                if b < c {
                    assert(dvs[b as int] > dvs[c]);
                }
            }
            Some(b)
        },
        None => if versions.len() > 0 {
            Some(0)
        } else {
            None
        },
    }
}

/// The best cached version for a schematic: the oldest cached version that
/// is at least the schematic's data version, or the newest cached version
/// (the first listed) if none are.
pub fn best_cached_version(versions: &[CachedVersion], data_version: i32) -> (r: Option<CachedVersion>)
    ensures
        match r {
            Some(v) => exists|i: int|
                best_version_index(data_versions(versions@), data_version) == Some(i) && 0 <= i < versions@.len()
                    && v.manifest.id@ == versions@[i].manifest.id@ && v.manifest.data_version
                    == versions@[i].manifest.data_version && v.path == versions@[i].path,
            None => best_version_index(data_versions(versions@), data_version) is None,
        },
{
    match best_index(versions, data_version) {
        Some(i) => Some(versions[i].copy()),
        None => None,
    }
}

/// The cached version with id `id`: the first listed one.
pub fn cached_version(versions: &[CachedVersion], id: &str) -> (r: Option<CachedVersion>)
    ensures
        match r {
            Some(v) => exists|i: int|
                0 <= i < versions@.len() && versions@[i].manifest.id@ == id@ && (forall|j: int|
                    0 <= j < i ==> versions@[j].manifest.id@ != id@) && v.manifest.id@ == versions@[i].manifest.id@
                    && v.manifest.data_version == versions@[i].manifest.data_version && v.path == versions@[i].path,
            None => forall|i: int| 0 <= i < versions@.len() ==> versions@[i].manifest.id@ != id@,
        },
{
    let mut i: usize = 0;
    while i < versions.len()
        invariant
            i <= versions@.len(),
            forall|j: int| 0 <= j < i ==> versions@[j].manifest.id@ != id@,
        decreases versions@.len() - i,
    {
        if str_eq(versions[i].manifest.id.as_str(), id) {
            return Some(versions[i].copy());
        }
        i += 1;
    }
    None
}

/// Cached versions listed newest first; versions of equal data version keep
/// their order.
pub fn sort_versions(versions: Vec<CachedVersion>) -> (r: Vec<CachedVersion>)
    ensures
        r@.to_multiset() == versions@.to_multiset(),
        forall|i: int, j: int|
            0 <= i < j < r@.len() ==> (#[trigger] r@[i]).manifest.data_version >= (#[trigger] r@[j]).manifest.data_version,
        exists|origin: Seq<int>|
            #![trigger origin.len()]
            origin.len() == r@.len() && (forall|i: int| 0 <= i < r@.len() ==> 0 <= #[trigger] origin[i] < versions@.len()
                && r@[i] == versions@[origin[i]]) && (forall|i: int, j: int|
                0 <= i < j < r@.len() && r@[i].manifest.data_version == r@[j].manifest.data_version ==> #[trigger] origin[i]
                    < #[trigger] origin[j]),
{
    let ghost orig = versions@;
    let mut rest = versions;
    let mut out: Vec<CachedVersion> = Vec::new();
    let ghost mut rest_origin: Seq<int> = Seq::new(orig.len(), |i: int| i);
    let ghost mut out_origin: Seq<int> = Seq::empty();
    proof {
        out@.to_multiset_ensures();
        assert(out@.to_multiset() =~= vstd::multiset::Multiset::empty());
        assert(out@.to_multiset().add(rest@.to_multiset()) =~= orig.to_multiset());
    }
    while rest.len() > 0
        invariant
            out@.to_multiset().add(rest@.to_multiset()) == orig.to_multiset(),
            forall|a: int, b: int|
                0 <= a < b < out@.len() ==> (#[trigger] out@[a]).manifest.data_version >= (#[trigger] out@[b]).manifest.data_version,
            forall|a: int, b: int|
                0 <= a < out@.len() && 0 <= b < rest@.len() ==> (#[trigger] out@[a]).manifest.data_version
                    >= (#[trigger] rest@[b]).manifest.data_version,
            rest_origin.len() == rest@.len(),
            out_origin.len() == out@.len(),
            forall|i: int| 0 <= i < rest@.len() ==> 0 <= #[trigger] rest_origin[i] < orig.len() && rest@[i] == orig[rest_origin[i]],
            forall|i: int| 0 <= i < out@.len() ==> 0 <= #[trigger] out_origin[i] < orig.len() && out@[i] == orig[out_origin[i]],
            forall|a: int, b: int| 0 <= a < b < rest@.len() ==> #[trigger] rest_origin[a] < #[trigger] rest_origin[b],
            forall|a: int, b: int|
                0 <= a < b < out@.len() && out@[a].manifest.data_version == out@[b].manifest.data_version
                    ==> #[trigger] out_origin[a] < #[trigger] out_origin[b],
            forall|a: int, b: int|
                0 <= a < out@.len() && 0 <= b < rest@.len() && out@[a].manifest.data_version
                    == rest@[b].manifest.data_version ==> #[trigger] out_origin[a] < #[trigger] rest_origin[b],
        decreases rest@.len(),
    {
        let mut m: usize = 0;
        let mut k: usize = 1;
        while k < rest.len()
            invariant
                0 <= m < k <= rest@.len(),
                forall|j: int| 0 <= j < k ==> rest@[m as int].manifest.data_version >= (#[trigger] rest@[j]).manifest.data_version,
                forall|j: int| 0 <= j < m ==> (#[trigger] rest@[j]).manifest.data_version < rest@[m as int].manifest.data_version,
            decreases rest@.len() - k,
        {
            if rest[k].manifest.data_version > rest[m].manifest.data_version {
                m = k;
            }
            k += 1;
        }
        let ghost old_rest = rest@;
        let ghost old_out = out@;
        let ghost picked_origin = rest_origin[m as int];
        let p = rest.remove(m);
        out.push(p);
        proof {
            old_rest.to_multiset_ensures();
            old_out.to_multiset_ensures();
            assert(rest@ =~= old_rest.remove(m as int));
            assert(out@ =~= old_out.push(p));
            rest_origin = rest_origin.remove(m as int);
            out_origin = out_origin.push(picked_origin);
            assert forall|a: int, b: int|
                0 <= a < out@.len() && 0 <= b < rest@.len() && out@[a].manifest.data_version
                    == rest@[b].manifest.data_version implies #[trigger] out_origin[a] < #[trigger] rest_origin[b] by {
                let ob = if b < m { b } else { b + 1 };
                assert(rest@[b] == old_rest[ob]);
                if a == out@.len() - 1 {
                    if ob < m {
                        assert(old_rest[ob].manifest.data_version < old_rest[m as int].manifest.data_version);
                    }
                }
            }
            assert forall|a: int, b: int|
                0 <= a < b < out@.len() && out@[a].manifest.data_version == out@[b].manifest.data_version
                    implies #[trigger] out_origin[a] < #[trigger] out_origin[b] by {
                if b == out@.len() - 1 {
                    assert(old_rest[m as int] == out@[b]);
                }
            }
            assert forall|a: int, b: int|
                0 <= a < out@.len() && 0 <= b < rest@.len() implies (#[trigger] out@[a]).manifest.data_version
                    >= (#[trigger] rest@[b]).manifest.data_version by {
                let ob = if b < m { b } else { b + 1 };
                assert(rest@[b] == old_rest[ob]);
            }
            assert forall|a: int, b: int|
                0 <= a < b < out@.len() implies (#[trigger] out@[a]).manifest.data_version
                    >= (#[trigger] out@[b]).manifest.data_version by {
                if b == out@.len() - 1 {
                    assert(old_rest[m as int] == out@[b]);
                }
            }
            assert forall|i: int| 0 <= i < rest@.len() implies 0 <= #[trigger] rest_origin[i] < orig.len() && rest@[i] == orig[rest_origin[i]] by {
                let oi = if i < m { i } else { i + 1 };
                assert(rest@[i] == old_rest[oi]);
            }
        }
    }
    proof {
        rest@.to_multiset_ensures();
        assert(rest@.to_multiset() =~= vstd::multiset::Multiset::empty());
        assert(out_origin.len() == out@.len());
    }
    out
}


/// The cached versions `data clean` removes: all of them, or those with id
/// `id`; none matching `id` is refused.
pub fn versions_to_clean(versions: Vec<CachedVersion>, id: Option<&str>) -> (r: Option<Vec<CachedVersion>>)
    ensures
        match id {
            None => r == Some(versions),
            Some(i) => match r {
                Some(v) => v@.len() > 0 && v@ == versions@.filter(|c: CachedVersion| c.manifest.id@ == i@),
                None => versions@.filter(|c: CachedVersion| c.manifest.id@ == i@).len() == 0,
            },
        },
{
    let wanted = match id {
        None => return Some(versions),
        Some(i) => i,
    };
    let ghost all = versions@;
    let ghost keep = |c: CachedVersion| c.manifest.id@ == wanted@;
    let mut rest = versions;
    let mut out: Vec<CachedVersion> = Vec::new();
    let ghost mut taken: int = 0;
    assert(all.take(0).filter(keep) =~= Seq::<CachedVersion>::empty());
    while rest.len() > 0
        invariant
            0 <= taken <= all.len(),
            rest@ == all.skip(taken),
            out@ == all.take(taken).filter(keep),
            keep == (|c: CachedVersion| c.manifest.id@ == wanted@),
        decreases rest@.len(),
    {
        let c = rest.remove(0);
        proof {
            assert(all[taken] == c);
            assert(all.take(taken + 1) == all.take(taken).push(c));
            all.take(taken).lemma_filter_push(c, keep);
            assert(rest@ =~= all.skip(taken + 1));
            taken = taken + 1;
        }
        if str_eq(c.manifest.id.as_str(), wanted) {
            out.push(c);
        }
    }
    proof {
        assert(all.take(taken) =~= all);
    }
    if out.len() == 0 {
        None
    } else {
        Some(out)
    }
}

} // verus!
