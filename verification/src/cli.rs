use vstd::prelude::*;

use std::path::PathBuf;

use crate::block::{block_id_message, parse_block_id as block_id_spec, BlockId, BlockIdErrorKind};
use crate::overrides::{override_message, parse_override_spec, OverrideErrorKind, OverrideSpec};
use crate::paths::copy_path;
use crate::text::{chars_of, find_char, split_once, string_from, sub_chars};

verus! {

/// A region rename `OLD=NEW`: split at the first `=`, both sides non-empty.
pub open spec fn rename_pair(input: Seq<char>) -> Option<(Seq<char>, Seq<char>)> {
    match split_once(input, '=') {
        Some(parts) => if parts.0.len() == 0 || parts.1.len() == 0 {
            None
        } else {
            Some(parts)
        },
        None => None,
    }
}

/// Parse a region rename `OLD=NEW`.
pub fn parse_rename(input: &str) -> (r: Result<(String, String), String>)
    ensures
        match r {
            Ok(pair) => rename_pair(input@) == Some((pair.0@, pair.1@)),
            Err(m) => rename_pair(input@) is None && m@ == "expected 'OLD=NEW'"@,
        },
{
    let v = chars_of(input);
    let k = match find_char(&v, '=') {
        Some(k) => k,
        None => return Err(string_from(&chars_of("expected 'OLD=NEW'"))),
    };
    let old = sub_chars(&v, 0, k);
    let new = sub_chars(&v, k + 1, v.len());
    assert(old@ == v@.take(k as int));
    assert(new@ == v@.skip(k + 1));
    if old.len() == 0 || new.len() == 0 {
        return Err(string_from(&chars_of("expected 'OLD=NEW'")));
    }
    Ok((string_from(&old), string_from(&new)))
}

/// Parse an override argument; a refusal is its message.
pub fn parse_override(input: &str) -> (r: Result<OverrideSpec, String>)
    ensures
        match r {
            Ok(spec) => parse_override_spec(input@) == Ok::<(Seq<Seq<char>>, Option<Seq<char>>), OverrideErrorKind>(
                spec.spec_view(),
            ),
            Err(m) => match parse_override_spec(input@) {
                Err(kind) => m@ == override_message(kind, input@),
                Ok(_) => false,
            },
        },
{
    match OverrideSpec::parse(input) {
        Ok(spec) => Ok(spec),
        Err(e) => Err(e.message()),
    }
}

/// Parse a block id argument; a refusal is its message.
pub fn parse_block_id(input: &str) -> (r: Result<BlockId, String>)
    ensures
        match r {
            Ok(id) => block_id_spec(input@) == Ok::<Seq<char>, BlockIdErrorKind>(id@),
            Err(m) => match block_id_spec(input@) {
                Err(kind) => m@ == block_id_message(kind, crate::text::trim(input@)),
                Ok(_) => false,
            },
        },
{
    match BlockId::parse(input) {
        Ok(id) => Ok(id),
        Err(e) => Err(e.message()),
    }
}

/// Where a rewritten schematic goes.
#[derive(Debug)]
pub enum OutputTarget {
    InPlace,
    Path(PathBuf),
}

impl OutputTarget {
    /// A copy of this target.
    pub fn copy(&self) -> (r: OutputTarget)
        ensures
            r == *self,
    {
        match self {
            OutputTarget::InPlace => OutputTarget::InPlace,
            OutputTarget::Path(p) => OutputTarget::Path(copy_path(p)),
        }
    }

    /// The path to write for input `input`.
    pub fn resolve(&self, input: &PathBuf) -> (r: PathBuf)
        ensures
            match self {
                OutputTarget::InPlace => r == *input,
                OutputTarget::Path(p) => r == *p,
            },
    {
        match self {
            OutputTarget::InPlace => copy_path(input),
            OutputTarget::Path(path) => copy_path(path),
        }
    }
}

/// What `normalize` is asked to do.
pub struct NormalizeOptions {
    pub schematic: PathBuf,
    pub palette: Option<PathBuf>,
    pub overrides: Vec<OverrideSpec>,
    pub solids: Vec<BlockId>,
    pub regions: Vec<String>,
    pub renames: Vec<(String, String)>,
    pub output: OutputTarget,
    pub dry_run: bool,
    pub mc_version: Option<String>,
}

/// What `inspect` is asked to do.
pub struct InspectOptions {
    pub schematic: PathBuf,
    pub palette: Option<PathBuf>,
}

/// What `region list` is asked to do.
pub struct RegionListOptions {
    pub schematic: PathBuf,
}

/// What `region rename` is asked to do.
pub struct RegionRenameOptions {
    pub schematic: PathBuf,
    pub renames: Vec<(String, String)>,
    pub output: OutputTarget,
}

/// What `data extract` is asked to do.
pub struct DataExtractOptions {
    pub mc_version: Option<String>,
    pub jar: Option<PathBuf>,
    pub force: bool,
}

/// What `data clean` is asked to do.
pub struct DataCleanOptions {
    pub mc_version: Option<String>,
}

} // verus!
