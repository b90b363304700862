use vstd::prelude::*;

use std::path::PathBuf;

use crate::block::BlockId;
use crate::cli::{
    DataCleanOptions, DataExtractOptions, InspectOptions, NormalizeOptions, OutputTarget, RegionListOptions,
    RegionRenameOptions,
};
use crate::lookup::strings_view;
use crate::order::pairs_view;
use crate::overrides::{copy_ids, ids_view, OverrideSpec};
use crate::paths::copy_path;
use crate::text::surround;

verus! {

/// `normalize`: its arguments as the command line gives them.
pub struct NormalizeCommand {
    pub schematic: PathBuf,
    pub palette: Option<PathBuf>,
    pub overrides: Vec<OverrideSpec>,
    pub solids: Vec<BlockId>,
    pub out: Option<PathBuf>,
    pub in_place: bool,
    pub regions: Vec<String>,
    pub renames: Vec<(String, String)>,
    pub dry_run: bool,
    pub mc_version: Option<String>,
}

/// `inspect`: its arguments.
pub struct InspectCommand {
    pub schematic: PathBuf,
    pub palette: Option<PathBuf>,
}

/// `region`: one of its subcommands.
pub struct RegionCommand {
    pub command: RegionSubcommand,
}

/// The subcommands of `region`.
pub enum RegionSubcommand {
    List(RegionListCommand),
    Rename(RegionRenameCommand),
}

/// `region list`: its arguments.
pub struct RegionListCommand {
    pub schematic: PathBuf,
}

/// `region rename`: its arguments; the command line asks for `out` or
/// `in_place`.
pub struct RegionRenameCommand {
    pub schematic: PathBuf,
    pub renames: Vec<(String, String)>,
    pub out: Option<PathBuf>,
    pub in_place: bool,
}

/// `data`: one of its subcommands.
pub struct DataCommand {
    pub command: DataSubcommand,
}

/// The subcommands of `data`.
pub enum DataSubcommand {
    Extract(DataExtractCommand),
    Status(DataStatusCommand),
    Clean(DataCleanCommand),
}

/// `data extract`: its arguments.
pub struct DataExtractCommand {
    pub mc_version: Option<String>,
    pub jar: Option<PathBuf>,
    pub force: bool,
}

/// `data status`: it takes no argument.
pub struct DataStatusCommand {}

/// `data clean`: its arguments.
pub struct DataCleanCommand {
    pub mc_version: Option<String>,
}

/// The file name of the default output of `normalize`: the input's stem
/// followed by `.normalized.litematic`.
pub fn normalized_file_name(stem: &str) -> (r: String)
    ensures
        r@ == stem@ + ".normalized.litematic"@,
{
    proof {
        reveal_strlit("");
        assert(""@ + stem@ =~= stem@);
    }
    surround("", stem, ".normalized.litematic")
}

fn copy_opt_path(p: &Option<PathBuf>) -> (r: Option<PathBuf>)
    ensures
        r == *p,
{
    match p {
        Some(p) => Some(copy_path(p)),
        None => None,
    }
}

fn copy_opt_string(s: &Option<String>) -> (r: Option<String>)
    ensures
        r == *s,
{
    match s {
        Some(s) => Some(s.clone()),
        None => None,
    }
}

fn copy_strings(v: &Vec<String>) -> (r: Vec<String>)
    ensures
        strings_view(r@) == strings_view(v@),
{
    let mut r: Vec<String> = Vec::new();
    let mut i: usize = 0;
    while i < v.len()
        invariant
            i <= v@.len(),
            r@.len() == i,
            forall|j: int| 0 <= j < i ==> (#[trigger] r@[j])@ == v@[j]@,
        decreases v@.len() - i,
    {
        r.push(v[i].clone());
        i += 1;
    }
    assert(strings_view(r@) =~= strings_view(v@));
    r
}

fn copy_pairs(v: &Vec<(String, String)>) -> (r: Vec<(String, String)>)
    ensures
        pairs_view(r@) == pairs_view(v@),
{
    let mut r: Vec<(String, String)> = Vec::new();
    let mut i: usize = 0;
    while i < v.len()
        invariant
            i <= v@.len(),
            r@.len() == i,
            forall|j: int| 0 <= j < i ==> (#[trigger] r@[j]).0@ == v@[j].0@ && r@[j].1@ == v@[j].1@,
        decreases v@.len() - i,
    {
        r.push((v[i].0.clone(), v[i].1.clone()));
        i += 1;
    }
    assert(pairs_view(r@) =~= pairs_view(v@));
    r
}

fn copy_overrides(v: &Vec<OverrideSpec>) -> (r: Vec<OverrideSpec>)
    ensures
        r@.len() == v@.len(),
        forall|j: int| 0 <= j < v@.len() ==> (#[trigger] r@[j]).spec_view() == v@[j].spec_view(),
{
    let mut r: Vec<OverrideSpec> = Vec::new();
    let mut i: usize = 0;
    while i < v.len()
        invariant
            i <= v@.len(),
            r@.len() == i,
            forall|j: int| 0 <= j < i ==> (#[trigger] r@[j]).spec_view() == v@[j].spec_view(),
        decreases v@.len() - i,
    {
        r.push(v[i].copy());
        i += 1;
    }
    r
}

impl NormalizeCommand {
    /// Where the result goes: over the input with `in_place`, else to `out`,
    /// else to `default_output`.
    pub fn output_target(&self, default_output: &PathBuf) -> (r: OutputTarget)
        ensures
            self.in_place ==> r is InPlace,
            !self.in_place ==> r == OutputTarget::Path(
                match self.out {
                    Some(p) => p,
                    None => *default_output,
                },
            ),
    {
        if self.in_place {
            OutputTarget::InPlace
        } else {
            match &self.out {
                Some(p) => OutputTarget::Path(copy_path(p)),
                None => OutputTarget::Path(copy_path(default_output)),
            }
        }
    }

    /// The options `normalize` runs with: the arguments as given, and the
    /// output chosen by `output_target`.
    pub fn options(&self, default_output: &PathBuf) -> (r: NormalizeOptions)
        ensures
            r.schematic == self.schematic,
            r.palette == self.palette,
            r.overrides@.len() == self.overrides@.len(),
            forall|j: int|
                0 <= j < self.overrides@.len() ==> (#[trigger] r.overrides@[j]).spec_view()
                    == self.overrides@[j].spec_view(),
            ids_view(r.solids@) == ids_view(self.solids@),
            strings_view(r.regions@) == strings_view(self.regions@),
            pairs_view(r.renames@) == pairs_view(self.renames@),
            self.in_place ==> r.output is InPlace,
            !self.in_place ==> r.output == OutputTarget::Path(
                match self.out {
                    Some(p) => p,
                    None => *default_output,
                },
            ),
            r.dry_run == self.dry_run,
            r.mc_version == self.mc_version,
    {
        NormalizeOptions {
            schematic: copy_path(&self.schematic),
            palette: copy_opt_path(&self.palette),
            overrides: copy_overrides(&self.overrides),
            solids: copy_ids(&self.solids),
            regions: copy_strings(&self.regions),
            renames: copy_pairs(&self.renames),
            output: self.output_target(default_output),
            dry_run: self.dry_run,
            mc_version: copy_opt_string(&self.mc_version),
        }
    }
}

impl InspectCommand {
    /// The options `inspect` runs with.
    pub fn options(&self) -> (r: InspectOptions)
        ensures
            r.schematic == self.schematic,
            r.palette == self.palette,
    {
        InspectOptions { schematic: copy_path(&self.schematic), palette: copy_opt_path(&self.palette) }
    }
}

impl RegionListCommand {
    /// The options `region list` runs with.
    pub fn options(&self) -> (r: RegionListOptions)
        ensures
            r.schematic == self.schematic,
    {
        RegionListOptions { schematic: copy_path(&self.schematic) }
    }
}

impl RegionRenameCommand {
    /// The options `region rename` runs with: the result goes to `out` when
    /// given, else over the input.
    pub fn options(&self) -> (r: RegionRenameOptions)
        ensures
            r.schematic == self.schematic,
            pairs_view(r.renames@) == pairs_view(self.renames@),
            r.output == match self.out {
                Some(p) => OutputTarget::Path(p),
                None => OutputTarget::InPlace,
            },
    {
        let output = match &self.out {
            Some(p) => OutputTarget::Path(copy_path(p)),
            None => OutputTarget::InPlace,
        };
        RegionRenameOptions { schematic: copy_path(&self.schematic), renames: copy_pairs(&self.renames), output }
    }
}

impl DataExtractCommand {
    /// The options `data extract` runs with.
    pub fn options(&self) -> (r: DataExtractOptions)
        ensures
            r.mc_version == self.mc_version,
            r.jar == self.jar,
            r.force == self.force,
    {
        DataExtractOptions {
            mc_version: copy_opt_string(&self.mc_version),
            jar: copy_opt_path(&self.jar),
            force: self.force,
        }
    }
}

impl DataCleanCommand {
    /// The options `data clean` runs with.
    pub fn options(&self) -> (r: DataCleanOptions)
        ensures
            r.mc_version == self.mc_version,
    {
        DataCleanOptions { mc_version: copy_opt_string(&self.mc_version) }
    }
}

} // verus!
