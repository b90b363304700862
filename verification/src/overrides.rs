use vstd::prelude::*;

use crate::block::{parse_block_id, BlockId, BlockIdError, BlockIdErrorKind};
use crate::text::{
    chars_have, chars_of, find_char, split_by, split_chars, split_once, string_from,
    string_from_range, trim, trimmed_chars,
};

verus! {

/// Why an override was refused.
#[derive(Debug, Clone, Copy, PartialEq, Eq, Structural)]
pub enum OverrideErrorKind {
    /// No '=' between sources and target.
    MissingEquals,
    /// A second '=' after the first.
    ExtraEquals,
    /// A source is not a valid block id.
    InvalidSource(BlockIdErrorKind),
    /// The target is not a valid block id.
    InvalidTarget(BlockIdErrorKind),
}

/// A refused override: the reason, the override text, and the block id
/// error behind it, if any.
#[derive(Debug, Clone)]
pub struct OverrideError {
    pub kind: OverrideErrorKind,
    pub input: String,
    pub cause: Option<BlockIdError>,
}

/// The message of a refused override; a refused block id inside it is its
/// cause, not part of the message.
pub open spec fn override_message(kind: OverrideErrorKind, input: Seq<char>) -> Seq<char> {
    match kind {
        OverrideErrorKind::MissingEquals => "override '"@ + input + "' is missing '=' (expected 'source[,source]=target')"@,
        OverrideErrorKind::ExtraEquals => "override '"@ + input + "' contains more than one '='"@,
        _ => "in override '"@ + input + "'"@,
    }
}

impl OverrideError {
    /// What went wrong, in words.
    pub fn message(&self) -> (r: String)
        ensures
            r@ == override_message(self.kind, self.input@),
    {
        let input = self.input.as_str();
        match self.kind {
            OverrideErrorKind::MissingEquals => crate::text::surround(
                "override '",
                input,
                "' is missing '=' (expected 'source[,source]=target')",
            ),
            OverrideErrorKind::ExtraEquals => crate::text::surround("override '", input, "' contains more than one '='"),
            _ => crate::text::surround("in override '", input, "'"),
        }
    }
}

/// The first source that is not a valid block id, by its error.
pub open spec fn first_bad_source(pieces: Seq<Seq<char>>) -> Option<BlockIdErrorKind>
    decreases pieces.len(),
{
    if pieces.len() == 0 {
        None
    } else {
        match parse_block_id(pieces[0]) {
            Err(k) => Some(k),
            Ok(_) => first_bad_source(pieces.drop_first()),
        }
    }
}

/// The canonical ids of sources that all parse.
pub open spec fn parsed_sources(pieces: Seq<Seq<char>>) -> Seq<Seq<char>> {
    pieces.map_values(|p: Seq<char>| parse_block_id(p)->Ok_0)
}

/// What `OverrideSpec::parse` gives for an input: the source ids and the
/// optional target id, or the first rule the input breaks.
pub open spec fn parse_override_spec(input: Seq<char>) -> Result<
    (Seq<Seq<char>>, Option<Seq<char>>),
    OverrideErrorKind,
> {
    match split_once(input, '=') {
        None => Err(OverrideErrorKind::MissingEquals),
        Some(parts) => {
            let left = parts.0;
            let right = parts.1;
            if right.contains('=') {
                Err(OverrideErrorKind::ExtraEquals)
            } else {
                match first_bad_source(split_by(left, ',')) {
                    Some(k) => Err(OverrideErrorKind::InvalidSource(k)),
                    None => {
                        let sources = parsed_sources(split_by(left, ','));
                        if trim(right).len() == 0 {
                            Ok((sources, None))
                        } else {
                            match parse_block_id(right) {
                                Ok(t) => Ok((sources, Some(t))),
                                Err(k) => Err(OverrideErrorKind::InvalidTarget(k)),
                            }
                        }
                    },
                }
            }
        },
    }
}

/// A replacement override such as `minecraft:dirt,minecraft:stone=minecraft:deepslate`.
/// An empty target (`minecraft:dirt=`) exempts the sources from normalization.
#[derive(Debug, Clone, PartialEq, Eq)]
pub struct OverrideSpec {
    pub sources: Vec<BlockId>,
    pub target: Option<BlockId>,
}

pub open spec fn ids_view(v: Seq<BlockId>) -> Seq<Seq<char>> {
    v.map_values(|id: BlockId| id@)
}

pub open spec fn opt_id_view(t: Option<BlockId>) -> Option<Seq<char>> {
    match t {
        Some(id) => Some(id@),
        None => None,
    }
}

/// A copy of a list of block ids.
pub fn copy_ids(v: &Vec<BlockId>) -> (r: Vec<BlockId>)
    ensures
        ids_view(r@) == ids_view(v@),
{
    let mut r: Vec<BlockId> = Vec::new();
    let mut i: usize = 0;
    while i < v.len()
        invariant
            i <= v@.len(),
            r@.len() == i,
            forall|j: int| 0 <= j < i ==> (#[trigger] r@[j])@ == v@[j]@,
        decreases v@.len() - i,
    {
        r.push(v[i].copy());
        i += 1;
    }
    assert(ids_view(r@) =~= ids_view(v@));
    r
}

impl OverrideSpec {
    pub open spec fn spec_view(self) -> (Seq<Seq<char>>, Option<Seq<char>>) {
        (ids_view(self.sources@), opt_id_view(self.target))
    }

    /// A copy of this override.
    pub fn copy(&self) -> (r: OverrideSpec)
        ensures
            r.spec_view() == self.spec_view(),
    {
        let sources = copy_ids(&self.sources);
        let target = match &self.target {
            Some(t) => Some(t.copy()),
            None => None,
        };
        OverrideSpec { sources, target }
    }

    pub fn parse(input: &str) -> (r: Result<OverrideSpec, OverrideError>)
        ensures
            match r {
                Ok(spec) => parse_override_spec(input@) == Ok::<
                    (Seq<Seq<char>>, Option<Seq<char>>),
                    OverrideErrorKind,
                >(spec.spec_view()),
                Err(e) => parse_override_spec(input@) == Err::<
                    (Seq<Seq<char>>, Option<Seq<char>>),
                    OverrideErrorKind,
                >(e.kind) && e.input@ == input@,
            },
    {
        let v = chars_of(input);
        let eq = match find_char(&v, '=') {
            Some(k) => k,
            None => {
                return Err(
                    OverrideError {
                        kind: OverrideErrorKind::MissingEquals,
                        input: string_from(&v),
                        cause: None,
                    },
                );
            },
        };
        let left = crate::text::sub_chars(&v, 0, eq);
        let right = crate::text::sub_chars(&v, eq + 1, v.len());
        assert(left@ == v@.take(eq as int));
        assert(right@ == v@.skip(eq + 1));
        assert(split_once(input@, '=') == Some((left@, right@)));
        if chars_have(&right, '=') {
            return Err(
                OverrideError {
                    kind: OverrideErrorKind::ExtraEquals,
                    input: string_from(&v),
                    cause: None,
                },
            );
        }
        let pieces = split_chars(&left, ',');
        let ghost pv = split_by(left@, ',');
        let mut sources: Vec<BlockId> = Vec::new();
        let mut i: usize = 0;
        assert(pv.skip(0) == pv);
        while i < pieces.len()
            invariant
                v@ == input@,
                split_once(input@, '=') == Some((left@, right@)),
                !right@.contains('='),
                pv == split_by(left@, ','),
                pieces@.len() == pv.len(),
                forall|j: int| 0 <= j < pieces@.len() ==> #[trigger] pieces@[j]@ == pv[j],
                i <= pieces.len(),
                first_bad_source(pv) == first_bad_source(pv.skip(i as int)),
                ids_view(sources@) == parsed_sources(pv.take(i as int)),
                forall|j: int| 0 <= j < i ==> parse_block_id(#[trigger] pv[j]) is Ok,
            decreases pieces.len() - i,
        {
            let text = string_from(&pieces[i]);
            assert(pv.skip(i as int)[0] == pv[i as int]);
            match BlockId::parse(text.as_str()) {
                Ok(id) => {
                    proof {
                        assert(pv.skip(i as int).drop_first() == pv.skip(i + 1));
                    }
                    let ghost old = sources@;
                    sources.push(id);
                    proof {
                        assert(pv.take(i + 1) == pv.take(i as int).push(pv[i as int]));
                        assert(ids_view(sources@) =~= ids_view(old).push(id@));
                        assert(parsed_sources(pv.take(i + 1)) =~= parsed_sources(pv.take(i as int)).push(
                            parse_block_id(pv[i as int])->Ok_0,
                        ));
                    }
                },
                Err(e) => {
                    assert(first_bad_source(pv.skip(i as int)) == Some(e.kind));
                    assert(first_bad_source(pv) == Some(e.kind));
                    return Err(
                        OverrideError {
                            kind: OverrideErrorKind::InvalidSource(e.kind),
                            input: string_from(&v),
                            cause: Some(e),
                        },
                    );
                },
            }
            i += 1;
        }
        proof {
            assert(pv.take(i as int) == pv);
            assert(pv.skip(i as int).len() == 0);
        }
        let t = trimmed_chars(string_from(&right).as_str());
        if t.len() == 0 {
            return Ok(OverrideSpec { sources, target: None });
        }
        let right_text = string_from(&right);
        match BlockId::parse(right_text.as_str()) {
            Ok(id) => Ok(OverrideSpec { sources, target: Some(id) }),
            Err(e) => Err(
                OverrideError {
                    kind: OverrideErrorKind::InvalidTarget(e.kind),
                    input: string_from(&v),
                    cause: Some(e),
                },
            ),
        }
    }
}

} // verus!
