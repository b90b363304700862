use vstd::prelude::*;

use crate::block::{parse_block_id, BlockId, BlockIdError, BlockIdErrorKind};
use crate::lookup::strings_view;
use crate::overrides::ids_view;
use crate::schematic::{names_of, Schematic};
use crate::text::{split_by, split_chars, str_eq, string_from, trim, trimmed_chars};

verus! {

broadcast use vstd::seq_lib::group_seq_properties;

/// What the solid step of a normalization does before any ranking.
#[derive(Debug, Clone, Copy, PartialEq, Eq, Structural)]
pub enum SolidStep {
    /// Normalize the blocks given with `--solid`.
    Given,
    /// `--solid` was given but the palette has no solid target.
    MissingTarget,
    /// Nothing to choose: no solid target, or configured members decide.
    Skip,
    /// Rank the candidates and offer them.
    Rank,
}

/// Decide the solid step: `--solid` blocks win; otherwise standing members
/// suffice; otherwise the ranked candidates are offered.
pub fn solid_step(solids_given: bool, has_target: bool, has_members: bool) -> (r: SolidStep)
    ensures
        r == if solids_given {
            if has_target {
                SolidStep::Given
            } else {
                SolidStep::MissingTarget
            }
        } else if !has_target || has_members {
            SolidStep::Skip
        } else {
            SolidStep::Rank
        },
{
    if solids_given {
        if has_target {
            SolidStep::Given
        } else {
            SolidStep::MissingTarget
        }
    } else if !has_target || has_members {
        SolidStep::Skip
    } else {
        SolidStep::Rank
    }
}

/// What happens to ranked candidates.
#[derive(Debug, Clone, Copy, PartialEq, Eq, Structural)]
pub enum OfferStep {
    /// No candidates: nothing is normalized as solid.
    Nothing,
    /// No terminal to ask on: the solid step is skipped with a warning.
    NoTerminal,
    /// Ask which candidates to normalize.
    Prompt,
}

/// Nothing is replaced without an explicit choice, and without a terminal
/// the choice is not guessed.
pub fn offer_step(candidates: usize, terminal: bool) -> (r: OfferStep)
    ensures
        r == if candidates == 0 {
            OfferStep::Nothing
        } else if !terminal {
            OfferStep::NoTerminal
        } else {
            OfferStep::Prompt
        },
{
    if candidates == 0 {
        OfferStep::Nothing
    } else if !terminal {
        OfferStep::NoTerminal
    } else {
        OfferStep::Prompt
    }
}

/// Whether region `name` is normalized: all are when none was requested.
pub fn region_selected(requested: &[String], name: &str) -> (r: bool)
    ensures
        r == (requested@.len() == 0 || strings_view(requested@).contains(name@)),
{
    if requested.len() == 0 {
        return true;
    }
    let mut i: usize = 0;
    while i < requested.len()
        invariant
            i <= requested@.len(),
            forall|j: int| 0 <= j < i ==> (#[trigger] requested@[j])@ != name@,
        decreases requested@.len() - i,
    {
        if str_eq(requested[i].as_str(), name) {
            assert(strings_view(requested@)[i as int] == name@);
            return true;
        }
        i += 1;
    }
    assert forall|j: int| 0 <= j < requested@.len() implies #[trigger] strings_view(requested@)[j] != name@ by {
        assert(strings_view(requested@)[j] == requested@[j]@);
    }
    false
}

/// The first requested region name the schematic does not have, if any.
pub fn missing_region(schematic: &Schematic, requested: &[String]) -> (r: Option<String>)
    ensures
        match r {
            Some(n) => exists|i: int|
                0 <= i < requested@.len() && requested@[i]@ == n@ && !names_of(schematic.regions@).contains(n@)
                    && forall|j: int| 0 <= j < i ==> names_of(schematic.regions@).contains(#[trigger] requested@[j]@),
            None => forall|i: int| 0 <= i < requested@.len() ==> names_of(schematic.regions@).contains(#[trigger] requested@[i]@),
        },
{
    let mut i: usize = 0;
    while i < requested.len()
        invariant
            i <= requested@.len(),
            forall|j: int| 0 <= j < i ==> names_of(schematic.regions@).contains(#[trigger] requested@[j]@),
        decreases requested@.len() - i,
    {
        let mut found = false;
        let mut k: usize = 0;
        while k < schematic.regions.len()
            invariant
                k <= schematic.regions@.len(),
                i < requested@.len(),
                found ==> names_of(schematic.regions@).contains(requested@[i as int]@),
                !found ==> forall|j: int| 0 <= j < k ==> names_of(schematic.regions@)[j] != requested@[i as int]@,
            decreases schematic.regions@.len() - k,
        {
            if str_eq(schematic.regions[k].name(), requested[i].as_str()) {
                found = true;
                assert(names_of(schematic.regions@)[k as int] == requested@[i as int]@);
            }
            k += 1;
        }
        if !found {
            return Some(requested[i].clone());
        }
        i += 1;
    }
    None
}

pub open spec fn is_digit(c: char) -> bool {
    '0' <= c && c <= '9'
}

/// The value of a string of decimal digits.
pub open spec fn digits_value(d: Seq<char>) -> nat
    decreases d.len(),
{
    if d.len() == 0 {
        0
    } else {
        digits_value(d.drop_last()) * 10 + (d.last() as nat - '0' as nat) as nat
    }
}

/// The digits of a number: without its optional `+`.
pub open spec fn number_digits(t: Seq<char>) -> Seq<char> {
    if t.len() > 0 && t[0] == '+' {
        t.drop_first()
    } else {
        t
    }
}

pub open spec fn all_digits(d: Seq<char>) -> bool {
    forall|i: int| 0 <= i < d.len() ==> is_digit(#[trigger] d[i])
}

/// What `str::parse::<usize>` gives: an optional `+` and decimal digits
/// whose value fits `usize`.
pub open spec fn parse_index(t: Seq<char>) -> Option<nat> {
    let d = number_digits(t);
    if d.len() > 0 && all_digits(d) && digits_value(d) <= usize::MAX {
        Some(digits_value(d))
    } else {
        None
    }
}

proof fn lemma_digits_grow(d: Seq<char>, k: int)
    requires
        0 <= k <= d.len(),
        forall|i: int| 0 <= i < d.len() ==> is_digit(#[trigger] d[i]),
    ensures
        digits_value(d.take(k)) <= digits_value(d),
    decreases d.len() - k,
{
    if k < d.len() {
        lemma_digits_grow(d, k + 1);
        assert(d.take(k + 1).drop_last() == d.take(k));
        assert(is_digit(d.take(k + 1).last()));
        assert(digits_value(d.take(k)) <= digits_value(d.take(k)) * 10) by (nonlinear_arith);
    } else {
        assert(d.take(k) == d);
    }
}

proof fn lemma_digits_step(d: Seq<char>, j: int)
    requires
        0 <= j < d.len(),
    ensures
        digits_value(d.take(j + 1)) == digits_value(d.take(j)) * 10 + (d[j] as nat - '0' as nat) as nat,
{
    assert(d.take(j + 1).drop_last() == d.take(j));
    assert(d.take(j + 1).last() == d[j]);
}

/// Parse a candidate number as `str::parse::<usize>` does.
fn parse_number(t: &Vec<char>) -> (r: Option<usize>)
    ensures
        match r {
            Some(n) => parse_index(t@) == Some(n as nat),
            None => parse_index(t@) is None,
        },
{
    let start: usize = if t.len() > 0 && t[0] == '+' {
        1
    } else {
        0
    };
    let ghost d = number_digits(t@);
    assert(d == t@.skip(start as int));
    if start == t.len() {
        return None;
    }
    let mut k: usize = start;
    while k < t.len()
        invariant
            start <= k <= t.len(),
            d == t@.skip(start as int),
            d == number_digits(t@),
            forall|i: int| 0 <= i < k - start ==> is_digit(#[trigger] d[i]),
        decreases t.len() - k,
    {
        if !(t[k] >= '0' && t[k] <= '9') {
            assert(d[k - start] == t@[k as int]);
            assert(!is_digit(d[k - start]));
            assert(0 <= k - start < d.len());
            assert(!(forall|j: int| 0 <= j < d.len() ==> is_digit(#[trigger] d[j])));
            assert(parse_index(t@) is None);
            return None;
        }
        k += 1;
    }
    let mut value: usize = 0;
    let mut i: usize = start;
    assert(d.take(0) =~= Seq::<char>::empty());
    while i < t.len()
        invariant
            start <= i <= t.len(),
            d == t@.skip(start as int),
            d == number_digits(t@),
            forall|j: int| 0 <= j < d.len() ==> is_digit(#[trigger] d[j]),
            value == digits_value(d.take(i - start)),
        decreases t.len() - i,
    {
        let digit = (t[i] as u32 - '0' as u32) as usize;
        proof {
            lemma_digits_step(d, i - start);
            assert(d[i - start] == t@[i as int]);
        }
        match value.checked_mul(10) {
            Some(m) => match m.checked_add(digit) {
                Some(v) => {
                    value = v;
                },
                None => {
                    proof {
                        lemma_digits_grow(d, i - start + 1);
                    }
                    return None;
                },
            },
            None => {
                proof {
                    lemma_digits_grow(d, i - start + 1);
                }
                return None;
            },
        }
        i += 1;
    }
    assert(d.take(i - start) == d);
    Some(value)
}

/// `s` reads `none` in any ASCII case.
pub open spec fn is_none_word(s: Seq<char>) -> bool {
    &&& s.len() == 4
    &&& (s[0] == 'n' || s[0] == 'N')
    &&& (s[1] == 'o' || s[1] == 'O')
    &&& (s[2] == 'n' || s[2] == 'N')
    &&& (s[3] == 'e' || s[3] == 'E')
}

/// The tokens of an answer: its comma-separated parts, trimmed, empty ones
/// left out.
pub open spec fn answer_tokens(line: Seq<char>) -> Seq<Seq<char>> {
    non_empty(trim_all(split_by(trim(line), ',')))
}

/// Each string of `s` trimmed.
pub open spec fn trim_all(s: Seq<Seq<char>>) -> Seq<Seq<char>> {
    s.map_values(|p: Seq<char>| trim(p))
}

/// The non-empty strings of `s`, in order.
pub open spec fn non_empty(s: Seq<Seq<char>>) -> Seq<Seq<char>>
    decreases s.len(),
{
    if s.len() == 0 {
        Seq::empty()
    } else if s.last().len() > 0 {
        non_empty(s.drop_last()).push(s.last())
    } else {
        non_empty(s.drop_last())
    }
}

/// What one token selects: the candidate with that number, or the block id
/// it spells; `Err(None)` for a number with no candidate, `Err(Some(kind))`
/// for a refused block id.
pub open spec fn token_choice(t: Seq<char>, candidates: Seq<Seq<char>>) -> Result<Seq<char>, Option<BlockIdErrorKind>> {
    match parse_index(t) {
        Some(n) => if 1 <= n <= candidates.len() {
            Ok(candidates[n - 1])
        } else {
            Err(None)
        },
        None => match parse_block_id(t) {
            Ok(id) => Ok(id),
            Err(k) => Err(Some(k)),
        },
    }
}

/// The block ids of ranked candidates, in order.
pub open spec fn candidate_ids(c: Seq<(BlockId, u64)>) -> Seq<Seq<char>> {
    c.map_values(|e: (BlockId, u64)| e.0@)
}

/// The answer to the solid prompt.
#[derive(Debug, Clone)]
pub enum SelectionAnswer {
    /// An empty answer or `none`: nothing is normalized as solid.
    Skip,
    /// Nothing was chosen: ask again.
    Retry,
    /// The chosen blocks, each once.
    Chosen(Vec<BlockId>),
    /// A number with no candidate: report it and ask again.
    NoCandidate(String),
    /// A refused block id: report it and ask again.
    InvalidId(BlockIdError),
}

/// Read an answer to the solid prompt against the ranked candidates:
/// numbers pick candidates (from 1), anything else is a block id. The first
/// bad token spoils the answer.
#[verifier::rlimit(40)]
pub fn parse_selection(line: &str, candidates: &[(BlockId, u64)]) -> (r: SelectionAnswer)
    ensures
        ({
            let t = trim(line@);
            let tokens = answer_tokens(line@);
            let cands = candidate_ids(candidates@);
            if t.len() == 0 || is_none_word(t) {
                r is Skip
            } else {
                match r {
                    SelectionAnswer::Skip => false,
                    SelectionAnswer::Retry => tokens.len() == 0,
                    SelectionAnswer::Chosen(ids) => {
                        &&& tokens.len() > 0
                        &&& forall|i: int| 0 <= i < tokens.len() ==> token_choice(#[trigger] tokens[i], cands) is Ok
                        &&& ids_view(ids@).no_duplicates()
                        &&& forall|id: Seq<char>|
                            #[trigger] ids_view(ids@).contains(id) <==> exists|i: int|
                                0 <= i < tokens.len() && token_choice(tokens[i], cands) == Ok::<
                                    Seq<char>,
                                    Option<BlockIdErrorKind>,
                                >(id)
                    },
                    SelectionAnswer::NoCandidate(token) => exists|k: int|
                        0 <= k < tokens.len() && tokens[k] == token@ && token_choice(tokens[k], cands) == Err::<
                            Seq<char>,
                            Option<BlockIdErrorKind>,
                        >(None) && forall|i: int| 0 <= i < k ==> token_choice(#[trigger] tokens[i], cands) is Ok,
                    SelectionAnswer::InvalidId(e) => exists|k: int|
                        0 <= k < tokens.len() && tokens[k] == e.input@ && token_choice(tokens[k], cands) == Err::<
                            Seq<char>,
                            Option<BlockIdErrorKind>,
                        >(Some(e.kind)) && forall|i: int| 0 <= i < k ==> token_choice(#[trigger] tokens[i], cands) is Ok,
                }
            }
        }),
{
    let t = trimmed_chars(line);
    let ghost cands = candidate_ids(candidates@);
    if t.len() == 0 || (t.len() == 4 && (t[0] == 'n' || t[0] == 'N') && (t[1] == 'o' || t[1] == 'O') && (t[2]
        == 'n' || t[2] == 'N') && (t[3] == 'e' || t[3] == 'E')) {
        return SelectionAnswer::Skip;
    }
    let parts = split_chars(&t, ',');
    let ghost all = split_by(t@, ',').map_values(|p: Seq<char>| trim(p));
    let ghost tokens = answer_tokens(line@);
    let mut chosen: Vec<BlockId> = Vec::new();
    let ghost mut seen: Seq<Seq<char>> = Seq::empty();
    let mut p: usize = 0;
    proof {
        assert(non_empty(all.take(0)) =~= seen);
    }
    while p < parts.len()
        invariant
            p <= parts@.len(),
            parts@.len() == split_by(t@, ',').len(),
            forall|i: int| 0 <= i < parts@.len() ==> #[trigger] parts@[i]@ == split_by(t@, ',')[i],
            t@ == trim(line@),
            !(t@.len() == 0 || is_none_word(t@)),
            tokens == answer_tokens(line@),
            all == trim_all(split_by(t@, ',')),
            tokens == non_empty(all),
            cands == candidate_ids(candidates@),
            seen == non_empty(all.take(p as int)),
            forall|i: int| 0 <= i < seen.len() ==> token_choice(#[trigger] seen[i], cands) is Ok,
            ids_view(chosen@).no_duplicates(),
            forall|id: Seq<char>|
                #[trigger] ids_view(chosen@).contains(id) <==> exists|i: int|
                    0 <= i < seen.len() && token_choice(seen[i], cands) == Ok::<Seq<char>, Option<BlockIdErrorKind>>(id),
        decreases parts@.len() - p,
    {
        let token = trimmed_chars(string_from(&parts[p]).as_str());
        proof {
            assert(all[p as int] == token@);
            assert(all.take(p + 1) == all.take(p as int).push(token@));
            assert(all.take(p + 1).drop_last() == all.take(p as int));
            lemma_non_empty_prefix(all, p as int + 1);
        }
        if token.len() > 0 {
            let ghost k = seen.len() as int;
            proof {
                assert(all.take(p + 1).last() == token@);
                assert(non_empty(all.take(p + 1)) == seen.push(token@));
                assert(k + 1 <= tokens.len());
                assert(tokens.take(k + 1) == seen.push(token@));
                assert(tokens.take(k + 1)[k] == tokens[k]);
                assert(tokens[k] == token@);
                assert forall|i: int| 0 <= i < k implies token_choice(#[trigger] tokens[i], cands) is Ok by {
                    assert(tokens.take(k + 1)[i] == tokens[i]);
                    assert(seen.push(token@)[i] == seen[i]);
                }
            }
            let pick: Option<BlockId> = match parse_number(&token) {
                Some(n) => {
                    if n >= 1 && n <= candidates.len() {
                        Some(candidates[n - 1].0.copy())
                    } else {
                        proof {
                            assert(cands.len() == candidates@.len());
                            assert(token_choice(tokens[k], cands) == Err::<Seq<char>, Option<BlockIdErrorKind>>(None));
                        }
                        return SelectionAnswer::NoCandidate(string_from(&token));
                    }
                },
                None => match BlockId::parse(string_from(&token).as_str()) {
                    Ok(id) => Some(id),
                    Err(e) => {
                        proof {
                            crate::text::lemma_trim_idempotent(split_by(t@, ',')[p as int]);
                            assert(e.input@ == token@);
                            assert(token_choice(tokens[k], cands) == Err::<Seq<char>, Option<BlockIdErrorKind>>(Some(e.kind)));
                        }
                        return SelectionAnswer::InvalidId(e);
                    },
                },
            };
            let id = match pick {
                Some(id) => id,
                None => {
                    return SelectionAnswer::Retry;
                },
            };
            let ghost old_chosen = ids_view(chosen@);
            let mut present = false;
            let mut c: usize = 0;
            while c < chosen.len()
                invariant
                    c <= chosen@.len(),
                    present == ids_view(chosen@).take(c as int).contains(id@),
                decreases chosen@.len() - c,
            {
                if chosen[c].same(&id) {
                    present = true;
                }
                proof {
                    assert(ids_view(chosen@).take(c + 1) == ids_view(chosen@).take(c as int).push(chosen@[c as int]@));
                }
                c += 1;
            }
            assert(ids_view(chosen@).take(c as int) == ids_view(chosen@));
            let ghost chosen_id = id@;
            if !present {
                chosen.push(id);
                proof {
                    assert(ids_view(chosen@) =~= old_chosen.push(chosen_id));
                }
            }
            proof {
                let new_seen = seen.push(token@);
                assert(token_choice(token@, cands) == Ok::<Seq<char>, Option<BlockIdErrorKind>>(chosen_id));
                assert forall|x: Seq<char>|
                    #[trigger] ids_view(chosen@).contains(x) <==> exists|i: int|
                        0 <= i < new_seen.len() && token_choice(new_seen[i], cands) == Ok::<Seq<char>, Option<BlockIdErrorKind>>(x) by {
                    if ids_view(chosen@).contains(x) && x != chosen_id {
                        assert(old_chosen.contains(x));
                        let i = choose|i: int| 0 <= i < seen.len() && token_choice(seen[i], cands) == Ok::<Seq<char>, Option<BlockIdErrorKind>>(x);
                        assert(new_seen[i] == seen[i]);
                    }
                    if x == chosen_id {
                        assert(new_seen[seen.len() as int] == token@);
                    }
                    if exists|i: int| 0 <= i < new_seen.len() && token_choice(new_seen[i], cands) == Ok::<Seq<char>, Option<BlockIdErrorKind>>(x) {
                        let i = choose|i: int| 0 <= i < new_seen.len() && token_choice(new_seen[i], cands) == Ok::<Seq<char>, Option<BlockIdErrorKind>>(x);
                        if i < seen.len() {
                            assert(new_seen[i] == seen[i]);
                            assert(old_chosen.contains(x));
                        }
                    }
                }
                seen = new_seen;
            }
        } else {
            proof {
                assert(all.take(p + 1).drop_last() == all.take(p as int));
                assert(non_empty(all.take(p + 1)) == seen);
            }
        }
        p += 1;
    }
    proof {
        assert(all.take(p as int) == all);
    }
    if chosen.len() == 0 {
        proof {
            if tokens.len() > 0 {
                assert(token_choice(tokens[0], cands) is Ok);
                let id = token_choice(tokens[0], cands)->Ok_0;
                assert(ids_view(chosen@).contains(id));
            }
        }
        SelectionAnswer::Retry
    } else {
        proof {
            assert(ids_view(chosen@).contains(ids_view(chosen@)[0]));
        }
        SelectionAnswer::Chosen(chosen)
    }
}

proof fn lemma_non_empty_prefix(s: Seq<Seq<char>>, n: int)
    requires
        0 <= n <= s.len(),
    ensures
        non_empty(s.take(n)).len() <= non_empty(s).len(),
        non_empty(s).take(non_empty(s.take(n)).len() as int) == non_empty(s.take(n)),
    decreases s.len() - n,
{
    if n < s.len() {
        lemma_non_empty_prefix(s, n + 1);
        assert(s.take(n + 1).drop_last() == s.take(n));
        let a = non_empty(s.take(n));
        let b = non_empty(s.take(n + 1));
        let all = non_empty(s);
        assert(a.len() <= b.len());
        assert(b.take(a.len() as int) =~= a);
        assert(all.take(a.len() as int) =~= all.take(b.len() as int).take(a.len() as int));
    } else {
        assert(s.take(n) == s);
    }
}

} // verus!
