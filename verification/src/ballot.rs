//! The ballot decoder: from a voter's preference string to the candidates
//! chosen, in the voter's order.

use crate::candidate::CandidateId;
use crate::group::{group_lists, Group};
use crate::preference_map::{lemma_values_of_mapped, values_in_key_order, PreferenceMap};
use crate::token::{parse_preference, preference_number, split_preferences, token_views, tokens_of};
use vstd::prelude::*;

verus! {

/// Why a ballot paper could not be decoded.
#[derive(Clone, Copy, Debug, PartialEq, Eq, Structural)]
pub enum BallotParseError {
    /// A box holds text that is no preference number.
    NonIntegerPreference,
    /// Boxes are filled in both above and below the line.
    BothSectionsMarked,
    /// No box is filled in.
    NeitherSectionMarked,
    /// The record that should hold the paper could not be read.
    UnderlyingRecordError,
}

/// Whether any box of a section is filled in.
pub open spec fn marked(tokens: Seq<Seq<char>>) -> bool {
    exists|i: int| 0 <= i < tokens.len() && (#[trigger] tokens[i]).len() > 0
}

/// Whether a section has a box that is filled in with something that is no
/// preference number.
pub open spec fn malformed(tokens: Seq<Seq<char>>) -> bool {
    exists|i: int|
        0 <= i < tokens.len() && (#[trigger] tokens[i]).len() > 0 && preference_number(tokens[i])
            is None
}

/// The numbers in the boxes of a section; `None` for a box without one.
pub open spec fn numbers_of(tokens: Seq<Seq<char>>) -> Seq<Option<u32>> {
    tokens.map_values(|t: Seq<char>| preference_number(t))
}

/// The map from each preference number that the voter wrote to what stands
/// at the box it was written in. Where a number was written in two boxes,
/// the later box counts.
pub open spec fn marked_preferences<V>(numbers: Seq<Option<u32>>, values: Seq<V>) -> Map<u32, V>
    decreases numbers.len(),
{
    if numbers.len() == 0 {
        Map::empty()
    } else {
        let earlier = marked_preferences(numbers.drop_last(), values);
        match numbers.last() {
            Some(preference) => earlier.insert(preference, values[numbers.len() - 1]),
            None => earlier,
        }
    }
}

/// What a below-the-line section decodes to: the candidates whose boxes are
/// numbered, in ascending order of number.
pub open spec fn below_the_line(tokens: Seq<Seq<char>>, candidates: Seq<CandidateId>) -> Result<
    Seq<CandidateId>,
    BallotParseError,
> {
    if malformed(tokens) {
        Err(BallotParseError::NonIntegerPreference)
    } else {
        Ok(values_in_key_order(marked_preferences(numbers_of(tokens), candidates)))
    }
}

/// What an above-the-line section decodes to: the member lists of the
/// groups whose boxes are numbered, one after the other in ascending order
/// of number.
pub open spec fn above_the_line(tokens: Seq<Seq<char>>, groups: Seq<Seq<CandidateId>>) -> Result<
    Seq<CandidateId>,
    BallotParseError,
> {
    if malformed(tokens) {
        Err(BallotParseError::NonIntegerPreference)
    } else {
        Ok(values_in_key_order(marked_preferences(numbers_of(tokens), groups)).flatten())
    }
}

/// The boxes above the line: the first `groups` boxes of the paper, or all
/// of its boxes if it has fewer.
pub open spec fn above_section(tokens: Seq<Seq<char>>, groups: nat) -> Seq<Seq<char>> {
    if groups <= tokens.len() {
        tokens.take(groups as int)
    } else {
        tokens
    }
}

/// The boxes below the line: all boxes after the first `groups`.
pub open spec fn below_section(tokens: Seq<Seq<char>>, groups: nat) -> Seq<Seq<char>> {
    if groups <= tokens.len() {
        tokens.skip(groups as int)
    } else {
        Seq::empty()
    }
}

/// Whether every box of a section that is filled in is one of its first
/// `places` boxes.
pub open spec fn within(tokens: Seq<Seq<char>>, places: nat) -> bool {
    forall|i: int| 0 <= i < tokens.len() && (#[trigger] tokens[i]).len() > 0 ==> i < places
}

/// Whether a section can be decoded against `places` groups or candidates:
/// each box that is filled in has its place among them, unless the section
/// is refused anyway for a box that holds no number.
pub open spec fn section_fits(tokens: Seq<Seq<char>>, places: nat) -> bool {
    malformed(tokens) || within(tokens, places)
}

/// Whether a preference string can be decoded for a paper with `groups`
/// boxes above the line and `candidates` boxes below it: where the paper is
/// filled in below the line only, its section there can be decoded against
/// that many candidates.
pub open spec fn fits_paper(pref_string: Seq<char>, groups: nat, candidates: nat) -> bool {
    let tokens = tokens_of(pref_string);
    marked(above_section(tokens, groups)) || section_fits(below_section(tokens, groups), candidates)
}

/// What a preference string decodes to, for a state with the given groups
/// and candidates.
///
/// Exactly one of the two sections must be marked, and that section decides
/// the result.
pub open spec fn decode(
    pref_string: Seq<char>,
    groups: Seq<Seq<CandidateId>>,
    candidates: Seq<CandidateId>,
) -> Result<Seq<CandidateId>, BallotParseError> {
    let tokens = tokens_of(pref_string);
    let above = above_section(tokens, groups.len());
    let below = below_section(tokens, groups.len());
    if marked(above) && marked(below) {
        Err(BallotParseError::BothSectionsMarked)
    } else if marked(above) {
        above_the_line(above, groups)
    } else if marked(below) {
        below_the_line(below, candidates)
    } else {
        Err(BallotParseError::NeitherSectionMarked)
    }
}

/// A decoding outcome with its list of candidates as a sequence.
pub open spec fn outcome_view(outcome: Result<Vec<CandidateId>, BallotParseError>) -> Result<
    Seq<CandidateId>,
    BallotParseError,
> {
    match outcome {
        Ok(preferences) => Ok(preferences@),
        Err(e) => Err(e),
    }
}

/// Tells whether any box of a section is filled in.
pub fn is_marked(tokens: &[Vec<char>]) -> (b: bool)
    ensures
        b == marked(token_views(tokens@)),
{
    let mut i: usize = 0;
    while i < tokens.len()
        invariant
            0 <= i <= tokens.len(),
            forall|j: int| 0 <= j < i ==> (#[trigger] token_views(tokens@)[j]).len() == 0,
        decreases tokens.len() - i,
    {
        if tokens[i].len() > 0 {
            assert(token_views(tokens@)[i as int].len() > 0);
            return true;
        }
        i += 1;
    }
    false
}

/// Reads the numbers in the boxes of a section, and refuses the section if
/// a box that is filled in holds no number.
pub fn read_numbers(tokens: &[Vec<char>]) -> (result: Result<Vec<Option<u32>>, BallotParseError>)
    ensures
        match result {
            Ok(numbers) => !malformed(token_views(tokens@)) && numbers@ == numbers_of(
                token_views(tokens@),
            ),
            Err(e) => malformed(token_views(tokens@)) && e == BallotParseError::NonIntegerPreference,
        },
{
    let ghost views = token_views(tokens@);
    let mut numbers: Vec<Option<u32>> = Vec::new();
    let mut idx: usize = 0;
    while idx < tokens.len()
        invariant
            0 <= idx <= tokens.len(),
            views == token_views(tokens@),
            forall|i: int|
                0 <= i < idx && (#[trigger] views[i]).len() > 0 ==> preference_number(views[i])
                    is Some,
            numbers@ == numbers_of(views).take(idx as int),
        decreases tokens.len() - idx,
    {
        let pref = &tokens[idx];
        assert(views[idx as int] == pref@);
        let number = parse_preference(pref.as_slice());
        if pref.len() > 0 && number.is_none() {
            return Err(BallotParseError::NonIntegerPreference);
        }
        numbers.push(number);
        idx += 1;
    }
    Ok(numbers)
}

/// Decodes a below-the-line section against the candidates of the state.
pub fn ballot_below_the_line(raw_prefs: Vec<Vec<char>>, candidates: &[CandidateId]) -> (result:
    Result<Vec<CandidateId>, BallotParseError>)
    requires
        section_fits(token_views(raw_prefs@), candidates@.len()),
    ensures
        outcome_view(result) == below_the_line(token_views(raw_prefs@), candidates@),
{
    let ghost tokens = token_views(raw_prefs@);
    let numbers = match read_numbers(raw_prefs.as_slice()) {
        Ok(numbers) => numbers,
        Err(e) => {
            return Err(e);
        },
    };
    let mut pref_map: PreferenceMap<CandidateId> = PreferenceMap::new();
    let mut idx: usize = 0;
    while idx < numbers.len()
        invariant
            0 <= idx <= numbers.len(),
            numbers@ == numbers_of(tokens),
            within(tokens, candidates@.len()),
            pref_map@ == marked_preferences(numbers@.take(idx as int), candidates@),
        decreases numbers.len() - idx,
    {
        assert(numbers@.take(idx + 1).drop_last() =~= numbers@.take(idx as int));
        if let Some(pref_int) = numbers[idx] {
            pref_map.insert(pref_int, candidates[idx]);
        }
        idx += 1;
    }
    assert(numbers@.take(idx as int) =~= numbers@);
    Ok(pref_map.values())
}

/// Decodes an above-the-line section against the groups of the state.
pub fn ballot_above_the_line(raw_prefs: Vec<Vec<char>>, groups: &[Group]) -> (result: Result<
    Vec<CandidateId>,
    BallotParseError,
>)
    requires
        section_fits(token_views(raw_prefs@), groups@.len()),
    ensures
        outcome_view(result) == above_the_line(token_views(raw_prefs@), group_lists(groups@)),
{
    let ghost tokens = token_views(raw_prefs@);
    let ghost lists = group_lists(groups@);
    let ghost members = |list: &Vec<CandidateId>| list@;
    let numbers = match read_numbers(raw_prefs.as_slice()) {
        Ok(numbers) => numbers,
        Err(e) => {
            return Err(e);
        },
    };
    let mut pref_map: PreferenceMap<&Vec<CandidateId>> = PreferenceMap::new();
    let mut group_idx: usize = 0;
    while group_idx < numbers.len()
        invariant
            0 <= group_idx <= numbers.len(),
            numbers@ == numbers_of(tokens),
            within(tokens, groups@.len()),
            lists == group_lists(groups@),
            members == |list: &Vec<CandidateId>| list@,
            pref_map@.map_values(members) == marked_preferences(
                numbers@.take(group_idx as int),
                lists,
            ),
        decreases numbers.len() - group_idx,
    {
        assert(numbers@.take(group_idx + 1).drop_last() =~= numbers@.take(group_idx as int));
        if let Some(pref_int) = numbers[group_idx] {
            let ghost before = pref_map@;
            let list = &groups[group_idx].candidate_ids;
            pref_map.insert(pref_int, list);
            assert(before.insert(pref_int, list).map_values(members) =~= before.map_values(
                members,
            ).insert(pref_int, lists[group_idx as int]));
        }
        group_idx += 1;
    }
    assert(numbers@.take(group_idx as int) =~= numbers@);
    let flat_pref_map = pref_map.values();
    proof {
        lemma_values_of_mapped(pref_map@, members);
    }
    let ghost ordered = values_in_key_order(marked_preferences(numbers@, lists));
    let mut prefs: Vec<CandidateId> = Vec::new();
    let mut i: usize = 0;
    while i < flat_pref_map.len()
        invariant
            0 <= i <= flat_pref_map.len(),
            ordered == flat_pref_map@.map_values(|list: &Vec<CandidateId>| list@),
            prefs@ == ordered.take(i as int).flatten(),
        decreases flat_pref_map.len() - i,
    {
        let group_candidates = flat_pref_map[i];
        prefs.extend_from_slice(group_candidates.as_slice());
        proof {
            assert(ordered.take(i + 1) =~= ordered.take(i as int).push(group_candidates@));
            ordered.take(i as int).lemma_flatten_push(group_candidates@);
        }
        i += 1;
    }
    assert(ordered.take(i as int) =~= ordered);
    Ok(prefs)
}

/// Splits a preference string into its section above the line and its
/// section below the line, for a paper with `groups` boxes above the line.
pub fn split_sections(pref_string: &str, groups: usize) -> (sections: (Vec<Vec<char>>, Vec<Vec<char>>))
    ensures
        token_views(sections.0@) == above_section(tokens_of(pref_string@), groups as nat),
        token_views(sections.1@) == below_section(tokens_of(pref_string@), groups as nat),
{
    let mut above_the_line = split_preferences(pref_string);
    let at = if groups <= above_the_line.len() {
        groups
    } else {
        above_the_line.len()
    };
    let below_the_line = above_the_line.split_off(at);
    (above_the_line, below_the_line)
}

/// Tells whether every box of a section that is filled in is one of its
/// first `places` boxes.
fn is_within(tokens: &[Vec<char>], places: usize) -> (b: bool)
    ensures
        b == within(token_views(tokens@), places as nat),
{
    let mut i: usize = places;
    while i < tokens.len()
        invariant
            places <= i,
            forall|j: int|
                places <= j < i && j < tokens.len() ==> (#[trigger] token_views(tokens@)[j]).len()
                    == 0,
        decreases tokens.len() - i,
    {
        if tokens[i].len() > 0 {
            assert(token_views(tokens@)[i as int].len() > 0);
            return false;
        }
        i += 1;
    }
    true
}

/// Tells whether a preference string can be decoded for a paper with
/// `groups` boxes above the line and `candidates` boxes below it.
pub fn fits_ballot_paper(pref_string: &str, groups: usize, candidates: usize) -> (b: bool)
    ensures
        b == fits_paper(pref_string@, groups as nat, candidates as nat),
{
    let (above_the_line, below_the_line) = split_sections(pref_string, groups);
    if is_marked(above_the_line.as_slice()) {
        return true;
    }
    if is_within(below_the_line.as_slice(), candidates) {
        return true;
    }
    read_numbers(below_the_line.as_slice()).is_err()
}

/// Decodes one voter's preference string into the candidates chosen, in the
/// voter's order.
///
/// The first `groups.len()` boxes of the string are the section above the
/// line, one box per group; the boxes after them are the section below the
/// line, one box per candidate of `candidates`. A paper that is filled in
/// above the line or not at all is decoded or refused whatever its length;
/// a paper that is filled in below the line must fit the candidates.
pub fn pref_string_to_ballot(
    pref_string: &str,
    groups: &[Group],
    candidates: &[CandidateId],
) -> (result: Result<Vec<CandidateId>, BallotParseError>)
    requires
        fits_paper(pref_string@, groups@.len(), candidates@.len()),
    ensures
        outcome_view(result) == decode(pref_string@, group_lists(groups@), candidates@),
{
    let (above_the_line, below_the_line) = split_sections(pref_string, groups.len());
    match (is_marked(above_the_line.as_slice()), is_marked(below_the_line.as_slice())) {
        (true, false) => ballot_above_the_line(above_the_line, groups),
        (false, true) => ballot_below_the_line(below_the_line, candidates),
        (true, true) => Err(BallotParseError::BothSectionsMarked),
        (false, false) => Err(BallotParseError::NeitherSectionMarked),
    }
}

/// One record of the preference file, as far as the decoder reads it.
#[derive(Clone, Debug, PartialEq, Eq)]
pub struct PrefRow {
    /// The voter's preference string.
    pub preferences: String,
}

impl View for PrefRow {
    type V = Seq<char>;

    /// A record stands for its preference string.
    open spec fn view(&self) -> Seq<char> {
        self.preferences@
    }
}

/// What a record of the preference file decodes to, given its preference
/// string if it could be read: a record that could not be read is an error
/// of its own, and the decoder is not asked.
pub open spec fn decode_record(
    pref_string: Option<Seq<char>>,
    groups: Seq<Seq<CandidateId>>,
    candidates: Seq<CandidateId>,
) -> Result<Seq<CandidateId>, BallotParseError> {
    match pref_string {
        Some(s) => decode(s, groups, candidates),
        None => Err(BallotParseError::UnderlyingRecordError),
    }
}

/// The preference string of a record, if the record could be read.
pub open spec fn record_view<E>(raw_row: Result<PrefRow, E>) -> Option<Seq<char>> {
    match raw_row {
        Ok(row) => Some(row@),
        Err(_) => None,
    }
}

/// Decodes one record of the preference file.
///
/// A record that was read must hold a preference string that fits the
/// paper.
pub fn parse_single_ballot<E>(
    raw_row: Result<PrefRow, E>,
    groups: &[Group],
    candidates: &[CandidateId],
) -> (result: Result<Vec<CandidateId>, BallotParseError>)
    requires
        raw_row matches Ok(row) ==> fits_paper(row@, groups@.len(), candidates@.len()),
    ensures
        outcome_view(result) == decode_record(
            record_view(raw_row),
            group_lists(groups@),
            candidates@,
        ),
{
    match raw_row {
        Ok(row) => pref_string_to_ballot(row.preferences.as_str(), groups, candidates),
        Err(_) => Err(BallotParseError::UnderlyingRecordError),
    }
}

} // verus!
