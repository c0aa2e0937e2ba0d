//! What holds of every roll and of every decoding, proved from the
//! definitions.

use crate::ballot::{
    above_section, below_section, decode, fits_paper, malformed, marked, marked_preferences,
    numbers_of, BallotParseError,
};
use crate::candidate::{
    candidates_of, ids_in_state, senate_code, CandidateId, CandidateRowView, CandidateView,
};
use crate::group::{disjoint_lists, groups_of_state};
use crate::preference_map::{
    ascending, holds_at, keys_in_order, lemma_keys_below, lemma_map_of_entry,
    lemma_values_of_ascending, map_of, values_in_key_order,
};
use crate::token::{preference_number, tokens_of};
use vstd::prelude::*;

verus! {

/// Whether box `i` of `numbers` holds `preference`.
pub open spec fn written_at(numbers: Seq<Option<u32>>, i: int, preference: u32) -> bool {
    0 <= i < numbers.len() && numbers[i] == Some(preference)
}

/// Whether box `i` is the last box of `numbers` that holds `preference`.
pub open spec fn last_written_at(numbers: Seq<Option<u32>>, i: int, preference: u32) -> bool {
    &&& written_at(numbers, i, preference)
    &&& forall|j: int| i < j ==> !written_at(numbers, j, preference)
}

/// The overwrite rule: the preferences that a section marks are the numbers
/// written in its boxes, and each number stands for what is at the last box
/// that holds it.
pub proof fn law_later_box_wins<V>(numbers: Seq<Option<u32>>, values: Seq<V>)
    ensures
        forall|preference: u32| #[trigger]
            marked_preferences(numbers, values).dom().contains(preference) <==> exists|i: int|
                written_at(numbers, i, preference),
        forall|i: int, preference: u32| #[trigger]
            last_written_at(numbers, i, preference) ==> marked_preferences(
                numbers,
                values,
            )[preference] == values[i],
    decreases numbers.len(),
{
    let m = marked_preferences(numbers, values);
    if numbers.len() > 0 {
        let earlier = numbers.drop_last();
        let end = numbers.len() - 1;
        let before = marked_preferences(earlier, values);
        law_later_box_wins(earlier, values);
        assert forall|preference: u32| #[trigger]
            m.dom().contains(preference) <==> exists|i: int|
                written_at(numbers, i, preference) by {
            if m.dom().contains(preference) {
                if numbers[end] == Some(preference) {
                    assert(written_at(numbers, end, preference));
                } else {
                    assert(before.dom().contains(preference));
                    let i = choose|i: int| written_at(earlier, i, preference);
                    assert(written_at(numbers, i, preference));
                }
            }
            if exists|i: int| written_at(numbers, i, preference) {
                let i = choose|i: int| written_at(numbers, i, preference);
                if i < end {
                    assert(written_at(earlier, i, preference));
                    assert(before.dom().contains(preference));
                }
            }
        }
        assert forall|i: int, preference: u32| #[trigger]
            last_written_at(numbers, i, preference) implies m[preference] == values[i] by {
            if i < end {
                assert(!written_at(numbers, end, preference));
                assert(last_written_at(earlier, i, preference)) by {
                    assert forall|j: int| i < j implies !written_at(earlier, j, preference) by {
                        if written_at(earlier, j, preference) {
                            assert(written_at(numbers, j, preference));
                        }
                    }
                }
                assert(before[preference] == values[i]);
            }
        }
    } else {
        assert forall|preference: u32| #[trigger]
            m.dom().contains(preference) <==> exists|i: int|
                written_at(numbers, i, preference) by {
        }
    }
}

/// A number that is written in some box has a last box that holds it.
pub proof fn lemma_last_box(numbers: Seq<Option<u32>>, i: int, preference: u32) -> (last: int)
    requires
        written_at(numbers, i, preference),
    ensures
        last_written_at(numbers, last, preference),
    decreases numbers.len() - i,
{
    if exists|j: int| i < j && written_at(numbers, j, preference) {
        let j = choose|j: int| i < j && written_at(numbers, j, preference);
        lemma_last_box(numbers, j, preference)
    } else {
        i
    }
}

/// What a section decodes to is what stands at some of its boxes: boxes
/// that are filled in, none of them twice. The result is the list of those
/// boxes.
pub proof fn lemma_decoded_from_distinct_boxes<V>(tokens: Seq<Seq<char>>, values: Seq<V>) -> (picks:
    Seq<int>)
    ensures
        picks.no_duplicates(),
        forall|k: int|
            0 <= k < picks.len() ==> 0 <= #[trigger] picks[k] < tokens.len() && tokens[picks[k]].len()
                > 0,
        values_in_key_order(marked_preferences(numbers_of(tokens), values)) == picks.map_values(
            |i: int| values[i],
        ),
{
    let numbers = numbers_of(tokens);
    let m = marked_preferences(numbers, values);
    let keys = keys_in_order(m);
    lemma_keys_below(m, 0x1_0000_0000);
    law_later_box_wins(numbers, values);
    let picks = Seq::new(keys.len(), |k: int| choose|i: int| last_written_at(numbers, i, keys[k]));
    assert forall|k: int| 0 <= k < picks.len() implies last_written_at(
        numbers,
        #[trigger] picks[k],
        keys[k],
    ) by {
        assert(m.dom().contains(keys[k]));
        let i = choose|i: int| written_at(numbers, i, keys[k]);
        let last = lemma_last_box(numbers, i, keys[k]);
    }
    assert forall|k: int| 0 <= k < picks.len() implies 0 <= #[trigger] picks[k] < tokens.len()
        && tokens[picks[k]].len() > 0 by {
        assert(last_written_at(numbers, picks[k], keys[k]));
    }
    assert forall|k: int, l: int| 0 <= k < picks.len() && 0 <= l < picks.len() && k != l implies picks[k]
        != picks[l] by {
        assert(last_written_at(numbers, picks[k], keys[k]));
        assert(last_written_at(numbers, picks[l], keys[l]));
        if k < l {
            assert(keys[k] < keys[l]);
        } else {
            assert(keys[l] < keys[k]);
        }
    }
    assert forall|k: int| 0 <= k < picks.len() implies m[keys[k]] == values[picks[k]] by {
        assert(last_written_at(numbers, picks[k], keys[k]));
    }
    assert(values_in_key_order(m) =~= picks.map_values(|i: int| values[i]));
    picks
}

/// A candidate is in the member lists laid end to end where it is in one
/// of the lists.
pub proof fn lemma_flatten_contains(lists: Seq<Seq<CandidateId>>, id: CandidateId)
    ensures
        lists.flatten().contains(id) <==> exists|g: int|
            0 <= g < lists.len() && (#[trigger] lists[g]).contains(id),
    decreases lists.len(),
{
    if lists.len() > 0 {
        let front = lists.drop_last();
        lemma_flatten_contains(front, id);
        front.lemma_flatten_push(lists.last());
        assert(front.push(lists.last()) =~= lists);
        let flat = lists.flatten();
        if flat.contains(id) {
            let i = choose|i: int| 0 <= i < flat.len() && flat[i] == id;
            if i < front.flatten().len() {
                assert(front.flatten()[i] == id);
                let g = choose|g: int| 0 <= g < front.len() && (#[trigger] front[g]).contains(id);
                assert(lists[g].contains(id));
            } else {
                assert(lists.last()[i - front.flatten().len()] == id);
                assert(lists[lists.len() - 1].contains(id));
            }
        }
        if exists|g: int| 0 <= g < lists.len() && (#[trigger] lists[g]).contains(id) {
            let g = choose|g: int| 0 <= g < lists.len() && (#[trigger] lists[g]).contains(id);
            if g < front.len() {
                assert(front[g].contains(id));
                let i = choose|i: int| 0 <= i < front.flatten().len() && front.flatten()[i] == id;
                assert(flat[i] == id);
            } else {
                let a = choose|a: int| 0 <= a < lists[g].len() && lists[g][a] == id;
                assert(flat[front.flatten().len() + a] == id);
            }
        }
    } else {
        assert(lists.flatten() =~= Seq::empty());
    }
}

/// Lists that share no member and repeat none, laid end to end, repeat no
/// member.
pub proof fn lemma_flatten_disjoint(lists: Seq<Seq<CandidateId>>)
    requires
        disjoint_lists(lists),
    ensures
        lists.flatten().no_duplicates(),
    decreases lists.len(),
{
    if lists.len() > 0 {
        let front = lists.drop_last();
        let end = lists.len() - 1;
        assert(disjoint_lists(front)) by {
            assert forall|g: int| 0 <= g < front.len() implies (#[trigger] front[g]).no_duplicates() by {
                assert(lists[g].no_duplicates());
            }
        }
        lemma_flatten_disjoint(front);
        front.lemma_flatten_push(lists.last());
        assert(front.push(lists.last()) =~= lists);
        let flat = lists.flatten();
        let before = front.flatten();
        assert(lists[end].no_duplicates());
        assert forall|i: int, j: int| 0 <= i < flat.len() && 0 <= j < flat.len() && i != j implies flat[i]
            != flat[j] by {
            let (low, high) = if i < j {
                (i, j)
            } else {
                (j, i)
            };
            if high < before.len() {
                assert(before[low] != before[high]);
            } else if low >= before.len() {
                assert(lists[end][low - before.len()] != lists[end][high - before.len()]);
            } else {
                let id = before[low];
                assert(before.contains(id));
                lemma_flatten_contains(front, id);
                let g = choose|g: int| 0 <= g < front.len() && (#[trigger] front[g]).contains(id);
                let a = choose|a: int| 0 <= a < front[g].len() && front[g][a] == id;
                assert(lists[g][a] != lists[end][high - before.len()]);
            }
        }
    } else {
        assert(lists.flatten() =~= Seq::empty());
    }
}

/// A ballot that was decoded for a state lists candidates of that state,
/// and none of them twice; so it lists no more candidates than the state
/// has.
pub proof fn law_decoded_ballot_lists_candidates_once(
    pref_string: Seq<char>,
    groups: Seq<Seq<CandidateId>>,
    candidates: Seq<CandidateId>,
)
    requires
        fits_paper(pref_string, groups.len(), candidates.len()),
        candidates.no_duplicates(),
        groups_of_state(groups, candidates),
        decode(pref_string, groups, candidates) is Ok,
    ensures
        decode(pref_string, groups, candidates)->Ok_0.no_duplicates(),
        forall|k: int|
            0 <= k < decode(pref_string, groups, candidates)->Ok_0.len() ==> candidates.contains(
                #[trigger] decode(pref_string, groups, candidates)->Ok_0[k],
            ),
        decode(pref_string, groups, candidates)->Ok_0.len() <= candidates.len(),
{
    let tokens = tokens_of(pref_string);
    let above = above_section(tokens, groups.len());
    let below = below_section(tokens, groups.len());
    let ballot = decode(pref_string, groups, candidates)->Ok_0;
    if marked(above) {
        let picks = lemma_decoded_from_distinct_boxes(above, groups);
        let lists = picks.map_values(|g: int| groups[g]);
        assert(ballot == lists.flatten());
        assert(disjoint_lists(lists)) by {
            assert forall|g: int| 0 <= g < lists.len() implies (#[trigger] lists[g]).no_duplicates() by {
                assert(groups[picks[g]].no_duplicates());
            }
            assert forall|g: int, h: int, a: int, b: int|
                0 <= g < lists.len() && 0 <= h < lists.len() && g != h && 0 <= a < lists[g].len()
                    && 0 <= b < lists[h].len() implies #[trigger] lists[g][a]
                != #[trigger] lists[h][b] by {
                assert(picks[g] != picks[h]);
                assert(groups[picks[g]][a] != groups[picks[h]][b]);
            }
        }
        lemma_flatten_disjoint(lists);
        assert forall|k: int| 0 <= k < ballot.len() implies candidates.contains(
            #[trigger] ballot[k],
        ) by {
            let id = ballot[k];
            assert(lists.flatten().contains(id));
            lemma_flatten_contains(lists, id);
            let g = choose|g: int| 0 <= g < lists.len() && (#[trigger] lists[g]).contains(id);
            let a = choose|a: int| 0 <= a < lists[g].len() && lists[g][a] == id;
            assert(groups[picks[g]][a] == id);
        }
    } else {
        let picks = lemma_decoded_from_distinct_boxes(below, candidates);
        assert(ballot == picks.map_values(|i: int| candidates[i]));
        assert forall|k: int| 0 <= k < picks.len() implies #[trigger] picks[k] < candidates.len() by {
            assert(below[picks[k]] == tokens[groups.len() + picks[k]]);
        }
        assert forall|k: int| 0 <= k < ballot.len() implies candidates.contains(
            #[trigger] ballot[k],
        ) by {
            assert(candidates[picks[k]] == ballot[k]);
        }
    }
    ballot.unique_seq_to_set();
    candidates.unique_seq_to_set();
    assert(ballot.to_set().subset_of(candidates.to_set()));
    vstd::seq_lib::seq_to_set_is_finite(candidates);
    vstd::set_lib::lemma_len_subset(ballot.to_set(), candidates.to_set());
}

/// Whether the boxes of a section are numbered in turn: the boxes at
/// `chosen[0]`, `chosen[1]`, and so on hold 1, 2, and so on, and no other
/// box is filled in.
pub open spec fn numbered_in_turn(tokens: Seq<Seq<char>>, chosen: Seq<int>) -> bool {
    &&& forall|j: int|
        0 <= j < chosen.len() ==> {
            &&& 0 <= #[trigger] chosen[j] < tokens.len()
            &&& j + 1 <= u32::MAX
            &&& preference_number(tokens[chosen[j]]) == Some((j + 1) as u32)
        }
    &&& forall|i: int|
        0 <= i < tokens.len() && (#[trigger] tokens[i]).len() > 0 ==> exists|j: int|
            0 <= j < chosen.len() && #[trigger] chosen[j] == i
}

/// A section whose boxes are numbered in turn marks what stands at the
/// chosen boxes, in the order in which they were chosen.
pub proof fn lemma_numbered_in_turn<V>(tokens: Seq<Seq<char>>, values: Seq<V>, chosen: Seq<int>)
    requires
        numbered_in_turn(tokens, chosen),
    ensures
        !malformed(tokens),
        marked(tokens) <==> chosen.len() > 0,
        values_in_key_order(marked_preferences(numbers_of(tokens), values)) == chosen.map_values(
            |i: int| values[i],
        ),
{
    let numbers = numbers_of(tokens);
    let m = marked_preferences(numbers, values);
    let entries = Seq::new(chosen.len(), |j: int| ((j + 1) as u32, values[chosen[j]]));
    assert(ascending(entries));
    if chosen.len() > 0 {
        assert(tokens[chosen[0]].len() > 0);
    }
    law_later_box_wins(numbers, values);
    assert forall|preference: u32| m.dom().contains(preference) <==> map_of(
        entries,
    ).dom().contains(preference) by {
        if m.dom().contains(preference) {
            let i = choose|i: int| written_at(numbers, i, preference);
            assert(tokens[i].len() > 0);
            let j = choose|j: int| 0 <= j < chosen.len() && #[trigger] chosen[j] == i;
            assert(holds_at(entries, j, preference));
        }
        if map_of(entries).dom().contains(preference) {
            let j = choose|j: int| holds_at(entries, j, preference);
            assert(written_at(numbers, chosen[j], preference));
        }
    }
    assert forall|preference: u32| m.dom().contains(preference) implies m[preference] == map_of(
        entries,
    )[preference] by {
        let j = choose|j: int| holds_at(entries, j, preference);
        lemma_map_of_entry(entries, j);
        assert(last_written_at(numbers, chosen[j], preference)) by {
            assert forall|i: int| chosen[j] < i implies !written_at(numbers, i, preference) by {
                if written_at(numbers, i, preference) {
                    assert(tokens[i].len() > 0);
                    let k = choose|k: int| 0 <= k < chosen.len() && #[trigger] chosen[k] == i;
                    assert(k == j);
                }
            }
        }
    }
    assert(m =~= map_of(entries));
    lemma_values_of_ascending(entries);
    assert(entries.map_values(|e: (u32, V)| e.1) =~= chosen.map_values(|i: int| values[i]));
}

/// A paper whose boxes below the line are numbered 1, 2, and so on, with
/// nothing above the line, decodes to the candidates of those boxes in the
/// order of the numbers.
pub proof fn law_below_the_line_in_numbered_order(
    pref_string: Seq<char>,
    groups: Seq<Seq<CandidateId>>,
    candidates: Seq<CandidateId>,
    chosen: Seq<int>,
)
    requires
        fits_paper(pref_string, groups.len(), candidates.len()),
        !marked(above_section(tokens_of(pref_string), groups.len())),
        numbered_in_turn(below_section(tokens_of(pref_string), groups.len()), chosen),
        chosen.len() > 0,
    ensures
        decode(pref_string, groups, candidates) == Ok::<Seq<CandidateId>, BallotParseError>(
            chosen.map_values(|i: int| candidates[i]),
        ),
{
    lemma_numbered_in_turn(
        below_section(tokens_of(pref_string), groups.len()),
        candidates,
        chosen,
    );
}

/// The number of candidates in a list of member lists.
pub open spec fn total_members(lists: Seq<Seq<CandidateId>>) -> nat
    decreases lists.len(),
{
    if lists.len() == 0 {
        0
    } else {
        total_members(lists.drop_last()) + lists.last().len()
    }
}

/// Member lists laid end to end are as long as the lists together.
pub proof fn lemma_flatten_len(lists: Seq<Seq<CandidateId>>)
    ensures
        lists.flatten().len() == total_members(lists),
    decreases lists.len(),
{
    if lists.len() > 0 {
        lemma_flatten_len(lists.drop_last());
        lists.drop_last().lemma_flatten_push(lists.last());
        assert(lists.drop_last().push(lists.last()) =~= lists);
    }
}

/// A paper whose boxes above the line are numbered 1, 2, and so on, with
/// nothing below the line, decodes to the member lists of those groups, one
/// after the other in the order of the numbers; it holds as many candidates
/// as those groups have members.
pub proof fn law_above_the_line_in_numbered_order(
    pref_string: Seq<char>,
    groups: Seq<Seq<CandidateId>>,
    candidates: Seq<CandidateId>,
    chosen: Seq<int>,
)
    requires
        numbered_in_turn(above_section(tokens_of(pref_string), groups.len()), chosen),
        !marked(below_section(tokens_of(pref_string), groups.len())),
        chosen.len() > 0,
    ensures
        decode(pref_string, groups, candidates) == Ok::<Seq<CandidateId>, BallotParseError>(
            chosen.map_values(|g: int| groups[g]).flatten(),
        ),
        chosen.map_values(|g: int| groups[g]).flatten().len() == total_members(
            chosen.map_values(|g: int| groups[g]),
        ),
{
    lemma_numbered_in_turn(above_section(tokens_of(pref_string), groups.len()), groups, chosen);
    lemma_flatten_len(chosen.map_values(|g: int| groups[g]));
}

/// A paper that is filled in both above and below the line is refused for
/// that, whatever its boxes hold.
pub proof fn law_both_sections_marked(
    pref_string: Seq<char>,
    groups: Seq<Seq<CandidateId>>,
    candidates: Seq<CandidateId>,
)
    requires
        marked(above_section(tokens_of(pref_string), groups.len())),
        marked(below_section(tokens_of(pref_string), groups.len())),
    ensures
        decode(pref_string, groups, candidates) == Err::<Seq<CandidateId>, BallotParseError>(
            BallotParseError::BothSectionsMarked,
        ),
{
}

/// A paper without any box filled in is refused for that.
pub proof fn law_neither_section_marked(
    pref_string: Seq<char>,
    groups: Seq<Seq<CandidateId>>,
    candidates: Seq<CandidateId>,
)
    requires
        forall|i: int|
            0 <= i < tokens_of(pref_string).len() ==> (#[trigger] tokens_of(pref_string)[i]).len()
                == 0,
    ensures
        decode(pref_string, groups, candidates) == Err::<Seq<CandidateId>, BallotParseError>(
            BallotParseError::NeitherSectionMarked,
        ),
{
    let tokens = tokens_of(pref_string);
    let above = above_section(tokens, groups.len());
    let below = below_section(tokens, groups.len());
    if marked(above) {
        let i = choose|i: int| 0 <= i < above.len() && (#[trigger] above[i]).len() > 0;
        assert(above[i] == tokens[i]);
    }
    if marked(below) {
        let i = choose|i: int| 0 <= i < below.len() && (#[trigger] below[i]).len() > 0;
        assert(below[i] == tokens[groups.len() + i]);
    }
}

/// On a paper that is filled in on one side of the line only, a box with
/// text that is no preference number has the paper refused for that,
/// whichever side the box is on.
pub proof fn law_non_integer_preference(
    pref_string: Seq<char>,
    groups: Seq<Seq<CandidateId>>,
    candidates: Seq<CandidateId>,
    i: int,
)
    requires
        !(marked(above_section(tokens_of(pref_string), groups.len())) && marked(
            below_section(tokens_of(pref_string), groups.len()),
        )),
        0 <= i < tokens_of(pref_string).len(),
        tokens_of(pref_string)[i].len() > 0,
        preference_number(tokens_of(pref_string)[i]) is None,
    ensures
        decode(pref_string, groups, candidates) == Err::<Seq<CandidateId>, BallotParseError>(
            BallotParseError::NonIntegerPreference,
        ),
{
    let tokens = tokens_of(pref_string);
    let above = above_section(tokens, groups.len());
    let below = below_section(tokens, groups.len());
    if i < groups.len() {
        assert(above[i] == tokens[i]);
        assert(marked(above));
        assert(malformed(above));
    } else {
        assert(below[i - groups.len()] == tokens[i]);
        assert(marked(below));
        assert(malformed(below));
    }
}

/// In a roll, the candidate at place `k` has the identifier `k`: the
/// identifiers follow the order of the file, count only the records that
/// were taken, and no two candidates share one.
pub proof fn law_roll_numbered_in_order(rows: Seq<CandidateRowView>)
    requires
        rows.len() <= 0x1_0000_0000,
    ensures
        candidates_of(rows).len() <= rows.len(),
        forall|k: int|
            0 <= k < candidates_of(rows).len() ==> (#[trigger] candidates_of(rows)[k]).id == k,
{
    rows.lemma_filter_len(|row: CandidateRowView| row.nom_ty == senate_code());
}

/// The list of a state's candidates holds the identifiers of the roll's
/// candidates of that state and no others; where the roll gives no
/// identifier twice, neither does the list.
pub proof fn law_state_list_without_repeats(roll: Seq<CandidateView>, state: Seq<char>)
    requires
        forall|i: int, j: int| 0 <= i < j < roll.len() ==> roll[i].id != roll[j].id,
    ensures
        ids_in_state(roll, state).no_duplicates(),
        forall|id: CandidateId|
            ids_in_state(roll, state).contains(id) <==> exists|i: int|
                0 <= i < roll.len() && (#[trigger] roll[i]).id == id && roll[i].state == state,
    decreases roll.len(),
{
    reveal(Seq::filter);
    let in_state = |c: CandidateView| c.state == state;
    let id_of = |c: CandidateView| c.id;
    let ids = ids_in_state(roll, state);
    if roll.len() > 0 {
        let front = roll.drop_last();
        let end = roll.len() - 1;
        let earlier = ids_in_state(front, state);
        law_state_list_without_repeats(front, state);
        if in_state(roll.last()) {
            assert(ids =~= earlier.push(roll.last().id));
            assert(!earlier.contains(roll.last().id)) by {
                if earlier.contains(roll.last().id) {
                    let i = choose|i: int|
                        0 <= i < front.len() && (#[trigger] front[i]).id == roll.last().id
                            && front[i].state == state;
                    assert(roll[i].id != roll[end].id);
                }
            }
        } else {
            assert(ids =~= earlier);
        }
        assert forall|id: CandidateId| ids.contains(id) <==> exists|i: int|
            0 <= i < roll.len() && (#[trigger] roll[i]).id == id && roll[i].state == state by {
            if ids.contains(id) {
                let k = choose|k: int| 0 <= k < ids.len() && ids[k] == id;
                if k < earlier.len() {
                    assert(earlier[k] == id);
                    assert(earlier.contains(id));
                    let i = choose|i: int|
                        0 <= i < front.len() && (#[trigger] front[i]).id == id && front[i].state
                            == state;
                    assert(roll[i].id == id && roll[i].state == state);
                } else {
                    assert(roll[end].id == id && roll[end].state == state);
                }
            }
            if exists|i: int|
                0 <= i < roll.len() && (#[trigger] roll[i]).id == id && roll[i].state == state {
                let i = choose|i: int|
                    0 <= i < roll.len() && (#[trigger] roll[i]).id == id && roll[i].state == state;
                if i < end {
                    assert(front[i].id == id && front[i].state == state);
                    assert(earlier.contains(id));
                    let k = choose|k: int| 0 <= k < earlier.len() && earlier[k] == id;
                    assert(ids[k] == id);
                } else {
                    assert(ids[ids.len() - 1] == id);
                }
            }
        }
    } else {
        assert(ids =~= Seq::empty());
    }
}

} // verus!
