//! The groups (tickets) of a state.

use crate::candidate::CandidateId;
use vstd::prelude::*;

verus! {

/// A group of candidates that can be voted for as one, above the line.
///
/// `candidate_ids` holds the members in the order in which the group lodged
/// them; a vote for the group is a vote for all of them in that order. The
/// place of a group in the list of its state's groups is the place of its
/// box above the line.
#[derive(Clone, Debug, PartialEq, Eq)]
pub struct Group {
    pub name: String,
    pub state: String,
    pub candidate_ids: Vec<CandidateId>,
}

/// A group, with each text as its characters and its members as a
/// sequence.
pub struct GroupView {
    pub name: Seq<char>,
    pub state: Seq<char>,
    pub candidate_ids: Seq<CandidateId>,
}

impl View for Group {
    type V = GroupView;

    open spec fn view(&self) -> GroupView {
        GroupView { name: self.name@, state: self.state@, candidate_ids: self.candidate_ids@ }
    }
}

/// The member lists of a list of groups, group by group.
pub open spec fn group_lists(groups: Seq<Group>) -> Seq<Seq<CandidateId>> {
    groups.map_values(|g: Group| g@.candidate_ids)
}

/// Whether no candidate is a member twice: not of one list, and not of two.
pub open spec fn disjoint_lists(lists: Seq<Seq<CandidateId>>) -> bool {
    &&& forall|g: int| 0 <= g < lists.len() ==> (#[trigger] lists[g]).no_duplicates()
    &&& forall|g: int, h: int, a: int, b: int|
        0 <= g < lists.len() && 0 <= h < lists.len() && g != h && 0 <= a < lists[g].len() && 0 <= b
            < lists[h].len() ==> #[trigger] lists[g][a] != #[trigger] lists[h][b]
}

/// Whether `groups` are member lists of groups of a state with the given
/// candidates: no group is empty, every member is a candidate of the state,
/// and no candidate is a member twice.
pub open spec fn groups_of_state(groups: Seq<Seq<CandidateId>>, candidates: Seq<CandidateId>) -> bool {
    &&& forall|g: int| 0 <= g < groups.len() ==> (#[trigger] groups[g]).len() > 0
    &&& forall|g: int, a: int|
        0 <= g < groups.len() && 0 <= a < groups[g].len() ==> candidates.contains(
            #[trigger] groups[g][a],
        )
    &&& disjoint_lists(groups)
}

} // verus!
