//! The candidate roll: the candidates of a contest and their identifiers.

use vstd::prelude::*;

verus! {

/// Identifies a candidate, across all states of one roll.
pub type CandidateId = u32;

/// A candidate for the Senate.
#[derive(Clone, Debug, PartialEq, Eq)]
pub struct Candidate {
    pub id: CandidateId,
    pub surname: String,
    pub other_names: String,
    pub group_name: String,
    pub party: String,
    pub state: String,
}

/// A candidate, with each text as its characters.
pub struct CandidateView {
    pub id: CandidateId,
    pub surname: Seq<char>,
    pub other_names: Seq<char>,
    pub group_name: Seq<char>,
    pub party: Seq<char>,
    pub state: Seq<char>,
}

impl View for Candidate {
    type V = CandidateView;

    open spec fn view(&self) -> CandidateView {
        CandidateView {
            id: self.id,
            surname: self.surname@,
            other_names: self.other_names@,
            group_name: self.group_name@,
            party: self.party@,
            state: self.state@,
        }
    }
}

/// One record of the candidate file, as far as the roll reads it.
#[derive(Clone, Debug, PartialEq, Eq)]
pub struct CandidateRow {
    /// The code of the contest that the candidate is nominated for.
    pub nom_ty: String,
    pub state_ab: String,
    pub ticket: String,
    pub surname: String,
    pub other_names: String,
    pub party: String,
}

/// A record of the candidate file, with each text as its characters.
pub struct CandidateRowView {
    pub nom_ty: Seq<char>,
    pub state_ab: Seq<char>,
    pub ticket: Seq<char>,
    pub surname: Seq<char>,
    pub other_names: Seq<char>,
    pub party: Seq<char>,
}

impl View for CandidateRow {
    type V = CandidateRowView;

    open spec fn view(&self) -> CandidateRowView {
        CandidateRowView {
            nom_ty: self.nom_ty@,
            state_ab: self.state_ab@,
            ticket: self.ticket@,
            surname: self.surname@,
            other_names: self.other_names@,
            party: self.party@,
        }
    }
}

/// The candidates of a roll, each by its view.
pub open spec fn candidate_views(candidates: Seq<Candidate>) -> Seq<CandidateView> {
    candidates.map_values(|c: Candidate| c@)
}

/// The records of a candidate file, each by its view if it was read.
pub open spec fn row_views<E>(rows: Seq<Result<CandidateRow, E>>) -> Seq<
    Result<CandidateRowView, E>,
> {
    rows.map_values(
        |r: Result<CandidateRow, E>|
            match r {
                Ok(row) => Ok(row@),
                Err(e) => Err(e),
            },
    )
}

/// The nomination code of the Senate contest.
pub open spec fn senate_code() -> Seq<char> {
    seq!['S']
}

/// The candidate that a record of the Senate contest stands for, under the
/// identifier `id`.
pub open spec fn candidate_from(row: CandidateRowView, id: CandidateId) -> CandidateView {
    CandidateView {
        id,
        surname: row.surname,
        other_names: row.other_names,
        group_name: row.ticket,
        party: row.party,
        state: row.state_ab,
    }
}

/// The records of the Senate contest among `rows`, in their order.
pub open spec fn senate_rows(rows: Seq<CandidateRowView>) -> Seq<CandidateRowView> {
    rows.filter(|row: CandidateRowView| row.nom_ty == senate_code())
}

/// The roll that a list of records gives: the records of the Senate contest,
/// in their order, numbered from 0 as they come. Records of other contests
/// are passed over and take no number.
pub open spec fn candidates_of(rows: Seq<CandidateRowView>) -> Seq<CandidateView> {
    Seq::new(
        senate_rows(rows).len(),
        |k: int| candidate_from(senate_rows(rows)[k], k as CandidateId),
    )
}

/// Whether record `i` is the first that could not be read.
pub open spec fn first_unread<E>(rows: Seq<Result<CandidateRowView, E>>, i: int) -> bool {
    &&& 0 <= i < rows.len()
    &&& rows[i] is Err
    &&& forall|j: int| 0 <= j < i ==> (#[trigger] rows[j]) is Ok
}

/// What loading a candidate file gives: the roll of its records if all of
/// them could be read, and else the error of the first that could not.
pub open spec fn roll_of<E>(rows: Seq<Result<CandidateRowView, E>>) -> Result<
    Seq<CandidateView>,
    E,
> {
    if exists|i: int| first_unread(rows, i) {
        Err(rows[choose|i: int| first_unread(rows, i)]->Err_0)
    } else {
        Ok(candidates_of(rows.map_values(|r: Result<CandidateRowView, E>| r->Ok_0)))
    }
}

/// One more record adds its candidate to the roll if it is of the Senate
/// contest, and else leaves the roll as it is.
proof fn lemma_roll_grows(rows: Seq<CandidateRowView>)
    requires
        rows.len() > 0,
    ensures
        candidates_of(rows.drop_last()).len() <= rows.len() - 1,
        candidates_of(rows) == if rows.last().nom_ty == senate_code() {
            candidates_of(rows.drop_last()).push(
                candidate_from(rows.last(), candidates_of(rows.drop_last()).len() as CandidateId),
            )
        } else {
            candidates_of(rows.drop_last())
        },
{
    reveal(Seq::filter);
    rows.drop_last().lemma_filter_len(|row: CandidateRowView| row.nom_ty == senate_code());
    if rows.last().nom_ty == senate_code() {
        assert(candidates_of(rows) =~= candidates_of(rows.drop_last()).push(
            candidate_from(rows.last(), candidates_of(rows.drop_last()).len() as CandidateId),
        ));
    }
}

/// Tells whether a nomination code is that of the Senate contest.
fn is_senate_code(code: &str) -> (b: bool)
    ensures
        b == (code@ == senate_code()),
{
    let b = code.unicode_len() == 1 && code.get_char(0) == 'S';
    assert(b == (code@ =~= senate_code()));
    b
}

/// Builds the candidate roll from the records of a candidate file.
///
/// Loading stops at the first record that could not be read and fails with
/// its error. The identifiers are 32 bits wide, so the file may hold at
/// most 2^32 records.
pub fn load_candidates<E>(rows: Vec<Result<CandidateRow, E>>) -> (result: Result<Vec<Candidate>, E>)
    requires
        rows.len() <= 0x1_0000_0000,
    ensures
        match result {
            Ok(candidates) => roll_of(row_views(rows@)) == Ok::<Seq<CandidateView>, E>(
                candidate_views(candidates@),
            ),
            Err(e) => roll_of(row_views(rows@)) == Err::<Seq<CandidateView>, E>(e),
        },
{
    let ghost all = row_views(rows@);
    let ghost read = all.map_values(|r: Result<CandidateRowView, E>| r->Ok_0);
    let ghost given = rows@;
    let mut result: Vec<Candidate> = Vec::new();
    proof {
        reveal(Seq::filter);
    }
    for raw_row in it: rows
        invariant
            it.seq() == given,
            all == row_views(given),
            all.len() <= 0x1_0000_0000,
            read == all.map_values(|r: Result<CandidateRowView, E>| r->Ok_0),
            forall|j: int| 0 <= j < it.index() ==> (#[trigger] all[j]) is Ok,
            candidate_views(result@) == candidates_of(read.take(it.index())),
    {
        proof {
            assert(read.take(it.index() + 1).drop_last() =~= read.take(it.index()));
            lemma_roll_grows(read.take(it.index() + 1));
        }
        match raw_row {
            Ok(row) => {
                if is_senate_code(row.nom_ty.as_str()) {
                    let id = result.len() as CandidateId;
                    let ghost earlier = result@;
                    let candidate = Candidate {
                        id,
                        surname: row.surname,
                        other_names: row.other_names,
                        group_name: row.ticket,
                        party: row.party,
                        state: row.state_ab,
                    };
                    result.push(candidate);
                    assert(candidate_views(result@) =~= candidate_views(earlier).push(
                        candidate_from(row@, id),
                    ));
                }
            },
            Err(e) => {
                proof {
                    let at = it.index();
                    assert(first_unread(all, at));
                    let found = choose|i: int| first_unread(all, i);
                    assert(found == at) by {
                        if found != at {
                            assert(all[found] is Ok || all[at] is Ok);
                        }
                    }
                }
                return Err(e);
            },
        }
    }
    proof {
        assert(read.take(all.len() as int) =~= read);
        assert(!exists|i: int| first_unread(all, i));
    }
    Ok(result)
}

/// The identifiers of the candidates of a state, in the order of the roll.
pub open spec fn ids_in_state(candidates: Seq<CandidateView>, state: Seq<char>) -> Seq<
    CandidateId,
> {
    candidates.filter(|c: CandidateView| c.state == state).map_values(|c: CandidateView| c.id)
}

/// Lists the identifiers of the candidates of `state`, in the order of the
/// roll.
pub fn get_candidate_id_list(candidates: &[Candidate], state: &String) -> (ids: Vec<CandidateId>)
    ensures
        ids@ == ids_in_state(candidate_views(candidates@), state@),
{
    let ghost in_state = |c: CandidateView| c.state == state@;
    let ghost roll = candidate_views(candidates@);
    let mut ids: Vec<CandidateId> = Vec::new();
    let mut i: usize = 0;
    proof {
        reveal(Seq::filter);
    }
    while i < candidates.len()
        invariant
            0 <= i <= candidates.len(),
            in_state == |c: CandidateView| c.state == state@,
            roll == candidate_views(candidates@),
            ids@ == roll.take(i as int).filter(in_state).map_values(|c: CandidateView| c.id),
        decreases candidates.len() - i,
    {
        proof {
            reveal(Seq::filter);
            assert(roll.take(i + 1).drop_last() =~= roll.take(i as int));
        }
        if candidates[i].state == *state {
            ids.push(candidates[i].id);
        }
        i += 1;
    }
    assert(roll.take(i as int) =~= roll);
    ids
}

} // verus!
