use election2016::candidate::{get_candidate_id_list, load_candidates, Candidate, CandidateRow};

fn row(nom_ty: &str, state: &str, ticket: &str, surname: &str) -> CandidateRow {
    CandidateRow {
        nom_ty: nom_ty.to_string(),
        state_ab: state.to_string(),
        ticket: ticket.to_string(),
        surname: surname.to_string(),
        other_names: format!("{surname}'s names"),
        party: format!("{ticket} Party"),
    }
}

fn candidate(id: u32, state: &str, ticket: &str, surname: &str) -> Candidate {
    Candidate {
        id,
        surname: surname.to_string(),
        other_names: format!("{surname}'s names"),
        group_name: ticket.to_string(),
        party: format!("{ticket} Party"),
        state: state.to_string(),
    }
}

#[test]
fn only_senate_rows_are_loaded_and_numbered() {
    let rows: Vec<Result<CandidateRow, String>> = vec![
        Ok(row("S", "NSW", "A", "Ng")),
        Ok(row("S", "VIC", "B", "Smith")),
        Ok(row("H", "NSW", "", "Jones")),
    ];
    let candidates = load_candidates(rows).unwrap();
    assert_eq!(candidates.len(), 2);
    assert_eq!(candidates[0].id, 0);
    assert_eq!(candidates[1].id, 1);
    assert_eq!(candidates, vec![candidate(0, "NSW", "A", "Ng"), candidate(1, "VIC", "B", "Smith")]);
}

#[test]
fn a_row_that_is_passed_over_takes_no_identifier() {
    let rows: Vec<Result<CandidateRow, String>> = vec![
        Ok(row("H", "NSW", "", "Jones")),
        Ok(row("S", "NSW", "A", "Ng")),
        Ok(row("H", "VIC", "", "Brown")),
        Ok(row("H", "VIC", "", "Green")),
        Ok(row("S", "VIC", "B", "Smith")),
        Ok(row("S", "NSW", "UG", "Lee")),
    ];
    assert_eq!(
        load_candidates(rows),
        Ok(vec![
            candidate(0, "NSW", "A", "Ng"),
            candidate(1, "VIC", "B", "Smith"),
            candidate(2, "NSW", "UG", "Lee"),
        ])
    );
}

#[test]
fn the_senate_code_is_matched_exactly() {
    let rows: Vec<Result<CandidateRow, String>> = vec![
        Ok(row("s", "NSW", "A", "Lower")),
        Ok(row("S ", "NSW", "A", "Padded")),
        Ok(row("", "NSW", "A", "Blank")),
        Ok(row("SS", "NSW", "A", "Twice")),
        Ok(row("S", "NSW", "A", "Exact")),
    ];
    assert_eq!(load_candidates(rows), Ok(vec![candidate(0, "NSW", "A", "Exact")]));
}

#[test]
fn an_empty_file_gives_an_empty_roll() {
    let rows: Vec<Result<CandidateRow, String>> = vec![];
    assert_eq!(load_candidates(rows), Ok(vec![]));
}

#[test]
fn loading_fails_with_the_first_row_that_could_not_be_read() {
    let rows: Vec<Result<CandidateRow, String>> = vec![
        Ok(row("S", "NSW", "A", "Ng")),
        Err("row 2 is short".to_string()),
        Ok(row("S", "VIC", "B", "Smith")),
        Err("row 4 is short".to_string()),
    ];
    assert_eq!(load_candidates(rows), Err("row 2 is short".to_string()));
}

#[test]
fn loading_fails_even_if_the_unread_row_comes_last() {
    let rows: Vec<Result<CandidateRow, u32>> =
        vec![Ok(row("H", "NSW", "", "Jones")), Ok(row("S", "NSW", "A", "Ng")), Err(3)];
    assert_eq!(load_candidates(rows), Err(3));
}

#[test]
fn candidates_of_a_state_keep_the_order_of_the_roll() {
    let roll = vec![
        candidate(0, "NSW", "A", "Ng"),
        candidate(1, "VIC", "B", "Smith"),
        candidate(2, "NSW", "UG", "Lee"),
        candidate(5, "TAS", "A", "Wood"),
        candidate(3, "NSW", "A", "Hill"),
    ];
    assert_eq!(get_candidate_id_list(&roll, &"NSW".to_string()), vec![0, 2, 3]);
    assert_eq!(get_candidate_id_list(&roll, &"VIC".to_string()), vec![1]);
    assert_eq!(get_candidate_id_list(&roll, &"TAS".to_string()), vec![5]);
}

#[test]
fn the_state_code_is_matched_exactly() {
    let roll = vec![candidate(0, "NSW", "A", "Ng"), candidate(1, "nsw", "B", "Smith")];
    assert_eq!(get_candidate_id_list(&roll, &"nsw".to_string()), vec![1]);
    assert_eq!(get_candidate_id_list(&roll, &"NS".to_string()), Vec::<u32>::new());
    assert_eq!(get_candidate_id_list(&roll, &"QLD".to_string()), Vec::<u32>::new());
    assert_eq!(get_candidate_id_list(&[], &"NSW".to_string()), Vec::<u32>::new());
}

#[test]
fn identifiers_are_not_counted_anew_for_each_state() {
    let rows: Vec<Result<CandidateRow, String>> = vec![
        Ok(row("S", "NSW", "A", "Ng")),
        Ok(row("S", "VIC", "A", "Smith")),
        Ok(row("S", "NSW", "B", "Lee")),
        Ok(row("S", "VIC", "B", "Wood")),
    ];
    let roll = load_candidates(rows).unwrap();
    assert_eq!(get_candidate_id_list(&roll, &"NSW".to_string()), vec![0, 2]);
    assert_eq!(get_candidate_id_list(&roll, &"VIC".to_string()), vec![1, 3]);
}

#[test]
fn each_candidate_of_the_roll_has_its_place_as_identifier() {
    let codes = ["S", "H", "S", "S", "H", "H", "S", "X", "S"];
    let rows: Vec<Result<CandidateRow, String>> =
        codes.iter().map(|code| Ok(row(code, "NSW", "A", code))).collect();
    let roll = load_candidates(rows).unwrap();
    assert_eq!(roll.len(), 5);
    for (place, candidate) in roll.iter().enumerate() {
        assert_eq!(candidate.id as usize, place);
    }
    let ids = get_candidate_id_list(&roll, &"NSW".to_string());
    assert_eq!(ids, vec![0, 1, 2, 3, 4]);
}
