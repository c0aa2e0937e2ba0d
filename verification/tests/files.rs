use election2016::ballot::{parse_single_ballot, BallotParseError, PrefRow};
use election2016::candidate::{get_candidate_id_list, load_candidates, CandidateRow};
use election2016::group::Group;

const CANDIDATE_HEADER: &str = "txn_nm,nom_ty,state_ab,div_nm,ticket,ballot_position,surname,\
other_names,party,occupation,address_1,address_2,postcode,suburb,address_state,contact_work_ph,\
contact_home_ph,postal_address_1,postal_address_2,postal_suburb,postal_postcode,contact_fax,\
postal_state_ab,contact_mobile,contact_email";

fn candidate_line(nom_ty: &str, state: &str, ticket: &str, position: u32, surname: &str) -> String {
    format!(
        "2016 Federal Election,{nom_ty},{state},,{ticket},{position},{surname},Pat,\
         {ticket} Party,Clerk,,,,,,,,,,,,,,,"
    )
}

fn candidate_rows(text: &str) -> Vec<Result<CandidateRow, csv::Error>> {
    let mut reader = csv::Reader::from_string(text);
    reader
        .decode::<Vec<String>>()
        .map(|record| {
            record.map(|fields| CandidateRow {
                nom_ty: fields[1].clone(),
                state_ab: fields[2].clone(),
                ticket: fields[4].clone(),
                surname: fields[6].clone(),
                other_names: fields[7].clone(),
                party: fields[8].clone(),
            })
        })
        .collect()
}

fn pref_rows(text: &str) -> Vec<Result<PrefRow, csv::Error>> {
    let mut reader = csv::Reader::from_string(text);
    reader
        .decode::<Vec<String>>()
        .map(|record| record.map(|fields| PrefRow { preferences: fields[5].clone() }))
        .collect()
}

#[test]
fn a_candidate_file_gives_the_roll_of_its_senate_records() {
    let text = [
        CANDIDATE_HEADER.to_string(),
        candidate_line("S", "NSW", "A", 1, "Ng"),
        candidate_line("S", "NSW", "A", 2, "Lee"),
        candidate_line("H", "NSW", "", 1, "Jones"),
        candidate_line("S", "VIC", "A", 1, "Smith"),
    ]
    .join("\n");
    let roll = load_candidates(candidate_rows(&text)).unwrap();
    assert_eq!(roll.len(), 3);
    assert_eq!(roll[0].id, 0);
    assert_eq!(roll[0].surname, "Ng");
    assert_eq!(roll[0].other_names, "Pat");
    assert_eq!(roll[0].group_name, "A");
    assert_eq!(roll[0].party, "A Party");
    assert_eq!(roll[0].state, "NSW");
    assert_eq!(roll[1].id, 1);
    assert_eq!(roll[1].surname, "Lee");
    assert_eq!(roll[2].id, 2);
    assert_eq!(roll[2].surname, "Smith");
    assert_eq!(get_candidate_id_list(&roll, &"NSW".to_string()), vec![0, 1]);
    assert_eq!(get_candidate_id_list(&roll, &"VIC".to_string()), vec![2]);
}

#[test]
fn a_candidate_file_with_a_short_record_is_not_loaded() {
    let text = [
        CANDIDATE_HEADER.to_string(),
        candidate_line("S", "NSW", "A", 1, "Ng"),
        "2016 Federal Election,S,NSW".to_string(),
        candidate_line("S", "VIC", "A", 1, "Smith"),
    ]
    .join("\n");
    let failure = load_candidates(candidate_rows(&text)).unwrap_err();
    assert!(matches!(failure, csv::Error::Parse(_)));
}

#[test]
fn a_preference_file_is_decoded_record_by_record() {
    let groups = vec![
        Group { name: "A".to_string(), state: "NSW".to_string(), candidate_ids: vec![0, 1] },
        Group { name: "B".to_string(), state: "NSW".to_string(), candidate_ids: vec![4] },
    ];
    let candidates = [0, 1, 4];
    let text = [
        "electorate_name,vote_collection_point,vote_collection_point_id,batch_num,paper_num,\
         preferences",
        "Sydney,Pyrmont,1,1,1,\"2,1,,,\"",
        "Sydney,Pyrmont,1,1,2,\",,3,1,2\"",
        "Sydney,Pyrmont,1,1,3,\"1,,,,1\"",
        "Sydney,Pyrmont,1,1,4,\",,,,\"",
        "Sydney,Pyrmont,1,1,5,\",,1,*,\"",
        "Sydney,Pyrmont,1,1,6",
    ]
    .join("\n");
    let outcomes: Vec<_> = pref_rows(&text)
        .into_iter()
        .map(|row| parse_single_ballot(row, &groups, &candidates))
        .collect();
    assert_eq!(
        outcomes,
        vec![
            Ok(vec![4, 0, 1]),
            Ok(vec![1, 4, 0]),
            Err(BallotParseError::BothSectionsMarked),
            Err(BallotParseError::NeitherSectionMarked),
            Err(BallotParseError::NonIntegerPreference),
            Err(BallotParseError::UnderlyingRecordError),
        ]
    );
}
