use ranked_survey::ordinal::ordinal_name;
use ranked_survey::registry::Registry;
use ranked_survey::survey::{resolve_ballot, Survey, VoteError, VoteTallyResult};

fn labels(v: &[&str]) -> Vec<String> {
    v.iter().map(|s| s.to_string()).collect()
}

#[test]
fn ordinal_names_follow_last_digit() {
    assert_eq!(ordinal_name(1), "top");
    assert_eq!(ordinal_name(2), "2nd");
    assert_eq!(ordinal_name(3), "3rd");
    assert_eq!(ordinal_name(4), "4th");
    assert_eq!(ordinal_name(10), "10th");
    assert_eq!(ordinal_name(11), "11st");
    assert_eq!(ordinal_name(12), "12nd");
    assert_eq!(ordinal_name(13), "13rd");
    assert_eq!(ordinal_name(21), "21st");
    assert_eq!(ordinal_name(0), "0th");
    assert_eq!(ordinal_name(4294967295), "4294967295th");
}

#[test]
fn rank_fields_name_each_position() {
    assert_eq!(VoteTallyResult::rank_fields(3), vec!["top choice", "2nd choice", "3rd choice"]);
    assert!(VoteTallyResult::rank_fields(0).is_empty());
}

#[test]
fn make_ranking_labels_counts() {
    let r = VoteTallyResult::make_ranking("B".to_string(), &vec![4, 0, 7]);
    assert_eq!(r.title, "B");
    assert_eq!(
        r.ranking,
        vec![("top choice".to_string(), 4), ("2nd choice".to_string(), 0), ("3rd choice".to_string(), 7)]
    );
}

#[test]
fn resolve_takes_first_matching_label() {
    let choices = labels(&["A", "B", "A"]);
    assert_eq!(resolve_ballot(&choices, &labels(&["A", "B", "B"])), Some(vec![0, 1, 1]));
    assert_eq!(resolve_ballot(&choices, &labels(&[])), Some(vec![]));
    assert_eq!(resolve_ballot(&choices, &labels(&["B", "Z"])), None);
}

#[test]
fn default_survey_shape() {
    let s = Survey::new_default(1000);
    assert_eq!(s.title, "New Survey");
    assert_eq!(s.choices, labels(&["A", "B", "C", "D", "E"]));
    assert_eq!(s.start, 1000);
    assert_eq!(s.end, 1000 + 60_000_000_000);
    assert!(s.ballots.is_empty());
}

#[test]
fn submit_appends_one_resolved_ballot() {
    let mut s = Survey::new_default(0);
    assert_eq!(s.submit_ballot(5, &labels(&["C", "A"])), Ok(()));
    assert_eq!(s.submit_ballot(60_000_000_000, &labels(&["E", "E", "B"])), Ok(()));
    assert_eq!(s.ballots, vec![vec![2, 0], vec![4, 4, 1]]);
}

#[test]
fn submit_after_end_is_rejected() {
    let mut s = Survey::new_default(0);
    assert_eq!(s.submit_ballot(60_000_000_001, &labels(&["A"])), Err(VoteError::SurveyExpired));
    assert!(s.ballots.is_empty());
    let r = s.results();
    assert_eq!(r.votes.len(), 1);
    assert!(r.votes[0].is_empty());
}

#[test]
fn submit_with_unknown_label_is_rejected_whole() {
    let mut s = Survey::new_default(0);
    assert_eq!(s.submit_ballot(1, &labels(&["A", "Q", "B"])), Err(VoteError::InvalidBallot));
    assert!(s.ballots.is_empty());
    assert_eq!(s.check_ballot(1, &labels(&["a"])), Err(VoteError::InvalidBallot));
    assert_eq!(s.check_ballot(1, &labels(&["D", "A"])), Ok(vec![3, 0]));
}

#[test]
fn results_label_rounds() {
    let mut s = Survey::new(
        "Colours".to_string(),
        labels(&["A", "B", "C"]),
        0,
        60,
    );
    for r in [["A", "B", "C"], ["A", "B", "C"], ["B", "C", "A"], ["C", "A", "B"]] {
        assert_eq!(s.submit_ballot(10, &labels(&r)), Ok(()));
    }
    let r = s.results();
    assert_eq!(r.title, "Colours");
    assert_eq!(r.choices, labels(&["A", "B", "C"]));
    assert_eq!(r.rank_fields, vec!["top choice", "2nd choice", "3rd choice"]);
    assert_eq!(r.votes.len(), 2);
    assert_eq!(r.votes[1].len(), 2);
    assert_eq!(r.votes[1][0].title, "A");
    assert_eq!(r.votes[1][1].title, "C");
    assert_eq!(r.votes[1][1].ranking[0], ("top choice".to_string(), 1));
    assert_eq!(r.votes[1][1].ranking[1], ("2nd choice".to_string(), 1));
}

#[test]
fn results_twice_are_equal() {
    let mut s = Survey::new_default(0);
    assert_eq!(s.submit_ballot(1, &labels(&["B", "A"])), Ok(()));
    assert_eq!(s.submit_ballot(1, &labels(&["A"])), Ok(()));
    assert_eq!(s.submit_ballot(1, &labels(&["C", "B"])), Ok(()));
    let a = s.results();
    let b = s.results();
    assert_eq!(a.title, b.title);
    assert_eq!(a.rank_fields, b.rank_fields);
    assert_eq!(a.votes.len(), b.votes.len());
    for (x, y) in a.votes.iter().zip(b.votes.iter()) {
        assert_eq!(x.len(), y.len());
        for (p, q) in x.iter().zip(y.iter()) {
            assert_eq!(p.title, q.title);
            assert_eq!(p.ranking, q.ranking);
        }
    }
}

#[test]
fn registry_hands_out_distinct_increasing_ids() {
    let mut reg: Registry<Survey> = Registry::new();
    let ids: Vec<u64> = (0..10).map(|t| reg.create(Survey::new_default(t))).collect();
    assert_eq!(ids, (0..10).collect::<Vec<u64>>());
    assert_eq!(reg.get(3).map(|s| s.start), Ok(3));
    assert!(matches!(reg.get(10), Err(VoteError::UnknownSurvey)));
    assert_eq!(reg.allocate_id(), 10);
    assert_eq!(reg.create(Survey::new_default(0)), 11);
}

#[test]
fn long_ballot_keeps_one_field_per_choice() {
    let mut s = Survey::new_default(0);
    assert_eq!(s.submit_ballot(1, &labels(&["A", "A", "A", "A", "A", "A"])), Ok(()));
    let r = s.results();
    assert_eq!(r.rank_fields, vec!["top choice", "2nd choice", "3rd choice", "4th choice", "5th choice"]);
    assert_eq!(r.votes.len(), 1);
    assert_eq!(r.votes[0].len(), 1);
    assert_eq!(r.votes[0][0].title, "A");
    assert_eq!(r.votes[0][0].ranking.len(), 5);
    assert_eq!(r.votes[0][0].ranking[0], ("top choice".to_string(), 1));
}

#[test]
fn count_past_last_choice_position_adds_fields() {
    let mut s = Survey::new("Deep".to_string(), labels(&["A", "B", "C"]), 0, 60);
    for r in [vec!["A"], vec!["A"], vec!["C"], vec!["C"], vec!["B", "B", "B", "A"]] {
        assert_eq!(s.submit_ballot(1, &labels(&r)), Ok(()));
    }
    let r = s.results();
    assert_eq!(r.rank_fields, vec!["top choice", "2nd choice", "3rd choice", "4th choice"]);
    assert_eq!(r.votes.len(), 2);
    assert_eq!(r.votes[0].len(), 3);
    assert!(r.votes[0].iter().all(|v| v.ranking.len() == 4));
    assert_eq!(r.votes[1][0].title, "A");
    assert_eq!(r.votes[1][0].ranking[3], ("4th choice".to_string(), 1));
    assert_eq!(r.votes[1][1].title, "C");
    assert_eq!(r.votes[1][1].ranking[3], ("4th choice".to_string(), 0));
}

#[test]
fn store_ballot_appends_checked_ballot() {
    let mut s = Survey::new_default(0);
    let b = s.check_ballot(5, &labels(&["B", "D"])).unwrap();
    s.store_ballot(b);
    assert_eq!(s.ballots, vec![vec![1, 3]]);
    assert_eq!(s.check_ballot(60_000_000_001, &labels(&["B"])), Err(VoteError::SurveyExpired));
}
