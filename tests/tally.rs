use ranked_survey::tally::{tally, OptionTally};

fn counts(r: &OptionTally) -> (usize, Vec<usize>) {
    (r.option, r.counts.clone())
}

#[test]
fn example_three_options_two_rounds() {
    let ballots = vec![vec![0u32, 1, 2], vec![0, 1, 2], vec![1, 2, 0], vec![2, 0, 1]];
    let rounds = tally(&ballots, 3);
    assert_eq!(rounds.len(), 2);
    let first: Vec<(usize, Vec<usize>)> = rounds[0].iter().map(counts).collect();
    assert_eq!(first, vec![(0, vec![2, 0, 0]), (1, vec![1, 0, 0]), (2, vec![1, 0, 0])]);
    // option 1 is eliminated on the tie with option 2; its ballot moves to option 2 at its second position
    let second: Vec<(usize, Vec<usize>)> = rounds[1].iter().map(counts).collect();
    assert_eq!(second, vec![(0, vec![2, 0, 0]), (2, vec![1, 1, 0])]);
}

#[test]
fn zero_ballots_give_one_empty_round() {
    let ballots: Vec<Vec<u32>> = Vec::new();
    let rounds = tally(&ballots, 5);
    assert_eq!(rounds.len(), 1);
    assert!(rounds[0].is_empty());
}

#[test]
fn fewer_than_two_options_stop_after_one_round() {
    let ballots = vec![vec![0u32], vec![0]];
    let rounds = tally(&ballots, 1);
    assert_eq!(rounds.len(), 1);
    assert_eq!(rounds[0].len(), 1);
    assert_eq!(rounds[0][0].counts, vec![2]);
}

#[test]
fn round_count_stays_within_bound() {
    let ballots = vec![
        vec![0u32, 1, 2, 3, 4],
        vec![1, 2, 3, 4, 0],
        vec![2, 3, 4, 0, 1],
        vec![3, 4, 0, 1, 2],
        vec![4, 0, 1, 2, 3],
        vec![4, 3],
    ];
    let rounds = tally(&ballots, 5);
    assert!(rounds.len() >= 1 && rounds.len() <= 4);
    assert_eq!(rounds.len(), 4);
    assert!(rounds.last().unwrap().len() <= 2);
}

#[test]
fn elimination_compares_later_positions_on_ties() {
    // options 0 and 1 tie at the first position; option 1 has more second-position
    // counts only after option 2 is gone
    let ballots = vec![
        vec![0u32],
        vec![1],
        vec![2, 1],
        vec![2, 1],
        vec![3, 3, 0],
        vec![3],
        vec![3],
    ];
    let rounds = tally(&ballots, 4);
    // round 1: 0:[1], 1:[1], 2:[2], 3:[3]; 0 is eliminated (lowest index of the tie)
    assert_eq!(rounds[0].len(), 4);
    assert_eq!(rounds[1].iter().map(|t| t.option).collect::<Vec<_>>(), vec![1, 2, 3]);
    // round 2: 1:[1,0,0], 2:[2,0,0], 3:[3,0,0]; 1 is eliminated, ballots [2,1] stay with 2
    assert_eq!(rounds.len(), 3);
    let last: Vec<(usize, Vec<usize>)> = rounds[2].iter().map(counts).collect();
    assert_eq!(last, vec![(2, vec![2, 0, 0, 0]), (3, vec![3, 0, 0, 0])]);
}

#[test]
fn eliminated_option_is_never_the_leader() {
    let ballots = vec![vec![0u32], vec![0], vec![0], vec![1], vec![1], vec![2]];
    let rounds = tally(&ballots, 3);
    assert_eq!(rounds.len(), 2);
    assert_eq!(rounds[1].iter().map(|t| t.option).collect::<Vec<_>>(), vec![0, 1]);
}

#[test]
fn exhausted_ballots_count_for_nobody() {
    let ballots = vec![vec![1u32], vec![0], vec![0], vec![2], vec![2], vec![3], vec![3]];
    let rounds = tally(&ballots, 4);
    assert_eq!(rounds.len(), 3);
    // option 1 is eliminated and its only ballot is exhausted
    let second: Vec<(usize, Vec<usize>)> = rounds[1].iter().map(counts).collect();
    assert_eq!(second, vec![(0, vec![2, 0, 0, 0]), (2, vec![2, 0, 0, 0]), (3, vec![2, 0, 0, 0])]);
    let third: Vec<usize> = rounds[2].iter().map(|t| t.option).collect();
    assert_eq!(third, vec![2, 3]);
}

#[test]
fn repeated_indices_beyond_choice_count_are_tallied() {
    let ballots = vec![vec![0u32, 0, 0, 1], vec![0], vec![0], vec![2], vec![2], vec![1], vec![1], vec![1]];
    let rounds = tally(&ballots, 3);
    assert_eq!(rounds[0][0].counts, vec![3, 0, 0, 0]);
    assert_eq!(rounds.len(), 2);
}
