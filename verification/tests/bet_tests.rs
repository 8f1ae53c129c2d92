use fluff::bet::{Bet, RaiseError};

#[test]
fn test_is_raised_from() {
    const RANGE: std::ops::Range<usize> = 1..4;
    for new_count in RANGE {
        for new_roll in RANGE {
            for prev_count in RANGE {
                for prev_roll in RANGE {
                    let b_prev = Bet {
                        count: prev_count,
                        roll: prev_roll,
                    };
                    let b_new = Bet {
                        count: new_count,
                        roll: new_roll,
                    };
                    let raised = b_new.is_raised_from(&b_prev);
                    assert_eq!(raised.is_ok(), b_new > b_prev);
                    match raised {
                        Ok(()) => assert!(
                            (new_count > prev_count)
                                || (new_count == prev_count && new_roll > prev_roll)
                        ),
                        Err(RaiseError::SameBet(_)) => assert_eq!(b_new, b_prev),
                        Err(RaiseError::SameCountLowerRoll { prev, new }) => {
                            assert_eq!(new_count, prev_count);
                            assert_eq!(new_roll, new);
                            assert_eq!(prev_roll, prev);
                            assert!(new < prev);
                        }
                        Err(RaiseError::CountDecreased { prev, new }) => {
                            assert_eq!(new_count, new);
                            assert_eq!(prev_count, prev);
                            assert!(new < prev);
                        }
                    }
                }
            }
        }
    }
}

#[test]
fn identical_bet_is_rejected_as_same_bet() {
    let a = Bet::new(2, 3);
    let b = Bet::new(2, 3);
    assert_eq!(
        a.is_raised_from(&b),
        Err(RaiseError::SameBet(Bet { count: 2, roll: 3 }))
    );
}

#[test]
fn count_decrease_is_rejected() {
    let prev = Bet::new(3, 2);
    assert_eq!(
        Bet::new(2, 6).is_raised_from(&prev),
        Err(RaiseError::CountDecreased { prev: 3, new: 2 })
    );
}

#[test]
fn same_count_lower_roll_is_rejected() {
    let prev = Bet::new(3, 4);
    assert_eq!(
        Bet::new(3, 2).is_raised_from(&prev),
        Err(RaiseError::SameCountLowerRoll { prev: 4, new: 2 })
    );
}

#[test]
fn raise_builds_the_candidate_bet() {
    let prev = Bet::new(2, 3);
    assert_eq!(prev.raise(2, 4), Ok(Bet { count: 2, roll: 4 }));
    assert_eq!(prev.raise(3, 1), Ok(Bet { count: 3, roll: 1 }));
    assert!(prev.raise(2, 2).is_err());
}

#[test]
fn count_matches_counts_face_and_wildcards() {
    let bet = Bet::new(2, 3);
    assert_eq!(bet.count_matches(&vec![3, 1, 4, 3]), 3);
    assert_eq!(bet.count_matches(&vec![]), 0);
    assert_eq!(bet.count_matches(&vec![2, 4, 5]), 0);
    // A face-1 bet matches only by equality: wildcards are the face itself.
    let ones = Bet::new(2, 1);
    assert_eq!(ones.count_matches(&vec![1, 1, 2]), 2);
}

#[test]
fn count_matches_is_monotonic_under_appending() {
    let bet = Bet::new(3, 5);
    let shorter = vec![5, 2, 1];
    let mut longer = shorter.clone();
    longer.push(5);
    longer.push(1);
    assert!(bet.count_matches(&longer) >= bet.count_matches(&shorter));
    // A hand of only wildcards matches any face, one per die.
    let wilds = vec![1, 1, 1, 1];
    assert_eq!(Bet::new(4, 6).count_matches(&wilds), 4);
    assert!(!Bet::new(4, 6).is_fluff(&wilds));
    assert!(Bet::new(5, 6).is_fluff(&wilds));
}

#[test]
fn bets_render_with_pluralized_roll() {
    assert_eq!(Bet::new(2, 3).render(), "2 3s");
    assert_eq!(Bet::new(1, 6).render(), "1 6");
    assert_eq!(Bet::new(12, 10).render(), "12 10s");
}

#[test]
fn is_fluff_compares_matches_to_count() {
    let bet = Bet::new(4, 3);
    assert!(bet.is_fluff(&vec![3, 1, 3, 2, 6]));
    assert!(!bet.is_fluff(&vec![3, 1, 3, 3, 6]));
}
