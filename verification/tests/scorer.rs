use icfpc2023::scorer::ScoreTally;

fn flags(rows: &[&[bool]]) -> Vec<Vec<bool>> {
    rows.iter().map(|r| r.to_vec()).collect()
}

#[test]
fn tally_add_remove_swap() {
    let mut t = ScoreTally::new(3, 2);
    assert!(!t.is_placed(0));

    // Musician 0 alone: both attendees hear it.
    let d0 = t.add_musician(
        0,
        &flags(&[&[false, false, false], &[false, false, false]]),
        &vec![10, -5],
        &flags(&[&[false, false], &[false, false], &[false, false]]),
    );
    assert_eq!(d0, 5);

    // Musician 1: musician 0 stands between it and attendee 0, and it
    // stands between musician 0 and attendee 1.
    let blocks1 = flags(&[&[false, true], &[false, false], &[false, false]]);
    let d1 = t.add_musician(
        1,
        &flags(&[&[true, false, false], &[false, false, false]]),
        &vec![3, 4],
        &blocks1,
    );
    assert_eq!(d1, 9);
    assert_eq!(t.n_blocking(1, 0), 1);
    assert_eq!(t.n_blocking(0, 1), 1);
    assert_eq!(d0 + d1, 14);

    // Taking it away again gives the change back.
    let d2 = t.remove_musician(1, &blocks1);
    assert_eq!(d2, -d1);
    assert_eq!(t.n_blocking(0, 1), 0);
    assert_eq!(t.n_blocking(1, 0), 0);
    assert!(!t.is_placed(1));

    // Musician 2 takes the place of musician 0.
    let d3 = t.swap_musicians(0, 2, &vec![], &vec![7, 1]);
    assert_eq!(d3, 3);
    assert!(!t.is_placed(0));
    assert!(t.is_placed(2));

    // Trading back, with the gains musician 0 had, restores the score.
    let d4 = t.swap_musicians(0, 2, &vec![10, -5], &vec![]);
    assert_eq!(d4, -d3);
    assert!(t.is_placed(0));
    assert!(!t.is_placed(2));
}

#[test]
fn tally_blocked_pair_scores_nothing() {
    let mut t = ScoreTally::new(2, 1);
    t.add_musician(0, &flags(&[&[false, false]]), &vec![100], &flags(&[&[false], &[false]]));
    // Musician 1 blocks musician 0 from the only attendee, and is itself
    // blocked by musician 0.
    let d = t.add_musician(1, &flags(&[&[true, false]]), &vec![50], &flags(&[&[true], &[false]]));
    assert_eq!(d, -100);
    assert_eq!(t.n_blocking(0, 0), 1);
    assert_eq!(t.n_blocking(1, 0), 1);
}
