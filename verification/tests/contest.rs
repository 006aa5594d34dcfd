use mahjong::contest::{by_program, seating, Contest};

#[test]
fn the_contest_opens_with_a_fresh_seed_and_the_first_seating() {
    let c = Contest::new();
    let p = c.next_game().unwrap();
    assert_eq!(p.seats, vec![0, 1, 2, 3]);
    assert_eq!(p.leader, None);
    assert!(p.new_seed && p.new_generator);
    assert_eq!((p.round, p.game), (1, 1));
    assert_eq!(c.totals, vec![0, 0, 0, 0]);
}

#[test]
fn seats_rotate_after_four_games_and_groups_after_four_seatings() {
    let mut c = Contest::new();
    for _ in 0..4 {
        let p = c.next_game().unwrap();
        c.record(&p.seats, &vec![0, 0, 0, 0], None, None);
    }
    let p = c.next_game().unwrap();
    assert_eq!(p.seats, vec![1, 2, 3, 0]);
    assert!(p.new_generator && !p.new_seed);
    assert_eq!((p.round, p.game), (2, 1));
    for _ in 0..12 {
        let p = c.next_game().unwrap();
        c.record(&p.seats, &vec![0, 0, 0, 0], None, None);
    }
    let p = c.next_game().unwrap();
    assert_eq!(p.seats, vec![0, 2, 1, 3]);
    assert!(p.new_seed);
    assert_eq!((p.round, p.game), (5, 1));
}

#[test]
fn the_contest_ends_after_every_group() {
    let mut c = Contest::new();
    let mut games = 0;
    while let Some(p) = c.next_game() {
        c.record(&p.seats, &vec![1, 0, 0, -1], None, None);
        games += 1;
    }
    assert_eq!(games, 96);
    assert_eq!(c.totals.iter().sum::<i64>(), 0);
}

#[test]
fn totals_go_to_the_programs_and_the_winner_leads() {
    let mut c = Contest::new();
    for _ in 0..4 {
        let p = c.next_game().unwrap();
        c.record(&p.seats, &vec![0, 0, 0, 0], None, None);
    }
    let p = c.next_game().unwrap();
    assert_eq!(p.seats, vec![1, 2, 3, 0]);
    c.record(&p.seats, &vec![-4, 12, -4, -4], Some(1), None);
    assert_eq!(c.totals, vec![-4, -4, 12, -4]);
    assert_eq!(c.last_winner, Some(2));
    let p = c.next_game().unwrap();
    assert_eq!(p.leader, Some(1));
}

#[test]
fn a_program_that_closes_ends_the_contest() {
    let mut c = Contest::new();
    let p = c.next_game().unwrap();
    c.record(&p.seats, &vec![0, 0, 0, 0], None, Some(3));
    assert_eq!(c.quitter, Some(3));
    assert!(c.next_game().is_none());
}

#[test]
fn scores_are_taken_back_to_the_programs() {
    assert_eq!(by_program(&vec![2, 0, 3, 1], &vec![10, 20, 30, 40]), vec![20, 40, 10, 30]);
    assert_eq!(seating(2, 1), vec![2, 3, 1, 0]);
}
