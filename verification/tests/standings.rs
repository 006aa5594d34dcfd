use mahjong::standings::ranking;

#[test]
fn players_rank_by_score_with_the_quitter_last() {
    assert_eq!(ranking(&vec![10, 30, 30, -5], Some(1)), vec![2, 0, 3, 1]);
    assert_eq!(ranking(&vec![10, 30, 30, -5], None), vec![1, 2, 0, 3]);
    assert_eq!(ranking(&vec![-7, -7, -7, -7], Some(0)), vec![1, 2, 3, 0]);
}
