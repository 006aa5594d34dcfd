use mahjong::tile::parse_tile;
use mahjong::hand::{Tiles, combine, sort_hand};
use mahjong::fan::{cal_fan, score_completion, best_completion, Fan, FanEntry};

fn t(name: &str) -> u8 {
    parse_tile(&name.chars().collect()).unwrap()
}

fn tiles(names: &str) -> Vec<u8> {
    names.split_whitespace().map(t).collect()
}

fn concealed(names: &str) -> Tiles {
    Tiles {
        hands: tiles(names),
        chows: Vec::new(),
        pungs: Vec::new(),
        kongs: Vec::new(),
        ckongs: Vec::new(),
        cchows: Vec::new(),
        cpungs: Vec::new(),
    }
}

fn entry(fan: Fan, times: i64, value: i64) -> FanEntry {
    FanEntry { fan, times, value }
}

#[test]
fn hands_sort_by_suit_then_rank_then_honours() {
    let h = tiles("E 3T 1M Z 9S B 2M");
    assert_eq!(sort_hand(&h), tiles("1M 2M 9S 3T B E Z"));
}

#[test]
fn a_standard_hand_completes_one_way() {
    let c = combine(&concealed("2M 3M 4M 5S 6S 7S 3T 4T 5T 6T 7T 8T 5M 5M"));
    assert!(!c.is_empty());
    for x in &c {
        assert_eq!(x.hands, tiles("5M 5M"));
        assert_eq!(sort_hand(&x.cchows), tiles("2M 5S 3T 6T"));
        assert!(x.cpungs.is_empty());
    }
}

#[test]
fn an_incomplete_hand_has_no_completion() {
    assert!(combine(&concealed("1M 2M 4M 5S 6S 7S 3T 4T 5T 6T 7T 8T 5M 5M")).is_empty());
    assert!(combine(&concealed("1M 9M 1S 9S 1T 9T E S W N Z F 2M 2M")).is_empty());
}

#[test]
fn pungs_and_chows_both_tried() {
    let c = combine(&concealed("1M 1M 1M 2M 2M 2M 3M 3M 3M 5T 5T 5T 9S 9S"));
    assert!(c.iter().any(|x| sort_hand(&x.cchows) == tiles("1M 1M 1M") && x.cpungs == tiles("5T")));
    assert!(c.iter().any(|x| x.cchows.is_empty() && sort_hand(&x.cpungs) == tiles("1M 2M 3M 5T")));
    for x in &c {
        assert_eq!(x.hands, tiles("9S 9S"));
    }
}

#[test]
fn seven_pairs_are_a_completion() {
    let c = combine(&concealed("1M 1M 2M 2M 3S 3S 4S 4S 5T 5T E E W W"));
    assert_eq!(c.len(), 1);
    assert_eq!(c[0].hands.len(), 14);
}

#[test]
fn thirteen_orphans_are_a_completion() {
    let c = combine(&concealed("1M 9M 1S 9S 1T 9T E S W N Z F B 1M"));
    assert_eq!(c.len(), 1);
    assert_eq!(c[0].hands.len(), 14);
}

#[test]
fn all_chows_simple_concealed_win() {
    let r = cal_fan(&concealed("2M 3M 4M 5S 6S 7S 3T 4T 5T 6T 7T 8T 5M"), t("5M"), false).unwrap();
    assert_eq!(r.0, 6);
    assert_eq!(
        r.1,
        vec![entry(Fan::ConcealedHand, 1, 2), entry(Fan::AllSimples, 1, 2), entry(Fan::AllChows, 1, 2)]
    );
}

#[test]
fn self_drawn_win_adds_one() {
    let r = cal_fan(&concealed("2M 3M 4M 5S 6S 7S 3T 4T 5T 6T 7T 8T 5M 5M"), t("5M"), true).unwrap();
    assert_eq!(r.0, 7);
    assert!(r.1.contains(&entry(Fan::SelfDrawn, 1, 1)));
}

#[test]
fn seven_pairs_score() {
    let r = cal_fan(&concealed("1M 1M 2M 2M 3S 3S 4S 4S 5T 5T E E W"), t("W"), false).unwrap();
    assert_eq!(r.0, 24);
    assert_eq!(r.1, vec![entry(Fan::SevenPairs, 1, 24)]);
}

#[test]
fn thirteen_orphans_score() {
    let r = cal_fan(&concealed("1M 9M 1S 9S 1T 9T E S W N Z F B"), t("1M"), false).unwrap();
    assert_eq!(r.0, 88);
    assert_eq!(r.1, vec![entry(Fan::ThirteenOrphans, 1, 88)]);
}

#[test]
fn thirteen_orphans_need_every_kind() {
    assert!(combine(&concealed("1M 1M 1M 9M 1S 9S 1T 9T E S W N Z F")).is_empty());
    assert_eq!(cal_fan(&concealed("1M 1M 9M 1S 9S 1T 9T E S W N Z F"), t("1M"), false), None);
}

#[test]
fn four_concealed_pungs_score_no_concealed_hand() {
    let r = cal_fan(&concealed("3M 3M 3M 5S 5S 5S 7T 7T 7T 4S 4S 4S 2M 2M"), t("2M"), true).unwrap();
    assert_eq!(r.0, 67);
    assert!(r.1.contains(&entry(Fan::FourConcealedPungs, 1, 64)));
    assert!(r.1.contains(&entry(Fan::AllSimples, 1, 2)));
    assert!(r.1.contains(&entry(Fan::SelfDrawn, 1, 1)));
    assert!(!r.1.iter().any(|e| e.fan == Fan::ConcealedHand || e.fan == Fan::AllPungs));
}

#[test]
fn an_edge_wait_is_no_single_wait() {
    let r = cal_fan(&concealed("1M 2M E E"), t("3M"), false).unwrap();
    assert_eq!(r.0, 10);
    assert!(r.1.contains(&entry(Fan::HalfFlush, 1, 6)));
    assert!(r.1.contains(&entry(Fan::ConcealedHand, 1, 2)));
    assert!(r.1.contains(&entry(Fan::AllChows, 1, 2)));
    assert!(!r.1.iter().any(|e| e.fan == Fan::SingleWait));
}

#[test]
fn no_score_without_a_winning_hand() {
    assert_eq!(cal_fan(&concealed("1M 2M 4M 5S 6S 7S 3T 4T 5T 6T 7T 8T 5M"), t("9T"), false), None);
}

#[test]
fn single_wait_on_a_pair() {
    // 1M 2M 3M 4M 5M 6M 7M 8M 9M 1S 2S 3S + E waits on E alone.
    let r = cal_fan(&concealed("1M 2M 3M 4M 5M 6M 7M 8M 9M 1S 2S 3S E"), t("E"), false).unwrap();
    assert!(r.1.contains(&entry(Fan::SingleWait, 1, 1)));
    assert!(r.1.contains(&entry(Fan::AllChows, 1, 2)));
    assert!(r.1.contains(&entry(Fan::ConcealedHand, 1, 2)));
    assert!(r.1.contains(&entry(Fan::MixedDoubleChow, 1, 1)));
    assert_eq!(r.0, 6);
}

#[test]
fn pung_hand_with_melds() {
    // Pungs of 2M and 7S claimed, concealed 5T 5T 5T and 9S 9S 9S, pair E.
    let mut h = concealed("5T 5T 5T 9S 9S 9S E");
    h.pungs = tiles("2M 7S");
    let r = cal_fan(&h, t("E"), false).unwrap();
    assert!(r.1.contains(&entry(Fan::AllPungs, 1, 6)));
    assert!(!r.1.iter().any(|e| e.fan == Fan::ConcealedHand));
    assert!(r.1.contains(&entry(Fan::SingleWait, 1, 1)));
    assert_eq!(r.0, 7);
}

#[test]
fn best_completion_takes_highest_total() {
    let b = best_completion(&concealed("1M 1M 1M 2M 2M 2M 3M 3M 3M 5T 5T 5T 9S 9S"), false).unwrap();
    let by_pungs = score_completion(
        &Tiles {
            hands: tiles("9S 9S"),
            chows: Vec::new(),
            pungs: Vec::new(),
            kongs: Vec::new(),
            ckongs: Vec::new(),
            cchows: Vec::new(),
            cpungs: tiles("1M 2M 3M 5T"),
        },
        false,
    );
    assert!(b.0 >= by_pungs.1);
    assert_eq!(by_pungs.1, by_pungs.0.iter().map(|e| e.value).sum::<i64>());
}

#[test]
fn all_green_with_the_green_dragon_is_a_half_flush() {
    let r = cal_fan(&concealed("2S 3S 4S 2S 3S 4S 6S 6S 6S F F F 8S"), t("8S"), false).unwrap();
    assert!(r.1.contains(&entry(Fan::AllGreen, 1, 88)));
    assert!(r.1.contains(&entry(Fan::HalfFlush, 1, 6)));
    assert!(!r.1.iter().any(|e| e.fan == Fan::FullFlush));
}

#[test]
fn all_green_without_the_green_dragon_is_a_full_flush() {
    let r = cal_fan(&concealed("2S 3S 4S 2S 3S 4S 6S 6S 6S 8S 8S 8S 4S"), t("4S"), false).unwrap();
    assert!(r.1.contains(&entry(Fan::AllGreen, 1, 88)));
    assert!(r.1.contains(&entry(Fan::FullFlush, 1, 24)));
    assert!(!r.1.iter().any(|e| e.fan == Fan::HalfFlush));
}

#[test]
fn self_drawing_adds_the_self_drawn_fan_alone() {
    let c = Tiles {
        hands: tiles("5M 5M"),
        chows: Vec::new(),
        pungs: Vec::new(),
        kongs: Vec::new(),
        ckongs: Vec::new(),
        cchows: tiles("2M 5S 3T 6T"),
        cpungs: Vec::new(),
    };
    let (f0, r0) = score_completion(&c, false);
    let (f1, r1) = score_completion(&c, true);
    assert_eq!(r1, r0 + 1);
    let mut with = f0.clone();
    let at = with.iter().position(|e| e.fan == Fan::AllChows).unwrap() + 1;
    with.insert(at, entry(Fan::SelfDrawn, 1, 1));
    assert_eq!(f1, with);
}

#[test]
fn special_forms_complete_as_the_hand_itself() {
    let h = concealed("1M 9M 1S 9S 1T 9T E S W N Z F B 9T");
    let c = combine(&h);
    assert_eq!(c[0].hands, h.hands);
    assert!(c[0].cchows.is_empty() && c[0].cpungs.is_empty());
}
