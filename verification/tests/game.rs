use rand::{SeedableRng, StdRng};
use mahjong::tile::{parse_tile, tile_to_chars};
use mahjong::hand::Tiles;
use mahjong::game::{Game, Stage, Fault, Action, Notice, Record, BASE_SCORE};
use mahjong::events::{incoming, is_walk_exec};
use mahjong::rng::gen_seed;

fn t(name: &str) -> u8 {
    parse_tile(&name.chars().collect()).unwrap()
}

fn tiles(names: &str) -> Vec<u8> {
    names.split_whitespace().map(t).collect()
}

fn chars(s: &str) -> Vec<char> {
    s.chars().collect()
}

fn concealed(names: &str) -> Tiles {
    Tiles {
        hands: tiles(names),
        chows: Vec::new(),
        pungs: Vec::new(),
        kongs: Vec::new(),
        ckongs: Vec::new(),
        cchows: Vec::new(),
        cpungs: Vec::new(),
    }
}

fn table(hands: [&str; 4], action: usize, stage: Stage, last: &str) -> Game {
    Game {
        stage,
        alive: vec![true, true, true, true],
        joined: vec![true, true, true, true],
        action_id: action,
        tiles: hands.iter().map(|h| concealed(h)).collect(),
        left: tiles("1M 2M 3M 4M 5M 6M 7M 8M 9M 1S").repeat(6),
        last_time: 1000,
        last_tile: Some(t(last)),
        score: vec![0, 0, 0, 0],
        messages: vec![None, None, None, None],
        base: BASE_SCORE,
        gid: 0x100_0000_0000_0000,
        leader: None,
        fines: 0,
    }
}

fn rng() -> StdRng {
    StdRng::from_seed(&[1usize, 2, 3, 4][..])
}

fn walk() -> Vec<usize> {
    vec![0, 1, 2, 3]
}

const WIN13: &str = "2M 3M 4M 5S 6S 7S 3T 4T 5T 6T 7T 8T 5M";
const FILLER: &str = "1M 9M 1S 9S 1T 9T E S W N Z F B";

/// The JSON line for the words of a command: `out 9M` is
/// `{"type":"out","tile":"9M"}`, `chi 7M 8M` names two tiles.
fn json(text: &str) -> String {
    let w: Vec<&str> = text.split(' ').collect();
    match w.len() {
        1 => format!("{{\"type\":\"{}\"}}", w[0]),
        2 => format!("{{\"type\":\"{}\",\"tile\":\"{}\"}}", w[0], w[1]),
        _ => format!("{{\"type\":\"{}\",\"tiles\":[\"{}\",\"{}\"]}}", w[0], w[1], w[2]),
    }
}

fn say(g: &mut Game, id: usize, text: &str, now: i64, acts: &mut Vec<Action>) -> Result<(), Fault> {
    let mut r = rng();
    let line = if text == "CLOSE" { text.to_string() } else { json(text) };
    g.on_message(id, &chars(&line), now, &walk(), &mut r, acts)
}

#[test]
fn new_game_waits_for_joins() {
    let mut r = rng();
    let g = Game::new(&mut r, 5, None);
    assert_eq!(g.stage, Stage::Join);
    assert_eq!(g.left.len(), 136);
    for code in 0u8..34 {
        assert_eq!(g.left.iter().filter(|&&x| x == code).count(), 4);
    }
    assert_eq!(g.score, vec![0, 0, 0, 0]);
    assert_eq!(g.last_time, 5);
    assert!(g.gid >= 0x100_0000_0000_0000 && g.gid < 0x1000_0000_0000_0000);
    assert!(g.tiles.is_empty());
}

#[test]
fn same_seed_deals_same_wall() {
    let mut r1 = rng();
    let mut r2 = rng();
    assert_eq!(Game::new(&mut r1, 0, None).left, Game::new(&mut r2, 0, None).left);
}

#[test]
fn four_joins_deal_and_first_player_draws() {
    let mut r = rng();
    let mut g = Game::new(&mut r, 0, None);
    let wall = g.left.clone();
    let mut acts = Vec::new();
    for i in 0..3 {
        g.join(i, &mut r, 10, &mut acts).unwrap();
        assert_eq!(g.stage, Stage::Join);
    }
    assert!(acts.is_empty());
    g.join(3, &mut r, 10, &mut acts).unwrap();
    assert_eq!(g.stage, Stage::Out);
    assert_eq!(g.left.len(), 83);
    assert_eq!(g.last_time, 10);
    let a = g.action_id;
    assert!(a < 4);
    for i in 0..4 {
        let mut expect: Vec<u8> = (0..13).map(|j| wall[135 - 13 * i - j]).collect();
        if i == a {
            expect.push(wall[83]);
        }
        assert_eq!(g.tiles[i].hands, expect);
    }
    assert_eq!(g.last_tile, Some(wall[83]));
    for i in 0..4 {
        assert!(matches!(acts[i], Action::Send { to, notice: Notice::Id { id } } if to == i && id == i));
    }
    assert!(matches!(acts[4], Action::Log { record: Record::First { id } } if id == a));
    let deals = acts.iter().filter(|x| matches!(x, Action::Deal { .. })).count();
    assert_eq!(deals, 4);
    assert!(acts.iter().any(|x| matches!(x, Action::Send { to, notice: Notice::Pick { tile } } if *to == a && *tile == wall[83])));
}

#[test]
fn join_after_start_is_ignored() {
    let mut r = rng();
    let mut g = Game::new(&mut r, 0, None);
    let mut acts = Vec::new();
    for i in 0..4 {
        g.join(i, &mut r, 0, &mut acts).unwrap();
    }
    let n = acts.len();
    let left = g.left.clone();
    g.join(1, &mut r, 0, &mut acts).unwrap();
    assert_eq!(acts.len(), n);
    assert_eq!(g.left, left);
}

#[test]
fn discard_then_all_pass_next_player_draws() {
    let mut g = table([FILLER, "1M 2M 3M 4M 5M 6M 7M 8M 9M 1S 2S 3S 4S 5S", FILLER, FILLER], 1, Stage::Out, "5S");
    let mut acts = Vec::new();
    say(&mut g, 1, "out 9M", 1200, &mut acts).unwrap();
    assert_eq!(g.stage, Stage::OutWait);
    assert_eq!(g.last_tile, Some(t("9M")));
    assert_eq!(g.tiles[1].hands, tiles("1M 2M 3M 4M 5M 6M 7M 8M 1S 2S 3S 4S 5S"));
    assert_eq!(g.last_time, 1200);
    for i in [0usize, 2, 3] {
        assert!(acts.iter().any(|x| matches!(x, Action::Send { to, notice: Notice::MOut { id: 1, tile } } if *to == i && *tile == t("9M"))));
    }
    let before = g.left.len();
    say(&mut g, 2, "pass", 1300, &mut acts).unwrap();
    say(&mut g, 3, "pass", 1300, &mut acts).unwrap();
    assert_eq!(g.stage, Stage::OutWait);
    say(&mut g, 0, "pass", 1300, &mut acts).unwrap();
    assert_eq!(g.stage, Stage::Out);
    assert_eq!(g.action_id, 2);
    assert_eq!(g.left.len(), before - 1);
    assert_eq!(g.tiles[2].hands.len(), 14);
}

#[test]
fn slow_discard_is_fined() {
    let mut g = table([FILLER, FILLER, FILLER, "1M 2M 3M 4M 5M 6M 7M 8M 9M 1S 2S 3S 4S 5S"], 3, Stage::Out, "5S");
    let mut acts = Vec::new();
    say(&mut g, 3, "out 1M", 1000 + 1250, &mut acts).unwrap();
    assert_eq!(g.score, vec![0, 0, 0, -3]);
}

#[test]
fn slow_answer_is_fined() {
    let mut g = table([FILLER, FILLER, FILLER, FILLER], 0, Stage::OutWait, "5S");
    let mut acts = Vec::new();
    say(&mut g, 2, "pass", 1000 + 650, &mut acts).unwrap();
    assert_eq!(g.score, vec![0, 0, -2, 0]);
    say(&mut g, 1, "pass", 1000 + 549, &mut acts).unwrap();
    assert_eq!(g.score, vec![0, 0, -2, 0]);
    assert_eq!(g.fines, 2);
}

#[test]
fn out_of_turn_discard_is_ignored() {
    let mut g = table([FILLER, FILLER, FILLER, FILLER], 0, Stage::Out, "5S");
    let mut acts = Vec::new();
    say(&mut g, 2, "out 1M", 1100, &mut acts).unwrap();
    assert!(acts.is_empty());
    assert_eq!(g.stage, Stage::Out);
    assert_eq!(g.tiles[2].hands.len(), 13);
}

#[test]
fn discard_of_a_tile_not_held_shuts_player_down() {
    let mut g = table([FILLER, FILLER, FILLER, FILLER], 0, Stage::Out, "E");
    let mut acts = Vec::new();
    say(&mut g, 0, "out 5M", 1100, &mut acts).unwrap();
    assert!(!g.alive[0]);
    assert!(matches!(acts[0], Action::Shut { id: 0 }));
    assert_eq!(g.stage, Stage::OutWait);
    assert_eq!(g.last_tile, Some(t("E")));
    assert_eq!(g.tiles[0].hands, tiles("1M 9M 1S 9S 1T 9T S W N Z F B"));
}

#[test]
fn missing_argument_is_a_fault() {
    let mut g = table([FILLER, FILLER, FILLER, FILLER], 0, Stage::Out, "E");
    let mut acts = Vec::new();
    assert_eq!(say(&mut g, 0, "out", 1100, &mut acts), Err(Fault::MissingArgument));
    assert_eq!(say(&mut g, 2, "agang", 1100, &mut acts), Err(Fault::MissingArgument));
}

#[test]
fn unknown_commands_are_ignored() {
    let mut g = table([FILLER, FILLER, FILLER, FILLER], 0, Stage::Out, "E");
    let mut acts = Vec::new();
    say(&mut g, 0, "hello there", 1100, &mut acts).unwrap();
    say(&mut g, 0, "pass", 1100, &mut acts).unwrap();
    assert!(acts.is_empty());
    assert_eq!(g.stage, Stage::Out);
    assert_eq!(g.score, vec![0, 0, 0, 0]);
}

#[test]
fn pung_claim_takes_the_turn() {
    let mut g = table([FILLER, FILLER, "5M 5M 1S 2S 3S 4S 6S 7S 8S 9S 1T 2T 3T", FILLER], 0, Stage::OutWait, "5M");
    let mut acts = Vec::new();
    say(&mut g, 2, "peng", 1100, &mut acts).unwrap();
    say(&mut g, 1, "pass", 1100, &mut acts).unwrap();
    say(&mut g, 3, "pass", 1100, &mut acts).unwrap();
    assert_eq!(g.stage, Stage::Out);
    assert_eq!(g.action_id, 2);
    assert_eq!(g.tiles[2].hands, tiles("1S 2S 3S 4S 6S 7S 8S 9S 1T 2T 3T"));
    assert_eq!(g.tiles[2].pungs, tiles("5M"));
    assert!(acts.iter().any(|x| matches!(x, Action::Log { record: Record::Peng { id: 2, from: 0, tile } } if *tile == t("5M"))));
    let told = acts.iter().filter(|x| matches!(x, Action::Send { notice: Notice::MPeng { id: 2, .. }, .. })).count();
    assert_eq!(told, 4);
}

#[test]
fn failed_pung_claim_shuts_claimant_down() {
    let mut g = table([FILLER, FILLER, "5M 1M 1S 2S 3S 4S 6S 7S 8S 9S 1T 2T 3T", FILLER], 0, Stage::OutWait, "5M");
    let mut acts = Vec::new();
    say(&mut g, 2, "peng", 1100, &mut acts).unwrap();
    say(&mut g, 1, "pass", 1100, &mut acts).unwrap();
    say(&mut g, 3, "pass", 1100, &mut acts).unwrap();
    assert!(!g.alive[2]);
    assert_eq!(g.action_id, 1);
    assert_eq!(g.stage, Stage::Out);
    assert_eq!(g.tiles[2].hands.len(), 13);
}

#[test]
fn win_on_discard_pays_base_and_fans() {
    let mut g = table([FILLER, WIN13, "5M 5M 1S 2S 3S 4S 6S 7S 8S 9S 1T 2T 3T", FILLER], 0, Stage::OutWait, "5M");
    let mut acts = Vec::new();
    say(&mut g, 2, "peng", 1100, &mut acts).unwrap();
    say(&mut g, 1, "hu", 1100, &mut acts).unwrap();
    say(&mut g, 3, "pass", 1100, &mut acts).unwrap();
    assert_eq!(g.score, vec![-4 - 6, 12 + 6, -4, -4]);
    assert_eq!(g.score.iter().sum::<i64>(), 0);
    assert_eq!(g.alive, vec![false, false, false, false]);
    assert!(g.is_over());
    assert!(acts.iter().any(|x| matches!(x, Action::Log { record: Record::Win { id: 1, discarder: Some(0), score: 6, .. } })));
    for i in 0..4 {
        assert!(acts.iter().any(|x| matches!(x, Action::Send { to, notice: Notice::MHu { id: 1, discarder: 0, score: 6 } } if *to == i)));
    }
    assert_eq!(g.tiles[2].pungs.len(), 0);
}

#[test]
fn nearest_winner_takes_the_discard() {
    let mut g = table([WIN13, FILLER, WIN13, WIN13], 1, Stage::OutWait, "5M");
    let mut acts = Vec::new();
    say(&mut g, 0, "hu", 1100, &mut acts).unwrap();
    say(&mut g, 3, "hu", 1100, &mut acts).unwrap();
    say(&mut g, 2, "hu", 1100, &mut acts).unwrap();
    // Seat 2 is next after the discarder (seat 1).
    assert_eq!(g.score, vec![-4, -4 - 6, 18, -4]);
}

#[test]
fn self_drawn_win_pays_each_other_player() {
    let h = "2M 3M 4M 5S 6S 7S 3T 4T 5T 6T 7T 8T 5M 5M";
    let mut g = table([FILLER, h, FILLER, FILLER], 1, Stage::Out, "5M");
    let mut acts = Vec::new();
    say(&mut g, 1, "hu", 1100, &mut acts).unwrap();
    assert_eq!(g.score, vec![-11, 33, -11, -11]);
    assert!(g.is_over());
    assert!(acts.iter().any(|x| matches!(x, Action::Log { record: Record::Win { id: 1, discarder: None, score: 7, .. } })));
    let told = acts
        .iter()
        .filter(|x| matches!(x, Action::Send { notice: Notice::MHu { id: 1, discarder: 1, score: 7 }, .. }))
        .count();
    assert_eq!(told, 4);
}

#[test]
fn false_self_drawn_win_shuts_player_and_discards_for_him() {
    let h = "2M 3M 4M 5S 6S 7S 3T 4T 5T 6T 7T 9T 5M 5M";
    let mut g = table([FILLER, h, FILLER, FILLER], 1, Stage::Out, "5M");
    let mut acts = Vec::new();
    say(&mut g, 1, "hu", 1100, &mut acts).unwrap();
    assert!(!g.alive[1]);
    assert_eq!(g.stage, Stage::OutWait);
    assert_eq!(g.tiles[1].hands, tiles("2M 3M 4M 5S 6S 7S 3T 4T 5T 6T 7T 9T 5M"));
}

#[test]
fn chow_claim_by_next_player() {
    let mut g = table([FILLER, "1M 2M 9S 1S 2S 4S 6S 7S 8S 9T 1T 2T 3T", FILLER, FILLER], 0, Stage::OutWait, "3M");
    let mut acts = Vec::new();
    say(&mut g, 1, "chi 2M 1M", 1100, &mut acts).unwrap();
    say(&mut g, 2, "pass", 1100, &mut acts).unwrap();
    say(&mut g, 3, "pass", 1100, &mut acts).unwrap();
    assert_eq!(g.action_id, 1);
    assert_eq!(g.stage, Stage::Out);
    assert_eq!(g.tiles[1].chows, tiles("1M"));
    assert_eq!(g.tiles[1].hands, tiles("9S 1S 2S 4S 6S 7S 8S 9T 1T 2T 3T"));
    assert!(acts.iter().any(|x| matches!(x, Action::Send { notice: Notice::MChi { id: 1, start }, .. } if *start == t("1M"))));
    assert!(!acts.iter().any(|x| matches!(x, Action::Send { notice: Notice::MFail, .. })));
}

#[test]
fn failed_chow_claim_is_told() {
    let mut g = table([FILLER, "1M 5M 9S 1S 2S 4S 6S 7S 8S 9T 1T 2T 3T", FILLER, FILLER], 0, Stage::OutWait, "3M");
    let mut acts = Vec::new();
    say(&mut g, 1, "chi 1M 2M", 1100, &mut acts).unwrap();
    say(&mut g, 2, "pass", 1100, &mut acts).unwrap();
    say(&mut g, 3, "pass", 1100, &mut acts).unwrap();
    assert!(!g.alive[1]);
    assert!(acts.iter().any(|x| matches!(x, Action::Send { to: 1, notice: Notice::MFail })));
}

#[test]
fn chow_by_other_than_next_player_is_ignored() {
    let mut g = table([FILLER, FILLER, "1M 2M 9S 1S 2S 4S 6S 7S 8S 9T 1T 2T 3T", FILLER], 0, Stage::OutWait, "3M");
    let mut acts = Vec::new();
    say(&mut g, 2, "chi 1M 2M", 1100, &mut acts).unwrap();
    say(&mut g, 1, "pass", 1100, &mut acts).unwrap();
    say(&mut g, 3, "pass", 1100, &mut acts).unwrap();
    assert!(g.alive[2]);
    assert_eq!(g.action_id, 1);
    assert_eq!(g.tiles[2].chows.len(), 0);
}

#[test]
fn malformed_chow_argument_is_a_fault() {
    let mut g = table([FILLER, "1M 2M 9S 1S 2S 4S 6S 7S 8S 9T 1T 2T 3T", FILLER, FILLER], 0, Stage::OutWait, "3M");
    let mut acts = Vec::new();
    let mut r = rng();
    g.process(1, &chars("chi XM"), 1100, &walk(), &mut r, &mut acts).unwrap();
    say(&mut g, 2, "pass", 1100, &mut acts).unwrap();
    assert_eq!(say(&mut g, 3, "pass", 1100, &mut acts), Err(Fault::MalformedChow));
}

#[test]
fn concealed_kong_then_draw_again() {
    let mut g = table([FILLER, FILLER, "E E E E 1S 2S 3S 4S 6S 7S 8S 9T 1T 2T", FILLER], 2, Stage::Out, "2T");
    let mut acts = Vec::new();
    let before = g.left.len();
    say(&mut g, 2, "agang E", 1100, &mut acts).unwrap();
    assert_eq!(g.tiles[2].ckongs, tiles("E"));
    assert_eq!(g.tiles[2].hands.len(), 11);
    assert_eq!(g.left.len(), before - 1);
    assert_eq!(g.stage, Stage::Out);
    assert_eq!(g.action_id, 2);
    assert!(acts.iter().any(|x| matches!(x, Action::Log { record: Record::AGang { id: 2, tile } } if *tile == t("E"))));
}

#[test]
fn false_concealed_kong_shuts_player_down() {
    let mut g = table([FILLER, FILLER, "E E E 1S 2S 3S 4S 6S 7S 8S 9T 1T 2T 3T", FILLER], 2, Stage::Out, "3T");
    let mut acts = Vec::new();
    say(&mut g, 2, "agang E", 1100, &mut acts).unwrap();
    assert!(!g.alive[2]);
    assert_eq!(g.stage, Stage::OutWait);
    assert_eq!(g.last_tile, Some(t("3T")));
}

#[test]
fn added_kong_robbed_by_winning_hand() {
    let mut g = table([FILLER, WIN13, FILLER, FILLER], 0, Stage::Out, "E");
    g.tiles[0].hands = tiles("5M 1M 9M 1S 9S 1T 9T E S W N");
    g.tiles[0].pungs = tiles("5M");
    let mut acts = Vec::new();
    say(&mut g, 0, "jgang 5M", 1100, &mut acts).unwrap();
    assert_eq!(g.stage, Stage::QgWait);
    assert_eq!(g.tiles[0].kongs, tiles("5M"));
    assert!(g.tiles[0].pungs.is_empty());
    say(&mut g, 1, "qgang", 1200, &mut acts).unwrap();
    say(&mut g, 2, "pass", 1200, &mut acts).unwrap();
    say(&mut g, 3, "pass", 1200, &mut acts).unwrap();
    assert!(g.is_over());
    assert_eq!(g.score, vec![-10, 18, -4, -4]);
}

#[test]
fn added_kong_not_robbed_player_draws_again() {
    let mut g = table([FILLER, FILLER, FILLER, FILLER], 0, Stage::Out, "E");
    g.tiles[0].hands = tiles("5M 1M 9M 1S 9S 1T 9T E S W N");
    g.tiles[0].pungs = tiles("5M");
    let mut acts = Vec::new();
    say(&mut g, 0, "jgang 5M", 1100, &mut acts).unwrap();
    for i in 1..4 {
        say(&mut g, i, "pass", 1200, &mut acts).unwrap();
    }
    assert_eq!(g.stage, Stage::Out);
    assert_eq!(g.action_id, 0);
    assert_eq!(g.tiles[0].hands.len(), 11);
}

#[test]
fn closed_program_ends_the_game() {
    let mut g = table([FILLER, FILLER, "1M 2M 9S 1S 2S 4S 6S 7S 8S 9T 1T 2T 3T 5M", FILLER], 2, Stage::Out, "5M");
    let mut acts = Vec::new();
    say(&mut g, 2, "CLOSE", 1100, &mut acts).unwrap();
    assert!(g.is_over());
    assert!(matches!(acts.as_slice(), [Action::Shut { id: 2 }]));
    assert_eq!(g.stage, Stage::Out);
    assert_eq!(g.last_tile, Some(t("5M")));
    assert_eq!(g.tiles[2].hands.len(), 14);
}

#[test]
fn closed_program_ends_the_game_while_others_answer() {
    let mut g = table([FILLER, FILLER, FILLER, FILLER], 0, Stage::OutWait, "5M");
    let mut acts = Vec::new();
    say(&mut g, 1, "pass", 1100, &mut acts).unwrap();
    say(&mut g, 2, "pass", 1100, &mut acts).unwrap();
    say(&mut g, 3, "CLOSE", 1100, &mut acts).unwrap();
    assert!(g.is_over());
    assert_eq!(g.stage, Stage::OutWait);
    assert_eq!(g.action_id, 0);
    assert_eq!(g.left.len(), 60);
}

#[test]
fn close_before_the_deal_ends_the_game() {
    let mut r = rng();
    let mut g = Game::new(&mut r, 0, None);
    let mut acts = Vec::new();
    assert_eq!(g.on_message(1, &chars("CLOSE"), 0, &walk(), &mut r, &mut acts), Ok(()));
    assert!(g.is_over());
    assert_eq!(g.stage, Stage::Join);
}

#[test]
fn timeout_discards_for_the_player_to_act() {
    let mut g = table([FILLER, FILLER, FILLER, "1M 2M 9S 1S 2S 4S 6S 7S 8S 9T 1T 2T 3T 5M"], 3, Stage::Out, "5M");
    let mut acts = Vec::new();
    let mut r = rng();
    g.on_timeout(6000, &walk(), &mut r, &mut acts).unwrap();
    assert_eq!(g.stage, Stage::OutWait);
    assert_eq!(g.last_tile, Some(t("1M")));
    assert!(g.alive[3]);
    assert_eq!(g.score[3], -(6000 - 1000 - 950) / 100);
}

#[test]
fn timeout_counts_the_silent_as_passing() {
    let mut g = table([FILLER, "5M 5M 1S 2S 3S 4S 6S 7S 8S 9S 1T 2T 3T", FILLER, FILLER], 0, Stage::OutWait, "5M");
    let mut acts = Vec::new();
    say(&mut g, 1, "peng", 1100, &mut acts).unwrap();
    assert_eq!(g.deadline(), 1000 + 500);
    let mut r = rng();
    g.on_timeout(1500, &walk(), &mut r, &mut acts).unwrap();
    assert_eq!(g.alive, vec![true, true, true, true]);
    assert_eq!(g.action_id, 1);
    assert_eq!(g.stage, Stage::Out);
    assert_eq!(g.tiles[1].pungs, tiles("5M"));
    assert_eq!(g.score, vec![0, 0, 0, 0]);
}

#[test]
fn timeout_with_no_answer_passes_for_all() {
    let mut g = table([FILLER, FILLER, FILLER, FILLER], 0, Stage::OutWait, "5M");
    let mut acts = Vec::new();
    let mut r = rng();
    g.on_timeout(1500, &walk(), &mut r, &mut acts).unwrap();
    assert_eq!(g.alive, vec![true, true, true, true]);
    assert_eq!(g.action_id, 1);
    assert_eq!(g.stage, Stage::Out);
    assert_eq!(g.tiles[1].hands.len(), 14);
}

#[test]
fn late_claim_counts_as_a_pass() {
    let mut g = table([FILLER, "5M 5M 1S 2S 3S 4S 6S 7S 8S 9S 1T 2T 3T", FILLER, FILLER], 0, Stage::OutWait, "5M");
    let mut acts = Vec::new();
    say(&mut g, 2, "pass", 1100, &mut acts).unwrap();
    say(&mut g, 3, "pass", 1100, &mut acts).unwrap();
    say(&mut g, 1, "peng", 1000 + 600, &mut acts).unwrap();
    assert!(g.tiles[1].pungs.is_empty());
    assert_eq!(g.action_id, 1);
    assert_eq!(g.stage, Stage::Out);
    assert_eq!(g.tiles[1].hands.len(), 14);
    assert_eq!(g.score, vec![0, -1, 0, 0]);
}

#[test]
fn chow_without_the_discard_is_refused() {
    let mut g = table([FILLER, "1M 2M 3M 1S 2S 4S 6S 7S 8S 9T 1T 2T 3T", FILLER, FILLER], 0, Stage::OutWait, "5M");
    let mut acts = Vec::new();
    say(&mut g, 2, "pass", 1100, &mut acts).unwrap();
    say(&mut g, 3, "pass", 1100, &mut acts).unwrap();
    let mut r = rng();
    g.process(1, &chars("chi 1M"), 1100, &walk(), &mut r, &mut acts).unwrap();
    assert!(!g.alive[1]);
    assert!(g.tiles[1].chows.is_empty());
    assert_eq!(g.tiles[1].hands.len(), 13);
}

#[test]
fn chow_naming_tiles_that_make_no_run_with_the_discard_is_ignored() {
    let mut g = table([FILLER, "1M 2M 3M 1S 2S 4S 6S 7S 8S 9T 1T 2T 3T", FILLER, FILLER], 0, Stage::OutWait, "5M");
    let mut acts = Vec::new();
    say(&mut g, 2, "pass", 1100, &mut acts).unwrap();
    say(&mut g, 3, "pass", 1100, &mut acts).unwrap();
    say(&mut g, 1, "chi 1M 2M", 1100, &mut acts).unwrap();
    assert!(g.alive[1]);
    assert!(g.tiles[1].chows.is_empty());
    assert_eq!(g.action_id, 1);
    assert_eq!(g.tiles[1].hands.len(), 14);
}

#[test]
fn chow_with_the_discard_in_the_middle() {
    let mut g = table([FILLER, "4M 6M 9S 1S 2S 4S 6S 7S 8S 9T 1T 2T 3T", FILLER, FILLER], 0, Stage::OutWait, "5M");
    let mut acts = Vec::new();
    say(&mut g, 1, "chi 6M 4M", 1100, &mut acts).unwrap();
    say(&mut g, 2, "pass", 1100, &mut acts).unwrap();
    say(&mut g, 3, "pass", 1100, &mut acts).unwrap();
    assert_eq!(g.tiles[1].chows, tiles("4M"));
    assert_eq!(g.tiles[1].hands, tiles("9S 1S 2S 4S 6S 7S 8S 9T 1T 2T 3T"));
}

#[test]
fn lines_that_are_not_commands_are_ignored() {
    let mut g = table([FILLER, FILLER, FILLER, "1M 2M 9S 1S 2S 4S 6S 7S 8S 9T 1T 2T 3T 5M"], 3, Stage::Out, "5M");
    let mut acts = Vec::new();
    let mut r = rng();
    for line in ["out 1M", "{\"type\": \"out\",\"tile\":\"1M\"}", "{\"type\":\"out\",\"tile\":\"1M\"} ", "{\"type\":\"out\",\"tile\":\"1M\""] {
        g.on_message(3, &chars(line), 1100, &walk(), &mut r, &mut acts).unwrap();
    }
    assert!(acts.is_empty());
    assert_eq!(g.stage, Stage::Out);
    assert_eq!(g.tiles[3].hands.len(), 14);
    g.on_message(3, &chars("{\"type\":\"out\",\"tile\":\"1M\"}"), 1100, &walk(), &mut r, &mut acts).unwrap();
    assert_eq!(g.stage, Stage::OutWait);
    assert_eq!(g.last_tile, Some(t("1M")));
}

#[test]
fn the_leader_acts_first() {
    let mut r = rng();
    let mut g = Game::new(&mut r, 0, Some(2));
    let mut acts = Vec::new();
    for i in 0..4 {
        g.join(i, &mut r, 10, &mut acts).unwrap();
    }
    assert_eq!(g.action_id, 2);
    assert_eq!(g.tiles[2].hands.len(), 14);
    assert!(acts.iter().any(|x| matches!(x, Action::Log { record: Record::First { id: 2 } })));
}

#[test]
fn empty_wall_ends_in_a_draw() {
    let mut g = table([FILLER, FILLER, FILLER, FILLER], 0, Stage::OutWait, "5M");
    g.left = Vec::new();
    let mut acts = Vec::new();
    for i in 1..4 {
        say(&mut g, i, "pass", 1100, &mut acts).unwrap();
    }
    assert!(g.is_over());
    assert!(matches!(acts.last(), Some(Action::Log { record: Record::Draw })));
    assert_eq!(g.score, vec![0, 0, 0, 0]);
}

#[test]
fn answers_of_the_player_to_act_are_ignored() {
    let mut g = table([FILLER, FILLER, FILLER, FILLER], 0, Stage::OutWait, "5M");
    let mut acts = Vec::new();
    say(&mut g, 0, "hu", 1100, &mut acts).unwrap();
    assert!(g.messages[0].is_none());
    assert!(acts.is_empty());
}

#[test]
fn lines_are_trimmed_and_empty_means_closed() {
    assert_eq!(incoming(&chars("  hu \r\n")), Some(chars("hu")));
    assert_eq!(incoming(&chars("out 5M\n")), Some(chars("out 5M")));
    assert_eq!(incoming(&chars("\r\n")), None);
    assert_eq!(incoming(&chars("")), None);
}

#[test]
fn walks_list_each_seat_once() {
    assert!(is_walk_exec(&vec![2, 0, 3, 1]));
    assert!(!is_walk_exec(&vec![0, 0, 1, 2]));
    assert!(!is_walk_exec(&vec![0, 1, 2]));
    assert!(!is_walk_exec(&vec![0, 1, 2, 4]));
}

#[test]
fn seeds_have_eight_words() {
    assert_eq!(gen_seed().len(), 8);
}

#[test]
fn time_and_score_bounds() {
    let g = table([FILLER, FILLER, FILLER, FILLER], 0, Stage::Out, "5M");
    assert!(g.accepts_time(1000));
    assert!(g.accepts_time(7000));
    assert!(!g.accepts_time(999));
    assert_eq!(g.deadline(), 6000);
    assert!(g.scores_in_range());
    let names: String = tile_to_chars(g.last_tile.unwrap()).into_iter().collect();
    assert_eq!(names, "5M");
}

#[test]
fn deal_keeps_every_tile() {
    let mut r = rng();
    let mut g = Game::new(&mut r, 0, None);
    let mut wall = g.left.clone();
    let mut acts = Vec::new();
    for i in 0..4 {
        g.join(i, &mut r, 0, &mut acts).unwrap();
    }
    let mut now: Vec<u8> = g.left.clone();
    for p in &g.tiles {
        now.extend(p.hands.iter().cloned());
    }
    now.sort();
    wall.sort();
    assert_eq!(now, wall);
}

#[test]
fn new_wall_is_shuffled() {
    let mut r = rng();
    let g = Game::new(&mut r, 0, None);
    assert_ne!(g.left, mahjong::table::fresh_wall());
}

#[test]
fn claims_are_ordered_by_priority() {
    let mut g = table([FILLER, FILLER, FILLER, FILLER], 0, Stage::OutWait, "5M");
    g.messages = vec![None, Some(chars("peng")), Some(chars("hu")), Some(chars("chi 1M"))];
    assert_eq!(g.answer_order(&vec![0, 1, 2, 3]), vec![2, 1, 3]);
    g.messages = vec![None, Some(chars("gang")), Some(chars("pass")), Some(chars("gang"))];
    assert_eq!(g.answer_order(&vec![0, 1, 2, 3]), vec![1, 3]);
    assert_eq!(g.answer_order(&vec![3, 1, 0, 2]), vec![3, 1]);
    g.messages = vec![None, Some(chars("hu")), Some(chars("hu")), Some(chars("hu"))];
    assert_eq!(g.answer_order(&vec![3, 2, 1, 0]), vec![1, 2, 3]);
}

#[test]
fn the_turn_passes_from_the_last_seat_to_the_first() {
    let mut g = table([FILLER, FILLER, FILLER, FILLER], 3, Stage::OutWait, "5M");
    let mut acts = Vec::new();
    for i in 0..3 {
        say(&mut g, i, "pass", 1100, &mut acts).unwrap();
    }
    assert_eq!(g.action_id, 0);
    assert_eq!(g.stage, Stage::Out);
    assert_eq!(g.tiles[0].hands.len(), 14);
}

#[test]
fn a_deal_past_a_seat_that_left_stops_there() {
    let mut r = rng();
    let mut g = Game::new(&mut r, 0, Some(0));
    g.alive[1] = false;
    let mut acts = Vec::new();
    for i in 0..3 {
        g.join(i, &mut r, 10, &mut acts).unwrap();
    }
    assert_eq!(g.join(3, &mut r, 10, &mut acts), Err(Fault::MissingHand));
    assert_eq!(acts.len(), 3 + 1 + 3 + 2);
    assert!(matches!(acts[3], Action::Log { record: Record::First { id: 0 } }));
    assert!(matches!(acts[7], Action::Log { record: Record::Hand { id: 0, .. } }));
    assert!(matches!(acts[8], Action::Deal { to: 0, .. }));
}
