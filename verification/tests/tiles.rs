use mahjong::tile::{parse_tile, tile_to_chars, post, is_yao_tile, is_green_tile};
use mahjong::table::fresh_wall;
use mahjong::protocol::{classify, parse_chow_arg, ChowArg, Word};

fn chars(s: &str) -> Vec<char> {
    s.chars().collect()
}

fn t(name: &str) -> u8 {
    parse_tile(&chars(name)).unwrap()
}

#[test]
fn tile_names_read_as_codes() {
    assert_eq!(parse_tile(&chars("1M")), Some(0));
    assert_eq!(parse_tile(&chars("9M")), Some(8));
    assert_eq!(parse_tile(&chars("1S")), Some(9));
    assert_eq!(parse_tile(&chars("9T")), Some(26));
    assert_eq!(parse_tile(&chars("B")), Some(27));
    assert_eq!(parse_tile(&chars("E")), Some(28));
    assert_eq!(parse_tile(&chars("F")), Some(29));
    assert_eq!(parse_tile(&chars("N")), Some(30));
    assert_eq!(parse_tile(&chars("S")), Some(31));
    assert_eq!(parse_tile(&chars("W")), Some(32));
    assert_eq!(parse_tile(&chars("Z")), Some(33));
}

#[test]
fn bad_tile_names_are_refused() {
    assert_eq!(parse_tile(&chars("0M")), None);
    assert_eq!(parse_tile(&chars("1X")), None);
    assert_eq!(parse_tile(&chars("")), None);
    assert_eq!(parse_tile(&chars("10M")), None);
    assert_eq!(parse_tile(&chars("e")), None);
    assert_eq!(parse_tile(&chars("M1")), None);
}

#[test]
fn every_tile_name_reads_back() {
    for code in 0u8..34 {
        let name = tile_to_chars(code);
        assert_eq!(parse_tile(&name), Some(code));
    }
    let names: Vec<String> = (0u8..34).map(|c| tile_to_chars(c).into_iter().collect()).collect();
    assert_eq!(names[4], "5M");
    assert_eq!(names[13], "5S");
    assert_eq!(names[33], "Z");
}

#[test]
fn next_tile_in_suit() {
    assert_eq!(post(t("1M")), Some(t("2M")));
    assert_eq!(post(t("8T")), Some(t("9T")));
    assert_eq!(post(t("9M")), None);
    assert_eq!(post(t("9S")), None);
    assert_eq!(post(t("E")), None);
}

#[test]
fn terminal_and_honour_tiles() {
    assert!(is_yao_tile(t("1M")));
    assert!(is_yao_tile(t("9T")));
    assert!(is_yao_tile(t("Z")));
    assert!(!is_yao_tile(t("5S")));
    assert!(is_green_tile(t("F")));
    assert!(is_green_tile(t("6S")));
    assert!(!is_green_tile(t("5S")));
}

#[test]
fn wall_holds_four_of_each_tile() {
    let w = fresh_wall();
    assert_eq!(w.len(), 136);
    for code in 0u8..34 {
        assert_eq!(w.iter().filter(|&&x| x == code).count(), 4);
    }
    assert_eq!(w[0], t("1M"));
    assert_eq!(w[27], t("E"));
    assert_eq!(w[28], t("S"));
    assert_eq!(w[33], t("B"));
    assert_eq!(w[34], t("1M"));
}

#[test]
fn words_are_read() {
    assert_eq!(classify(&chars("join")), Word::Join);
    assert_eq!(classify(&chars("qgang")), Word::QGang);
    assert_eq!(classify(&chars("pass")), Word::Pass);
    assert_eq!(classify(&chars("Pass")), Word::Other);
    assert_eq!(classify(&chars("")), Word::Other);
}

#[test]
fn chow_arguments_are_read() {
    assert_eq!(parse_chow_arg(&chars("3M")), ChowArg::Run { low: 3, suit: 'M' });
    assert_eq!(parse_chow_arg(&chars("7T")), ChowArg::Run { low: 7, suit: 'T' });
    assert_eq!(parse_chow_arg(&chars("8M")), ChowArg::NoChow);
    assert_eq!(parse_chow_arg(&chars("3")), ChowArg::NoChow);
    assert_eq!(parse_chow_arg(&chars("3MM")), ChowArg::NoChow);
    assert_eq!(parse_chow_arg(&chars("XM")), ChowArg::Malformed);
    assert_eq!(parse_chow_arg(&chars("é")), ChowArg::Malformed);
}
