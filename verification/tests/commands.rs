use mahjong::json::command_of;
use mahjong::tile::parse_tile;

fn chars(s: &str) -> Vec<char> {
    s.chars().collect()
}

fn read(line: &str, last: Option<&str>) -> String {
    let last = last.map(|n| parse_tile(&chars(n)).unwrap());
    command_of(&chars(line), last).into_iter().collect()
}

#[test]
fn bare_commands_read_as_their_type() {
    assert_eq!(read("{\"type\":\"peng\"}", None), "peng");
    assert_eq!(read("{\"type\":\"join\"}", None), "join");
    assert_eq!(read("{\"type\":\"hu\"}", Some("5M")), "hu");
}

#[test]
fn a_tile_follows_the_type() {
    assert_eq!(read("{\"type\":\"out\",\"tile\":\"9M\"}", None), "out 9M");
    assert_eq!(read("{\"type\":\"agang\",\"tile\":\"W\"}", None), "agang W");
}

#[test]
fn a_chow_names_its_lowest_tile() {
    let line = "{\"type\":\"chi\",\"tiles\":[\"7M\",\"8M\"]}";
    assert_eq!(read(line, Some("9M")), "chi 7M");
    assert_eq!(read(line, Some("6M")), "chi 6M");
    assert_eq!(read("{\"type\":\"chi\",\"tiles\":[\"8M\",\"6M\"]}", Some("7M")), "chi 6M");
}

#[test]
fn tiles_that_make_no_run_name_no_chow() {
    let line = "{\"type\":\"chi\",\"tiles\":[\"7M\",\"8M\"]}";
    assert_eq!(read(line, Some("5M")), "chi -");
    assert_eq!(read(line, Some("8M")), "chi -");
    assert_eq!(read(line, None), "chi -");
    assert_eq!(read("{\"type\":\"chi\",\"tiles\":[\"8M\",\"9S\"]}", Some("7M")), "chi -");
    assert_eq!(read("{\"type\":\"chi\",\"tiles\":[\"E\",\"S\"]}", Some("W")), "chi -");
}

#[test]
fn other_lines_read_as_nothing() {
    assert_eq!(read("peng", None), "");
    assert_eq!(read("{\"type\":\"peng\"", None), "");
    assert_eq!(read("{\"type\":\"pe ng\"}", None), "");
    assert_eq!(read("{\"type\":\"out\",\"tile\":\"9 M\"}", None), "");
    assert_eq!(read("{\"type\":\"out\",\"card\":\"9M\"}", None), "");
    assert_eq!(read("", None), "");
}
