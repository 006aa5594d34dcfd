//! Tiles and their names.
//!
//! A tile is a code below 34.  Suited tiles come first, ordered by suit
//! (characters `M`, bamboo `S`, dots `T`) and then by rank; the seven honours
//! follow in the alphabetical order of their names (`B`, `E`, `F`, `N`, `S`,
//! `W`, `Z`).  This is also the order in which hands are sorted.

use vstd::prelude::*;

verus! {

/// A tile code; valid codes are those below `TILE_KINDS`.
pub type Tile = u8;

/// Number of distinct tiles.
pub const TILE_KINDS: u8 = 34;

/// Number of copies of each tile in the wall.
pub const COPIES: usize = 4;

pub open spec fn is_tile(t: Tile) -> bool {
    t < 34
}

pub open spec fn is_suited(t: Tile) -> bool {
    t < 27
}

/// 0 for characters (`M`), 1 for bamboo (`S`), 2 for dots (`T`).
pub open spec fn suit_of(t: Tile) -> u8 {
    t / 9
}

/// Rank of a suited tile, from 1 to 9.
pub open spec fn rank_of(t: Tile) -> u8 {
    (t % 9 + 1) as u8
}

pub open spec fn suit_char(s: u8) -> char {
    if s == 0 {
        'M'
    } else if s == 1 {
        'S'
    } else {
        'T'
    }
}

pub open spec fn honor_char(t: Tile) -> char {
    if t == 27 {
        'B'
    } else if t == 28 {
        'E'
    } else if t == 29 {
        'F'
    } else if t == 30 {
        'N'
    } else if t == 31 {
        'S'
    } else if t == 32 {
        'W'
    } else {
        'Z'
    }
}

pub open spec fn digit_char(d: u8) -> char {
    (48 + d) as char
}

/// The name of a tile in the protocol: `"5T"`, `"E"`, ...
pub open spec fn tile_name(t: Tile) -> Seq<char> {
    if is_suited(t) {
        seq![digit_char(rank_of(t)), suit_char(suit_of(t))]
    } else {
        seq![honor_char(t)]
    }
}

pub open spec fn honor_of_char(c: char) -> Option<Tile> {
    if c == 'B' {
        Some(27u8)
    } else if c == 'E' {
        Some(28u8)
    } else if c == 'F' {
        Some(29u8)
    } else if c == 'N' {
        Some(30u8)
    } else if c == 'S' {
        Some(31u8)
    } else if c == 'W' {
        Some(32u8)
    } else if c == 'Z' {
        Some(33u8)
    } else {
        None
    }
}

pub open spec fn suit_of_char(c: char) -> Option<u8> {
    if c == 'M' {
        Some(0u8)
    } else if c == 'S' {
        Some(1u8)
    } else if c == 'T' {
        Some(2u8)
    } else {
        None
    }
}

/// The tile that a name stands for, if any.
pub open spec fn tile_of_name(s: Seq<char>) -> Option<Tile> {
    if s.len() == 1 {
        honor_of_char(s[0])
    } else if s.len() == 2 && '1' <= s[0] <= '9' {
        match suit_of_char(s[1]) {
            Some(su) => Some((su * 9 + (s[0] as int - 49)) as u8),
            None => None,
        }
    } else {
        None
    }
}

/// The tile following `t` in its suit, if there is one.
pub open spec fn next_in_suit(t: Tile) -> Option<Tile> {
    if is_suited(t) && rank_of(t) < 9 {
        Some((t + 1) as u8)
    } else {
        None
    }
}

/// Terminals and honours.
pub open spec fn is_yao(t: Tile) -> bool {
    (is_suited(t) && (rank_of(t) == 1 || rank_of(t) == 9)) || (27 <= t < 34)
}

/// The terminals alone.
pub open spec fn is_terminal(t: Tile) -> bool {
    is_suited(t) && (rank_of(t) == 1 || rank_of(t) == 9)
}

/// Dragons: red (`Z`), green (`F`), white (`B`).
pub open spec fn is_dragon(t: Tile) -> bool {
    t == 27 || t == 29 || t == 33
}

/// Winds: east, south, west, north.
pub open spec fn is_wind(t: Tile) -> bool {
    t == 28 || t == 30 || t == 31 || t == 32
}

/// The all-green tiles: 2, 3, 4, 6, 8 of bamboo and the green dragon.
pub open spec fn is_green(t: Tile) -> bool {
    t == 10 || t == 11 || t == 12 || t == 14 || t == 16 || t == 29
}

/// The name of a tile is read back as that tile.
pub proof fn lemma_name_round_trip(t: Tile)
    requires
        is_tile(t),
    ensures
        tile_of_name(tile_name(t)) == Some(t),
{
}

/// A name that is read as a tile is that tile's name.
pub proof fn lemma_name_unique(s: Seq<char>)
    requires
        tile_of_name(s) is Some,
    ensures
        is_tile(tile_of_name(s)->0),
        tile_name(tile_of_name(s)->0) =~= s,
{
}

pub fn is_suited_tile(t: Tile) -> (r: bool)
    ensures
        r == is_suited(t),
{
    t < 27
}

/// The next tile of the same suit, if any.
pub fn post(t: Tile) -> (r: Option<Tile>)
    requires
        is_tile(t),
    ensures
        r == next_in_suit(t),
{
    if t < 27 && t % 9 < 8 {
        Some(t + 1)
    } else {
        None
    }
}

pub fn is_yao_tile(t: Tile) -> (r: bool)
    requires
        is_tile(t),
    ensures
        r == is_yao(t),
{
    (t < 27 && (t % 9 == 0 || t % 9 == 8)) || t >= 27
}

pub fn is_terminal_tile(t: Tile) -> (r: bool)
    ensures
        r == is_terminal(t),
{
    t < 27 && (t % 9 == 0 || t % 9 == 8)
}

pub fn is_dragon_tile(t: Tile) -> (r: bool)
    ensures
        r == is_dragon(t),
{
    t == 27 || t == 29 || t == 33
}

pub fn is_wind_tile(t: Tile) -> (r: bool)
    ensures
        r == is_wind(t),
{
    t == 28 || t == 30 || t == 31 || t == 32
}

pub fn is_green_tile(t: Tile) -> (r: bool)
    ensures
        r == is_green(t),
{
    t == 10 || t == 11 || t == 12 || t == 14 || t == 16 || t == 29
}

/// Reads a tile name.
pub fn parse_tile(s: &Vec<char>) -> (r: Option<Tile>)
    ensures
        r == tile_of_name(s@),
{
    if s.len() == 1 {
        let c = s[0];
        if c == 'B' {
            Some(27)
        } else if c == 'E' {
            Some(28)
        } else if c == 'F' {
            Some(29)
        } else if c == 'N' {
            Some(30)
        } else if c == 'S' {
            Some(31)
        } else if c == 'W' {
            Some(32)
        } else if c == 'Z' {
            Some(33)
        } else {
            None
        }
    } else if s.len() == 2 && '1' <= s[0] && s[0] <= '9' {
        let d = (s[0] as u32 - 49) as u8;
        let c = s[1];
        if c == 'M' {
            Some(d)
        } else if c == 'S' {
            Some(9 + d)
        } else if c == 'T' {
            Some(18 + d)
        } else {
            None
        }
    } else {
        None
    }
}

/// Writes a tile's name.
pub fn tile_to_chars(t: Tile) -> (r: Vec<char>)
    requires
        is_tile(t),
    ensures
        r@ == tile_name(t),
{
    let mut v: Vec<char> = Vec::new();
    if t < 27 {
        let d = t % 9 + 1;
        let dc: char = if d == 1 {
            '1'
        } else if d == 2 {
            '2'
        } else if d == 3 {
            '3'
        } else if d == 4 {
            '4'
        } else if d == 5 {
            '5'
        } else if d == 6 {
            '6'
        } else if d == 7 {
            '7'
        } else if d == 8 {
            '8'
        } else {
            '9'
        };
        let sc: char = if t < 9 {
            'M'
        } else if t < 18 {
            'S'
        } else {
            'T'
        };
        v.push(dc);
        v.push(sc);
    } else {
        let hc: char = if t == 27 {
            'B'
        } else if t == 28 {
            'E'
        } else if t == 29 {
            'F'
        } else if t == 30 {
            'N'
        } else if t == 31 {
            'S'
        } else if t == 32 {
            'W'
        } else {
            'Z'
        };
        v.push(hc);
    }
    assert(v@ =~= tile_name(t));
    v
}

} // verus!
