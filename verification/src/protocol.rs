//! The words the game acts on: commands, fields, tile names and chow
//! arguments, as a player's JSON line reads (see `json`).
//!
//! A command is one line of text.  Its fields are the pieces between single
//! spaces; commands and arguments are read from fields with surrounding
//! white space trimmed.

use vstd::prelude::*;
use crate::tile::{Tile, tile_of_name, parse_tile};

verus! {

/// White space as Unicode defines it (the `White_Space` property).
pub open spec fn is_ws(c: char) -> bool {
    let u = c as u32;
    (0x9 <= u <= 0xd) || u == 0x20 || u == 0x85 || u == 0xa0 || u == 0x1680 || (0x2000 <= u
        <= 0x200a) || u == 0x2028 || u == 0x2029 || u == 0x202f || u == 0x205f || u == 0x3000
}

pub fn is_ws_char(c: char) -> (r: bool)
    ensures
        r == is_ws(c),
{
    let u = c as u32;
    (0x9 <= u && u <= 0xd) || u == 0x20 || u == 0x85 || u == 0xa0 || u == 0x1680 || (0x2000 <= u
        && u <= 0x200a) || u == 0x2028 || u == 0x2029 || u == 0x202f || u == 0x205f || u == 0x3000
}

/// `s` without leading white space.
pub open spec fn trim_start(s: Seq<char>) -> Seq<char>
    decreases s.len(),
{
    if s.len() > 0 && is_ws(s[0]) {
        trim_start(s.drop_first())
    } else {
        s
    }
}

/// `s` without trailing white space.
pub open spec fn trim_end(s: Seq<char>) -> Seq<char>
    decreases s.len(),
{
    if s.len() > 0 && is_ws(s.last()) {
        trim_end(s.drop_last())
    } else {
        s
    }
}

/// `s` without leading or trailing white space.
pub open spec fn trim(s: Seq<char>) -> Seq<char> {
    trim_end(trim_start(s))
}

/// The position of the first space in `s`, or its length where it has none.
pub open spec fn space_at(s: Seq<char>) -> int
    decreases s.len(),
{
    if s.len() == 0 {
        0
    } else if s[0] == ' ' {
        0
    } else {
        1 + space_at(s.drop_first())
    }
}

/// The first field: everything before the first space.
pub open spec fn first_field(s: Seq<char>) -> Seq<char> {
    s.take(space_at(s))
}

/// The second field, where there is a space: everything between the first
/// space and the next one.
pub open spec fn second_field(s: Seq<char>) -> Option<Seq<char>> {
    if space_at(s) < s.len() {
        Some(first_field(s.skip(space_at(s) + 1)))
    } else {
        None
    }
}

proof fn lemma_space_at(s: Seq<char>)
    ensures
        0 <= space_at(s) <= s.len(),
        space_at(s) < s.len() ==> s[space_at(s)] == ' ',
        forall|j: int| 0 <= j < space_at(s) ==> s[j] != ' ',
    decreases s.len(),
{
    if s.len() > 0 && s[0] != ' ' {
        lemma_space_at(s.drop_first());
        assert forall|j: int| 0 <= j < space_at(s) implies s[j] != ' ' by {
            if j > 0 {
                assert(s[j] == s.drop_first()[j - 1]);
            }
        }
    }
}

pub fn find_space(s: &Vec<char>, from: usize) -> (r: usize)
    requires
        from <= s.len(),
    ensures
        r == from + space_at(s@.skip(from as int)),
{
    let mut i = from;
    while i < s.len() && s[i] != ' '
        invariant
            from <= i <= s.len(),
            space_at(s@.skip(from as int)) == (i - from) + space_at(s@.skip(i as int)),
        decreases s.len() - i,
    {
        assert(s@.skip(i as int).drop_first() =~= s@.skip(i + 1));
        i = i + 1;
    }
    proof {
        lemma_space_at(s@.skip(i as int));
    }
    i
}

/// The characters of `s` from `a` to `b`.
pub fn slice_chars(s: &Vec<char>, a: usize, b: usize) -> (r: Vec<char>)
    requires
        a <= b <= s.len(),
    ensures
        r@ == s@.subrange(a as int, b as int),
{
    let mut r: Vec<char> = Vec::new();
    let mut i = a;
    while i < b
        invariant
            a <= i <= b <= s.len(),
            r@ == s@.subrange(a as int, i as int),
        decreases b - i,
    {
        r.push(s[i]);
        i = i + 1;
        assert(r@ =~= s@.subrange(a as int, i as int));
    }
    r
}

/// `s` with surrounding white space taken off.
pub fn trimmed(s: &Vec<char>) -> (r: Vec<char>)
    ensures
        r@ == trim(s@),
{
    let mut a: usize = 0;
    assert(s@.skip(0) =~= s@);
    while a < s.len() && is_ws_char(s[a])
        invariant
            a <= s.len(),
            trim_start(s@) == trim_start(s@.skip(a as int)),
        decreases s.len() - a,
    {
        assert(s@.skip(a as int).drop_first() =~= s@.skip(a + 1));
        a = a + 1;
    }
    assert(trim_start(s@.skip(a as int)) == s@.skip(a as int));
    let mut b: usize = s.len();
    while b > a && is_ws_char(s[b - 1])
        invariant
            a <= b <= s.len(),
            trim(s@) == trim_end(s@.subrange(a as int, b as int)),
            trim_start(s@) == s@.skip(a as int),
        decreases b - a,
    {
        assert(s@.subrange(a as int, b as int).drop_last() =~= s@.subrange(a as int, b - 1));
        b = b - 1;
    }
    assert(s@.skip(a as int) =~= s@.subrange(a as int, s.len() as int));
    slice_chars(s, a, b)
}

/// The first field of `s`.
pub fn first_field_of(s: &Vec<char>) -> (r: Vec<char>)
    ensures
        r@ == first_field(s@),
{
    let e = find_space(s, 0);
    assert(s@.skip(0) =~= s@);
    proof {
        lemma_space_at(s@);
    }
    assert(s@.take(e as int) =~= s@.subrange(0, e as int));
    slice_chars(s, 0, e)
}

/// The second field of `s`, if it has one.
pub fn second_field_of(s: &Vec<char>) -> (r: Option<Vec<char>>)
    ensures
        r is None <==> second_field(s@) is None,
        r matches Some(f) ==> second_field(s@) == Some(f@),
{
    let e = find_space(s, 0);
    assert(s@.skip(0) =~= s@);
    proof {
        lemma_space_at(s@);
    }
    if e < s.len() {
        let e2 = find_space(s, e + 1);
        proof {
            lemma_space_at(s@.skip(e + 1));
        }
        assert(s@.skip(e + 1).take(e2 - e - 1) =~= s@.subrange(e + 1, e2 as int));
        Some(slice_chars(s, e + 1, e2))
    } else {
        None
    }
}

/// The words the server understands.
#[derive(PartialEq, Eq, Structural, Clone, Copy, Debug)]
pub enum Word {
    Join,
    Out,
    AGang,
    JGang,
    Hu,
    Gang,
    Peng,
    Chi,
    QGang,
    Pass,
    Close,
    Other,
}

pub open spec fn word_text(w: Word) -> Seq<char> {
    match w {
        Word::Join => seq!['j', 'o', 'i', 'n'],
        Word::Out => seq!['o', 'u', 't'],
        Word::AGang => seq!['a', 'g', 'a', 'n', 'g'],
        Word::JGang => seq!['j', 'g', 'a', 'n', 'g'],
        Word::Hu => seq!['h', 'u'],
        Word::Gang => seq!['g', 'a', 'n', 'g'],
        Word::Peng => seq!['p', 'e', 'n', 'g'],
        Word::Chi => seq!['c', 'h', 'i'],
        Word::QGang => seq!['q', 'g', 'a', 'n', 'g'],
        Word::Pass => seq!['p', 'a', 's', 's'],
        Word::Close => seq!['C', 'L', 'O', 'S', 'E'],
        Word::Other => Seq::empty(),
    }
}

/// The word that `s` spells, if it spells one.
pub open spec fn word_of(s: Seq<char>) -> Word {
    if s == word_text(Word::Join) {
        Word::Join
    } else if s == word_text(Word::Out) {
        Word::Out
    } else if s == word_text(Word::AGang) {
        Word::AGang
    } else if s == word_text(Word::JGang) {
        Word::JGang
    } else if s == word_text(Word::Hu) {
        Word::Hu
    } else if s == word_text(Word::Gang) {
        Word::Gang
    } else if s == word_text(Word::Peng) {
        Word::Peng
    } else if s == word_text(Word::Chi) {
        Word::Chi
    } else if s == word_text(Word::QGang) {
        Word::QGang
    } else if s == word_text(Word::Pass) {
        Word::Pass
    } else if s == word_text(Word::Close) {
        Word::Close
    } else {
        Word::Other
    }
}

fn spells(s: &Vec<char>, w: &[char]) -> (r: bool)
    ensures
        r == (s@ == w@),
{
    if s.len() != w.len() {
        return false;
    }
    let mut i: usize = 0;
    while i < s.len()
        invariant
            i <= s.len(),
            s.len() == w@.len(),
            forall|j: int| 0 <= j < i ==> s@[j] == w@[j],
        decreases s.len() - i,
    {
        if s[i] != w[i] {
            return false;
        }
        i = i + 1;
    }
    assert(s@ =~= w@);
    true
}

/// The word that `s` spells.
pub fn classify(s: &Vec<char>) -> (r: Word)
    ensures
        r == word_of(s@),
{
    if spells(s, &['j', 'o', 'i', 'n']) {
        Word::Join
    } else if spells(s, &['o', 'u', 't']) {
        Word::Out
    } else if spells(s, &['a', 'g', 'a', 'n', 'g']) {
        Word::AGang
    } else if spells(s, &['j', 'g', 'a', 'n', 'g']) {
        Word::JGang
    } else if spells(s, &['h', 'u']) {
        Word::Hu
    } else if spells(s, &['g', 'a', 'n', 'g']) {
        Word::Gang
    } else if spells(s, &['p', 'e', 'n', 'g']) {
        Word::Peng
    } else if spells(s, &['c', 'h', 'i']) {
        Word::Chi
    } else if spells(s, &['q', 'g', 'a', 'n', 'g']) {
        Word::QGang
    } else if spells(s, &['p', 'a', 's', 's']) {
        Word::Pass
    } else if spells(s, &['C', 'L', 'O', 'S', 'E']) {
        Word::Close
    } else {
        Word::Other
    }
}

} // verus!

verus! {

/// The number of bytes UTF-8 takes for a character.
pub open spec fn utf8_width(c: char) -> nat {
    let u = c as u32;
    if u < 0x80 {
        1
    } else if u < 0x800 {
        2
    } else if u < 0x10000 {
        3
    } else {
        4
    }
}

/// The number of bytes UTF-8 takes for a text.
pub open spec fn utf8_len(s: Seq<char>) -> nat
    decreases s.len(),
{
    if s.len() == 0 {
        0
    } else {
        utf8_width(s[0]) + utf8_len(s.drop_first())
    }
}

/// How a chow claim's argument reads.
#[derive(PartialEq, Eq, Structural, Clone, Copy, Debug)]
pub enum ChowArg {
    /// Not two bytes, or a digit too high to start a run of three: no chow.
    NoChow,
    /// Two bytes that do not start with a digit: the server cannot go on.
    Malformed,
    /// A digit `low` below 8 and a suit letter: the run `low`, `low + 1`,
    /// `low + 2` in that suit.
    Run { low: u8, suit: char },
}

pub open spec fn chow_arg(s: Seq<char>) -> ChowArg {
    if utf8_len(s) != 2 {
        ChowArg::NoChow
    } else if s.len() != 2 {
        ChowArg::Malformed
    } else if !('0' <= s[0] <= '9') {
        ChowArg::Malformed
    } else if s[0] as int - 48 >= 8 {
        ChowArg::NoChow
    } else {
        ChowArg::Run { low: (s[0] as int - 48) as u8, suit: s[1] }
    }
}

/// The tile that the name of rank `d` in suit letter `c` stands for, if any.
pub open spec fn run_member(d: u8, c: char) -> Option<Tile> {
    tile_of_name(seq![crate::tile::digit_char(d), c])
}

proof fn lemma_utf8_len_at_least(s: Seq<char>)
    ensures
        utf8_len(s) >= s.len(),
    decreases s.len(),
{
    if s.len() > 0 {
        lemma_utf8_len_at_least(s.drop_first());
    }
}

/// Reads a chow claim's argument.
pub fn parse_chow_arg(s: &Vec<char>) -> (r: ChowArg)
    ensures
        r == chow_arg(s@),
{
    proof {
        lemma_utf8_len_at_least(s@);
    }
    if s.len() == 1 {
        let u = s[0] as u32;
        assert(s@.drop_first().len() == 0);
        assert(utf8_len(s@.drop_first()) == 0);
        assert(utf8_len(s@) == utf8_width(s@[0]));
        if 0x80 <= u && u < 0x800 {
            ChowArg::Malformed
        } else {
            ChowArg::NoChow
        }
    } else if s.len() == 2 {
        let u0 = s[0] as u32;
        let u1 = s[1] as u32;
        assert(s@.drop_first().drop_first().len() == 0);
        assert(s@.drop_first()[0] == s@[1]);
        assert(utf8_len(s@.drop_first().drop_first()) == 0);
        assert(utf8_len(s@.drop_first()) == utf8_width(s@[1]));
        assert(utf8_len(s@) == utf8_width(s@[0]) + utf8_width(s@[1]));
        if u0 < 0x80 && u1 < 0x80 {
            let c0 = s[0];
            if !('0' <= c0 && c0 <= '9') {
                ChowArg::Malformed
            } else {
                let d = (u0 - 48) as u8;
                if d >= 8 {
                    ChowArg::NoChow
                } else {
                    ChowArg::Run { low: d, suit: s[1] }
                }
            }
        } else {
            ChowArg::NoChow
        }
    } else {
        ChowArg::NoChow
    }
}

/// The tile a run's member names, if it names one.
pub fn run_member_exec(d: u8, c: char) -> (r: Option<Tile>)
    requires
        d <= 9,
    ensures
        r == run_member(d, c),
{
    let dc: char = if d == 0 {
        '0'
    } else if d == 1 {
        '1'
    } else if d == 2 {
        '2'
    } else if d == 3 {
        '3'
    } else if d == 4 {
        '4'
    } else if d == 5 {
        '5'
    } else if d == 6 {
        '6'
    } else if d == 7 {
        '7'
    } else if d == 8 {
        '8'
    } else {
        '9'
    };
    let mut v: Vec<char> = Vec::new();
    v.push(dc);
    v.push(c);
    assert(v@ =~= seq![crate::tile::digit_char(d), c]);
    parse_tile(&v)
}

} // verus!
