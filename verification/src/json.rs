//! Commands as the players write them: one line of JSON without white space,
//! `{"type":"out","tile":"9M"}`, read into the words the game acts on.

use vstd::prelude::*;
use crate::tile::{Tile, tile_of_name, parse_tile, tile_name, tile_to_chars, is_suited, suit_of, is_tile};
use crate::protocol::{is_ws, is_ws_char};

verus! {

/// `{"type":"`
pub open spec fn type_open() -> Seq<char> {
    seq!['{', '"', 't', 'y', 'p', 'e', '"', ':', '"']
}

/// `"}`
pub open spec fn bare_close() -> Seq<char> {
    seq!['"', '}']
}

/// `","tile":"`
pub open spec fn tile_key() -> Seq<char> {
    seq!['"', ',', '"', 't', 'i', 'l', 'e', '"', ':', '"']
}

/// `","tiles":["`
pub open spec fn tiles_key() -> Seq<char> {
    seq!['"', ',', '"', 't', 'i', 'l', 'e', 's', '"', ':', '[', '"']
}

/// `","`
pub open spec fn tiles_sep() -> Seq<char> {
    seq!['"', ',', '"']
}

/// `"]}`
pub open spec fn tiles_close() -> Seq<char> {
    seq!['"', ']', '}']
}

/// `s` begins with `p`.
pub open spec fn starts_with(s: Seq<char>, p: Seq<char>) -> bool {
    p.len() <= s.len() && s.take(p.len() as int) == p
}

/// The position of the first double quote in `s` at `i` or after, or the
/// length of `s` where there is none.
pub open spec fn quote_from(s: Seq<char>, i: int) -> int
    decreases s.len() - i,
{
    if i < 0 || i >= s.len() {
        s.len() as int
    } else if s[i] == '"' {
        i
    } else {
        quote_from(s, i + 1)
    }
}

/// `s` holds no white space.
pub open spec fn plain(s: Seq<char>) -> bool {
    forall|i: int| 0 <= i < s.len() ==> !is_ws(#[trigger] s[i])
}

/// The lowest of three tiles.
pub open spec fn lowest(x: Tile, y: Tile, z: Tile) -> Tile {
    if x <= y && x <= z {
        x
    } else if y <= z {
        y
    } else {
        z
    }
}

/// The highest of three tiles.
pub open spec fn highest(x: Tile, y: Tile, z: Tile) -> Tile {
    if x >= y && x >= z {
        x
    } else if y >= z {
        y
    } else {
        z
    }
}

/// Tiles `x`, `y` and the discard `l` make a run: three tiles of one suit
/// with consecutive ranks.
pub open spec fn forms_run(x: Tile, y: Tile, l: Tile) -> bool {
    &&& is_tile(x) && is_tile(y) && is_tile(l)
    &&& is_suited(x) && is_suited(y) && is_suited(l)
    &&& suit_of(x) == suit_of(l) && suit_of(y) == suit_of(l)
    &&& x != y && x != l && y != l
    &&& highest(x, y, l) - lowest(x, y, l) == 2
}

/// The chow that the tiles named `a` and `b` make with the discard `last`,
/// as the name of its lowest tile; where they make none, `-`, which names no
/// chow.
pub open spec fn chow_text(a: Seq<char>, b: Seq<char>, last: Option<Tile>) -> Seq<char> {
    match (tile_of_name(a), tile_of_name(b), last) {
        (Some(x), Some(y), Some(l)) => if forms_run(x, y, l) {
            tile_name(lowest(x, y, l))
        } else {
            seq!['-']
        },
        _ => seq!['-'],
    }
}

/// The argument of a command whose text after its type is `rest`, where it
/// is `","tile":"t"}` with `t` holding no white space: `t`.
pub open spec fn tile_arg(rest: Seq<char>) -> Option<Seq<char>> {
    let k = tile_key().len() as int;
    let q = quote_from(rest, k);
    let t = rest.subrange(k, q);
    if starts_with(rest, tile_key()) && rest.skip(q) == bare_close() && plain(t) {
        Some(t)
    } else {
        None
    }
}

/// The argument of a command whose text after its type is `rest`, where it
/// is `","tiles":["a","b"]}` with `a` and `b` holding no white space: the
/// chow they make with the discard `last` (`chow_text`).
pub open spec fn tiles_arg(rest: Seq<char>, last: Option<Tile>) -> Option<Seq<char>> {
    let k = tiles_key().len() as int;
    let q = quote_from(rest, k);
    let a = rest.subrange(k, q);
    let more = rest.skip(q);
    let k2 = tiles_sep().len() as int;
    let q2 = quote_from(more, k2);
    let b = more.subrange(k2, q2);
    if starts_with(rest, tiles_key()) && starts_with(more, tiles_sep()) && more.skip(q2) == tiles_close()
        && plain(a) && plain(b) {
        Some(chow_text(a, b, last))
    } else {
        None
    }
}

/// The words a command `{"type":"w"}`, `{"type":"w","tile":"t"}` or
/// `{"type":"w","tiles":["a","b"]}` reads as, where `w`, `t`, `a` and `b`
/// hold no white space: `w`; `w t`; and `w` with the chow that `a` and `b`
/// make with the discard `last` (`tiles_arg`).  Any other line reads as the
/// empty text, which names no command.
pub open spec fn command_text(s: Seq<char>, last: Option<Tile>) -> Seq<char> {
    let k = type_open().len() as int;
    let q = quote_from(s, k);
    let w = s.subrange(k, q);
    let rest = s.skip(q);
    if !starts_with(s, type_open()) || !plain(w) {
        Seq::empty()
    } else if rest == bare_close() {
        w
    } else if tile_arg(rest) is Some {
        w + seq![' '] + tile_arg(rest)->0
    } else if tiles_arg(rest, last) is Some {
        w + seq![' '] + tiles_arg(rest, last)->0
    } else {
        Seq::empty()
    }
}

proof fn lemma_quote_from(s: Seq<char>, i: int)
    requires
        0 <= i <= s.len(),
    ensures
        i <= quote_from(s, i) <= s.len(),
        quote_from(s, i) < s.len() ==> s[quote_from(s, i)] == '"',
    decreases s.len() - i,
{
    if i < s.len() && s[i] != '"' {
        lemma_quote_from(s, i + 1);
    }
}

/// The position of the first double quote in `s` at `i` or after.
fn find_quote(s: &Vec<char>, i: usize) -> (r: usize)
    requires
        i <= s.len(),
    ensures
        r == quote_from(s@, i as int),
        i <= r <= s.len(),
{
    let mut j = i;
    while j < s.len() && s[j] != '"'
        invariant
            i <= j <= s.len(),
            quote_from(s@, i as int) == quote_from(s@, j as int),
        decreases s.len() - j,
    {
        j = j + 1;
    }
    j
}

/// Whether `s` holds `p` from position `i` on.
fn holds_at(s: &Vec<char>, i: usize, p: &Vec<char>) -> (r: bool)
    requires
        i <= s.len(),
    ensures
        r == starts_with(s@.skip(i as int), p@),
{
    if p.len() > s.len() - i {
        return false;
    }
    let mut j: usize = 0;
    while j < p.len()
        invariant
            j <= p.len(),
            i + p.len() <= s.len(),
            forall|k: int| 0 <= k < j ==> s@[i + k] == p@[k],
        decreases p.len() - j,
    {
        if s[i + j] != p[j] {
            assert(s@.skip(i as int).take(p.len() as int)[j as int] != p@[j as int]);
            return false;
        }
        j = j + 1;
    }
    assert(s@.skip(i as int).take(p.len() as int) =~= p@);
    true
}

/// Whether `s` from position `i` on is exactly `p`.
fn is_at(s: &Vec<char>, i: usize, p: &Vec<char>) -> (r: bool)
    requires
        i <= s.len(),
    ensures
        r == (s@.skip(i as int) == p@),
{
    let r = s.len() - i == p.len() && holds_at(s, i, p);
    proof {
        if s.len() - i == p.len() {
            assert(s@.skip(i as int).take(p.len() as int) =~= s@.skip(i as int));
        } else {
            assert(s@.skip(i as int).len() != p@.len());
        }
    }
    r
}

/// Whether `s` holds no white space from `a` to `b`.
fn plain_between(s: &Vec<char>, a: usize, b: usize) -> (r: bool)
    requires
        a <= b <= s.len(),
    ensures
        r == plain(s@.subrange(a as int, b as int)),
{
    let mut j = a;
    while j < b
        invariant
            a <= j <= b <= s.len(),
            forall|k: int| a <= k < j ==> !is_ws(#[trigger] s@[k]),
        decreases b - j,
    {
        if is_ws_char(s[j]) {
            assert(s@.subrange(a as int, b as int)[j - a] == s@[j as int]);
            return false;
        }
        j = j + 1;
    }
    assert forall|k: int| 0 <= k < b - a implies !is_ws(#[trigger] s@.subrange(a as int, b as int)[k]) by {
        assert(s@.subrange(a as int, b as int)[k] == s@[a + k]);
    }
    true
}

fn type_open_chars() -> (r: Vec<char>)
    ensures
        r@ == type_open(),
{
    let r = vec!['{', '"', 't', 'y', 'p', 'e', '"', ':', '"'];
    assert(r@ =~= type_open());
    r
}

fn bare_close_chars() -> (r: Vec<char>)
    ensures
        r@ == bare_close(),
{
    let r = vec!['"', '}'];
    assert(r@ =~= bare_close());
    r
}

fn tile_key_chars() -> (r: Vec<char>)
    ensures
        r@ == tile_key(),
{
    let r = vec!['"', ',', '"', 't', 'i', 'l', 'e', '"', ':', '"'];
    assert(r@ =~= tile_key());
    r
}

fn tiles_key_chars() -> (r: Vec<char>)
    ensures
        r@ == tiles_key(),
{
    let r = vec!['"', ',', '"', 't', 'i', 'l', 'e', 's', '"', ':', '[', '"'];
    assert(r@ =~= tiles_key());
    r
}

fn tiles_sep_chars() -> (r: Vec<char>)
    ensures
        r@ == tiles_sep(),
{
    let r = vec!['"', ',', '"'];
    assert(r@ =~= tiles_sep());
    r
}

fn tiles_close_chars() -> (r: Vec<char>)
    ensures
        r@ == tiles_close(),
{
    let r = vec!['"', ']', '}'];
    assert(r@ =~= tiles_close());
    r
}

/// The chow that the tiles named `a` and `b` make with the discard `last`;
/// see `chow_text`.
fn chow_chars(a: &Vec<char>, b: &Vec<char>, last: Option<Tile>) -> (r: Vec<char>)
    ensures
        r@ == chow_text(a@, b@, last),
{
    match (parse_tile(a), parse_tile(b), last) {
        (Some(x), Some(y), Some(l)) => {
            let lo = if x <= y && x <= l {
                x
            } else if y <= l {
                y
            } else {
                l
            };
            let hi = if x >= y && x >= l {
                x
            } else if y >= l {
                y
            } else {
                l
            };
            if x < 34 && y < 34 && l < 34 && x < 27 && y < 27 && l < 27 && x / 9 == l / 9 && y / 9 == l / 9
                && x != y && x != l && y != l && hi - lo == 2 {
                tile_to_chars(lo)
            } else {
                vec!['-']
            }
        },
        _ => vec!['-'],
    }
}

/// The argument of a command that ends in `rest`; see `tile_arg`.
fn tile_arg_of(rest: &Vec<char>) -> (r: Option<Vec<char>>)
    ensures
        r is None <==> tile_arg(rest@) is None,
        r matches Some(t) ==> tile_arg(rest@) == Some(t@),
{
    let key = tile_key_chars();
    if !holds_at(rest, 0, &key) {
        assert(rest@.skip(0) =~= rest@);
        return None;
    }
    assert(rest@.skip(0) =~= rest@);
    let k = key.len();
    let q = find_quote(rest, k);
    if is_at(rest, q, &bare_close_chars()) && plain_between(rest, k, q) {
        Some(crate::protocol::slice_chars(rest, k, q))
    } else {
        None
    }
}

/// The argument of a command that ends in `rest`; see `tiles_arg`.
fn tiles_arg_of(rest: &Vec<char>, last: Option<Tile>) -> (r: Option<Vec<char>>)
    ensures
        r is None <==> tiles_arg(rest@, last) is None,
        r matches Some(t) ==> tiles_arg(rest@, last) == Some(t@),
{
    let key = tiles_key_chars();
    if !holds_at(rest, 0, &key) {
        assert(rest@.skip(0) =~= rest@);
        return None;
    }
    assert(rest@.skip(0) =~= rest@);
    let k = key.len();
    let q = find_quote(rest, k);
    let more = crate::protocol::slice_chars(rest, q, rest.len());
    assert(more@ =~= rest@.skip(q as int));
    let sep = tiles_sep_chars();
    if !holds_at(&more, 0, &sep) {
        assert(more@.skip(0) =~= more@);
        return None;
    }
    assert(more@.skip(0) =~= more@);
    let k2 = sep.len();
    let q2 = find_quote(&more, k2);
    if is_at(&more, q2, &tiles_close_chars()) && plain_between(rest, k, q) && plain_between(&more, k2, q2) {
        let a = crate::protocol::slice_chars(rest, k, q);
        let b = crate::protocol::slice_chars(&more, k2, q2);
        Some(chow_chars(&a, &b, last))
    } else {
        None
    }
}

/// `w`, a space and `t`.
fn joined_words(w: &Vec<char>, t: &Vec<char>) -> (r: Vec<char>)
    ensures
        r@ == w@ + seq![' '] + t@,
{
    let mut r = crate::protocol::slice_chars(w, 0, w.len());
    assert(r@ =~= w@);
    r.push(' ');
    let mut i: usize = 0;
    let ghost r0 = r@;
    while i < t.len()
        invariant
            i <= t.len(),
            r@ == r0 + t@.take(i as int),
        decreases t.len() - i,
    {
        r.push(t[i]);
        i = i + 1;
        assert(r@ =~= r0 + t@.take(i as int));
    }
    assert(t@.take(t.len() as int) =~= t@);
    assert(r@ =~= w@ + seq![' '] + t@);
    r
}

/// The words the command line `s` reads as; see `command_text`.
pub fn command_of(s: &Vec<char>, last: Option<Tile>) -> (r: Vec<char>)
    ensures
        r@ == command_text(s@, last),
{
    let open = type_open_chars();
    let k = open.len();
    let empty: Vec<char> = Vec::new();
    assert(s@.skip(0) =~= s@);
    if !holds_at(s, 0, &open) {
        return empty;
    }
    let q = find_quote(s, k);
    if !plain_between(s, k, q) {
        return empty;
    }
    let w: Vec<char> = crate::protocol::slice_chars(s, k, q);
    let rest = crate::protocol::slice_chars(s, q, s.len());
    assert(rest@ =~= s@.skip(q as int));
    if is_at(&rest, 0, &bare_close_chars()) {
        assert(rest@.skip(0) =~= rest@);
        return w;
    }
    assert(rest@.skip(0) =~= rest@);
    match tile_arg_of(&rest) {
        Some(t) => joined_words(&w, &t),
        None => match tiles_arg_of(&rest, last) {
            Some(c) => joined_words(&w, &c),
            None => empty,
        },
    }
}
} // verus!
