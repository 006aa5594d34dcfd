//! Fan scoring: the patterns a completed hand shows and what each is worth.

use vstd::prelude::*;
use crate::tile::{
    Tile, is_tile, is_suited, suit_of, rank_of, is_yao, is_terminal, is_dragon, is_wind, is_green,
    is_yao_tile, is_terminal_tile, is_dragon_tile, is_wind_tile, is_green_tile, is_suited_tile,
};
use crate::hand::{
    Tiles, TilesView, count, has_every_yao, all_counts_even, all_tiles_valid,
    all_chow_starts, is_chow_start, count_in, tile_counts, counts_all_even, every_yao_present, combine_spec,
    is_completion_of, chow_tiles, pung_tiles, lemma_combine_sound,
};

verus! {

/// The fans of the rules.
#[derive(PartialEq, Eq, Structural, Clone, Copy, Debug)]
pub enum Fan {
    /// Thirteen orphans (88).
    ThirteenOrphans,
    /// Big four winds (88).
    BigFourWinds,
    /// Big three dragons (88).
    BigThreeDragons,
    /// All green (88).
    AllGreen,
    /// Four kongs (88).
    FourKongs,
    /// Little four winds (64).
    LittleFourWinds,
    /// Little three dragons (64).
    LittleThreeDragons,
    /// All honours (64).
    AllHonors,
    /// Four concealed pungs (64).
    FourConcealedPungs,
    /// All terminals (64).
    AllTerminals,
    /// Quadruple chow (48).
    QuadrupleChow,
    /// Three kongs (32).
    ThreeKongs,
    /// All terminals and honours (32).
    AllTerminalsAndHonors,
    /// Full flush (24).
    FullFlush,
    /// Seven pairs (24).
    SevenPairs,
    /// Pure triple chow (24).
    PureTripleChow,
    /// Triple pung (16).
    TriplePung,
    /// Three concealed pungs (16).
    ThreeConcealedPungs,
    /// Mixed triple chow (8).
    MixedTripleChow,
    /// All pungs (6).
    AllPungs,
    /// Half flush (6).
    HalfFlush,
    /// All types (6).
    AllTypes,
    /// Concealed hand (2).
    ConcealedHand,
    /// All simples (2).
    AllSimples,
    /// All chows (2).
    AllChows,
    /// Dragon pung (2 each).
    DragonPung,
    /// Concealed kong (2 each).
    ConcealedKong,
    /// Self-drawn (1).
    SelfDrawn,
    /// Pure double chow (1 each).
    PureDoubleChow,
    /// Mixed double chow (1 each).
    MixedDoubleChow,
    /// Melded kong (1 each).
    MeldedKong,
    /// Single wait (1).
    SingleWait,
}

/// One fan of a hand: which, how many times it counts, and its worth.
#[derive(PartialEq, Eq, Structural, Clone, Copy, Debug)]
pub struct FanEntry {
    pub fan: Fan,
    pub times: i64,
    pub value: i64,
}

// ---------------------------------------------------------------------
// The tiles a hand shows.

/// The three tiles of each chow in `s`, chow after chow.
pub open spec fn expand_chows(s: Seq<Tile>) -> Seq<Tile>
    decreases s.len(),
{
    if s.len() == 0 {
        Seq::empty()
    } else {
        expand_chows(s.drop_last()) + seq![s.last(), (s.last() + 1) as u8, (s.last() + 2) as u8]
    }
}

/// Every tile kind a hand shows: the concealed tiles, each chow's three
/// tiles, and one tile for each pung and kong.
pub open spec fn all_tiles(t: TilesView) -> Seq<Tile> {
    t.hands + expand_chows(t.chows) + t.pungs + t.kongs + t.ckongs + expand_chows(t.cchows)
        + t.cpungs
}

/// Every chow, claimed or read out of the hand.
pub open spec fn all_chows(t: TilesView) -> Seq<Tile> {
    t.chows + t.cchows
}

/// Every pung and kong, claimed, concealed or read out of the hand.
pub open spec fn all_pungs(t: TilesView) -> Seq<Tile> {
    t.pungs + t.kongs + t.ckongs + t.cpungs
}

/// Classes of tiles that the rules count.
#[derive(PartialEq, Eq, Structural, Clone, Copy, Debug)]
pub enum TileClass {
    Yao,
    Terminal,
    Dragon,
    Wind,
    Green,
    Suited,
    Characters,
    Bamboo,
    Dots,
}

pub open spec fn in_class(k: TileClass, t: Tile) -> bool {
    match k {
        TileClass::Yao => is_yao(t),
        TileClass::Terminal => is_terminal(t),
        TileClass::Dragon => is_dragon(t),
        TileClass::Wind => is_wind(t),
        TileClass::Green => is_green(t),
        TileClass::Suited => is_suited(t),
        TileClass::Characters => is_suited(t) && suit_of(t) == 0,
        TileClass::Bamboo => is_suited(t) && suit_of(t) == 1,
        TileClass::Dots => is_suited(t) && suit_of(t) == 2,
    }
}

/// The number of tiles of `s` in class `k`.
pub open spec fn count_class(s: Seq<Tile>, k: TileClass) -> nat
    decreases s.len(),
{
    if s.len() == 0 {
        0
    } else {
        count_class(s.drop_last(), k) + if in_class(k, s.last()) {
            1nat
        } else {
            0nat
        }
    }
}

#[verifier::opaque]
pub open spec fn all_in(s: Seq<Tile>, k: TileClass) -> bool {
    forall|i: int| 0 <= i < s.len() ==> in_class(k, #[trigger] s[i])
}

#[verifier::opaque]
pub open spec fn none_in(s: Seq<Tile>, k: TileClass) -> bool {
    forall|i: int| 0 <= i < s.len() ==> !in_class(k, #[trigger] s[i])
}

/// The number of suited tiles of `s` of rank `r`.
pub open spec fn count_rank(s: Seq<Tile>, r: u8) -> nat
    decreases s.len(),
{
    if s.len() == 0 {
        0
    } else {
        count_rank(s.drop_last(), r) + if is_suited(s.last()) && rank_of(s.last()) == r {
            1nat
        } else {
            0nat
        }
    }
}

/// The number of tile kinds below `c` that occur exactly `n` times in `s`.
pub open spec fn kinds_with_count_below(s: Seq<Tile>, n: nat, c: nat) -> nat
    decreases c,
{
    if c == 0 {
        0
    } else {
        kinds_with_count_below(s, n, (c - 1) as nat) + if count(s, (c - 1) as u8) == n {
            1nat
        } else {
            0nat
        }
    }
}

/// Chow `c` occurs in `s` beside a chow of the same rank in another suit.
#[verifier::opaque]
pub open spec fn has_mixed_partner(s: Seq<Tile>, c: Tile) -> bool {
    &&& count(s, c) > 0
    &&& exists|d: Tile|
        #![trigger count(s, d)]
        is_tile(d) && is_suited(d) && count(s, d) > 0 && rank_of(d) == rank_of(c) && suit_of(d)
            != suit_of(c)
}

/// The number of chow kinds below `c` in `s` that have a partner of the same
/// rank in another suit.
pub open spec fn partnered_kinds_below(s: Seq<Tile>, c: nat) -> nat
    decreases c,
{
    if c == 0 {
        0
    } else {
        partnered_kinds_below(s, (c - 1) as nat) + if has_mixed_partner(s, (c - 1) as u8) {
            1nat
        } else {
            0nat
        }
    }
}

// ---------------------------------------------------------------------
// The patterns.

pub open spec fn kongs_total(t: TilesView) -> int {
    (t.kongs.len() + t.ckongs.len()) as int
}

pub open spec fn concealed_pungs_total(t: TilesView) -> int {
    (t.cpungs.len() + t.ckongs.len()) as int
}

pub open spec fn chows_total(t: TilesView) -> int {
    (t.chows.len() + t.cchows.len()) as int
}

pub open spec fn thirteen_orphans(t: TilesView) -> bool {
    t.hands.len() == 14 && all_in(all_tiles(t), TileClass::Yao) && has_every_yao(t.hands)
}

pub open spec fn big_four_winds(t: TilesView) -> bool {
    count_class(all_pungs(t), TileClass::Wind) == 4
}

pub open spec fn big_three_dragons(t: TilesView) -> bool {
    count_class(all_pungs(t), TileClass::Dragon) == 3
}

pub open spec fn all_green(t: TilesView) -> bool {
    all_in(all_tiles(t), TileClass::Green)
}

pub open spec fn four_kongs(t: TilesView) -> bool {
    kongs_total(t) == 4
}

pub open spec fn little_four_winds(t: TilesView) -> bool {
    count_class(all_pungs(t), TileClass::Wind) == 3 && count_class(t.hands, TileClass::Wind) == 2
}

pub open spec fn little_three_dragons(t: TilesView) -> bool {
    count_class(all_pungs(t), TileClass::Dragon) == 2 && count_class(t.hands, TileClass::Dragon)
        == 2
}

pub open spec fn all_honors(t: TilesView) -> bool {
    none_in(all_tiles(t), TileClass::Suited)
}

pub open spec fn four_concealed_pungs(t: TilesView) -> bool {
    concealed_pungs_total(t) == 4
}

pub open spec fn all_terminals(t: TilesView) -> bool {
    all_in(all_tiles(t), TileClass::Terminal) && chows_total(t) == 0
}

/// Some element of `s` occurs exactly `n` times.
#[verifier::opaque]
pub open spec fn some_count_is(s: Seq<Tile>, n: nat) -> bool {
    exists|i: int| 0 <= i < s.len() && count(s, #[trigger] s[i]) == n
}

/// Some chow occurs `n` times.
pub open spec fn chow_repeated(t: TilesView, n: nat) -> bool {
    some_count_is(all_chows(t), n)
}

pub open spec fn quadruple_chow(t: TilesView) -> bool {
    chow_repeated(t, 4)
}

pub open spec fn three_kongs(t: TilesView) -> bool {
    kongs_total(t) == 3
}

pub open spec fn all_terminals_and_honors(t: TilesView) -> bool {
    !thirteen_orphans(t) && !all_terminals(t) && !all_honors(t) && all_in(all_tiles(t), TileClass::Yao)
        && chows_total(t) == 0
}

/// Every tile of `a` is suited, all in the suit of the first.
#[verifier::opaque]
pub open spec fn single_suit(a: Seq<Tile>) -> bool {
    a.len() > 0 && is_suited(a[0]) && forall|i: int|
        0 <= i < a.len() ==> is_suited(#[trigger] a[i]) && suit_of(a[i]) == suit_of(a[0])
}

pub open spec fn full_flush(t: TilesView) -> bool {
    single_suit(all_tiles(t))
}

pub open spec fn seven_pairs(t: TilesView) -> bool {
    t.hands.len() == 14 && all_counts_even(t.hands)
}

pub open spec fn pure_triple_chow(t: TilesView) -> bool {
    !quadruple_chow(t) && chow_repeated(t, 3)
}

/// Some suited element's rank is shared by exactly three suited elements.
#[verifier::opaque]
pub open spec fn rank_thrice(p: Seq<Tile>) -> bool {
    exists|i: int|
        0 <= i < p.len() && is_suited(#[trigger] p[i]) && count_rank(p, rank_of(p[i])) == 3
}

pub open spec fn triple_pung(t: TilesView) -> bool {
    rank_thrice(all_pungs(t))
}

pub open spec fn three_concealed_pungs(t: TilesView) -> bool {
    concealed_pungs_total(t) == 3
}

/// Some chow's rank starts a chow in each of the three suits.
#[verifier::opaque]
pub open spec fn rank_in_three_suits(c: Seq<Tile>) -> bool {
    exists|i: int|
        0 <= i < c.len() && c.contains((rank_of(#[trigger] c[i]) - 1) as u8) && c.contains(
            (rank_of(c[i]) + 8) as u8,
        ) && c.contains((rank_of(c[i]) + 17) as u8)
}

pub open spec fn mixed_triple_chow(t: TilesView) -> bool {
    rank_in_three_suits(all_chows(t))
}

pub open spec fn all_pungs_fan(t: TilesView) -> bool {
    !big_four_winds(t) && !four_kongs(t) && !all_honors(t) && !four_concealed_pungs(t)
        && !all_terminals(t) && !all_terminals_and_honors(t) && chows_total(t) == 0
        && all_pungs(t).len() > 0
}

/// All suited tiles of `a` share one suit.
#[verifier::opaque]
pub open spec fn one_suit_among_suited(a: Seq<Tile>) -> bool {
    forall|i: int, j: int|
        0 <= i < a.len() && 0 <= j < a.len() && is_suited(#[trigger] a[i]) && is_suited(
            #[trigger] a[j],
        ) ==> suit_of(a[i]) == suit_of(a[j])
}

pub open spec fn half_flush(t: TilesView) -> bool {
    !all_honors(t) && !full_flush(t) && one_suit_among_suited(all_tiles(t))
}

pub open spec fn all_types(t: TilesView) -> bool {
    let a = all_tiles(t);
    !thirteen_orphans(t) && count_class(a, TileClass::Characters) != 0 && count_class(
        a,
        TileClass::Bamboo,
    ) != 0 && count_class(a, TileClass::Dots) != 0 && count_class(a, TileClass::Wind) != 0
        && count_class(a, TileClass::Dragon) != 0
}

pub open spec fn concealed_hand(t: TilesView) -> bool {
    !thirteen_orphans(t) && !seven_pairs(t) && !four_concealed_pungs(t) && t.chows.len() + t.pungs.len()
        + t.kongs.len() == 0
}

pub open spec fn all_simples(t: TilesView) -> bool {
    none_in(all_tiles(t), TileClass::Yao)
}

pub open spec fn all_chows_fan(t: TilesView) -> bool {
    all_pungs(t).len() == 0 && chows_total(t) > 0
}

/// How many dragon pungs count on their own.
pub open spec fn dragon_pungs(t: TilesView) -> int {
    if big_three_dragons(t) || little_three_dragons(t) {
        0
    } else {
        count_class(all_pungs(t), TileClass::Dragon) as int
    }
}

pub open spec fn pure_double_chows(t: TilesView) -> int {
    if quadruple_chow(t) || pure_triple_chow(t) {
        0
    } else {
        kinds_with_count_below(all_chows(t), 2, 34) as int
    }
}

pub open spec fn mixed_double_chows(t: TilesView) -> int {
    if mixed_triple_chow(t) {
        0
    } else {
        partnered_kinds_below(all_chows(t), 34) as int / 2
    }
}

pub open spec fn melded_kongs(t: TilesView) -> int {
    if 0 < t.kongs.len() < 3 {
        t.kongs.len() as int
    } else {
        0
    }
}

pub open spec fn entry(fan: Fan, times: int, value: int) -> FanEntry {
    FanEntry { fan, times: times as i64, value: value as i64 }
}

/// The fans scored by the first `n` candidates of `p`, in order.
pub open spec fn selected(p: Patterns, tsumo: bool, n: nat) -> Seq<FanEntry>
    decreases n,
{
    if n == 0 {
        Seq::empty()
    } else if p.candidate(tsumo, n - 1).0 {
        selected(p, tsumo, (n - 1) as nat).push(p.candidate(tsumo, n - 1).1)
    } else {
        selected(p, tsumo, (n - 1) as nat)
    }
}

/// The number of fans the rules list.
pub const FAN_KINDS: usize = 31;

/// The fans of a completed hand, in the order the rules list them; `tsumo`
/// tells whether the winning tile was self-drawn.
pub open spec fn fans_of(t: TilesView, tsumo: bool) -> Seq<FanEntry> {
    selected(patterns_of(t), tsumo, 31)
}

/// The sum of the values of a list of fans.
pub open spec fn fan_total(s: Seq<FanEntry>) -> int
    decreases s.len(),
{
    if s.len() == 0 {
        0
    } else {
        fan_total(s.drop_last()) + s.last().value
    }
}

} // verus!

verus! {

pub fn in_class_exec(k: TileClass, t: Tile) -> (r: bool)
    requires
        is_tile(t),
    ensures
        r == in_class(k, t),
{
    match k {
        TileClass::Yao => is_yao_tile(t),
        TileClass::Terminal => is_terminal_tile(t),
        TileClass::Dragon => is_dragon_tile(t),
        TileClass::Wind => is_wind_tile(t),
        TileClass::Green => is_green_tile(t),
        TileClass::Suited => is_suited_tile(t),
        TileClass::Characters => t < 9,
        TileClass::Bamboo => 9 <= t && t < 18,
        TileClass::Dots => 18 <= t && t < 27,
    }
}

/// The number of tiles of `v` in class `k`.
pub fn count_class_in(v: &Vec<Tile>, k: TileClass) -> (r: usize)
    requires
        all_tiles_valid(v@),
    ensures
        r == count_class(v@, k),
{
    let mut r: usize = 0;
    let mut i: usize = 0;
    while i < v.len()
        invariant
            i <= v.len(),
            r <= i,
            all_tiles_valid(v@),
            r == count_class(v@.take(i as int), k),
        decreases v.len() - i,
    {
        assert(v@.take(i + 1).drop_last() =~= v@.take(i as int));
        if in_class_exec(k, v[i]) {
            r = r + 1;
        }
        i = i + 1;
    }
    assert(v@.take(v.len() as int) =~= v@);
    r
}

/// A class count equals the length exactly when every tile is in the class,
/// and is zero exactly when none is.
pub proof fn lemma_count_class_extremes(s: Seq<Tile>, k: TileClass)
    ensures
        (count_class(s, k) == s.len()) == all_in(s, k),
        (count_class(s, k) == 0) == none_in(s, k),
        count_class(s, k) <= s.len(),
    decreases s.len(),
{
    reveal(all_in);
    reveal(none_in);
    if s.len() > 0 {
        let d = s.drop_last();
        lemma_count_class_extremes(d, k);
        assert forall|i: int| 0 <= i < d.len() implies #[trigger] d[i] == s[i] by {}
        if all_in(s, k) {
            assert(all_in(d, k));
        }
        if none_in(s, k) {
            assert(none_in(d, k));
        }
        if all_in(d, k) && in_class(k, s.last()) {
            assert forall|i: int| 0 <= i < s.len() implies in_class(k, #[trigger] s[i]) by {
                if i < d.len() {
                    assert(s[i] == d[i]);
                }
            }
        }
        if none_in(d, k) && !in_class(k, s.last()) {
            assert forall|i: int| 0 <= i < s.len() implies !in_class(k, #[trigger] s[i]) by {
                if i < d.len() {
                    assert(s[i] == d[i]);
                }
            }
        }
    }
}

/// The number of suited tiles of `v` of rank `r`.
pub fn count_rank_in(v: &Vec<Tile>, rk: u8) -> (r: usize)
    ensures
        r == count_rank(v@, rk),
{
    let mut r: usize = 0;
    let mut i: usize = 0;
    while i < v.len()
        invariant
            i <= v.len(),
            r <= i,
            r == count_rank(v@.take(i as int), rk),
        decreases v.len() - i,
    {
        assert(v@.take(i + 1).drop_last() =~= v@.take(i as int));
        if v[i] < 27 && v[i] % 9 + 1 == rk {
            r = r + 1;
        }
        i = i + 1;
    }
    assert(v@.take(v.len() as int) =~= v@);
    r
}

/// `v` followed by `w`.
pub fn concat(v: &Vec<Tile>, w: &Vec<Tile>) -> (r: Vec<Tile>)
    ensures
        r@ == v@ + w@,
{
    let mut r = crate::hand::copy_tiles(v);
    let mut i: usize = 0;
    while i < w.len()
        invariant
            i <= w.len(),
            r@ == v@ + w@.take(i as int),
        decreases w.len() - i,
    {
        r.push(w[i]);
        i = i + 1;
        assert(r@ =~= v@ + w@.take(i as int));
    }
    assert(w@.take(w.len() as int) =~= w@);
    r
}

/// Appends each chow's three tiles.
pub fn push_chow_tiles(v: &mut Vec<Tile>, chows: &Vec<Tile>)
    requires
        all_chow_starts(chows@),
    ensures
        final(v)@ == old(v)@ + expand_chows(chows@),
{
    let ghost start = v@;
    let mut i: usize = 0;
    while i < chows.len()
        invariant
            i <= chows.len(),
            all_chow_starts(chows@),
            v@ == start + expand_chows(chows@.take(i as int)),
        decreases chows.len() - i,
    {
        let c = chows[i];
        assert(is_chow_start(chows@[i as int]));
        v.push(c);
        v.push(c + 1);
        v.push(c + 2);
        assert(chows@.take(i + 1).drop_last() =~= chows@.take(i as int));
        i = i + 1;
        assert(v@ =~= start + expand_chows(chows@.take(i as int)));
    }
    assert(chows@.take(chows.len() as int) =~= chows@);
}

} // verus!

verus! {

/// Whether some element of `v` occurs exactly `n` times.
pub fn some_count_is_exec(v: &Vec<Tile>, n: usize) -> (r: bool)
    ensures
        r == some_count_is(v@, n as nat),
{
    proof {
        reveal(some_count_is);
    }
    let mut i: usize = 0;
    while i < v.len()
        invariant
            i <= v.len(),
            forall|j: int| 0 <= j < i ==> count(v@, #[trigger] v@[j]) != n,
        decreases v.len() - i,
    {
        proof {
            reveal(some_count_is);
        }
        if count_in(v, v[i]) == n {
            return true;
        }
        i = i + 1;
    }
    false
}

pub fn rank_thrice_exec(p: &Vec<Tile>) -> (r: bool)
    ensures
        r == rank_thrice(p@),
{
    proof {
        reveal(rank_thrice);
    }
    let mut i: usize = 0;
    while i < p.len()
        invariant
            i <= p.len(),
            forall|j: int|
                0 <= j < i ==> !(is_suited(#[trigger] p@[j]) && count_rank(p@, rank_of(p@[j])) == 3),
        decreases p.len() - i,
    {
        proof {
            reveal(rank_thrice);
        }
        if p[i] < 27 && count_rank_in(p, p[i] % 9 + 1) == 3 {
            return true;
        }
        i = i + 1;
    }
    false
}

pub fn contains_tile(v: &Vec<Tile>, x: Tile) -> (r: bool)
    ensures
        r == v@.contains(x),
{
    crate::hand::position(v, x).is_some()
}

pub fn rank_in_three_suits_exec(c: &Vec<Tile>) -> (r: bool)
    requires
        all_chow_starts(c@),
    ensures
        r == rank_in_three_suits(c@),
{
    proof {
        reveal(rank_in_three_suits);
    }
    let mut i: usize = 0;
    while i < c.len()
        invariant
            i <= c.len(),
            all_chow_starts(c@),
            forall|j: int|
                0 <= j < i ==> !(c@.contains((rank_of(#[trigger] c@[j]) - 1) as u8) && c@.contains(
                    (rank_of(c@[j]) + 8) as u8,
                ) && c@.contains((rank_of(c@[j]) + 17) as u8)),
        decreases c.len() - i,
    {
        proof {
            reveal(rank_in_three_suits);
        }
        assert(is_chow_start(c@[i as int]));
        let r = c[i] % 9 + 1;
        if contains_tile(c, r - 1) && contains_tile(c, r + 8) && contains_tile(c, r + 17) {
            return true;
        }
        i = i + 1;
    }
    false
}

pub fn single_suit_exec(a: &Vec<Tile>) -> (r: bool)
    ensures
        r == single_suit(a@),
{
    proof {
        reveal(single_suit);
    }
    if a.len() == 0 || a[0] >= 27 {
        return false;
    }
    let s0 = a[0] / 9;
    let mut i: usize = 0;
    while i < a.len()
        invariant
            i <= a.len(),
            a.len() > 0,
            s0 == suit_of(a@[0]),
            forall|j: int| 0 <= j < i ==> is_suited(#[trigger] a@[j]) && suit_of(a@[j]) == s0,
        decreases a.len() - i,
    {
        proof {
            reveal(single_suit);
        }
        if a[i] >= 27 || a[i] / 9 != s0 {
            return false;
        }
        i = i + 1;
    }
    true
}

pub fn one_suit_among_suited_exec(a: &Vec<Tile>) -> (r: bool)
    ensures
        r == one_suit_among_suited(a@),
{
    proof {
        reveal(one_suit_among_suited);
    }
    let mut f: usize = 0;
    while f < a.len() && a[f] >= 27
        invariant
            f <= a.len(),
            forall|j: int| 0 <= j < f ==> !is_suited(#[trigger] a@[j]),
        decreases a.len() - f,
    {
        proof {
            reveal(one_suit_among_suited);
        }
        f = f + 1;
    }
    if f == a.len() {
        return true;
    }
    let s0 = a[f] / 9;
    let mut i: usize = f;
    while i < a.len()
        invariant
            f <= i <= a.len(),
            f < a.len(),
            is_suited(a@[f as int]),
            s0 == suit_of(a@[f as int]),
            forall|j: int| 0 <= j < f ==> !is_suited(#[trigger] a@[j]),
            forall|j: int| f <= j < i && is_suited(#[trigger] a@[j]) ==> suit_of(a@[j]) == s0,
        decreases a.len() - i,
    {
        proof {
            reveal(one_suit_among_suited);
        }
        if a[i] < 27 && a[i] / 9 != s0 {
            assert(is_suited(a@[f as int]) && is_suited(a@[i as int]));
            return false;
        }
        i = i + 1;
    }
    assert forall|x: int, y: int|
        0 <= x < a.len() && 0 <= y < a.len() && is_suited(#[trigger] a@[x]) && is_suited(
            #[trigger] a@[y],
        ) implies suit_of(a@[x]) == suit_of(a@[y]) by {}
    true
}

/// The number of tile kinds counted exactly `n` times in `counts`.
pub fn kinds_with_count(counts: &Vec<usize>, n: usize, Ghost(s): Ghost<Seq<Tile>>) -> (r: usize)
    requires
        counts.len() == 34,
        forall|c: int| 0 <= c < 34 ==> #[trigger] counts@[c] == count(s, c as u8),
    ensures
        r == kinds_with_count_below(s, n as nat, 34),
{
    let mut r: usize = 0;
    let mut c: usize = 0;
    while c < 34
        invariant
            c <= 34,
            r <= c,
            counts.len() == 34,
            forall|k: int| 0 <= k < 34 ==> #[trigger] counts@[k] == count(s, k as u8),
            r == kinds_with_count_below(s, n as nat, c as nat),
        decreases 34 - c,
    {
        if counts[c] == n {
            r = r + 1;
        }
        c = c + 1;
    }
    r
}

/// The number of chow kinds of `s` that have a partner of the same rank in
/// another suit.
pub fn partnered_kinds(counts: &Vec<usize>, Ghost(s): Ghost<Seq<Tile>>) -> (r: usize)
    requires
        counts.len() == 34,
        forall|c: int| 0 <= c < 34 ==> #[trigger] counts@[c] == count(s, c as u8),
        all_chow_starts(s),
    ensures
        r == partnered_kinds_below(s, 34),
{
    proof {
        reveal(has_mixed_partner);
    }
    let mut r: usize = 0;
    let mut c: u8 = 0;
    while c < 34
        invariant
            c <= 34,
            r <= c,
            counts.len() == 34,
            forall|k: int| 0 <= k < 34 ==> #[trigger] counts@[k] == count(s, k as u8),
            all_chow_starts(s),
            r == partnered_kinds_below(s, c as nat),
        decreases 34 - c,
    {
        proof {
            reveal(has_mixed_partner);
        }
        let mut has = false;
        if c < 27 && counts[c as usize] > 0 {
            let base = c % 9;
            let own = c / 9;
            let mut k: u8 = 0;
            while k < 3
                invariant
                    k <= 3,
                    c < 27,
                    base == c % 9,
                    own == c / 9,
                    counts.len() == 34,
                    forall|q: int| 0 <= q < 34 ==> #[trigger] counts@[q] == count(s, q as u8),
                    has == exists|q: u8|
                        q < k && q != own && #[trigger] count(s, (q * 9 + base) as u8) > 0,
                decreases 3 - k,
            {
                proof {
                    reveal(has_mixed_partner);
                }
                if k != own && counts[(k * 9 + base) as usize] > 0 {
                    has = true;
                }
                k = k + 1;
            }
            proof {
                if has {
                    let q = choose|q: u8| q < 3 && q != own && #[trigger] count(s, (q * 9 + base) as u8) > 0;
                    let d = (q * 9 + base) as u8;
                    assert(is_tile(d) && is_suited(d) && count(s, d) > 0 && rank_of(d) == rank_of(c) && suit_of(d) != suit_of(c));
                } else {
                    assert forall|d: Tile|
                        is_tile(d) && is_suited(d) && count(s, d) > 0 && rank_of(d) == rank_of(c)
                        implies suit_of(d) == suit_of(c) by {
                        let q = d / 9;
                        assert(d == (q * 9 + base) as u8);
                    }
                }
            }
        } else {
            proof {
                if c >= 27 {
                    crate::hand::lemma_count_contains(s, c);
                    if s.contains(c) {
                        let j = choose|j: int| 0 <= j < s.len() && s[j] == c;
                        assert(is_chow_start(s[j]));
                    }
                }
            }
        }
        assert(has == has_mixed_partner(s, c));
        if has {
            r = r + 1;
        }
        c = c + 1;
    }
    r
}

} // verus!

verus! {

/// The most tiles a group of `Tiles` may hold for scoring to stay in range.
pub const GROUP_LIMIT: usize = 0x1000_0000;

/// The tiles are well formed and no group exceeds `GROUP_LIMIT`.
pub open spec fn scorable(t: TilesView) -> bool {
    &&& t.wf()
    &&& t.hands.len() <= GROUP_LIMIT
    &&& t.chows.len() <= GROUP_LIMIT
    &&& t.pungs.len() <= GROUP_LIMIT
    &&& t.kongs.len() <= GROUP_LIMIT
    &&& t.ckongs.len() <= GROUP_LIMIT
    &&& t.cchows.len() <= GROUP_LIMIT
    &&& t.cpungs.len() <= GROUP_LIMIT
}

proof fn lemma_expand_chows(s: Seq<Tile>)
    requires
        all_chow_starts(s),
    ensures
        all_tiles_valid(expand_chows(s)),
        expand_chows(s).len() == 3 * s.len(),
    decreases s.len(),
{
    if s.len() > 0 {
        assert(all_chow_starts(s.drop_last()));
        lemma_expand_chows(s.drop_last());
        assert(is_chow_start(s[s.len() - 1]));
        let e = expand_chows(s);
        let d = expand_chows(s.drop_last());
        assert forall|i: int| 0 <= i < e.len() implies is_tile(#[trigger] e[i]) by {
            if i < d.len() {
                assert(e[i] == d[i]);
            }
        }
    }
}

proof fn lemma_valid_concat(a: Seq<Tile>, b: Seq<Tile>)
    requires
        all_tiles_valid(a),
        all_tiles_valid(b),
    ensures
        all_tiles_valid(a + b),
{
    assert forall|i: int| 0 <= i < (a + b).len() implies is_tile(#[trigger] (a + b)[i]) by {
        if i < a.len() {
            assert((a + b)[i] == a[i]);
        } else {
            assert((a + b)[i] == b[i - a.len()]);
        }
    }
}

/// Every tile kind the hand shows, as `all_tiles` lists them.
pub fn collect_all_tiles(t: &Tiles) -> (r: Vec<Tile>)
    requires
        t@.wf(),
    ensures
        r@ == all_tiles(t@),
        all_tiles_valid(r@),
{
    let mut a = crate::hand::copy_tiles(&t.hands);
    push_chow_tiles(&mut a, &t.chows);
    let mut a = concat(&a, &t.pungs);
    let mut a = concat(&a, &t.kongs);
    let mut a = concat(&a, &t.ckongs);
    push_chow_tiles(&mut a, &t.cchows);
    let a = concat(&a, &t.cpungs);
    proof {
        lemma_expand_chows(t@.chows);
        lemma_expand_chows(t@.cchows);
        lemma_valid_concat(t@.hands, expand_chows(t@.chows));
        lemma_valid_concat(t@.hands + expand_chows(t@.chows), t@.pungs);
        lemma_valid_concat(t@.hands + expand_chows(t@.chows) + t@.pungs, t@.kongs);
        lemma_valid_concat(t@.hands + expand_chows(t@.chows) + t@.pungs + t@.kongs, t@.ckongs);
        lemma_valid_concat(
            t@.hands + expand_chows(t@.chows) + t@.pungs + t@.kongs + t@.ckongs,
            expand_chows(t@.cchows),
        );
        lemma_valid_concat(
            t@.hands + expand_chows(t@.chows) + t@.pungs + t@.kongs + t@.ckongs + expand_chows(
                t@.cchows,
            ),
            t@.cpungs,
        );
    }
    a
}

} // verus!

verus! {

/// Which patterns a completed hand shows, and how many times the counted ones
/// count.
pub struct Patterns {
    pub thirteen_orphans: bool,
    pub big_four_winds: bool,
    pub big_three_dragons: bool,
    pub all_green: bool,
    pub four_kongs: bool,
    pub little_four_winds: bool,
    pub little_three_dragons: bool,
    pub all_honors: bool,
    pub four_concealed_pungs: bool,
    pub all_terminals: bool,
    pub quadruple_chow: bool,
    pub three_kongs: bool,
    pub all_terminals_and_honors: bool,
    pub full_flush: bool,
    pub seven_pairs: bool,
    pub pure_triple_chow: bool,
    pub triple_pung: bool,
    pub three_concealed_pungs: bool,
    pub mixed_triple_chow: bool,
    pub all_pungs: bool,
    pub half_flush: bool,
    pub all_types: bool,
    pub concealed_hand: bool,
    pub all_simples: bool,
    pub all_chows: bool,
    pub dragon_pungs: i64,
    pub concealed_kongs: i64,
    pub pure_double_chows: i64,
    pub mixed_double_chows: i64,
    pub melded_kongs: i64,
}

/// The patterns of the completed hand `t`.
#[verifier::opaque]
pub open spec fn patterns_of(t: TilesView) -> Patterns {
    Patterns {
        thirteen_orphans: thirteen_orphans(t),
        big_four_winds: big_four_winds(t),
        big_three_dragons: big_three_dragons(t),
        all_green: all_green(t),
        four_kongs: four_kongs(t),
        little_four_winds: little_four_winds(t),
        little_three_dragons: little_three_dragons(t),
        all_honors: all_honors(t),
        four_concealed_pungs: four_concealed_pungs(t),
        all_terminals: all_terminals(t),
        quadruple_chow: quadruple_chow(t),
        three_kongs: three_kongs(t),
        all_terminals_and_honors: all_terminals_and_honors(t),
        full_flush: full_flush(t),
        seven_pairs: seven_pairs(t),
        pure_triple_chow: pure_triple_chow(t),
        triple_pung: triple_pung(t),
        three_concealed_pungs: three_concealed_pungs(t),
        mixed_triple_chow: mixed_triple_chow(t),
        all_pungs: all_pungs_fan(t),
        half_flush: half_flush(t),
        all_types: all_types(t),
        concealed_hand: concealed_hand(t),
        all_simples: all_simples(t),
        all_chows: all_chows_fan(t),
        dragon_pungs: dragon_pungs(t) as i64,
        concealed_kongs: t.ckongs.len() as i64,
        pure_double_chows: pure_double_chows(t) as i64,
        mixed_double_chows: mixed_double_chows(t) as i64,
        melded_kongs: melded_kongs(t) as i64,
    }
}

impl Patterns {
    /// The counted patterns are within the range scoring assumes.
    pub open spec fn bounded(self) -> bool {
        &&& 0 <= self.dragon_pungs <= 4 * GROUP_LIMIT
        &&& 0 <= self.concealed_kongs <= GROUP_LIMIT
        &&& 0 <= self.pure_double_chows <= 34
        &&& 0 <= self.mixed_double_chows <= 34
        &&& 0 <= self.melded_kongs <= 2
    }
}

/// The patterns that `t` shows.
#[verifier::rlimit(100)]
#[verifier::spinoff_prover]
pub fn find_patterns(t: &Tiles) -> (p: Patterns)
    requires
        scorable(t@),
    ensures
        p == patterns_of(t@),
        p.bounded(),
{
    let all = collect_all_tiles(t);
    let chows = concat(&t.chows, &t.cchows);
    let p1 = concat(&t.pungs, &t.kongs);
    let p2 = concat(&p1, &t.ckongs);
    let pungs = concat(&p2, &t.cpungs);
    let hand_counts = tile_counts(&t.hands);
    proof {
        lemma_valid_concat(t@.pungs, t@.kongs);
        lemma_valid_concat(t@.pungs + t@.kongs, t@.ckongs);
        lemma_valid_concat(t@.pungs + t@.kongs + t@.ckongs, t@.cpungs);
        assert(pungs@ == all_pungs(t@));
        assert(chows@ == all_chows(t@));
        assert(all_chow_starts(chows@)) by {
            assert forall|i: int| 0 <= i < chows@.len() implies is_chow_start(
                #[trigger] chows@[i],
            ) by {
                if i < t@.chows.len() {
                    assert(chows@[i] == t@.chows[i]);
                } else {
                    assert(chows@[i] == t@.cchows[i - t@.chows.len()]);
                }
            }
        }
        lemma_count_class_extremes(all@, TileClass::Yao);
        lemma_count_class_extremes(all@, TileClass::Green);
        lemma_count_class_extremes(all@, TileClass::Suited);
        lemma_count_class_extremes(all@, TileClass::Terminal);
        lemma_count_class_extremes(pungs@, TileClass::Dragon);
    }
    let n = all.len();
    let yao = count_class_in(&all, TileClass::Yao);
    let green = count_class_in(&all, TileClass::Green);
    let suited = count_class_in(&all, TileClass::Suited);
    let terminal = count_class_in(&all, TileClass::Terminal);
    let chars = count_class_in(&all, TileClass::Characters);
    let bamboo = count_class_in(&all, TileClass::Bamboo);
    let dots = count_class_in(&all, TileClass::Dots);
    let winds_all = count_class_in(&all, TileClass::Wind);
    let dragons_all = count_class_in(&all, TileClass::Dragon);
    let winds_p = count_class_in(&pungs, TileClass::Wind);
    let dragons_p = count_class_in(&pungs, TileClass::Dragon);
    let winds_h = count_class_in(&t.hands, TileClass::Wind);
    let dragons_h = count_class_in(&t.hands, TileClass::Dragon);
    let kongs = t.kongs.len() + t.ckongs.len();
    let concealed = t.cpungs.len() + t.ckongs.len();
    let n_chows = t.chows.len() + t.cchows.len();

    let thirteen = t.hands.len() == 14 && yao == n && every_yao_present(&hand_counts, Ghost(t@.hands));
    let big_dragons = dragons_p == 3;
    let little_dragons = dragons_p == 2 && dragons_h == 2;
    let honors = suited == 0;
    let terminals = terminal == n && n_chows == 0;
    let quadruple = some_count_is_exec(&chows, 4);
    let mixed_yao = !thirteen && !terminals && !honors && yao == n && n_chows == 0;
    let flush = single_suit_exec(&all);
    let pairs = t.hands.len() == 14 && counts_all_even(&hand_counts, Ghost(t@.hands));
    let triple_chow = !quadruple && some_count_is_exec(&chows, 3);
    let mixed_triple = rank_in_three_suits_exec(&chows);
    let big_winds = winds_p == 4;
    let four_k = kongs == 4;
    let four_concealed = concealed == 4;
    let dragon_count: usize = if big_dragons || little_dragons {
        0
    } else {
        dragons_p
    };
    let chow_counts = tile_counts(&chows);
    let double_chows: usize = if quadruple || triple_chow {
        0
    } else {
        kinds_with_count(&chow_counts, 2, Ghost(chows@))
    };
    let mixed_doubles: usize = if mixed_triple {
        0
    } else {
        partnered_kinds(&chow_counts, Ghost(chows@)) / 2
    };
    let melded: usize = if 0 < t.kongs.len() && t.kongs.len() < 3 {
        t.kongs.len()
    } else {
        0
    };
    proof {
        assert(kinds_with_count_below(chows@, 2, 34) <= 34) by {
            lemma_kinds_bound(chows@, 2, 34);
        }
        assert(partnered_kinds_below(chows@, 34) <= 34) by {
            lemma_partnered_bound(chows@, 34);
        }
        assert(quadruple == quadruple_chow(t@));
        assert(triple_chow == pure_triple_chow(t@));
        assert(double_chows == pure_double_chows(t@));
    }
    let p = Patterns {
        thirteen_orphans: thirteen,
        big_four_winds: big_winds,
        big_three_dragons: big_dragons,
        all_green: green == n,
        four_kongs: four_k,
        little_four_winds: winds_p == 3 && winds_h == 2,
        little_three_dragons: little_dragons,
        all_honors: honors,
        four_concealed_pungs: four_concealed,
        all_terminals: terminals,
        quadruple_chow: quadruple,
        three_kongs: kongs == 3,
        all_terminals_and_honors: mixed_yao,
        full_flush: flush,
        seven_pairs: pairs,
        pure_triple_chow: triple_chow,
        triple_pung: rank_thrice_exec(&pungs),
        three_concealed_pungs: concealed == 3,
        mixed_triple_chow: mixed_triple,
        all_pungs: !big_winds && !four_k && !honors && !four_concealed && !terminals && !mixed_yao
            && n_chows == 0 && pungs.len() > 0,
        half_flush: !honors && !flush && one_suit_among_suited_exec(&all),
        all_types: !thirteen && chars != 0 && bamboo != 0 && dots != 0 && winds_all != 0
            && dragons_all != 0,
        concealed_hand: !thirteen && !pairs && !four_concealed && t.chows.len() + t.pungs.len() + t.kongs.len() == 0,
        all_simples: yao == 0,
        all_chows: pungs.len() == 0 && n_chows > 0,
        dragon_pungs: dragon_count as i64,
        concealed_kongs: t.ckongs.len() as i64,
        pure_double_chows: double_chows as i64,
        mixed_double_chows: mixed_doubles as i64,
        melded_kongs: melded as i64,
    };
    proof {
        reveal(patterns_of);
    }
    p
}

proof fn lemma_kinds_bound(s: Seq<Tile>, n: nat, c: nat)
    ensures
        kinds_with_count_below(s, n, c) <= c,
    decreases c,
{
    if c > 0 {
        lemma_kinds_bound(s, n, (c - 1) as nat);
    }
}

proof fn lemma_partnered_bound(s: Seq<Tile>, c: nat)
    ensures
        partnered_kinds_below(s, c) <= c,
    decreases c,
{
    if c > 0 {
        lemma_partnered_bound(s, (c - 1) as nat);
    }
}

impl Patterns {
    /// Fan number `k` of the rules (in the order they are listed) with
    /// whether these patterns score it.
    pub open spec fn candidate(self, tsumo: bool, k: int) -> (bool, FanEntry) {
        if k == 0 {
            (self.thirteen_orphans, entry(Fan::ThirteenOrphans, 1, 88))
        } else if k == 1 {
            (self.big_four_winds, entry(Fan::BigFourWinds, 1, 88))
        } else if k == 2 {
            (self.big_three_dragons, entry(Fan::BigThreeDragons, 1, 88))
        } else if k == 3 {
            (self.all_green, entry(Fan::AllGreen, 1, 88))
        } else if k == 4 {
            (self.four_kongs, entry(Fan::FourKongs, 1, 88))
        } else if k == 5 {
            (self.little_four_winds, entry(Fan::LittleFourWinds, 1, 64))
        } else if k == 6 {
            (self.little_three_dragons, entry(Fan::LittleThreeDragons, 1, 64))
        } else if k == 7 {
            (self.all_honors, entry(Fan::AllHonors, 1, 64))
        } else if k == 8 {
            (self.four_concealed_pungs, entry(Fan::FourConcealedPungs, 1, 64))
        } else if k == 9 {
            (self.all_terminals, entry(Fan::AllTerminals, 1, 64))
        } else if k == 10 {
            (self.quadruple_chow, entry(Fan::QuadrupleChow, 1, 48))
        } else if k == 11 {
            (self.three_kongs, entry(Fan::ThreeKongs, 1, 32))
        } else if k == 12 {
            (self.all_terminals_and_honors, entry(Fan::AllTerminalsAndHonors, 1, 32))
        } else if k == 13 {
            (self.full_flush, entry(Fan::FullFlush, 1, 24))
        } else if k == 14 {
            (self.seven_pairs, entry(Fan::SevenPairs, 1, 24))
        } else if k == 15 {
            (self.pure_triple_chow, entry(Fan::PureTripleChow, 1, 24))
        } else if k == 16 {
            (self.triple_pung, entry(Fan::TriplePung, 1, 16))
        } else if k == 17 {
            (self.three_concealed_pungs, entry(Fan::ThreeConcealedPungs, 1, 16))
        } else if k == 18 {
            (self.mixed_triple_chow, entry(Fan::MixedTripleChow, 1, 8))
        } else if k == 19 {
            (self.all_pungs, entry(Fan::AllPungs, 1, 6))
        } else if k == 20 {
            (self.half_flush, entry(Fan::HalfFlush, 1, 6))
        } else if k == 21 {
            (self.all_types, entry(Fan::AllTypes, 1, 6))
        } else if k == 22 {
            (self.concealed_hand, entry(Fan::ConcealedHand, 1, 2))
        } else if k == 23 {
            (self.all_simples, entry(Fan::AllSimples, 1, 2))
        } else if k == 24 {
            (self.all_chows, entry(Fan::AllChows, 1, 2))
        } else if k == 25 {
            (self.dragon_pungs > 0, entry(Fan::DragonPung, self.dragon_pungs as int, 2 * self.dragon_pungs))
        } else if k == 26 {
            (self.concealed_kongs > 0, entry(Fan::ConcealedKong, self.concealed_kongs as int, 2 * self.concealed_kongs))
        } else if k == 27 {
            (tsumo, entry(Fan::SelfDrawn, 1, 1))
        } else if k == 28 {
            (self.pure_double_chows > 0, entry(Fan::PureDoubleChow, self.pure_double_chows as int, self.pure_double_chows as int))
        } else if k == 29 {
            (self.mixed_double_chows > 0, entry(Fan::MixedDoubleChow, self.mixed_double_chows as int, self.mixed_double_chows as int))
        } else {
            (self.melded_kongs > 0, entry(Fan::MeldedKong, self.melded_kongs as int, self.melded_kongs as int))
        }
    }
}

/// Fan number `k` of the rules with whether the patterns `p` score it.
fn candidate_exec(p: &Patterns, tsumo: bool, k: usize) -> (r: (bool, FanEntry))
    requires
        p.bounded(),
        k < 31,
    ensures
        r == p.candidate(tsumo, k as int),
        0 <= r.1.value <= 0x1_0000_0000,
{
    if k == 0 {
        (p.thirteen_orphans, FanEntry { fan: Fan::ThirteenOrphans, times: 1, value: 88 })
    } else if k == 1 {
        (p.big_four_winds, FanEntry { fan: Fan::BigFourWinds, times: 1, value: 88 })
    } else if k == 2 {
        (p.big_three_dragons, FanEntry { fan: Fan::BigThreeDragons, times: 1, value: 88 })
    } else if k == 3 {
        (p.all_green, FanEntry { fan: Fan::AllGreen, times: 1, value: 88 })
    } else if k == 4 {
        (p.four_kongs, FanEntry { fan: Fan::FourKongs, times: 1, value: 88 })
    } else if k == 5 {
        (p.little_four_winds, FanEntry { fan: Fan::LittleFourWinds, times: 1, value: 64 })
    } else if k == 6 {
        (p.little_three_dragons, FanEntry { fan: Fan::LittleThreeDragons, times: 1, value: 64 })
    } else if k == 7 {
        (p.all_honors, FanEntry { fan: Fan::AllHonors, times: 1, value: 64 })
    } else if k == 8 {
        (p.four_concealed_pungs, FanEntry { fan: Fan::FourConcealedPungs, times: 1, value: 64 })
    } else if k == 9 {
        (p.all_terminals, FanEntry { fan: Fan::AllTerminals, times: 1, value: 64 })
    } else if k == 10 {
        (p.quadruple_chow, FanEntry { fan: Fan::QuadrupleChow, times: 1, value: 48 })
    } else if k == 11 {
        (p.three_kongs, FanEntry { fan: Fan::ThreeKongs, times: 1, value: 32 })
    } else if k == 12 {
        (p.all_terminals_and_honors, FanEntry { fan: Fan::AllTerminalsAndHonors, times: 1, value: 32 })
    } else if k == 13 {
        (p.full_flush, FanEntry { fan: Fan::FullFlush, times: 1, value: 24 })
    } else if k == 14 {
        (p.seven_pairs, FanEntry { fan: Fan::SevenPairs, times: 1, value: 24 })
    } else if k == 15 {
        (p.pure_triple_chow, FanEntry { fan: Fan::PureTripleChow, times: 1, value: 24 })
    } else if k == 16 {
        (p.triple_pung, FanEntry { fan: Fan::TriplePung, times: 1, value: 16 })
    } else if k == 17 {
        (p.three_concealed_pungs, FanEntry { fan: Fan::ThreeConcealedPungs, times: 1, value: 16 })
    } else if k == 18 {
        (p.mixed_triple_chow, FanEntry { fan: Fan::MixedTripleChow, times: 1, value: 8 })
    } else if k == 19 {
        (p.all_pungs, FanEntry { fan: Fan::AllPungs, times: 1, value: 6 })
    } else if k == 20 {
        (p.half_flush, FanEntry { fan: Fan::HalfFlush, times: 1, value: 6 })
    } else if k == 21 {
        (p.all_types, FanEntry { fan: Fan::AllTypes, times: 1, value: 6 })
    } else if k == 22 {
        (p.concealed_hand, FanEntry { fan: Fan::ConcealedHand, times: 1, value: 2 })
    } else if k == 23 {
        (p.all_simples, FanEntry { fan: Fan::AllSimples, times: 1, value: 2 })
    } else if k == 24 {
        (p.all_chows, FanEntry { fan: Fan::AllChows, times: 1, value: 2 })
    } else if k == 25 {
        (p.dragon_pungs > 0, FanEntry { fan: Fan::DragonPung, times: p.dragon_pungs, value: 2 * p.dragon_pungs })
    } else if k == 26 {
        (p.concealed_kongs > 0, FanEntry { fan: Fan::ConcealedKong, times: p.concealed_kongs, value: 2 * p.concealed_kongs })
    } else if k == 27 {
        (tsumo, FanEntry { fan: Fan::SelfDrawn, times: 1, value: 1 })
    } else if k == 28 {
        (p.pure_double_chows > 0, FanEntry { fan: Fan::PureDoubleChow, times: p.pure_double_chows, value: p.pure_double_chows })
    } else if k == 29 {
        (p.mixed_double_chows > 0, FanEntry { fan: Fan::MixedDoubleChow, times: p.mixed_double_chows, value: p.mixed_double_chows })
    } else {
        (p.melded_kongs > 0, FanEntry { fan: Fan::MeldedKong, times: p.melded_kongs, value: p.melded_kongs })
    }
}

/// The fans of a completed hand and their total; `tsumo` tells whether the
/// winning tile was self-drawn.
#[verifier::spinoff_prover]
pub fn score_completion(t: &Tiles, tsumo: bool) -> (r: (Vec<FanEntry>, i64))
    requires
        scorable(t@),
    ensures
        r.0@ == fans_of(t@, tsumo),
        r.1 == fan_total(r.0@),
        0 <= r.1 <= 31 * 0x1_0000_0000,
{
    let p = find_patterns(t);
    let mut fans: Vec<FanEntry> = Vec::new();
    let mut result: i64 = 0;
    let mut k: usize = 0;
    while k < FAN_KINDS
        invariant
            k <= 31,
            p.bounded(),
            p == patterns_of(t@),
            fans@ == selected(p, tsumo, k as nat),
            result == fan_total(fans@),
            0 <= result <= k * 0x1_0000_0000,
        decreases 31 - k,
    {
        let (cond, e) = candidate_exec(&p, tsumo, k);
        if cond {
            let ghost prev = fans@;
            fans.push(e);
            assert(fans@.drop_last() =~= prev);
            result = result + e.value;
        }
        k = k + 1;
    }
    (fans, result)
}

} // verus!

verus! {

/// The tiles with the winning tile in hand: a self-drawn tile is in hand
/// already, a discard joins it.
pub open spec fn with_winning_tile(t: TilesView, add: Tile, tsumo: bool) -> TilesView {
    if tsumo {
        t
    } else {
        t.with_hands(t.hands.push(add))
    }
}

/// The total of a completion's fans.
pub open spec fn completion_total(c: TilesView, tsumo: bool) -> int {
    fan_total(fans_of(c, tsumo))
}

/// The best of the first `n` completions, as its total and fans: the first
/// one with the highest total; `(-1, [])` when there is none.
pub open spec fn best_upto(cs: Seq<TilesView>, tsumo: bool, n: nat) -> (int, Seq<FanEntry>)
    decreases n,
{
    if n == 0 {
        (-1, Seq::empty())
    } else {
        let b = best_upto(cs, tsumo, (n - 1) as nat);
        let c = cs[n - 1];
        if completion_total(c, tsumo) > b.0 {
            (completion_total(c, tsumo), fans_of(c, tsumo))
        } else {
            b
        }
    }
}

pub open spec fn has_fan(fans: Seq<FanEntry>, f: Fan) -> bool {
    exists|i: int| 0 <= i < fans.len() && (#[trigger] fans[i]).fan == f
}

/// The single-wait fan is looked for: the hand is neither thirteen orphans
/// nor seven pairs.
pub open spec fn wait_counts(fans: Seq<FanEntry>) -> bool {
    !has_fan(fans, Fan::ThirteenOrphans) && !has_fan(fans, Fan::SevenPairs)
}

/// No tile but `add` completes the hand of `tw` without `add`.
pub open spec fn single_wait(tw: TilesView, add: Tile) -> bool {
    forall|x: Tile|
        is_tile(x) && x != add ==> #[trigger] crate::hand::combine_spec(
            tw.with_hands(crate::hand::remove_first(tw.hands, add).push(x)),
        ).len() == 0
}

/// The winning tile `add` makes the pair of some completion of `tw`: the
/// wait is on the pair.
pub open spec fn waits_on_pair(tw: TilesView, add: Tile) -> bool {
    let cs = crate::hand::combine_spec(tw);
    exists|i: int| 0 <= i < cs.len() && #[trigger] cs[i].hands == seq![add, add]
}

/// What `cal_fan` yields: nothing when the hand cannot be completed,
/// otherwise the best completion's total and fans, with one more for a
/// single wait.
pub open spec fn cal_fan_spec(t: TilesView, add: Tile, tsumo: bool) -> Option<(int, Seq<FanEntry>)> {
    let tw = with_winning_tile(t, add, tsumo);
    let cs = crate::hand::combine_spec(tw);
    if cs.len() == 0 {
        None
    } else {
        let b = best_upto(cs, tsumo, cs.len());
        if wait_counts(b.1) && single_wait(tw, add) && waits_on_pair(tw, add) {
            Some((b.0 + 1, b.1.push(entry(Fan::SingleWait, 1, 1))))
        } else {
            Some(b)
        }
    }
}

/// Where the single-wait test runs, the winning tile is in hand (else the
/// score cannot be computed).
pub open spec fn cal_fan_defined(t: TilesView, add: Tile, tsumo: bool) -> bool {
    let tw = with_winning_tile(t, add, tsumo);
    let cs = crate::hand::combine_spec(tw);
    cs.len() == 0 || !wait_counts(best_upto(cs, tsumo, cs.len()).1) || tw.hands.contains(add)
}

/// The most tiles a group may hold for `cal_fan`.
pub const HAND_LIMIT: usize = 0x10_0000;

pub open spec fn hand_sized(t: TilesView) -> bool {
    &&& t.wf()
    &&& t.hands.len() <= HAND_LIMIT
    &&& t.chows.len() <= HAND_LIMIT
    &&& t.pungs.len() <= HAND_LIMIT
    &&& t.kongs.len() <= HAND_LIMIT
    &&& t.ckongs.len() <= HAND_LIMIT
    &&& t.cchows.len() <= HAND_LIMIT
    &&& t.cpungs.len() <= HAND_LIMIT
}

pub fn has_fan_exec(fans: &Vec<FanEntry>, f: Fan) -> (r: bool)
    ensures
        r == has_fan(fans@, f),
{
    let mut i: usize = 0;
    while i < fans.len()
        invariant
            i <= fans.len(),
            forall|j: int| 0 <= j < i ==> (#[trigger] fans@[j]).fan != f,
        decreases fans.len() - i,
    {
        if fans[i].fan == f {
            return true;
        }
        i = i + 1;
    }
    false
}

/// Whether no tile but `add` completes the hand of `tw` without `add`.
fn single_wait_exec(tw: &Tiles, add: Tile) -> (r: bool)
    requires
        hand_sized(tw@),
        is_tile(add),
        tw@.hands.contains(add),
    ensures
        r == single_wait(tw@, add),
{
    let mut rest = tw.duplicate();
    crate::hand::remove_one(&mut rest.hands, add);
    proof {
        crate::hand::lemma_first_index(tw@.hands, add);
        let h = crate::hand::remove_first(tw@.hands, add);
        let p = crate::hand::first_index(tw@.hands, add);
        assert forall|j: int| 0 <= j < h.len() implies is_tile(#[trigger] h[j]) by {
            assert(h[j] == tw@.hands[if j < p { j } else { j + 1 }]);
        }
    }
    let mut x: u8 = 0;
    while x < 34
        invariant
            x <= 34,
            rest@ == tw@.with_hands(crate::hand::remove_first(tw@.hands, add)),
            rest@.wf(),
            rest@.hands.len() < HAND_LIMIT,
            forall|y: Tile|
                y < x && y != add ==> #[trigger] crate::hand::combine_spec(
                    tw@.with_hands(crate::hand::remove_first(tw@.hands, add).push(y)),
                ).len() == 0,
        decreases 34 - x,
    {
        if x != add {
            let mut t3 = rest.duplicate();
            t3.hands.push(x);
            proof {
                let h = t3@.hands;
                assert forall|j: int| 0 <= j < h.len() implies is_tile(#[trigger] h[j]) by {
                    if j < rest@.hands.len() {
                        assert(h[j] == rest@.hands[j]);
                    }
                }
                assert(t3@ == tw@.with_hands(crate::hand::remove_first(tw@.hands, add).push(x)));
            }
            let found = crate::hand::combine(&t3);
            if found.len() > 0 {
                assert(crate::hand::combine_spec(t3@).len() > 0);
                return false;
            }
        }
        x = x + 1;
    }
    true
}

} // verus!

verus! {

/// Whether `add` makes the pair of some completion of `tw`.
fn pair_wait_exec(tw: &Tiles, add: Tile) -> (r: bool)
    requires
        tw@.wf(),
    ensures
        r == waits_on_pair(tw@, add),
{
    let combs = crate::hand::combine(tw);
    let ghost cs = crate::hand::views(combs@);
    let mut i: usize = 0;
    while i < combs.len()
        invariant
            i <= combs.len(),
            cs == crate::hand::views(combs@),
            cs == crate::hand::combine_spec(tw@),
            forall|j: int| 0 <= j < i ==> #[trigger] cs[j].hands != seq![add, add],
        decreases combs.len() - i,
    {
        let h = &combs[i].hands;
        assert(cs[i as int] == combs@[i as int]@);
        if h.len() == 2 && h[0] == add && h[1] == add {
            assert(cs[i as int].hands =~= seq![add, add]);
            return true;
        }
        assert(cs[i as int].hands != seq![add, add]) by {
            if cs[i as int].hands =~= seq![add, add] {
                assert(h@[0] == add && h@[1] == add);
            }
        }
        i = i + 1;
    }
    false
}

/// The best completion of the hand of `tw` (which holds the winning tile):
/// the first completion with the highest total, as that total and its fans;
/// nothing when the hand cannot be completed.
#[verifier::spinoff_prover]
pub fn best_completion(tw: &Tiles, tsumo: bool) -> (r: Option<(i64, Vec<FanEntry>)>)
    requires
        hand_sized(tw@),
    ensures
        r is None <==> crate::hand::combine_spec(tw@).len() == 0,
        r matches Some(v) ==> best_upto(
            crate::hand::combine_spec(tw@),
            tsumo,
            crate::hand::combine_spec(tw@).len(),
        ) == (v.0 as int, v.1@),
        r matches Some(v) ==> 0 <= v.0 <= 31 * 0x1_0000_0000,
{
    let combs = crate::hand::combine(tw);
    let ghost cs = crate::hand::views(combs@);
    if combs.len() == 0 {
        assert(cs.len() == 0);
        return None;
    }
    let mut fans: Vec<FanEntry> = Vec::new();
    let mut result: i64 = -1;
    let mut i: usize = 0;
    while i < combs.len()
        invariant
            i <= combs.len(),
            cs == crate::hand::views(combs@),
            cs == crate::hand::combine_spec(tw@),
            hand_sized(tw@),
            forall|j: int| 0 <= j < combs.len() ==> (#[trigger] combs@[j])@.wf(),
            forall|j: int|
                0 <= j < combs.len() ==> crate::hand::derived_from((#[trigger] combs@[j])@, tw@),
            best_upto(cs, tsumo, i as nat) == (result as int, fans@),
            -1 <= result <= 31 * 0x1_0000_0000,
            i > 0 ==> result >= 0,
        decreases combs.len() - i,
    {
        let c = &combs[i];
        assert(cs[i as int] == c@);
        let (f, r) = score_completion(c, tsumo);
        if r > result {
            fans = f;
            result = r;
        }
        i = i + 1;
    }
    Some((result, fans))
}

/// The score of a winning hand: `add` is the
/// winning tile, `tsumo` whether it was self-drawn (and so already in hand).
/// Gives nothing when the hand cannot be completed, otherwise the total and
/// the fans of its best completion, with a single wait added where no other
/// tile would complete it.
#[verifier::spinoff_prover]
pub fn cal_fan(tiles: &Tiles, add: Tile, tsumo: bool) -> (r: Option<(i64, Vec<FanEntry>)>)
    requires
        hand_sized(tiles@),
        tiles@.hands.len() < HAND_LIMIT,
        is_tile(add),
        cal_fan_defined(tiles@, add, tsumo),
    ensures
        r is None <==> cal_fan_spec(tiles@, add, tsumo) is None,
        r matches Some(v) ==> cal_fan_spec(tiles@, add, tsumo) == Some((v.0 as int, v.1@)),
        r matches Some(v) ==> 0 <= v.0 <= 31 * 0x1_0000_0000 + 1,
{
    let mut tw = tiles.duplicate();
    if !tsumo {
        tw.hands.push(add);
    }
    proof {
        let h = tw@.hands;
        assert forall|j: int| 0 <= j < h.len() implies is_tile(#[trigger] h[j]) by {
            if j < tiles@.hands.len() {
                assert(h[j] == tiles@.hands[j]);
            }
        }
        assert(tw@ == with_winning_tile(tiles@, add, tsumo));
    }
    match best_completion(&tw, tsumo) {
        None => None,
        Some((result, fans)) => {
            let mut result = result;
            let mut fans = fans;
            if !has_fan_exec(&fans, Fan::ThirteenOrphans) && !has_fan_exec(&fans, Fan::SevenPairs) {
                if single_wait_exec(&tw, add) && pair_wait_exec(&tw, add) {
                    result = result + 1;
                    fans.push(FanEntry { fan: Fan::SingleWait, times: 1, value: 1 });
                }
            }
            Some((result, fans))
        },
    }
}

} // verus!

verus! {

// ---------------------------------------------------------------------
// Laws of scoring.

/// Where fan number `k` of the rules is scored by `p`, the first `n` fans
/// selected hold it.
proof fn lemma_selected_holds(p: Patterns, tsumo: bool, n: nat, k: int)
    requires
        0 <= k < n,
        p.candidate(tsumo, k).0,
    ensures
        has_fan(selected(p, tsumo, n), p.candidate(tsumo, k).1.fan),
        selected(p, tsumo, n).contains(p.candidate(tsumo, k).1),
    decreases n,
{
    let s = selected(p, tsumo, n);
    if k == n - 1 {
        assert(s.last() == p.candidate(tsumo, k).1);
        assert(s[s.len() - 1] == s.last());
    } else {
        lemma_selected_holds(p, tsumo, (n - 1) as nat, k);
        let prev = selected(p, tsumo, (n - 1) as nat);
        let i = choose|i: int| 0 <= i < prev.len() && prev[i] == p.candidate(tsumo, k).1;
        if p.candidate(tsumo, n - 1).0 {
            assert(s[i] == prev[i]);
        }
        assert(s[i] == p.candidate(tsumo, k).1);
    }
}

/// Where no fan among the first `n` rules that `p` scores is `f`, the fans
/// selected do not hold `f`.
proof fn lemma_selected_lacks(p: Patterns, tsumo: bool, n: nat, f: Fan)
    requires
        forall|k: int| 0 <= k < n && #[trigger] p.candidate(tsumo, k).0 ==> p.candidate(tsumo, k).1.fan != f,
    ensures
        !has_fan(selected(p, tsumo, n), f),
    decreases n,
{
    if n > 0 {
        lemma_selected_lacks(p, tsumo, (n - 1) as nat, f);
        let s = selected(p, tsumo, n);
        let prev = selected(p, tsumo, (n - 1) as nat);
        if p.candidate(tsumo, n - 1).0 {
            assert forall|i: int| 0 <= i < s.len() implies (#[trigger] s[i]).fan != f by {
                if i < prev.len() {
                    assert(s[i] == prev[i]);
                }
            }
        }
    }
}

/// The green dragon, `F`.
pub open spec fn green_dragon() -> Tile {
    29
}

/// A hand of green tiles alone, with at least one suited tile, scores all
/// green; with it half flush where the green dragon is among its tiles and
/// full flush where it is not, never both.
pub proof fn law_all_green_flush(t: TilesView, tsumo: bool)
    requires
        all_in(all_tiles(t), TileClass::Green),
        !none_in(all_tiles(t), TileClass::Suited),
    ensures
        has_fan(fans_of(t, tsumo), Fan::AllGreen),
        all_tiles(t).contains(green_dragon()) ==> has_fan(fans_of(t, tsumo), Fan::HalfFlush) && !has_fan(
            fans_of(t, tsumo),
            Fan::FullFlush,
        ),
        !all_tiles(t).contains(green_dragon()) ==> has_fan(fans_of(t, tsumo), Fan::FullFlush) && !has_fan(
            fans_of(t, tsumo),
            Fan::HalfFlush,
        ),
{
    let a = all_tiles(t);
    let p = patterns_of(t);
    reveal(patterns_of);
    reveal(all_in);
    reveal(none_in);
    reveal(single_suit);
    reveal(one_suit_among_suited);
    assert(p.all_green);
    lemma_selected_holds(p, tsumo, 31, 3);
    let j = choose|j: int| 0 <= j < a.len() && in_class(TileClass::Suited, #[trigger] a[j]);
    if a.contains(green_dragon()) {
        let i = choose|i: int| 0 <= i < a.len() && a[i] == green_dragon();
        assert(!single_suit(a));
        assert(!all_honors(t));
        assert(one_suit_among_suited(a));
        assert(p.half_flush && !p.full_flush);
        lemma_selected_holds(p, tsumo, 31, 20);
        lemma_selected_lacks(p, tsumo, 31, Fan::FullFlush);
    } else {
        assert forall|i: int| 0 <= i < a.len() implies is_suited(#[trigger] a[i]) && suit_of(a[i]) == suit_of(a[0]) by {
            assert(in_class(TileClass::Green, a[i]));
            assert(in_class(TileClass::Green, a[0]));
            assert(a[i] != green_dragon());
            assert(a[0] != green_dragon());
        }
        assert(single_suit(a));
        assert(p.full_flush && !p.half_flush);
        lemma_selected_holds(p, tsumo, 31, 13);
        lemma_selected_lacks(p, tsumo, 31, Fan::HalfFlush);
    }
}

/// The fans selected with and without a self-drawn winning tile: the same,
/// with the self-drawn fan among them once its rule is reached.
proof fn lemma_selected_self_drawn(p: Patterns, n: nat)
    requires
        n <= 31,
    ensures
        n <= 27 ==> selected(p, true, n) == selected(p, false, n),
        n >= 27 ==> selected(p, false, 27).len() <= selected(p, false, n).len(),
        n > 27 ==> selected(p, true, n) == selected(p, false, n).insert(
            selected(p, false, 27).len() as int,
            entry(Fan::SelfDrawn, 1, 1),
        ),
        fan_total(selected(p, true, n)) == fan_total(selected(p, false, n)) + if n > 27 {
            1int
        } else {
            0int
        },
    decreases n,
{
    if n > 0 {
        let m = (n - 1) as nat;
        lemma_selected_self_drawn(p, m);
        let st = selected(p, true, m);
        let sf = selected(p, false, m);
        let j = selected(p, false, 27).len() as int;
        let x = entry(Fan::SelfDrawn, 1, 1);
        if m == 27 {
            assert(st.push(x).drop_last() =~= st);
            assert(sf.insert(j, x) =~= sf.push(x));
        } else {
            assert(p.candidate(true, m as int) == p.candidate(false, m as int));
            let c = p.candidate(false, m as int);
            if c.0 {
                assert(st.push(c.1).drop_last() =~= st);
                assert(sf.push(c.1).drop_last() =~= sf);
                if m > 27 {
                    assert(st.push(c.1) =~= sf.push(c.1).insert(j, x));
                }
            }
        }
    }
}

/// Self-drawing the winning tile adds exactly one fan to a completed hand,
/// the self-drawn fan worth one, and one to its total; the other fans stay
/// as they are, in their order.
pub proof fn law_self_drawn_adds_one(t: TilesView)
    ensures
        fans_of(t, true) == fans_of(t, false).insert(
            selected(patterns_of(t), false, 27).len() as int,
            entry(Fan::SelfDrawn, 1, 1),
        ),
        completion_total(t, true) == completion_total(t, false) + 1,
{
    lemma_selected_self_drawn(patterns_of(t), 31);
}

/// The best of the first `n` completions scores at least what each of them
/// scores; unless it is the empty `(-1, [])`, it is the first of them with
/// the highest total, taken with its fans.
proof fn lemma_best_upto(cs: Seq<TilesView>, tsumo: bool, n: nat)
    requires
        n <= cs.len(),
    ensures
        forall|i: int| 0 <= i < n ==> completion_total(#[trigger] cs[i], tsumo) <= best_upto(cs, tsumo, n).0,
        best_upto(cs, tsumo, n) == (-1int, Seq::<FanEntry>::empty()) || exists|j: int|
            0 <= j < n && best_upto(cs, tsumo, n) == (completion_total(#[trigger] cs[j], tsumo), fans_of(cs[j], tsumo))
                && forall|k: int| 0 <= k < j ==> completion_total(#[trigger] cs[k], tsumo) < completion_total(cs[j], tsumo),
    decreases n,
{
    if n > 0 {
        lemma_best_upto(cs, tsumo, (n - 1) as nat);
        let b = best_upto(cs, tsumo, (n - 1) as nat);
        let c = cs[n - 1];
        if completion_total(c, tsumo) > b.0 {
            assert(forall|k: int| 0 <= k < n - 1 ==> completion_total(#[trigger] cs[k], tsumo) < completion_total(cs[n - 1], tsumo));
        }
    }
}

/// The patterns of a hand within the scoring limits are within the range
/// scoring assumes.
proof fn lemma_scorable_bounded(t: TilesView)
    requires
        scorable(t),
    ensures
        patterns_of(t).bounded(),
{
    reveal(patterns_of);
    lemma_count_class_extremes(all_pungs(t), TileClass::Dragon);
    lemma_kinds_bound(all_chows(t), 2, 34);
    lemma_partnered_bound(all_chows(t), 34);
}

/// Every fan is worth something, so the total of those selected is not
/// negative.
proof fn lemma_selected_nonneg(p: Patterns, tsumo: bool, n: nat)
    requires
        p.bounded(),
        n <= 31,
    ensures
        fan_total(selected(p, tsumo, n)) >= 0,
    decreases n,
{
    if n > 0 {
        lemma_selected_nonneg(p, tsumo, (n - 1) as nat);
        let prev = selected(p, tsumo, (n - 1) as nat);
        let c = p.candidate(tsumo, n - 1);
        if c.0 {
            assert(prev.push(c.1).drop_last() =~= prev);
            assert(c.1.value >= 0);
        }
    }
}

proof fn lemma_chow_tiles_len(c: Seq<Tile>)
    ensures
        chow_tiles(c).len() == 3 * c.len(),
    decreases c.len(),
{
    if c.len() > 0 {
        lemma_chow_tiles_len(c.drop_first());
    }
}

proof fn lemma_pung_tiles_len(c: Seq<Tile>)
    ensures
        pung_tiles(c).len() == 3 * c.len(),
    decreases c.len(),
{
    if c.len() > 0 {
        lemma_pung_tiles_len(c.drop_first());
    }
}

/// A completion of a hand within the limits of `cal_fan` is within the
/// scoring limits, and so scores at least zero.
proof fn lemma_completion_total_nonneg(r: TilesView, t: TilesView, tsumo: bool)
    requires
        is_completion_of(r, t),
        hand_sized(t),
    ensures
        scorable(r),
        completion_total(r, tsumo) >= 0,
{
    broadcast use vstd::seq_lib::group_to_multiset_ensures;

    let c = r.cchows.skip(t.cchows.len() as int);
    let p = r.cpungs.skip(t.cpungs.len() as int);
    lemma_chow_tiles_len(c);
    lemma_pung_tiles_len(p);
    assert(t.hands.to_multiset().len() == t.hands.len());
    assert(r.hands.to_multiset().len() == r.hands.len());
    assert(r.hands.len() + 3 * c.len() + 3 * p.len() == t.hands.len());
    assert(r.cchows.len() == t.cchows.len() + c.len());
    assert(r.cpungs.len() == t.cpungs.len() + p.len());
    lemma_scorable_bounded(r);
    lemma_selected_nonneg(patterns_of(r), tsumo, 31);
}

/// A winning hand scores the highest total among its completions: none
/// scores more, and the fans are those of the first completion with the
/// highest total, with the single-wait fan added where it counts.
pub proof fn law_best_completion(t: TilesView, add: Tile, tsumo: bool)
    requires
        hand_sized(with_winning_tile(t, add, tsumo)),
        cal_fan_spec(t, add, tsumo) is Some,
    ensures
        forall|i: int|
            0 <= i < combine_spec(with_winning_tile(t, add, tsumo)).len() ==> completion_total(
                #[trigger] combine_spec(with_winning_tile(t, add, tsumo))[i],
                tsumo,
            ) <= score_total(cal_fan_spec(t, add, tsumo)->0),
        exists|j: int|
            0 <= j < combine_spec(with_winning_tile(t, add, tsumo)).len() && #[trigger] best_among(
                combine_spec(with_winning_tile(t, add, tsumo)),
                tsumo,
                j,
            ) && {
                let c = combine_spec(with_winning_tile(t, add, tsumo))[j];
                let r = cal_fan_spec(t, add, tsumo)->0;
                r == (completion_total(c, tsumo), fans_of(c, tsumo)) || r == (
                    completion_total(c, tsumo) + 1,
                    fans_of(c, tsumo).push(entry(Fan::SingleWait, 1, 1)),
                )
            },
{
    let tw = with_winning_tile(t, add, tsumo);
    let cs = combine_spec(tw);
    lemma_best_upto(cs, tsumo, cs.len());
    lemma_combine_sound(tw, 0);
    lemma_completion_total_nonneg(cs[0], tw, tsumo);
    assert(completion_total(cs[0], tsumo) <= best_upto(cs, tsumo, cs.len()).0);
    let j = choose|j: int|
        0 <= j < cs.len() && best_upto(cs, tsumo, cs.len()) == (completion_total(#[trigger] cs[j], tsumo), fans_of(cs[j], tsumo))
            && forall|k: int| 0 <= k < j ==> completion_total(#[trigger] cs[k], tsumo) < completion_total(cs[j], tsumo);
    assert(best_among(cs, tsumo, j));
}

/// The place of fan `f` among the rules, in the order they are listed;
/// the single-wait fan, which is added apart, comes last.
pub open spec fn rule_of(f: Fan) -> int {
    match f {
        Fan::ThirteenOrphans => 0,
        Fan::BigFourWinds => 1,
        Fan::BigThreeDragons => 2,
        Fan::AllGreen => 3,
        Fan::FourKongs => 4,
        Fan::LittleFourWinds => 5,
        Fan::LittleThreeDragons => 6,
        Fan::AllHonors => 7,
        Fan::FourConcealedPungs => 8,
        Fan::AllTerminals => 9,
        Fan::QuadrupleChow => 10,
        Fan::ThreeKongs => 11,
        Fan::AllTerminalsAndHonors => 12,
        Fan::FullFlush => 13,
        Fan::SevenPairs => 14,
        Fan::PureTripleChow => 15,
        Fan::TriplePung => 16,
        Fan::ThreeConcealedPungs => 17,
        Fan::MixedTripleChow => 18,
        Fan::AllPungs => 19,
        Fan::HalfFlush => 20,
        Fan::AllTypes => 21,
        Fan::ConcealedHand => 22,
        Fan::AllSimples => 23,
        Fan::AllChows => 24,
        Fan::DragonPung => 25,
        Fan::ConcealedKong => 26,
        Fan::SelfDrawn => 27,
        Fan::PureDoubleChow => 28,
        Fan::MixedDoubleChow => 29,
        Fan::MeldedKong => 30,
        Fan::SingleWait => 31,
    }
}

proof fn lemma_rule_of(p: Patterns, tsumo: bool, k: int)
    requires
        0 <= k < 31,
    ensures
        rule_of(p.candidate(tsumo, k).1.fan) == k,
{
}

/// Rule `k` of `p` is scored, at its worth, exactly where its pattern holds.
proof fn lemma_rule(p: Patterns, tsumo: bool, k: int)
    requires
        0 <= k < 31,
    ensures
        has_fan(selected(p, tsumo, 31), p.candidate(tsumo, k).1.fan) <==> p.candidate(tsumo, k).0,
        p.candidate(tsumo, k).0 ==> selected(p, tsumo, 31).contains(p.candidate(tsumo, k).1),
{
    if p.candidate(tsumo, k).0 {
        lemma_selected_holds(p, tsumo, 31, k);
    } else {
        let f = p.candidate(tsumo, k).1.fan;
        assert forall|j: int| 0 <= j < 31 && #[trigger] p.candidate(tsumo, j).0 implies p.candidate(tsumo, j).1.fan != f by {
            lemma_rule_of(p, tsumo, j);
            lemma_rule_of(p, tsumo, k);
        }
        lemma_selected_lacks(p, tsumo, 31, f);
    }
}

/// Fan `fan` is among `fans` exactly where the hand shows its pattern
/// (`shown`), and then with the count `times` and the worth `value`.
pub open spec fn scored_as(fans: Seq<FanEntry>, fan: Fan, shown: bool, times: int, value: int) -> bool {
    &&& has_fan(fans, fan) <==> shown
    &&& shown ==> fans.contains(FanEntry { fan, times: times as i64, value: value as i64 })
}

/// The fans worth 88 and 64: each is scored on a completed hand, once and
/// at its worth, exactly where the hand shows its pattern.  Big three
/// dragons is a pung or kong of each of the three dragons; four concealed
/// pungs is four pungs or kongs never claimed.
#[verifier::spinoff_prover]
#[verifier::rlimit(60)]
pub proof fn law_fans_worth_88_and_64(t: TilesView, tsumo: bool)
    ensures
        scored_as(fans_of(t, tsumo), Fan::ThirteenOrphans,
            t.hands.len() == 14 && all_in(all_tiles(t), TileClass::Yao) && has_every_yao(t.hands),
            1,
            88,
        ),
        scored_as(fans_of(t, tsumo), Fan::BigFourWinds, count_class(all_pungs(t), TileClass::Wind) == 4, 1, 88),
        scored_as(
            fans_of(t, tsumo),
            Fan::BigThreeDragons,
            count_class(all_pungs(t), TileClass::Dragon) == 3,
            1,
            88,
        ),
        scored_as(fans_of(t, tsumo), Fan::AllGreen, all_in(all_tiles(t), TileClass::Green), 1, 88),
        scored_as(fans_of(t, tsumo), Fan::FourKongs, t.kongs.len() + t.ckongs.len() == 4, 1, 88),
        scored_as(fans_of(t, tsumo), Fan::LittleFourWinds,
            count_class(all_pungs(t), TileClass::Wind) == 3 && count_class(t.hands, TileClass::Wind) == 2,
            1,
            64,
        ),
        scored_as(fans_of(t, tsumo), Fan::LittleThreeDragons,
            count_class(all_pungs(t), TileClass::Dragon) == 2 && count_class(t.hands, TileClass::Dragon) == 2,
            1,
            64,
        ),
        scored_as(fans_of(t, tsumo), Fan::AllHonors, none_in(all_tiles(t), TileClass::Suited), 1, 64),
        scored_as(fans_of(t, tsumo), Fan::FourConcealedPungs, t.cpungs.len() + t.ckongs.len() == 4, 1, 64),
        scored_as(fans_of(t, tsumo), Fan::AllTerminals,
            all_in(all_tiles(t), TileClass::Terminal) && t.chows.len() + t.cchows.len() == 0,
            1,
            64,
        ),
{
    let p = patterns_of(t);
    reveal(patterns_of);
    lemma_rule(p, tsumo, 0);
    lemma_rule(p, tsumo, 1);
    lemma_rule(p, tsumo, 2);
    lemma_rule(p, tsumo, 3);
    lemma_rule(p, tsumo, 4);
    lemma_rule(p, tsumo, 5);
    lemma_rule(p, tsumo, 6);
    lemma_rule(p, tsumo, 7);
    lemma_rule(p, tsumo, 8);
    lemma_rule(p, tsumo, 9);
}

/// The fans worth 48 down to 2: each is scored on a completed hand, once
/// and at its worth, exactly where the hand shows its pattern.  Three
/// concealed pungs is exactly three pungs or kongs never claimed.
#[verifier::spinoff_prover]
#[verifier::rlimit(60)]
pub proof fn law_fans_worth_48_to_2(t: TilesView, tsumo: bool)
    ensures
        scored_as(fans_of(t, tsumo), Fan::QuadrupleChow, some_count_is(all_chows(t), 4), 1, 48),
        scored_as(fans_of(t, tsumo), Fan::ThreeKongs, t.kongs.len() + t.ckongs.len() == 3, 1, 32),
        scored_as(fans_of(t, tsumo), Fan::AllTerminalsAndHonors,
            !thirteen_orphans(t) && !all_terminals(t) && !all_honors(t) && all_in(all_tiles(t), TileClass::Yao)
                && t.chows.len() + t.cchows.len() == 0,
            1,
            32,
        ),
        scored_as(fans_of(t, tsumo), Fan::FullFlush, single_suit(all_tiles(t)), 1, 24),
        scored_as(fans_of(t, tsumo), Fan::SevenPairs, t.hands.len() == 14 && all_counts_even(t.hands), 1, 24),
        scored_as(fans_of(t, tsumo), Fan::PureTripleChow,
            !some_count_is(all_chows(t), 4) && some_count_is(all_chows(t), 3),
            1,
            24,
        ),
        scored_as(fans_of(t, tsumo), Fan::TriplePung, rank_thrice(all_pungs(t)), 1, 16),
        scored_as(
            fans_of(t, tsumo),
            Fan::ThreeConcealedPungs,
            t.cpungs.len() + t.ckongs.len() == 3,
            1,
            16,
        ),
        scored_as(fans_of(t, tsumo), Fan::MixedTripleChow, rank_in_three_suits(all_chows(t)), 1, 8),
        scored_as(fans_of(t, tsumo), Fan::AllPungs,
            !big_four_winds(t) && t.kongs.len() + t.ckongs.len() != 4 && !all_honors(t) && t.cpungs.len()
                + t.ckongs.len() != 4 && !all_terminals(t) && !all_terminals_and_honors(t) && t.chows.len()
                + t.cchows.len() == 0 && all_pungs(t).len() > 0,
            1,
            6,
        ),
        scored_as(fans_of(t, tsumo), Fan::HalfFlush,
            !all_honors(t) && !full_flush(t) && one_suit_among_suited(all_tiles(t)),
            1,
            6,
        ),
        scored_as(fans_of(t, tsumo), Fan::AllTypes,
            !thirteen_orphans(t) && count_class(all_tiles(t), TileClass::Characters) != 0 && count_class(
                all_tiles(t),
                TileClass::Bamboo,
            ) != 0 && count_class(all_tiles(t), TileClass::Dots) != 0 && count_class(all_tiles(t), TileClass::Wind)
                != 0 && count_class(all_tiles(t), TileClass::Dragon) != 0,
            1,
            6,
        ),
        scored_as(fans_of(t, tsumo), Fan::ConcealedHand,
            !thirteen_orphans(t) && !seven_pairs(t) && t.cpungs.len() + t.ckongs.len() != 4 && t.chows.len()
                + t.pungs.len() + t.kongs.len() == 0,
            1,
            2,
        ),
        scored_as(fans_of(t, tsumo), Fan::AllSimples, none_in(all_tiles(t), TileClass::Yao), 1, 2),
        scored_as(fans_of(t, tsumo), Fan::AllChows,
            all_pungs(t).len() == 0 && t.chows.len() + t.cchows.len() > 0,
            1,
            2,
        ),
{
    let p = patterns_of(t);
    reveal(patterns_of);
    lemma_rule(p, tsumo, 10);
    lemma_rule(p, tsumo, 11);
    lemma_rule(p, tsumo, 12);
    lemma_rule(p, tsumo, 13);
    lemma_rule(p, tsumo, 14);
    lemma_rule(p, tsumo, 15);
    lemma_rule(p, tsumo, 16);
    lemma_rule(p, tsumo, 17);
    lemma_rule(p, tsumo, 18);
    lemma_rule(p, tsumo, 19);
    lemma_rule(p, tsumo, 20);
    lemma_rule(p, tsumo, 21);
    lemma_rule(p, tsumo, 22);
    lemma_rule(p, tsumo, 23);
    lemma_rule(p, tsumo, 24);
}

/// The fans that count: each dragon pung that counts on its own is worth
/// 2, each concealed kong 2, each pure double chow and mixed double chow 1,
/// each melded kong 1 (only with one or two melded kongs), and a self-drawn
/// winning tile 1; the single-wait fan is never among a completion's fans.
#[verifier::spinoff_prover]
#[verifier::rlimit(60)]
pub proof fn law_fans_that_count(t: TilesView, tsumo: bool)
    requires
        scorable(t),
    ensures
        scored_as(
            fans_of(t, tsumo),
            Fan::DragonPung,
            !big_three_dragons(t) && !little_three_dragons(t) && count_class(all_pungs(t), TileClass::Dragon) > 0,
            count_class(all_pungs(t), TileClass::Dragon) as int,
            2 * (count_class(all_pungs(t), TileClass::Dragon) as int),
        ),
        scored_as(fans_of(t, tsumo), Fan::ConcealedKong, t.ckongs.len() > 0, t.ckongs.len() as int, 2 * (t.ckongs.len() as int)),
        scored_as(fans_of(t, tsumo), Fan::SelfDrawn, tsumo, 1, 1),
        scored_as(
            fans_of(t, tsumo),
            Fan::PureDoubleChow,
            !quadruple_chow(t) && !pure_triple_chow(t) && kinds_with_count_below(all_chows(t), 2, 34) > 0,
            kinds_with_count_below(all_chows(t), 2, 34) as int,
            kinds_with_count_below(all_chows(t), 2, 34) as int,
        ),
        scored_as(
            fans_of(t, tsumo),
            Fan::MixedDoubleChow,
            !mixed_triple_chow(t) && partnered_kinds_below(all_chows(t), 34) / 2 > 0,
            partnered_kinds_below(all_chows(t), 34) as int / 2,
            partnered_kinds_below(all_chows(t), 34) as int / 2,
        ),
        scored_as(
            fans_of(t, tsumo),
            Fan::MeldedKong,
            t.kongs.len() == 1 || t.kongs.len() == 2,
            t.kongs.len() as int,
            t.kongs.len() as int,
        ),
        !has_fan(fans_of(t, tsumo), Fan::SingleWait),
{
    let p = patterns_of(t);
    reveal(patterns_of);
    lemma_count_class_extremes(all_pungs(t), TileClass::Dragon);
    lemma_kinds_bound(all_chows(t), 2, 34);
    lemma_partnered_bound(all_chows(t), 34);
    lemma_rule(p, tsumo, 25);
    lemma_rule(p, tsumo, 26);
    lemma_rule(p, tsumo, 27);
    lemma_rule(p, tsumo, 28);
    lemma_rule(p, tsumo, 29);
    lemma_rule(p, tsumo, 30);
    assert forall|j: int| 0 <= j < 31 && #[trigger] p.candidate(tsumo, j).0 implies p.candidate(tsumo, j).1.fan != Fan::SingleWait by {
        lemma_rule_of(p, tsumo, j);
    }
    lemma_selected_lacks(p, tsumo, 31, Fan::SingleWait);
}

/// The total of a score.
pub open spec fn score_total(r: (int, Seq<FanEntry>)) -> int {
    r.0
}

/// Completion `j` of `cs` has the highest total, and is the first that has it.
pub open spec fn best_among(cs: Seq<TilesView>, tsumo: bool, j: int) -> bool {
    &&& forall|k: int| 0 <= k < cs.len() ==> completion_total(#[trigger] cs[k], tsumo) <= completion_total(cs[j], tsumo)
    &&& forall|k: int| 0 <= k < j ==> completion_total(#[trigger] cs[k], tsumo) < completion_total(cs[j], tsumo)
}

} // verus!
