//! A player's tiles and the search for the ways a hand can be completed.

use vstd::prelude::*;
use vstd::multiset::Multiset;
use crate::tile::{Tile, is_tile, is_suited, rank_of, next_in_suit, is_yao, is_yao_tile, post};

verus! {

/// The tiles of one player: the concealed hand and the sets laid down.
///
/// `chows`, `pungs` and `kongs` are melds claimed from other players,
/// `ckongs` concealed kongs; `cchows` and `cpungs` are the sets that the
/// winning-hand search reads out of the concealed hand.  A chow is recorded
/// by its lowest tile, a pung or kong by its tile.
pub struct Tiles {
    pub hands: Vec<Tile>,
    pub chows: Vec<Tile>,
    pub pungs: Vec<Tile>,
    pub kongs: Vec<Tile>,
    pub ckongs: Vec<Tile>,
    pub cchows: Vec<Tile>,
    pub cpungs: Vec<Tile>,
}

/// The mathematical value of `Tiles`.
pub struct TilesView {
    pub hands: Seq<Tile>,
    pub chows: Seq<Tile>,
    pub pungs: Seq<Tile>,
    pub kongs: Seq<Tile>,
    pub ckongs: Seq<Tile>,
    pub cchows: Seq<Tile>,
    pub cpungs: Seq<Tile>,
}

impl View for Tiles {
    type V = TilesView;

    open spec fn view(&self) -> TilesView {
        TilesView {
            hands: self.hands@,
            chows: self.chows@,
            pungs: self.pungs@,
            kongs: self.kongs@,
            ckongs: self.ckongs@,
            cchows: self.cchows@,
            cpungs: self.cpungs@,
        }
    }
}

pub open spec fn all_tiles_valid(s: Seq<Tile>) -> bool {
    forall|i: int| 0 <= i < s.len() ==> is_tile(#[trigger] s[i])
}

/// The lowest tile of a chow: a suited tile of rank at most 7.
pub open spec fn is_chow_start(t: Tile) -> bool {
    is_suited(t) && rank_of(t) <= 7
}

pub open spec fn all_chow_starts(s: Seq<Tile>) -> bool {
    forall|i: int| 0 <= i < s.len() ==> is_chow_start(#[trigger] s[i])
}

impl TilesView {
    pub open spec fn wf(self) -> bool {
        &&& all_tiles_valid(self.hands)
        &&& all_chow_starts(self.chows)
        &&& all_tiles_valid(self.pungs)
        &&& all_tiles_valid(self.kongs)
        &&& all_tiles_valid(self.ckongs)
        &&& all_chow_starts(self.cchows)
        &&& all_tiles_valid(self.cpungs)
    }

    pub open spec fn with_hands(self, h: Seq<Tile>) -> TilesView {
        TilesView { hands: h, ..self }
    }
}

/// `r` comes from `t` by setting sets of the hand aside: the melds laid down
/// are the same, the hand no longer, and no more sets read out than tiles
/// the hand held.
pub open spec fn derived_from(r: TilesView, t: TilesView) -> bool {
    &&& r.chows == t.chows
    &&& r.pungs == t.pungs
    &&& r.kongs == t.kongs
    &&& r.ckongs == t.ckongs
    &&& r.hands.len() <= t.hands.len()
    &&& r.cchows.len() + r.cpungs.len() <= t.cchows.len() + t.cpungs.len() + t.hands.len()
}

pub open spec fn views(s: Seq<Tiles>) -> Seq<TilesView> {
    s.map_values(|t: Tiles| t@)
}

/// Number of occurrences of `x` in `s`.
pub open spec fn count(s: Seq<Tile>, x: Tile) -> nat
    decreases s.len(),
{
    if s.len() == 0 {
        0
    } else {
        count(s.drop_last(), x) + if s.last() == x {
            1nat
        } else {
            0nat
        }
    }
}

/// `i` is the first position of `x` in `s`.
pub open spec fn is_first_index(s: Seq<Tile>, x: Tile, i: int) -> bool {
    &&& 0 <= i < s.len()
    &&& s[i] == x
    &&& forall|j: int| 0 <= j < i ==> s[j] != x
}

pub open spec fn first_index(s: Seq<Tile>, x: Tile) -> int {
    choose|i: int| is_first_index(s, x, i)
}

/// `s` with the first occurrence of `x` taken out.
pub open spec fn remove_first(s: Seq<Tile>, x: Tile) -> Seq<Tile> {
    s.remove(first_index(s, x))
}

/// `n` copies of `x`.
pub open spec fn repeat(x: Tile, n: nat) -> Seq<Tile> {
    Seq::new(n, |i: int| x)
}

/// The tiles of `s` whose codes are below `c`, in increasing order.
pub open spec fn sorted_below(s: Seq<Tile>, c: nat) -> Seq<Tile>
    decreases c,
{
    if c == 0 {
        Seq::empty()
    } else {
        sorted_below(s, (c - 1) as nat) + repeat((c - 1) as u8, count(s, (c - 1) as u8))
    }
}

/// The number of tiles of `s` whose codes are below `c`.
pub open spec fn count_below(s: Seq<Tile>, c: nat) -> nat
    decreases s.len(),
{
    if s.len() == 0 {
        0
    } else {
        count_below(s.drop_last(), c) + if s.last() < c {
            1nat
        } else {
            0nat
        }
    }
}

proof fn lemma_count_below_step(s: Seq<Tile>, c: nat)
    requires
        c < 256,
    ensures
        count_below(s, c + 1) == count_below(s, c) + count(s, c as u8),
    decreases s.len(),
{
    if s.len() > 0 {
        lemma_count_below_step(s.drop_last(), c);
    }
}

proof fn lemma_sorted_below_len(s: Seq<Tile>, c: nat)
    requires
        c <= 256,
    ensures
        sorted_below(s, c).len() == count_below(s, c),
    decreases c,
{
    if c == 0 {
        lemma_count_below_zero(s);
    } else {
        lemma_sorted_below_len(s, (c - 1) as nat);
        lemma_count_below_step(s, (c - 1) as nat);
    }
}

proof fn lemma_count_below_zero(s: Seq<Tile>)
    ensures
        count_below(s, 0) == 0,
    decreases s.len(),
{
    if s.len() > 0 {
        lemma_count_below_zero(s.drop_last());
    }
}

proof fn lemma_count_below_all(s: Seq<Tile>)
    requires
        all_tiles_valid(s),
    ensures
        count_below(s, 34) == s.len(),
    decreases s.len(),
{
    if s.len() > 0 {
        assert(all_tiles_valid(s.drop_last()));
        lemma_count_below_all(s.drop_last());
    }
}

/// Sorting keeps the number of tiles.
pub proof fn lemma_sort_len(s: Seq<Tile>)
    requires
        all_tiles_valid(s),
    ensures
        sort_tiles(s).len() == s.len(),
{
    lemma_sorted_below_len(s, 34);
    lemma_count_below_all(s);
}

/// `s` sorted in tile order.
pub open spec fn sort_tiles(s: Seq<Tile>) -> Seq<Tile> {
    sorted_below(s, 34)
}

/// Every tile occurs an even number of times.
#[verifier::opaque]
pub open spec fn all_counts_even(s: Seq<Tile>) -> bool {
    forall|x: Tile| is_tile(x) ==> #[trigger] count(s, x) % 2 == 0
}

/// Every terminal and honour occurs at least once.
pub open spec fn has_every_yao(s: Seq<Tile>) -> bool {
    forall|x: Tile| is_yao(x) ==> #[trigger] count(s, x) > 0
}

pub open spec fn all_yao(s: Seq<Tile>) -> bool {
    forall|i: int| 0 <= i < s.len() ==> is_yao(#[trigger] s[i])
}

/// Seven pairs: fourteen tiles, each kind an even number of times.
pub open spec fn is_seven_pairs(h: Seq<Tile>) -> bool {
    h.len() == 14 && all_counts_even(h)
}

/// Thirteen orphans: fourteen terminals and honours, each of the thirteen
/// kinds among them.
pub open spec fn is_thirteen_orphans(h: Seq<Tile>) -> bool {
    h.len() == 14 && all_yao(h) && has_every_yao(h)
}

/// The special forms of a fourteen-tile hand, each as the hand itself.
pub open spec fn special_forms(t: TilesView) -> Seq<TilesView> {
    (if is_seven_pairs(t.hands) {
        seq![t]
    } else {
        Seq::empty()
    }) + (if is_thirteen_orphans(t.hands) {
        seq![t]
    } else {
        Seq::empty()
    })
}

/// All the ways the search completes the hand of `t`, in the order found.
///
/// A hand of two equal tiles is complete as it stands.  Otherwise the hand is
/// sorted and, for each distinct tile `x` in turn, the search sets aside a
/// chow starting at `x` and then a pung of `x`, where the hand holds them,
/// and completes what is left.  A fourteen-tile hand that is seven pairs or
/// thirteen orphans is complete as well, and comes first.
pub open spec fn combine_spec(t: TilesView) -> Seq<TilesView>
    decreases t.hands.len(), 1nat, 0nat,
{
    if t.hands.len() == 2 && t.hands[0] == t.hands[1] {
        seq![t]
    } else {
        let sorted = sort_tiles(t.hands);
        special_forms(t) + if sorted.len() == t.hands.len() {
            branches_spec(t.with_hands(sorted), 0)
        } else {
            Seq::empty()
        }
    }
}

/// The completions found from position `i` of the (sorted) hand on.
pub open spec fn branches_spec(t: TilesView, i: int) -> Seq<TilesView>
    decreases t.hands.len(), 0nat, t.hands.len() - i,
{
    if i < 0 || i >= t.hands.len() {
        Seq::empty()
    } else if i > 0 && t.hands[i] == t.hands[i - 1] {
        branches_spec(t, i + 1)
    } else {
        chow_branch(t, t.hands[i]) + pung_branch(t, t.hands[i]) + branches_spec(t, i + 1)
    }
}

/// The completions of `t` with a chow starting at `x` set aside, where the
/// hand holds one.
pub open spec fn chow_branch(t: TilesView, x: Tile) -> Seq<TilesView>
    decreases t.hands.len(), 0nat, 0int,
{
    match next_in_suit(x) {
        Some(x2) => match next_in_suit(x2) {
            Some(x3) => {
                let h1 = remove_first(t.hands, x);
                let h2 = remove_first(h1, x2);
                if t.hands.contains(x) && h1.contains(x2) && h2.contains(x3) {
                    let h = remove_first(h2, x3);
                    if h.len() < t.hands.len() {
                        combine_spec(TilesView { hands: h, cchows: t.cchows.push(x), ..t })
                    } else {
                        Seq::empty()
                    }
                } else {
                    Seq::empty()
                }
            },
            None => Seq::empty(),
        },
        None => Seq::empty(),
    }
}

/// The completions of `t` with a pung of `x` set aside, where the hand holds
/// three of them.
pub open spec fn pung_branch(t: TilesView, x: Tile) -> Seq<TilesView>
    decreases t.hands.len(), 0nat, 0int,
{
    if count(t.hands, x) >= 3 {
        let h = remove_first(remove_first(remove_first(t.hands, x), x), x);
        if h.len() < t.hands.len() {
            combine_spec(TilesView { hands: h, cpungs: t.cpungs.push(x), ..t })
        } else {
            Seq::empty()
        }
    } else {
        Seq::empty()
    }
}

} // verus!

verus! {

/// A tile occurs in `s` exactly when its count is positive.
pub proof fn lemma_count_contains(s: Seq<Tile>, x: Tile)
    ensures
        (count(s, x) > 0) == s.contains(x),
    decreases s.len(),
{
    if s.len() > 0 {
        lemma_count_contains(s.drop_last(), x);
        if s.drop_last().contains(x) {
            let j = choose|j: int| 0 <= j < s.drop_last().len() && s.drop_last()[j] == x;
            assert(s[j] == x);
        }
        if s.contains(x) && s.last() != x {
            let j = choose|j: int| 0 <= j < s.len() && s[j] == x;
            assert(s.drop_last()[j] == x);
        }
    }
}

proof fn lemma_first_exists(s: Seq<Tile>, x: Tile, j: int)
    requires
        0 <= j < s.len(),
        s[j] == x,
    ensures
        exists|i: int| is_first_index(s, x, i),
    decreases j,
{
    if exists|k: int| 0 <= k < j && s[k] == x {
        let k = choose|k: int| 0 <= k < j && s[k] == x;
        lemma_first_exists(s, x, k);
    } else {
        assert(is_first_index(s, x, j));
    }
}

/// Where `x` occurs, `first_index` is its first position.
pub proof fn lemma_first_index(s: Seq<Tile>, x: Tile)
    requires
        s.contains(x),
    ensures
        is_first_index(s, x, first_index(s, x)),
{
    let j = choose|j: int| 0 <= j < s.len() && s[j] == x;
    lemma_first_exists(s, x, j);
}

pub proof fn lemma_first_index_unique(s: Seq<Tile>, x: Tile, i: int)
    requires
        is_first_index(s, x, i),
    ensures
        first_index(s, x) == i,
{
    lemma_first_index(s, x);
    let f = first_index(s, x);
    if f < i {
        assert(s[f] == x);
    } else if i < f {
        assert(s[i] == x);
    }
}

/// A copy of a tile vector.
pub fn copy_tiles(v: &Vec<Tile>) -> (r: Vec<Tile>)
    ensures
        r@ == v@,
{
    let mut r: Vec<Tile> = Vec::new();
    let mut i: usize = 0;
    while i < v.len()
        invariant
            i <= v.len(),
            r@ == v@.take(i as int),
        decreases v.len() - i,
    {
        r.push(v[i]);
        i = i + 1;
        assert(r@ =~= v@.take(i as int));
    }
    assert(v@.take(v.len() as int) =~= v@);
    r
}

impl Tiles {
    /// A copy of these tiles.
    pub fn duplicate(&self) -> (r: Tiles)
        ensures
            r@ == self@,
    {
        Tiles {
            hands: copy_tiles(&self.hands),
            chows: copy_tiles(&self.chows),
            pungs: copy_tiles(&self.pungs),
            kongs: copy_tiles(&self.kongs),
            ckongs: copy_tiles(&self.ckongs),
            cchows: copy_tiles(&self.cchows),
            cpungs: copy_tiles(&self.cpungs),
        }
    }

    /// Empty tiles: nothing in hand, nothing laid down.
    pub fn empty() -> (r: Tiles)
        ensures
            r@.hands.len() == 0,
            r@.chows.len() == 0,
            r@.pungs.len() == 0,
            r@.kongs.len() == 0,
            r@.ckongs.len() == 0,
            r@.cchows.len() == 0,
            r@.cpungs.len() == 0,
            r@.wf(),
    {
        Tiles {
            hands: Vec::new(),
            chows: Vec::new(),
            pungs: Vec::new(),
            kongs: Vec::new(),
            ckongs: Vec::new(),
            cchows: Vec::new(),
            cpungs: Vec::new(),
        }
    }
}

/// The number of times `x` occurs in `v`.
pub fn count_in(v: &Vec<Tile>, x: Tile) -> (r: usize)
    ensures
        r == count(v@, x),
{
    let mut r: usize = 0;
    let mut i: usize = 0;
    while i < v.len()
        invariant
            i <= v.len(),
            r == count(v@.take(i as int), x),
            r <= i,
        decreases v.len() - i,
    {
        assert(v@.take(i + 1).drop_last() =~= v@.take(i as int));
        if v[i] == x {
            r = r + 1;
        }
        i = i + 1;
    }
    assert(v@.take(v.len() as int) =~= v@);
    r
}

/// The first position of `x` in `v`, if it occurs.
pub fn position(v: &Vec<Tile>, x: Tile) -> (r: Option<usize>)
    ensures
        r matches Some(i) ==> is_first_index(v@, x, i as int) && first_index(v@, x) == i,
        r is None <==> !v@.contains(x),
{
    let mut i: usize = 0;
    while i < v.len()
        invariant
            i <= v.len(),
            forall|j: int| 0 <= j < i ==> v@[j] != x,
        decreases v.len() - i,
    {
        if v[i] == x {
            proof {
                lemma_first_index_unique(v@, x, i as int);
            }
            return Some(i);
        }
        i = i + 1;
    }
    None
}

/// Takes the first occurrence of `x` out of `v`, where there is one.
pub fn remove_one(v: &mut Vec<Tile>, x: Tile) -> (found: bool)
    ensures
        found == old(v)@.contains(x),
        found ==> final(v)@ == remove_first(old(v)@, x),
        found ==> final(v)@.len() == old(v)@.len() - 1,
        !found ==> final(v)@ == old(v)@,
{
    match position(v, x) {
        Some(i) => {
            v.remove(i);
            true
        },
        None => false,
    }
}

/// The number of each tile kind in `v`, indexed by tile.
pub fn tile_counts(v: &Vec<Tile>) -> (r: Vec<usize>)
    requires
        all_tiles_valid(v@),
    ensures
        r.len() == 34,
        forall|c: int| 0 <= c < 34 ==> #[trigger] r@[c] == count(v@, c as u8),
{
    let mut r: Vec<usize> = Vec::new();
    let mut c: u8 = 0;
    while c < 34
        invariant
            c <= 34,
            r.len() == c,
            forall|k: int| 0 <= k < c ==> #[trigger] r@[k] == count(v@, k as u8),
            all_tiles_valid(v@),
        decreases 34 - c,
    {
        let n = count_in(v, c);
        r.push(n);
        c = c + 1;
    }
    r
}

/// `v` sorted in tile order.
pub fn sort_hand(v: &Vec<Tile>) -> (r: Vec<Tile>)
    requires
        all_tiles_valid(v@),
    ensures
        r@ == sort_tiles(v@),
        r.len() == v.len(),
{
    let counts = tile_counts(v);
    let mut r: Vec<Tile> = Vec::new();
    let mut c: u8 = 0;
    while c < 34
        invariant
            c <= 34,
            counts.len() == 34,
            forall|k: int| 0 <= k < 34 ==> #[trigger] counts@[k] == count(v@, k as u8),
            r@ == sorted_below(v@, c as nat),
        decreases 34 - c,
    {
        let n = counts[c as usize];
        let mut k: usize = 0;
        while k < n
            invariant
                k <= n,
                n == count(v@, c),
                c < 34,
                r@ == sorted_below(v@, c as nat) + repeat(c, k as nat),
            decreases n - k,
        {
            r.push(c);
            k = k + 1;
            assert(r@ =~= sorted_below(v@, c as nat) + repeat(c, k as nat));
        }
        assert(sorted_below(v@, (c + 1) as nat) =~= sorted_below(v@, c as nat) + repeat(c, n as nat));
        c = c + 1;
    }
    proof {
        lemma_sort_len(v@);
    }
    r
}

} // verus!

verus! {

pub proof fn lemma_count_le_len(s: Seq<Tile>, x: Tile)
    ensures
        count(s, x) <= s.len(),
    decreases s.len(),
{
    if s.len() > 0 {
        lemma_count_le_len(s.drop_last(), x);
    }
}

/// Counting is additive over concatenation.
pub proof fn lemma_count_concat(a: Seq<Tile>, b: Seq<Tile>, x: Tile)
    ensures
        count(a + b, x) == count(a, x) + count(b, x),
    decreases b.len(),
{
    if b.len() == 0 {
        assert(a + b =~= a);
    } else {
        lemma_count_concat(a, b.drop_last(), x);
        assert((a + b).drop_last() =~= a + b.drop_last());
    }
}

pub fn counts_all_even(counts: &Vec<usize>, Ghost(h): Ghost<Seq<Tile>>) -> (r: bool)
    requires
        counts.len() == 34,
        forall|c: int| 0 <= c < 34 ==> #[trigger] counts@[c] == count(h, c as u8),
    ensures
        r == all_counts_even(h),
{
    proof {
        reveal(all_counts_even);
    }
    let mut c: usize = 0;
    while c < 34
        invariant
            c <= 34,
            counts.len() == 34,
            forall|k: int| 0 <= k < 34 ==> #[trigger] counts@[k] == count(h, k as u8),
            forall|k: Tile| k < c ==> #[trigger] count(h, k) % 2 == 0,
        decreases 34 - c,
    {
        proof {
            reveal(all_counts_even);
        }
        if counts[c] % 2 != 0 {
            assert(count(h, c as u8) % 2 != 0);
            return false;
        }
        c = c + 1;
    }
    true
}

/// Whether every terminal and honour occurs in the hand counted by `counts`.
pub fn every_yao_present(counts: &Vec<usize>, Ghost(h): Ghost<Seq<Tile>>) -> (r: bool)
    requires
        counts.len() == 34,
        forall|c: int| 0 <= c < 34 ==> #[trigger] counts@[c] == count(h, c as u8),
    ensures
        r == has_every_yao(h),
{
    let mut c: usize = 0;
    while c < 34
        invariant
            c <= 34,
            counts.len() == 34,
            forall|k: int| 0 <= k < 34 ==> #[trigger] counts@[k] == count(h, k as u8),
            forall|x: Tile| x < c && is_yao(x) ==> #[trigger] count(h, x) > 0,
        decreases 34 - c,
    {
        if is_yao_tile(c as u8) && counts[c] == 0 {
            assert(count(h, c as u8) == 0);
            return false;
        }
        c = c + 1;
    }
    assert forall|x: Tile| is_yao(x) implies #[trigger] count(h, x) > 0 by {
        assert(x < 34);
    }
    true
}

pub fn all_yao_tiles(v: &Vec<Tile>) -> (r: bool)
    requires
        all_tiles_valid(v@),
    ensures
        r == all_yao(v@),
{
    let mut i: usize = 0;
    while i < v.len()
        invariant
            i <= v.len(),
            all_tiles_valid(v@),
            forall|j: int| 0 <= j < i ==> is_yao(#[trigger] v@[j]),
        decreases v.len() - i,
    {
        if !is_yao_tile(v[i]) {
            return false;
        }
        i = i + 1;
    }
    true
}

/// The ways the search completes a hand, each
/// with the sets it read out of the hand added to `cchows` and `cpungs`.
#[verifier::spinoff_prover]
pub fn combine(t: &Tiles) -> (r: Vec<Tiles>)
    requires
        t@.wf(),
    ensures
        views(r@) == combine_spec(t@),
        forall|i: int| 0 <= i < r.len() ==> (#[trigger] r@[i])@.wf(),
        forall|i: int| 0 <= i < r.len() ==> derived_from((#[trigger] r@[i])@, t@),
    decreases t.hands.len(), 1nat,
{
    let mut v: Vec<Tiles> = Vec::new();
    if t.hands.len() == 2 && t.hands[0] == t.hands[1] {
        v.push(t.duplicate());
        assert(views(v@) =~= seq![t@]);
        return v;
    }
    if t.hands.len() == 14 {
        let counts = tile_counts(&t.hands);
        if counts_all_even(&counts, Ghost(t@.hands)) {
            v.push(t.duplicate());
        }
        if all_yao_tiles(&t.hands) && every_yao_present(&counts, Ghost(t@.hands)) {
            v.push(t.duplicate());
        }
    }
    assert(views(v@) =~= special_forms(t@));
    let mut sorted = t.duplicate();
    sorted.hands = sort_hand(&t.hands);
    proof {
        lemma_sort_len(t@.hands);
        lemma_sorted_valid(t@.hands);
    }
    let n = sorted.hands.len();
    let ghost goal = combine_spec(t@);
    assert(goal == views(v@) + branches_spec(sorted@, 0));
    let mut i: usize = 0;
    while i < n
        invariant
            n == sorted.hands.len(),
            n == t.hands.len(),
            i <= n,
            sorted@ == t@.with_hands(sort_tiles(t@.hands)),
            sorted@.wf(),
            goal == combine_spec(t@),
            views(v@) + branches_spec(sorted@, i as int) == goal,
            forall|j: int| 0 <= j < v.len() ==> (#[trigger] v@[j])@.wf(),
            forall|j: int| 0 <= j < v.len() ==> derived_from((#[trigger] v@[j])@, t@),
        decreases n - i,
    {
        let x = sorted.hands[i];
        let ghost before = v@;
        if i == 0 || x != sorted.hands[i - 1] {
            let mut rs = chow_completions(&sorted, x);
            assert(views(v@ + rs@) =~= views(v@) + views(rs@));
            v.append(&mut rs);
            let mut rs = pung_completions(&sorted, x);
            assert(views(v@ + rs@) =~= views(v@) + views(rs@));
            v.append(&mut rs);
        }
        assert(views(v@) + branches_spec(sorted@, i + 1) =~= views(before) + branches_spec(
            sorted@,
            i as int,
        ));
        i = i + 1;
    }
    v
}

/// The completions with a chow starting at `x` set aside.
fn chow_completions(t: &Tiles, x: Tile) -> (r: Vec<Tiles>)
    requires
        t@.wf(),
        is_tile(x),
    ensures
        views(r@) == chow_branch(t@, x),
        forall|i: int| 0 <= i < r.len() ==> (#[trigger] r@[i])@.wf(),
        forall|i: int| 0 <= i < r.len() ==> derived_from((#[trigger] r@[i])@, t@),
    decreases t.hands.len(), 0nat,
{
    match post(x) {
        Some(x2) => match post(x2) {
            Some(x3) => {
                let mut h = t.duplicate();
                if remove_one(&mut h.hands, x) {
                    proof {
                        lemma_remove_first_valid(t@.hands, x);
                    }
                    if remove_one(&mut h.hands, x2) {
                        proof {
                            lemma_remove_first_valid(remove_first(t@.hands, x), x2);
                        }
                        if remove_one(&mut h.hands, x3) {
                            proof {
                                lemma_remove_first_valid(
                                    remove_first(remove_first(t@.hands, x), x2),
                                    x3,
                                );
                            }
                            h.cchows.push(x);
                            assert(h@ == (TilesView {
                                hands: h@.hands,
                                cchows: t@.cchows.push(x),
                                ..t@
                            }));
                            return combine(&h);
                        }
                    }
                }
                Vec::new()
            },
            None => Vec::new(),
        },
        None => Vec::new(),
    }
}

/// The completions with a pung of `x` set aside.
fn pung_completions(t: &Tiles, x: Tile) -> (r: Vec<Tiles>)
    requires
        t@.wf(),
        is_tile(x),
    ensures
        views(r@) == pung_branch(t@, x),
        forall|i: int| 0 <= i < r.len() ==> (#[trigger] r@[i])@.wf(),
        forall|i: int| 0 <= i < r.len() ==> derived_from((#[trigger] r@[i])@, t@),
    decreases t.hands.len(), 0nat,
{
    if count_in(&t.hands, x) >= 3 {
        let mut h = t.duplicate();
        proof {
            lemma_remove_three(t@.hands, x);
        }
        remove_one(&mut h.hands, x);
        remove_one(&mut h.hands, x);
        remove_one(&mut h.hands, x);
        h.cpungs.push(x);
        assert(h@ == (TilesView { hands: h@.hands, cpungs: t@.cpungs.push(x), ..t@ }));
        combine(&h)
    } else {
        Vec::new()
    }
}

proof fn lemma_remove_three(s: Seq<Tile>, x: Tile)
    requires
        all_tiles_valid(s),
        count(s, x) >= 3,
    ensures
        s.contains(x),
        remove_first(s, x).contains(x),
        remove_first(remove_first(s, x), x).contains(x),
        all_tiles_valid(remove_first(remove_first(remove_first(s, x), x), x)),
{
    let s1 = remove_first(s, x);
    let s2 = remove_first(s1, x);
    lemma_count_contains(s, x);
    lemma_count_remove_first(s, x);
    lemma_count_contains(s1, x);
    lemma_count_remove_first(s1, x);
    lemma_count_contains(s2, x);
    lemma_remove_first_valid(s, x);
    lemma_remove_first_valid(s1, x);
    lemma_remove_first_valid(s2, x);
}

proof fn lemma_remove_first_valid(s: Seq<Tile>, x: Tile)
    requires
        all_tiles_valid(s),
        s.contains(x),
    ensures
        all_tiles_valid(remove_first(s, x)),
{
    lemma_first_index(s, x);
    let p = first_index(s, x);
    let r = remove_first(s, x);
    assert forall|j: int| 0 <= j < r.len() implies is_tile(#[trigger] r[j]) by {
        assert(r[j] == s[if j < p {
            j
        } else {
            j + 1
        }]);
    }
}

proof fn lemma_sorted_below_valid(s: Seq<Tile>, c: nat)
    requires
        c <= 34,
    ensures
        forall|j: int| 0 <= j < sorted_below(s, c).len() ==> #[trigger] sorted_below(s, c)[j] < c,
    decreases c,
{
    if c > 0 {
        lemma_sorted_below_valid(s, (c - 1) as nat);
        let a = sorted_below(s, (c - 1) as nat);
        let b = repeat((c - 1) as u8, count(s, (c - 1) as u8));
        assert(sorted_below(s, c) == a + b);
        assert forall|j: int| 0 <= j < sorted_below(s, c).len() implies #[trigger] sorted_below(
            s,
            c,
        )[j] < c by {
            if j < a.len() {
                assert(sorted_below(s, c)[j] == a[j]);
            } else {
                assert(sorted_below(s, c)[j] == b[j - a.len()]);
            }
        }
    }
}

/// Sorting yields tiles.
pub proof fn lemma_sorted_valid(s: Seq<Tile>)
    ensures
        all_tiles_valid(sort_tiles(s)),
{
    lemma_sorted_below_valid(s, 34);
}

} // verus!

verus! {

/// The count of a sequence is its multiset's count.
pub proof fn lemma_count_multiset(s: Seq<Tile>, x: Tile)
    ensures
        count(s, x) == s.to_multiset().count(x),
    decreases s.len(),
{
    broadcast use vstd::seq_lib::group_to_multiset_ensures;

    if s.len() == 0 {
        assert(s.to_multiset() =~= Multiset::empty());
    } else {
        lemma_count_multiset(s.drop_last(), x);
        assert(s =~= s.drop_last().push(s.last()));
    }
}

/// Taking out the first `x` lowers its count by one and leaves others.
pub proof fn lemma_count_remove_first(s: Seq<Tile>, x: Tile)
    requires
        s.contains(x),
    ensures
        remove_first(s, x).to_multiset() == s.to_multiset().remove(x),
        count(remove_first(s, x), x) == count(s, x) - 1,
        forall|y: Tile| y != x ==> count(remove_first(s, x), y) == count(s, y),
{
    broadcast use vstd::seq_lib::group_to_multiset_ensures;

    lemma_first_index(s, x);
    let p = first_index(s, x);
    assert(remove_first(s, x).to_multiset() == s.to_multiset().remove(s[p]));
    lemma_count_multiset(s, x);
    lemma_count_multiset(remove_first(s, x), x);
    lemma_count_contains(s, x);
    assert forall|y: Tile| y != x implies count(remove_first(s, x), y) == count(s, y) by {
        lemma_count_multiset(s, y);
        lemma_count_multiset(remove_first(s, x), y);
    }
}

} // verus!

verus! {

/// A set: a chow (`true`) starting at a tile, or a pung (`false`) of a tile.
pub type Meld = (bool, Tile);

pub open spec fn meld_valid(m: Meld) -> bool {
    if m.0 {
        is_chow_start(m.1)
    } else {
        is_tile(m.1)
    }
}

/// The three tiles of a set.
pub open spec fn meld_tiles(m: Meld) -> Multiset<Tile> {
    if m.0 {
        Multiset::empty().insert(m.1).insert((m.1 + 1) as u8).insert((m.1 + 2) as u8)
    } else {
        Multiset::empty().insert(m.1).insert(m.1).insert(m.1)
    }
}

/// The tiles of a list of sets.
pub open spec fn melds_tiles(ms: Seq<Meld>) -> Multiset<Tile>
    decreases ms.len(),
{
    if ms.len() == 0 {
        Multiset::empty()
    } else {
        meld_tiles(ms[0]).add(melds_tiles(ms.drop_first()))
    }
}

/// `h` is made of the sets `ms` and a pair of `pair`: a standard winning hand.
pub open spec fn is_standard_hand(h: Seq<Tile>, ms: Seq<Meld>, pair: Tile) -> bool {
    &&& is_tile(pair)
    &&& forall|i: int| 0 <= i < ms.len() ==> meld_valid(#[trigger] ms[i])
    &&& h.to_multiset() == melds_tiles(ms).insert(pair).insert(pair)
}

/// Sorting keeps the tiles.
pub proof fn lemma_sort_multiset(s: Seq<Tile>)
    requires
        all_tiles_valid(s),
    ensures
        sort_tiles(s).to_multiset() == s.to_multiset(),
{
    assert forall|x: Tile| #[trigger] sort_tiles(s).to_multiset().count(x) == s.to_multiset().count(x) by {
        lemma_count_multiset(sort_tiles(s), x);
        lemma_count_multiset(s, x);
        lemma_count_sorted_below(s, x, 34);
        if !is_tile(x) {
            lemma_count_contains(s, x);
            if s.contains(x) {
                let j = choose|j: int| 0 <= j < s.len() && s[j] == x;
                assert(is_tile(s[j]));
            }
        }
    }
    assert(sort_tiles(s).to_multiset() =~= s.to_multiset());
}

proof fn lemma_count_repeat(x: Tile, n: nat, y: Tile)
    ensures
        count(repeat(x, n), y) == if x == y {
            n
        } else {
            0
        },
    decreases n,
{
    if n > 0 {
        lemma_count_repeat(x, (n - 1) as nat, y);
        assert(repeat(x, n).drop_last() =~= repeat(x, (n - 1) as nat));
    }
}

proof fn lemma_count_sorted_below(s: Seq<Tile>, x: Tile, c: nat)
    requires
        c <= 256,
    ensures
        count(sorted_below(s, c), x) == if x < c {
            count(s, x)
        } else {
            0
        },
    decreases c,
{
    if c == 0 {
    } else {
        lemma_count_sorted_below(s, x, (c - 1) as nat);
        lemma_count_concat(
            sorted_below(s, (c - 1) as nat),
            repeat((c - 1) as u8, count(s, (c - 1) as u8)),
            x,
        );
        lemma_count_repeat((c - 1) as u8, count(s, (c - 1) as u8), x);
    }
}

/// Branches past position `i` of a hand that is not empty at a position
/// `j` where a new tile starts make the whole search non-empty.
proof fn lemma_branches_nonempty(t: TilesView, i: int, j: int)
    requires
        0 <= i <= j < t.hands.len(),
        j == 0 || t.hands[j] != t.hands[j - 1],
        chow_branch(t, t.hands[j]).len() + pung_branch(t, t.hands[j]).len() > 0,
    ensures
        branches_spec(t, i).len() > 0,
    decreases j - i,
{
    if i < j {
        lemma_branches_nonempty(t, i + 1, j);
    }
}

/// A standard winning hand is found by the search: every hand made of sets
/// and a pair has at least one completion.
#[verifier::rlimit(50)]
#[verifier::spinoff_prover]
pub proof fn lemma_combine_complete(t: TilesView, ms: Seq<Meld>, pair: Tile)
    requires
        t.wf(),
        is_standard_hand(t.hands, ms, pair),
    ensures
        combine_spec(t).len() > 0,
    decreases ms.len(),
{
    broadcast use vstd::seq_lib::group_to_multiset_ensures;

    let h = t.hands;
    if h.len() == 2 && h[0] == h[1] {
        return;
    }
    if ms.len() == 0 {
        assert(h.to_multiset().len() == 2);
        assert(h.to_multiset().count(pair) == 2);
        assert(h.len() == 2);
        lemma_count_multiset(h, pair);
        assert(h.to_multiset().contains(h[0]));
        assert(h.to_multiset().contains(h[1]));
        assert(false);
    } else {
        let m = ms[0];
        let rest = ms.drop_first();
        let x = m.1;
        assert(meld_valid(ms[0]));
        let s = sort_tiles(h);
        lemma_sort_len(h);
        lemma_sorted_valid(h);
        lemma_sort_multiset(h);
        let st = t.with_hands(s);
        assert(melds_tiles(ms) == meld_tiles(m).add(melds_tiles(rest)));
        lemma_count_multiset(s, x);
        assert(s.to_multiset().count(x) >= 1);
        lemma_count_contains(s, x);
        lemma_first_index(s, x);
        let j = first_index(s, x);
        if m.0 {
            let x2 = (x + 1) as u8;
            let x3 = (x + 2) as u8;
            let h1 = remove_first(s, x);
            lemma_count_remove_first(s, x);
            lemma_count_multiset(s, x2);
            lemma_count_multiset(h1, x2);
            lemma_count_contains(h1, x2);
            let h2 = remove_first(h1, x2);
            lemma_count_remove_first(h1, x2);
            lemma_count_multiset(s, x3);
            lemma_count_multiset(h2, x3);
            lemma_count_contains(h2, x3);
            let h3 = remove_first(h2, x3);
            lemma_count_remove_first(h2, x3);
            lemma_remove_first_valid(s, x);
            lemma_remove_first_valid(h1, x2);
            lemma_remove_first_valid(h2, x3);
            lemma_first_index(s, x);
            lemma_first_index(h1, x2);
            lemma_first_index(h2, x3);
            assert(h3.len() == s.len() - 3);
            assert(next_in_suit(x) == Some(x2));
            assert(next_in_suit(x2) == Some(x3));
            let nt = TilesView { hands: h3, cchows: st.cchows.push(x), ..st };
            assert(h3.to_multiset() =~= melds_tiles(rest).insert(pair).insert(pair));
            assert forall|i: int| 0 <= i < rest.len() implies meld_valid(#[trigger] rest[i]) by {
                assert(rest[i] == ms[i + 1]);
            }
            assert(nt.wf()) by {
                assert forall|i: int| 0 <= i < nt.cchows.len() implies is_chow_start(
                    #[trigger] nt.cchows[i],
                ) by {
                    if i < st.cchows.len() {
                        assert(nt.cchows[i] == st.cchows[i]);
                    }
                }
            }
            lemma_combine_complete(nt, rest, pair);
            assert(chow_branch(st, x) == combine_spec(nt));
        } else {
            let h1 = remove_first(s, x);
            lemma_count_remove_first(s, x);
            lemma_count_contains(h1, x);
            let h2 = remove_first(h1, x);
            lemma_count_remove_first(h1, x);
            lemma_count_contains(h2, x);
            let h3 = remove_first(h2, x);
            lemma_count_remove_first(h2, x);
            lemma_count_multiset(h1, x);
            lemma_count_multiset(h2, x);
            lemma_remove_first_valid(s, x);
            lemma_remove_first_valid(h1, x);
            lemma_remove_first_valid(h2, x);
            lemma_first_index(s, x);
            lemma_first_index(h1, x);
            lemma_first_index(h2, x);
            assert(h3.len() == s.len() - 3);
            let nt = TilesView { hands: h3, cpungs: st.cpungs.push(x), ..st };
            assert(h3.to_multiset() =~= melds_tiles(rest).insert(pair).insert(pair));
            assert forall|i: int| 0 <= i < rest.len() implies meld_valid(#[trigger] rest[i]) by {
                assert(rest[i] == ms[i + 1]);
            }
            assert(nt.wf()) by {
                assert forall|i: int| 0 <= i < nt.cpungs.len() implies is_tile(
                    #[trigger] nt.cpungs[i],
                ) by {
                    if i < st.cpungs.len() {
                        assert(nt.cpungs[i] == st.cpungs[i]);
                    }
                }
            }
            lemma_combine_complete(nt, rest, pair);
            assert(pung_branch(st, x) == combine_spec(nt));
        }
        lemma_branches_nonempty(st, 0, j);
    }
}

} // verus!

verus! {

/// The tiles of chows recorded by their lowest tiles.
pub open spec fn chow_tiles(s: Seq<Tile>) -> Multiset<Tile>
    decreases s.len(),
{
    if s.len() == 0 {
        Multiset::empty()
    } else {
        meld_tiles((true, s[0])).add(chow_tiles(s.drop_first()))
    }
}

/// The tiles of pungs recorded by their tile.
pub open spec fn pung_tiles(s: Seq<Tile>) -> Multiset<Tile>
    decreases s.len(),
{
    if s.len() == 0 {
        Multiset::empty()
    } else {
        meld_tiles((false, s[0])).add(pung_tiles(s.drop_first()))
    }
}

/// `r` is a completion of `t`: the melds laid down are untouched, the sets
/// read out are appended to `cchows` and `cpungs`, the remaining hand and
/// those sets hold exactly the tiles of the hand of `t`, and what remains is
/// a pair, seven pairs or thirteen orphans; all of it well formed.
pub open spec fn is_completion_of(r: TilesView, t: TilesView) -> bool {
    &&& r.chows == t.chows
    &&& r.pungs == t.pungs
    &&& r.kongs == t.kongs
    &&& r.ckongs == t.ckongs
    &&& t.cchows.len() <= r.cchows.len()
    &&& r.cchows.take(t.cchows.len() as int) == t.cchows
    &&& t.cpungs.len() <= r.cpungs.len()
    &&& r.cpungs.take(t.cpungs.len() as int) == t.cpungs
    &&& t.hands.to_multiset() == r.hands.to_multiset().add(
        chow_tiles(r.cchows.skip(t.cchows.len() as int)),
    ).add(pung_tiles(r.cpungs.skip(t.cpungs.len() as int)))
    &&& (r.hands.len() == 2 && r.hands[0] == r.hands[1]) || is_seven_pairs(r.hands)
        || is_thirteen_orphans(r.hands)
    &&& r.wf()
}

proof fn lemma_completion_step(r: TilesView, nt: TilesView, t: TilesView, m: Meld)
    requires
        is_completion_of(r, nt),
        nt.chows == t.chows,
        nt.pungs == t.pungs,
        nt.kongs == t.kongs,
        nt.ckongs == t.ckongs,
        m.0 ==> nt.cchows == t.cchows.push(m.1) && nt.cpungs == t.cpungs,
        !m.0 ==> nt.cpungs == t.cpungs.push(m.1) && nt.cchows == t.cchows,
        t.hands.to_multiset() == nt.hands.to_multiset().add(meld_tiles(m)),
    ensures
        is_completion_of(r, t),
{
    let a = t.cchows.len() as int;
    let b = t.cpungs.len() as int;
    if m.0 {
        assert(r.cchows.take(a) =~= r.cchows.take(a + 1).take(a));
        assert(r.cchows[a] == m.1) by {
            assert(r.cchows.take(a + 1)[a] == nt.cchows[a]);
        }
        assert(r.cchows.skip(a).drop_first() =~= r.cchows.skip(a + 1));
        assert(chow_tiles(r.cchows.skip(a)) == meld_tiles(m).add(chow_tiles(r.cchows.skip(a + 1))));
    } else {
        assert(r.cpungs.take(b) =~= r.cpungs.take(b + 1).take(b));
        assert(r.cpungs[b] == m.1) by {
            assert(r.cpungs.take(b + 1)[b] == nt.cpungs[b]);
        }
        assert(r.cpungs.skip(b).drop_first() =~= r.cpungs.skip(b + 1));
        assert(pung_tiles(r.cpungs.skip(b)) == meld_tiles(m).add(pung_tiles(r.cpungs.skip(b + 1))));
    }
    if m.0 {
        assert(r.cpungs.skip(b) == r.cpungs.skip(nt.cpungs.len() as int));
        assert(t.hands.to_multiset() =~= r.hands.to_multiset().add(chow_tiles(r.cchows.skip(a))).add(
            pung_tiles(r.cpungs.skip(b)),
        ));
    } else {
        assert(r.cchows.skip(a) == r.cchows.skip(nt.cchows.len() as int));
        assert(t.hands.to_multiset() =~= r.hands.to_multiset().add(chow_tiles(r.cchows.skip(a))).add(
            pung_tiles(r.cpungs.skip(b)),
        ));
    }
    assert(t.cchows.len() <= r.cchows.len());
    assert(r.cchows.take(a) == t.cchows);
    assert(t.cpungs.len() <= r.cpungs.len());
    assert(r.cpungs.take(b) == t.cpungs);
}

/// Every completion the search finds is a completion of the hand: it uses
/// exactly the hand's tiles, leaves the melds laid down untouched, and ends
/// in a pair or a special form.
#[verifier::spinoff_prover]
pub proof fn lemma_combine_sound(t: TilesView, k: int)
    requires
        t.wf(),
        0 <= k < combine_spec(t).len(),
    ensures
        is_completion_of(combine_spec(t)[k], t),
    decreases t.hands.len(), 1nat, 0int,
{
    broadcast use vstd::seq_lib::group_to_multiset_ensures;

    let h = t.hands;
    let r = combine_spec(t)[k];
    assert(t.cchows.take(t.cchows.len() as int) =~= t.cchows);
    assert(t.cpungs.take(t.cpungs.len() as int) =~= t.cpungs);
    assert(t.cchows.skip(t.cchows.len() as int) =~= Seq::<Tile>::empty());
    assert(t.cpungs.skip(t.cpungs.len() as int) =~= Seq::<Tile>::empty());
    assert(t.hands.to_multiset() =~= t.hands.to_multiset().add(chow_tiles(Seq::empty())).add(
        pung_tiles(Seq::empty()),
    ));
    if h.len() == 2 && h[0] == h[1] {
        assert(r == t);
    } else {
        let sp = special_forms(t);
        let s = sort_tiles(h);
        lemma_sort_len(h);
        if k < sp.len() {
            assert(r == t);
        } else {
            lemma_sorted_valid(h);
            lemma_sort_multiset(h);
            let st = t.with_hands(s);
            lemma_branches_sound(st, 0, t, k - sp.len());
        }
    }
}

proof fn lemma_branches_sound(st: TilesView, i: int, t: TilesView, k: int)
    requires
        t.wf(),
        st == t.with_hands(st.hands),
        all_tiles_valid(st.hands),
        st.hands.to_multiset() == t.hands.to_multiset(),
        0 <= i,
        0 <= k < branches_spec(st, i).len(),
    ensures
        is_completion_of(branches_spec(st, i)[k], t),
    decreases st.hands.len(), 0nat, st.hands.len() - i,
{
    broadcast use vstd::seq_lib::group_to_multiset_ensures;

    if i >= st.hands.len() {
    } else if i > 0 && st.hands[i] == st.hands[i - 1] {
        lemma_branches_sound(st, i + 1, t, k);
    } else {
        let x = st.hands[i];
        let cb = chow_branch(st, x);
        let pb = pung_branch(st, x);
        let rest = branches_spec(st, i + 1);
        assert(branches_spec(st, i) == cb + pb + rest);
        if k < cb.len() {
            let x2 = next_in_suit(x)->0;
            let x3 = next_in_suit(x2)->0;
            let h1 = remove_first(st.hands, x);
            let h2 = remove_first(h1, x2);
            let h3 = remove_first(h2, x3);
            lemma_count_remove_first(st.hands, x);
            lemma_count_remove_first(h1, x2);
            lemma_count_remove_first(h2, x3);
            lemma_remove_first_valid(st.hands, x);
            lemma_remove_first_valid(h1, x2);
            lemma_remove_first_valid(h2, x3);
            let nt = TilesView { hands: h3, cchows: st.cchows.push(x), ..st };
            assert(nt.wf()) by {
                assert forall|j: int| 0 <= j < nt.cchows.len() implies is_chow_start(
                    #[trigger] nt.cchows[j],
                ) by {
                    if j < st.cchows.len() {
                        assert(nt.cchows[j] == st.cchows[j]);
                    }
                }
            }
            assert(cb == combine_spec(nt));
            lemma_combine_sound(nt, k);
            assert(t.hands.to_multiset() =~= nt.hands.to_multiset().add(meld_tiles((true, x))));
            lemma_completion_step(cb[k], nt, t, (true, x));
            assert(branches_spec(st, i)[k] == cb[k]);
        } else if k < cb.len() + pb.len() {
            let h1 = remove_first(st.hands, x);
            let h2 = remove_first(h1, x);
            let h3 = remove_first(h2, x);
            lemma_count_contains(st.hands, x);
            lemma_count_remove_first(st.hands, x);
            lemma_count_contains(h1, x);
            lemma_count_remove_first(h1, x);
            lemma_count_contains(h2, x);
            lemma_count_remove_first(h2, x);
            lemma_remove_first_valid(st.hands, x);
            lemma_remove_first_valid(h1, x);
            lemma_remove_first_valid(h2, x);
            let nt = TilesView { hands: h3, cpungs: st.cpungs.push(x), ..st };
            assert(nt.wf()) by {
                assert forall|j: int| 0 <= j < nt.cpungs.len() implies is_tile(
                    #[trigger] nt.cpungs[j],
                ) by {
                    if j < st.cpungs.len() {
                        assert(nt.cpungs[j] == st.cpungs[j]);
                    }
                }
            }
            assert(pb == combine_spec(nt));
            lemma_combine_sound(nt, k - cb.len());
            assert(t.hands.to_multiset() =~= nt.hands.to_multiset().add(meld_tiles((false, x))));
            lemma_completion_step(pb[k - cb.len()], nt, t, (false, x));
            assert(branches_spec(st, i)[k] == pb[k - cb.len()]);
        } else {
            lemma_branches_sound(st, i + 1, t, k - cb.len() - pb.len());
            assert(branches_spec(st, i)[k] == rest[k - cb.len() - pb.len()]);
        }
    }
}

} // verus!

verus! {

/// Three copies of `x` can be taken out of a hand that holds three, leaving
/// tiles.
pub proof fn lemma_remove_three_pub(s: Seq<Tile>, x: Tile)
    requires
        all_tiles_valid(s),
        count(s, x) >= 3,
    ensures
        s.contains(x),
        remove_first(s, x).contains(x),
        remove_first(remove_first(s, x), x).contains(x),
        all_tiles_valid(remove_first(remove_first(remove_first(s, x), x), x)),
        remove_first(remove_first(remove_first(s, x), x), x).len() == s.len() - 3,
{
    lemma_remove_three(s, x);
    lemma_first_index(s, x);
    lemma_first_index(remove_first(s, x), x);
    lemma_first_index(remove_first(remove_first(s, x), x), x);
}

/// Two copies of `x` can be taken out of a hand that holds two, leaving
/// tiles.
pub proof fn lemma_remove_two_pub(s: Seq<Tile>, x: Tile)
    requires
        all_tiles_valid(s),
        count(s, x) >= 2,
    ensures
        s.contains(x),
        remove_first(s, x).contains(x),
        all_tiles_valid(remove_first(remove_first(s, x), x)),
        remove_first(remove_first(s, x), x).len() == s.len() - 2,
{
    let s1 = remove_first(s, x);
    lemma_count_contains(s, x);
    lemma_count_remove_first(s, x);
    lemma_count_contains(s1, x);
    lemma_remove_first_valid(s, x);
    lemma_remove_first_valid(s1, x);
    lemma_first_index(s, x);
    lemma_first_index(s1, x);
}

} // verus!

verus! {

/// Taking out a tile the hand holds leaves tiles, one fewer.
pub proof fn lemma_remove_first_valid_pub(s: Seq<Tile>, x: Tile)
    requires
        all_tiles_valid(s),
        s.contains(x),
    ensures
        all_tiles_valid(remove_first(s, x)),
        remove_first(s, x).len() == s.len() - 1,
{
    lemma_remove_first_valid(s, x);
    lemma_first_index(s, x);
}

/// A hand of seven pairs or thirteen orphans is completed first as the
/// hand itself.
pub proof fn law_special_form_is_the_hand(t: TilesView)
    requires
        is_seven_pairs(t.hands) || is_thirteen_orphans(t.hands),
    ensures
        combine_spec(t).len() > 0,
        combine_spec(t)[0] == t,
{
    let sorted = sort_tiles(t.hands);
    let rest = if sorted.len() == t.hands.len() {
        branches_spec(t.with_hands(sorted), 0)
    } else {
        Seq::empty()
    };
    assert(combine_spec(t) == special_forms(t) + rest);
    assert(special_forms(t)[0] == t);
}

/// `r`'s hand is a pair.
pub open spec fn pair_form(r: TilesView) -> bool {
    r.hands.len() == 2 && r.hands[0] == r.hands[1]
}

/// Of a hand of at most fourteen tiles, every completion the search finds
/// ends in a pair, or is the hand itself, as it stands, where that is seven
/// pairs or thirteen orphans.
pub proof fn law_completion_forms(t: TilesView, k: int)
    requires
        t.hands.len() <= 14,
        0 <= k < combine_spec(t).len(),
    ensures
        pair_form(combine_spec(t)[k]) || (combine_spec(t)[k] == t && (is_seven_pairs(t.hands)
            || is_thirteen_orphans(t.hands))),
    decreases t.hands.len(), 1nat, 0int,
{
    let h = t.hands;
    if h.len() == 2 && h[0] == h[1] {
    } else {
        let sp = special_forms(t);
        let sorted = sort_tiles(h);
        let rest = if sorted.len() == h.len() {
            branches_spec(t.with_hands(sorted), 0)
        } else {
            Seq::empty()
        };
        assert(combine_spec(t) == sp + rest);
        if k < sp.len() {
            assert(combine_spec(t)[k] == sp[k]);
        } else {
            assert(combine_spec(t)[k] == rest[k - sp.len()]);
            lemma_branch_forms(t.with_hands(sorted), 0, k - sp.len());
        }
    }
}

proof fn lemma_branch_forms(st: TilesView, i: int, k: int)
    requires
        st.hands.len() <= 14,
        0 <= i,
        0 <= k < branches_spec(st, i).len(),
    ensures
        pair_form(branches_spec(st, i)[k]),
    decreases st.hands.len(), 0nat, st.hands.len() - i,
{
    if i >= st.hands.len() {
    } else if i > 0 && st.hands[i] == st.hands[i - 1] {
        lemma_branch_forms(st, i + 1, k);
    } else {
        let x = st.hands[i];
        let cb = chow_branch(st, x);
        let pb = pung_branch(st, x);
        let rest = branches_spec(st, i + 1);
        assert(branches_spec(st, i) == cb + pb + rest);
        if k < cb.len() {
            assert(branches_spec(st, i)[k] == cb[k]);
            let x2 = next_in_suit(x)->0;
            let x3 = next_in_suit(x2)->0;
            let h3 = remove_first(remove_first(remove_first(st.hands, x), x2), x3);
            let nt = TilesView { hands: h3, cchows: st.cchows.push(x), ..st };
            assert(cb == combine_spec(nt) && nt.hands.len() < st.hands.len());
            law_completion_forms(nt, k);
        } else if k < cb.len() + pb.len() {
            assert(branches_spec(st, i)[k] == pb[k - cb.len()]);
            let h3 = remove_first(remove_first(remove_first(st.hands, x), x), x);
            let nt = TilesView { hands: h3, cpungs: st.cpungs.push(x), ..st };
            assert(pb == combine_spec(nt) && nt.hands.len() < st.hands.len());
            law_completion_forms(nt, k - cb.len());
        } else {
            assert(branches_spec(st, i)[k] == rest[k - cb.len() - pb.len()]);
            lemma_branch_forms(st, i + 1, k - cb.len() - pb.len());
        }
    }
}

/// The chows `c` and the pungs `p`, as sets.
pub open spec fn melds_of(c: Seq<Tile>, p: Seq<Tile>) -> Seq<Meld> {
    Seq::new(
        c.len() + p.len(),
        |i: int|
            if i < c.len() {
                (true, c[i])
            } else {
                (false, p[i - c.len()])
            },
    )
}

proof fn lemma_melds_of(c: Seq<Tile>, p: Seq<Tile>)
    ensures
        melds_tiles(melds_of(c, p)) == chow_tiles(c).add(pung_tiles(p)),
    decreases c.len() + p.len(),
{
    let ms = melds_of(c, p);
    if c.len() > 0 {
        assert(ms.drop_first() =~= melds_of(c.drop_first(), p));
        lemma_melds_of(c.drop_first(), p);
        assert(melds_tiles(ms) =~= chow_tiles(c).add(pung_tiles(p)));
    } else if p.len() > 0 {
        assert(ms.drop_first() =~= melds_of(c, p.drop_first()));
        lemma_melds_of(c, p.drop_first());
        assert(chow_tiles(c) =~= Multiset::empty());
        assert(melds_tiles(ms) =~= chow_tiles(c).add(pung_tiles(p)));
    } else {
        assert(chow_tiles(c) =~= Multiset::empty());
        assert(pung_tiles(p) =~= Multiset::empty());
        assert(melds_tiles(ms) =~= Multiset::empty());
    }
}

/// A hand of at most fourteen tiles has a completion exactly where it is a
/// winning hand: sets and a pair, seven pairs, or thirteen orphans.
pub proof fn law_combine_finds_winning_hands(t: TilesView)
    requires
        t.wf(),
        t.hands.len() <= 14,
    ensures
        combine_spec(t).len() > 0 <==> (exists|ms: Seq<Meld>, pair: Tile| is_standard_hand(t.hands, ms, pair))
            || is_seven_pairs(t.hands) || is_thirteen_orphans(t.hands),
{
    broadcast use vstd::seq_lib::group_to_multiset_ensures;

    if exists|ms: Seq<Meld>, pair: Tile| is_standard_hand(t.hands, ms, pair) {
        let (ms, pair) = choose|ms: Seq<Meld>, pair: Tile| is_standard_hand(t.hands, ms, pair);
        lemma_combine_complete(t, ms, pair);
    }
    if is_seven_pairs(t.hands) || is_thirteen_orphans(t.hands) {
        law_special_form_is_the_hand(t);
    }
    if combine_spec(t).len() > 0 {
        let r = combine_spec(t)[0];
        law_completion_forms(t, 0);
        lemma_combine_sound(t, 0);
        if pair_form(r) {
            let c = r.cchows.skip(t.cchows.len() as int);
            let p = r.cpungs.skip(t.cpungs.len() as int);
            let ms = melds_of(c, p);
            let pair = r.hands[0];
            lemma_melds_of(c, p);
            assert(is_tile(pair));
            assert forall|i: int| 0 <= i < ms.len() implies meld_valid(#[trigger] ms[i]) by {
                if i < c.len() {
                    assert(c[i] == r.cchows[t.cchows.len() + i]);
                } else {
                    assert(p[i - c.len()] == r.cpungs[t.cpungs.len() + i - c.len()]);
                }
            }
            assert(r.hands =~= seq![pair, pair]);
            assert(r.hands.to_multiset() =~= Multiset::empty().insert(pair).insert(pair)) by {
                assert(seq![pair, pair] =~= Seq::empty().push(pair).push(pair));
                assert(Seq::<Tile>::empty().to_multiset() =~= Multiset::empty());
            }
            assert(t.hands.to_multiset() =~= melds_tiles(ms).insert(pair).insert(pair));
            assert(is_standard_hand(t.hands, ms, pair));
        }
    }
}

} // verus!
