//! Setting a game up: the wall, a new game, the joins and the deal.

use vstd::prelude::*;
use rand::StdRng;
use crate::tile::{Tile, is_tile};
use crate::hand::{Tiles, TilesView, count, all_tiles_valid, lemma_count_concat, lemma_count_multiset};
use vstd::multiset::Multiset;
use crate::rng::{shuffle_tiles, gen_range_usize, thread_gen_range_u64};
use crate::game::{
    Game, Stage, Fault, no_one_returns, total, Notice, Record, Action, BASE_SCORE, player_ok, extends, tell_alive,
    tell_list,
    lemma_extends_refl, lemma_extends_push, lemma_extends_trans,
};

verus! {

/// The kind at place `k` (below 34) of the wall as it is laid out before the
/// shuffle: the suits by rank, then east, south, west, north, red, green and
/// white.
pub open spec fn wall_kind(k: int) -> Tile {
    if k < 27 {
        k as u8
    } else if k == 27 {
        28
    } else if k == 28 {
        31
    } else if k == 29 {
        32
    } else if k == 30 {
        30
    } else if k == 31 {
        33
    } else if k == 32 {
        29
    } else {
        27
    }
}

/// The place of tile `t` in that layout.
pub open spec fn wall_place(t: Tile) -> int {
    if t < 27 {
        t as int
    } else if t == 28 {
        27
    } else if t == 31 {
        28
    } else if t == 32 {
        29
    } else if t == 30 {
        30
    } else if t == 33 {
        31
    } else if t == 29 {
        32
    } else {
        33
    }
}

/// The unshuffled wall: the layout of the 34 kinds, four times over.
pub open spec fn wall_order() -> Seq<Tile> {
    Seq::new(136, |i: int| wall_kind(i % 34))
}

fn wall_kind_exec(k: usize) -> (r: Tile)
    requires
        k < 34,
    ensures
        r == wall_kind(k as int),
{
    if k < 27 {
        k as u8
    } else if k == 27 {
        28
    } else if k == 28 {
        31
    } else if k == 29 {
        32
    } else if k == 30 {
        30
    } else if k == 31 {
        33
    } else if k == 32 {
        29
    } else {
        27
    }
}

/// The unshuffled wall.
pub fn fresh_wall() -> (w: Vec<Tile>)
    ensures
        w@ == wall_order(),
{
    let mut w: Vec<Tile> = Vec::new();
    let mut i: usize = 0;
    while i < 136
        invariant
            i <= 136,
            w@ == wall_order().take(i as int),
        decreases 136 - i,
    {
        w.push(wall_kind_exec(i % 34));
        i = i + 1;
        assert(w@ =~= wall_order().take(i as int));
    }
    assert(wall_order().take(136) =~= wall_order());
    w
}

/// One layout of the 34 kinds.
pub open spec fn kinds_once() -> Seq<Tile> {
    Seq::new(34, |k: int| wall_kind(k))
}

proof fn lemma_kinds_once_prefix(t: Tile, k: int)
    requires
        is_tile(t),
        0 <= k <= 34,
    ensures
        count(kinds_once().take(k), t) == if wall_place(t) < k {
            1nat
        } else {
            0nat
        },
    decreases k,
{
    if k > 0 {
        lemma_kinds_once_prefix(t, k - 1);
        assert(kinds_once().take(k).drop_last() =~= kinds_once().take(k - 1));
        assert(kinds_once().take(k).last() == wall_kind(k - 1));
    } else {
        assert(kinds_once().take(k) =~= Seq::<Tile>::empty());
    }
}

proof fn lemma_wall_blocks(t: Tile, r: int)
    requires
        is_tile(t),
        0 <= r <= 4,
    ensures
        count(wall_order().take(34 * r), t) == r,
    decreases r,
{
    if r > 0 {
        lemma_wall_blocks(t, r - 1);
        let a = wall_order().take(34 * (r - 1));
        let b = wall_order().take(34 * r);
        assert(b =~= a + kinds_once()) by {
            assert forall|i: int| 0 <= i < 34 implies #[trigger] b[34 * (r - 1) + i] == kinds_once()[i] by {
                assert((34 * (r - 1) + i) % 34 == i);
            }
            assert forall|i: int| 0 <= i < b.len() implies #[trigger] b[i] == (a + kinds_once())[i] by {
                if i >= 34 * (r - 1) {
                    assert(b[34 * (r - 1) + (i - 34 * (r - 1))] == kinds_once()[i - 34 * (r - 1)]);
                }
            }
        }
        lemma_count_concat(a, kinds_once(), t);
        lemma_kinds_once_prefix(t, 34);
        assert(kinds_once().take(34) =~= kinds_once());
    } else {
        assert(wall_order().take(0) =~= Seq::<Tile>::empty());
    }
}

/// The wall holds every kind of tile four times and nothing else.
pub proof fn lemma_wall_holds_four_of_each(t: Tile)
    ensures
        wall_order().to_multiset().count(t) == if is_tile(t) {
            4nat
        } else {
            0nat
        },
{
    lemma_count_multiset(wall_order(), t);
    if is_tile(t) {
        lemma_wall_blocks(t, 4);
        assert(wall_order().take(136) =~= wall_order());
    } else {
        assert(all_tiles_valid(wall_order()));
        lemma_count_absent(wall_order(), t);
    }
}

proof fn lemma_count_absent(s: Seq<Tile>, t: Tile)
    requires
        all_tiles_valid(s),
        !is_tile(t),
    ensures
        count(s, t) == 0,
    decreases s.len(),
{
    if s.len() > 0 {
        lemma_count_absent(s.drop_last(), t);
    }
}

} // verus!

verus! {

/// Every seat that plays comes before every seat that does not: only then
/// can the tiles be dealt (the deal indexes a player's tiles by his seat
/// while it adds them for players who still play only).
pub open spec fn seated_in_order(alive: Seq<bool>) -> bool {
    forall|a: int, b: int| 0 <= a < b < 4 && #[trigger] alive[b] ==> #[trigger] alive[a]
}

/// The number of seats below `i` that still play.
pub open spec fn alive_below(alive: Seq<bool>, i: int) -> int
    decreases i,
{
    if i <= 0 {
        0
    } else {
        alive_below(alive, i - 1) + if alive[i - 1] {
            1int
        } else {
            0int
        }
    }
}

/// The first seat from `i` on that no longer plays, or 4 where every one
/// does.
pub open spec fn first_dead(alive: Seq<bool>, i: int) -> int
    decreases 4 - i,
{
    if i < 0 || i >= 4 {
        4
    } else if !alive[i] {
        i
    } else {
        first_dead(alive, i + 1)
    }
}

/// Where the seats below `i` that play come first, `alive_below` counts
/// them: they are the seats below it, and none from it to `i` plays.
proof fn lemma_prefix_count(alive: Seq<bool>, i: int)
    requires
        0 <= i <= 4,
        forall|a: int, b: int| 0 <= a < b < i && #[trigger] alive[b] ==> #[trigger] alive[a],
    ensures
        forall|a: int| 0 <= a < alive_below(alive, i) ==> #[trigger] alive[a],
        forall|b: int| alive_below(alive, i) <= b < i ==> !#[trigger] alive[b],
        0 <= alive_below(alive, i) <= i,
    decreases i,
{
    if i > 0 {
        lemma_prefix_count(alive, i - 1);
        if alive[i - 1] {
            assert forall|a: int| 0 <= a < i - 1 implies #[trigger] alive[a] by {
                assert(alive[i - 1]);
            }
        }
    }
}

/// The first seat that no longer plays, from `j` on, is `f` where every
/// seat from `j` to `f` plays and `f` does not.
proof fn lemma_first_dead(alive: Seq<bool>, j: int, f: int)
    requires
        0 <= j <= f < 4,
        forall|a: int| j <= a < f ==> #[trigger] alive[a],
        !alive[f],
    ensures
        first_dead(alive, j) == f,
    decreases f - j,
{
    if j < f {
        lemma_first_dead(alive, j + 1, f);
    }
}

/// `a1` is `a0` followed by the deal from wall `w` to the first `c`
/// players.
pub open spec fn deals_to(w: Seq<Tile>, c: int, a0: Seq<Action>, a1: Seq<Action>) -> bool {
    let b = a0.len() as int;
    &&& a1.len() == b + 2 * c
    &&& a1.take(b) == a0
    &&& forall|k: int| 0 <= k < c ==> dealt_to(#[trigger] a1[b + 2 * k], a1[b + 2 * k + 1], w, k)
}

/// `a1` is `a0` followed by the deal from wall `w` to `c` players, an empty
/// record line and the record of a draw by player `a`, who has no tiles.
pub open spec fn dealt_to_no_one(w: Seq<Tile>, c: int, a: usize, a0: Seq<Action>, a1: Seq<Action>) -> bool {
    let b = a0.len() as int;
    &&& a1.len() == b + 2 * c + 2
    &&& deals_to(w, c, a0, a1.take(b + 2 * c))
    &&& a1[b + 2 * c] == Action::Log { record: Record::Blank }
    &&& a1[b + 2 * c + 1] == Action::Log { record: Record::Pick { id: a, tile: w[135 - 13 * c] } }
}

/// The number of seats that still play.
pub open spec fn alive_count(alive: Seq<bool>) -> int {
    alive_below(alive, 4)
}

/// The thirteen tiles dealt to the `k`-th player from wall `w`: tiles are
/// taken one by one from the end of the wall.
pub open spec fn dealt_hand(w: Seq<Tile>, k: int) -> Seq<Tile> {
    Seq::new(13, |j: int| w[w.len() - 1 - 13 * k - j])
}

/// The tiles of the `k`-th player right after the deal.
pub open spec fn dealt_view(w: Seq<Tile>, k: int) -> TilesView {
    TilesView {
        hands: dealt_hand(w, k),
        chows: Seq::empty(),
        pungs: Seq::empty(),
        kongs: Seq::empty(),
        ckongs: Seq::empty(),
        cchows: Seq::empty(),
        cpungs: Seq::empty(),
    }
}

proof fn lemma_alive_below_bounds(alive: Seq<bool>, i: int)
    requires
        0 <= i <= 4,
    ensures
        0 <= alive_below(alive, i) <= i,
        alive_below(alive, i) == i <==> forall|a: int| 0 <= a < i ==> #[trigger] alive[a],
    decreases i,
{
    if i > 0 {
        lemma_alive_below_bounds(alive, i - 1);
        if alive_below(alive, i) == i {
            assert forall|a: int| 0 <= a < i implies #[trigger] alive[a] by {
                if a < i - 1 {
                    assert(alive_below(alive, i - 1) == i - 1);
                }
            }
        }
    }
}

impl Game {
    /// A new game: the wall laid out and shuffled by
    /// `rng`, every player still playing and none joined yet, scores at
    /// zero, an id drawn at random, and `leader` (the seat of the last
    /// winner, if any) to act first.
    pub fn new(rng: &mut StdRng, now: i64, leader: Option<usize>) -> (g: Game)
        requires
            leader is Some ==> leader->0 < 4,
        ensures
            g.leader == leader,
            g.fines == 0,
            g.wf(),
            g.stage == Stage::Join,
            g.alive@ == seq![true, true, true, true],
            g.joined@ == seq![false, false, false, false],
            g.action_id == 0,
            g.tiles.len() == 0,
            g.left@.len() == 136,
            g.left@.to_multiset() == wall_order().to_multiset(),
            g.last_time == now,
            g.last_tile is None,
            g.score@ == seq![0i64, 0i64, 0i64, 0i64],
            forall|i: int| 0 <= i < 4 ==> #[trigger] g.messages@[i] is None,
            g.base == BASE_SCORE,
            0x100_0000_0000_0000 <= g.gid < 0x1000_0000_0000_0000,
    {
        let mut left = fresh_wall();
        shuffle_tiles(rng, &mut left);
        proof {
            assert forall|i: int| 0 <= i < left@.len() implies is_tile(#[trigger] left@[i]) by {
                let t = left@[i];
                assert(left@.to_multiset().count(t) > 0) by {
                    broadcast use vstd::seq_lib::group_to_multiset_ensures;
                    assert(left@.contains(t));
                }
                lemma_wall_holds_four_of_each(t);
            }
        }
        let gid = thread_gen_range_u64(0x100_0000_0000_0000, 0x1000_0000_0000_0000);
        let mut alive: Vec<bool> = Vec::new();
        let mut joined: Vec<bool> = Vec::new();
        let mut score: Vec<i64> = Vec::new();
        let mut messages: Vec<Option<Vec<char>>> = Vec::new();
        let mut i: usize = 0;
        while i < 4
            invariant
                i <= 4,
                alive@ == Seq::new(i as nat, |k: int| true),
                joined@ == Seq::new(i as nat, |k: int| false),
                score@ == Seq::new(i as nat, |k: int| 0i64),
                messages@.len() == i,
                forall|k: int| 0 <= k < i ==> #[trigger] messages@[k] is None,
            decreases 4 - i,
        {
            alive.push(true);
            joined.push(false);
            score.push(0);
            messages.push(None);
            i = i + 1;
            assert(alive@ =~= Seq::new(i as nat, |k: int| true));
            assert(joined@ =~= Seq::new(i as nat, |k: int| false));
            assert(score@ =~= Seq::new(i as nat, |k: int| 0i64));
        }
        assert(alive@ =~= seq![true, true, true, true]);
        assert(joined@ =~= seq![false, false, false, false]);
        assert(score@ =~= seq![0i64, 0i64, 0i64, 0i64]);
        Game {
            stage: Stage::Join,
            alive,
            joined,
            action_id: 0,
            tiles: Vec::new(),
            left,
            last_time: now,
            last_tile: None,
            score,
            messages,
            base: BASE_SCORE,
            gid,
            leader,
            fines: 0,
        }
    }
}

} // verus!

verus! {

/// `l` and `d` are the record line and the message of the `k`-th player's
/// deal from wall `w`.
pub open spec fn dealt_to(l: Action, d: Action, w: Seq<Tile>, k: int) -> bool {
    &&& l matches Action::Log { record: Record::Hand { id, tiles } } && id == k && tiles@ == dealt_hand(w, k)
    &&& d matches Action::Deal { to, tiles } && to == k && tiles@ == dealt_hand(w, k)
}

/// `n` is `o` after the deal and the first draw by player `n.action_id`,
/// with `o.alive` seated in order.
pub open spec fn dealt_and_picked(o: &Game, n: &Game, now: i64) -> bool {
    let w = o.left@;
    let c = alive_count(o.alive@);
    let a = n.action_id as int;
    let t = w[135 - 13 * c];
    &&& n.tiles.len() == c
    &&& forall|k: int| 0 <= k < c && k != a ==> #[trigger] n.tiles@[k]@ == dealt_view(w, k)
    &&& n.tiles@[a]@ == dealt_view(w, a).with_hands(dealt_hand(w, a).push(t))
    &&& n.left@ == w.take(135 - 13 * c)
    &&& n.stage == Stage::Out
    &&& n.last_tile == Some(t)
    &&& n.last_time == now
    &&& n.alive@ == o.alive@
    &&& n.score@ == o.score@
    &&& n.messages@ == o.messages@
    &&& n.base == o.base
    &&& n.gid == o.gid
}

/// Takes thirteen tiles, one by one, from the end of the wall.
fn draw_thirteen(left: &mut Vec<Tile>) -> (hand: Vec<Tile>)
    requires
        old(left).len() >= 13,
    ensures
        hand@ == Seq::new(13, |j: int| old(left)@[old(left).len() - 1 - j]),
        final(left)@ == old(left)@.take(old(left).len() - 13),
{
    let ghost w = left@;
    let mut hand: Vec<Tile> = Vec::new();
    let mut j: usize = 0;
    while j < 13
        invariant
            j <= 13,
            w.len() >= 13,
            hand@ == Seq::new(j as nat, |q: int| w[w.len() - 1 - q]),
            left@ == w.take(w.len() - j),
        decreases 13 - j,
    {
        let t = left.pop().unwrap();
        hand.push(t);
        j = j + 1;
        assert(hand@ =~= Seq::new(j as nat, |q: int| w[w.len() - 1 - q]));
        assert(left@ =~= w.take(w.len() - j));
    }
    hand
}

proof fn lemma_seated_alive(alive: Seq<bool>, a: int)
    requires
        alive.len() == 4,
        seated_in_order(alive),
        0 <= a < 4,
    ensures
        a < alive_count(alive) <==> alive[a],
{
    reveal_with_fuel(alive_below, 5);
    if alive[a] {
        assert forall|b: int| 0 <= b < a implies #[trigger] alive[b] by {
            assert(alive[a]);
        }
    } else {
        assert forall|b: int| a < b < 4 implies !#[trigger] alive[b] by {
            if alive[b] {
                assert(alive[a]);
            }
        }
    }
}

impl Game {
    /// Deals thirteen tiles, from the end of the wall, to each player who
    /// still plays, in seat order.
    #[verifier::spinoff_prover]
    fn deal(&mut self, acts: &mut Vec<Action>) -> (r: Result<(), Fault>)
        requires
            old(self).wf(),
            old(self).stage == Stage::Join,
        ensures
            r is Ok <==> seated_in_order(old(self).alive@),
            r is Err ==> r == Err::<(), Fault>(Fault::MissingHand),
            r is Err ==> deals_to(old(self).left@, first_dead(old(self).alive@, 0), old(acts)@, final(acts)@),
            final(self).action_id == old(self).action_id,
            final(self).joined@ == old(self).joined@,
            r is Ok ==> {
                let w = old(self).left@;
                let n = alive_count(old(self).alive@);
                &&& final(self).wf_core()
                &&& final(self).tiles.len() == n
                &&& forall|k: int| 0 <= k < n ==> #[trigger] final(self).tiles@[k]@ == dealt_view(w, k)
                &&& final(self).left@ == w.take(136 - 13 * n)
                &&& final(self).stage == Stage::Join
                &&& final(self).alive@ == old(self).alive@
                &&& final(self).joined@ == old(self).joined@
                &&& final(self).action_id == old(self).action_id
                &&& final(self).last_time == old(self).last_time
                &&& final(self).last_tile == old(self).last_tile
                &&& final(self).messages@ == old(self).messages@
                &&& final(self).score@ == old(self).score@
                &&& final(self).base == old(self).base
                &&& final(self).gid == old(self).gid
                &&& final(acts)@.len() == old(acts)@.len() + 2 * n
                &&& forall|k: int|
                    0 <= k < n ==> dealt_to(
                        #[trigger] final(acts)@[old(acts)@.len() + 2 * k],
                        final(acts)@[old(acts)@.len() + 2 * k + 1],
                        w,
                        k,
                    )
            },
            r is Ok ==> no_one_returns(old(self).alive@, final(self).alive@),
            r is Ok ==> total(final(self).score@) <= total(old(self).score@),
            extends(final(acts)@, old(acts)@),
    {
        let ghost o = *self;
        let ghost w = self.left@;
        let ghost a0 = acts@;
        proof {
            lemma_extends_refl(acts@);
        }
        let mut i: usize = 0;
        while i < 4
            invariant
                i <= 4,
                w == o.left@,
                o == *old(self),
                a0 == old(acts)@,
                self.action_id == old(self).action_id,
                w.len() == 136,
                all_tiles_valid(w),
                o.alive@.len() == 4,
                self.wf_core(),
                self.stage == Stage::Join,
                self.alive@ == o.alive@,
                self.joined@ == o.joined@,
                self.action_id == o.action_id,
                self.last_time == o.last_time,
                self.last_tile == o.last_tile,
                self.messages@ == o.messages@,
                self.score@ == o.score@,
                self.base == o.base,
                self.gid == o.gid,
                forall|a: int, b: int| 0 <= a < b < i && #[trigger] o.alive@[b] ==> #[trigger] o.alive@[a],
                self.tiles.len() == alive_below(o.alive@, i as int),
                forall|k: int| 0 <= k < self.tiles.len() ==> #[trigger] self.tiles@[k]@ == dealt_view(w, k),
                self.left@ == w.take(136 - 13 * self.tiles.len()),
                acts@.len() == a0.len() + 2 * self.tiles.len(),
                forall|k: int|
                    0 <= k < self.tiles.len() ==> dealt_to(
                        #[trigger] acts@[a0.len() + 2 * k],
                        acts@[a0.len() + 2 * k + 1],
                        w,
                        k,
                    ),
                extends(acts@, a0),
            decreases 4 - i,
        {
            proof {
                lemma_alive_below_bounds(o.alive@, i as int);
            }
            if self.alive[i] {
                if self.tiles.len() < i {
                    proof {
                        let a = choose|a: int| 0 <= a < i && !o.alive@[a];
                        assert(!o.alive@[a] && o.alive@[i as int]);
                        lemma_prefix_count(o.alive@, i as int);
                        let f = self.tiles.len() as int;
                        assert(!o.alive@[f]);
                        lemma_first_dead(o.alive@, 0, f);
                        assert(acts@.take(a0.len() as int) =~= a0);
                    }
                    return Err(Fault::MissingHand);
                }
                let k = self.tiles.len();
                let ghost before = *self;
                let ghost ab = acts@;
                let hand = draw_thirteen(&mut self.left);
                proof {
                    assert(hand@ =~= dealt_hand(w, k as int));
                    assert(self.left@ =~= w.take(136 - 13 * (k + 1)));
                }
                let mut pt = Tiles::empty();
                pt.hands = crate::hand::copy_tiles(&hand);
                proof {
                    assert(pt@.chows =~= Seq::<Tile>::empty());
                    assert(pt@.pungs =~= Seq::<Tile>::empty());
                    assert(pt@.kongs =~= Seq::<Tile>::empty());
                    assert(pt@.ckongs =~= Seq::<Tile>::empty());
                    assert(pt@.cchows =~= Seq::<Tile>::empty());
                    assert(pt@.cpungs =~= Seq::<Tile>::empty());
                    assert(pt@ == dealt_view(w, k as int));
                }
                self.tiles.push(pt);
                acts.push(Action::Log { record: Record::Hand { id: i, tiles: crate::hand::copy_tiles(&hand) } });
                acts.push(Action::Deal { to: i, tiles: hand });
                proof {
                    assert(acts@.take(a0.len() as int) =~= ab.take(a0.len() as int));
                    assert forall|q: int| 0 <= q < self.tiles.len() implies #[trigger] self.tiles@[q]@ == dealt_view(w, q) by {
                        if q < k {
                            assert(self.tiles@[q] == before.tiles@[q]);
                        }
                    }
                    assert forall|q: int|
                        0 <= q < self.tiles.len() implies dealt_to(
                        #[trigger] acts@[a0.len() + 2 * q],
                        acts@[a0.len() + 2 * q + 1],
                        w,
                        q,
                    ) by {
                        if q < k {
                            assert(acts@[a0.len() + 2 * q] == ab[a0.len() + 2 * q]);
                            assert(acts@[a0.len() + 2 * q + 1] == ab[a0.len() + 2 * q + 1]);
                        }
                    }
                    assert forall|q: int| 0 <= q < self.tiles.len() implies player_ok(
                        #[trigger] self.tiles@[q]@,
                        self.dealt(),
                    ) by {
                        if q < k {
                            assert(self.tiles@[q] == before.tiles@[q]);
                            assert(player_ok(before.tiles@[q]@, before.dealt()));
                        } else {
                            assert forall|j: int| 0 <= j < 13 implies is_tile(#[trigger] dealt_hand(w, k as int)[j]) by {
                                assert(is_tile(w[w.len() - 1 - 13 * k - j]));
                            }
                        }
                    }
                    assert(all_tiles_valid(self.left@)) by {
                        assert forall|j: int| 0 <= j < self.left@.len() implies is_tile(#[trigger] self.left@[j]) by {
                            assert(self.left@[j] == w[j]);
                        }
                    }
                    assert forall|a: int, b: int| 0 <= a < b < i + 1 && #[trigger] o.alive@[b] implies #[trigger] o.alive@[a] by {
                        if b == i {
                            assert(alive_below(o.alive@, i as int) == i);
                        }
                    }
                }
            }
            i = i + 1;
        }
        Ok(())
    }
}

} // verus!

verus! {

/// Every seat has joined.
pub open spec fn all_joined(j: Seq<bool>) -> bool {
    j[0] && j[1] && j[2] && j[3]
}

/// The messages telling each seat below `k` that still plays its number.
pub open spec fn seat_list(alive: Seq<bool>, k: int) -> Seq<Action>
    decreases k,
{
    if k <= 0 {
        Seq::empty()
    } else {
        seat_list(alive, k - 1) + if alive[k - 1] {
            seq![Action::Send { to: (k - 1) as usize, notice: Notice::Id { id: (k - 1) as usize } }]
        } else {
            Seq::empty()
        }
    }
}

/// `a1` is `a0` followed by the deal from wall `w` to `c` players, an empty
/// record line and the first draw by player `a`.
pub open spec fn dealt_acts(w: Seq<Tile>, c: int, alive: Seq<bool>, a: usize, a0: Seq<Action>, a1: Seq<Action>) -> bool {
    let b = a0.len() as int;
    let pick = Game::pick_acts(alive, a, w[135 - 13 * c]);
    &&& a1.len() == b + 2 * c + 1 + pick.len()
    &&& a1.take(b) == a0
    &&& forall|k: int| 0 <= k < c ==> dealt_to(#[trigger] a1[b + 2 * k], a1[b + 2 * k + 1], w, k)
    &&& a1[b + 2 * c] == Action::Log { record: Record::Blank }
    &&& a1.skip(b + 2 * c + 1) == pick
}

/// Tells each player who still plays his seat.
fn tell_seats(alive: &Vec<bool>, acts: &mut Vec<Action>)
    requires
        alive.len() == 4,
    ensures
        final(acts)@ == old(acts)@ + seat_list(alive@, 4),
        extends(final(acts)@, old(acts)@),
{
    let ghost a0 = acts@;
    assert(acts@ =~= a0 + seat_list(alive@, 0));
    let mut i: usize = 0;
    while i < 4
        invariant
            i <= 4,
            alive.len() == 4,
            acts@ == a0 + seat_list(alive@, i as int),
        decreases 4 - i,
    {
        if alive[i] {
            acts.push(Action::Send { to: i, notice: Notice::Id { id: i } });
        }
        i = i + 1;
        assert(acts@ =~= a0 + seat_list(alive@, i as int));
    }
    assert(acts@.take(a0.len() as int) =~= a0);
}

impl Game {
    /// Deals the tiles and lets the player to act draw first.
    fn init(&mut self, now: i64, acts: &mut Vec<Action>) -> (r: Result<(), Fault>)
        requires
            old(self).wf(),
            old(self).stage == Stage::Join,
            old(self).timely(now),
            old(self).scores_within(0x4000_0000_0000_0000),
        ensures
            !seated_in_order(old(self).alive@) ==> r == Err::<(), Fault>(Fault::MissingHand) && deals_to(
                old(self).left@,
                first_dead(old(self).alive@, 0),
                old(acts)@,
                final(acts)@,
            ),
            seated_in_order(old(self).alive@) && old(self).action_id >= alive_count(old(self).alive@) ==> r
                == Err::<(), Fault>(Fault::MissingHand) && dealt_to_no_one(
                old(self).left@,
                alive_count(old(self).alive@),
                old(self).action_id,
                old(acts)@,
                final(acts)@,
            ),
            seated_in_order(old(self).alive@) && old(self).action_id < alive_count(old(self).alive@) ==> {
                &&& r is Ok
                &&& dealt_and_picked(old(self), final(self), now)
                &&& final(self).joined@ == old(self).joined@
                &&& dealt_acts(
                    old(self).left@,
                    alive_count(old(self).alive@),
                    old(self).alive@,
                    old(self).action_id,
                    old(acts)@,
                    final(acts)@,
                )
            },
            final(self).action_id == old(self).action_id,
            final(self).joined@ == old(self).joined@,
            r is Ok ==> final(self).wf(),
            r is Ok ==> no_one_returns(old(self).alive@, final(self).alive@),
            r is Ok ==> total(final(self).score@) <= total(old(self).score@),
            extends(final(acts)@, old(acts)@),
    {
        let ghost o = *self;
        let ghost a0 = acts@;
        let d = self.deal(acts);
        match d {
            Err(e) => {
                return Err(e);
            },
            Ok(()) => {},
        }
        let ghost mid_acts = acts@;
        acts.push(Action::Log { record: Record::Blank });
        proof {
            lemma_extends_push(mid_acts, Action::Log { record: Record::Blank });
            lemma_extends_trans(acts@, mid_acts, a0);
            lemma_alive_below_bounds(o.alive@, 4);
        }
        let ghost mid = *self;
        let ghost a1 = acts@;
        let r = self.pick(now, acts);
        proof {
            lemma_extends_trans(acts@, a1, a0);
            let n = alive_count(o.alive@);
            let a = o.action_id as int;
            if seated_in_order(o.alive@) && a < n {
                lemma_seated_alive(o.alive@, a);
                let b = a0.len() as int;
                let w = o.left@;
                let pk = Game::pick_acts(o.alive@, o.action_id, w[135 - 13 * n]);
                assert(mid.left@.last() == w[135 - 13 * n]);
                assert(acts@ == a1 + pk);
                assert(acts@.take(b) =~= a0);
                assert(acts@.skip(b + 2 * n + 1) =~= pk);
                assert forall|k: int| 0 <= k < n implies dealt_to(#[trigger] acts@[b + 2 * k], acts@[b + 2 * k + 1], w, k) by {
                    assert(acts@[b + 2 * k] == mid_acts[b + 2 * k]);
                    assert(acts@[b + 2 * k + 1] == mid_acts[b + 2 * k + 1]);
                }
            }
            if seated_in_order(o.alive@) && a >= n {
                let b = a0.len() as int;
                let w = o.left@;
                assert(mid.left@.last() == w[135 - 13 * n]);
                assert(acts@ == a1.push(Action::Log { record: Record::Pick { id: o.action_id, tile: w[135 - 13 * n] } }));
                assert(acts@.take(b + 2 * n) =~= mid_acts);
                assert(mid_acts.take(b) =~= a0);
            }
            let n = alive_count(o.alive@);
            let a = o.action_id as int;
            if a < n {
                lemma_seated_alive(o.alive@, a);
                let w = o.left@;
                let t = w[135 - 13 * n];
                assert(mid.left@.last() == t);
                assert(self.left@ =~= w.take(135 - 13 * n));
                assert(self.tiles@[a]@ == mid.tiles@[a]@.with_hands(mid.hand_of(a).push(t)));
                assert forall|k: int| 0 <= k < n && k != a implies #[trigger] self.tiles@[k]@ == dealt_view(w, k) by {
                    assert(self.tiles@[k] == mid.tiles@[k]);
                }
            }
        }
        r
    }

    /// `a0` followed by the record of who acts first, `a`, and the message
    /// of it to each player still playing.
    pub open spec fn first_told(alive: Seq<bool>, a: usize, a0: Seq<Action>) -> Seq<Action> {
        a0 + seq![Action::Log { record: Record::First { id: a } }] + tell_list(alive, None, Notice::First { id: a }, 4)
    }

    /// Settles who acts first (the leader, where there is one, else drawn
    /// by `rng`), tells the players, and deals.
    fn start(&mut self, rng: &mut StdRng, now: i64, acts: &mut Vec<Action>) -> (r: Result<(), Fault>)
        requires
            old(self).wf(),
            old(self).stage == Stage::Join,
            old(self).timely(now),
            old(self).scores_within(0x4000_0000_0000_0000),
        ensures
            final(self).action_id < 4,
            old(self).leader is Some && old(self).leader->0 < 4 ==> final(self).action_id == old(self).leader->0,
            final(self).joined@ == old(self).joined@,
            !seated_in_order(old(self).alive@) ==> r == Err::<(), Fault>(Fault::MissingHand) && deals_to(
                old(self).left@,
                first_dead(old(self).alive@, 0),
                Game::first_told(old(self).alive@, final(self).action_id, old(acts)@),
                final(acts)@,
            ),
            seated_in_order(old(self).alive@) && final(self).action_id >= alive_count(old(self).alive@) ==> r
                == Err::<(), Fault>(Fault::MissingHand) && dealt_to_no_one(
                old(self).left@,
                alive_count(old(self).alive@),
                final(self).action_id,
                Game::first_told(old(self).alive@, final(self).action_id, old(acts)@),
                final(acts)@,
            ),
            seated_in_order(old(self).alive@) && final(self).action_id < alive_count(old(self).alive@) ==> {
                &&& r is Ok
                &&& dealt_and_picked(old(self), final(self), now)
                &&& final(self).joined@ == old(self).joined@
                &&& dealt_acts(
                    old(self).left@,
                    alive_count(old(self).alive@),
                    old(self).alive@,
                    final(self).action_id,
                    old(acts)@ + seq![Action::Log { record: Record::First { id: final(self).action_id } }] + tell_list(
                        old(self).alive@,
                        None,
                        Notice::First { id: final(self).action_id },
                        4,
                    ),
                    final(acts)@,
                )
            },
            r is Ok ==> final(self).wf(),
            r is Ok ==> no_one_returns(old(self).alive@, final(self).alive@),
            r is Ok ==> total(final(self).score@) <= total(old(self).score@),
            extends(final(acts)@, old(acts)@),
    {
        let ghost a0 = acts@;
        let a = match self.leader {
            Some(l) if l < 4 => l,
            _ => gen_range_usize(rng, 0, 4),
        };
        self.action_id = a;
        acts.push(Action::Log { record: Record::First { id: a } });
        proof {
            lemma_extends_push(a0, Action::Log { record: Record::First { id: a } });
        }
        let ghost a1 = acts@;
        tell_alive(&self.alive, None, Notice::First { id: a }, acts);
        proof {
            lemma_extends_trans(acts@, a1, a0);
        }
        let ghost a2 = acts@;
        proof {
            assert(a2 =~= a0 + seq![Action::Log { record: Record::First { id: a } }] + tell_list(
                self.alive@,
                None,
                Notice::First { id: a },
                4,
            ));
        }
        let r = self.init(now, acts);
        proof {
            lemma_extends_trans(acts@, a2, a0);
        }
        r
    }

    /// What player `id` joining (`join`) from `o` comes to in `n`: outside
    /// the join stage nothing happens; otherwise he is marked as joined, and
    /// once all four are, the first player (`n.action_id`) is settled (the
    /// leader where there is one, else drawn), the tiles are dealt and he
    /// draws.
    pub open spec fn join_outcome(o: &Game, n: &Game, id: int, now: i64, r: Result<(), Fault>) -> bool {
        &&& o.stage != Stage::Join ==> {
            &&& r is Ok
            &&& n.same_table(o)
            &&& n.score@ == o.score@
            &&& n.alive@ == o.alive@
        }
        &&& o.stage == Stage::Join ==> {
            let j = o.joined@.update(id, true);
            let s = o.alive@;
            let a = n.action_id as int;
            let c = alive_count(s);
            &&& n.joined@ == j
            &&& !all_joined(j) ==> {
                &&& r is Ok
                &&& n.stage == Stage::Join
                &&& n.action_id == o.action_id
                &&& n.tiles@ == o.tiles@
                &&& n.left@ == o.left@
                &&& n.last_time == o.last_time
                &&& n.last_tile == o.last_tile
                &&& n.messages@ == o.messages@
                &&& n.score@ == o.score@
                &&& n.alive@ == o.alive@
                &&& n.base == o.base
                &&& n.gid == o.gid
                &&& n.leader == o.leader
            }
            &&& all_joined(j) ==> {
                &&& a < 4
                &&& o.leader is Some && o.leader->0 < 4 ==> a == o.leader->0
                &&& !seated_in_order(s) ==> r == Err::<(), Fault>(Fault::MissingHand)
                &&& seated_in_order(s) && a >= c ==> r == Err::<(), Fault>(Fault::MissingHand)
                &&& seated_in_order(s) && a < c ==> r is Ok && dealt_and_picked(o, n, now)
            }
        }
    }

    /// What player `id` joining records and tells, from `a0` to `a1`, with
    /// `a` the player to act first: once all four have joined, each player
    /// still playing is told his seat, the first player is recorded and
    /// told, the tiles are dealt and he draws.  Where the deal cannot go
    /// through, it stops at the first seat that no longer plays after one
    /// that does, or, where the first player has no tiles, at the record of
    /// his draw.
    pub open spec fn join_acts(o: &Game, a: usize, id: usize, a0: Seq<Action>, a1: Seq<Action>) -> bool {
        let c = alive_count(o.alive@);
        let told = Game::first_told(o.alive@, a, a0 + seat_list(o.alive@, 4));
        if o.stage != Stage::Join || !all_joined(o.joined@.update(id as int, true)) {
            a1 == a0
        } else if !seated_in_order(o.alive@) {
            deals_to(o.left@, first_dead(o.alive@, 0), told, a1)
        } else if a < c {
            dealt_acts(o.left@, c, o.alive@, a, told, a1)
        } else {
            dealt_to_no_one(o.left@, c, a, told, a1)
        }
    }

    /// Player `id` joins.  Once all four have
    /// joined, each player still playing is told his seat, the first player
    /// is settled (the leader, else drawn by `rng`), the tiles are dealt and he draws.  Outside the
    /// join stage it is ignored.
    pub fn join(&mut self, id: usize, rng: &mut StdRng, now: i64, acts: &mut Vec<Action>) -> (r: Result<(), Fault>)
        requires
            old(self).wf(),
            id < 4,
            old(self).timely(now),
            old(self).scores_within(0x4000_0000_0000_0000),
        ensures
            Game::join_outcome(old(self), final(self), id as int, now, r),
            Game::join_acts(old(self), final(self).action_id, id, old(acts)@, final(acts)@),
            r is Ok ==> final(self).timely(now),
            r is Ok ==> final(self).wf(),
            r is Ok ==> final(self).scores_near(old(self).score@, 0),
            r is Ok ==> no_one_returns(old(self).alive@, final(self).alive@),
            r is Ok ==> total(final(self).score@) <= total(old(self).score@),
            extends(final(acts)@, old(acts)@),
    {
        proof {
            lemma_extends_refl(acts@);
        }
        if self.stage != Stage::Join {
            return Ok(());
        }
        self.joined.set(id, true);
        if self.joined[0] && self.joined[1] && self.joined[2] && self.joined[3] {
            let ghost a0 = acts@;
            tell_seats(&self.alive, acts);
            let ghost a1 = acts@;
            let r = self.start(rng, now, acts);
            proof {
                lemma_extends_trans(acts@, a1, a0);
            }
            r
        } else {
            Ok(())
        }
    }
}

} // verus!

verus! {

/// The tiles dealt from wall `w` to the first `c` players.
pub open spec fn dealt_tiles(w: Seq<Tile>, c: int) -> Multiset<Tile>
    decreases c,
{
    if c <= 0 {
        Multiset::empty()
    } else {
        dealt_tiles(w, c - 1).add(dealt_hand(w, c - 1).to_multiset())
    }
}

/// The tiles in the first `k` hands of `ts`.
pub open spec fn held(ts: Seq<Tiles>, k: int) -> Multiset<Tile>
    decreases k,
{
    if k <= 0 {
        Multiset::empty()
    } else {
        held(ts, k - 1).add(ts[k - 1]@.hands.to_multiset())
    }
}

/// Dealing to `c` players takes their tiles from the end of the wall: what
/// is left and what was dealt hold together exactly the tiles of the wall.
pub proof fn lemma_deal_keeps_tiles(w: Seq<Tile>, c: int)
    requires
        w.len() == 136,
        0 <= c <= 4,
    ensures
        w.take(136 - 13 * c).to_multiset().add(dealt_tiles(w, c)) == w.to_multiset(),
    decreases c,
{
    broadcast use vstd::multiset::group_multiset_axioms;

    if c == 0 {
        assert(w.take(136) =~= w);
        assert(w.to_multiset().add(Multiset::empty()) =~= w.to_multiset());
    } else {
        lemma_deal_keeps_tiles(w, c - 1);
        let a = w.take(136 - 13 * c);
        let b = w.subrange(136 - 13 * c, 136 - 13 * (c - 1));
        assert(w.take(136 - 13 * (c - 1)) =~= a + b);
        vstd::seq_lib::lemma_multiset_commutative(a, b);
        assert(dealt_hand(w, c - 1) =~= b.reverse());
        b.lemma_reverse_to_multiset();
        assert(a.to_multiset().add(dealt_tiles(w, c)) =~= w.take(136 - 13 * (c - 1)).to_multiset().add(
            dealt_tiles(w, c - 1),
        ));
    }
}

proof fn lemma_held_after_deal(o: &Game, n: &Game, now: i64, k: int)
    requires
        dealt_and_picked(o, n, now),
        0 <= k <= n.tiles.len(),
        n.action_id < n.tiles.len(),
        o.left.len() == 136,
    ensures
        held(n.tiles@, k) == if n.action_id < k {
            dealt_tiles(o.left@, k).insert(o.left@[135 - 13 * alive_count(o.alive@)])
        } else {
            dealt_tiles(o.left@, k)
        },
    decreases k,
{
    broadcast use vstd::multiset::group_multiset_axioms;
    broadcast use vstd::seq_lib::group_to_multiset_ensures;

    let w = o.left@;
    let t = w[135 - 13 * alive_count(o.alive@)];
    if k > 0 {
        lemma_held_after_deal(o, n, now, k - 1);
        let a = n.action_id as int;
        if k - 1 == a {
            assert(n.tiles@[a]@.hands == dealt_hand(w, a).push(t));
            assert(held(n.tiles@, k) =~= dealt_tiles(w, k).insert(t));
        } else {
            assert(n.tiles@[k - 1]@ == dealt_view(w, k - 1));
            if a < k {
                assert(held(n.tiles@, k) =~= dealt_tiles(w, k).insert(t));
            } else {
                assert(held(n.tiles@, k) =~= dealt_tiles(w, k));
            }
        }
    }
}

/// The deal and the first draw create and lose no tile: after them, what
/// is left of the wall and the players' hands hold together exactly the
/// tiles the wall held.
pub proof fn lemma_start_keeps_tiles(o: &Game, n: &Game, now: i64)
    requires
        o.wf(),
        o.stage == Stage::Join,
        dealt_and_picked(o, n, now),
        n.action_id < alive_count(o.alive@),
    ensures
        n.left@.to_multiset().add(held(n.tiles@, n.tiles.len() as int)) == o.left@.to_multiset(),
{
    broadcast use vstd::multiset::group_multiset_axioms;
    broadcast use vstd::seq_lib::group_to_multiset_ensures;

    let w = o.left@;
    let c = alive_count(o.alive@);
    lemma_alive_below_bounds(o.alive@, 4);
    lemma_held_after_deal(o, n, now, c);
    lemma_deal_keeps_tiles(w, c);
    let t = w[135 - 13 * c];
    assert(w.take(136 - 13 * c) =~= w.take(135 - 13 * c).push(t));
    assert(n.left@.to_multiset().add(held(n.tiles@, c)) =~= w.take(136 - 13 * c).to_multiset().add(
        dealt_tiles(w, c),
    ));
}

} // verus!
