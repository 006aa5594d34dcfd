//! The game's state machine: what the server does with each message from a
//! player and each time a player is too slow, as a change of state and a list
//! of actions (messages to send, log records, players to shut down) that the
//! caller carries out in order.

use vstd::prelude::*;
use crate::tile::{Tile, is_tile, parse_tile};
use crate::hand::{
    Tiles, TilesView, count, count_in, remove_first, remove_one, all_tiles_valid, lemma_count_contains,
    lemma_count_remove_first, lemma_first_index, first_index,
};
use crate::fan::{FanEntry, cal_fan, cal_fan_spec, cal_fan_defined, best_completion};
use crate::protocol::{
    Word, word_of, classify, trim, trimmed, first_field, first_field_of, second_field,
    second_field_of, ChowArg, chow_arg, parse_chow_arg, run_member, run_member_exec,
};

verus! {

/// Seats at the table.
pub const PLAYERS: usize = 4;

/// Tiles in the wall: 34 kinds, four of each.
pub const WALL_SIZE: usize = 136;

/// Tiles dealt to each player at the start.
pub const HAND_SIZE: usize = 13;

/// The base score paid on every win.
pub const BASE_SCORE: i64 = 4;

/// A player has this many milliseconds to act before the server acts for him.
pub const TURN_MS: i64 = 5000;

/// The others have this many milliseconds after a discard or an added kong
/// to claim it; a later claim counts as a pass.
pub const CLAIM_MS: i64 = 500;

/// The longest time, in milliseconds, one step may come after the last.
pub const ELAPSED_LIMIT: i64 = 0x100_0000_0000;

/// The scores a step may start from lie within this bound.
pub const SCORE_LIMIT: i64 = 0x1000_0000_0000_0000;

/// One step changes no score by more than this.
pub const STEP_LIMIT: i64 = 0x2000_0000_0000;

/// What the game is waiting for.
#[derive(PartialEq, Eq, Structural, Clone, Copy, Debug)]
pub enum Stage {
    /// Players joining.
    Join,
    /// The player to act draws, discards or declares.
    Out,
    /// The others answer a discard.
    OutWait,
    /// The others may rob an added kong.
    QgWait,
}

/// Where the server cannot go on (the server stops there).
#[derive(PartialEq, Eq, Structural, Clone, Copy, Debug)]
pub enum Fault {
    /// A player's tiles were never dealt.
    MissingHand,
    /// The player whose tile is to be discarded holds none.
    EmptyHand,
    /// A command that needs an argument came without one.
    MissingArgument,
    /// A chow claim's argument is two bytes that do not start with a digit.
    MalformedChow,
    /// A chow claim was accepted but the hand lacks one of its tiles.
    ChowTileMissing,
    /// A discard for a player who holds neither the tile he named nor the
    /// last tile.
    DiscardLoop,
    /// A self-drawn win is scored without the winning tile in hand.
    WinningTileMissing,
}

/// A message to a player.
#[derive(PartialEq, Eq, Structural, Clone, Copy, Debug)]
pub enum Notice {
    /// `id i`: the player's seat.
    Id { id: usize },
    /// `first i`: who acts first.
    First { id: usize },
    /// `pick t`: the tile the player drew.
    Pick { tile: Tile },
    /// `mpick i`: player `i` drew.
    MPick { id: usize },
    /// `mout i t`: player `i` discarded `t`.
    MOut { id: usize, tile: Tile },
    /// `mgang i t`: player `i` claimed a kong of `t`.
    MGang { id: usize, tile: Tile },
    /// `mpeng i t`: player `i` claimed a pung of `t`.
    MPeng { id: usize, tile: Tile },
    /// `mchi i t`: player `i` claimed a chow starting at `t`.
    MChi { id: usize, start: Tile },
    /// `magang i`: player `i` declared a concealed kong.
    MAGang { id: usize },
    /// `mjgang i t`: player `i` added `t` to a pung.
    MJGang { id: usize, tile: Tile },
    /// `mfail`: the player's chow claim failed.
    MFail,
    /// `mhu i d s`: player `i` won on a discard by `d` (`d == i` where he
    /// drew the tile himself), scoring `s`.
    MHu { id: usize, discarder: usize, score: i64 },
}

/// A line of the game's record.
pub enum Record {
    /// Who acts first.
    First { id: usize },
    /// A player's dealt tiles.
    Hand { id: usize, tiles: Vec<Tile> },
    /// An empty line.
    Blank,
    Pick { id: usize, tile: Tile },
    Out { id: usize, tile: Tile },
    AGang { id: usize, tile: Tile },
    JGang { id: usize, tile: Tile },
    Gang { id: usize, from: usize, tile: Tile },
    Peng { id: usize, from: usize, tile: Tile },
    Chi { id: usize, from: usize, start: Tile },
    /// A win: `discarder` is who discarded the winning tile, `None` when it
    /// was self-drawn.
    Win { id: usize, discarder: Option<usize>, score: i64, fans: Vec<FanEntry> },
    /// The wall ran out.
    Draw,
}

/// Something for the caller to do.
pub enum Action {
    /// Send a message to a player.
    Send { to: usize, notice: Notice },
    /// Send a player his dealt tiles (`init ...`).
    Deal { to: usize, tiles: Vec<Tile> },
    /// Write a line of the record.
    Log { record: Record },
    /// Shut a player's program down and wait until it is gone.
    Shut { id: usize },
}

/// One game of four hands' play.
pub struct Game {
    pub stage: Stage,
    /// Which players still play.
    pub alive: Vec<bool>,
    /// Which players have joined.
    pub joined: Vec<bool>,
    /// The player to act, or whose discard is answered.
    pub action_id: usize,
    /// The players' tiles, by seat, once dealt.
    pub tiles: Vec<Tiles>,
    /// The wall; tiles are drawn from its end.
    pub left: Vec<Tile>,
    /// When the current wait began, in milliseconds.
    pub last_time: i64,
    /// The last tile drawn, discarded or added to a kong.
    pub last_tile: Option<Tile>,
    pub score: Vec<i64>,
    /// The answers collected to the last discard or added kong, by seat.
    pub messages: Vec<Option<Vec<char>>>,
    pub base: i64,
    /// The game's id.
    pub gid: u64,
    /// Who acts first once all have joined: the seat of the last winner,
    /// or `None` (the first hand, or none won since), when it is drawn.
    pub leader: Option<usize>,
    /// The fines charged so far in this game.
    pub fines: i128,
}

/// A player's tiles in play: well formed, nothing read out of the hand, and
/// no more tiles than have been dealt.
pub open spec fn player_ok(t: TilesView, dealt: nat) -> bool {
    &&& t.wf()
    &&& t.cchows.len() == 0
    &&& t.cpungs.len() == 0
    &&& t.hands.len() + t.chows.len() + t.pungs.len() + t.kongs.len() + t.ckongs.len() <= dealt
}

/// The deduction for answering `elapsed` milliseconds late: one point per
/// hundred milliseconds past `grace`, once `limit` is reached.
pub open spec fn penalty(elapsed: int, limit: int, grace: int) -> int {
    if elapsed >= limit {
        (elapsed - grace) / 100
    } else {
        0
    }
}

pub open spec fn next_seat(p: usize) -> usize {
    ((p + 1) % 4) as usize
}

/// No player of `n` plays who did not in `o`: a player shut down stays out.
pub open spec fn no_one_returns(o: Seq<bool>, n: Seq<bool>) -> bool {
    forall|i: int| 0 <= i < 4 && #[trigger] n[i] ==> o[i]
}

/// `s` begins with `p`.
pub open spec fn extends<A>(s: Seq<A>, p: Seq<A>) -> bool {
    p.len() <= s.len() && s.take(p.len() as int) == p
}

impl Game {
    pub open spec fn dealt(&self) -> nat {
        (136 - self.left.len()) as nat
    }

    pub open spec fn wf(&self) -> bool {
        &&& self.wf_core()
        &&& self.stage == Stage::Join ==> self.tiles.len() == 0 && self.left.len() == 136
    }

    /// The invariant without what holds of the join stage alone (which
    /// dealing breaks for a moment).
    pub open spec fn wf_core(&self) -> bool {
        &&& self.alive.len() == 4
        &&& self.joined.len() == 4
        &&& self.score.len() == 4
        &&& self.messages.len() == 4
        &&& self.action_id < 4
        &&& self.tiles.len() <= 4
        &&& self.base == 4
        &&& self.left.len() <= 136
        &&& all_tiles_valid(self.left@)
        &&& forall|i: int| 0 <= i < self.tiles.len() ==> player_ok(#[trigger] self.tiles@[i]@, self.dealt())
        &&& self.last_tile matches Some(t) ==> is_tile(t)
        &&& self.stage != Stage::Join ==> self.last_tile is Some
        &&& self.fines == -total(self.score@)
    }

    /// No score exceeds `lim` either way.
    pub open spec fn scores_within(&self, lim: int) -> bool {
        forall|i: int| 0 <= i < 4 ==> -lim <= #[trigger] self.score@[i] <= lim
    }

    /// `now` may follow the last wait.
    pub open spec fn timely(&self, now: i64) -> bool {
        self.last_time <= now <= self.last_time + ELAPSED_LIMIT
    }

    /// No score moved by more than `d` from `old`.
    pub open spec fn scores_near(&self, old: Seq<i64>, d: int) -> bool {
        forall|i: int| 0 <= i < 4 ==> old[i] - d <= #[trigger] self.score@[i] <= old[i] + d
    }

    pub open spec fn hand_of(&self, id: int) -> Seq<Tile> {
        self.tiles@[id]@.hands
    }
}

pub proof fn lemma_extends_refl<A>(s: Seq<A>)
    ensures
        extends(s, s),
{
    assert(s.take(s.len() as int) =~= s);
}

pub proof fn lemma_extends_trans<A>(a: Seq<A>, b: Seq<A>, c: Seq<A>)
    requires
        extends(a, b),
        extends(b, c),
    ensures
        extends(a, c),
{
    assert(a.take(c.len() as int) =~= b.take(c.len() as int));
}

pub proof fn lemma_extends_push<A>(s: Seq<A>, x: A)
    ensures
        extends(s.push(x), s),
{
    assert(s.push(x).take(s.len() as int) =~= s);
}

/// The messages `notice` to each seat below `k` that still plays and is not
/// `except`, in seat order.
pub open spec fn tell_list(alive: Seq<bool>, except: Option<usize>, notice: Notice, k: int) -> Seq<Action>
    decreases k,
{
    if k <= 0 {
        Seq::empty()
    } else {
        tell_list(alive, except, notice, k - 1) + if alive[k - 1] && except != Some((k - 1) as usize) {
            seq![Action::Send { to: (k - 1) as usize, notice }]
        } else {
            Seq::empty()
        }
    }
}

/// Tells `notice` to each seat that still plays and is not `except`.
pub(crate) fn tell_alive(alive: &Vec<bool>, except: Option<usize>, notice: Notice, acts: &mut Vec<Action>)
    requires
        alive.len() == 4,
    ensures
        final(acts)@ == old(acts)@ + tell_list(alive@, except, notice, 4),
        extends(final(acts)@, old(acts)@),
        final(acts)@.len() <= old(acts)@.len() + 4,
{
    let ghost start = acts@;
    assert(acts@ =~= start + tell_list(alive@, except, notice, 0));
    let mut i: usize = 0;
    while i < 4
        invariant
            i <= 4,
            alive.len() == 4,
            acts@ == start + tell_list(alive@, except, notice, i as int),
            tell_list(alive@, except, notice, i as int).len() <= i,
        decreases 4 - i,
    {
        let skip = match except {
            Some(e) => e == i,
            None => false,
        };
        if alive[i] && !skip {
            acts.push(Action::Send { to: i, notice: notice });
        }
        i = i + 1;
        assert(acts@ =~= start + tell_list(alive@, except, notice, i as int));
    }
    assert(acts@.take(start.len() as int) =~= start);
}

} // verus!

verus! {

impl Game {
    /// Nothing but the listed parts changed from `o`: every field other
    /// than the scores, the players still playing and the waits.
    pub open spec fn same_table(&self, o: &Game) -> bool {
        &&& self.same_table_but_fines(o)
        &&& self.fines == o.fines
    }

    /// As `same_table`, but for the fines charged.
    pub open spec fn same_table_but_fines(&self, o: &Game) -> bool {
        &&& self.stage == o.stage
        &&& self.joined@ == o.joined@
        &&& self.action_id == o.action_id
        &&& self.tiles@ == o.tiles@
        &&& self.left@ == o.left@
        &&& self.last_time == o.last_time
        &&& self.last_tile == o.last_tile
        &&& self.messages@ == o.messages@
        &&& self.base == o.base
        &&& self.gid == o.gid
    }

    /// What a discard of `tile` by player `id` records and tells.
    pub open spec fn out_acts(o: &Game, id: usize, tile: Option<Tile>, a0: Seq<Action>, a1: Seq<Action>) -> bool {
        let hand = o.hand_of(id as int);
        let lt = o.last_tile->0;
        let found = tile is Some && hand.contains(tile->0);
        if o.stage != Stage::Out || id != o.action_id || id >= o.tiles.len() {
            a1 == a0
        } else if found {
            a1 == a0 + Game::discard_acts(o.alive@, id, tile->0)
        } else if hand.contains(lt) {
            a1 == a0.push(Action::Shut { id }) + Game::discard_acts(o.alive@.update(id as int, false), id, lt)
        } else {
            a1 == a0.push(Action::Shut { id })
        }
    }

    /// What a concealed kong of `tile` declared by player `id` records and
    /// tells.
    pub open spec fn agang_acts(o: &Game, id: usize, tile: Option<Tile>, a0: Seq<Action>, a1: Seq<Action>) -> bool {
        let four = tile is Some && count(o.hand_of(id as int), tile->0) == 4;
        if o.stage != Stage::Out || id != o.action_id {
            a1 == a0.push(Action::Shut { id })
        } else if id >= o.tiles.len() {
            a1 == a0
        } else if four {
            a1 == a0 + seq![Action::Log { record: Record::AGang { id, tile: tile->0 } }] + tell_list(
                o.alive@,
                None,
                Notice::MAGang { id },
                4,
            ) + Game::draw_acts(o.alive@, id, o.left@)
        } else {
            a1 == a0.push(Action::Shut { id }) + Game::forced_out_acts(o, id)
        }
    }

    /// What adding `tile` to a pung by player `id` records and tells.
    pub open spec fn jgang_acts(o: &Game, id: usize, tile: Option<Tile>, a0: Seq<Action>, a1: Seq<Action>) -> bool {
        let can = tile is Some && o.hand_of(id as int).contains(tile->0) && o.tiles@[id as int]@.pungs.contains(
            tile->0,
        );
        if o.stage != Stage::Out || id != o.action_id || id >= o.tiles.len() {
            a1 == a0
        } else if can {
            a1 == a0 + seq![Action::Log { record: Record::JGang { id, tile: tile->0 } }] + tell_list(
                o.alive@,
                None,
                Notice::MJGang { id, tile: tile->0 },
                4,
            )
        } else {
            a1 == a0.push(Action::Shut { id }) + Game::forced_out_acts(o, id)
        }
    }

    /// What a declared win on the drawn tile by player `id` records and
    /// tells.
    pub open spec fn tsumo_acts(o: &Game, id: usize, a0: Seq<Action>, a1: Seq<Action>) -> bool {
        let lt = o.last_tile->0;
        if o.stage != Stage::Out || id != o.action_id || id >= o.tiles.len() || !cal_fan_defined(
            o.tiles@[id as int]@,
            lt,
            true,
        ) {
            a1 == a0
        } else {
            let c = cal_fan_spec(o.tiles@[id as int]@, lt, true);
            &&& c is Some ==> Game::win_recorded(a0, a1, id, None, c, o.alive@)
            &&& c is None ==> a1 == a0.push(Action::Shut { id }) + Game::forced_out_acts(o, id)
        }
    }

    /// What a draw of `t` by player `a` records and tells: the record line,
    /// the tile to him where he still plays, that he drew to the others
    /// still playing, and, where he no longer plays, his discard of it.
    pub open spec fn pick_acts(alive: Seq<bool>, a: usize, t: Tile) -> Seq<Action> {
        seq![Action::Log { record: Record::Pick { id: a, tile: t } }] + (if alive[a as int] {
            seq![Action::Send { to: a, notice: Notice::Pick { tile: t } }]
        } else {
            Seq::empty()
        }) + tell_list(alive, Some(a), Notice::MPick { id: a }, 4) + (if alive[a as int] {
            Seq::empty()
        } else {
            Game::discard_acts(alive, a, t)
        })
    }

    /// What the draw of player `a` from wall `left` records and tells: a
    /// drawn hand where the wall is empty.
    pub open spec fn draw_acts(alive: Seq<bool>, a: usize, left: Seq<Tile>) -> Seq<Action> {
        if left.len() == 0 {
            seq![Action::Log { record: Record::Draw }]
        } else {
            Game::pick_acts(alive, a, left.last())
        }
    }

    /// What discarding the last tile for player `id` of `o`, just shut down,
    /// records and tells: the discard where he holds the tile, or his shut
    /// down once more where he does not.
    pub open spec fn forced_out_acts(o: &Game, id: usize) -> Seq<Action> {
        let lt = o.last_tile->0;
        if o.hand_of(id as int).contains(lt) {
            Game::discard_acts(o.alive@.update(id as int, false), id, lt)
        } else {
            seq![Action::Shut { id }]
        }
    }

    /// What a discard of `t` by player `id` records and tells: the record
    /// line, then the discard to each other player still playing.
    pub open spec fn discard_acts(alive: Seq<bool>, id: usize, t: Tile) -> Seq<Action> {
        seq![Action::Log { record: Record::Out { id, tile: t } }] + tell_list(
            alive,
            Some(id),
            Notice::MOut { id, tile: t },
            4,
        )
    }

    /// `n` is `o` after player `id` discarded `t` at `now`: the tile leaves
    /// his hand, he is fined for a slow discard, the others are to answer,
    /// and their answers so far are dropped.
    pub open spec fn discarded(o: &Game, n: &Game, id: int, t: Tile, now: i64, alive: Seq<bool>) -> bool {
        &&& n.stage == Stage::OutWait
        &&& n.joined@ == o.joined@
        &&& n.action_id == o.action_id
        &&& n.tiles@.len() == o.tiles@.len()
        &&& n.hand_of(id) == remove_first(o.hand_of(id), t)
        &&& n.tiles@[id]@ == o.tiles@[id]@.with_hands(n.hand_of(id))
        &&& forall|j: int| 0 <= j < o.tiles@.len() && j != id ==> #[trigger] n.tiles@[j] == o.tiles@[j]
        &&& n.left@ == o.left@
        &&& n.last_time == now
        &&& n.last_tile == Some(t)
        &&& forall|j: int| 0 <= j < 4 ==> #[trigger] n.messages@[j] is None
        &&& n.score@ == o.score@.update(id, (o.score@[id] - penalty(now - o.last_time, 1050, 950)) as i64)
        &&& n.alive@ == alive
        &&& n.base == o.base
        &&& n.gid == o.gid
    }

    /// `n` is `o` after player `a` drew `t`, the last tile of the wall, at
    /// `now`.
    pub open spec fn picked(o: &Game, n: &Game, a: int, t: Tile, now: i64) -> bool {
        &&& t == o.left@.last()
        &&& n.left@ == o.left@.drop_last()
        &&& n.joined@ == o.joined@
        &&& n.action_id == o.action_id
        &&& n.tiles@.len() == o.tiles@.len()
        &&& n.tiles@[a]@ == o.tiles@[a]@.with_hands(o.hand_of(a).push(t))
        &&& forall|j: int| 0 <= j < o.tiles@.len() && j != a ==> #[trigger] n.tiles@[j] == o.tiles@[j]
        &&& n.stage == Stage::Out
        &&& n.last_tile == Some(t)
        &&& n.last_time == now
        &&& n.messages@ == o.messages@
        &&& n.score@ == o.score@
        &&& n.alive@ == o.alive@
        &&& n.base == o.base
        &&& n.gid == o.gid
    }

    /// Player `id` stops playing and his program is shut down.
    pub fn shut(&mut self, id: usize, acts: &mut Vec<Action>)
        requires
            old(self).alive.len() == 4,
            id < 4,
        ensures
            final(self).alive@ == old(self).alive@.update(id as int, false),
            final(self).same_table(old(self)),
            final(self).score@ == old(self).score@,
            final(acts)@ == old(acts)@.push(Action::Shut { id }),
    {
        self.alive.set(id, false);
        acts.push(Action::Shut { id });
    }

    /// Every player stops: the hand is over.
    pub fn end_hand(&mut self)
        requires
            old(self).alive.len() == 4,
        ensures
            final(self).alive@ == seq![false, false, false, false],
            final(self).same_table(old(self)),
            final(self).score@ == old(self).score@,
    {
        self.alive.set(0, false);
        self.alive.set(1, false);
        self.alive.set(2, false);
        self.alive.set(3, false);
        assert(self.alive@ =~= seq![false, false, false, false]);
    }

    /// Player `id` loses a point per hundred milliseconds past `grace` once
    /// `limit` milliseconds have gone by since the wait began.
    pub(crate) fn fine(&mut self, id: usize, now: i64, limit: i64, grace: i64)
        requires
            old(self).wf_core(),
            id < 4,
            old(self).timely(now),
            old(self).scores_within(0x4000_0000_0000_0000),
            0 <= grace < limit,
        ensures
            final(self).score@ == old(self).score@.update(
                id as int,
                (old(self).score@[id as int] - penalty(now - old(self).last_time, limit as int, grace as int)) as i64,
            ),
            final(self).fines == old(self).fines + penalty(now - old(self).last_time, limit as int, grace as int),
            0 <= penalty(now - old(self).last_time, limit as int, grace as int) <= 0x10_0000_0000,
            final(self).same_table_but_fines(old(self)),
            final(self).alive@ == old(self).alive@,
            final(self).wf_core(),
            old(self).wf() ==> final(self).wf(),
    {
        let elapsed = now - self.last_time;
        if elapsed >= limit {
            let p = (elapsed - grace) / 100;
            let s = self.score[id] - p;
            self.score.set(id, s);
            self.fines = self.fines + p as i128;
        }
    }

    /// The wall ran out: the hand is drawn.
    pub fn draw(&mut self, acts: &mut Vec<Action>)
        requires
            old(self).alive.len() == 4,
        ensures
            final(self).alive@ == seq![false, false, false, false],
            final(self).same_table(old(self)),
            final(self).score@ == old(self).score@,
            final(acts)@ == old(acts)@.push(Action::Log { record: Record::Draw }),
    {
        acts.push(Action::Log { record: Record::Draw });
        self.end_hand();
    }

    /// The discard itself, once the tile is found in the hand.
    fn discard(&mut self, id: usize, t: Tile, now: i64, acts: &mut Vec<Action>)
        requires
            old(self).wf_core(),
            old(self).stage == Stage::Out,
            id == old(self).action_id,
            id < old(self).tiles.len(),
            old(self).hand_of(id as int).contains(t),
            old(self).timely(now),
            old(self).scores_within(0x4000_0000_0000_0000),
        ensures
            final(self).wf_core(),
            Game::discarded(old(self), final(self), id as int, t, now, old(self).alive@),
            final(acts)@ == old(acts)@ + Game::discard_acts(old(self).alive@, id, t),
            extends(final(acts)@, old(acts)@),
    {
        let ghost o = *self;
        let ghost a0 = acts@;
        acts.push(Action::Log { record: Record::Out { id, tile: t } });
        proof {
            lemma_extends_push(a0, Action::Log { record: Record::Out { id, tile: t } });
        }
        self.fine(id, now, 1050, 950);
        let mut pt = self.tiles[id].duplicate();
        remove_one(&mut pt.hands, t);
        proof {
            lemma_first_index(o.hand_of(id as int), t);
            let h = pt@.hands;
            let p = first_index(o.hand_of(id as int), t);
            assert forall|j: int| 0 <= j < h.len() implies is_tile(#[trigger] h[j]) by {
                assert(h[j] == o.hand_of(id as int)[if j < p { j } else { j + 1 }]);
            }
            assert(player_ok(o.tiles@[id as int]@, o.dealt()));
        }
        self.tiles.set(id, pt);
        let ghost mid = acts@;
        tell_alive(&self.alive, Some(self.action_id), Notice::MOut { id: self.action_id, tile: t }, acts);
        self.last_tile = Some(t);
        self.stage = Stage::OutWait;
        self.messages.set(0, None);
        self.messages.set(1, None);
        self.messages.set(2, None);
        self.messages.set(3, None);
        self.last_time = now;
        proof {
            lemma_extends_trans(acts@, mid, a0);
            assert(acts@ =~= a0 + Game::discard_acts(o.alive@, id, t));
        }
        assert forall|j: int| 0 <= j < self.tiles.len() implies player_ok(
            #[trigger] self.tiles@[j]@,
            self.dealt(),
        ) by {
            if j != id {
                assert(self.tiles@[j] == o.tiles@[j]);
            }
        }
    }
}

impl Game {
    /// What a draw (`pick`) from `o` comes to in `n`: an empty wall ends the
    /// hand in a draw; otherwise the player to act takes the last tile of
    /// the wall, and a player who no longer plays discards it at once.
    pub open spec fn pick_outcome(o: &Game, n: &Game, now: i64, r: Result<(), Fault>) -> bool {
        &&& o.left.len() == 0 ==> {
            &&& r is Ok
            &&& n.alive@ == seq![false, false, false, false]
            &&& n.same_table(o)
            &&& n.score@ == o.score@
        }
        &&& o.left.len() > 0 && o.action_id >= o.tiles.len() ==> r == Err::<(), Fault>(Fault::MissingHand)
        &&& o.left.len() > 0 && o.action_id < o.tiles.len() ==> {
            let a = o.action_id as int;
            let t = o.left@.last();
            &&& r is Ok
            &&& o.alive@[a] ==> Game::picked(o, n, a, t, now)
            &&& !o.alive@[a] ==> exists|mid: Game|
                Game::picked(o, &mid, a, t, now) && Game::discarded(&mid, n, a, t, now, o.alive@)
        }
    }

    /// What a discard of `tile` by player `id` (`out`) from `o` comes to in
    /// `n`: out of turn nothing happens; a tile he holds is discarded; any
    /// other (or none) shuts him down and the last tile is discarded for him
    /// instead, where he holds it.
    pub open spec fn out_outcome(o: &Game, n: &Game, id: int, tile: Option<Tile>, now: i64, r: Result<(), Fault>) -> bool {
        &&& o.stage != Stage::Out || id != o.action_id ==> {
            &&& r is Ok
            &&& n.same_table(o)
            &&& n.score@ == o.score@
            &&& n.alive@ == o.alive@
        }
        &&& o.stage == Stage::Out && id == o.action_id ==> {
            let hand = o.hand_of(id);
            let lt = o.last_tile->0;
            &&& id >= o.tiles.len() ==> r == Err::<(), Fault>(Fault::MissingHand)
            &&& id < o.tiles.len() && tile is Some && hand.contains(tile->0) ==> r is Ok
                && Game::discarded(o, n, id, tile->0, now, o.alive@)
            &&& id < o.tiles.len() && !(tile is Some && hand.contains(tile->0)) && hand.contains(lt) ==> r is Ok
                && Game::discarded(o, n, id, lt, now, o.alive@.update(id, false))
            &&& id < o.tiles.len() && !(tile is Some && hand.contains(tile->0)) && !hand.contains(lt) ==> r
                == Err::<(), Fault>(Fault::DiscardLoop)
        }
    }
}

impl Game {
    /// A discard by player `id`.  Out of turn it is
    /// ignored.  A tile he does not hold (or none named) shuts him down, and
    /// the last tile drawn is discarded for him instead.
    pub fn out(&mut self, id: usize, tile: Option<Tile>, now: i64, acts: &mut Vec<Action>) -> (r: Result<(), Fault>)
        requires
            old(self).wf_core(),
            id < 4,
            old(self).timely(now),
            old(self).scores_within(0x4000_0000_0000_0000),
            tile matches Some(t) ==> is_tile(t),
        ensures
            Game::out_outcome(old(self), final(self), id as int, tile, now, r),
            Game::out_acts(old(self), id, tile, old(acts)@, final(acts)@),
            r is Ok ==> final(self).wf_core(),
            r is Ok ==> final(self).scores_near(old(self).score@, 0x10_0000_0000),
            r is Ok ==> final(self).timely(now),
            r is Ok ==> no_one_returns(old(self).alive@, final(self).alive@),
            r is Ok ==> total(final(self).score@) <= total(old(self).score@),
            extends(final(acts)@, old(acts)@),
    {
        if self.stage != Stage::Out || id != self.action_id {
            proof {
                lemma_extends_refl(acts@);
            }
            return Ok(());
        }
        if id >= self.tiles.len() {
            proof {
                lemma_extends_refl(acts@);
            }
            return Err(Fault::MissingHand);
        }
        let found = match tile {
            Some(t) => crate::hand::position(&self.tiles[id].hands, t).is_some(),
            None => false,
        };
        if found {
            let t = tile.unwrap();
            self.discard(id, t, now, acts);
            return Ok(());
        }
        let ghost a0 = acts@;
        self.shut(id, acts);
        proof {
            lemma_extends_push(a0, Action::Shut { id });
        }
        let lt = self.last_tile.unwrap();
        if crate::hand::position(&self.tiles[id].hands, lt).is_some() {
            let ghost a1 = acts@;
            self.discard(id, lt, now, acts);
            proof {
                lemma_extends_trans(acts@, a1, a0);
            }
            Ok(())
        } else {
            Err(Fault::DiscardLoop)
        }
    }

    /// The player to act draws the last tile of the wall; an empty wall ends
    /// the hand in a draw.  A player who no longer plays discards what he drew
    /// at once.
    pub fn pick(&mut self, now: i64, acts: &mut Vec<Action>) -> (r: Result<(), Fault>)
        requires
            old(self).wf_core(),
            old(self).stage == Stage::Join ==> old(self).left.len() > 0,
            old(self).timely(now),
            old(self).scores_within(0x4000_0000_0000_0000),
        ensures
            Game::pick_outcome(old(self), final(self), now, r),
            old(self).left.len() == 0 ==> final(acts)@ == old(acts)@.push(Action::Log { record: Record::Draw }),
            old(self).left.len() > 0 && old(self).action_id >= old(self).tiles.len() ==> final(acts)@ == old(
                acts,
            )@.push(Action::Log { record: Record::Pick { id: old(self).action_id, tile: old(self).left@.last() } }),
            old(self).left.len() > 0 && old(self).action_id < old(self).tiles.len() ==> final(acts)@ == old(acts)@
                + Game::pick_acts(old(self).alive@, old(self).action_id, old(self).left@.last()),
            r is Ok ==> final(self).timely(now),
            r is Ok ==> final(self).wf(),
            r is Ok ==> final(self).scores_near(old(self).score@, 0x10_0000_0000),
            final(self).action_id == old(self).action_id,
            final(self).joined@ == old(self).joined@,
            r is Ok ==> no_one_returns(old(self).alive@, final(self).alive@),
            r is Ok ==> total(final(self).score@) <= total(old(self).score@),
            extends(final(acts)@, old(acts)@),
    {
        if self.left.len() == 0 {
            let ghost a0 = acts@;
            self.draw(acts);
            proof {
                lemma_extends_push(a0, Action::Log { record: Record::Draw });
            }
            return Ok(());
        }
        let ghost o = *self;
        let ghost a0 = acts@;
        let tile = self.left.pop().unwrap();
        let a = self.action_id;
        acts.push(Action::Log { record: Record::Pick { id: a, tile } });
        proof {
            lemma_extends_push(a0, Action::Log { record: Record::Pick { id: a, tile } });
        }
        if a >= self.tiles.len() {
            return Err(Fault::MissingHand);
        }
        let mut pt = self.tiles[a].duplicate();
        pt.hands.push(tile);
        proof {
            assert(o.left@[o.left.len() - 1] == tile);
            let h = pt@.hands;
            assert(player_ok(o.tiles@[a as int]@, o.dealt()));
            assert forall|j: int| 0 <= j < h.len() implies is_tile(#[trigger] h[j]) by {
                if j < o.hand_of(a as int).len() {
                    assert(h[j] == o.hand_of(a as int)[j]);
                }
            }
        }
        self.tiles.set(a, pt);
        let ghost a1 = acts@;
        if self.alive[a] {
            acts.push(Action::Send { to: a, notice: Notice::Pick { tile } });
        }
        tell_alive(&self.alive, Some(a), Notice::MPick { id: a }, acts);
        self.last_tile = Some(tile);
        self.stage = Stage::Out;
        self.last_time = now;
        proof {
            assert(acts@.take(a1.len() as int) =~= a1) by {
                if o.alive@[a as int] {
                    assert(a1.push(Action::Send { to: a, notice: Notice::Pick { tile } }).take(a1.len() as int) =~= a1);
                }
            }
            lemma_extends_trans(acts@, a1, a0);
            assert forall|j: int| 0 <= j < self.tiles.len() implies player_ok(
                #[trigger] self.tiles@[j]@,
                self.dealt(),
            ) by {
                if j != a {
                    assert(self.tiles@[j] == o.tiles@[j]);
                }
            }
            assert(all_tiles_valid(self.left@)) by {
                assert forall|j: int| 0 <= j < self.left@.len() implies is_tile(#[trigger] self.left@[j]) by {
                    assert(self.left@[j] == o.left@[j]);
                }
            }
        }
        let ghost mid = *self;
        assert(Game::picked(&o, &mid, a as int, tile, now));
        if !self.alive[a] {
            let ghost a2 = acts@;
            proof {
                assert(mid.hand_of(a as int).contains(tile)) by {
                    assert(mid.hand_of(a as int)[mid.hand_of(a as int).len() - 1] == tile);
                }
            }
            self.discard(a, tile, now, acts);
            proof {
                lemma_extends_trans(acts@, a2, a0);
                assert(acts@ =~= a0 + Game::pick_acts(o.alive@, a, tile));
            }
        } else {
            assert(acts@ =~= a0 + Game::pick_acts(o.alive@, a, tile));
        }
        Ok(())
    }
}

/// The scores after player `w` wins with `x` fans on a discard by `d`: each
/// other player pays the base, the discarder the fans besides.
pub open spec fn ron_payments(s: Seq<i64>, w: int, d: int, x: int) -> Seq<i64> {
    Seq::new(
        4,
        |i: int|
            (s[i] + (if i == w {
                3 * 4 + x
            } else {
                -4
            }) - (if i == d {
                x
            } else {
                0
            })) as i64,
    )
}

/// The scores after player `w` wins with `x` fans on a tile he drew: each
/// other player pays the base and the fans.
pub open spec fn tsumo_payments(s: Seq<i64>, w: int, x: int) -> Seq<i64> {
    Seq::new(
        4,
        |i: int|
            (if i == w {
                s[i] + 3 * (x + 4)
            } else {
                s[i] - (x + 4)
            }) as i64,
    )
}

/// The total of a winning hand's fans.
pub open spec fn win_total(c: Option<(int, Seq<FanEntry>)>) -> int {
    match c {
        Some(v) => v.0,
        None => 0,
    }
}

/// The fans of a winning hand.
pub open spec fn win_fans(c: Option<(int, Seq<FanEntry>)>) -> Seq<FanEntry> {
    match c {
        Some(v) => v.1,
        None => Seq::empty(),
    }
}

/// The sum of four scores.
pub open spec fn total(s: Seq<i64>) -> int {
    s[0] + s[1] + s[2] + s[3]
}

/// The scores after a win on a discard.
fn ron_scores(s: &Vec<i64>, w: usize, d: usize, x: i64) -> (r: Vec<i64>)
    requires
        s.len() == 4,
        w < 4,
        d < 4,
        0 <= x <= 0x100_0000_0000,
        forall|i: int| 0 <= i < 4 ==> -0x4000_0000_0000_0000 <= #[trigger] s@[i] <= 0x4000_0000_0000_0000,
    ensures
        r@ == ron_payments(s@, w as int, d as int, x as int),
{
    let mut r: Vec<i64> = Vec::new();
    let mut i: usize = 0;
    while i < 4
        invariant
            i <= 4,
            s.len() == 4,
            w < 4,
            d < 4,
            0 <= x <= 0x100_0000_0000,
            forall|j: int| 0 <= j < 4 ==> -0x4000_0000_0000_0000 <= #[trigger] s@[j] <= 0x4000_0000_0000_0000,
            r@ == ron_payments(s@, w as int, d as int, x as int).take(i as int),
        decreases 4 - i,
    {
        let gain: i64 = if i == w {
            12 + x
        } else {
            -4
        };
        let loss: i64 = if i == d {
            x
        } else {
            0
        };
        r.push(s[i] + gain - loss);
        i = i + 1;
        assert(r@ =~= ron_payments(s@, w as int, d as int, x as int).take(i as int));
    }
    assert(r@ =~= ron_payments(s@, w as int, d as int, x as int));
    r
}

/// The scores after a win on a drawn tile.
fn tsumo_scores(s: &Vec<i64>, w: usize, x: i64) -> (r: Vec<i64>)
    requires
        s.len() == 4,
        w < 4,
        0 <= x <= 0x100_0000_0000,
        forall|i: int| 0 <= i < 4 ==> -0x4000_0000_0000_0000 <= #[trigger] s@[i] <= 0x4000_0000_0000_0000,
    ensures
        r@ == tsumo_payments(s@, w as int, x as int),
{
    let mut r: Vec<i64> = Vec::new();
    let mut i: usize = 0;
    while i < 4
        invariant
            i <= 4,
            s.len() == 4,
            w < 4,
            0 <= x <= 0x100_0000_0000,
            forall|j: int| 0 <= j < 4 ==> -0x4000_0000_0000_0000 <= #[trigger] s@[j] <= 0x4000_0000_0000_0000,
            r@ == tsumo_payments(s@, w as int, x as int).take(i as int),
        decreases 4 - i,
    {
        let v: i64 = if i == w {
            s[i] + 3 * (x + 4)
        } else {
            s[i] - (x + 4)
        };
        r.push(v);
        i = i + 1;
        assert(r@ =~= tsumo_payments(s@, w as int, x as int).take(i as int));
    }
    assert(r@ =~= tsumo_payments(s@, w as int, x as int));
    r
}

/// Over a whole game the scores add up to exactly minus the fines charged:
/// a new game starts with both at zero, a win moves points between the
/// players without making any, and every step keeps the game well formed.
pub proof fn law_scores_balance_fines(g: &Game)
    requires
        g.wf(),
    ensures
        total(g.score@) == -g.fines,
{
}

/// A win takes from the others exactly what the winner gains.
pub proof fn lemma_payments_zero_sum(s: Seq<i64>, w: int, d: int, x: int)
    requires
        s.len() == 4,
        0 <= w < 4,
        0 <= d < 4,
        0 <= x <= 0x100_0000_0000,
        forall|i: int| 0 <= i < 4 ==> -0x4000_0000_0000_0000 <= #[trigger] s[i] <= 0x4000_0000_0000_0000,
    ensures
        total(ron_payments(s, w, d, x)) == total(s),
        total(tsumo_payments(s, w, x)) == total(s),
{
}

/// `n` is `o` with the hand of player `id` changed to `h` and his melds
/// extended by `t`; the rest of the table, the scores and the answers are
/// the same.
pub open spec fn melded(o: &Game, n: &Game, id: int, h: Seq<Tile>, chow: bool, pung: bool, kong: bool, t: Tile) -> bool {
    &&& n.tiles@.len() == o.tiles@.len()
    &&& n.hand_of(id) == h
    &&& n.tiles@[id]@.chows == if chow { o.tiles@[id]@.chows.push(t) } else { o.tiles@[id]@.chows }
    &&& n.tiles@[id]@.pungs == if pung { o.tiles@[id]@.pungs.push(t) } else { o.tiles@[id]@.pungs }
    &&& n.tiles@[id]@.kongs == if kong { o.tiles@[id]@.kongs.push(t) } else { o.tiles@[id]@.kongs }
    &&& n.tiles@[id]@.ckongs == o.tiles@[id]@.ckongs
    &&& n.tiles@[id]@.cchows == o.tiles@[id]@.cchows
    &&& n.tiles@[id]@.cpungs == o.tiles@[id]@.cpungs
    &&& forall|j: int| 0 <= j < o.tiles@.len() && j != id ==> #[trigger] n.tiles@[j] == o.tiles@[j]
    &&& n.joined@ == o.joined@
    &&& n.left@ == o.left@
    &&& n.last_time == o.last_time
    &&& n.last_tile == o.last_tile
    &&& n.messages@ == o.messages@
    &&& n.score@ == o.score@
    &&& n.base == o.base
    &&& n.gid == o.gid
}

/// As `melded`, with the stage, the player to act and the players still
/// playing the same as well.
pub open spec fn claimed(o: &Game, n: &Game, id: int, h: Seq<Tile>, chow: bool, pung: bool, kong: bool, t: Tile) -> bool {
    &&& melded(o, n, id, h, chow, pung, kong, t)
    &&& n.stage == o.stage
    &&& n.action_id == o.action_id
    &&& n.alive@ == o.alive@
}

impl Game {
    /// Player `id` claims a win on the last tile:
    /// where the hand scores, the others pay him; otherwise he is shut down.
    pub fn hu(&mut self, id: usize, acts: &mut Vec<Action>) -> (r: Result<bool, Fault>)
        requires
            old(self).wf_core(),
            old(self).last_tile is Some,
            id < 4,
            old(self).scores_within(0x4000_0000_0000_0000),
        ensures
            id >= old(self).tiles.len() ==> r == Err::<bool, Fault>(Fault::MissingHand),
            id < old(self).tiles.len() ==> {
                let c = cal_fan_spec(old(self).tiles@[id as int]@, old(self).last_tile->0, false);
                &&& c is Some ==> r == Ok::<bool, Fault>(true) && final(self).same_table(old(self))
                    && final(self).alive@ == old(self).alive@ && final(self).score@ == ron_payments(
                    old(self).score@,
                    id as int,
                    old(self).action_id as int,
                    win_total(c),
                )
                &&& c is None ==> r == Ok::<bool, Fault>(false) && final(self).same_table(old(self))
                    && final(self).alive@ == old(self).alive@.update(id as int, false)
                    && final(self).score@ == old(self).score@
            },
            id < old(self).tiles.len() ==> {
                let c = cal_fan_spec(old(self).tiles@[id as int]@, old(self).last_tile->0, false);
                &&& c is None ==> final(acts)@ == old(acts)@.push(Action::Shut { id })
                &&& c is Some ==> Game::won_on(old(acts)@, final(acts)@, id, old(self).action_id, c, old(self).alive@)
            },
            id >= old(self).tiles.len() ==> final(acts)@ == old(acts)@,
            r is Ok ==> final(self).wf_core(),
            r is Ok ==> final(self).scores_near(old(self).score@, 0x100_0000_0000),
            r is Ok ==> no_one_returns(old(self).alive@, final(self).alive@),
            r is Ok ==> total(final(self).score@) <= total(old(self).score@),
            extends(final(acts)@, old(acts)@),
    {
        proof {
            lemma_extends_refl(acts@);
        }
        if id >= self.tiles.len() {
            return Err(Fault::MissingHand);
        }
        let lt = self.last_tile.unwrap();
        let ghost a0 = acts@;
        proof {
            assert(player_ok(self.tiles@[id as int]@, self.dealt()));
        }
        match cal_fan(&self.tiles[id], lt, false) {
            Some((x, fans)) => {
                let a = self.action_id;
                acts.push(Action::Log { record: Record::Win { id, discarder: Some(a), score: x, fans } });
                let ghost a_mid = acts@;
                proof {
                    lemma_extends_push(a0, acts@.last());
                }
                tell_alive(&self.alive, None, Notice::MHu { id, discarder: a, score: x }, acts);
                proof {
                    lemma_extends_trans(acts@, a_mid, a0);
                    let tell = tell_list(self.alive@, None, Game::win_notice(id, Some(a), cal_fan_spec(self.tiles@[id as int]@, lt, false)), 4);
                    assert(acts@.take(a0.len() as int) =~= a0);
                    assert(acts@.skip(a0.len() as int + 1) =~= tell);
                }
                let ns = ron_scores(&self.score, id, a, x);
                self.score = ns;
                Ok(true)
            },
            None => {
                self.shut(id, acts);
                proof {
                    lemma_extends_push(a0, Action::Shut { id });
                }
                Ok(false)
            },
        }
    }

    /// Player `id` claims a kong of the last discard: he must hold three of it;
    /// otherwise he is shut down.
    pub fn gang(&mut self, id: usize, acts: &mut Vec<Action>) -> (r: Result<bool, Fault>)
        requires
            old(self).wf_core(),
            old(self).last_tile is Some,
            id < 4,
        ensures
            id >= old(self).tiles.len() ==> r == Err::<bool, Fault>(Fault::MissingHand),
            id < old(self).tiles.len() ==> {
                let h = old(self).hand_of(id as int);
                let t = old(self).last_tile->0;
                &&& count(h, t) == 3 ==> r == Ok::<bool, Fault>(true) && claimed(
                    old(self),
                    final(self),
                    id as int,
                    remove_first(remove_first(remove_first(h, t), t), t),
                    false,
                    false,
                    true,
                    t,
                )
                &&& count(h, t) != 3 ==> r == Ok::<bool, Fault>(false) && final(self).same_table(old(self))
                    && final(self).alive@ == old(self).alive@.update(id as int, false)
                    && final(self).score@ == old(self).score@
            },
            id < old(self).tiles.len() ==> final(acts)@ == old(acts)@.push(
                if count(old(self).hand_of(id as int), old(self).last_tile->0) == 3 {
                    Action::Log {
                        record: Record::Gang { id, from: old(self).action_id, tile: old(self).last_tile->0 },
                    }
                } else {
                    Action::Shut { id }
                },
            ),
            id >= old(self).tiles.len() ==> final(acts)@ == old(acts)@,
            r is Ok ==> final(self).wf_core(),
            final(self).score@ == old(self).score@,
            r is Ok ==> no_one_returns(old(self).alive@, final(self).alive@),
            r is Ok ==> total(final(self).score@) <= total(old(self).score@),
            extends(final(acts)@, old(acts)@),
    {
        proof {
            lemma_extends_refl(acts@);
        }
        if id >= self.tiles.len() {
            return Err(Fault::MissingHand);
        }
        let t = self.last_tile.unwrap();
        let ghost a0 = acts@;
        let ghost o = *self;
        if count_in(&self.tiles[id].hands, t) == 3 {
            let mut pt = self.tiles[id].duplicate();
            proof {
                assert(player_ok(o.tiles@[id as int]@, o.dealt()));
                crate::hand::lemma_remove_three_pub(o.hand_of(id as int), t);
            }
            remove_one(&mut pt.hands, t);
            remove_one(&mut pt.hands, t);
            remove_one(&mut pt.hands, t);
            pt.kongs.push(t);
            proof {
                assert forall|j: int| 0 <= j < pt@.kongs.len() implies is_tile(#[trigger] pt@.kongs[j]) by {
                    if j < o.tiles@[id as int]@.kongs.len() {
                        assert(pt@.kongs[j] == o.tiles@[id as int]@.kongs[j]);
                    }
                }
            }
            self.tiles.set(id, pt);
            let a = self.action_id;
            acts.push(Action::Log { record: Record::Gang { id, from: a, tile: t } });
            proof {
                lemma_extends_push(a0, acts@.last());
                assert(acts@ == a0.push(acts@.last()));
                assert forall|j: int| 0 <= j < self.tiles.len() implies player_ok(
                    #[trigger] self.tiles@[j]@,
                    self.dealt(),
                ) by {
                    if j != id {
                        assert(self.tiles@[j] == o.tiles@[j]);
                    }
                }
            }
            Ok(true)
        } else {
            self.shut(id, acts);
            proof {
                lemma_extends_push(a0, Action::Shut { id });
            }
            Ok(false)
        }
    }

    /// Player `id` claims a pung of the last discard: he must hold two of it;
    /// otherwise he is shut down.
    pub fn peng(&mut self, id: usize, acts: &mut Vec<Action>) -> (r: Result<bool, Fault>)
        requires
            old(self).wf_core(),
            old(self).last_tile is Some,
            id < 4,
        ensures
            id >= old(self).tiles.len() ==> r == Err::<bool, Fault>(Fault::MissingHand),
            id < old(self).tiles.len() ==> {
                let h = old(self).hand_of(id as int);
                let t = old(self).last_tile->0;
                &&& count(h, t) >= 2 ==> r == Ok::<bool, Fault>(true) && claimed(
                    old(self),
                    final(self),
                    id as int,
                    remove_first(remove_first(h, t), t),
                    false,
                    true,
                    false,
                    t,
                )
                &&& count(h, t) < 2 ==> r == Ok::<bool, Fault>(false) && final(self).same_table(old(self))
                    && final(self).alive@ == old(self).alive@.update(id as int, false)
                    && final(self).score@ == old(self).score@
            },
            id < old(self).tiles.len() ==> final(acts)@ == old(acts)@.push(
                if count(old(self).hand_of(id as int), old(self).last_tile->0) >= 2 {
                    Action::Log {
                        record: Record::Peng { id, from: old(self).action_id, tile: old(self).last_tile->0 },
                    }
                } else {
                    Action::Shut { id }
                },
            ),
            id >= old(self).tiles.len() ==> final(acts)@ == old(acts)@,
            r is Ok ==> final(self).wf_core(),
            final(self).score@ == old(self).score@,
            r is Ok ==> no_one_returns(old(self).alive@, final(self).alive@),
            r is Ok ==> total(final(self).score@) <= total(old(self).score@),
            extends(final(acts)@, old(acts)@),
    {
        proof {
            lemma_extends_refl(acts@);
        }
        if id >= self.tiles.len() {
            return Err(Fault::MissingHand);
        }
        let t = self.last_tile.unwrap();
        let ghost a0 = acts@;
        let ghost o = *self;
        if count_in(&self.tiles[id].hands, t) >= 2 {
            let mut pt = self.tiles[id].duplicate();
            proof {
                assert(player_ok(o.tiles@[id as int]@, o.dealt()));
                crate::hand::lemma_remove_two_pub(o.hand_of(id as int), t);
            }
            remove_one(&mut pt.hands, t);
            remove_one(&mut pt.hands, t);
            pt.pungs.push(t);
            proof {
                assert forall|j: int| 0 <= j < pt@.pungs.len() implies is_tile(#[trigger] pt@.pungs[j]) by {
                    if j < o.tiles@[id as int]@.pungs.len() {
                        assert(pt@.pungs[j] == o.tiles@[id as int]@.pungs[j]);
                    }
                }
            }
            self.tiles.set(id, pt);
            let a = self.action_id;
            acts.push(Action::Log { record: Record::Peng { id, from: a, tile: t } });
            proof {
                lemma_extends_push(a0, acts@.last());
                assert(acts@ == a0.push(acts@.last()));
                assert forall|j: int| 0 <= j < self.tiles.len() implies player_ok(
                    #[trigger] self.tiles@[j]@,
                    self.dealt(),
                ) by {
                    if j != id {
                        assert(self.tiles@[j] == o.tiles@[j]);
                    }
                }
            }
            Ok(true)
        } else {
            self.shut(id, acts);
            proof {
                lemma_extends_push(a0, Action::Shut { id });
            }
            Ok(false)
        }
    }
}

/// The members of the run from rank `low` in suit letter `suit` that a chow
/// claim still needs from the hand: those that are not the discard `lt`.
pub open spec fn needed(low: u8, suit: char, lt: Tile, k: int) -> bool {
    run_member((low + k) as u8, suit) != Some(lt)
}

/// How many tiles of hand `h` are among the needed members.
pub open spec fn needed_in_hand(h: Seq<Tile>, low: u8, suit: char, lt: Tile) -> int {
    let c = |k: int|
        if needed(low, suit, lt, k) && run_member((low + k) as u8, suit) is Some {
            count(h, run_member((low + k) as u8, suit)->0) as int
        } else {
            0
        };
    c(0) + c(1) + c(2)
}

/// The run from rank `low` in suit letter `suit` holds the discard `lt`.
pub open spec fn run_has(low: u8, suit: char, lt: Tile) -> bool {
    run_member(low, suit) == Some(lt) || run_member((low + 1) as u8, suit) == Some(lt) || run_member(
        (low + 2) as u8,
        suit,
    ) == Some(lt)
}

/// A chow claim can be made with that run: it holds the discard, and the
/// hand holds at least two of the run's other members.
pub open spec fn chow_fits(h: Seq<Tile>, low: u8, suit: char, lt: Tile) -> bool {
    run_has(low, suit, lt) && needed_in_hand(h, low, suit, lt) >= 2
}

/// Every needed member is a tile the hand holds.
pub open spec fn needed_all_held(h: Seq<Tile>, low: u8, suit: char, lt: Tile) -> bool {
    forall|k: int|
        0 <= k < 3 && needed(low, suit, lt, k) ==> (#[trigger] run_member((low + k) as u8, suit)) is Some
            && h.contains(run_member((low + k) as u8, suit)->0)
}

/// `h` without one of each needed member, taken out in order.
pub open spec fn without_needed(h: Seq<Tile>, low: u8, suit: char, lt: Tile) -> Seq<Tile> {
    let step = |s: Seq<Tile>, k: int|
        if needed(low, suit, lt, k) {
            remove_first(s, run_member((low + k) as u8, suit)->0)
        } else {
            s
        };
    step(step(step(h, 0), 1), 2)
}

impl Game {
    /// Player `id` claims a chow of the last discard, naming the run's lowest
    /// tile in `arg`.  Only the next player may; a run that cannot be formed is
    /// refused quietly; a hand without two of the needed tiles shuts him down.
    #[verifier::spinoff_prover]
    pub fn chi(&mut self, id: usize, arg: &Vec<char>, acts: &mut Vec<Action>) -> (r: Result<bool, Fault>)
        requires
            old(self).wf_core(),
            old(self).last_tile is Some,
            id < 4,
        ensures
            id != next_seat(old(self).action_id) || chow_arg(arg@) == ChowArg::NoChow ==> r
                == Ok::<bool, Fault>(false) && final(self).same_table(old(self))
                && final(self).alive@ == old(self).alive@ && final(acts)@ == old(acts)@,
            id == next_seat(old(self).action_id) && chow_arg(arg@) == ChowArg::Malformed ==> r
                == Err::<bool, Fault>(Fault::MalformedChow),
            id == next_seat(old(self).action_id) && chow_arg(arg@) is Run ==> {
                let low = chow_arg(arg@)->low;
                let suit = chow_arg(arg@)->suit;
                let lt = old(self).last_tile->0;
                let h = old(self).hand_of(id as int);
                &&& id >= old(self).tiles.len() ==> r == Err::<bool, Fault>(Fault::MissingHand)
                &&& id < old(self).tiles.len() && chow_fits(h, low, suit, lt)
                    && needed_all_held(h, low, suit, lt) ==> r == Ok::<bool, Fault>(true) && run_member(
                    low,
                    suit,
                ) is Some && claimed(
                    old(self),
                    final(self),
                    id as int,
                    without_needed(h, low, suit, lt),
                    true,
                    false,
                    false,
                    run_member(low, suit)->0,
                )
                &&& id < old(self).tiles.len() && chow_fits(h, low, suit, lt)
                    && !needed_all_held(h, low, suit, lt) ==> r == Err::<bool, Fault>(
                    Fault::ChowTileMissing,
                )
                &&& id < old(self).tiles.len() && !chow_fits(h, low, suit, lt) ==> r == Ok::<
                    bool,
                    Fault,
                >(false) && final(self).same_table(old(self)) && final(self).alive@ == old(
                    self,
                ).alive@.update(id as int, false)
            },
            id == next_seat(old(self).action_id) && chow_arg(arg@) is Run && id < old(self).tiles.len() ==> {
                let low = chow_arg(arg@)->low;
                let suit = chow_arg(arg@)->suit;
                let lt = old(self).last_tile->0;
                let h = old(self).hand_of(id as int);
                &&& chow_fits(h, low, suit, lt) && needed_all_held(h, low, suit, lt) ==> final(acts)@
                    == old(acts)@.push(
                    Action::Log {
                        record: Record::Chi { id, from: old(self).action_id, start: run_member(low, suit)->0 },
                    },
                )
                &&& !chow_fits(h, low, suit, lt) ==> final(acts)@ == old(acts)@.push(Action::Shut { id })
            },
            r is Err ==> final(acts)@ == old(acts)@,
            r is Ok ==> final(self).wf_core(),
            final(self).score@ == old(self).score@,
            r is Ok ==> no_one_returns(old(self).alive@, final(self).alive@),
            r is Ok ==> total(final(self).score@) <= total(old(self).score@),
            extends(final(acts)@, old(acts)@),
    {
        proof {
            lemma_extends_refl(acts@);
        }
        if id != (self.action_id + 1) % 4 {
            return Ok(false);
        }
        let (low, suit) = match parse_chow_arg(arg) {
            ChowArg::NoChow => {
                return Ok(false);
            },
            ChowArg::Malformed => {
                return Err(Fault::MalformedChow);
            },
            ChowArg::Run { low, suit } => (low, suit),
        };
        if id >= self.tiles.len() {
            return Err(Fault::MissingHand);
        }
        let lt = self.last_tile.unwrap();
        let ghost o = *self;
        let ghost h = o.hand_of(id as int);
        proof {
            assert(player_ok(o.tiles@[id as int]@, o.dealt()));
        }
        let n = needed_count(&self.tiles[id].hands, low, suit, lt);
        let has_discard = run_member_exec(low, suit) == Some(lt) || run_member_exec(low + 1, suit) == Some(lt)
            || run_member_exec(low + 2, suit) == Some(lt);
        let ghost a0 = acts@;
        if has_discard && n >= 2 {
            let mut pt = self.tiles[id].duplicate();
            match take_needed(&self.tiles[id].hands, low, suit, lt) {
                Some(v) => {
                    pt.hands = v;
                },
                None => {
                    return Err(Fault::ChowTileMissing);
                },
            }
            let m0 = run_member_exec(low, suit);
            proof {
                lemma_run_start(low, suit, lt, h);
            }
            let start = match m0 {
                Some(t) => t,
                None => lt,
            };
            pt.chows.push(start);
            proof {
                assert forall|j: int| 0 <= j < pt@.chows.len() implies crate::hand::is_chow_start(
                    #[trigger] pt@.chows[j],
                ) by {
                    if j < o.tiles@[id as int]@.chows.len() {
                        assert(pt@.chows[j] == o.tiles@[id as int]@.chows[j]);
                    }
                }
            }
            self.tiles.set(id, pt);
            let a = self.action_id;
            acts.push(Action::Log { record: Record::Chi { id, from: a, start } });
            proof {
                lemma_extends_push(a0, acts@.last());
                assert(acts@ == a0.push(acts@.last()));
                assert forall|j: int| 0 <= j < self.tiles.len() implies player_ok(
                    #[trigger] self.tiles@[j]@,
                    self.dealt(),
                ) by {
                    if j != id {
                        assert(self.tiles@[j] == o.tiles@[j]);
                    }
                }
            }
            Ok(true)
        } else {
            self.shut(id, acts);
            proof {
                lemma_extends_push(a0, Action::Shut { id });
            }
            Ok(false)
        }
    }
}

/// How many tiles of hand `h` are among the needed members of a run.
fn needed_count(h: &Vec<Tile>, low: u8, suit: char, lt: Tile) -> (r: usize)
    requires
        low <= 7,
        h.len() <= 1000,
    ensures
        r == needed_in_hand(h@, low, suit, lt),
{
    let mut r: usize = 0;
    let mut k: u8 = 0;
    while k < 3
        invariant
            k <= 3,
            low <= 7,
            h.len() <= 1000,
            r <= k * 1000,
            r == sum_needed(h@, low, suit, lt, k as int),
        decreases 3 - k,
    {
        let m = run_member_exec(low + k, suit);
        match m {
            Some(t) => {
                if t != lt {
                    let c = count_in(h, t);
                    proof {
                        crate::hand::lemma_count_le_len(h@, t);
                    }
                    r = r + c;
                }
            },
            None => {},
        }
        k = k + 1;
    }
    assert(sum_needed(h@, low, suit, lt, 3) == needed_in_hand(h@, low, suit, lt)) by {
        reveal_with_fuel(sum_needed, 4);
    }
    r
}

/// The needed-member count over the first `k` members.
pub open spec fn sum_needed(h: Seq<Tile>, low: u8, suit: char, lt: Tile, k: int) -> int
    decreases k,
{
    if k <= 0 {
        0
    } else {
        sum_needed(h, low, suit, lt, k - 1) + if needed(low, suit, lt, k - 1) && run_member(
            (low + k - 1) as u8,
            suit,
        ) is Some {
            count(h, run_member((low + k - 1) as u8, suit)->0) as int
        } else {
            0
        }
    }
}

/// The hand without one of each needed member of a run, where it holds
/// them all.
#[verifier::spinoff_prover]
fn take_needed(h: &Vec<Tile>, low: u8, suit: char, lt: Tile) -> (r: Option<Vec<Tile>>)
    requires
        all_tiles_valid(h@),
        low <= 7,
        needed_in_hand(h@, low, suit, lt) >= 2,
    ensures
        r is Some <==> needed_all_held(h@, low, suit, lt),
        r matches Some(v) ==> v@ == without_needed(h@, low, suit, lt) && all_tiles_valid(v@)
            && v@.len() < h@.len(),
{
    let mut v = crate::hand::copy_tiles(h);
    let ghost s0 = v@;
    let m0 = run_member_exec(low, suit);
    let m1 = run_member_exec(low + 1, suit);
    let m2 = run_member_exec(low + 2, suit);
    proof {
        lemma_members_distinct(low, suit);
    }
    if m0 != Some(lt) {
        match m0 {
            Some(t) => {
                if !remove_one(&mut v, t) {
                    return None;
                }
                proof { crate::hand::lemma_remove_first_valid_pub(s0, t); }
            },
            None => {
                return None;
            },
        }
    }
    let ghost s1 = v@;
    if m1 != Some(lt) {
        match m1 {
            Some(t) => {
                proof {
                    if m0 != Some(lt) {
                        lemma_contains_after_removal(s0, m0->0, t);
                    }
                }
                if !remove_one(&mut v, t) {
                    return None;
                }
                proof { crate::hand::lemma_remove_first_valid_pub(s1, t); }
            },
            None => {
                return None;
            },
        }
    }
    let ghost s2 = v@;
    if m2 != Some(lt) {
        match m2 {
            Some(t) => {
                proof {
                    if m0 != Some(lt) {
                        lemma_contains_after_removal(s0, m0->0, t);
                    }
                    if m1 != Some(lt) {
                        lemma_contains_after_removal(s1, m1->0, t);
                    }
                }
                if !remove_one(&mut v, t) {
                    return None;
                }
                proof { crate::hand::lemma_remove_first_valid_pub(s2, t); }
            },
            None => {
                return None;
            },
        }
    }
    proof {
        assert(needed_all_held(h@, low, suit, lt));
        if m0 == Some(lt) && m1 == Some(lt) {
            assert(false);
        }
    }
    Some(v)
}

/// The members of a run are different tiles.
proof fn lemma_members_distinct(low: u8, suit: char)
    requires
        low <= 7,
    ensures
        run_member(low, suit) is Some && run_member((low + 1) as u8, suit) is Some ==> run_member(low, suit)
            != run_member((low + 1) as u8, suit),
        run_member(low, suit) is Some && run_member((low + 2) as u8, suit) is Some ==> run_member(low, suit)
            != run_member((low + 2) as u8, suit),
        run_member((low + 1) as u8, suit) is Some && run_member((low + 2) as u8, suit) is Some ==> run_member(
            (low + 1) as u8,
            suit,
        ) != run_member((low + 2) as u8, suit),
{
}

/// A run's lowest member, when it names a tile, starts a chow; and when the
/// claim goes through it names one.
proof fn lemma_run_start(low: u8, suit: char, lt: Tile, h: Seq<Tile>)
    requires
        low <= 7,
        is_tile(lt),
        needed_all_held(h, low, suit, lt),
    ensures
        run_member(low, suit) is Some,
        crate::hand::is_chow_start(run_member(low, suit)->0),
{
    if run_member(low, suit) != Some(lt) {
        assert(needed(low, suit, lt, 0));
        assert(run_member((low + 0) as u8, suit) is Some);
    }
}

/// Taking out one tile leaves another tile where it was.
proof fn lemma_contains_after_removal(s: Seq<Tile>, x: Tile, y: Tile)
    requires
        s.contains(x),
        x != y,
    ensures
        remove_first(s, x).contains(y) == s.contains(y),
{
    lemma_count_remove_first(s, x);
    lemma_count_contains(s, y);
    lemma_count_contains(remove_first(s, x), y);
}

/// `w` lists each seat once: an order in which stored answers are walked.
pub open spec fn is_walk(w: Seq<usize>) -> bool {
    &&& w.len() == 4
    &&& forall|i: int| 0 <= i < 4 ==> #[trigger] w[i] < 4
    &&& forall|i: int, j: int| 0 <= i < j < 4 ==> w[i] != w[j]
}

/// The priority of an answer to a discard: a win by the nearest player
/// first, then a kong, a pung, a chow, anything else last.
pub open spec fn claim_key(text: Seq<char>, id: int, action: int) -> int {
    let w = word_of(first_field(text));
    if w == Word::Hu {
        (id + 4 - action) % 4
    } else if w == Word::Gang {
        16
    } else if w == Word::Peng {
        64
    } else if w == Word::Chi {
        254
    } else {
        255
    }
}

pub fn claim_key_exec(text: &Vec<char>, id: usize, action: usize) -> (r: u8)
    requires
        id < 4,
        action < 4,
    ensures
        r == claim_key(text@, id as int, action as int),
{
    let w = classify(&first_field_of(text));
    match w {
        Word::Hu => ((id + 4 - action) % 4) as u8,
        Word::Gang => 16,
        Word::Peng => 64,
        Word::Chi => 254,
        _ => 255,
    }
}

/// A copy of a text.
pub fn copy_chars(v: &Vec<char>) -> (r: Vec<char>)
    ensures
        r@ == v@,
{
    let mut r: Vec<char> = Vec::new();
    let mut i: usize = 0;
    while i < v.len()
        invariant
            i <= v.len(),
            r@ == v@.take(i as int),
        decreases v.len() - i,
    {
        r.push(v[i]);
        i = i + 1;
        assert(r@ =~= v@.take(i as int));
    }
    assert(v@.take(v.len() as int) =~= v@);
    r
}

/// The text `pass`.
pub fn pass_text() -> (r: Vec<char>)
    ensures
        r@ == crate::protocol::word_text(Word::Pass),
{
    let mut r: Vec<char> = Vec::new();
    r.push('p');
    r.push('a');
    r.push('s');
    r.push('s');
    assert(r@ =~= crate::protocol::word_text(Word::Pass));
    r
}

/// Seat `c` answered with something other than a pass.
pub open spec fn claims(g: &Game, c: usize) -> bool {
    g.messages@[c as int] matches Some(m) && word_of(trim(m@)) != Word::Pass
}

/// The seats among the first `k` of `walk` that claimed, in walk order.
pub open spec fn claimants(g: &Game, walk: Seq<usize>, k: int) -> Seq<usize>
    decreases k,
{
    if k <= 0 {
        Seq::empty()
    } else {
        claimants(g, walk, k - 1) + if claims(g, walk[k - 1]) {
            seq![walk[k - 1]]
        } else {
            Seq::empty()
        }
    }
}

/// The priority of seat `c`'s answer.
pub open spec fn key_of(g: &Game, c: usize) -> int {
    claim_key(g.messages@[c as int]->0@, c as int, g.action_id as int)
}

/// The seats of `c` whose answers have priority `key`, in the order of `c`.
pub open spec fn with_key(g: &Game, c: Seq<usize>, key: u8) -> Seq<usize>
    decreases c.len(),
{
    if c.len() == 0 {
        Seq::empty()
    } else {
        with_key(g, c.drop_last(), key) + if g.messages@[c.last() as int] is Some && key_of(g, c.last()) == key {
            seq![c.last()]
        } else {
            Seq::empty()
        }
    }
}

/// Every priority an answer can have, highest first.
pub open spec fn claim_keys() -> Seq<u8> {
    seq![0u8, 1u8, 2u8, 3u8, 16u8, 64u8, 254u8, 255u8]
}

/// The seats of `c` whose answers have one of the first `q` priorities,
/// ordered by priority and, within one priority, in the order of `c`.
pub open spec fn by_priority(g: &Game, c: Seq<usize>, q: int) -> Seq<usize>
    decreases q,
{
    if q <= 0 {
        Seq::empty()
    } else {
        by_priority(g, c, q - 1) + with_key(g, c, claim_keys()[q - 1])
    }
}

/// The claims on a discard in the order they are judged.
pub open spec fn answer_order_spec(g: &Game, walk: Seq<usize>) -> Seq<usize> {
    by_priority(g, claimants(g, walk, 4), 8)
}

/// The place of priority `k` in `claim_keys`, or 8 where it is not there.
pub open spec fn key_place(k: int) -> int {
    if 0 <= k < 4 {
        k
    } else if k == 16 {
        4
    } else if k == 64 {
        5
    } else if k == 254 {
        6
    } else if k == 255 {
        7
    } else {
        8
    }
}

proof fn lemma_key_place(text: Seq<char>, id: int, action: int)
    requires
        0 <= id < 4,
        0 <= action < 4,
    ensures
        0 <= key_place(claim_key(text, id, action)) < 8,
        forall|q: int|
            0 <= q < 8 ==> (claim_keys()[q] as int == claim_key(text, id, action) <==> key_place(
                claim_key(text, id, action),
            ) == q),
{
}

proof fn lemma_with_key_count(g: &Game, c: Seq<usize>, key: u8, x: usize)
    ensures
        with_key(g, c, key).to_multiset().count(x) == if g.messages@[x as int] is Some && key_of(g, x) == key {
            c.to_multiset().count(x)
        } else {
            0
        },
    decreases c.len(),
{
    broadcast use vstd::seq_lib::group_to_multiset_ensures;

    if c.len() == 0 {
        assert(with_key(g, c, key) =~= Seq::<usize>::empty());
    } else {
        let d = c.drop_last();
        let l = c.last();
        lemma_with_key_count(g, d, key, x);
        assert(c =~= d.push(l));
        let tail: Seq<usize> = if g.messages@[l as int] is Some && key_of(g, l) == key {
            seq![l]
        } else {
            Seq::empty()
        };
        vstd::seq_lib::lemma_multiset_commutative(with_key(g, d, key), tail);
        if g.messages@[l as int] is Some && key_of(g, l) == key {
            assert(tail =~= Seq::<usize>::empty().push(l));
        } else {
            assert(tail.to_multiset() =~= vstd::multiset::Multiset::empty());
        }
    }
}

proof fn lemma_by_priority_count(g: &Game, c: Seq<usize>, q: int, x: usize)
    requires
        0 <= q <= 8,
        x < 4,
        g.action_id < 4,
    ensures
        by_priority(g, c, q).to_multiset().count(x) == if g.messages@[x as int] is Some && key_place(
            key_of(g, x),
        ) < q {
            c.to_multiset().count(x)
        } else {
            0
        },
    decreases q,
{
    broadcast use vstd::seq_lib::group_to_multiset_ensures;

    if q == 0 {
        assert(by_priority(g, c, q) =~= Seq::<usize>::empty());
    } else {
        lemma_by_priority_count(g, c, q - 1, x);
        lemma_with_key_count(g, c, claim_keys()[q - 1], x);
        vstd::seq_lib::lemma_multiset_commutative(by_priority(g, c, q - 1), with_key(g, c, claim_keys()[q - 1]));
        if g.messages@[x as int] is Some {
            lemma_key_place(g.messages@[x as int]->0@, x as int, g.action_id as int);
        }
    }
}

proof fn lemma_claimants_claim(g: &Game, walk: Seq<usize>, k: int, x: usize)
    requires
        is_walk(walk),
        0 <= k <= 4,
        claimants(g, walk, k).contains(x),
    ensures
        claims(g, x),
        x < 4,
    decreases k,
{
    if k > 0 {
        let d = claimants(g, walk, k - 1);
        if d.contains(x) {
            lemma_claimants_claim(g, walk, k - 1, x);
        } else {
            let i = choose|i: int| 0 <= i < claimants(g, walk, k).len() && claimants(g, walk, k)[i] == x;
            assert(i >= d.len());
        }
    } else {
        assert(claimants(g, walk, k) =~= Seq::<usize>::empty());
    }
}

/// Ordering the claims by priority keeps every claim once: the order holds
/// exactly the seats that claimed, each as often as walked.
pub proof fn lemma_answer_order_keeps_claims(g: &Game, walk: Seq<usize>)
    requires
        g.wf_core(),
        is_walk(walk),
    ensures
        answer_order_spec(g, walk).to_multiset() == claimants(g, walk, 4).to_multiset(),
{
    broadcast use vstd::seq_lib::group_to_multiset_ensures;

    let c = claimants(g, walk, 4);
    assert forall|x: usize| #[trigger] answer_order_spec(g, walk).to_multiset().count(x) == c.to_multiset().count(x) by {
        if c.to_multiset().count(x) > 0 {
            assert(c.contains(x));
            lemma_claimants_claim(g, walk, 4, x);
            lemma_key_place(g.messages@[x as int]->0@, x as int, g.action_id as int);
            lemma_by_priority_count(g, c, 8, x);
        } else if x < 4 {
            lemma_by_priority_count(g, c, 8, x);
        } else {
            assert(!c.contains(x)) by {
                if c.contains(x) {
                    lemma_claimants_claim(g, walk, 4, x);
                }
            }
            lemma_with_key_absent(g, c, x, 8);
        }
    }
    assert(answer_order_spec(g, walk).to_multiset() =~= c.to_multiset());
}

/// Every seat that `with_key` keeps is one of `c`, has answered, and its
/// answer has priority `key`.
proof fn lemma_with_key_members(g: &Game, c: Seq<usize>, key: u8, i: int)
    requires
        0 <= i < with_key(g, c, key).len(),
    ensures
        c.contains(with_key(g, c, key)[i]),
        g.messages@[with_key(g, c, key)[i] as int] is Some,
        key_of(g, with_key(g, c, key)[i]) == key,
    decreases c.len(),
{
    let d = c.drop_last();
    let w = with_key(g, d, key);
    if i < w.len() {
        lemma_with_key_members(g, d, key, i);
        assert(with_key(g, c, key)[i] == w[i]);
        let j = choose|j: int| 0 <= j < d.len() && d[j] == w[i];
        assert(c[j] == d[j]);
    } else {
        assert(with_key(g, c, key)[i] == c.last());
        assert(c[c.len() - 1] == c.last());
    }
}

/// Every seat that `by_priority` lists over the first `q` priorities is one
/// of `c`, has answered, and has one of those priorities; and the seats come
/// in the order of their priorities.
proof fn lemma_by_priority_sorted(g: &Game, c: Seq<usize>, q: int)
    requires
        0 <= q <= 8,
        g.action_id < 4,
        forall|i: int| 0 <= i < c.len() ==> #[trigger] c[i] < 4,
    ensures
        forall|i: int|
            0 <= i < by_priority(g, c, q).len() ==> #[trigger] g.messages@[by_priority(g, c, q)[i] as int] is Some
                && key_place(key_of(g, by_priority(g, c, q)[i])) < q && by_priority(g, c, q)[i] < 4,
        forall|i: int, j: int|
            0 <= i < j < by_priority(g, c, q).len() ==> key_place(key_of(g, #[trigger] by_priority(g, c, q)[i]))
                <= key_place(key_of(g, #[trigger] by_priority(g, c, q)[j])),
    decreases q,
{
    if q > 0 {
        lemma_by_priority_sorted(g, c, q - 1);
        let a = by_priority(g, c, q - 1);
        let b = with_key(g, c, claim_keys()[q - 1]);
        let s = by_priority(g, c, q);
        assert(s == a + b);
        assert forall|i: int| a.len() <= i < s.len() implies g.messages@[s[i] as int] is Some && key_place(key_of(g, s[i]))
            == q - 1 && s[i] < 4 by {
            lemma_with_key_members(g, c, claim_keys()[q - 1], i - a.len());
            assert(s[i] == b[i - a.len()]);
            let x = s[i];
            let k = choose|k: int| 0 <= k < c.len() && c[k] == x;
            assert(c[k] < 4);
            lemma_key_place(g.messages@[x as int]->0@, x as int, g.action_id as int);
        }
        assert forall|i: int| 0 <= i < a.len() implies #[trigger] s[i] == a[i] by {}
    }
}

/// The claim of seat `x` may be judged before that of seat `y`: a win
/// comes before any other claim, and before a win of a seat farther after
/// the discarder; a kong before a pung or chow; a pung before a chow; a
/// chow before anything else.
pub open spec fn judged_no_later(g: &Game, x: usize, y: usize) -> bool {
    let wx = word_of(first_field(answer(g, x)));
    let wy = word_of(first_field(answer(g, y)));
    &&& wy == Word::Hu ==> wx == Word::Hu && (x + 4 - g.action_id) % 4 <= (y + 4 - g.action_id) % 4
    &&& wy == Word::Gang ==> wx == Word::Hu || wx == Word::Gang
    &&& wy == Word::Peng ==> wx == Word::Hu || wx == Word::Gang || wx == Word::Peng
    &&& wy == Word::Chi ==> wx == Word::Hu || wx == Word::Gang || wx == Word::Peng || wx == Word::Chi
}

/// The claims on a discard are judged by kind, whatever order they were
/// walked in: every win before every kong, every kong before every pung,
/// every pung before every chow, every chow before anything else, and among
/// wins the nearer claimant after the discarder first.
pub proof fn law_claims_by_kind(g: &Game, walk: Seq<usize>)
    requires
        g.wf_core(),
        is_walk(walk),
    ensures
        forall|i: int, j: int|
            0 <= i < j < answer_order_spec(g, walk).len() ==> judged_no_later(
                g,
                #[trigger] answer_order_spec(g, walk)[i],
                #[trigger] answer_order_spec(g, walk)[j],
            ),
{
    let c = claimants(g, walk, 4);
    assert forall|i: int| 0 <= i < c.len() implies #[trigger] c[i] < 4 by {
        assert(c.contains(c[i]));
        lemma_claimants_claim(g, walk, 4, c[i]);
    }
    lemma_by_priority_sorted(g, c, 8);
}

proof fn lemma_with_key_absent(g: &Game, c: Seq<usize>, x: usize, q: int)
    requires
        !c.contains(x),
        0 <= q <= 8,
    ensures
        by_priority(g, c, q).to_multiset().count(x) == 0,
    decreases q,
{
    broadcast use vstd::seq_lib::group_to_multiset_ensures;

    if q == 0 {
        assert(by_priority(g, c, q) =~= Seq::<usize>::empty());
    } else {
        lemma_with_key_absent(g, c, x, q - 1);
        lemma_with_key_count(g, c, claim_keys()[q - 1], x);
        vstd::seq_lib::lemma_multiset_commutative(by_priority(g, c, q - 1), with_key(g, c, claim_keys()[q - 1]));
    }
}

impl Game {
    /// The text stored as player `i`'s answer, if any.
    pub fn message_of(&self, i: usize) -> (r: Option<Vec<char>>)
        requires
            self.messages.len() == 4,
            i < 4,
        ensures
            r is Some <==> self.messages@[i as int] is Some,
            r matches Some(t) ==> t@ == self.messages@[i as int]->0@,
    {
        match &self.messages[i] {
            Some(m) => Some(copy_chars(m)),
            None => None,
        }
    }

    /// The answers to a discard, walked in the order `walk`, leaving out
    /// passes, and ordered by priority, answers of equal priority in walk
    /// order, before they are acted on.
    pub fn answer_order(&self, walk: &Vec<usize>) -> (r: Vec<usize>)
        requires
            self.wf_core(),
            is_walk(walk@),
        ensures
            r@ == answer_order_spec(self, walk@),
            forall|i: int| 0 <= i < r.len() ==> #[trigger] r@[i] < 4,
    {
        let mut cands: Vec<usize> = Vec::new();
        let mut k: usize = 0;
        while k < 4
            invariant
                k <= 4,
                self.wf_core(),
                is_walk(walk@),
                cands@ == claimants(self, walk@, k as int),
                forall|i: int| 0 <= i < cands.len() ==> #[trigger] cands@[i] < 4,
            decreases 4 - k,
        {
            let w = walk[k];
            match self.message_of(w) {
                Some(m) => {
                    if classify(&trimmed(&m)) != Word::Pass {
                        cands.push(w);
                    }
                },
                None => {},
            }
            k = k + 1;
            assert(cands@ =~= claimants(self, walk@, k as int));
        }
        let keys: [u8; 8] = [0, 1, 2, 3, 16, 64, 254, 255];
        assert(keys@ =~= seq![0u8, 1u8, 2u8, 3u8, 16u8, 64u8, 254u8, 255u8]);
        let mut ordered: Vec<usize> = Vec::new();
        let mut q: usize = 0;
        while q < 8
            invariant
                q <= 8,
                self.wf_core(),
                keys@ == seq![0u8, 1u8, 2u8, 3u8, 16u8, 64u8, 254u8, 255u8],
                ordered@ == by_priority(self, cands@, q as int),
                forall|i: int| 0 <= i < cands.len() ==> #[trigger] cands@[i] < 4,
                forall|i: int| 0 <= i < ordered.len() ==> #[trigger] ordered@[i] < 4,
            decreases 8 - q,
        {
            let ghost before = ordered@;
            let mut j: usize = 0;
            while j < cands.len()
                invariant
                    j <= cands.len(),
                    q < 8,
                    self.wf_core(),
                    keys@ == seq![0u8, 1u8, 2u8, 3u8, 16u8, 64u8, 254u8, 255u8],
                    before == by_priority(self, cands@, q as int),
                    ordered@ == before + with_key(self, cands@.take(j as int), claim_keys()[q as int]),
                    forall|i: int| 0 <= i < cands.len() ==> #[trigger] cands@[i] < 4,
                    forall|i: int| 0 <= i < ordered.len() ==> #[trigger] ordered@[i] < 4,
                decreases cands.len() - j,
            {
                let c = cands[j];
                let ghost tj = cands@.take(j as int);
                match self.message_of(c) {
                    Some(m) => {
                        if claim_key_exec(&m, c, self.action_id) == keys[q] {
                            ordered.push(c);
                        }
                    },
                    None => {},
                }
                j = j + 1;
                proof {
                    assert(cands@.take(j as int).drop_last() =~= tj);
                    assert(cands@.take(j as int).last() == c);
                    assert(ordered@ =~= before + with_key(self, cands@.take(j as int), claim_keys()[q as int]));
                }
            }
            q = q + 1;
            proof {
                assert(cands@.take(cands.len() as int) =~= cands@);
                assert(ordered@ =~= by_priority(self, cands@, q as int));
            }
        }
        ordered
    }
}

/// What a claim on a discard comes to.
pub enum Verdict {
    /// Nothing happens.
    Ignored,
    /// The claimant is shut down.
    Refused,
    /// The claim is carried out.
    Granted,
    /// The server cannot go on.
    Fails(Fault),
}

/// What the claim `m` of player `c` on the discard of `g` comes to: a win
/// needs a scoring hand, a kong three of the tile, a pung two, a chow (by
/// the next player only) two of the other tiles of the run.
pub open spec fn verdict(g: &Game, c: int, m: Seq<char>) -> Verdict {
    let w = word_of(trim(first_field(m)));
    let lt = g.last_tile->0;
    let h = g.hand_of(c);
    if w == Word::Hu {
        if c >= g.tiles.len() {
            Verdict::Fails(Fault::MissingHand)
        } else if cal_fan_spec(g.tiles@[c]@, lt, false) is Some {
            Verdict::Granted
        } else {
            Verdict::Refused
        }
    } else if w == Word::Gang {
        if c >= g.tiles.len() {
            Verdict::Fails(Fault::MissingHand)
        } else if count(h, lt) == 3 {
            Verdict::Granted
        } else {
            Verdict::Refused
        }
    } else if w == Word::Peng {
        if c >= g.tiles.len() {
            Verdict::Fails(Fault::MissingHand)
        } else if count(h, lt) >= 2 {
            Verdict::Granted
        } else {
            Verdict::Refused
        }
    } else if w == Word::Chi {
        match second_field(m) {
            None => Verdict::Fails(Fault::MissingArgument),
            Some(f) => {
                let run = chow_arg(trim(f));
                if c != next_seat(g.action_id) || run == ChowArg::NoChow {
                    Verdict::Ignored
                } else if run == ChowArg::Malformed {
                    Verdict::Fails(Fault::MalformedChow)
                } else if c >= g.tiles.len() {
                    Verdict::Fails(Fault::MissingHand)
                } else if !chow_fits(h, run->low, run->suit, lt) {
                    Verdict::Refused
                } else if needed_all_held(h, run->low, run->suit, lt) {
                    Verdict::Granted
                } else {
                    Verdict::Fails(Fault::ChowTileMissing)
                }
            },
        }
    } else {
        Verdict::Ignored
    }
}

/// The stored answer of seat `c`.
pub open spec fn answer(g: &Game, c: usize) -> Seq<char> {
    g.messages@[c as int]->0@
}

/// The claim of seat `c` settles the discard: it is carried out or the
/// server cannot go on.
pub open spec fn decides(g: &Game, c: usize) -> bool {
    &&& c != g.action_id
    &&& g.messages@[c as int] is Some
    &&& (verdict(g, c as int, answer(g, c)) is Granted || verdict(g, c as int, answer(g, c)) is Fails)
}

/// The claim of seat `c` shuts him down.
pub open spec fn refused(g: &Game, c: usize) -> bool {
    &&& c != g.action_id
    &&& g.messages@[c as int] is Some
    &&& verdict(g, c as int, answer(g, c)) is Refused
}

/// The first place from `k` on in `order` whose claim settles the discard,
/// or the length of `order` where none does.
pub open spec fn first_decisive(g: &Game, order: Seq<usize>, k: int) -> int
    decreases order.len() - k,
{
    if k < 0 || k >= order.len() {
        order.len() as int
    } else if decides(g, order[k]) {
        k
    } else {
        first_decisive(g, order, k + 1)
    }
}

/// Who still plays after the claims at the first `k` places of `order`.
pub open spec fn alive_after_claims(g: &Game, order: Seq<usize>, k: int) -> Seq<bool>
    decreases k,
{
    if k <= 0 {
        g.alive@
    } else if refused(g, order[k - 1]) {
        alive_after_claims(g, order, k - 1).update(order[k - 1] as int, false)
    } else {
        alive_after_claims(g, order, k - 1)
    }
}

impl Game {
    /// The table, the scores and the answers of `n` are those of `o`.
    pub open spec fn rest_same(&self, o: &Game) -> bool {
        &&& self.tiles@ == o.tiles@
        &&& self.left@ == o.left@
        &&& self.joined@ == o.joined@
        &&& self.last_time == o.last_time
        &&& self.last_tile == o.last_tile
        &&& self.messages@ == o.messages@
        &&& self.score@ == o.score@
        &&& self.base == o.base
        &&& self.gid == o.gid
    }

    /// What acting on the answers to the discard of `o` (`outwait`) comes to
    /// in `n`, the answers walked in the order `walk`.  The claims are judged
    /// by priority; those refused on the way shut their claimants down; the
    /// first that is carried out or cannot be judged settles the discard.  A
    /// win ends the hand; a kong makes its claimant draw; a pung or a chow
    /// makes him discard.  Where nothing settles it, the next player draws.
    pub open spec fn outwait_outcome(o: &Game, n: &Game, walk: Seq<usize>, now: i64, r: Result<(), Fault>) -> bool {
        let order = answer_order_spec(o, walk);
        let p = first_decisive(o, order, 0);
        let alive = alive_after_claims(o, order, p);
        let lt = o.last_tile->0;
        if p < order.len() {
            let c = order[p];
            let m = answer(o, c);
            let w = word_of(trim(first_field(m)));
            let h = o.hand_of(c as int);
            match verdict(o, c as int, m) {
                Verdict::Fails(e) => r == Err::<(), Fault>(e),
                _ => {
                    &&& w == Word::Hu ==> {
                        &&& r is Ok
                        &&& n.alive@ == seq![false, false, false, false]
                        &&& n.same_table(o)
                        &&& n.score@ == ron_payments(
                            o.score@,
                            c as int,
                            o.action_id as int,
                            win_total(cal_fan_spec(o.tiles@[c as int]@, lt, false)),
                        )
                    }
                    &&& w == Word::Gang ==> exists|mid: Game|
                        melded(o, &mid, c as int, remove_first(remove_first(remove_first(h, lt), lt), lt), false, false, true, lt)
                            && mid.alive@ == alive && mid.action_id == c && mid.stage == o.stage
                            && Game::pick_outcome(&mid, n, now, r)
                    &&& w == Word::Peng ==> {
                        &&& r is Ok
                        &&& melded(o, n, c as int, remove_first(remove_first(h, lt), lt), false, true, false, lt)
                        &&& n.alive@ == alive
                        &&& n.action_id == c
                        &&& n.stage == Stage::Out
                    }
                    &&& w == Word::Chi ==> {
                        let run = chow_arg(trim(second_field(m)->0));
                        &&& r is Ok
                        &&& melded(
                            o,
                            n,
                            c as int,
                            without_needed(h, run->low, run->suit, lt),
                            true,
                            false,
                            false,
                            run_member(run->low, run->suit)->0,
                        )
                        &&& n.alive@ == alive
                        &&& n.action_id == c
                        &&& n.stage == Stage::Out
                    }
                },
            }
        } else {
            exists|mid: Game|
                mid.rest_same(o) && mid.alive@ == alive && mid.action_id == next_seat(o.action_id)
                    && mid.stage == o.stage && Game::pick_outcome(&mid, n, now, r)
        }
    }

    /// After the answers to the discard of `o`, the next player is told that
    /// his chow failed: he answered `chi` and neither a win nor a chow was
    /// carried out.
    pub open spec fn chow_failed(o: &Game, walk: Seq<usize>) -> bool {
        let order = answer_order_spec(o, walk);
        let p = first_decisive(o, order, 0);
        let post = next_seat(o.action_id);
        let won_or_chowed = p < order.len() && verdict(o, order[p] as int, answer(o, order[p])) is Granted && {
            let w = word_of(trim(first_field(answer(o, order[p]))));
            w == Word::Hu || w == Word::Chi
        };
        &&& !won_or_chowed
        &&& o.messages@[post as int] is Some
        &&& word_of(first_field(answer(o, post))) == Word::Chi
    }
}

/// What the claims at the first `k` places of `order` record: the shut-down
/// of each refused claimant, in order.
pub open spec fn refusal_acts(g: &Game, order: Seq<usize>, k: int) -> Seq<Action>
    decreases k,
{
    if k <= 0 {
        Seq::empty()
    } else {
        refusal_acts(g, order, k - 1) + if refused(g, order[k - 1]) {
            seq![Action::Shut { id: order[k - 1] }]
        } else {
            Seq::empty()
        }
    }
}

impl Game {
    /// The message telling the next player that his chow failed, where due.
    pub open spec fn mfail_acts(o: &Game, walk: Seq<usize>) -> Seq<Action> {
        if Game::chow_failed(o, walk) {
            seq![Action::Send { to: next_seat(o.action_id), notice: Notice::MFail }]
        } else {
            Seq::empty()
        }
    }

    /// What acting on the answers to the discard of `o` records and tells,
    /// from `a0` to `a1`: the shut-downs of the refused claimants, then the
    /// win, or the claim carried out, the failed chow, and the next draw.
    /// Where it fails, it stops after the shut-downs (a claim that cannot
    /// be judged) or after the record of a draw by a player without tiles.
    pub open spec fn outwait_acts(o: &Game, walk: Seq<usize>, r: Result<(), Fault>, a0: Seq<Action>, a1: Seq<Action>) -> bool {
        let order = answer_order_spec(o, walk);
        let p = first_decisive(o, order, 0);
        let alive = alive_after_claims(o, order, p);
        let before = a0 + refusal_acts(o, order, p);
        let lt = o.last_tile->0;
        &&& r is Err ==> if p < order.len() {
            a1 == before
        } else {
            a1 == before + Game::mfail_acts(o, walk) + seq![
                Action::Log { record: Record::Pick { id: next_seat(o.action_id), tile: o.left@.last() } },
            ]
        }
        &&& r is Ok ==> if p < order.len() {
            let c = order[p];
            let m = answer(o, c);
            let w = word_of(trim(first_field(m)));
            &&& w == Word::Hu ==> Game::won_on(before, a1, c, o.action_id, cal_fan_spec(o.tiles@[c as int]@, lt, false), alive)
            &&& w == Word::Gang ==> a1 == before + Game::claim_acts(alive, o.action_id, lt, c, m) + Game::mfail_acts(
                o,
                walk,
            ) + Game::draw_acts(alive, c, o.left@)
            &&& w == Word::Peng || w == Word::Chi ==> a1 == before + Game::claim_acts(alive, o.action_id, lt, c, m)
                + Game::mfail_acts(o, walk)
        } else {
            a1 == before + Game::mfail_acts(o, walk) + Game::draw_acts(alive, next_seat(o.action_id), o.left@)
        }
    }
}

pub proof fn lemma_extends_contains<A>(a: Seq<A>, b: Seq<A>, x: A)
    requires
        extends(a, b),
        b.contains(x),
    ensures
        a.contains(x),
{
    let i = choose|i: int| 0 <= i < b.len() && b[i] == x;
    assert(a.take(b.len() as int)[i] == x);
    assert(a[i] == x);
}

impl Game {
    /// `a1` is `a0` with the record of player `id`'s win, on a discard by
    /// `discarder`, scored `c`, told to the players still playing (`alive`).
    pub open spec fn won_on(
        a0: Seq<Action>,
        a1: Seq<Action>,
        id: usize,
        discarder: usize,
        c: Option<(int, Seq<FanEntry>)>,
        alive: Seq<bool>,
    ) -> bool {
        Game::win_recorded(a0, a1, id, Some(discarder), c, alive)
    }

    /// The notice of a win by player `id` (`discarder` is `None` where he
    /// drew the tile) scored `c`.
    pub open spec fn win_notice(id: usize, discarder: Option<usize>, c: Option<(int, Seq<FanEntry>)>) -> Notice {
        Notice::MHu {
            id,
            discarder: match discarder {
                Some(d) => d,
                None => id,
            },
            score: win_total(c) as i64,
        }
    }

    /// `a1` is `a0` with the record line of a win by player `id`, then the
    /// notice of it to each player still playing (`alive`).
    pub open spec fn win_recorded(
        a0: Seq<Action>,
        a1: Seq<Action>,
        id: usize,
        discarder: Option<usize>,
        c: Option<(int, Seq<FanEntry>)>,
        alive: Seq<bool>,
    ) -> bool {
        let tell = tell_list(alive, None, Game::win_notice(id, discarder, c), 4);
        &&& a1.len() == a0.len() + 1 + tell.len()
        &&& a1.take(a0.len() as int) == a0
        &&& a1[a0.len() as int] matches Action::Log { record: Record::Win { id: w, discarder: d, score, fans } } && w == id
            && d == discarder && score == win_total(c) && fans@ == win_fans(c)
        &&& a1.skip(a0.len() as int + 1) == tell
    }

    /// What carrying out the kong, pung or chow claim `m` of player `c` on
    /// the discard `lt` of player `a` records and tells: the record line,
    /// then the claim to each player still playing (`alive`).
    pub open spec fn claim_acts(alive: Seq<bool>, a: usize, lt: Tile, c: usize, m: Seq<char>) -> Seq<Action> {
        let w = word_of(trim(first_field(m)));
        if w == Word::Gang {
            seq![Action::Log { record: Record::Gang { id: c, from: a, tile: lt } }] + tell_list(
                alive,
                None,
                Notice::MGang { id: c, tile: lt },
                4,
            )
        } else if w == Word::Peng {
            seq![Action::Log { record: Record::Peng { id: c, from: a, tile: lt } }] + tell_list(
                alive,
                None,
                Notice::MPeng { id: c, tile: lt },
                4,
            )
        } else {
            let run = chow_arg(trim(second_field(m)->0));
            let start = run_member(run->low, run->suit)->0;
            seq![Action::Log { record: Record::Chi { id: c, from: a, start } }] + tell_list(
                alive,
                None,
                Notice::MChi { id: c, start },
                4,
            )
        }
    }
}

impl Game {
    /// Judges the claim `m` of player `id` on the discard and carries it out
    /// where it holds: 0 where nothing more happens (the claim was ignored or
    /// its claimant shut down), 1 for a kong, 2 for a pung, 3 for a chow, 4
    /// for a win, which ends the hand.
    #[verifier::spinoff_prover]
    fn judge(&mut self, id: usize, m: &Vec<char>, acts: &mut Vec<Action>) -> (r: Result<u8, Fault>)
        requires
            old(self).wf(),
            old(self).stage != Stage::Join,
            id < 4,
            id != old(self).action_id,
            old(self).messages@[id as int] is Some,
            m@ == answer(old(self), id),
            old(self).scores_within(0x4000_0000_0000_0000),
        ensures
            ({
                let o = *old(self);
                let n = *final(self);
                let v = verdict(&o, id as int, m@);
                let w = word_of(trim(first_field(m@)));
                let h = o.hand_of(id as int);
                let lt = o.last_tile->0;
                &&& v matches Verdict::Fails(e) ==> r == Err::<u8, Fault>(e)
                &&& v is Ignored ==> r == Ok::<u8, Fault>(0) && n.same_table(&o) && n.score@ == o.score@
                    && n.alive@ == o.alive@
                &&& v is Refused ==> r == Ok::<u8, Fault>(0) && Game::shut_from(&o, &n, id as int)
                &&& v is Granted && w == Word::Hu ==> r == Ok::<u8, Fault>(4) && n.alive@ == seq![
                    false,
                    false,
                    false,
                    false,
                ] && n.same_table(&o) && n.score@ == ron_payments(
                    o.score@,
                    id as int,
                    o.action_id as int,
                    win_total(cal_fan_spec(o.tiles@[id as int]@, lt, false)),
                )
                &&& v is Granted && w == Word::Gang ==> r == Ok::<u8, Fault>(1) && melded(
                    &o,
                    &n,
                    id as int,
                    remove_first(remove_first(remove_first(h, lt), lt), lt),
                    false,
                    false,
                    true,
                    lt,
                ) && n.alive@ == o.alive@ && n.action_id == id && n.stage == o.stage
                &&& v is Granted && w == Word::Peng ==> r == Ok::<u8, Fault>(2) && melded(
                    &o,
                    &n,
                    id as int,
                    remove_first(remove_first(h, lt), lt),
                    false,
                    true,
                    false,
                    lt,
                ) && n.alive@ == o.alive@ && n.action_id == id && n.stage == o.stage
                &&& v is Granted && w == Word::Chi ==> {
                    let run = chow_arg(trim(second_field(m@)->0));
                    &&& r == Ok::<u8, Fault>(3)
                    &&& melded(
                        &o,
                        &n,
                        id as int,
                        without_needed(h, run->low, run->suit, lt),
                        true,
                        false,
                        false,
                        run_member(run->low, run->suit)->0,
                    )
                    &&& n.alive@ == o.alive@
                    &&& n.action_id == id
                    &&& n.stage == o.stage
                }
            }),
            ({
                let o = *old(self);
                let v = verdict(&o, id as int, m@);
                let w = word_of(trim(first_field(m@)));
                let lt = o.last_tile->0;
                let a0 = old(acts)@;
                let a1 = final(acts)@;
                &&& v is Fails || v is Ignored ==> a1 == a0
                &&& v is Refused ==> a1 == a0.push(Action::Shut { id })
                &&& v is Granted && w == Word::Hu ==> Game::won_on(a0, a1, id, o.action_id, cal_fan_spec(o.tiles@[id as int]@, lt, false), o.alive@)
                &&& v is Granted && w != Word::Hu ==> a1 == a0 + Game::claim_acts(o.alive@, o.action_id, lt, id, m@)
            }),
            r is Ok ==> final(self).wf(),
            r is Ok ==> final(self).scores_near(old(self).score@, 0x100_0000_0000),
            r is Ok ==> no_one_returns(old(self).alive@, final(self).alive@),
            r is Ok ==> total(final(self).score@) <= total(old(self).score@),
            extends(final(acts)@, old(acts)@),
    {
        let ghost a0 = acts@;
        proof {
            lemma_extends_refl(acts@);
        }
        let w = classify(&trimmed(&first_field_of(m)));
        if w == Word::Hu {
            match self.hu(id, acts) {
                Err(e) => Err(e),
                Ok(true) => {
                    self.end_hand();
                    Ok(4)
                },
                Ok(false) => Ok(0),
            }
        } else if w == Word::Gang {
            match self.gang(id, acts) {
                Err(e) => Err(e),
                Ok(true) => {
                    let t = self.last_tile.unwrap();
                    let ghost a1 = acts@;
                    tell_alive(&self.alive, None, Notice::MGang { id, tile: t }, acts);
                    proof {
                        lemma_extends_trans(acts@, a1, a0);
                    }
                    self.action_id = id;
                    Ok(1)
                },
                Ok(false) => Ok(0),
            }
        } else if w == Word::Peng {
            match self.peng(id, acts) {
                Err(e) => Err(e),
                Ok(true) => {
                    let t = self.last_tile.unwrap();
                    let ghost a1 = acts@;
                    tell_alive(&self.alive, None, Notice::MPeng { id, tile: t }, acts);
                    proof {
                        lemma_extends_trans(acts@, a1, a0);
                    }
                    self.action_id = id;
                    Ok(2)
                },
                Ok(false) => Ok(0),
            }
        } else if w == Word::Chi {
            let arg = match second_field_of(m) {
                Some(a) => trimmed(&a),
                None => {
                    return Err(Fault::MissingArgument);
                },
            };
            match self.chi(id, &arg, acts) {
                Err(e) => Err(e),
                Ok(true) => {
                    let start = match parse_chow_arg(&arg) {
                        ChowArg::Run { low, suit } => match run_member_exec(low, suit) {
                            Some(t) => t,
                            None => self.last_tile.unwrap(),
                        },
                        _ => self.last_tile.unwrap(),
                    };
                    let ghost a1 = acts@;
                    tell_alive(&self.alive, None, Notice::MChi { id, start }, acts);
                    proof {
                        lemma_extends_trans(acts@, a1, a0);
                    }
                    self.action_id = id;
                    Ok(3)
                },
                Ok(false) => Ok(0),
            }
        } else {
            Ok(0)
        }
    }

    /// Acts on the answers to a discard: the
    /// claims are judged by priority, answers of equal priority in the order
    /// `walk`; a failed chow claim by the next player is told so.
    #[verifier::rlimit(40)]
    pub fn outwait(&mut self, walk: &Vec<usize>, now: i64, acts: &mut Vec<Action>) -> (r: Result<(), Fault>)
        requires
            old(self).wf(),
            old(self).stage != Stage::Join,
            is_walk(walk@),
            old(self).timely(now),
            old(self).scores_within(0x4000_0000_0000_0000 - 0x200_0000_0000),
        ensures
            Game::outwait_outcome(old(self), final(self), walk@, now, r),
            Game::outwait_acts(old(self), walk@, r, old(acts)@, final(acts)@),
            r is Ok && Game::chow_failed(old(self), walk@) ==> final(acts)@.contains(
                Action::Send { to: next_seat(old(self).action_id), notice: Notice::MFail },
            ),
            r is Ok ==> final(self).timely(now),
            r is Ok ==> final(self).wf(),
            r is Ok ==> final(self).scores_near(old(self).score@, 0x200_0000_0000),
            r is Ok ==> no_one_returns(old(self).alive@, final(self).alive@),
            r is Ok ==> total(final(self).score@) <= total(old(self).score@),
            extends(final(acts)@, old(acts)@),
    {
        let ghost o = *self;
        let ghost a0 = acts@;
        proof {
            lemma_extends_refl(acts@);
        }
        let ordered = self.answer_order(walk);
        let ghost order = ordered@;
        let mut sort: u8 = 0;
        let prev = self.action_id;
        let mut k: usize = 0;
        while k < ordered.len() && sort == 0
            invariant
                k <= ordered.len(),
                order == ordered@,
                order == answer_order_spec(&o, walk@),
                forall|i: int| 0 <= i < ordered.len() ==> #[trigger] ordered@[i] < 4,
                o == *old(self),
                a0 == old(acts)@,
                o.wf(),
                o.stage != Stage::Join,
                prev == o.action_id,
                forall|i: int| 0 <= i < 4 ==> -(0x4000_0000_0000_0000 - 0x200_0000_0000) <= #[trigger] o.score@[i] <= 0x4000_0000_0000_0000 - 0x200_0000_0000,
                self.wf(),
                self.stage != Stage::Join,
                self.timely(now),
                sort <= 3,
                no_one_returns(o.alive@, self.alive@),
                sort == 0 ==> {
                    &&& first_decisive(&o, order, 0) == first_decisive(&o, order, k as int)
                    &&& self.alive@ == alive_after_claims(&o, order, k as int)
                    &&& self.same_table(&o)
                    &&& self.score@ == o.score@
                },
                sort != 0 ==> Game::claim_carried(&o, self, order, k - 1, sort),
                sort == 0 ==> acts@ == a0 + refusal_acts(&o, order, k as int),
                sort != 0 ==> acts@ == a0 + refusal_acts(&o, order, k - 1) + Game::claim_acts(
                    alive_after_claims(&o, order, k - 1),
                    o.action_id,
                    o.last_tile->0,
                    order[k - 1],
                    answer(&o, order[k - 1]),
                ),
                extends(acts@, a0),
            decreases ordered.len() - k,
        {
            let id = ordered[k];
            let ghost kk = k as int;
            k = k + 1;
            proof {
                assert(first_decisive(&o, order, kk) == if decides(&o, order[kk]) {
                    kk
                } else {
                    first_decisive(&o, order, kk + 1)
                });
                assert(alive_after_claims(&o, order, kk + 1) == if refused(&o, order[kk]) {
                    alive_after_claims(&o, order, kk).update(order[kk] as int, false)
                } else {
                    alive_after_claims(&o, order, kk)
                });
            }
            if id != self.action_id {
                match self.message_of(id) {
                    Some(m) => {
                        let ghost cur = *self;
                        let ghost a1 = acts@;
                        let res = self.judge(id, &m, acts);
                        proof {
                            lemma_extends_trans(acts@, a1, a0);
                            assert(verdict(&cur, id as int, m@) == verdict(&o, id as int, m@));
                        }
                        match res {
                            Err(e) => {
                                proof {
                                    assert(verdict(&o, id as int, m@) is Fails);
                                    assert(decides(&o, order[kk]));
                                    assert(first_decisive(&o, order, 0) == kk);
                                }
                                return Err(e);
                            },
                            Ok(4) => {
                                return Ok(());
                            },
                            Ok(s) => {
                                sort = s;
                            },
                        }
                    },
                    None => {},
                }
            }
        }
        let post = (prev + 1) % 4;
        let ghost mfail = Action::Send { to: post, notice: Notice::MFail };
        proof {
            if sort == 0 {
                assert(first_decisive(&o, order, k as int) == order.len());
            }
        }
        let ghost a_pre = acts@;
        if sort != 3 {
            match self.message_of(post) {
                Some(m2) => {
                    if classify(&first_field_of(&m2)) == Word::Chi {
                        let ghost a2 = acts@;
                        acts.push(Action::Send { to: post, notice: Notice::MFail });
                        proof {
                            lemma_extends_push(a2, Action::Send { to: post, notice: Notice::MFail });
                            lemma_extends_trans(acts@, a2, a0);
                            assert(acts@.last() == mfail);
                        }
                    }
                },
                None => {},
            }
        }
        let ghost a3 = acts@;
        proof {
            if Game::chow_failed(&o, walk@) {
                assert(sort != 3);
                assert(a3.contains(mfail));
            }
            assert(a3 =~= a_pre + Game::mfail_acts(&o, walk@));
        }
        if sort == 1 {
            let ghost mid = *self;
            let r = self.pick(now, acts);
            proof {
                lemma_extends_trans(acts@, a3, a0);
                if Game::chow_failed(&o, walk@) {
                    lemma_extends_contains(acts@, a3, mfail);
                }
                let p = first_decisive(&o, order, 0);
                let c = order[p];
                let h = o.hand_of(c as int);
                let lt = o.last_tile->0;
                assert(melded(&o, &mid, c as int, remove_first(remove_first(remove_first(h, lt), lt), lt), false, false, true, lt)
                    && mid.alive@ == alive_after_claims(&o, order, p) && mid.action_id == c && mid.stage == o.stage
                    && Game::pick_outcome(&mid, self, now, r));
                if r is Ok {
                    assert(acts@ =~= a3 + Game::draw_acts(mid.alive@, c, o.left@));
                }
            }
            r
        } else if sort == 0 {
            self.action_id = (self.action_id + 1) % 4;
            let ghost mid = *self;
            let r = self.pick(now, acts);
            proof {
                lemma_extends_trans(acts@, a3, a0);
                if Game::chow_failed(&o, walk@) {
                    lemma_extends_contains(acts@, a3, mfail);
                }
                assert(mid.rest_same(&o) && mid.alive@ == alive_after_claims(&o, order, order.len() as int)
                    && mid.action_id == next_seat(o.action_id) && mid.stage == o.stage && Game::pick_outcome(&mid, self, now, r));
                if r is Ok {
                    assert(acts@ =~= a3 + Game::draw_acts(mid.alive@, mid.action_id, o.left@));
                } else {
                    assert(acts@ =~= a3 + seq![
                        Action::Log { record: Record::Pick { id: next_seat(o.action_id), tile: o.left@.last() } },
                    ]);
                }
            }
            r
        } else {
            self.stage = Stage::Out;
            Ok(())
        }
    }

    /// The claim at place `p` of `order` was the first to settle the discard
    /// of `o` and was carried out in `n` (kind `sort`: 1 a kong, 2 a pung,
    /// 3 a chow), the claims before it judged.
    pub open spec fn claim_carried(o: &Game, n: &Game, order: Seq<usize>, p: int, sort: u8) -> bool {
        let c = order[p];
        let m = answer(o, c);
        let w = word_of(trim(first_field(m)));
        let h = o.hand_of(c as int);
        let lt = o.last_tile->0;
        &&& 0 <= p < order.len()
        &&& first_decisive(o, order, 0) == p
        &&& verdict(o, c as int, m) is Granted
        &&& n.alive@ == alive_after_claims(o, order, p)
        &&& n.action_id == c
        &&& n.stage == o.stage
        &&& sort == 1 ==> w == Word::Gang && melded(
            o,
            n,
            c as int,
            remove_first(remove_first(remove_first(h, lt), lt), lt),
            false,
            false,
            true,
            lt,
        )
        &&& sort == 2 ==> w == Word::Peng && melded(o, n, c as int, remove_first(remove_first(h, lt), lt), false, true, false, lt)
        &&& sort == 3 ==> w == Word::Chi && {
            let run = chow_arg(trim(second_field(m)->0));
            melded(
                o,
                n,
                c as int,
                without_needed(h, run->low, run->suit, lt),
                true,
                false,
                false,
                run_member(run->low, run->suit)->0,
            )
        }
    }
}

impl Game {
    /// `n` is `o` with player `id` shut down.
    pub open spec fn shut_from(o: &Game, n: &Game, id: int) -> bool {
        &&& n.alive@ == o.alive@.update(id, false)
        &&& n.same_table(o)
        &&& n.score@ == o.score@
    }

    /// `n` is `o` with player `id`'s tiles changed to `v` and his score
    /// fined for a slow turn at `now`; nothing else changed.
    pub open spec fn turn_taken(o: &Game, n: &Game, id: int, v: TilesView, now: i64) -> bool {
        &&& n.tiles@.len() == o.tiles@.len()
        &&& n.tiles@[id]@ == v
        &&& forall|j: int| 0 <= j < o.tiles@.len() && j != id ==> #[trigger] n.tiles@[j] == o.tiles@[j]
        &&& n.score@ == o.score@.update(id, (o.score@[id] - penalty(now - o.last_time, 1050, 950)) as i64)
        &&& n.left@ == o.left@
        &&& n.joined@ == o.joined@
        &&& n.action_id == o.action_id
        &&& n.alive@ == o.alive@
        &&& n.base == o.base
        &&& n.gid == o.gid
    }

    /// `n` is `o` after player `id` declared a concealed kong of `t` at
    /// `now`, before he draws again.
    pub open spec fn kong_declared(o: &Game, n: &Game, id: int, t: Tile, now: i64) -> bool {
        let v = o.tiles@[id]@;
        let h = remove_first(remove_first(remove_first(remove_first(v.hands, t), t), t), t);
        &&& Game::turn_taken(o, n, id, TilesView { hands: h, ckongs: v.ckongs.push(t), ..v }, now)
        &&& n.stage == o.stage
        &&& n.last_time == o.last_time
        &&& n.last_tile == o.last_tile
        &&& n.messages@ == o.messages@
    }

    /// `n` is `o` after player `id` added `t` to a pung at `now`: the others
    /// may now rob the kong.
    pub open spec fn kong_added(o: &Game, n: &Game, id: int, t: Tile, now: i64) -> bool {
        let v = o.tiles@[id]@;
        &&& Game::turn_taken(
            o,
            n,
            id,
            TilesView { hands: remove_first(v.hands, t), pungs: remove_first(v.pungs, t), kongs: v.kongs.push(t), ..v },
            now,
        )
        &&& n.stage == Stage::QgWait
        &&& n.last_time == now
        &&& n.last_tile == Some(t)
        &&& forall|j: int| 0 <= j < 4 ==> #[trigger] n.messages@[j] is None
    }

    /// What a concealed kong of `tile` declared by player `id` (`agang`)
    /// from `o` comes to in `n`: with four of the tile in hand on his turn,
    /// the kong is laid down and he draws again; otherwise he is shut down
    /// and, on his turn, the last tile is discarded for him.
    pub open spec fn agang_outcome(o: &Game, n: &Game, id: int, tile: Option<Tile>, now: i64, r: Result<(), Fault>) -> bool {
        &&& o.stage != Stage::Out || id != o.action_id ==> r is Ok && Game::shut_from(o, n, id)
        &&& o.stage == Stage::Out && id == o.action_id ==> {
            let four = tile is Some && count(o.hand_of(id), tile->0) == 4;
            &&& id >= o.tiles.len() ==> r == Err::<(), Fault>(Fault::MissingHand)
            &&& id < o.tiles.len() && four ==> exists|mid: Game|
                Game::kong_declared(o, &mid, id, tile->0, now) && Game::pick_outcome(&mid, n, now, r)
            &&& id < o.tiles.len() && !four ==> exists|mid: Game|
                Game::shut_from(o, &mid, id) && Game::out_outcome(&mid, n, id, o.last_tile, now, r)
        }
    }

    /// What adding `tile` to a pung by player `id` (`jgang`) from `o` comes
    /// to in `n`: out of turn nothing happens; with the tile in hand and the
    /// pung laid down, the kong is made and the others may rob it; otherwise
    /// he is shut down and the last tile is discarded for him.
    pub open spec fn jgang_outcome(o: &Game, n: &Game, id: int, tile: Option<Tile>, now: i64, r: Result<(), Fault>) -> bool {
        &&& o.stage != Stage::Out || id != o.action_id ==> {
            &&& r is Ok
            &&& n.same_table(o)
            &&& n.score@ == o.score@
            &&& n.alive@ == o.alive@
        }
        &&& o.stage == Stage::Out && id == o.action_id ==> {
            let can = tile is Some && o.hand_of(id).contains(tile->0) && o.tiles@[id]@.pungs.contains(tile->0);
            &&& id >= o.tiles.len() ==> r == Err::<(), Fault>(Fault::MissingHand)
            &&& id < o.tiles.len() && can ==> r is Ok && Game::kong_added(o, n, id, tile->0, now)
            &&& id < o.tiles.len() && !can ==> exists|mid: Game|
                Game::shut_from(o, &mid, id) && Game::out_outcome(&mid, n, id, o.last_tile, now, r)
        }
    }

    /// What a declared win on the drawn tile by player `id` (`tsumo`) from
    /// `o` comes to in `n`.  Out of turn nothing happens.  Where the hand
    /// scores, every other player pays him the base and the fans and the
    /// hand is over; where it does not, he is shut down and the tile is
    /// discarded for him.  A winning tile that is not in his hand can only
    /// be scored for seven pairs or thirteen orphans.
    pub open spec fn tsumo_outcome(o: &Game, n: &Game, id: int, now: i64, r: Result<(), Fault>) -> bool {
        &&& o.stage != Stage::Out || id != o.action_id ==> {
            &&& r is Ok
            &&& n.same_table(o)
            &&& n.score@ == o.score@
            &&& n.alive@ == o.alive@
        }
        &&& o.stage == Stage::Out && id == o.action_id ==> {
            let lt = o.last_tile->0;
            &&& id >= o.tiles.len() ==> r == Err::<(), Fault>(Fault::MissingHand)
            &&& id < o.tiles.len() && !cal_fan_defined(o.tiles@[id]@, lt, true) ==> r == Err::<(), Fault>(
                Fault::WinningTileMissing,
            )
            &&& id < o.tiles.len() && cal_fan_defined(o.tiles@[id]@, lt, true) ==> {
                let c = cal_fan_spec(o.tiles@[id]@, lt, true);
                &&& c is Some ==> {
                    &&& r is Ok
                    &&& n.alive@ == seq![false, false, false, false]
                    &&& n.score@ == tsumo_payments(
                        o.score@.update(id, (o.score@[id] - penalty(now - o.last_time, 1050, 950)) as i64),
                        id,
                        win_total(c),
                    )
                    &&& n.same_table_but_fines(o)
                }
                &&& c is None ==> exists|mid: Game|
                    Game::shut_from(o, &mid, id) && Game::out_outcome(&mid, n, id, o.last_tile, now, r)
            }
        }
    }
}

/// The answer of seat `c` to an added kong robs it.
pub open spec fn robs(g: &Game, c: int) -> bool {
    g.messages@[c] matches Some(m) && word_of(trim(m@)) == Word::QGang
}

/// The robbery by seat `c` settles the added kong: he cannot be judged (no
/// tiles dealt) or his hand wins with the tile.
pub open spec fn robbery_decides(g: &Game, c: int) -> bool {
    robs(g, c) && (c >= g.tiles.len() || cal_fan_spec(g.tiles@[c]@, g.last_tile->0, false) is Some)
}

/// The seat at distance `d` after the player to act.
pub open spec fn seat_after(g: &Game, d: int) -> int {
    (g.action_id + d) % 4
}

/// The first distance from `d` on (below 4) at which a robbery settles the
/// added kong, or 4.
pub open spec fn first_robbery(g: &Game, d: int) -> int
    decreases 4 - d,
{
    if d >= 4 {
        4
    } else if robbery_decides(g, seat_after(g, d)) {
        d
    } else {
        first_robbery(g, d + 1)
    }
}

/// Who still plays after the robberies at distances 1 to `d - 1` were
/// judged: a failed robbery shuts the robber down.
pub open spec fn alive_after_robberies(g: &Game, d: int) -> Seq<bool>
    decreases d,
{
    if d <= 1 {
        g.alive@
    } else {
        let c = seat_after(g, d - 1);
        if robs(g, c) && !robbery_decides(g, c) {
            alive_after_robberies(g, d - 1).update(c, false)
        } else {
            alive_after_robberies(g, d - 1)
        }
    }
}

/// What the robberies at distances 1 to `d - 1` record: the shut-down of
/// each failed robber.
pub open spec fn robbery_acts(g: &Game, d: int) -> Seq<Action>
    decreases d,
{
    if d <= 1 {
        Seq::empty()
    } else {
        let c = seat_after(g, d - 1);
        robbery_acts(g, d - 1) + if robs(g, c) && !robbery_decides(g, c) {
            seq![Action::Shut { id: c as usize }]
        } else {
            Seq::empty()
        }
    }
}

impl Game {
    /// What acting on the answers to the added kong of `o` records, from
    /// `a0` to `a1`: the shut-downs of the failed robbers, then the win or
    /// the draw of the kong's player.  Where it fails, it stops after the
    /// shut-downs (a robber without tiles) or after the record of the draw.
    pub open spec fn qgwait_acts(o: &Game, r: Result<(), Fault>, a0: Seq<Action>, a1: Seq<Action>) -> bool {
        let d = first_robbery(o, 1);
        let c = seat_after(o, d);
        let before = a0 + robbery_acts(o, d);
        &&& r is Err ==> if d < 4 {
            a1 == before
        } else {
            a1 == before + seq![Action::Log { record: Record::Pick { id: o.action_id, tile: o.left@.last() } }]
        }
        &&& r is Ok ==> if d < 4 {
            Game::won_on(
                before,
                a1,
                c as usize,
                o.action_id,
                cal_fan_spec(o.tiles@[c]@, o.last_tile->0, false),
                alive_after_robberies(o, d),
            )
        } else {
            a1 == before + Game::draw_acts(alive_after_robberies(o, 4), o.action_id, o.left@)
        }
    }
}

impl Game {
    /// What acting on the answers to the added kong of `o` (`qgwait`) comes
    /// to in `n`: the robberies are judged nearest seat first; a failed one
    /// shuts the robber down; the first winning one ends the hand, the kong's
    /// player paying; where none wins, the player who added the kong draws.
    pub open spec fn qgwait_outcome(o: &Game, n: &Game, now: i64, r: Result<(), Fault>) -> bool {
        let d = first_robbery(o, 1);
        let c = seat_after(o, d);
        &&& d < 4 && c >= o.tiles.len() ==> r == Err::<(), Fault>(Fault::MissingHand)
        &&& d < 4 && c < o.tiles.len() ==> {
            &&& r is Ok
            &&& n.alive@ == seq![false, false, false, false]
            &&& n.same_table(o)
            &&& n.score@ == ron_payments(
                o.score@,
                c,
                o.action_id as int,
                win_total(cal_fan_spec(o.tiles@[c]@, o.last_tile->0, false)),
            )
        }
        &&& d >= 4 ==> exists|mid: Game|
            mid.same_table(o) && mid.score@ == o.score@ && mid.alive@ == alive_after_robberies(o, 4)
                && Game::pick_outcome(&mid, n, now, r)
    }

    /// Acts on the answers to an added kong: the
    /// nearest player who robs the kong with a winning hand wins; otherwise
    /// the player who added it draws again.
    pub fn qgwait(&mut self, now: i64, acts: &mut Vec<Action>) -> (r: Result<(), Fault>)
        requires
            old(self).wf(),
            old(self).stage != Stage::Join,
            old(self).timely(now),
            old(self).scores_within(0x4000_0000_0000_0000 - 0x200_0000_0000),
        ensures
            Game::qgwait_outcome(old(self), final(self), now, r),
            Game::qgwait_acts(old(self), r, old(acts)@, final(acts)@),
            r is Ok ==> final(self).timely(now),
            r is Ok ==> final(self).wf(),
            r is Ok ==> final(self).scores_near(old(self).score@, 0x200_0000_0000),
            r is Ok ==> no_one_returns(old(self).alive@, final(self).alive@),
            r is Ok ==> total(final(self).score@) <= total(old(self).score@),
            extends(final(acts)@, old(acts)@),
    {
        let ghost o = *self;
        let ghost a0 = acts@;
        proof {
            lemma_extends_refl(acts@);
        }
        let a = self.action_id;
        let mut d: usize = 1;
        while d < 4
            invariant
                1 <= d <= 4,
                o == *old(self),
                a0 == old(acts)@,
                a == o.action_id,
                o.wf(),
                o.stage != Stage::Join,
                forall|i: int| 0 <= i < 4 ==> -(0x4000_0000_0000_0000 - 0x200_0000_0000) <= #[trigger] o.score@[i] <= 0x4000_0000_0000_0000 - 0x200_0000_0000,
                self.wf(),
                self.timely(now),
                self.same_table(&o),
                self.score@ == o.score@,
                self.alive@ == alive_after_robberies(&o, d as int),
                no_one_returns(o.alive@, self.alive@),
                first_robbery(&o, 1) == first_robbery(&o, d as int),
                acts@ == a0 + robbery_acts(&o, d as int),
                extends(acts@, a0),
            decreases 4 - d,
        {
            let id = (a + d) % 4;
            let ghost dd = d as int;
            proof {
                assert(first_robbery(&o, dd) == if robbery_decides(&o, seat_after(&o, dd)) {
                    dd
                } else {
                    first_robbery(&o, dd + 1)
                });
                assert(id == seat_after(&o, dd));
            }
            d = d + 1;
            match self.message_of(id) {
                Some(m) => {
                    if classify(&trimmed(&m)) == Word::QGang {
                        let ghost a1 = acts@;
                        let res = self.hu(id, acts);
                        proof {
                            lemma_extends_trans(acts@, a1, a0);
                        }
                        match res {
                            Ok(true) => {
                                self.end_hand();
                                return Ok(());
                            },
                            Ok(false) => {},
                            Err(e) => {
                                proof {
                                    assert(robbery_decides(&o, seat_after(&o, dd)));
                                    assert(first_robbery(&o, 1) == dd);
                                    assert(acts@ == a0 + robbery_acts(&o, dd));
                                }
                                return Err(e);
                            },
                        }
                    }
                },
                None => {},
            }
        }
        let ghost a2 = acts@;
        let ghost mid = *self;
        let r = self.pick(now, acts);
        proof {
            lemma_extends_trans(acts@, a2, a0);
            assert(mid.same_table(&o) && mid.score@ == o.score@ && mid.alive@ == alive_after_robberies(&o, 4)
                && Game::pick_outcome(&mid, self, now, r));
            if r is Ok {
                assert(acts@ =~= a2 + Game::draw_acts(mid.alive@, mid.action_id, o.left@));
            } else {
                assert(acts@ =~= a2 + seq![Action::Log { record: Record::Pick { id: o.action_id, tile: o.left@.last() } }]);
            }
        }
        r
    }

    /// Player `id` declares a concealed kong of `tile`: out of turn, or without
    /// four of it, he is shut down (and the last tile discarded for him where
    /// it is his turn).
    pub fn agang(&mut self, id: usize, tile: Option<Tile>, now: i64, acts: &mut Vec<Action>) -> (r: Result<(), Fault>)
        requires
            old(self).wf(),
            id < 4,
            tile matches Some(t) ==> is_tile(t),
            old(self).timely(now),
            old(self).scores_within(0x4000_0000_0000_0000 - 0x200_0000_0000),
        ensures
            Game::agang_outcome(old(self), final(self), id as int, tile, now, r),
            Game::agang_acts(old(self), id, tile, old(acts)@, final(acts)@),
            r is Ok ==> final(self).wf(),
            r is Ok ==> final(self).scores_near(old(self).score@, 0x200_0000_0000),
            r is Ok ==> final(self).timely(now),
            r is Ok ==> no_one_returns(old(self).alive@, final(self).alive@),
            r is Ok ==> total(final(self).score@) <= total(old(self).score@),
            extends(final(acts)@, old(acts)@),
    {
        let ghost a0 = acts@;
        let ghost o0 = *self;
        if self.stage != Stage::Out || id != self.action_id {
            self.shut(id, acts);
            proof {
                lemma_extends_push(a0, Action::Shut { id });
            }
            let ghost a1 = acts@;
            let lt = self.last_tile;
            let r = self.out(id, lt, now, acts);
            proof {
                lemma_extends_trans(acts@, a1, a0);
                assert(acts@ =~= a0.push(Action::Shut { id }));
            }
            return r;
        }
        if id >= self.tiles.len() {
            proof {
                lemma_extends_refl(acts@);
            }
            return Err(Fault::MissingHand);
        }
        let four = match tile {
            Some(t) => count_in(&self.tiles[id].hands, t) == 4,
            None => false,
        };
        if four {
            let t = tile.unwrap();
            let ghost o = *self;
            self.fine(id, now, 1050, 950);
            let mut pt = self.tiles[id].duplicate();
            proof {
                assert(player_ok(o.tiles@[id as int]@, o.dealt()));
                crate::hand::lemma_remove_three_pub(o.hand_of(id as int), t);
                let s3 = remove_first(remove_first(remove_first(o.hand_of(id as int), t), t), t);
                lemma_count_remove_first(o.hand_of(id as int), t);
                lemma_count_remove_first(remove_first(o.hand_of(id as int), t), t);
                lemma_count_remove_first(remove_first(remove_first(o.hand_of(id as int), t), t), t);
                lemma_count_contains(s3, t);
                crate::hand::lemma_remove_first_valid_pub(s3, t);
            }
            remove_one(&mut pt.hands, t);
            remove_one(&mut pt.hands, t);
            remove_one(&mut pt.hands, t);
            remove_one(&mut pt.hands, t);
            pt.ckongs.push(t);
            proof {
                assert forall|j: int| 0 <= j < pt@.ckongs.len() implies is_tile(#[trigger] pt@.ckongs[j]) by {
                    if j < o.tiles@[id as int]@.ckongs.len() {
                        assert(pt@.ckongs[j] == o.tiles@[id as int]@.ckongs[j]);
                    }
                }
            }
            self.tiles.set(id, pt);
            proof {
                assert forall|j: int| 0 <= j < self.tiles.len() implies player_ok(
                    #[trigger] self.tiles@[j]@,
                    self.dealt(),
                ) by {
                    if j != id {
                        assert(self.tiles@[j] == o.tiles@[j]);
                    }
                }
            }
            acts.push(Action::Log { record: Record::AGang { id, tile: t } });
            proof {
                lemma_extends_push(a0, acts@.last());
                assert(acts@ == a0.push(acts@.last()));
            }
            let ghost a1 = acts@;
            tell_alive(&self.alive, None, Notice::MAGang { id }, acts);
            proof {
                lemma_extends_trans(acts@, a1, a0);
            }
            let ghost a2 = acts@;
            let ghost mid = *self;
            proof {
                let v = o.tiles@[id as int]@;
                let h4 = remove_first(remove_first(remove_first(remove_first(v.hands, t), t), t), t);
                assert(mid.tiles@[id as int]@ =~= TilesView { hands: h4, ckongs: v.ckongs.push(t), ..v });
                assert(Game::kong_declared(&o0, &mid, id as int, t, now));
            }
            let r = self.pick(now, acts);
            proof {
                lemma_extends_trans(acts@, a2, a0);
                assert(acts@ =~= a0 + seq![Action::Log { record: Record::AGang { id, tile: t } }] + tell_list(
                    o0.alive@,
                    None,
                    Notice::MAGang { id },
                    4,
                ) + Game::draw_acts(o0.alive@, id, o0.left@));
            }
            r
        } else {
            self.shut(id, acts);
            proof {
                lemma_extends_push(a0, Action::Shut { id });
            }
            let ghost a1 = acts@;
            let ghost mid = *self;
            assert(Game::shut_from(&o0, &mid, id as int));
            let lt = self.last_tile;
            let r = self.out(id, lt, now, acts);
            proof {
                lemma_extends_trans(acts@, a1, a0);
                assert(acts@ =~= a0.push(Action::Shut { id }) + Game::forced_out_acts(&o0, id));
            }
            r
        }
    }

    /// Player `id` adds `tile` to one of his pungs; the others may then rob the
    /// kong.  Out of turn it is ignored; without the tile in hand and the pung
    /// he is shut down and the last tile discarded for him.
    pub fn jgang(&mut self, id: usize, tile: Option<Tile>, now: i64, acts: &mut Vec<Action>) -> (r: Result<(), Fault>)
        requires
            old(self).wf(),
            id < 4,
            tile matches Some(t) ==> is_tile(t),
            old(self).timely(now),
            old(self).scores_within(0x4000_0000_0000_0000 - 0x200_0000_0000),
        ensures
            Game::jgang_outcome(old(self), final(self), id as int, tile, now, r),
            Game::jgang_acts(old(self), id, tile, old(acts)@, final(acts)@),
            r is Ok ==> final(self).wf(),
            r is Ok ==> final(self).scores_near(old(self).score@, 0x200_0000_0000),
            r is Ok ==> final(self).timely(now),
            r is Ok ==> no_one_returns(old(self).alive@, final(self).alive@),
            r is Ok ==> total(final(self).score@) <= total(old(self).score@),
            extends(final(acts)@, old(acts)@),
    {
        let ghost a0 = acts@;
        let ghost o0 = *self;
        proof {
            lemma_extends_refl(acts@);
        }
        if self.stage != Stage::Out || id != self.action_id {
            return Ok(());
        }
        if id >= self.tiles.len() {
            return Err(Fault::MissingHand);
        }
        let can = match tile {
            Some(t) => crate::hand::position(&self.tiles[id].hands, t).is_some()
                && crate::hand::position(&self.tiles[id].pungs, t).is_some(),
            None => false,
        };
        if can {
            let t = tile.unwrap();
            let ghost o = *self;
            self.fine(id, now, 1050, 950);
            let mut pt = self.tiles[id].duplicate();
            proof {
                assert(player_ok(o.tiles@[id as int]@, o.dealt()));
                crate::hand::lemma_remove_first_valid_pub(o.hand_of(id as int), t);
                crate::hand::lemma_remove_first_valid_pub(o.tiles@[id as int]@.pungs, t);
            }
            remove_one(&mut pt.hands, t);
            remove_one(&mut pt.pungs, t);
            pt.kongs.push(t);
            proof {
                assert forall|j: int| 0 <= j < pt@.kongs.len() implies is_tile(#[trigger] pt@.kongs[j]) by {
                    if j < o.tiles@[id as int]@.kongs.len() {
                        assert(pt@.kongs[j] == o.tiles@[id as int]@.kongs[j]);
                    }
                }
            }
            self.tiles.set(id, pt);
            proof {
                assert forall|j: int| 0 <= j < self.tiles.len() implies player_ok(
                    #[trigger] self.tiles@[j]@,
                    self.dealt(),
                ) by {
                    if j != id {
                        assert(self.tiles@[j] == o.tiles@[j]);
                    }
                }
            }
            acts.push(Action::Log { record: Record::JGang { id, tile: t } });
            proof {
                lemma_extends_push(a0, acts@.last());
                assert(acts@ == a0.push(acts@.last()));
            }
            let ghost a1 = acts@;
            tell_alive(&self.alive, None, Notice::MJGang { id, tile: t }, acts);
            proof {
                lemma_extends_trans(acts@, a1, a0);
            }
            self.stage = Stage::QgWait;
            self.last_tile = Some(t);
            self.messages.set(0, None);
            self.messages.set(1, None);
            self.messages.set(2, None);
            self.messages.set(3, None);
            self.last_time = now;
            proof {
                let v = o.tiles@[id as int]@;
                assert(self.tiles@[id as int]@ =~= TilesView {
                    hands: remove_first(v.hands, t),
                    pungs: remove_first(v.pungs, t),
                    kongs: v.kongs.push(t),
                    ..v
                });
            }
            proof {
                assert(acts@ =~= a0 + seq![Action::Log { record: Record::JGang { id, tile: t } }] + tell_list(
                    o0.alive@,
                    None,
                    Notice::MJGang { id, tile: t },
                    4,
                ));
            }
            Ok(())
        } else {
            self.shut(id, acts);
            proof {
                lemma_extends_push(a0, Action::Shut { id });
            }
            let ghost a1 = acts@;
            let ghost mid = *self;
            assert(Game::shut_from(&o0, &mid, id as int));
            let lt = self.last_tile;
            let r = self.out(id, lt, now, acts);
            proof {
                lemma_extends_trans(acts@, a1, a0);
                assert(acts@ =~= a0.push(Action::Shut { id }) + Game::forced_out_acts(&o0, id));
            }
            r
        }
    }

    /// Player `id` declares a win on the tile he drew: where the hand scores,
    /// every other player pays him the base and the fans, and the hand is over;
    /// otherwise he is shut down and the tile discarded for him.  Out of turn
    /// it is ignored.
    pub fn tsumo(&mut self, id: usize, now: i64, acts: &mut Vec<Action>) -> (r: Result<(), Fault>)
        requires
            old(self).wf(),
            id < 4,
            old(self).timely(now),
            old(self).scores_within(0x4000_0000_0000_0000 - 0x200_0000_0000),
        ensures
            Game::tsumo_outcome(old(self), final(self), id as int, now, r),
            Game::tsumo_acts(old(self), id, old(acts)@, final(acts)@),
            r is Ok ==> final(self).wf(),
            r is Ok ==> final(self).scores_near(old(self).score@, 0x200_0000_0000),
            r is Ok ==> final(self).timely(now),
            r is Ok ==> no_one_returns(old(self).alive@, final(self).alive@),
            r is Ok ==> total(final(self).score@) <= total(old(self).score@),
            extends(final(acts)@, old(acts)@),
    {
        let ghost a0 = acts@;
        let ghost o0 = *self;
        proof {
            lemma_extends_refl(acts@);
        }
        if self.stage != Stage::Out || id != self.action_id {
            return Ok(());
        }
        if id >= self.tiles.len() {
            return Err(Fault::MissingHand);
        }
        let lt = self.last_tile.unwrap();
        proof {
            assert(player_ok(self.tiles@[id as int]@, self.dealt()));
        }
        let res = if crate::hand::position(&self.tiles[id].hands, lt).is_some() {
            cal_fan(&self.tiles[id], lt, true)
        } else {
            match best_completion(&self.tiles[id], true) {
                None => None,
                Some((x, fans)) => {
                    if !crate::fan::has_fan_exec(&fans, crate::fan::Fan::ThirteenOrphans)
                        && !crate::fan::has_fan_exec(&fans, crate::fan::Fan::SevenPairs) {
                        return Err(Fault::WinningTileMissing);
                    }
                    Some((x, fans))
                },
            }
        };
        match res {
            Some((x, fans)) => {
                self.fine(id, now, 1050, 950);
                let ns = tsumo_scores(&self.score, id, x);
                self.score = ns;
                acts.push(Action::Log { record: Record::Win { id, discarder: None, score: x, fans } });
                let ghost a_mid = acts@;
                proof {
                    lemma_extends_push(a0, acts@.last());
                }
                tell_alive(&self.alive, None, Notice::MHu { id, discarder: id, score: x }, acts);
                proof {
                    lemma_extends_trans(acts@, a_mid, a0);
                    let tell = tell_list(o0.alive@, None, Game::win_notice(id, None, cal_fan_spec(o0.tiles@[id as int]@, lt, true)), 4);
                    assert(acts@.take(a0.len() as int) =~= a0);
                    assert(acts@.skip(a0.len() as int + 1) =~= tell);
                }
                self.end_hand();
                Ok(())
            },
            None => {
                self.shut(id, acts);
                proof {
                    lemma_extends_push(a0, Action::Shut { id });
                }
                let ghost a1 = acts@;
                let ghost mid = *self;
                assert(Game::shut_from(&o0, &mid, id as int));
                let lt2 = self.last_tile;
                let r = self.out(id, lt2, now, acts);
                proof {
                    lemma_extends_trans(acts@, a1, a0);
                    assert(acts@ =~= a0.push(Action::Shut { id }) + Game::forced_out_acts(&o0, id));
                }
                r
            },
        }
    }
}

} // verus!
