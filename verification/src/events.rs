//! What the server does with each line from a player and each time the
//! players are too slow: the dispatch onto the game's state machine.

use vstd::prelude::*;
use rand::StdRng;
use crate::tile::{tile_of_name, parse_tile};
use crate::game::{
    Game, Stage, Fault, no_one_returns, total, Action, Record, is_walk, penalty, copy_chars, pass_text, extends, TURN_MS, CLAIM_MS, ELAPSED_LIMIT,
    SCORE_LIMIT,
    lemma_extends_refl, lemma_extends_push, lemma_extends_trans,
};
use crate::json::{command_text, command_of};
use crate::protocol::{
    Word, word_of, word_text, classify, trim, trimmed, first_field, first_field_of, second_field,
    second_field_of,
};

verus! {

/// One if `b` holds, else zero.
pub open spec fn one_if(b: bool) -> int {
    if b {
        1
    } else {
        0
    }
}

impl Game {
    /// The others answer a discard or an added kong.
    pub open spec fn waiting(&self) -> bool {
        self.stage == Stage::OutWait || self.stage == Stage::QgWait
    }

    /// The number of answers stored.
    pub open spec fn stored(&self) -> int {
        one_if(self.messages@[0] is Some) + one_if(self.messages@[1] is Some) + one_if(
            self.messages@[2] is Some,
        ) + one_if(self.messages@[3] is Some)
    }

    /// The number of players other than the one to act who still play.
    pub open spec fn awaited(&self) -> int {
        one_if(self.action_id != 0 && self.alive@[0]) + one_if(self.action_id != 1 && self.alive@[1])
            + one_if(self.action_id != 2 && self.alive@[2]) + one_if(self.action_id != 3 && self.alive@[3])
    }

    /// What is kept of the answer `text` given at `now`: a claim later than
    /// `CLAIM_MS` after the discard counts as a pass.
    pub open spec fn kept_answer(o: &Game, text: Seq<char>, now: i64) -> Seq<char> {
        if now - o.last_time > CLAIM_MS {
            word_text(Word::Pass)
        } else {
            text
        }
    }

    /// `n` is `o` with the answer `text` of player `id` stored as
    /// `kept_answer` has it, the player fined for answering slowly at `now`.
    pub open spec fn answer_stored(o: &Game, n: &Game, id: int, text: Seq<char>, now: i64) -> bool {
        &&& n.messages@.len() == 4
        &&& n.messages@[id] is Some
        &&& n.messages@[id]->0@ == Game::kept_answer(o, text, now)
        &&& forall|j: int| 0 <= j < 4 && j != id ==> #[trigger] n.messages@[j] == o.messages@[j]
        &&& n.score@ == o.score@.update(id, (o.score@[id] - penalty(now - o.last_time, 550, 450)) as i64)
        &&& n.stage == o.stage
        &&& n.joined@ == o.joined@
        &&& n.action_id == o.action_id
        &&& n.tiles@ == o.tiles@
        &&& n.left@ == o.left@
        &&& n.last_time == o.last_time
        &&& n.last_tile == o.last_tile
        &&& n.alive@ == o.alive@
        &&& n.base == o.base
        &&& n.gid == o.gid
    }

    /// Nothing in `n` differs from `o`.
    pub open spec fn unchanged(&self, o: &Game) -> bool {
        &&& self.same_table(o)
        &&& self.score@ == o.score@
        &&& self.alive@ == o.alive@
    }

    /// What the message `text` of player `id` (`process`) comes to from `o`
    /// in `n`.  While the others answer, an answer of the player to act is
    /// ignored; any other is stored (a late claim as a pass, its sender fined for a slow answer),
    /// and once every other player still playing has answered, the answers
    /// are acted on.  Otherwise the first field names the command: `join`,
    /// `out`, `agang` and `jgang` with a tile as second field, `hu`;
    /// anything else is ignored.
    pub open spec fn process_outcome(
        o: &Game,
        n: &Game,
        id: int,
        text: Seq<char>,
        now: i64,
        walk: Seq<usize>,
        r: Result<(), Fault>,
    ) -> bool {
        if o.waiting() {
            &&& id == o.action_id ==> r is Ok && n.unchanged(o)
            &&& id != o.action_id ==> exists|mid: Game|
                {
                    &&& #[trigger] Game::answer_stored(o, &mid, id, text, now)
                    &&& mid.stored() < mid.awaited() ==> r is Ok && n.unchanged(&mid)
                    &&& mid.stored() >= mid.awaited() && o.stage == Stage::OutWait ==> Game::outwait_outcome(
                        &mid,
                        n,
                        walk,
                        now,
                        r,
                    )
                    &&& mid.stored() >= mid.awaited() && o.stage == Stage::QgWait ==> Game::qgwait_outcome(
                        &mid,
                        n,
                        now,
                        r,
                    )
                }
        } else {
            let w = word_of(trim(first_field(text)));
            let arg = second_field(text);
            let tile = if arg is Some {
                tile_of_name(trim(arg->0))
            } else {
                None
            };
            &&& w == Word::Join ==> Game::join_outcome(o, n, id, now, r)
            &&& (w == Word::Out || w == Word::AGang || w == Word::JGang) && arg is None ==> r == Err::<(), Fault>(
                Fault::MissingArgument,
            )
            &&& w == Word::Out && arg is Some ==> Game::out_outcome(o, n, id, tile, now, r)
            &&& w == Word::AGang && arg is Some ==> Game::agang_outcome(o, n, id, tile, now, r)
            &&& w == Word::JGang && arg is Some ==> Game::jgang_outcome(o, n, id, tile, now, r)
            &&& w == Word::Hu ==> Game::tsumo_outcome(o, n, id, now, r)
            &&& w != Word::Join && w != Word::Out && w != Word::AGang && w != Word::JGang && w != Word::Hu ==> r is Ok
                && n.unchanged(o)
        }
    }
}

impl Game {
    /// What the message `text` of player `id` records and tells, from `a0`
    /// to `a1`, with `a` the player to act in the end (who is settled once
    /// all have joined).
    pub open spec fn process_acts(
        o: &Game,
        a: usize,
        id: usize,
        text: Seq<char>,
        now: i64,
        walk: Seq<usize>,
        r: Result<(), Fault>,
        a0: Seq<Action>,
        a1: Seq<Action>,
    ) -> bool {
        if o.waiting() {
            &&& id == o.action_id ==> a1 == a0
            &&& id != o.action_id ==> exists|mid: Game|
                {
                    &&& #[trigger] Game::answer_stored(o, &mid, id as int, text, now)
                    &&& mid.stored() < mid.awaited() ==> a1 == a0
                    &&& mid.stored() >= mid.awaited() && o.stage == Stage::OutWait ==> Game::outwait_acts(
                        &mid,
                        walk,
                        r,
                        a0,
                        a1,
                    )
                    &&& mid.stored() >= mid.awaited() && o.stage == Stage::QgWait ==> Game::qgwait_acts(&mid, r, a0, a1)
                }
        } else {
            let w = word_of(trim(first_field(text)));
            let arg = second_field(text);
            let tile = if arg is Some {
                tile_of_name(trim(arg->0))
            } else {
                None
            };
            &&& w == Word::Join ==> Game::join_acts(o, a, id, a0, a1)
            &&& (w == Word::Out || w == Word::AGang || w == Word::JGang) && arg is None ==> a1 == a0
            &&& w == Word::Out && arg is Some ==> Game::out_acts(o, id, tile, a0, a1)
            &&& w == Word::AGang && arg is Some ==> Game::agang_acts(o, id, tile, a0, a1)
            &&& w == Word::JGang && arg is Some ==> Game::jgang_acts(o, id, tile, a0, a1)
            &&& w == Word::Hu ==> Game::tsumo_acts(o, id, a0, a1)
            &&& w != Word::Join && w != Word::Out && w != Word::AGang && w != Word::JGang && w != Word::Hu ==> a1 == a0
        }
    }
}

/// The number of answers stored.
fn count_stored(m: &Vec<Option<Vec<char>>>) -> (r: usize)
    requires
        m.len() == 4,
    ensures
        r == one_if(m@[0] is Some) + one_if(m@[1] is Some) + one_if(m@[2] is Some) + one_if(m@[3] is Some),
{
    let mut r: usize = 0;
    if m[0].is_some() {
        r = r + 1;
    }
    if m[1].is_some() {
        r = r + 1;
    }
    if m[2].is_some() {
        r = r + 1;
    }
    if m[3].is_some() {
        r = r + 1;
    }
    r
}

/// The number of players other than `a` who still play.
fn count_awaited(alive: &Vec<bool>, a: usize) -> (r: usize)
    requires
        alive.len() == 4,
    ensures
        r == one_if(a != 0 && alive@[0]) + one_if(a != 1 && alive@[1]) + one_if(a != 2 && alive@[2]) + one_if(
            a != 3 && alive@[3],
        ),
{
    let mut r: usize = 0;
    let mut i: usize = 0;
    while i < 4
        invariant
            i <= 4,
            alive.len() == 4,
            r == (if i > 0 { one_if(a != 0 && alive@[0]) } else { 0 }) + (if i > 1 {
                one_if(a != 1 && alive@[1])
            } else {
                0
            }) + (if i > 2 { one_if(a != 2 && alive@[2]) } else { 0 }) + (if i > 3 {
                one_if(a != 3 && alive@[3])
            } else {
                0
            }),
        decreases 4 - i,
    {
        if i != a && alive[i] {
            r = r + 1;
        }
        i = i + 1;
    }
    r
}

impl Game {
    /// A message from player `id`; see
    /// `process_outcome`.
    pub fn process(
        &mut self,
        id: usize,
        text: &Vec<char>,
        now: i64,
        walk: &Vec<usize>,
        rng: &mut StdRng,
        acts: &mut Vec<Action>,
    ) -> (r: Result<(), Fault>)
        requires
            old(self).wf(),
            id < 4,
            is_walk(walk@),
            old(self).timely(now),
            old(self).scores_within(0x4000_0000_0000_0000 - 0x400_0000_0000),
        ensures
            Game::process_outcome(old(self), final(self), id as int, text@, now, walk@, r),
            Game::process_acts(old(self), final(self).action_id, id, text@, now, walk@, r, old(acts)@, final(acts)@),
            r is Ok ==> final(self).wf(),
            r is Ok ==> final(self).scores_near(old(self).score@, 0x400_0000_0000),
            r is Ok ==> final(self).timely(now),
            r is Ok ==> no_one_returns(old(self).alive@, final(self).alive@),
            r is Ok ==> total(final(self).score@) <= total(old(self).score@),
            extends(final(acts)@, old(acts)@),
    {
        let ghost o = *self;
        proof {
            lemma_extends_refl(acts@);
        }
        if self.stage == Stage::OutWait || self.stage == Stage::QgWait {
            if id == self.action_id {
                return Ok(());
            }
            let late = now - self.last_time > CLAIM_MS;
            self.fine(id, now, 550, 450);
            let kept = if late {
                pass_text()
            } else {
                copy_chars(text)
            };
            self.messages.set(id, Some(kept));
            let ghost mid = *self;
            let stored = count_stored(&self.messages);
            let awaited = count_awaited(&self.alive, self.action_id);
            if stored >= awaited {
                if self.stage == Stage::OutWait {
                    let r = self.outwait(walk, now, acts);
                    proof {
                        assert(Game::answer_stored(&o, &mid, id as int, text@, now));
                        assert(mid.stored() >= mid.awaited());
                    }
                    r
                } else {
                    let r = self.qgwait(now, acts);
                    proof {
                        assert(Game::answer_stored(&o, &mid, id as int, text@, now));
                        assert(mid.stored() >= mid.awaited());
                    }
                    r
                }
            } else {
                proof {
                    assert(Game::answer_stored(&o, &mid, id as int, text@, now));
                }
                Ok(())
            }
        } else {
            let w = classify(&trimmed(&first_field_of(text)));
            if w == Word::Join {
                self.join(id, rng, now, acts)
            } else if w == Word::Out || w == Word::AGang || w == Word::JGang {
                let tile = match second_field_of(text) {
                    Some(f) => parse_tile(&trimmed(&f)),
                    None => {
                        return Err(Fault::MissingArgument);
                    },
                };
                if w == Word::Out {
                    self.out(id, tile, now, acts)
                } else if w == Word::AGang {
                    self.agang(id, tile, now, acts)
                } else {
                    self.jgang(id, tile, now, acts)
                }
            } else if w == Word::Hu {
                self.tsumo(id, now, acts)
            } else {
                Ok(())
            }
        }
    }
}


/// What a line read from a player's program comes to: the line without
/// surrounding white space, or `None` where nothing is left (the program
/// closed its output), which is read as `CLOSE`.
pub fn incoming(line: &Vec<char>) -> (r: Option<Vec<char>>)
    ensures
        trim(line@).len() > 0 ==> r is Some && r->0@ == trim(line@),
        trim(line@).len() == 0 ==> r is None,
{
    let t = trimmed(line);
    if t.len() > 0 {
        Some(t)
    } else {
        None
    }
}

/// The text `CLOSE`.
pub fn close_text() -> (r: Vec<char>)
    ensures
        r@ == word_text(Word::Close),
{
    let mut r: Vec<char> = Vec::new();
    r.push('C');
    r.push('L');
    r.push('O');
    r.push('S');
    r.push('E');
    assert(r@ =~= word_text(Word::Close));
    r
}

/// Whether `text` is `CLOSE`: the player's program ended.
pub fn is_close(text: &Vec<char>) -> (r: bool)
    ensures
        r == (text@ == word_text(Word::Close)),
{
    let c = close_text();
    if text.len() != c.len() {
        return false;
    }
    let mut i: usize = 0;
    while i < text.len()
        invariant
            i <= text.len(),
            text.len() == c.len(),
            c@ == word_text(Word::Close),
            forall|j: int| 0 <= j < i ==> text@[j] == c@[j],
        decreases text.len() - i,
    {
        if text[i] != c[i] {
            return false;
        }
        i = i + 1;
    }
    assert(text@ =~= c@);
    true
}

impl Game {
    /// What discarding the first tile of player `id`'s hand for him comes
    /// to from `o` in `n` (what the line `out` with that tile does).
    pub open spec fn first_tile_out(o: &Game, n: &Game, id: int, now: i64, r: Result<(), Fault>, a0: Seq<Action>, a1: Seq<Action>) -> bool {
        &&& id >= o.tiles.len() ==> r == Err::<(), Fault>(Fault::MissingHand) && a1 == a0
        &&& id < o.tiles.len() && o.hand_of(id).len() == 0 ==> r == Err::<(), Fault>(Fault::EmptyHand) && a1 == a0
        &&& id < o.tiles.len() && o.hand_of(id).len() > 0 ==> Game::out_outcome(o, n, id, Some(o.hand_of(id)[0]), now, r)
            && Game::out_acts(o, id as usize, Some(o.hand_of(id)[0]), a0, a1)
    }

    /// What the line `text` from player `id` comes to from `o` in `n`.
    /// `CLOSE` (his program ended) shuts him down and ends the game: no
    /// player plays any more and nothing else changes.  Any other line is a
    /// command in JSON, processed as the words it reads as
    /// (`command_text`, with the last tile as the discard a chow takes).
    pub open spec fn message_outcome(
        o: &Game,
        n: &Game,
        id: int,
        text: Seq<char>,
        now: i64,
        walk: Seq<usize>,
        r: Result<(), Fault>,
        a0: Seq<Action>,
        a1: Seq<Action>,
    ) -> bool {
        if text == word_text(Word::Close) {
            &&& r is Ok
            &&& n.same_table(o)
            &&& n.score@ == o.score@
            &&& n.alive@ == seq![false, false, false, false]
            &&& a1 == a0.push(Action::Shut { id: id as usize })
        } else {
            let cmd = command_text(text, o.last_tile);
            Game::process_outcome(o, n, id, cmd, now, walk, r) && Game::process_acts(
                o,
                n.action_id,
                id as usize,
                cmd,
                now,
                walk,
                r,
                a0,
                a1,
            )
        }
    }

    /// Discards the first tile of player `id`'s hand for him.
    fn out_first(&mut self, id: usize, now: i64, acts: &mut Vec<Action>) -> (r: Result<(), Fault>)
        requires
            old(self).wf(),
            id < 4,
            old(self).timely(now),
            old(self).scores_within(0x4000_0000_0000_0000),
        ensures
            Game::first_tile_out(old(self), final(self), id as int, now, r, old(acts)@, final(acts)@),
            r is Ok ==> final(self).wf(),
            r is Ok ==> final(self).scores_near(old(self).score@, 0x10_0000_0000),
            r is Ok ==> final(self).timely(now),
            r is Ok ==> no_one_returns(old(self).alive@, final(self).alive@),
            r is Ok ==> total(final(self).score@) <= total(old(self).score@),
            extends(final(acts)@, old(acts)@),
    {
        proof {
            lemma_extends_refl(acts@);
        }
        if id >= self.tiles.len() {
            return Err(Fault::MissingHand);
        }
        if self.tiles[id].hands.len() == 0 {
            return Err(Fault::EmptyHand);
        }
        let t = self.tiles[id].hands[0];
        proof {
            assert(crate::game::player_ok(self.tiles@[id as int]@, self.dealt()));
            assert(crate::tile::is_tile(self.hand_of(id as int)[0]));
        }
        self.out(id, Some(t), now, acts)
    }

    /// A line from player `id`; see `message_outcome`.
    pub fn on_message(
        &mut self,
        id: usize,
        text: &Vec<char>,
        now: i64,
        walk: &Vec<usize>,
        rng: &mut StdRng,
        acts: &mut Vec<Action>,
    ) -> (r: Result<(), Fault>)
        requires
            old(self).wf(),
            id < 4,
            is_walk(walk@),
            old(self).timely(now),
            old(self).scores_within(0x4000_0000_0000_0000 - 0x400_0000_0000),
        ensures
            Game::message_outcome(old(self), final(self), id as int, text@, now, walk@, r, old(acts)@, final(acts)@),
            r is Ok ==> final(self).wf(),
            r is Ok ==> final(self).scores_near(old(self).score@, 0x400_0000_0000),
            r is Ok ==> final(self).timely(now),
            r is Ok ==> no_one_returns(old(self).alive@, final(self).alive@),
            r is Ok ==> total(final(self).score@) <= total(old(self).score@),
            extends(final(acts)@, old(acts)@),
    {
        let ghost o = *self;
        let ghost a0 = acts@;
        if is_close(text) {
            self.shut(id, acts);
            proof {
                lemma_extends_push(a0, Action::Shut { id });
            }
            self.end_hand();
            Ok(())
        } else {
            let cmd = command_of(text, self.last_tile);
            self.process(id, &cmd, now, walk, rng, acts)
        }
    }
}


impl Game {
    /// Whether player `j` of `o` is still owed an answer: he plays, is not
    /// the one to act, and has sent nothing.
    pub open spec fn silent(o: &Game, j: int) -> bool {
        j != o.action_id && o.alive@[j] && o.messages@[j] is None
    }

    /// Seat `j`'s answer in `n` is a pass where he is silent in `o` and
    /// below seat `k`, and as in `o` otherwise.
    pub open spec fn slot_passed(o: &Game, n: &Game, j: int, k: int) -> bool {
        if j < k && Game::silent(o, j) {
            n.messages@[j] is Some && n.messages@[j]->0@ == word_text(Word::Pass)
        } else {
            n.messages@[j] == o.messages@[j]
        }
    }

    /// `n` is `o` with a pass stored for each silent player below seat `k`.
    pub open spec fn passed_below(o: &Game, n: &Game, k: int) -> bool {
        &&& n.messages@.len() == 4
        &&& forall|j: int| 0 <= j < 4 ==> #[trigger] Game::slot_passed(o, n, j, k)
        &&& n.score@ == o.score@
        &&& n.fines == o.fines
        &&& n.stage == o.stage
        &&& n.joined@ == o.joined@
        &&& n.action_id == o.action_id
        &&& n.tiles@ == o.tiles@
        &&& n.left@ == o.left@
        &&& n.last_time == o.last_time
        &&& n.last_tile == o.last_tile
        &&& n.alive@ == o.alive@
        &&& n.base == o.base
        &&& n.gid == o.gid
    }

    /// `n` is `o` with a pass stored for every silent player.
    pub open spec fn silent_passed(o: &Game, n: &Game) -> bool {
        Game::passed_below(o, n, 4)
    }

    /// What running out of time comes to from `o` in `n`, recording and
    /// telling from `a0` to `a1`.  While the others answer, each one still
    /// silent counts as passing, and the answers are acted on; otherwise the
    /// first tile of the hand of the player to act is discarded for him.
    pub open spec fn timeout_outcome(
        o: &Game,
        n: &Game,
        now: i64,
        walk: Seq<usize>,
        r: Result<(), Fault>,
        a0: Seq<Action>,
        a1: Seq<Action>,
    ) -> bool {
        if o.waiting() {
            exists|mid: Game|
                {
                    &&& #[trigger] Game::silent_passed(o, &mid)
                    &&& o.stage == Stage::OutWait ==> Game::outwait_outcome(&mid, n, walk, now, r)
                        && Game::outwait_acts(&mid, walk, r, a0, a1)
                    &&& o.stage == Stage::QgWait ==> Game::qgwait_outcome(&mid, n, now, r) && Game::qgwait_acts(
                        &mid,
                        r,
                        a0,
                        a1,
                    )
                }
        } else {
            Game::first_tile_out(o, n, o.action_id as int, now, r, a0, a1)
        }
    }

    /// Stores a pass for every silent player.
    fn pass_silent(&mut self)
        requires
            old(self).wf(),
        ensures
            Game::silent_passed(old(self), final(self)),
            final(self).wf(),
    {
        let ghost o = *self;
        let mut i: usize = 0;
        while i < 4
            invariant
                i <= 4,
                o.wf(),
                Game::passed_below(&o, self, i as int),
            decreases 4 - i,
        {
            let ghost before = *self;
            assert(Game::slot_passed(&o, self, i as int, i as int));
            if i != self.action_id && self.alive[i] && self.messages[i].is_none() {
                self.messages.set(i, Some(pass_text()));
            }
            assert forall|j: int| 0 <= j < 4 implies #[trigger] Game::slot_passed(&o, self, j, i + 1) by {
                assert(Game::slot_passed(&o, &before, j, i as int));
            }
            i = i + 1;
        }
    }

    /// The players took too long; see `timeout_outcome`.
    pub fn on_timeout(&mut self, now: i64, walk: &Vec<usize>, rng: &mut StdRng, acts: &mut Vec<Action>) -> (r: Result<
        (),
        Fault,
    >)
        requires
            old(self).wf(),
            is_walk(walk@),
            old(self).timely(now),
            old(self).scores_within(crate::game::SCORE_LIMIT as int),
        ensures
            Game::timeout_outcome(old(self), final(self), now, walk@, r, old(acts)@, final(acts)@),
            r is Ok ==> final(self).wf(),
            r is Ok ==> final(self).scores_near(old(self).score@, crate::game::STEP_LIMIT as int),
            r is Ok ==> final(self).timely(now),
            r is Ok ==> no_one_returns(old(self).alive@, final(self).alive@),
            r is Ok ==> total(final(self).score@) <= total(old(self).score@),
            extends(final(acts)@, old(acts)@),
    {
        let ghost o = *self;
        if self.stage == Stage::OutWait || self.stage == Stage::QgWait {
            self.pass_silent();
            let ghost mid = *self;
            let r = if self.stage == Stage::OutWait {
                self.outwait(walk, now, acts)
            } else {
                self.qgwait(now, acts)
            };
            proof {
                assert(Game::silent_passed(&o, &mid));
            }
            r
        } else {
            let a = self.action_id;
            self.out_first(a, now, acts)
        }
    }
}


/// The winner that the action `a` records, if it records a win.
pub open spec fn win_of(a: Action) -> Option<usize> {
    match a {
        Action::Log { record: Record::Win { id, .. } } => Some(id),
        _ => None,
    }
}

/// The winner of the last win that `acts` record, if they record one.
pub fn winner_of(acts: &Vec<Action>) -> (r: Option<usize>)
    ensures
        r is None ==> forall|k: int| 0 <= k < acts@.len() ==> #[trigger] win_of(acts@[k]) is None,
        r matches Some(w) ==> exists|k: int|
            0 <= k < acts@.len() && #[trigger] win_of(acts@[k]) == Some(w) && forall|m: int|
                k < m < acts@.len() ==> #[trigger] win_of(acts@[m]) is None,
{
    let mut r: Option<usize> = None;
    let mut i: usize = acts.len();
    while i > 0
        invariant
            i <= acts@.len(),
            r is None,
            forall|m: int| i <= m < acts@.len() ==> #[trigger] win_of(acts@[m]) is None,
        decreases i,
    {
        i = i - 1;
        match &acts[i] {
            Action::Log { record: Record::Win { id, .. } } => {
                assert(win_of(acts@[i as int]) == Some(*id));
                return Some(*id);
            },
            _ => {},
        }
    }
    r
}

/// Whether `walk` lists each seat once (`is_walk`).
pub fn is_walk_exec(walk: &Vec<usize>) -> (r: bool)
    ensures
        r == is_walk(walk@),
{
    if walk.len() != 4 {
        return false;
    }
    let mut i: usize = 0;
    while i < 4
        invariant
            i <= 4,
            walk.len() == 4,
            forall|a: int| 0 <= a < i ==> #[trigger] walk@[a] < 4,
            forall|a: int, b: int| 0 <= a < b < i ==> walk@[a] != walk@[b],
        decreases 4 - i,
    {
        if walk[i] >= 4 {
            return false;
        }
        let mut j: usize = 0;
        while j < i
            invariant
                j <= i < 4,
                walk.len() == 4,
                forall|a: int| 0 <= a < j ==> walk@[a] != walk@[i as int],
            decreases i - j,
        {
            if walk[j] == walk[i] {
                return false;
            }
            j = j + 1;
        }
        i = i + 1;
    }
    true
}

impl Game {
    /// The hand is over: no player plays any more.
    pub fn is_over(&self) -> (r: bool)
        requires
            self.alive.len() == 4,
        ensures
            r == (self.alive@ == seq![false, false, false, false]),
    {
        let r = !self.alive[0] && !self.alive[1] && !self.alive[2] && !self.alive[3];
        proof {
            if r {
                assert(self.alive@ =~= seq![false, false, false, false]);
            }
        }
        r
    }

    /// When the current wait runs out, in milliseconds.
    pub fn deadline(&self) -> (r: i64)
        requires
            self.last_time <= 0x4000_0000_0000_0000,
        ensures
            r == self.last_time + if self.waiting() {
                CLAIM_MS
            } else {
                TURN_MS
            },
    {
        if self.stage == Stage::OutWait || self.stage == Stage::QgWait {
            self.last_time + CLAIM_MS
        } else {
            self.last_time + TURN_MS
        }
    }

    /// Whether `now` may be handed to the next step (`timely`).
    pub fn accepts_time(&self, now: i64) -> (r: bool)
        ensures
            r == self.timely(now),
    {
        self.last_time <= now && (now as i128) - (self.last_time as i128) <= ELAPSED_LIMIT as i128
    }

    /// Whether the scores lie within the bound the steps start from.
    pub fn scores_in_range(&self) -> (r: bool)
        requires
            self.score.len() == 4,
        ensures
            r == self.scores_within(SCORE_LIMIT as int),
    {
        let mut i: usize = 0;
        while i < 4
            invariant
                i <= 4,
                self.score.len() == 4,
                forall|j: int| 0 <= j < i ==> -SCORE_LIMIT <= #[trigger] self.score@[j] <= SCORE_LIMIT,
            decreases 4 - i,
        {
            if self.score[i] < -SCORE_LIMIT || self.score[i] > SCORE_LIMIT {
                return false;
            }
            i = i + 1;
        }
        true
    }
}

} // verus!
