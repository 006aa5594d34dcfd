//! The contest's schedule: six groups, each played at four seatings of the
//! same four programs, four games at each seating.  A group keeps one random
//! seed; each seating starts a generator from it afresh; from one seating to
//! the next every program moves one seat on.  The last winner acts first,
//! and a program that closes ends the contest.
//!
//! Programs are numbered from 0 to 3 in the order they were named; a
//! seating lists the program at each seat.

use vstd::prelude::*;

verus! {

/// The number of groups.
pub const GROUPS: usize = 6;

/// The number of seatings in a group.
pub const SEATINGS: usize = 4;

/// The number of games at each seating.
pub const GAMES: usize = 4;

/// The first seating of group `g`.
pub open spec fn first_row(g: int) -> Seq<usize> {
    if g == 0 {
        seq![0usize, 1, 2, 3]
    } else if g == 1 {
        seq![0usize, 2, 1, 3]
    } else if g == 2 {
        seq![0usize, 2, 3, 1]
    } else if g == 3 {
        seq![0usize, 3, 1, 2]
    } else if g == 4 {
        seq![0usize, 3, 2, 1]
    } else {
        seq![0usize, 1, 3, 2]
    }
}

/// Seating `k` of group `g`: the first seating turned by `k` seats, so that
/// seat `j` holds the program that sat `k` seats further on at first.
pub open spec fn seating_spec(g: int, k: int) -> Seq<usize> {
    Seq::new(
        4,
        |j: int|
            first_row(g)[if j + k < 4 {
                j + k
            } else {
                j + k - 4
            }],
    )
}

/// `s` seats each of the four programs once.
pub open spec fn is_seating(s: Seq<usize>) -> bool {
    &&& s.len() == 4
    &&& forall|j: int| 0 <= j < 4 ==> #[trigger] s[j] < 4
    &&& forall|i: int, j: int| 0 <= i < j < 4 ==> s[i] != s[j]
}

/// From one seating of a group to the next, every program moves one seat
/// on: seat `j` now holds the program that sat at seat `j + 1`.
pub proof fn law_seats_rotate(g: int, k: int, j: int)
    requires
        0 <= g < 6,
        0 <= k < 3,
        0 <= j < 4,
    ensures
        seating_spec(g, k + 1)[j] == seating_spec(g, k)[(j + 1) % 4],
{
}

/// Different groups seat the programs in different orders round the table:
/// no seating of one group is a seating of another, so that the six groups
/// play the six orders that four programs can take round a table.
pub proof fn law_groups_differ(g1: int, k1: int, g2: int, k2: int)
    requires
        0 <= g1 < 6,
        0 <= g2 < 6,
        g1 != g2,
        0 <= k1 < 4,
        0 <= k2 < 4,
    ensures
        seating_spec(g1, k1) != seating_spec(g2, k2),
{
    let s1 = seating_spec(g1, k1);
    let s2 = seating_spec(g2, k2);
    if s1 == s2 {
        assert(s1[0] == s2[0] && s1[1] == s2[1] && s1[2] == s2[2] && s1[3] == s2[3]);
    }
}

/// Each seating seats the four programs once each.
pub proof fn lemma_seating_is_seating(g: int, k: int)
    requires
        0 <= g < 6,
        0 <= k < 4,
    ensures
        is_seating(seating_spec(g, k)),
{
    let s = seating_spec(g, k);
    assert(s[0] == first_row(g)[k]);
    assert(s[1] == first_row(g)[if 1 + k < 4 { 1 + k } else { k - 3 }]);
    assert(s[2] == first_row(g)[if 2 + k < 4 { 2 + k } else { k - 2 }]);
    assert(s[3] == first_row(g)[if 3 + k < 4 { 3 + k } else { k - 1 }]);
}

/// The contest so far.
pub struct Contest {
    /// The group being played.
    pub group: usize,
    /// The seating being played within the group.
    pub seating: usize,
    /// The game being played at the seating.
    pub game: usize,
    /// Each program's total score.
    pub totals: Vec<i64>,
    /// The program that won the last game that had a winner.
    pub last_winner: Option<usize>,
    /// The program that closed, which ended the contest.
    pub quitter: Option<usize>,
}

/// What the next game is.
pub struct Plan {
    /// The program at each seat.
    pub seats: Vec<usize>,
    /// The seat of the last winner, who acts first; `None` where no game
    /// has had a winner yet.
    pub leader: Option<usize>,
    /// A new group begins: a new seed is drawn.
    pub new_seed: bool,
    /// A new seating begins: the generator starts afresh from the seed.
    pub new_generator: bool,
    /// The seating's number in the whole contest, from 1.
    pub round: usize,
    /// The game's number at its seating, from 1.
    pub game: usize,
}

/// `n` is `o` after one more game, in the order of the schedule.
pub open spec fn advanced(o: &Contest, n: &Contest) -> bool {
    if o.game + 1 < GAMES {
        n.group == o.group && n.seating == o.seating && n.game == o.game + 1
    } else if o.seating + 1 < SEATINGS {
        n.group == o.group && n.seating == o.seating + 1 && n.game == 0
    } else {
        n.group == o.group + 1 && n.seating == 0 && n.game == 0
    }
}

/// Adding `scores`, by seat, to the totals of the programs at `seats` stays
/// within the range of `i64`.
pub open spec fn adds_up(totals: Seq<i64>, seats: Seq<usize>, scores: Seq<i64>) -> bool {
    forall|i: int|
        0 <= i < 4 ==> i64::MIN <= #[trigger] totals[seats[i] as int] + scores[i] <= i64::MAX
}

/// A program's position in a seating.
fn seat_of(seats: &Vec<usize>, w: usize) -> (r: usize)
    requires
        is_seating(seats@),
        w < 4,
    ensures
        r < 4,
        seats@[r as int] == w,
{
    let mut j: usize = 0;
    while j < 3
        invariant
            j <= 3,
            is_seating(seats@),
            w < 4,
            forall|i: int| 0 <= i < j ==> seats@[i] != w,
        decreases 3 - j,
    {
        if seats[j] == w {
            return j;
        }
        j = j + 1;
    }
    assert(seats@[0] != w && seats@[1] != w && seats@[2] != w);
    assert(seats@[0] != seats@[1] && seats@[0] != seats@[2] && seats@[0] != seats@[3]);
    assert(seats@[1] != seats@[2] && seats@[1] != seats@[3] && seats@[2] != seats@[3]);
    assert(seats@[0] < 4 && seats@[1] < 4 && seats@[2] < 4 && seats@[3] < 4);
    assert(seats@[3] == w);
    3
}

impl Contest {
    /// The counters are in range, the totals are four, and the programs
    /// named are among the four.
    pub open spec fn wf(&self) -> bool {
        &&& self.totals@.len() == 4
        &&& self.group <= GROUPS
        &&& self.seating < SEATINGS
        &&& self.game < GAMES
        &&& self.group == GROUPS ==> self.seating == 0 && self.game == 0
        &&& self.last_winner matches Some(w) ==> w < 4
        &&& self.quitter matches Some(q) ==> q < 4
    }

    /// A contest not begun: every total zero, no winner and no one closed.
    pub fn new() -> (c: Contest)
        ensures
            c.wf(),
            c.totals@ == seq![0i64, 0, 0, 0],
            c.group == 0 && c.seating == 0 && c.game == 0,
            c.last_winner is None,
            c.quitter is None,
    {
        let totals = vec![0i64, 0, 0, 0];
        assert(totals@ =~= seq![0i64, 0, 0, 0]);
        Contest { group: 0, seating: 0, game: 0, totals, last_winner: None, quitter: None }
    }

    /// The next game, or `None` once a program closed or every group was
    /// played.
    pub fn next_game(&self) -> (r: Option<Plan>)
        requires
            self.wf(),
        ensures
            r is None <==> (self.quitter is Some || self.group >= GROUPS),
            r matches Some(p) ==> {
                &&& p.seats@ == seating_spec(self.group as int, self.seating as int)
                &&& is_seating(p.seats@)
                &&& (self.last_winner is None ==> p.leader is None)
                &&& (self.last_winner matches Some(w) ==> p.leader matches Some(j) && j < 4 && p.seats@[j as int] == w)
                &&& p.new_seed == (self.seating == 0 && self.game == 0)
                &&& p.new_generator == (self.game == 0)
                &&& p.round == self.group * SEATINGS + self.seating + 1
                &&& p.game == self.game + 1
            },
    {
        if self.quitter.is_some() || self.group >= GROUPS {
            return None;
        }
        let seats = seating(self.group, self.seating);
        let leader = match self.last_winner {
            Some(w) => Some(seat_of(&seats, w)),
            None => None,
        };
        Some(
            Plan {
                seats,
                leader,
                new_seed: self.seating == 0 && self.game == 0,
                new_generator: self.game == 0,
                round: self.group * SEATINGS + self.seating + 1,
                game: self.game + 1,
            },
        )
    }

    /// Whether `record` can add `scores` at `seats` (`adds_up`).
    pub fn adds_up_exec(&self, seats: &Vec<usize>, scores: &Vec<i64>) -> (r: bool)
        requires
            self.wf(),
            is_seating(seats@),
            scores.len() == 4,
        ensures
            r == adds_up(self.totals@, seats@, scores@),
    {
        let mut i: usize = 0;
        while i < 4
            invariant
                i <= 4,
                self.totals@.len() == 4,
                is_seating(seats@),
                scores.len() == 4,
                forall|k: int|
                    0 <= k < i ==> i64::MIN <= #[trigger] self.totals@[seats@[k] as int] + scores@[k] <= i64::MAX,
            decreases 4 - i,
        {
            let t = self.totals[seats[i]] as i128 + scores[i] as i128;
            if t < i64::MIN as i128 || t > i64::MAX as i128 {
                return false;
            }
            i = i + 1;
        }
        true
    }

    /// The game at `seats` ended with `scores` by seat, won by the player at
    /// seat `winner` where one won, and ended by the program at seat
    /// `quitter` closing where one did: each program's total takes his
    /// score, the winner and the one who closed are noted, and the schedule
    /// moves on by one game.
    pub fn record(&mut self, seats: &Vec<usize>, scores: &Vec<i64>, winner: Option<usize>, quitter: Option<usize>)
        requires
            old(self).wf(),
            old(self).group < GROUPS,
            seats@ == seating_spec(old(self).group as int, old(self).seating as int),
            scores.len() == 4,
            adds_up(old(self).totals@, seats@, scores@),
            winner matches Some(w) ==> w < 4,
            quitter matches Some(q) ==> q < 4,
        ensures
            final(self).wf(),
            final(self).totals@.len() == 4,
            forall|i: int|
                0 <= i < 4 ==> #[trigger] final(self).totals@[seats@[i] as int] == old(self).totals@[seats@[i] as int]
                    + scores@[i],
            winner matches Some(w) ==> final(self).last_winner == Some(seats@[w as int]),
            winner is None ==> final(self).last_winner == old(self).last_winner,
            quitter matches Some(q) ==> final(self).quitter == Some(seats@[q as int]),
            quitter is None ==> final(self).quitter == old(self).quitter,
            advanced(old(self), final(self)),
    {
        proof {
            lemma_seating_is_seating(self.group as int, self.seating as int);
        }
        let ghost t0 = self.totals@;
        let mut i: usize = 0;
        while i < 4
            invariant
                i <= 4,
                is_seating(seats@),
                scores.len() == 4,
                self.totals@.len() == 4,
                adds_up(t0, seats@, scores@),
                t0.len() == 4,
                self.group == old(self).group,
                self.seating == old(self).seating,
                self.game == old(self).game,
                self.last_winner == old(self).last_winner,
                self.quitter == old(self).quitter,
                forall|k: int| 0 <= k < i ==> #[trigger] self.totals@[seats@[k] as int] == t0[seats@[k] as int] + scores@[k],
                forall|k: int| i <= k < 4 ==> #[trigger] self.totals@[seats@[k] as int] == t0[seats@[k] as int],
            decreases 4 - i,
        {
            let p = seats[i];
            assert(i64::MIN <= t0[seats@[i as int] as int] + scores@[i as int] <= i64::MAX);
            let v = self.totals[p] + scores[i];
            self.totals.set(p, v);
            i = i + 1;
        }
        match winner {
            Some(w) => {
                self.last_winner = Some(seats[w]);
            },
            None => {},
        }
        match quitter {
            Some(q) => {
                self.quitter = Some(seats[q]);
            },
            None => {},
        }
        if self.game + 1 < GAMES {
            self.game = self.game + 1;
        } else if self.seating + 1 < SEATINGS {
            self.seating = self.seating + 1;
            self.game = 0;
        } else {
            self.group = self.group + 1;
            self.seating = 0;
            self.game = 0;
        }
    }
}

/// Seating `k` of group `g`.
pub fn seating(g: usize, k: usize) -> (r: Vec<usize>)
    requires
        g < 6,
        k < 4,
    ensures
        r@ == seating_spec(g as int, k as int),
        is_seating(r@),
{
    let row: Vec<usize> = if g == 0 {
        vec![0usize, 1, 2, 3]
    } else if g == 1 {
        vec![0usize, 2, 1, 3]
    } else if g == 2 {
        vec![0usize, 2, 3, 1]
    } else if g == 3 {
        vec![0usize, 3, 1, 2]
    } else if g == 4 {
        vec![0usize, 3, 2, 1]
    } else {
        vec![0usize, 1, 3, 2]
    };
    assert(row@ =~= first_row(g as int));
    let mut r: Vec<usize> = Vec::new();
    let mut j: usize = 0;
    while j < 4
        invariant
            j <= 4,
            k < 4,
            row@ == first_row(g as int),
            row@.len() == 4,
            r@ == seating_spec(g as int, k as int).take(j as int),
        decreases 4 - j,
    {
        let at = if j + k < 4 {
            j + k
        } else {
            j + k - 4
        };
        r.push(row[at]);
        j = j + 1;
        assert(r@ =~= seating_spec(g as int, k as int).take(j as int));
    }
    assert(r@ =~= seating_spec(g as int, k as int));
    proof {
        lemma_seating_is_seating(g as int, k as int);
    }
    r
}

/// Each program's score, from `scores` by seat at `seats`.
pub fn by_program(seats: &Vec<usize>, scores: &Vec<i64>) -> (r: Vec<i64>)
    requires
        is_seating(seats@),
        scores.len() == 4,
    ensures
        r@.len() == 4,
        forall|i: int| 0 <= i < 4 ==> #[trigger] r@[seats@[i] as int] == scores@[i],
{
    let mut r = vec![0i64, 0, 0, 0];
    let mut i: usize = 0;
    while i < 4
        invariant
            i <= 4,
            is_seating(seats@),
            scores.len() == 4,
            r@.len() == 4,
            forall|k: int| 0 <= k < i ==> #[trigger] r@[seats@[k] as int] == scores@[k],
        decreases 4 - i,
    {
        r.set(seats[i], scores[i]);
        i = i + 1;
    }
    r
}

} // verus!
