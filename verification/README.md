# mahjong

A server for contests between mahjong-playing programs.  Four programs sit
at a table; the server deals, relays draws, discards and claims over their
standard input and output, scores the winning hands and keeps a score sheet.

The rules are a verified library (`src/`), proved with Verus:

- `tile`: tile codes and their names.
- `hand`: a player's tiles and the search for the ways a hand completes
  (four sets and a pair, seven pairs, thirteen orphans with all thirteen
  kinds), with proofs that the search finds every standard winning hand
  and that each completion it finds uses exactly the hand's tiles and ends
  in a pair or a special form.
- `fan`: the fans of a completed hand and the score of a winning hand.
- `json`: the commands the players send, one line of JSON each, read into
  the words the game acts on.
- `protocol`: those words and their fields.
- `rng`: the random generators of the `rand` crate (shuffling the wall,
  drawing who acts first, seeds and game ids).
- `game`: the game's state and its steps (draw, discard, claims, wins).
- `table`: the wall, a new game, the joins and the deal.
- `events`: what a line from a player or a timeout does to the game.
- `contest`: the contest's schedule (groups, seatings, games), who acts
  first, the running totals and when the contest ends.
- `standings`: the contest's final ranking.

Each step returns the actions to carry out (messages to players, lines of
the game's record, programs to shut down); `app/` runs the programs, the
clock and the files, and carries them out.  `tests/` holds the tests.
