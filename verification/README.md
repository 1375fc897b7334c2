# engine — a verified basketball GM core

A basketball general-manager game: 32 teams, an 82-game season, a 16-team
playoff bracket, a two-round draft, trades and free agency.

## Layout

- `src/` — the verified library (Verus). Every rule of the league lives here
  with its contract: rosters and contracts, the schedule, standings, the
  bracket, the draft lottery and order, the draft board and CPU picks, trade
  legality and execution, free agency bids, settling, signings and roster
  fills, the owner's verdict and note, season close and roll-over. The main
  invariant, `League::wf`, holds across every operation, and
  `League::rosters_consistent` (a player is on at most one roster, and a
  rostered player names his team) is kept by every operation that moves
  players.
- `app/` — a command-line game around the library: the possession-based game
  simulation, player generation and development, awards, the owner's
  readings (projected wins, scoring, money, fans), trade values, the money
  model, scouting and free agents' preferences (all real-valued), the season
  loops, and saving to JSON.
- `tests/` — tests of the library on concrete leagues.

Randomness comes from `rand`'s `StdRng`; the library reaches it only through
three small trusted wrappers in `src/rng.rs`.
