# game_arena

Referees and players for two two-player games, with the rules and the
players' decisions verified by Verus:

- **Liar's Dice**: each player rolls five dice, ones are wild, players raise
  bids on the total count of a face or challenge the last bid.
- **Goofspiel**: each player holds the cards 1 to 13; trophies are turned up
  one by one and the higher card played wins the trophy's value.

Chances are exact fractions throughout the library (`chance`), so every
decision a player makes is stated and proved as a function of its position.

## Layout

- `src/` — the verified library.
  - `dice`, `bidding`, `chance`: the Liar's Dice rules, the referee, bid
    enumeration and exact binomial chances.
  - `liar_players`, `house_bots`, `face_bots`, `face_model`, `counter_bots`,
    `copycat_value`, `archetypes`, `belief_bots`, `archetype_bots`,
    `counter_sim`: the Liar's Dice players, from fixed rules up to players
    that keep a belief over the opponent's hand or simulate the opponent.
  - `fixtures`: recorded lost positions, replayed to judge whether a move
    would have won them against the known dice.
  - `cards`, `goof_game`, `goof_players`, `lookahead`: the Goofspiel hands as
    bit sets, the match referee and the players, up to a one-step lookahead.
  - `probe_cache`: the open-addressing cache of the Goofspiel search.
  - `standings`: round-robin bookkeeping and standings.
  - `rng`: the draws taken from `rand`'s seeded generator.
- `app/` — the command-line program: round-robin tournaments, benchmarks,
  the deployed bots that read a position as JSON, and the Goofspiel searches
  whose values are floating point and whose depth depends on the clock; the
  players are held as trait objects through `app/seats.rs`.
- `tests/` — tests of the library.
