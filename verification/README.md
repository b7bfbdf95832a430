# tombola

A server for tombola, the Italian bingo: players join a game, get groups of
cards, and a board client draws numbers from the pouch while the server
scores every card (two, three, four, five in a line, then tombola).

The game logic is written in Verus and proved against its contracts:

- `src/pouch.rs`, `src/board.rs`, `src/extraction.rs`: drawing numbers and
  keeping the board.
- `src/score.rs`, `src/prize.rs`, `src/layout.rs`: the scoring rules for the
  board and for every card.
- `src/card.rs`, `src/coverage.rs`, `src/tally.rs`: card generation (groups of
  six cards that together hold each number from 1 to 90 once, fifteen per
  card, five per row) and card assignment.
- `src/client.rs`, `src/game.rs`: the client and game registries.
- `src/api.rs`: what each HTTP request does to the server state and answers.
- `src/config.rs`, `src/logging.rs`, `src/terminal.rs`, `src/client_view.rs`,
  `src/player.rs`: configuration files, log lines, the text views of board,
  cards and games list, and a player client's session.
- `src/strmap.rs`, `src/text.rs`, `src/clock.rs`, `src/rng.rs`: an
  insertion-ordered string map, text helpers, and the calls into `std`,
  `chrono` and `rand`.

`app/main.rs` is the HTTP server itself (axum and tokio): it reads the
configuration, routes requests to the handlers of `src/api.rs`, turns their
results into JSON, and writes game snapshots to disk.

`tests/` holds the test suite.
