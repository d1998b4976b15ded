# tabluter

A bot for the Chesani variant of Hashton Tablut, written in Verus: the board
rules, hashing, evaluation and search are verified against contracts, and a
thin command-line front end plays on the tournament server or opens an
interactive board in the terminal.

## Layout

- `src/` — the verified library.
  - `bitops.rs`: bitboard helpers (`bit`, lowest set bit, popcount).
  - `board.rs`: `State` and `Move`, move generation, captures, playing a
    move, the position text and the Zobrist hash words.
  - `zobrist.rs`: the hash keys; each of the eight hash words sees the board
    through one of the eight symmetries of the square.
  - `symmetry.rs`: symmetric positions share their canonical hash.
  - `packed.rs`: the 256-bit packed form of a position.
  - `eval.rs`, `weights.rs`: the feature-based evaluation and its weights.
  - `search.rs`, `abort.rs`: negamax with alpha-beta pruning, iterative
    deepening and a fixed-size transposition table.
  - `client.rs`: the server protocol (game-state payloads, move messages,
    length-prefixed frames).
  - `game.rs`: what the bot does with each position the server sends.
  - `stats.rs`, `ui.rs`, `text.rs`: search counters, the interactive board's
    state machine, text helpers.
  - `laws.rs`: properties that span several functions.
- `tests/` — tests of the library.
- `app/` — the program: argument handling, the TCP connection, the search
  timer, the terminal board and the statistics report.

## Running

```bash
bot --interactive                          # local board
bot <white|black> <time_limit> <server_ip> # play on the server
```

White connects to port 5800 and Black to port 5801.
