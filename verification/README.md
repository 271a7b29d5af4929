# poker

A poker table server whose game logic is verified with Verus. Three variants are
played: five card draw, seven card stud and Texas hold'em, with blinds or antes,
betting and discard rounds, showdowns and pay-outs, player accounts with hashed
passwords, and a statistics store.

## Layout

- `src/` — the verified library.
  - `card`, `deck`, `hand`: cards, a shuffled deck of 52, hands with a limit.
  - `counting`, `score_hands`, `order`: scoring five cards (and the best five of
    more), and the order of scores.
  - `player`: player records, their betting choices, and password hashing.
  - `game_state`: the server's table: seats, lobby, blinds, dealing, betting.
  - `betting`: the steps of a betting or discard round between players' replies.
  - `showdown`: choosing the winners and paying the pot.
  - `rounds`: discards, door cards, and starting a game of each variant.
  - `table`: joining, watching and leaving, demo mode, announcements.
  - `terminal`: what a player's terminal asks and sends, given the table.
  - `base_rules`, `game_type`, `discards`: the table played from one terminal,
    its five card draw and seven card stud games, and choosing cards to redraw.
  - `auth`, `messages`, `text`: logins, the messages exchanged, reading and
    writing decimal text.
- `app/` — the server program: HTTP and WebSocket endpoints (actix), the game
  loops that wait for players' messages, and the MongoDB store.
- `tests/` — tests of the library.
