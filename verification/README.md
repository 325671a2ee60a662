# wuziqi

Gomoku (five in a row) on a 15 x 15 board, with a computer opponent and an
optional opponent that asks a language model (through OpenRouter) for its move.

The library under `src/` is verified with Verus:

- `board.rs`: the board, runs of stones, and `winning_line`.
- `ai.rs`: scoring of moves, immediate wins and double threats, move ranking,
  static evaluation, and the narrow two-ply search `ai_move`; also the candidate
  moves offered to the language model.
- `game.rs`: a game in progress (`Game::place`, `Game::undo`) and its invariant.
- `llm.rs`: the language model player's settings, the prompt, and the reading
  and checking of the move in its reply.
- `openrouter.rs`: the JSON text of a chat completions request, and what a
  reply body (or a refusal) comes to.
- `text.rs`: trimming, affixes and shortening of text.
- `seq_facts.rs`: facts about filtered sequences used by the proofs.

`app/` is the program around it: the window and drawing (macroquad), the
settings file (serde_json), and sending the request and receiving the reply
(ureq).
