# freecell

A FreeCell engine whose rules, deals, history and interface decisions are
proved correct with Verus; of the solver, every winning line it reports is
proved to win and its answer is proved to be that of the search it
specifies, while that `Unsolvable` means unwinnable is not proved. Deals follow the classic Microsoft
numbering: deal #1 here is the Windows game #1.

## Layout

- `src/` — the verified library.
  - `card.rs`: cards, suits, board locations, the two-character move grammar.
  - `state.rs`: the position, move legality, supermove capacity, and the
    proof that no move loses or creates a card.
  - `deal.rs`: the numbered deal and the proof that it lays out each of the
    52 cards once.
  - `game.rs`: undo, redo, auto-play and their laws.
  - `action.rs`: actions as data, the reducer, and replay.
  - `solver.rs`, `keyset.rs`: the depth-first solver with its transposition
    table; every line it reports is proved to win.
  - `board_text.rs`: the board as the line-mode interface prints it, and
    the terminal footer.
  - `analysis.rs`: hints, post-game grading, the unsolvable-boundary search.
  - `stats.rs`: win/loss statistics, streaks, chart data.
  - `store.rs`: the store that applies actions and notifies subscribers.
  - `command.rs`: the typed command grammar.
  - `tui_board.rs`: terminal board layout, hit testing, key and click
    decisions.
- `tests/` — tests run against the compiled library.
- `app/` — the programs: the line-mode and terminal interfaces, the JSON
  statistics export, and the desktop board geometry and charts (floating
  point, outside the library).
