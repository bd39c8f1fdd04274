# javelin

The rules and data structures of the Javelin chess engine, verified with Verus.

- `src/` is the library. Verus proves its functions against their contracts; the few
  calls into std and into outside crates (`arrayvec`, `rand`, `colored`) go through
  small trusted wrappers whose contracts say what those calls do. It holds the board
  representation and bit tricks (`bit_ops`, `bitboard`, `core_structs`), attack tables
  and magic numbers (`geometry`, `rays`, `attacks`, `magic`), the board and its moves
  (`board`, `board_form`, `movegen`, `movegen_laws`, `capture_generation`,
  `king_safety`, `legality`, `position_laws`, `completeness`, `distinct_moves`: the
  moves listed keep the board well formed, never leave the king of the side that moves
  attacked, and lead from a position play can reach to another; every move that leaves
  the king safe is listed with its flags, en passant in check excepted when the taken
  pawn is not the piece that gives check; and no move is listed twice), a bound on
  the number of moves listed and a generation that checks it (`move_count`), perft
  (`perft`), FEN parsing (`fen`), the moves of a UCI `position` command
  (`uci_position`), static exchange evaluation and quiescence move
  ordering (`see`, `move_orderer`), the search tree with its least-recently-used
  replacement (`search_tree`), search limits and UCI `go` parsing (`search_rules`,
  `uci_go`), engine options (`options`), self-play record encoding (`records`), network
  input indices (`network_inputs`) and text diagrams (`drawing`).
- `tests/` runs the library on concrete positions.
- `app/` is the UCI front end: reading commands, timing and printing.
