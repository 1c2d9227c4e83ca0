# boggle

A Boggle word game. The library (`src/`) is written in Verus and proved:

- `board`: tracing a word on the 4 by 4 grid through touching cells, never
  using a cell twice (`worm`, `board_contains`), and the printed grid.
- `text`: UTF-8 prefix tests, padding, list membership.
- `dict`: the word list (words and word beginnings) and the board scraper.
- `input`: trimming white space, the mode choice, the server-browser command and the verdict on a guessed word.
- `results`: shared words, the winner, the longest word and the results
  table.
- `dice`: the sixteen dice and rolling a board.
- `server`: which client connections the broadcast server drops.

`app/` holds the terminal client, the servers and the network code. The
client reads its word list from `dict.txt`, one word per line; run
`boggle server` for the game server.
