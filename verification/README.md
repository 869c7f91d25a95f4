# Word Legend

A shared-clock word game on a 4x4 board. Everyone online plays the same board
on the same three-minute clock, traces words across adjacent tiles, and climbs
a six-league ladder ranked on the average of their last ten rounds. Without a
server the game plays solo boards made on the spot.

## Layout

- `src/` is the game's logic, verified with Verus: the two-tier word list and
  its trie (`dictionary`), tracing and scoring (`game`, `round`), the solver
  (`solver`), board building and the round schedule (`rotation`), themes
  (`themes`), the league ladder (`league`), accounts and recovery codes
  (`identity`), the save formats (`save`, `league`, `identity`), following the
  shared round (`live`, `net`), the round packs the server is fed (`packs`) and
  what the screen says about the clock (`screen`). `random` holds the few calls
  into `rand` the boards are built from, each with the contract it is trusted
  to meet.
- `app/` is the desktop program around it: the egui window, the save slots on
  disk, the HTTP client, the clipboard, and the themed-board search, whose
  acceptance of worse boards is floating point. `--export-rounds <dir> [count]
  [first] [--all-months]` writes round packs instead of opening the window.
- `tests/` exercises the library from outside.

## Data

The word lists are read at start-up from the directory named by
`WORD_LEGEND_DATA`, or the working directory: `dictionary.txt` (every accepted
word), `common.txt` (the common tier), `themes.txt` (`[Name]` headers, one word
per line) and `superwords.txt` (sixteen-tile words).

## Design notes

- The solver keeps the words it finds in `Vec`s held in ranked order (longest
  first, then alphabetical) and looks a word up by scanning them. `vstd`
  specifies `HashMap` and `HashSet` only through a key's view and hash
  obeying laws that `String` keys do not come with, so a set of strings says
  next to nothing a proof can use; a ranked list's contents and order are
  stated exactly.
- Randomness comes in from outside the library: the game is handed a
  generator to roll its boards with, and a new account the bytes its id is
  spelled from. Seeded boards draw from a generator seeded in the library, and
  what they build is stated as a function of the seed.
