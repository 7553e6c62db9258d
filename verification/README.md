# super_holdem

Exact equities of three-card starting hands in Super Hold'em, against one random opponent.

Each player holds three cards and shares a board of five. A hand's equity is the mean over every
board and every opponent's hand of 1 for a win, one half for a split and 0 for a loss. Hands that a
renaming of the suits makes equal have the same equity, so 1755 hands stand for all 22100.

`src/` is the library, verified with Verus:

| module | what it holds |
| --- | --- |
| `cards`, `state` | cards as bytes, and the running tally of a hand |
| `straight`, `ranks`, `score` | the table of straights and the score of a hand |
| `holdings`, `patterns`, `best`, `ties` | what a hand holds; its score is that of its best five cards; when two hands tie |
| `draws`, `equity` | sums over draws of cards, and the count of all deals |
| `tallies`, `symmetry` | what scores and equities do not depend on; the mean equity is one half |
| `suits`, `classes`, `forms`, `representatives` | hands up to a renaming of the suits |
| `suit_counts` | how many hands have each suit pattern |
| `names`, `decimal`, `results`, `progress`, `ranking` | names of cards and hands, the record of finished hands, the ranking |

`app/` reads and writes the files, runs the threads and does the floating-point arithmetic.
`tests/` runs the library on concrete values.
