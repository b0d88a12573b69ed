# march_madness

Generates and scores March Madness brackets. The library (`src/`) is verified
with Verus; `app/` holds the command line tool around it (files, progress bars,
parallel scoring and the random games, which are decided with floating point).

- `layout`: the 64 starting slots, the 63 games as a tournament tree, rounds and points.
- `codec`: the binary format (one 64 bit word per bracket), decoding and scoring,
  with the round trip and scoring laws.
- `text`: the text format (rounds separated by `;`), writing and reading, with its round trip.
- `generate`: playing a tournament round by round from the outcome of each game.
- `collect`: keeping generated brackets distinct, spreading them over files, pruning the set of seen ones.
- `scoring`: totals, score distribution and the ten best brackets over many files.
