# Leafline

An engine for Leafline, an oppositional strategy game for two teams, Orange
and Blue, taking turns moving figurines on an 8-by-8 lattice. The rules of
the game are written in Verus and proved against their specifications; the
search for good movements, which weighs worlds in floating point, and the
terminal, file and driver input and output live around the library.

## Layout

- `src/` — the verified library.
  - `space`: locales and pinfields (sets of locales as the bits of a `u64`).
  - `identity`: teams, job descriptions, agents and their runes.
  - `life`: the world, patches and commits, and what applying a patch does.
  - `motion`, `lookahead`: the movements of each figurine, the careful and
    reckless lookaheads, critical endangerment, movement runes.
  - `preservation`: writing a world down as preservation runes and reading
    it back.
  - `mind`: what the search remembers of a line of play.
  - `bound`: how far ahead the engine looks, as chosen on the command line.
  - `uci`: what the Unlikely Command Integration dæmon makes of each line
    that a driver sends.
  - `correspondence`, `substrate`, `landmark`, `script`: the verdict of
    correspondence play, meminfo entries, regions of the lattice, strings.
  - `laws`, `lattice`, `ascension`, `fidelity`: properties that relate the
    functions above — turns alternate, the careful lookahead is the reckless
    one less the movements that endanger the mover, every premonition stays
    on the lattice, a patch moves its figurine and removes whom it stuns,
    and reading back the preservation runes of a world gives the world.
- `tests/` — tests of the library on concrete worlds.
- `app/` — the command line, the search, terminal display, logging and the
  dæmon's input and output.
