# aoc2023

Solutions to nine puzzles, one module each, as a library whose functions
carry contracts proved with Verus, and a small program that reads an input
file and prints the answers.

- `src/text.rs`: byte-level reading of numbers, words and white space.
- `src/grid.rs`: two-dimensional grids kept in ndarray's `ArcArray2`.
- `src/calibration.rs`: first and last digits of lines, also spelled out.
- `src/cubes.rs`: games of coloured cubes drawn from a bag.
- `src/schematic.rs`: numbers read around the digits of a grid.
- `src/scratchcards.rs`: points of scratchcards.
- `src/almanac.rs`: numbers followed through chains of range maps.
- `src/races.rs`: the race sheet of times and distances.
- `src/camel_cards.rs`: hands of cards ranked by type and card by card.
- `src/network.rs`: walks through a network of nodes kept in petgraph.
- `src/oasis.rs`: histories of values and their interpolating polynomials.
- `app/`: the program, `app <day> <input file> [arguments]`.
- `tests/`: tests of the library on small inputs.

Each module states its answers as spec functions over the input bytes and
proves that the executable code computes them; public proof functions
(`law_*`) state properties of the answers as a whole.
