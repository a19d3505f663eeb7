# aisd24

Solutions to five algorithmic tasks (genealogy, triangles, coins, keypad,
two-dimensional pattern search) and the fast buffered input they read with,
written in Verus. The library under `src/` (every task but the triangle
search, whose decisions compare floating-point perimeters) carries contracts
that state what it computes, and Verus proves them.

## Layout

- `src/` — the verified library.
  - `a.rs`: ancestry queries on a family tree by depth-first visiting times.
  - `c.rs`: the least and greatest value of coins of a given total weight.
  - `d.rs`: splitting the alphabet over keys for the fewest key presses.
  - `f.rs`, `polyhash.rs`: counting a rectangular pattern in a table, by brute
    force and by a two-dimensional Rabin-Karp search with a rolling hash.
  - `buf.rs`, `scan.rs`: a buffered byte reader and the number and character
    scanners over it.
  - `lazy_static.rs`: the trait of values made on first use.
- `tests/` — tests of the library on concrete inputs.
- `app/` — the programs around the library: reading standard input, printing
  the answers, the process-wide reader and writer, and the triangle search,
  whose decisions compare floating-point perimeters.
