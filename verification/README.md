# diskscope

A cushion-treemap disk usage explorer whose logic is proved with Verus.

## Layout

- `src/` is the library: every public function in it carries a contract that
  Verus checks. It never touches the disk, the screen or a clock.
  - `scan`: directory records, the state of the walk, and the flat tree it
    becomes; `scan::bulk` reads `getattrlistbulk` replies, `scan::posix` reads
    `stat` results. `scan::agree` proves that replies telling the same facts
    come to the same listing, and `scan::whole` and `scan::tally` that the tree
    says of its entries exactly what the listings do, in whatever order the
    directories were read; `scan::spare` says what the free space adds.
    `scan::counts` and `scan::stats` prove that the counters of a scan are the
    numbers of nodes of its tree, and `scan::once` that one link to an inode has
    its size and the others none.
  - `tree`: the breadth-first arena and what it promises.
  - `kinds`: extension to kind to colour. The default table is a small stand-in
    for a full `kinds.json`.
  - `summary`: totals per kind, largest files, folders by size.
  - `treemap`, `raster`, `canvas`: what is drawn, in which pixels, and when.
  - `app`, `sidebar`, `actions`, `report`, `theme`, `fmt`: the state of the
    window and everything that is shown as text.
- `app/` is the program around it: system calls, threads, floating-point
  geometry and shading, and the egui window.
- `tests/` runs the library.

## What is trusted

Parallel loops go through rayon and a few conversions through the standard
library. Each such call stands in a small function marked
`#[verifier::external_body]`, or in an `assume_specification`, with a comment
that says what is believed of it. Everything else is proved.
