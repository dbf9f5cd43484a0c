# minimap

The logic of a vector-tile map made from OpenStreetMap, verified with Verus: the
curve its files are ordered by, the formats it reads and writes, the geometry it
assembles, the statements its build runs, and what its servers answer. The programs
around it (files, sockets, the database, floating point) are ordinary Rust under
`app/`.

## The library, `src/`

| | |
|---|---|
| `hilbert` | the space-filling curve, and the squares and the box of an interval of it |
| `bytes` | fixed-width and variable-length integers in files |
| `zones`, `cut`, `answer` | the index of k-anonymity zones: cutting, writing, reading, looking up, answering |
| `grid` | the settings of a bake of zones, and the windows density is measured in |
| `directory`, `leaves`, `archive` | tile archives: ids, directories, the cache of leaves, finding a tile |
| `rings`, `nesting`, `wkb` | multipolygons: rings out of ways, holes into rings, and their bytes |
| `rows`, `scan`, `extract` | the ways of a block, what is kept of an extract, and the rows that are made of it |
| `tuning`, `load`, `bake`, `export` | the rules of the map, and the stages that build it |
| `config`, `names`, `download`, `command`, `query`, `info`, `progress` | where things are, what is fetched, what is asked for and what is said |
| `builds`, `serve` | the builds in a directory, and every reply of the server |
| `pipeline` | the same map in a single archive |
| `sort`, `text` | sorting, and strings |

Each function says in its contract what it returns. What holds of the library as a
whole stands beside the functions it is about, as proof functions whose names begin
with `law_`: that every position is hidden among the buildings of its zone and every
zone has one answer, that an index and a directory read back as they were written,
that the tiles of a level are numbered along the curve, that a cache changes no answer,
that rings are exactly the outline of their parts.

Degrees and areas are floating point, which is not verified: the library takes them
as bits where it only stores them, and as text where it only writes them down.

## What is trusted

A handful of calls into other crates and the standard library are believed, each with
a doc comment that says what is claimed of it: inflating and compressing with `flate2`
(`archive`, `export`), reading JSON with `serde_json` (`download`), decoding the ways of
a block with `osmpbf` (`scan`), numbering tiles with `pmtiles` (`export`), and three
functions of `String` (`archive`, `text`).

## The programs, `app/`

`minimap <command>` builds a map (`download`, `load`, `bake`, `export`, `all`, `info`,
`regions`, `sql`); `minimap serve` serves it; `minimap anon-bake` and `minimap
anon-serve` cut and serve zones; `minimap pipeline` and `minimap backend` build and
serve the map in a single archive.

`export` writes `<layer>.pmtiles`; `serve` looks for `<build>.<layer>.pmtiles`, so that
several builds can share a directory. An archive that is to be served is put under a
name of that form.
