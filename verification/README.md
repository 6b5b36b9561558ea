# radial

Radar coverage over terrain: which cells of an elevation grid a radar sees, from
what height above ground, and how the results are stored, merged, exported as
hexagons and served as map tiles.

`src/` is the library. What it does is stated in contracts that Verus proves.
`app/` is the program around it: HTTP, files, threads, and the floating-point
arithmetic, whose results the library takes as bit patterns (`float.rs`).

| Modules | What they hold |
| --- | --- |
| `bitset`, `bytes`, `text`, `float`, `digest` | bit sets, byte order, text, float bit patterns, hashing |
| `rings`, `angle`, `los`, `sector`, `profile`, `parallel` | order of visits, ray directions, horizons, profiles, memory budget |
| `terrain`, `srtm`, `raster` | elevation tiles, their download, metric rasters |
| `storage`, `height_fusion` | file envelopes, and the merge of height files |
| `h3`, `traversal` | export to hexagonal cells |
| `api`, `jobs`, `fusion`, `manifest`, `wmts`, `answers` | radars, jobs, datasets, tiles and the answers to requests |
| `profile_run`, `fusion_run` | the course of profile and fusion requests |

Functions named `law_*` state what holds across several functions. Calls into
other crates stand behind functions marked `external_body`, each with a comment
that says what is taken on trust.
