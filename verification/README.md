# Black Sea

A multiplayer sailing game for the terminal, on a map of the Stockholm archipelago, with its rules
verified by [Verus](https://github.com/verus-lang/verus).

Players share one world of tiles: water, land and coast. A server keeps the boats, hands out parts
of the map on request and relays moves and words; clients draw the page of the map that their boat
is on.

## Layout

`src/` is the library. Everything in it is verified, but for a few wrappers around calls of outside
code, whose contracts are believed:

- `map_loader::parser`: what `zip` finds in an archive, and what `shapefile` reads from three files
- `client::version`: how `semver` reads a version, and which of two it holds for the later one
- `text`, `map_loader::download`: upper case, lower case, trimming, and the ends of strings, from the
  standard library

Of most of these calls, the contracts say only that the result depends on the arguments alone;
what the library does with the result is proved.

| Module | What it holds |
| --- | --- |
| `float` | IEEE 754 arithmetic on encodings, computed with integers, and its laws |
| `coords`, `round_trip` | the bounding box, tiles and the globe, that both come back from each other, and which way they run |
| `tiles` | tiles, the grid of the map and its chunks |
| `protocol`, `transport` | the events and what a received frame means |
| `server` | one client's session as a state machine, free places for new boats, anchor points |
| `client` | the client's state, keys, events, versions and everything that is drawn |
| `map_loader` | archives, shapes, clipping, rasterizing and the cache |
| `admin` | the dashboard and the anchor editor |
| `plain` | the simpler game, on the same map or on an empty sea |
| `progress` | progress bars |
| `laws` | what holds between the server and its clients |
| `text`, `listing` | strings and the keys of maps |

`app/` is the program around it: sockets, files, the terminal, random numbers and the web.

`tests/` runs the library, the outside crates included.

## Numbers

Positions are single precision numbers and geographic coordinates double precision ones. The
library holds both by their encodings (`F32`, `F64`) and computes every operation with integers. The
contracts say which number comes out; the tests compare with the machine.
