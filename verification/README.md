# bezirke

Finds the administrative district (Bezirk) that contains a car's position and
answers clients over a length-prefixed protobuf protocol.

- `src/` is the verified library (Verus):
  - `bezirk.rs`: district records, parsing a geodata file's districts in file
    order, the geodata file's path;
  - `geo_to_bezirk/`: the lookup strategies. `naive_linear` scans all
    districts from the last one back; `binary_search` halves the starting
    square alternately left/right and top/bottom into `2^n` chunks and searches
    only the chunks containing the position. The floating-point geometry tests
    are passed in as closures; the library proves which tests are made and
    which district is chosen, and that the chunked search agrees with the
    linear scan inside the starting square;
  - `frame.rs`: the four-byte big-endian length header of each message;
  - `protocol.rs`: the response to a client message;
  - `tree.rs`: the tree of districts (petgraph), nearest parent to child;
  - `stattrack.rs`: the per-second request count.
- `app/` is the program around it: sockets, threads, files, environment,
  protobuf encoding, the geometry itself (geo, wkt), the R*-tree lookup
  (rstar), and the SVG drawing.
- `tests/` runs the library on concrete data, with real geometry.
