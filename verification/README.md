# ai_isochrone

Isochrone routing for sailing boats: multi-criteria wavefront routing over wind,
current and sea-state grids, boat polars with sail selection, arrival envelopes,
and PNG snapshots of routes and polar diagrams.

## Layout

- `src/` — the verified library (Verus). It holds the parts of the router that
  compute on integers and tables, each with a contract and proved:
  - `route` — route reconstruction through parent links (`backtrack_route`) and
    route thinning (`simplify_route`);
  - `grid` — the sea cells of a routing grid;
  - `sails` — sail colours and names, retention bands and the hysteretic
    sail-switching rules of the default wardrobe;
  - `ensemble` — ensemble member labels;
  - `grib` — the GRIB-file provider;
  - `font` — the two 5x7 bitmap fonts and glyph/text pixels;
  - `raster`, `line`, `scan` — triangle, rectangle and dot filling, Bresenham
    lines with square brushes, and the row-major scanning lemmas they share.
- `app/` — the program around it: everything that computes with floating point
  (geometry, polars, GRIB interpolation, the isochrone and SOTA routers, envelopes,
  cost function, ensembles), the land mask, the command-line front end and the
  snapshot tools, which draw through the library's rasterisers.
- `tests/` — tests of the library.
