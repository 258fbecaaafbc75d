# vis_municipality_votes

A viewer for the results of municipal elections in Leipzig, district by
district, on a map.

- `src/` is the verified library: reading the district table of an
  election (`harvest`), the boundaries of the districts (`geometry`), vote
  records and their totals (`votes`), writing and reading records as
  GeoJSON features (`feature`), the map page (`map_page`), and the string
  and map helpers these rest on (`text`, `assoc`).
- `app/` is the web application around it: fetching pages, reading and
  writing files, JSON and coordinates, vote shares, and the web server.
- `tests/` runs the library on concrete inputs.
