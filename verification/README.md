# velos

Verified core of the VELOS traffic simulator for Ho Chi Minh City.

- `src/` — the library, verified with Verus: fixed-point arithmetic
  (`fixed_point`), agent profiles and their flag encoding (`cost`),
  origin–destination tables (`od_matrix`), staggered reroute scheduling
  (`reroute`), lane-sorted wave-front ordering and agent flags
  (`compute`), contraction-hierarchy topology and path unpacking (`cch`),
  SRTM tile decoding and terrain index buffers (`terrain`), GTFS text
  parsing (`text`, `gtfs`) and bus schedule/route assembly (`feed`).
- `app/` — unverified code around it: floating-point cost, reroute
  evaluation, demand profiles, projection, CCH weights and queries, the
  petgraph road graph, file loading and error messages.
- `tests/` — tests of the library.
