# leo_sim

A low-Earth-orbit space situational awareness simulation: objects are
propagated in orbit, ground observatories detect them, a tracker associates
the observations into tracks, close approaches are screened and detected
objects are catalogued.

- `src/` is the verified library (Verus). It holds the integer and text
  logic of the simulation with its contracts: the track lifecycle
  (tentative, confirmed, lost), greedy nearest-neighbour association and the
  per-batch bookkeeping and scoring, ground-truth lookup, the spatial grid
  used for neighbour queries, the candidate pairs of the close-approach
  screen, benchmark statistics, object and station naming, configuration
  checks, CSV header and field handling, and TLE framing around the `sgp4`
  crate.
- `app/` is the desktop program around it: orbital propagation, sensor
  noise, distances and likelihoods (floating point), network and file I/O,
  threads and the egui interface.
- `tests/` exercises the library on concrete values.
