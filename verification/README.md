# otf-2d-engine

The integer core of a 2D vector renderer, verified with Verus, and the
floating-point stages around it.

## Layout

- `src/` — the verified library.
  - `tables` — sRGB and alpha transfer tables for the u8 pipeline.
  - `pixels`, `pixmap` — strided pixel targets and owned pixmaps.
  - `fine`, `band` — stage 6: blending a solid paint through strips, on a
    scalar kernel and an eight-lane kernel that are proved to agree bit for
    bit on tables where every sRGB byte round-trips; bands are proved
    independent of each other.
  - `binning` — stage 4's bookkeeping: assignments of segments to tiles,
    sorted and grouped, proved deterministic and in row-major order.
  - `strips`, `decode` — stage 5's output format and the striper that builds
    it from columns of coverage, proved to record exactly the columns it is
    given.
  - `render`, `path`, `color`, `bench` — render admission and counters, path
    verbs, colour vocabulary, benchmark directory names.
- `app/` — ordinary Rust: geometry, flattening, stroking and coverage
  accumulation in floating point, the caller-supplied thread pool, the CPU
  renderer that assembles the stages, and benchmark I/O.
- `tests/` — tests of the library.
