# sweeper

Builds swept surfaces from object files that describe cross sections.

* `src/` — the verified library (Verus):
  * `strings` — whitespace, trimming, splitting, lines and `i32` parsing,
    each proved against a spec function of the std behaviour it matches;
  * `parse_dat` — the `.dat` object format: comment stripping, number
    fields, and the layout of header and sections, with the first error in
    reading order;
  * `section` — spline kinds by name, which sections are swept together,
    the counts of the output header, the windows of closed sections and the
    regrouping of sampled curves.
* `app/` — the program: files, the window, and everything in floating
  point (spline sampling with `nalgebra`).
* `tests/` — tests of the library, several against std itself.
