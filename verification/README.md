# nd_renderer

A wireframe renderer for polytopes of any dimension, read from N-dimensional
OFF files. The library in `src/` holds the logic, verified with Verus:

- `text`: lines, space-separated pieces and decimal integers, byte by byte,
  with the semantics of `str::lines`, `str::split(' ')` and integer `parse`.
- `element`: collecting the vertices and edges of an element of any rank,
  merging shared vertices and edges, with proved laws (no stranded edges, no
  repeated vertices or edges, exact vertex and edge membership).
- `loader`: the OFF reader as a line-by-line state machine, facet expansion
  (renumbering each facet's edges onto its own copy of its vertices), facet
  colours, and the random choice of a polytope.
- `scene`: the scene as the logic sees it, the expansion rank settings, and
  the plain-text setup file.
- `animation`: the rotations file.
- `invariance`: laws on what reading does not depend on: comment lines, where
  a line stands in the file, and text after the point where reading stops.
- `bookkeeping`: laws on the edge list that loading and expanding keep: one
  colour per edge, and every edge joining vertices that are there.

`app/` is the program: the window and controls (sfml), file and directory
access, the toml setup, and everything in floating point (vertex positions,
matrices, colours and fading).
