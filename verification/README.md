# texture_to_vert_colors

Verified building blocks for texture-aware remeshing: turning a UV-textured
mesh into a mesh with vertex colors, simplifying it by edge collapse, and
clustering its faces into charts.

`src/` is the library, every function of it specified and proved with Verus:

- `union_find`, `manifold`, `merge`: a disjoint-set forest, the collapsible
  manifold built on it (vertex data, sorted adjacency lists, merging two
  vertices), and the merge of two sorted adjacency lists.
- `qem`: the topological decisions of edge-collapse simplification (link
  condition, triangle-fan neighbours, boundary edges around each vertex).
- `clustering`, `measure_flat`: chart bookkeeping (wedges at boundary
  vertices, chains of shared edges, chart numbering and chart adjacency).
- `chart_edges`, `chart_wedges`: the per-pair shared edges and per-vertex
  wedges of the charts, held in `BTreeMap`s, and how they move when two
  charts are merged.
- `weighting`: the faces on both sides of each edge, with the error for an
  edge met by a third face.
- `pixels`, `dual_grid`, `boundary`, `corners`, `gap_fill`: the integer side
  of resampling each face into pixels (stitching faces, shape checks,
  boundary walks, corner faces, collapsible gap-filling faces).
- `boundary_loop`: the order of the vertices around a single boundary loop,
  as the disk parameterization pins them to the circle.
- `hysteresis`: edge tracking after double thresholding (weak edge
  elements next to strong ones become strong, until none is left).
- `relaxation`: the adjacency entries of edges introduced by triangulation,
  whose weights smoothing and disk parameterization drop.
- `dithering`: the table of error shares handed to ranked neighbours.
- `aabb`, `options`: integer pixel boxes and the option enums.

`tests/` exercises the library on concrete values. `app/` holds what works on
floating-point values (vector maths, float boxes, weights, settings) and the
command-line copies of the option enums.
