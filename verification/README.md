# my_webgpu_app

The integer core of a cloth and paper-folding simulator, verified with Verus.

`src/` holds what the simulator decides and computes without floating point:

- `sim::shared`: mesh topology (edges, incidence lists, one-rings, the diamond
  stencils of interior edges) and the broad-phase edge-pair candidates of a
  spatial hash;
- `sim::contact`, `sim::drag`, `bvh`: the topological filters of self-contact,
  the vertex-triangle pairs that overlapping triangles of the bounding-volume
  hierarchy yield, and the hop distances of the vertices that follow a
  dragged one;
- `sim::particle_cloth_sim`: the bending stencils the particle cloth keeps
  once hinge edges are taken out;
- `sim::particle_hash`, `sim::counting`, `sim::sorted_set`, `sim::cell_table`:
  the particle hash table (cell hashing, prime table sizes, counting sort into
  buckets) and the cell table behind the triangle and edge spatial hashes;
- `sim::particle_cloth_sim_gpu`: greedy constraint colouring and the compressed
  one-ring adjacency uploaded to the GPU;
- `sim::paper_sim`, `sim::crease`, `sim::obj_loader`, `sim::tokens`: fold
  directions and hinges, the fold edges and crease chains of a triangulated
  crease pattern, and the layouts of `.cp` crease patterns and OBJ meshes;
- `sim::trace`, `platform`, `arch`, `text`: the trace channel, log gating and
  line formatting, keyboard mapping, grid set-ups and sphere subdivision.

`app/` is the runtime around it: the thread-local platform context, console
output, the float front ends (particle cells, OBJ and crease coordinates,
sphere vertices), and the floating-point solvers that call into the library
(the XPBD cloth core, particle cloth, paper hinges, crease-pattern
triangulation, continuous collision, signed distance fields, the
bounding-volume hierarchy, rigid bodies and headless runs).
The GPU renderer and browser front end (WebGPU pipelines, camera, lighting,
the wasm harnesses and their DOM and input handling) are not part of this
crate: only the integer logic they use is, such as grid triangles and
wireframe lines, key mapping, colour classes and dispatch counts.

`tests/` exercises the library on concrete inputs.
