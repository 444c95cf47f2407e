# ray_trace_rust

A Monte Carlo path tracer. The library under `src/` holds the parts of the
renderer that decide rather than compute, each with a proved contract:

- `float_bits`: reading `f32` values from their bit patterns, with the
  comparisons, `min` and `max` of `f32` stated exactly.
- `ray_len`: the total order on ray lengths (NaN above every number, the two
  zeros equal) and its laws.
- `closest_hit`: the choice of the closest counted hit of a ray.
- `render_target`: the row-major pixel layout of the canvas and its laws, the
  blank canvas, and `Renderer::new` in `lib.rs`.
- `material`: seeds, direct light sampling and bounce choices of materials.
- `radiance`: Russian roulette and the choice of lights to sample directly.
- `accel`: ray/box entry and exit, the split of a k-d tree (which keeps every
  element) and its traversal steps.
- `kd_search`: the steps of the front-to-back search of the k-d tree, the
  laws that each step keeps the stretches of the ray in order, and the law
  that a search over leaves visited front to back (each hit of an element
  lying in the stretch of a leaf holding it) finds the same closest hit as
  trying every element, whether a leaf's hit ends it or it falls back to the
  elements without a box.
- `cube_map`, `elements`: the face of a cube map a ray looks at, the root of a
  ray/sphere hit, the acceptance of a ray/triangle hit and the grouping of
  mesh indices into triangles.
- `builder`: item-wise conversion of lists read from a scheme.

`app/` is the program around it: reading the yaml scheme, the vector
arithmetic of rays and colours in `f32`, the render threads and writing the
frames out. `tests/` exercises the library.
