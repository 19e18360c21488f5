# dynakit

Physics kernels whose behaviour is stated in contracts and proved with Verus: soft bodies, fluids,
grains, force bookkeeping, the pass that keeps fast bodies from tunnelling, wheel joints, a search
index over boxes, direction hulls, recordings of worlds, and the dense linear algebra that a
solver of joints needs.

Everything is written for a scalar type `R: Real`. A contract gives each result as a term over the
operations of that scalar, in the order in which they are carried out, so that two runs from one
state agree to the last bit whatever the scalar rounds. `Fixed`, a fixed-point number, is one such
scalar whose operations are proved against the integers. Laws that arithmetic keeps up to rounding
only, such as the common centre of mass of colliding bodies, are stated for `Fixed`, each with its
bound. What a kernel is for where nothing rounds, such as that the triangles of a factorisation
multiply to the matrix, is stated for scalars that are exact.

- `src/` holds the verified library.
  - `scalar`, `fixed`, `exact`, `math`: numbers, what exact ones keep, vectors, rotations and
    poses.
  - `dynamics`: rigid bodies with their forces, fluids, grains, soft bodies, joints, and continuous
    collision detection. The latter asks its caller for sweeps and decides what they lead to.
  - `geometry`: boxes, the index over them, hulls, and baked shapes.
  - `linalg`: vectors, matrices, views, products and the LU decomposition.
  - `pipeline`, `codec`: recordings and their byte form.
  - `spatial_hash`, `sequences`: a uniform grid, and facts about filtering.
- `tests/` runs the library on fixed-point and on floating-point numbers.
- `app/` is the library in double precision with the shapes and queries of `parry3d-f64`.
