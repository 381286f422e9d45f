# tinypt

A path tracer. The library under `src/` holds everything that does not compute with
floating-point numbers, verified with Verus; the program under `app/` does the rest.

## The library

- `bvh`: bounding volume hierarchies. Building with threads gives the tree that building without
  gives, every primitive is in one leaf, and the search finds the nearest hit, ties going to the
  lower number, where the tests that it is given answer the same however far it has come.
- `mitsuba`: scenes in a subset of the Mitsuba XML format, from the text to a plan of what the
  scene holds. Whatever a plan refers to exists.
- `obj`, `mtl`: Wavefront meshes and material libraries.
- `png`, `hdr`, `output`: image files. Decoding a PNG or an RGBE file gives back what was encoded.
- `checkpoint`: the state of a render, kept between runs. A damaged file is passed over.
- `integrator`, `material`: where a path ends, and what happens to it at each vertex.
- `noise`, `texture`, `normal_map`, `env`: tables and lookups, as far as they are integers.
- `viewer`: what a preview shows, and when.
- `text`, `decimal`, `reals`, `rng`: text, numbers in text, the order of floating-point numbers by
  their bits, and random bits.

Floating-point numbers pass through the library as bits (`u64`) or as the text that they were
written as. Where the library needs a computation with them, it takes a function or the result.

## The program

`app/main.rs` renders a scene to a file; under the name `viewer` it shows the picture while it is
rendered.
