# lowe_sift

Lowe-style SIFT feature extraction, descriptor matching and object recognition,
with the discrete core of the pipeline written in Verus and proved against its
contracts.

## Layout

- `src/` — the verified library.
  - `gray.rs`: row-major single-channel images (shape, indexing, clamped reads,
    2x downsampling by index, mapping) and the conversion of decoded `image`
    crate images to 8-bit luminance.
  - `sift.rs`: configuration checks, the octave plan of the scale-space pyramid,
    and the `4 x 4 x 8` descriptor histogram layout with its trilinear cells.
  - `matching.rs`: exhaustive selection of the two nearest candidates over
    order keys of distances, for the ratio test.
  - `bbf.rs`: Best-Bin-First configuration checks, the bounded sorted list of
    nearest neighbours, the priority queue of unexplored branches, and the rule
    that picks the next branch or ends the descent.
  - `geometry.rs`: bounds checks on match pairs fed to affine estimation.
  - `recognition.rs`: model catalogue bookkeeping and train-set flattening,
    Hough vote generation and vote clustering, the inlier-set refinement step
    of pose verification, and the Euclidean remainder used for orientation bins.
- `app/` — the real-valued parts of the pipeline (blurring, gradients,
  interpolation, descriptor normalisation, least-squares affine fitting), which
  call into the library for every discrete decision.
- `tests/` — tests of the library on concrete values.

Distances are compared through `u32` order keys (the bit patterns of
non-negative `f32` values, whose integer order is their numeric order), so the
selection and ordering logic is verified over integers.

Configurations with real-valued fields are checked through `SiftConfigChecks`,
`BbfConfigChecks` and `HoughConfigChecks`: counts are passed as they are and
each real-valued field as the outcome of its range check, so the order in
which errors are reported is verified.

`GrayImage` offers no `data_mut`. The image keeps, as a type invariant, that
its buffer holds at least `width * height` pixels. Verus accepts a mutable
borrow of a field of such a type only where the call that takes the borrow is
marked `no_unwind`, and `Vec::as_mut_slice` (like the implicit deref to a
slice) is not, so a method returning `&mut [P]` is refused. Pixels are written
through `set`, or an image is rebuilt from its buffer with `new`.
