# simittag

Circular fiducial tags: the tag format and the decisions of a detector, verified
with Verus, and a program around them.

A tag shows a bullseye, a ring of sync cells, rings of data cells and a dark outer
ring. The data cells carry a Reed-Solomon codeword of a payload and its checksum.
Five variants share the layout:

| Variant   | Alias | Grid | Payload | Corrects              |
|-----------|-------|------|---------|-----------------------|
| sim48c12  | s4k   | 3x16 | 12 bits | 2 errors / 3 erasures |
| sim48c8   | s256  | 3x16 | 1 byte  | 1 error               |
| sim48c16  | s64k  | 3x16 | 16 bits | 1 error / 2 erasures  |
| sim96c32  | s16m  | 4x24 | 4 bytes | 2 errors / 3 erasures |
| sim180c88 | sdata | 5x36 | 11 bytes | 3 errors / 5 erasures |

## Layout

`src/` is the library. Its contracts are stated over mathematical models and
proved; `*_laws.rs` hold what follows for callers.

- `field`, `poly`, `linear`, `rs`, `rs_laws`, `gf16`, `gf256`: the fields of 16 and
  256 elements, Reed-Solomon codes over them, checksums. What is within the budget of
  a code is corrected, and whatever decodes is a codeword.
- `digits`, `marker`, `registry`, `codec`, `codec_laws`, `capacity_laws`, `sync_laws`:
  the variants and their names, payloads as grids of cells and back. A payload comes
  back from its grid under every rotation.
- `payload`, `payload_laws`: numbers, bytes, places, and numbers in namespaces.
- `image`, `frame`, `filter_laws`, `picture`: filters in integer arithmetic, camera
  frames, PNG files.
- `border`, `contours`, `contour_laws`, `select`: contours with their nesting, and the
  ones that may be tags.
- `edges`, `regions`, `tracing`, `contour_regions`: what contours have to do with the
  regions of an image. There are as many outer contours as regions of the foreground,
  as many contours of holes as holes, and they pass exactly the pixels with edges.
- `detector`: the gates, the order of attempts, the ladder of retries against labels,
  occlusion, defocus, motion and shadows.
- `json`, `header`, `text`: values in JSON texts, frame headers, labels.
- `vectors`, `grid_vectors`, `mode_vectors`, `stage_vectors`, `frame_vectors`, `expect`,
  `pairing`, `scenario`: test vectors in JSON, and random round trips.

The library does without floating point. Where a computation needs it, the caller
hands in its result: weights of kernels, means, maps, confidences and radii as keys
that order them.

`picture` and `json` call the crates `png` and `serde_json`; each of these calls is
a function of its own whose doc comment says what is believed of it.

`app/` holds the rest: `main.rs` is the command line program, `wasm.rs` the root of
bindings for JavaScript, `ros_node.rs` the root of a node for ROS 2. They share the
modules that sample images and compute poses.

`tests/` runs the library on concrete values.
