# aurascan

The decision-making core of a face tracking and head pose pipeline, written
in Verus. Every function in `src/` carries a contract that Verus proves, but
for two small trusted wrappers whose contracts are taken on trust: one calls
`String::push`, the other `chrono::DateTime::<Utc>::from_timestamp`.

## Layout

- `src/` — the verified library.
  - `bytetrack` — the BYTE multi-object tracker's bookkeeping: track life
    cycle, identities, the set operations between track lists, reading an
    assignment, and one tracker step over caller-supplied numerics.
  - `tracking` — finding the detection a tracker index designates among a
    frame's metadata, and numbering tracks named by UUID.
  - `scrfd` — anchors, feature maps and non-maximum suppression of the SCRFD
    face detector.
  - `faceselector`, `detectioncrop` — keeping to one face or one track.
  - `crop`, `frame` — crop rectangles and packing video rows.
  - `resolution`, `cameras`, `viewfinder`, `control` — the decisions of the
    camera and window user interface.
  - `steam`, `text` — Steam's manifests, library folders and Proton's
    `config_info`; decimal numbers and paths.
  - `pnp` — the camera model handed to the pose solver.
- `tests/` — tests of the library on concrete values.
- `app/` — what stays outside verification: file I/O with serde, and the
  floating-point side of tracking, detection decoding, scoring, smoothing
  and filtering. It holds no GTK, GStreamer or wgpu glue, so nothing in it
  calls the window, viewfinder, resolution, camera, track-numbering,
  frame-packing or pose-solver parts of the library; those parts are
  exercised by the tests only.
