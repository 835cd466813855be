# vestra

Vestra turns one video into a relative-scale world: measured windows of depth,
seams between them, closed loops, and a surface of oriented points. This crate
holds the rules of that process with their proofs, checked by Verus, and a thin
program around them.

## Layout

- `src/` is the library. Every function states what it returns and is verified.
- `app/` is the `vestra` and `vestra-lab` program: arguments, files, ffmpeg, the
  inference engine, the browser studio, and floating-point arithmetic.
- `tests/` runs the library on concrete values.

## Numbers

The library never computes with floating point. It carries numbers as their bit
patterns (`u32` for binary32, `u64` for binary64), compares and orders them
exactly (`ieee`), and divides counts with correct rounding (`ratio`). Sums,
square roots and matrices are computed by the program, which hands the results
to the library as patterns; each verified function holds for every value of
them.

## Modules

| Area | Modules |
| --- | --- |
| Numbers, order, text | `ieee`, `ratio`, `order`, `text`, `json`, `digest`, `wire` |
| Capture | `video`, `ppm`, `schedule`, `geometry`, `reconstruction` |
| Alignment | `stitch`, `icp`, `revisit`, `pose_graph`, `emission` |
| Global poses | `pose`, `trajectory`, `global_fusion`, `mvs`, `da3` |
| Surfaces | `cells`, `tsdf`, `architecture`, `semantics` |
| Bundles and commands | `scene`, `world`, `export`, `quality`, `lock`, `commands` |
| Recorded captures | `oracle`, `fixture`, `stream_output`, `comparison` |

Functions named `law_*` state what holds across several functions: that a
written capture reads back as it was, that a schedule covers every frame, that
everything published in a bundle reads back and survives every later
publication, that an unknown property changes no import, that each frame is
emitted once,
that the descent of a pose graph ends and only lowers its cost.

## Trust

Three calls leave the verified code: `core::str::from_utf8` (whether bytes are
UTF-8), `serde_json::to_vec` (the JSON spelling of a string) and
`sha2::Sha256::digest` (the digest of bytes).
