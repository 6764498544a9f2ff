# lidar_guard

A verified library for two vehicles that share lidar scans: the sender hashes
its scan (point text followed by pose text) with BLAKE2b and sends scan, pose
and the hash's hex text; the receiver joins the stream's lines, splits the
message at `|`, checks the hash, and compares the remote scan with its own on a
voxel grid to report dense voxels that the other scan does not explain.

- `src/digest.rs` — BLAKE2b and hex through the `blake2` and `hex` crates; the
  integrity check.
- `src/text.rs` — splitting at a separator, stream lines, message fields.
- `src/points.rs` — the point-text tokenizer and point buffer layouts.
- `src/voxel.rs` — voxel maps, the proximity window, the anomaly comparison.
- `src/ground.rs` — ground filtering, best-fit selection, random sampling.
- `app/` — sockets, files, the enclave entry points and all `f32` geometry.
