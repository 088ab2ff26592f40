# chalkydri

The verified core of the Chalkydri vision system.

- `src/` is the library, verified with Verus: the AprilTag corner/edge detector and its
  adaptive threshold (`detector`), the union-find used for connected components
  (`union_find`), gift wrapping (`utils`), the fixed-threshold detector variant (`myalgo`),
  the dark-corner pass on 1080x720 frames (`dark_corners`), MJPEG multipart framing
  (`mjpeg`), pose-report decisions (`sink`), configuration types and the camera-list
  merge (`config`), the camera device cache (`providers`), field-layout selection
  (`error`), and the Edge TPU status and device types (`tfledge`).
- `app/` is the command-line driver: image decoding, RGB to gray conversion and
  neighbourhood quartiles (floating point), drawing, and serde copies of the
  configuration types.
- `tests/` runs the library on concrete frames and inputs.
