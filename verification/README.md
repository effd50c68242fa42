# adas_core

The decision logic of a camera-based driver-assistance perception core,
written in Verus and proved against its contracts.

- `src/traffic_light.rs`: light states, the temporal majority voter (with
  its laws: a majority threshold has a unique winner, a streak of equal
  observations is confirmed, nothing changes below the threshold), the
  per-frame voting step (one observation per frame: the status of the
  highest-confidence fixture, or "no light"), and the colour-count detector.
- `src/detection.rs`: greedy suppression of overlapping detections, one
  candidate at a time, and the vehicle class names.
- `src/object_proc.rs`: track bookkeeping across frames (matching order,
  fresh ids, ghost tracks and their expiry), with its invariants.
- `src/lane_detect.rs`, `src/lane_manager.rs`: lane polylines to lines,
  lane filtering, the region-of-interest mask, departure warnings.
- `src/frame.rs`: byte-level colour and grey images.

`app/` holds what is not verified: the floating-point Kalman filter, image
pre-processing, IoU, ONNX Runtime inference and the Python bindings.
