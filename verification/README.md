# Drone detection pipeline

The verified core of a real-time drone detection pipeline: capture, inference, multi-object
tracking and GPS-anchored output.

- `src/` is the library. Its functions have contracts, which Verus proves for all but the
  trusted items below; the laws of the library are the public proof functions whose names
  start with `law_`.
- `app/` is the program around it: devices, threads, sockets, the ONNX runtime, and floating
  point arithmetic.
- `tests/` runs the library with its outside crates.

Floating point numbers enter the library as bit patterns (`number::Real`). The library
compares them; sums, products and roots are computed by the program and handed in.

## Modules

| Module | What it holds |
|---|---|
| `capture` | sources, pipeline descriptions, the decisions of the capture loop |
| `queue` | the single-slot handoff of frames |
| `letterbox` | fitting a frame into the model's input |
| `detect`, `detect_laws` | from the model's output to detections, non-maximum suppression |
| `track`, `track_laws` | the tracker |
| `assign`, `rank`, `vote` | greedy pairing, ranking, the vote over classes |
| `gps` | NMEA sentences and fixes |
| `net` | telemetry, and the one client that is served |
| `cli`, `report`, `text` | command line, printed lines, text |
| `types`, `number` | shared values |

## Trusted items

What is stated of these calls is believed rather than proved: `image::RgbImage::from_raw`
and `image::imageops::resize` (in `letterbox`), `crossbeam_channel::Sender::try_send`
and `Receiver::try_recv` (in `net`), and `str::to_lowercase` (in `cli`).
