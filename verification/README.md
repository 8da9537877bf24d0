# infinite_canvas

The verified core of a GTK infinite drawing canvas with sticky-note memos.

- `src/canvas.rs` — the canvas's event protocol: for each input event
  (buttons, pointer motion, scroll, repaint) the next decision state and what
  must be done (start, extend or commit a stroke, pan, zoom, rebuild or drop
  the cached image, repaint).
- `src/stroke.rs` — which sampled points of a stroke survive
  Ramer-Douglas-Peucker simplification, driven by the caller's distance
  verdicts, and which points shape each Catmull-Rom curve segment.
- `src/wrap.rs` — word-wrapping of memo text: splitting into raw lines and
  words, and greedy line filling driven by the caller's width verdicts.
- `src/memo_color.rs` — memo colours and their cycle.
- `app/` — the GTK application: widgets, event wiring, cairo drawing and all
  floating-point geometry.
