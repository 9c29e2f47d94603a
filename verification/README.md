# Placard

A single-purpose appliance that drives one display with a solid background colour,
centred text that wraps and shrinks to fit, and a wall clock in a corner. It is
controlled over OSC, newline-delimited JSON over TCP, and HTTP; it shows canned
messages, arbitrary text and countdowns, can flash, remembers what came in, and comes
back to the same scene after a power cut.

## Layout

- `src/` is the library: every decision the appliance makes, with its contract,
  verified by Verus.
  - `scene` colours, flashes, scenes and countdowns; `seconds` floating-point seconds
    by their bits; `double` double-precision rounding on whole numbers; `time`
    instants, spans and time zones; `text` characters and lines
  - `command` the command set and how OSC spells it; `osc` packets, messages and
    replies; `net` line framing, envelopes and the JSON reply
  - `config` the configuration and its validation
  - `layout` clamping, wrapping and the largest size that fits; `markup` escaping;
    `render` from a scene to what is put on screen
  - `history` the ring of inbound messages and its log; `status` the status report;
    `state` the state machine that ties it together
- `tests/` runs the library with the crates it calls.
- `app/` is the program around the library: sockets, files, threads, serde and the
  GStreamer pipeline. It needs the `gstreamer` crate and its system libraries.

Laws that relate several functions stand in `src/` as proof functions whose names
start with `law_`.
