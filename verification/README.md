# meter

A terminal audio meter and oscilloscope for loopback input devices, with its
logic verified in Verus.

- Stereo peak meter with a ballistic envelope: 1 ms attack, 200 ms release
- LED-style scale, linear from -60 dBFS to +12 dBFS, 24 segments in green, yellow
  and red
- Scrolling oscilloscope for each channel, drawn from the extremes of runs of
  frames
- Optional passthrough to the default output device

```
meter [input-device-name] [--passthrough]
meter --list-devices
```

Quit with `q` or `Esc`.

## Layout

- `src/` is the verified library. `capture` and `playback` are the audio
  callbacks, `scope` collects and keeps scope points, `queue` carries data between
  threads, `level`, `plot` and `view` say what is on the screen, `setup`, `options`
  and `interface` decide what the program does next. `sample` holds amplitudes by
  their bit patterns, `codes` turns them into 16-bit codes and back, `rounding` is
  the rounding that this takes, `packing` puts values into words.
- `app/` is the program around it: devices, terminal, and the floating-point
  arithmetic that the library takes as closures.
- `tests/` runs the library with that arithmetic and with the real queues and
  layouts.

## What is trusted

The queues are `ringbuf` ring buffers and the areas on the screen come from
`ratatui`. What the proofs take from both is stated at the functions marked
`external_body` in `queue` and `view`. Two functions of the standard library get
their contracts in `plot`.
