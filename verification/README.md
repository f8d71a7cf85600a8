# mopidy-sound-visualizer

Listens to sound, takes its spectrum and hands out levels on a logarithmic scale of frequencies
as server-sent events.

- `src/` computes, and Verus proves what it computes:
  - `rounding` and `binary32`: numbers of the binary32 format, held as bit patterns. Every
    operation is the exact result rounded to the nearest magnitude.
  - `power` and `accuracy`: powers of one thousand, and how close they come.
  - `ffi_spectrum`: the bands of a linear spectrum.
  - `log_partition`: the ranges of the logarithmic scale from 20 Hz to 20 kHz.
  - `transformation`: from linear bands to levels on the logarithmic scale.
  - `service`: settings, and the decisions of the loops that run the service.
- `app/` is the program around it: the capture pipeline, the timers, the web server and logging.
  It hands numbers to the library by their bits.
- `tests/` run the library, much of it side by side with native arithmetic.
