# rustemp

Sets the colour temperature and the gamma ramps of every output of a Wayland
compositor that offers `zwlr_gamma_control_manager_v1`.

- `src/` is the verified library.
  - `double`: binary64 numbers as bit patterns; ordering, clamping, truncation.
  - `arith`: the rounded operations that a caller computes for the library.
  - `config`, `gamma`: the settings, the steps of a channel, and the table.
  - `state`, `protocol`: globals, outputs and the events of gamma controls.
  - `upload`: the system calls that bring a table to the compositor.
  - `options`, `text`, `count`: the command line.
  - `laws`, `order`, `ramps`: what holds of the steps and the ramps as a whole.
  - `closeness`, `symmetry`, `direction`, `powers`: what holds of them up to
    rounding.
  - `rounding`, `curves`: what these laws are proved from.
- `tests/` runs the library on machine arithmetic.
- `app/` is the program: system calls, the connection, floating point.
