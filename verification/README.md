# ambientwalrus

A daemon that adjusts the brightness of display backlights to the ambient
light.

- `src/` is the library: every decision that the daemon makes, verified with
  Verus. It performs no input or output. Numbers are IEEE 754 binary64 numbers
  held by their bits (`binary64`), with arithmetic that is proved to be rounded
  to nearest, ties to even.
- `app/` is the daemon around it: command line, configuration file, D-Bus,
  timers and the hardware. It also raises numbers to powers, whose results
  differ between machines.
- `tests/` runs the library, and holds its arithmetic against the hardware's.

What the library promises stands in the `ensures` of its functions and in its
public proof functions, most of them in modules named `laws`.
