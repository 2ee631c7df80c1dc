# selector

A desktop selection box for Wayland: drag on empty desktop and a rubber-band
rectangle follows the pointer, across outputs.

The library in `src/` holds the logic, with contracts proved by Verus:

- `selection`: the drag state machine (press, motion past a threshold,
  release, cancel) and how a pointer event drives it.
- `geometry`: pointer positions in 1/256 pixel steps (Wayland's fixed-point
  unit), whole-pixel rectangles, clipping, and the decomposition of a
  rounded rectangle into horizontal spans.
- `render`: the software renderer that paints the outline and fill, with
  antialiased rounded corners, into an `Argb8888` buffer.
- `monitor`: each output's decisions about when to repaint, where the
  selection falls on it, and which region to ask the compositor to blur.
- `config`: colours and their hex notation, layer names, the defaults, the
  colour overlay, and where a configured path points.

`app/` is the program around it: the Wayland connection, the layer surfaces,
the configuration files and their TOML form.
