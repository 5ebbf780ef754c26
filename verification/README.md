# worms_ssh

A shared-terminal artillery arena served over SSH (and to browsers), with its game
logic verified by Verus.

- `src/` is the verified library:
  - `game.rs`: arena dimensions, the value types, player names, blast aging.
  - `terrain.rs`: the destructible grid: carving, anchoring, hanging and falling earth,
    talus slides, regrowth from the floor, world generation and spawn points.
  - `worm.rs`: a worm's integer state, the decoding of terminal key bytes, charging
    and firing, damage, death and respawn.
  - `feed.rs`: the kill feed: pairing a tick's kills into notices, their lines, and
    the four-line feed.
  - `canvas.rs`, `render.rs`, `text.rs`: the viewport resampling, sprites and gauges,
    the ANSI frame, and row-by-row incremental updates.
  - `session.rs`, `web.rs`: the decisions of an SSH session (colours, glyph prompt,
    entering and leaving) and the browser viewport.
  - `rng.rs`: the calls into `rand`'s small generator.
- `app/` is the server around it: the tick loop, floating-point movement and
  projectiles, the `russh` handler and the `axum` websocket endpoint.
- `tests/` exercises the library.
