# cpu_game

The logic of a small networked raycasting game and of its frame presenter,
written in Verus. The functions of `src/` carry contracts that Verus
proves, except a few small trusted wrappers around calls into `std`,
`image` and `rand`, whose contracts state what those libraries document.

The game's floating-point parts are not here: the physics simulation, the
raycaster and the GPU renderer. The library holds the integer decisions
they rest on (levels, path search, which mesh faces to build, atlases,
animation frames, text overlays, colors), and `app/` the few float helpers
that turn those decisions into geometry and viewports. The server loop in
`app/` runs the network protocol and acknowledges inputs, but does not
advance a game world.

- `src/` — the verified library: frame messages (`frame`, `presentation`,
  `fir`), networking (`ack`, `reliable`, `endpoint`, `framing`, `runtime`,
  `server`), the world (`model`, `path`, `mesh`), drawing (`rgba`, `font`,
  `text_layer`, `atlas`, `animation`, `color`, `texture`, `gpu_select`) and
  launch options (`launch`).
- `tests/` — tests run against the compiled library.
- `app/` — the command-line program: argument handling, asset files, the
  UDP and TCP transport loops, the presenter's WebSocket frame bridge, and
  the floating-point rendering helpers.
