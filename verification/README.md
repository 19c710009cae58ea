# wisp

The core of the wisp editor, verified with Verus.

- `src/` is the library: the software renderer and its draw-command cache
  (`renderer`, `rencache`, with the proof in `redraw` that partial redraws
  never show), decoded images, glyph layout, the fuzzy matcher, key
  naming, and the decisions behind the terminal view, subprocess buffers,
  directory watches, the data directories and the coroutine protocol.
  Every function has a contract; the laws the library keeps are public
  proof functions (`lemma_*`).
- `app/` is the shell around it: the lua api, the winit desktop and the
  headless platform, fonts rasterized by swash, the pty, subprocess
  threads, file-system watches and unpacking of the embedded data tree.
  It performs the i/o and hands the library plain values.
- `tests/` exercises the library from outside.
