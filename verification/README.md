# magic_eye

Magic Eye Games: Tetris and two-player Pong drawn as a live single-image
random-dot stereogram (SIRDS). Every frame the game's depth sprites are
rasterized into a depth buffer, and the stereogram algorithm of Thimbleby,
Inglis and Witten (1994) turns that buffer into the picture on screen.

Layout:

- `src/` — the library, written in Verus with its contracts and proofs:
  - `stereogram.rs`: linking of the columns both eyes must see in one colour,
    painting of the rows from a ten-colour palette, and `generate`, whose
    contract states that every eye pair of every row shows one colour;
  - `depth_buffer.rs`: the painter's-algorithm rasterizer (the last sprite
    covering a pixel is the one seen there);
  - `app_state.rs`: the screens and the menu, settings and escape-key
    decisions between them;
  - `tetris.rs`: the board grid and the test piece.
- `app/` — the Bevy game around the library: plugins, systems, UI, the
  floating-point depth analysis and the Pong physics.
- `tests/` — tests of the library on concrete values.
