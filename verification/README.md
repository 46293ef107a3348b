# renderer

A tiled software rasterizer whose core is verified with Verus.

- `src/` is the verified library: framebuffers with generation-based clearing
  and depth testing, triangle coverage over integer edge functions, tile
  binning in Morton order, the visibility-buffer pass, the stores that hand
  framebuffers, textures and materials to render passes, texture residency,
  and the Wavefront OBJ reader. Colors and depths are held as the bit
  patterns of their single-precision values, so the library never computes
  on floats.
- `app/` is the program around it: the window and presentation, shaders and
  interpolation (which compute on floats), PNG decoding, the command channel
  between game and render threads, and the scene.
- `tests/` runs the library on concrete values.
