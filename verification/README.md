# Strata

A live-wallpaper engine: GLSL shaders, photos with depth and movies as the background
of the desktop, on every monitor.

- `src/` is the library. It holds what the engine decides and computes: the
  preprocessing of shaders and the lines of their errors, the import of Shadertoy
  exports and wallpaper packs, manifests, the plan of passes, buffers and frames, the
  compositor, the windows of the desktop, movies, the library and its updates, the
  settings, and the masks of Parallax Studio. Every item is verified with Verus;
  contracts are stated over the texts, sequences and integers that values stand for.
- `app/` is the program around it: windows, the graphics device, files, the network,
  sound, and what is computed in floating point.
- `tests/` holds the tests of the library.

Floating-point values pass through the library as their bits (`manifest::Bits32`), and
places in the file system as the components of their paths (`paths::Location`).

Each module states its laws as public proof functions whose names begin with `law_`.
What is taken from other crates is declared in `archive`, `document` and `text`, with
what is assumed of it.
