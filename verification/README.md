# asset_pipeline

Builds the game assets for Android, iOS and the web from a resource
directory: texture atlases from Aseprite sprites, launcher and app icons from
SVG images, and Android string resources. `watch` rebuilds whenever a resource
changes; only tasks whose inputs are newer than their outputs run.

Layout:

- `src/` — the library, verified with Verus:
  - `paths` — joining paths, file names, stems, extensions, `with_extension`;
  - `naming` — sprite and animation names of an Aseprite file;
  - `atlas` — the tallest-first stable sort and the shelf packing of atlases;
  - `resolve` — resolving paths through the file system;
  - `task` — tasks, when they are stale, and the store that keeps them by input;
  - `platforms` — the tasks each platform needs;
  - `svg` — parsing SVG data with usvg;
  - `context`, `config` — the build context, the command and the saved
    configuration.
- `app/` — the program: command line, configuration file, reading Aseprite
  and SVG files, rendering SVG icons, writing files, watching the resource directory.
- `tests/` — tests of the library.
