# soyel

The verified core of Soyel, a desktop material previewer: it browses Poly Haven
texture materials, applies them to surfaces of a scene, and streams a
path-traced preview rendered with Lupin.

- `src/` is the library, written in Verus and proved against its contracts:
  - `text`: character-level string helpers (search, order, decimal numbers).
  - `order`: stable sorting by composite keys, with the uniqueness of the
    stable order.
  - `materials`: texture map roles and ranks, the file tree of a material,
    choosing an offered resolution, download selection, file names.
  - `catalog`: Poly Haven assets, search, category labels and listings.
  - `session`: the selected surface and the materials applied to surfaces,
    and the traits that drive a material's preview.
  - `stream`: preview settings, latest-job-wins bookkeeping, the frame
    schedule, GPU read-back layout and the binary frame packet.
  - `scene`: the structure of a scene snapshot and the plan that turns it
    into draws and material slots.
- `tests/` exercises the library.
- `app/` is the Tauri shell: commands, HTTP requests, the Lupin/WGPU renderer
  and its floating-point geometry, and the serde forms of the records.
