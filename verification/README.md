# cursorpack

Cursor packs for Windows: a manifest that names art for each pointer role,
the `.cur` / `.ani` encoders and decoders, folder import of ready-made
cursor sets, and the decisions behind installing a pack into
`HKCU\Control Panel\Cursors` and getting the original cursors back.

The library in `src/` is written in Verus. Every function carries a contract
over a mathematical model of its inputs and result, and the properties the
library promises as a whole are proof functions:

- `ico::lemma_decode_encode`, `ani::lemma_decode_encode`: decoding what was
  encoded gives the images (and frames, rates, sequence) back.
- `ani::lemma_riff_size_field`: the RIFF header records the file's length.
- `ani::lemma_fit_budget` and its neighbours: the size budget of animated
  frames.
- `keyed::NameMap::insert` / `remove`: map-level laws.
- `registry::lemma_role_round_trip`, `restore::lemma_decode_sz_round_trip`:
  a value reads back what was written.
- `restore::lemma_restore_exact`: a restore leaves the cursors key exactly as
  the snapshot found it.
- `raster::lemma_premultiply_round_trip`: premultiplying and dividing back
  keeps alpha and moves colour by at most 4.
- `apply::lemma_slug_is_safe`, `import::lemma_sanitize_is_safe`: folder names
  made from pack names stay inside their parent folder.
- `apply::lemma_quit_never_leaves_a_pack_silently`.
- `import::lemma_longest_hint_wins`: a file name suggests the role of the
  longest fragment it contains.
- `import::lemma_strongest_is_used`: an import reports the most reliable
  source any of its mappings used.

Raster art is decoded with `image` inside the library (`artwork`): the
decoded pixels are named by what `image` returns, and cutting sheets into
cells, padding to a square and checking animation frames are proved over
them.

`app/` is the command-line program around it: reading and writing files,
drawing vector art with `resvg`, the registry and Windows calls, and the
JSON forms of the manifest, state and restore points.

Tests live in `tests/`.
