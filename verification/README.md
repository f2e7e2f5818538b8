# efflux

The back end of a family memory book: moments with text, photos, video and
music, a gallery tagged by a CLIP model, a footprint map, share links, an
access code, rate limits and incremental backups.

- `src/` is the library, verified with Verus: configuration, the access
  code and session tokens, rate limiting, the rules for moments, media,
  the gallery and the map, the label set of the tagger, and the backup
  chain (what comes next, what is packed, what is safe to unpack, how a
  restore is counted).
- `app/` is the service around it: HTTP (axum), PostgreSQL (sqlx), files,
  zip archives, the model (ort, tokenizers, image) and the background
  workers. It hands the library plain values and acts on what comes back.
- `tests/` runs the library on concrete values.
