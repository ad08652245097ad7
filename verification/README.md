# area_db

Queries over China's administrative-area codes: the areas below a code, the
areas along a code, the choices at every level of a code, and a search by
keyword or by name. The library in `src/` is written in Verus and its
behaviour is proved against the contracts stated there.

Layout:

- `src/code_path.rs` splits a code such as `441403131203` into the codes of
  its levels (`44`, `4414`, `441403`, `441403131`, `441403131203`).
- `src/area_code.rs` builds the index from area records (`AreaCode::new`) and
  answers `childs`, `find`, `detail` and `search`; `src/search_model.rs` and
  `src/search_index.rs` hold what the search computes and how.
- `src/keyword.rs` and `src/text.rs` hold the text handling: trimming, the
  endings cut off names, keyword forms.
- `src/data_source.rs` and `src/db_source.rs` turn CSV texts and database
  rows into area records; `src/store.rs` holds the in-memory stores;
  `src/disk_format.rs` the byte layout of the stored index files and the
  lookups over it; `src/by_code.rs` orders results by code.
- `src/laws.rs` and `src/index_laws.rs` state what holds across the
  operations.
- `app/` is the command-line program, the access layer that reads files and
  databases and reloads data, the mapping of the index files, the geometry index (floating point) and the C
  interface.
