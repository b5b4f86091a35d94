# ePlayer

A desktop player for MacCMS video sources and live TV channel lists, built as a
Verus-verified library (`src/`) with a thin application around it (`app/`).

## Layout

- `src/` — the verified library, crate `eplayer`:
  - `config`, `live`, `model`: the source configuration files, loaded and saved;
    live channel lists (M3U and TXT) parsed.
  - `cms`: MacCMS replies turned into search results, categories, library pages
    and episode lists; request queries and reply decoding.
  - `proxy`, `duration`, `ads`: the local HLS proxy's playlist logic — removing
    advertisement segments, rewriting addresses through the proxy, and the
    checks and headers of upstream requests.
  - `selection`, `history`, `window`: editing and choosing sources, play
    history matching, and the window's handling of the page's requests.
  - `order`, `text`, `bindings`: ordering of texts and ordered maps, text
    operations, and the trusted calls into `url`, `html-escape` and
    `encoding_rs`.
  Each module states its laws as public proof functions named `law_*`.
- `tests/` — tests of the library on concrete values.
- `app/` — `main`, the HTTP servers (axum), HTTP clients (reqwest), the SQLite
  store (rusqlite), file access and the window (tao, wry).
