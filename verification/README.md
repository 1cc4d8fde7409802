# e-reader

The core of a desktop e-book reader for TXT, Markdown, EPUB and FictionBook 2,
written in Verus: the functions in `src/` carry contracts that Verus proves,
except the few small wrappers around outside crates, whose contracts are trusted.

- `src/` — the verified library
  - `models`, `formats`: book formats, parsed books, metadata, dispatch by format
  - `txt`, `markdown`, `epub`, `fb2`: each format turned into reader HTML and a
    table of contents
  - `html_util`, `text`, `paths`, `pattern`, `encoding`: HTML, text, path,
    regular-expression and base64 helpers
  - `download`: importing a pasted link (which links are fetched, what a response
    holds, which links of a page are tried, the saved file's name)
  - `catalog`: path keys and which catalog rows a rescan drops
  - `library`: import summaries, launch arguments, cover data URLs
- `tests/` — tests of the library on concrete values
- `app/` — the desktop side: SQLite catalog, file system, HTTP, loading EPUB and
  FictionBook files, and the serializable values for the user interface
