# vigrep

`vigrep` is a local semantic grep: it cuts the text files of a directory into
chunks, stores their embeddings (from a llama.cpp or Ollama server) in a SQLite
database `.vigrep.x`, and answers queries by embedding similarity, optionally
reordered by a reranking model.

## Layout

- `src/` is the library, written in Verus and verified:
  - `strings` — character-level text primitives (lines, words, trimming,
    joining, ordering, decimal numbers) with their specifications;
  - `text` — chunking file contents by lines and a character budget, previews,
    content hashes;
  - `config` — the config file's model and defaults, and resolving it with the
    command line into runtime settings;
  - `index` — chunk keys, skipped files, planning a reindex, halving chunks the
    backend finds too large, and the queue of pieces of a chunk;
  - `search` — how many hits are shown, reranking candidates and order, and
    snippets;
  - `backend` — endpoints, models and tokens of the backends, reranking
    prompts;
  - `endpoint` — the decisions of the interactive endpoint setup;
  - `cli`, `db`, `stats` — command-line options, database records, byte units.
- `app/` is the `vigrep` program: argument parsing, file, database and network
  I/O, the floating-point work on embeddings and scores, and printing.
- `tests/` exercises the library on concrete inputs.
