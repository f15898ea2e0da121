# memvid_split

A split-file frame store. A store is two files:

- `.mv2d`: append-only JSONL, one frame per line. It is the source of truth.
- `.mv2x`: binary indices (byte offsets, time, full text, vectors, knowledge
  graph). It is derived from the data file and can be deleted and rebuilt.

`src/` is the library. Verus proves every function of it against its contract.

| Module | What it holds |
| --- | --- |
| `frame_jsonl` | frames |
| `tags` | the tags of a frame |
| `data_file` | lines of the data file, and the search for the last one from its end |
| `wire`, `codec` | byte layout of stored values, and `bincode` behind contracts |
| `lex` | the full-text index |
| `mv2x`, `mv2x_file` | the index and its file |
| `split_memvid` | the state of a store: put, update, delete, reconcile, rebuild, compact |
| `store_laws` | what holds of a store over several operations |
| `node` | what the Node.js binding takes and gives |

`app/` reads and writes the files, turns frames into JSON and back, compares
embeddings, and is the Node.js binding. `tests/` runs the library on files in
memory.
