# mem_core

The flat agent-memory table of Krystallizer as a verified Verus library.

- `src/codec.rs` — big-endian integer layout and the byte-wise
  lexicographic order the storage engine keeps keys in, with proofs that
  the layout round-trips and preserves order.
- `src/memory.rs` — `MemoryKey` (key layout `[user_id 8B BE][id 8B BE]`
  behind the table header `[ns 2B][slot 1B]`), `MemoryRow`, `MemoryStats`,
  and `MemoryStore`: id recovery and allocation, user scan prefixes, key
  reconstruction from scanned suffixes, substring search, listing and
  statistics over what a scan returned.
- `src/config.rs` — the configuration model, error messages, and the
  resolution of the embedding API key from an environment value.
- `app/` — the shell that reads the KDL file and the environment, holds the
  Fjall-backed table (declared with OKM derives), and the PyO3 binding.
