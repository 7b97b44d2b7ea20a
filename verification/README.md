# eldoria_npc

The verified core of an NPC chat server for a fantasy MMO: players talk to
NPCs whose answers come from a language model grounded in knowledge files.

- `src/` is the library, written in Verus and verified:
  - `security` — the checks on player input (blank, over 500 bytes,
    prompt-injection phrases, unknown NPC names, manipulated histories) and
    the sanitizing of accepted messages;
  - `rag` — documents, their chunks, the grouping of chunks for retrieval
    (the NPC's own files, the world lore, other files, the NPC's secrets),
    the joining of the ranked chunks, and the prompt;
  - `embeddings` — tokenizing, stemming, and the term and document counts
    behind the TF-IDF weights;
  - `history` — chat messages and the per-NPC conversation histories;
  - `admin` — the rules of the knowledge-file upload;
  - `bank` — the arithmetic of the withdrawal demo;
  - `text` — substring search, replace, split, trim and join over the
    characters of a string;
  - `unicode` — the trusted wrappers of std's Unicode-dependent operations.
- `app/` is the program around it: the HTTP servers (actix-web), the Groq
  client (reqwest), file loading, and the floating-point TF-IDF scoring.
- `tests/` exercises the library.
