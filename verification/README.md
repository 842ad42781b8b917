# rust_rag

A local retrieval-augmented generation (RAG) system over JSON files, with its
core written in Verus.

- `src/` is the verified library:
  - `documents` reads a JSON file into documents: one per array item or one
    for an object, each holding its value pretty-printed by serde_json and the
    value itself; it also holds the statistics and look-ups of the debug
    commands;
  - `embeddings` decides how a text's embedding is obtained: the local
    bag-of-words plan (which dimensions each word and each character trigram
    feeds), or a request to the Ollama embeddings API;
  - `ranking` selects the top `k` documents by score, stable on ties;
  - `retrieval` and `llm` build the prompt from the best documents and read
    the chat API's reply;
  - `chat` decides what a line typed in the chat session asks for;
  - `text` holds the text helpers (white space, words, lines, previews,
    decimal numbers) with their specifications.
- `app/` is the command-line program: file, terminal and HTTP I/O (the chat
  and embeddings requests to Ollama), the floating-point parts (embedding
  values, cosine similarity), and the storage of the index as JSON.
- `tests/` runs the library on concrete inputs.
