# mask

Reversible masking of personal data in text, with a local model that can point out
sensitive context such as occupations.

The library under `src/` holds the decisions, each with a contract proved by Verus:

- `gliner` — which recognized mentions and extra spans are tokenized, and splicing the
  session's tokens into the text (`splice` does the byte-level replacement);
- `reject` — generic contract words that are never masked;
- `token_formatter` — the compact display of session tokens and the way back;
- `inspect` — the request sent to the model, where the evidence of its findings occurs,
  and the fingerprint that binds stored findings to a document;
- `llamacpp` — prompt shaping, the decoding state machine of a generation, model choice
  and the cleanup of what the model wrote;
- `ui` — the paths and the source fingerprint of the web interface's build;
- `vault` — the vault's configuration, the spans it tokenizes, and its restore map in a
  stable order.

`app/` is the command line and the HTTP server: files, the gaze-pii pipeline and session,
the GLiNER recognizer, llama.cpp, PDF text extraction, downloads and the interface build, all handing plain values
to the library.
