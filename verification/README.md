# zepm

Middleware between Zed's edit prediction and a llama.cpp infill server,
with its text logic written in Verus and proved.

- `src/` — the verified library:
  - `search.rs`: byte-level first/last occurrence search with exact specifications;
  - `text.rs`: strings as UTF-8 bytes (character boundaries, substrings, appending);
  - `markers.rs`: the cursor and editable-region markers and their byte facts;
  - `context.rs`: splitting an excerpt at the cursor inside the editable region;
  - `completion.rs`: static completions, removing cursor markers from a model
    answer, and writing a completion in place of the cursor marker;
  - `request.rs`: request/response types, query switches and the decision of
    what to answer;
  - `config.rs`: reading settings (on/off switches, decimal numbers, the infill URL).
- `app/` — the HTTP server (actix-web; `/predict_edits/v2`, `/health`,
  `/test-completion`, `/diagnostics`), the call to the llama.cpp server
  (reqwest), JSON bodies (serde), logging and the environment.
- `tests/` — tests of the library.
