# language_model_edit_prediction

Edit predictions from a language model: what an editor asks the model when its text changes, and
what it makes of the answer. The library is written in Rust and verified with Verus.

- `src/provider.rs`: the provider, what it remembers, and what a change of text or cursor leads to
- `src/models.rs`: which model to ask
- `src/request.rs`: the request that asks it
- `src/run.rs`: the attempts at one completion, as a state machine that its caller drives
- `src/sanitize.rs`, `src/removal.rs`: cleaning what the model has generated
- `src/snippets.rs`, `src/ranges.rs`: the snippets of recently edited text
- `src/window.rs`, `src/rows.rs`, `src/text.rs`: the text around the cursor, rows and characters
- `src/picker.rs`: the menu from which a user picks the model

Two functions of std are given a specification that is not proved, both in `src/text.rs`:
`char::is_whitespace` and `String::push`.

`app/` connects the library to the editor: it reads buffers, settings and the registry of models,
streams the answers and draws the menu. `tests/` runs the library on examples.
