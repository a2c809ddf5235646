# editor_core

The logic of a code editor, verified with Verus: key bindings, the blocks between the lines of a
buffer and what is shown of them, the state of the application with its windows and handlers, mouse
and key events, the protocols of language servers and of collaboration, searching, and the rules of a
few smaller parts.

- `src/` is the library. Every function states what it returns or changes. Public proof functions
  state what holds of several functions together.
- `tests/` run the library on concrete values.
- `app/` is ordinary Rust around the library: JSON, streams, the life of a language server and of the
  completion server, events of a window, paths, filling a database, and floating-point geometry.

| Modules | What they hold |
| --- | --- |
| `keystroke`, `keystroke_list`, `keystroke_order`, `context_predicate`, `keymap` | keystrokes, contexts, bindings and the matcher |
| `point`, `wrap_rows`, `block_transforms`, `block_map`, `block_snapshot`, `block_chunks`, `shown_text`, `shown_rows`, `display_map` | from wrapped rows and blocks to what is displayed |
| `anchor`, `hover_popover`, `link_go_to_definition`, `editor_test`, `lsp_position` | what the editor does at a place in the text |
| `ref_counts`, `effects`, `subscriptions`, `app_windows`, `app`, `action_dispatch`, `condition` | the application |
| `presenter`, `empty`, `native_event`, `window_input` | events of the mouse and of the platform |
| `stacking_order`, `event_phases`, `key_matchers`, `focus`, `frame_states`, `content_mask`, `window_handle`, `text_layout_cache`, `div`, `face_pile` | windows and their elements |
| `copilot`, `request`, `lsp`, `file_url`, `peer`, `proto`, `participant` | servers and other users |
| `search`, `project_search`, `project_settings`, `repository`, `wasm_host`, `seed` | projects, repositories and extensions |
| `text`, `text_map` | texts, and sets and maps of them |

Outside crates are called where the logic needs them, each behind a small function whose contract says
what is relied on: `smallvec`, `slotmap`, `regex`, `aho-corasick`, `wasmparser` and `lsp-types`.
