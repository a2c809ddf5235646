pub mod action_dispatch;
pub mod anchor;
pub mod app;
pub mod app_windows;
pub mod block_chunks;
pub mod block_map;
pub mod block_snapshot;
pub mod block_transforms;
pub mod condition;
pub mod content_mask;
pub mod context_predicate;
pub mod copilot;
pub mod display_map;
pub mod div;
pub mod editor_test;
pub mod effects;
pub mod empty;
pub mod event_phases;
pub mod face_pile;
pub mod file_url;
pub mod focus;
pub mod frame_states;
pub mod hover_popover;
pub mod key_matchers;
pub mod keymap;
pub mod keystroke;
pub mod keystroke_list;
pub mod keystroke_order;
pub mod link_go_to_definition;
pub mod lsp;
pub mod lsp_position;
pub mod native_event;
pub mod participant;
pub mod peer;
pub mod point;
pub mod presenter;
pub mod project_search;
pub mod project_settings;
pub mod proto;
pub mod ref_counts;
pub mod repository;
pub mod request;
pub mod search;
pub mod seed;
pub mod shown_rows;
pub mod shown_text;
pub mod stacking_order;
pub mod subscriptions;
pub mod text;
pub mod text_layout_cache;
pub mod text_map;
pub mod wasm_host;
pub mod window_handle;
pub mod window_input;
pub mod wrap_rows;
