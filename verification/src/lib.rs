//! Input handling for a terminal file manager.
//!
//! Raw key events are turned into commands: single keys, multi-key chords,
//! numeric repeat counts and bindings that depend on the type of the
//! selected entry. Every function is verified against its contract, but for
//! one in [`text`] that appends a character to a string: it calls
//! `String::push`, whose effect is taken on trust.
//!
//! - [`event`]: key events, and the events of the application that pass by
//!   a key interaction;
//! - [`command`]: the commands that keys are bound to;
//! - [`keybind`] and [`keymap`]: the trie of key bindings, and how a binding
//!   is added without ambiguity;
//! - [`builder`]: key mappings from declared bindings, with a diagnostic for
//!   each declaration that is skipped;
//! - [`numbered`]: counts typed before a key;
//! - [`resolve`]: chords, and whole key interactions from idle to a command;
//! - [`outcome`]: how interactions go on and end;
//! - [`menu`]: the menu of the keys that can be typed next;
//! - [`text`]: building and ordering the texts that the menu shows.

pub mod builder;
pub mod command;
pub mod event;
pub mod keybind;
pub mod keymap;
pub mod menu;
pub mod numbered;
pub mod outcome;
pub mod resolve;
pub mod text;
