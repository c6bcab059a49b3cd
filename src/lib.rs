//! A streaming decoder for bencode: a forward-only tokenizer that checks the
//! grammar as it goes, and lazy list and dict readers on top of it.
pub mod model;
pub mod decoder;
pub mod lemmas;
