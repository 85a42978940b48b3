//! Parsing of locale strings into values that a code generator can render.
//!
//! A locale string is plain text in which `{{ name }}` stands for a variable and
//! `<name>…</name>` for a component wrapped round its content. A locale entry may also be a
//! mapping from plural forms to such strings. This crate turns both into a tree, and says
//! which keys a tree needs from its caller.

pub mod load_locales;
