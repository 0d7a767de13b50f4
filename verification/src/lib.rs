//! A structured container for generated Rust code.
//!
//! Code generators that emit raw token streams face a practical problem: a
//! single type definition often requires several top-level items, the struct or
//! enum itself, helper functions, `impl` blocks. Putting all of them into one
//! stream makes it hard to keep related items together, or to route some of them
//! into a module of their own.
//!
//! A `Codespace` holds a root `Mod`; each `Mod` holds items, which are token
//! streams under sort keys, and named submodules. When code generation is
//! complete, `Codespace::into_stream` flattens everything into one stream, and
//! `Codespace::into_files` into one file for each module.
//!
//! ## Paths
//!
//! `Codespace::add_item` takes a path delimited by `"::"`. Each segment except
//! the last names a submodule, and must be a valid Rust identifier. The last is
//! an arbitrary sort key that is never emitted as a token.
//!
//! ## Ordering
//!
//! Within each `Mod`, items are emitted in the order of their sort keys, and
//! submodules in the order of their names.
//!
//! ## Contracts
//!
//! `model` says what a module is and what it renders to; the contracts of `Mod`
//! and `Codespace` are stated over it. `laws` holds what follows for modules as a
//! whole, and `output` what comes out of them, token by token. `tokens` holds all
//! that is taken on trust about token streams.
pub mod codespace;
pub mod files;
pub mod layout;
pub mod laws;
pub mod model;
pub mod module;
pub mod names;
pub mod order;
pub mod output;
pub mod render;
pub mod table;
pub mod text;
pub mod tokens;

pub use codespace::Codespace;
pub use files::FilePath;
pub use model::Visibility;
pub use module::Mod;
pub use names::{ModName, ModNameError, NameFault};
