//! agent-rules: deterministic, idempotent application of configuration
//! blocks to their target files.
//!
//! A block file carries a small frontmatter (`frontmatter`) naming its
//! target and format; `block` routes it, `markdown` replaces or inserts a
//! marker-delimited block in a markdown file and `json` removes/ensures
//! entries of a JSON array. `pathresolve` expands the target path, `cli`
//! reads the command line and `upgrade` decides self-updates. Reading and
//! writing files, the environment and the network are left to the caller;
//! every function here is a function of its arguments.
pub mod text;
pub mod table;
pub mod outcome;
pub mod files;
pub mod frontmatter;
pub mod pathresolve;
pub mod markdown;
pub mod markdown_laws;
pub mod json;
pub mod json_laws;
pub mod jsontext;
pub mod block;
pub mod cli;
pub mod upgrade;

pub use outcome::Res;
