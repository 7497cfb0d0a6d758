//! Which backing engine the command-line arguments select.

use vstd::prelude::*;

verus! {

/// The command-line configuration: an optional Postgres connection
/// string, and whether the default local file-backed store may be used.
#[derive(Debug)]
pub struct Args {
    pub pg: Option<String>,
    pub sqlite: bool,
}

/// The backing engine chosen from the arguments.
#[derive(Debug)]
pub enum Backend {
    Postgres(String),
    Sqlite,
}

/// Which engine the arguments select: a nonempty Postgres connection
/// string wins; anything else falls back to the local file-backed store.
pub fn choose_backend(args: Args) -> (b: Backend)
    ensures
        match args.pg {
            Some(s) => if s@.len() > 0 {
                b == Backend::Postgres(s)
            } else {
                b == Backend::Sqlite
            },
            None => b == Backend::Sqlite,
        },
{
    match args.pg {
        Some(pg_string) => {
            if pg_string.as_str().is_empty() {
                Backend::Sqlite
            } else {
                Backend::Postgres(pg_string)
            }
        },
        None => Backend::Sqlite,
    }
}

} // verus!
