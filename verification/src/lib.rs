//! A small embedded key-value and row store with a write-ahead log.
//!
//! Every mutation runs under a transaction: a monotonically increasing id
//! is allocated, a BEGIN record enters the log, the data lands in an
//! ordered store under a physical key that carries the id, and a COMMIT
//! record seals it. Reads allocate an id of their own and walk versions
//! newest-first, taking the newest committed version older than the
//! reader. On top of the same substrate sits a row layer: tables with
//! auto-incrementing primary ids and append-only secondary indexes, all
//! encoded as versioned entries. Startup replays the log into the
//! commit-status table, so a version is visible after a restart exactly
//! when its transaction's trail ends with COMMIT.
//!
//! Transaction ids are fixed-width zero-padded decimals, so their
//! lexicographic order is their numeric order; the monotonicity and
//! newest-wins guarantees are proved for ids of that shape. A log written
//! under a different id scheme — unpadded decimals, or ids outside the
//! digit alphabet — can hold ids that sort above every fresh one, and the
//! guarantees do not extend to those.
//!
//! The modules: `strutil` and `numstr` give the lexicographic order and
//! the decimal forms everything rests on; `keys` is the physical key
//! codec; `smap` and `store` are the verified map and ordered store;
//! `wal` is the record format and its replay; `engine` owns the service
//! state and the transaction lifecycle; `kv` and `rows` are the verbs;
//! `laws` states and proves the engine's guarantees.

pub mod engine;
pub mod keys;
pub mod kv;
pub mod laws;
pub mod numstr;
pub mod rows;
pub mod smap;
pub mod store;
pub mod strutil;
pub mod wal;

use vstd::prelude::*;

verus! {

/// The banner the service's root route answers with.
pub fn index() -> (r: &'static str)
    ensures
        r@ == ("Eza DB!")@,
{
    "Eza DB!"
}

} // verus!
