//! The storage interface that the server dispatches to, and the
//! log-structured engine that implements it.

pub mod kvs;

use vstd::prelude::*;

use crate::error::KvsError;
use crate::model::{string_bytes, BehaviorView};

verus! {

/// The storage interface called by the server: a persistent map from
/// UTF-8 keys to UTF-8 values.
///
/// `kv` is the map an engine value holds, with keys and values as their
/// UTF-8 bytes; `inv` is the engine's internal well-formedness, which
/// constructors establish and every method keeps.
pub trait KvsEngine: Sized {
    /// The key/value map the engine holds.
    spec fn kv(&self) -> Map<Seq<u8>, Seq<u8>>;

    /// The engine's internal well-formedness.
    spec fn inv(&self) -> bool;

    /// The engine's name, as written to the engine-lock file.
    spec fn name_spec(&self) -> Seq<char>;

    /// The record journal the engine's persistent log holds: the
    /// operations a replay of the log applies, in log order.
    spec fn journal(&self) -> Seq<BehaviorView>;

    /// Bind `key` to `value`, overwriting any earlier binding.
    fn set(&mut self, key: String, value: String) -> (r: Result<(), KvsError>)
        requires
            old(self).inv(),
        ensures
            final(self).inv(),
            r is Ok,
            final(self).kv() == old(self).kv().insert(string_bytes(key), string_bytes(value)),
            final(self).journal() == old(self).journal().push(
                BehaviorView::Put { key: string_bytes(key), value: string_bytes(value) },
            ) || crate::engines::kvs::journal_snapshot_of(final(self).journal(), final(self).kv()),
    ;

    /// Look `key` up: its value if bound, `None` if not.
    fn get(&self, key: String) -> (r: Result<Option<String>, KvsError>)
        requires
            self.inv(),
        ensures
            match r {
                Ok(Some(v)) => self.kv().contains_key(string_bytes(key)) && string_bytes(v)
                    == self.kv()[string_bytes(key)],
                Ok(None) => !self.kv().contains_key(string_bytes(key)),
                Err(_) => false,
            },
    ;

    /// Erase `key`. Fails with `KeyNotFound` when it is not bound.
    fn remove(&mut self, key: String) -> (r: Result<(), KvsError>)
        requires
            old(self).inv(),
        ensures
            final(self).inv(),
            old(self).kv().contains_key(string_bytes(key)) ==> r is Ok && final(self).kv()
                == old(self).kv().remove(string_bytes(key)),
            !old(self).kv().contains_key(string_bytes(key)) ==> (r matches Err(
                KvsError::KeyNotFound,
            )) && final(self).kv() == old(self).kv(),
            final(self).journal() == old(self).journal().push(
                BehaviorView::Remove { key: string_bytes(key) },
            ) || crate::engines::kvs::journal_snapshot_of(final(self).journal(), final(self).kv()),
    ;

    /// The engine's name.
    fn engine_name(&self) -> (r: String)
        ensures
            r@ == self.name_spec(),
    ;
}

} // verus!
