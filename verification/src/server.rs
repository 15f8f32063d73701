//! The request-dispatch step of the server: one decoded client message
//! in, one response message and the engine's new state out.
//!
//! The TCP listener, the per-connection read loop and the thread pool
//! that carries the connections live with the binaries; they feed every
//! decoded frame through `handle_request` and write the framed response
//! back.

use vstd::prelude::*;

use crate::engines::kvs::journal_snapshot_of;
use crate::engines::KvsEngine;
use crate::error::{error_text, KvsError};
use crate::model::{command_of, Behavior, BehaviorView, Msg, MsgView};
use vstd::utf8::encode_utf8;

verus! {

/// The response the server owes for one command against a map `kv`:
/// the value (or null) for a hit or miss on `get`, null for a
/// successful mutation, and the error line when a `remove` misses.
pub open spec fn response_of(kv: Map<Seq<u8>, Seq<u8>>, b: BehaviorView) -> MsgView {
    match b {
        BehaviorView::Put { key, value } => MsgView::Bulk(None),
        BehaviorView::Get { key } => if kv.contains_key(key) {
            MsgView::Bulk(Some(kv[key]))
        } else {
            MsgView::Bulk(None)
        },
        BehaviorView::Remove { key } => if kv.contains_key(key) {
            MsgView::Bulk(None)
        } else {
            MsgView::Error(encode_utf8(error_text(KvsError::KeyNotFound)))
        },
    }
}

/// The map after one command: `set` binds, a hitting `rm` erases,
/// everything else leaves it alone.
pub open spec fn kv_after(kv: Map<Seq<u8>, Seq<u8>>, b: BehaviorView) -> Map<Seq<u8>, Seq<u8>> {
    match b {
        BehaviorView::Put { key, value } => kv.insert(key, value),
        BehaviorView::Get { key } => kv,
        BehaviorView::Remove { key } => if kv.contains_key(key) {
            kv.remove(key)
        } else {
            kv
        },
    }
}

/// The journal after one command: a mutation appends its record — or,
/// when it lands on the engine's compaction threshold, the journal
/// becomes a compacted snapshot of the new map; a lookup journals
/// nothing.
pub open spec fn journal_after(
    oldj: Seq<BehaviorView>,
    newj: Seq<BehaviorView>,
    kv: Map<Seq<u8>, Seq<u8>>,
    b: BehaviorView,
) -> bool {
    match b {
        BehaviorView::Put { key, value } => newj == oldj.push(BehaviorView::Put { key, value })
            || journal_snapshot_of(newj, kv),
        BehaviorView::Remove { key } => newj == oldj.push(BehaviorView::Remove { key })
            || journal_snapshot_of(newj, kv),
        BehaviorView::Get { key } => newj == oldj,
    }
}

/// The server: an address to bind, and the engine every connection
/// dispatches to.
pub struct KvsServer<KE: KvsEngine> {
    binding_address: String,
    engine: KE,
}

impl<KE: KvsEngine> KvsServer<KE> {
    /// The map the server's engine holds.
    pub closed spec fn kv(&self) -> Map<Seq<u8>, Seq<u8>> {
        self.engine.kv()
    }

    /// The engine's well-formedness.
    pub closed spec fn inv(&self) -> bool {
        self.engine.inv()
    }

    /// The record journal the engine's log holds.
    pub closed spec fn journal(&self) -> Seq<BehaviorView> {
        self.engine.journal()
    }

    /// The address the server binds.
    pub closed spec fn addr(&self) -> Seq<char> {
        self.binding_address@
    }

    /// A server over `engine`, to be bound at `binding_address`.
    pub fn new(binding_address: String, engine: KE) -> (r: Self)
        ensures
            r.kv() == engine.kv(),
            r.inv() == engine.inv(),
            r.addr() == binding_address@,
    {
        KvsServer { binding_address, engine }
    }

    /// The address the server binds, as text.
    pub fn address(&self) -> (r: &str)
        ensures
            r@ == self.addr(),
    {
        self.binding_address.as_str()
    }

    /// Dispatch one decoded client message: run the command against the
    /// engine and frame the reply. A message that is no command fails
    /// with `InvalidArgumentNumber`, which costs the sender its
    /// connection; a `remove` miss is answered on the wire and keeps the
    /// connection open.
    pub fn handle_request(&mut self, msg: Msg) -> (r: Result<Msg, KvsError>)
        requires
            old(self).inv(),
        ensures
            final(self).inv(),
            match command_of(msg@) {
                None => (r matches Err(KvsError::InvalidArgumentNumber)) && final(self).kv()
                    == old(self).kv() && final(self).journal() == old(self).journal(),
                Some(b) => (r matches Ok(resp) && resp@ == response_of(old(self).kv(), b))
                    && final(self).kv() == kv_after(old(self).kv(), b) && journal_after(
                    old(self).journal(),
                    final(self).journal(),
                    final(self).kv(),
                    b,
                ),
            },
    {
        let behavior = match msg.try_to_behavior() {
            Ok(b) => b,
            Err(e) => {
                return Err(e);
            },
        };
        match behavior {
            Behavior::Put { key, value } => {
                match self.engine.set(key, value) {
                    Ok(()) => Ok(Msg::Bulk(None)),
                    Err(e) => {
                        proof {
                            assert(false);
                        }
                        Ok(Msg::Error(e.message()))
                    },
                }
            },
            Behavior::Get { key } => {
                match self.engine.get(key) {
                    Ok(v) => Ok(Msg::Bulk(v)),
                    Err(e) => {
                        proof {
                            assert(false);
                        }
                        Ok(Msg::Error(e.message()))
                    },
                }
            },
            Behavior::Remove { key } => {
                match self.engine.remove(key) {
                    Ok(()) => Ok(Msg::Bulk(None)),
                    Err(e) => Ok(Msg::Error(e.message())),
                }
            },
        }
    }
}

impl KvsServer<crate::engines::kvs::KvStore> {
    /// The engine's log text since its last compaction.
    pub closed spec fn store_log_text(&self) -> Seq<u8> {
        self.engine.log_text()
    }

    /// How much of the engine's log the caller has persisted.
    pub closed spec fn store_flushed_upto(&self) -> int {
        self.engine.flushed_upto()
    }

    /// Must the next flush rewrite the file, because the engine
    /// compacted its log?
    pub closed spec fn store_needs_rewrite(&self) -> bool {
        self.engine.needs_rewrite()
    }

    /// Drain the engine's pending log bytes for the caller to persist,
    /// exactly as `KvStore::flush` hands them out: the whole log after a
    /// compaction, else the bytes past the flushed prefix; afterwards
    /// the whole log counts as persisted.
    pub fn flush_store(&mut self) -> (r: crate::engines::kvs::FlushBatch)
        requires
            old(self).inv(),
        ensures
            final(self).inv(),
            final(self).kv() == old(self).kv(),
            final(self).journal() == old(self).journal(),
            final(self).addr() == old(self).addr(),
            final(self).store_log_text() == old(self).store_log_text(),
            r.rewrite == old(self).store_needs_rewrite(),
            r.rewrite ==> r.bytes@ == old(self).store_log_text(),
            !r.rewrite ==> r.bytes@ == old(self).store_log_text().skip(
                old(self).store_flushed_upto(),
            ),
            final(self).store_flushed_upto() == final(self).store_log_text().len(),
            !final(self).store_needs_rewrite(),
    {
        self.engine.flush()
    }
}

/// Decide what to do about the engine-lock file at startup: write our
/// name when no engine is recorded, go on quietly when the recorded name
/// is ours, and refuse to start otherwise.
pub fn check_engine_lock(existing: Option<String>, selected: String) -> (r: Result<
    bool,
    KvsError,
>)
    ensures
        match r {
            Ok(write_needed) => (existing is None ==> write_needed) && (match existing {
                Some(e) => !write_needed && e@ == selected@,
                None => true,
            }),
            Err(er) => match existing {
                Some(e) => e@ != selected@ && (er matches KvsError::WrongEngine {
                    expect,
                    actual,
                } && expect@ == e@ && actual@ == selected@),
                None => false,
            },
        },
{
    match existing {
        None => Ok(true),
        Some(e) => {
            if e == selected {
                Ok(false)
            } else {
                Err(KvsError::WrongEngine { expect: e, actual: selected })
            }
        },
    }
}

} // verus!
