//! The log-structured storage engine: an append-only command log held as
//! text, and an in-memory index from each live key to where its value
//! lives — in memory after a recent write, or as a byte range of the log.
//!
//! The engine is the verified state machine of the store. It never
//! touches a file itself: a caller reads the log file and hands its text
//! to `init_from_file_text`, and after each mutation drains the bytes the
//! engine queued (`flush`) into the file.

use vstd::prelude::*;
use vstd::string::StrSliceExecFns;
use vstd::utf8::valid_utf8;

use crate::engines::KvsEngine;
use crate::error::KvsError;
use crate::model::{string_bytes, Behavior, BehaviorView};
use crate::record::{rec_encode, rec_parse};

verus! {

broadcast use vstd::utf8::encode_utf8_valid_utf8;

/// The position of the first line feed of `b`, if any.
pub open spec fn find_nl(b: Seq<u8>) -> Option<int>
    decreases b.len(),
{
    if b.len() == 0 {
        None
    } else if b[0] == 10 {
        Some(0)
    } else {
        match find_nl(b.drop_first()) {
            Some(i) => Some(i + 1),
            None => None,
        }
    }
}

/// `find_nl` returns the first line feed: it is there, and none comes
/// before it; `None` means there is none at all.
pub proof fn lemma_find_nl(b: Seq<u8>)
    ensures
        match find_nl(b) {
            Some(i) => 0 <= i < b.len() && b[i] == 10 && (forall|j: int|
                0 <= j < i ==> b[j] != 10),
            None => forall|j: int| 0 <= j < b.len() ==> b[j] != 10,
        },
    decreases b.len(),
{
    if b.len() > 0 && b[0] != 10 {
        lemma_find_nl(b.drop_first());
        let t = b.drop_first();
        assert(forall|j: int| 0 <= j < t.len() ==> t[j] == b[j + 1]);
        match find_nl(t) {
            Some(i) => {
                assert(b[i + 1] == 10);
                assert forall|j: int| 0 <= j < i + 1 implies b[j] != 10 by {
                    if j > 0 {
                        assert(t[j - 1] != 10);
                    }
                }
            },
            None => {
                assert forall|j: int| 0 <= j < b.len() implies b[j] != 10 by {
                    if j > 0 {
                        assert(t[j - 1] != 10);
                    }
                }
            },
        }
    }
}

/// The first line feed of a known position: it is at `i` when `b[i]` is a
/// line feed and nothing before it is.
pub proof fn lemma_find_nl_is(b: Seq<u8>, i: int)
    requires
        0 <= i < b.len(),
        b[i] == 10,
        forall|j: int| 0 <= j < i ==> b[j] != 10,
    ensures
        find_nl(b) == Some(i),
{
    lemma_find_nl(b);
    match find_nl(b) {
        Some(i0) => {
            if i0 < i {
                assert(b[i0] != 10);
            }
            if i0 > i {
                assert(b[i] != 10);
            }
        },
        None => {
            assert(b[i] != 10);
        },
    }
}

/// The records of a log text: one per line, each line one record.
/// A final line without a trailing line feed still counts, as a reader
/// of the file would take it; a malformed line spoils the whole text.
pub open spec fn parse_log(log: Seq<u8>) -> Option<Seq<BehaviorView>>
    decreases log.len(),
{
    if log.len() == 0 {
        Some(seq![])
    } else {
        match find_nl(log) {
            None => match rec_parse(log) {
                Some(r) => Some(seq![r]),
                None => None,
            },
            Some(i) => if !(0 <= i < log.len()) {
                None
            } else {
                match rec_parse(log.take(i)) {
                    None => None,
                    Some(r) => match parse_log(log.skip(i + 1)) {
                        Some(rs) => Some(seq![r] + rs),
                        None => None,
                    },
                }
            },
        }
    }
}

/// What one record does to the map: `Put` binds, `Remove` erases, `Get`
/// changes nothing.
pub open spec fn apply_rec(m: Map<Seq<u8>, Seq<u8>>, r: BehaviorView) -> Map<Seq<u8>, Seq<u8>> {
    match r {
        BehaviorView::Put { key, value } => m.insert(key, value),
        BehaviorView::Remove { key } => m.remove(key),
        BehaviorView::Get { key } => m,
    }
}

/// The map that replaying a record sequence over an empty store builds.
pub open spec fn replay(rs: Seq<BehaviorView>) -> Map<Seq<u8>, Seq<u8>>
    decreases rs.len(),
{
    if rs.len() == 0 {
        Map::empty()
    } else {
        apply_rec(replay(rs.drop_last()), rs.last())
    }
}

/// The value of the most recent `Put` of `k` that no later `Remove` of
/// `k` cancelled; `None` when `k` was never put or last removed.
pub open spec fn last_write(rs: Seq<BehaviorView>, k: Seq<u8>) -> Option<Seq<u8>>
    decreases rs.len(),
{
    if rs.len() == 0 {
        None
    } else {
        match rs.last() {
            BehaviorView::Put { key, value } => if key == k {
                Some(value)
            } else {
                last_write(rs.drop_last(), k)
            },
            BehaviorView::Remove { key } => if key == k {
                None
            } else {
                last_write(rs.drop_last(), k)
            },
            BehaviorView::Get { key } => last_write(rs.drop_last(), k),
        }
    }
}

/// Replay agrees with the last write: after replaying `rs`, a key is
/// bound exactly when a `Put` of it stands with no later `Remove`, and
/// then to that `Put`'s value.
pub proof fn lemma_replay_last_write(rs: Seq<BehaviorView>, k: Seq<u8>)
    ensures
        replay(rs).contains_key(k) == (last_write(rs, k) is Some),
        last_write(rs, k) matches Some(v) ==> replay(rs)[k] == v,
    decreases rs.len(),
{
    if rs.len() > 0 {
        lemma_replay_last_write(rs.drop_last(), k);
    }
}

/// Appending one record line to a well-ended log parses as the old
/// records plus the new one.
pub proof fn lemma_parse_log_snoc(log: Seq<u8>, line: Seq<u8>, r: BehaviorView)
    requires
        log.len() == 0 || log.last() == 10,
        parse_log(log) is Some,
        rec_parse(line) == Some(r),
        line.len() > 0,
        forall|i: int| 0 <= i < line.len() ==> line[i] != 10,
    ensures
        parse_log(log + line + seq![10u8]) == Some(parse_log(log)->0.push(r)),
    decreases log.len(),
{
    let combined = log + line + seq![10u8];
    if log.len() == 0 {
        assert(combined =~= line + seq![10u8]);
        lemma_find_nl_is(combined, line.len() as int);
        assert(combined.take(line.len() as int) =~= line);
        assert(combined.skip(line.len() as int + 1) =~= Seq::<u8>::empty());
        assert(parse_log(Seq::<u8>::empty()) == Some(Seq::<BehaviorView>::empty()));
        assert(parse_log(combined) == Some(seq![r] + Seq::<BehaviorView>::empty()));
        assert(parse_log(log)->0 =~= Seq::<BehaviorView>::empty());
        assert(seq![r] + Seq::<BehaviorView>::empty() =~= parse_log(log)->0.push(r));
    } else {
        lemma_find_nl(log);
        let i = match find_nl(log) {
            Some(i) => i,
            None => {
                assert(log[log.len() - 1] == 10);
                0
            },
        };
        assert(find_nl(log) == Some(i));
        assert(forall|j: int| 0 <= j < i ==> combined[j] == log[j]);
        assert(combined[i] == log[i]);
        lemma_find_nl_is(combined, i);
        assert(combined.take(i) =~= log.take(i));
        let r0 = match rec_parse(log.take(i)) {
            Some(r0) => r0,
            None => {
                assert(parse_log(log) is None);
                arbitrary()
            },
        };
        let tail = log.skip(i + 1);
        assert(tail.len() == 0 || tail.last() == 10);
        assert(parse_log(tail) is Some);
        assert(combined.skip(i + 1) =~= tail + line + seq![10u8]);
        lemma_parse_log_snoc(tail, line, r);
        assert(parse_log(log) == Some(seq![r0] + parse_log(tail)->0));
        assert(parse_log(combined) == Some(seq![r0] + parse_log(tail)->0.push(r)));
        assert(seq![r0] + parse_log(tail)->0.push(r) =~= (seq![r0] + parse_log(tail)->0).push(r));
    }
}

/// Where the value of a live key lives.
#[derive(Debug, Clone, PartialEq)]
pub enum StoreValue {
    /// The value itself, in memory — a recent write not yet compacted.
    Memory(Vec<u8>),
    /// A byte range of the log holding the `Set` record that bound it.
    File {
        /// Byte position of the record's first byte.
        offset: u64,
        /// Byte length of the record line, without its line feed.
        len: usize,
    },
}

/// The value a store entry denotes: the cached bytes, or the value of the
/// record its pointer addresses — `None` when the pointer is dangling or
/// addresses something other than a `Set` record.
pub open spec fn sv_val(sv: StoreValue, log: Seq<u8>) -> Option<Seq<u8>> {
    match sv {
        StoreValue::Memory(v) => Some(v@),
        StoreValue::File { offset, len } => if offset + len <= log.len() {
            match rec_parse(log.subrange(offset as int, offset as int + len as int)) {
                Some(BehaviorView::Put { key, value }) => Some(value),
                _ => None,
            }
        } else {
            None
        },
    }
}

/// A sound index entry: a UTF-8 key, and a value that is UTF-8 in memory
/// or a pointer to a `Set` record of exactly this key.
pub open spec fn entry_ok(e: (Vec<u8>, StoreValue), log: Seq<u8>) -> bool {
    &&& valid_utf8(e.0@)
    &&& match e.1 {
        StoreValue::Memory(v) => valid_utf8(v@),
        StoreValue::File { offset, len } => offset + len <= log.len() && (match rec_parse(
            log.subrange(offset as int, offset as int + len as int),
        ) {
            Some(BehaviorView::Put { key, value }) => key == e.0@,
            _ => false,
        }),
    }
}

/// Every entry of the index is sound.
pub open spec fn entries_ok(entries: Seq<(Vec<u8>, StoreValue)>, log: Seq<u8>) -> bool {
    forall|i: int| 0 <= i < entries.len() ==> entry_ok(#[trigger] entries[i], log)
}

/// No two entries share a key.
pub open spec fn keys_unique(entries: Seq<(Vec<u8>, StoreValue)>) -> bool {
    forall|i: int, j: int| 0 <= i < j < entries.len() ==> entries[i].0@ != entries[j].0@
}

/// The map an index denotes over a log.
pub open spec fn index_map(entries: Seq<(Vec<u8>, StoreValue)>, log: Seq<u8>) -> Map<
    Seq<u8>,
    Seq<u8>,
>
    decreases entries.len(),
{
    if entries.len() == 0 {
        Map::empty()
    } else {
        let e = entries.last();
        match sv_val(e.1, log) {
            Some(v) => index_map(entries.drop_last(), log).insert(e.0@, v),
            None => index_map(entries.drop_last(), log),
        }
    }
}

/// A sound entry always denotes a value, and a UTF-8 one.
pub proof fn lemma_entry_ok_val(e: (Vec<u8>, StoreValue), log: Seq<u8>)
    requires
        entry_ok(e, log),
    ensures
        sv_val(e.1, log) is Some,
        valid_utf8(sv_val(e.1, log)->0),
{
    match e.1 {
        StoreValue::Memory(v) => {},
        StoreValue::File { offset, len } => {},
    }
}

/// Appending to the log changes no entry's meaning.
pub proof fn lemma_index_map_extend(entries: Seq<(Vec<u8>, StoreValue)>, log: Seq<u8>, ext: Seq<u8>)
    requires
        entries_ok(entries, log),
    ensures
        entries_ok(entries, log + ext),
        index_map(entries, log + ext) == index_map(entries, log),
    decreases entries.len(),
{
    assert forall|i: int| 0 <= i < entries.len() implies entry_ok(
        #[trigger] entries[i],
        log + ext,
    ) && sv_val(entries[i].1, log + ext) == sv_val(entries[i].1, log) by {
        match entries[i].1 {
            StoreValue::Memory(v) => {},
            StoreValue::File { offset, len } => {
                assert((log + ext).subrange(offset as int, offset as int + len as int)
                    =~= log.subrange(offset as int, offset as int + len as int));
            },
        }
    }
    if entries.len() > 0 {
        assert forall|i: int| 0 <= i < entries.drop_last().len() implies entry_ok(
            #[trigger] entries.drop_last()[i],
            log,
        ) by {
            assert(entries.drop_last()[i] == entries[i]);
        }
        lemma_index_map_extend(entries.drop_last(), log, ext);
    }
}

/// A key is in the denoted map exactly when some entry carries it.
pub proof fn lemma_index_map_contains(entries: Seq<(Vec<u8>, StoreValue)>, log: Seq<u8>, k: Seq<u8>)
    requires
        entries_ok(entries, log),
    ensures
        index_map(entries, log).contains_key(k) <==> exists|i: int|
            0 <= i < entries.len() && (#[trigger] entries[i]).0@ == k,
    decreases entries.len(),
{
    if entries.len() > 0 {
        assert forall|i: int| 0 <= i < entries.drop_last().len() implies entry_ok(
            #[trigger] entries.drop_last()[i],
            log,
        ) by {
            assert(entries.drop_last()[i] == entries[i]);
        }
        lemma_index_map_contains(entries.drop_last(), log, k);
        lemma_entry_ok_val(entries.last(), log);
        if index_map(entries, log).contains_key(k) {
            if entries.last().0@ == k {
                assert(entries[entries.len() - 1].0@ == k);
            } else {
                let i = choose|i: int|
                    0 <= i < entries.drop_last().len() && (#[trigger] entries.drop_last()[
                        i
                    ]).0@ == k;
                assert(entries[i].0@ == k);
            }
        }
        if exists|i: int| 0 <= i < entries.len() && (#[trigger] entries[i]).0@ == k {
            let i = choose|i: int| 0 <= i < entries.len() && (#[trigger] entries[i]).0@ == k;
            if i < entries.len() - 1 {
                assert(entries.drop_last()[i].0@ == k);
            }
        }
    }
}

/// The denoted map binds each entry's key to that entry's value.
pub proof fn lemma_index_map_get(entries: Seq<(Vec<u8>, StoreValue)>, log: Seq<u8>, i: int)
    requires
        entries_ok(entries, log),
        keys_unique(entries),
        0 <= i < entries.len(),
    ensures
        index_map(entries, log).contains_key(entries[i].0@),
        index_map(entries, log)[entries[i].0@] == sv_val(entries[i].1, log)->0,
    decreases entries.len(),
{
    lemma_entry_ok_val(entries.last(), log);
    if i == entries.len() - 1 {
    } else {
        assert forall|j: int| 0 <= j < entries.drop_last().len() implies entry_ok(
            #[trigger] entries.drop_last()[j],
            log,
        ) by {
            assert(entries.drop_last()[j] == entries[j]);
        }
        lemma_index_map_get(entries.drop_last(), log, i);
        assert(entries[i].0@ != entries.last().0@);
    }
}

/// A key no entry carries is not in the denoted map.
pub proof fn lemma_index_map_absent(entries: Seq<(Vec<u8>, StoreValue)>, log: Seq<u8>, k: Seq<u8>)
    requires
        entries_ok(entries, log),
        forall|i: int| 0 <= i < entries.len() ==> (#[trigger] entries[i]).0@ != k,
    ensures
        !index_map(entries, log).contains_key(k),
{
    lemma_index_map_contains(entries, log, k);
}

/// Replacing the value of entry `i` inserts the new value at its key.
pub proof fn lemma_index_map_update(
    entries: Seq<(Vec<u8>, StoreValue)>,
    log: Seq<u8>,
    i: int,
    sv: StoreValue,
)
    requires
        entries_ok(entries, log),
        keys_unique(entries),
        0 <= i < entries.len(),
        entry_ok((entries[i].0, sv), log),
    ensures
        entries_ok(entries.update(i, (entries[i].0, sv)), log),
        keys_unique(entries.update(i, (entries[i].0, sv))),
        index_map(entries.update(i, (entries[i].0, sv)), log) == index_map(entries, log).insert(
            entries[i].0@,
            sv_val(sv, log)->0,
        ),
{
    let updated = entries.update(i, (entries[i].0, sv));
    assert forall|j: int| 0 <= j < updated.len() implies entry_ok(#[trigger] updated[j], log) by {
        if j != i {
            assert(updated[j] == entries[j]);
        }
    }
    assert(keys_unique(updated)) by {
        assert(forall|j: int| 0 <= j < updated.len() ==> (#[trigger] updated[j]).0@
            == entries[j].0@);
    }
    let lhs = index_map(updated, log);
    let rhs = index_map(entries, log).insert(entries[i].0@, sv_val(sv, log)->0);
    assert forall|k: Seq<u8>| lhs.contains_key(k) <==> rhs.contains_key(k) by {
        lemma_index_map_contains(updated, log, k);
        lemma_index_map_contains(entries, log, k);
        if k == entries[i].0@ {
            assert(updated[i].0@ == k);
        } else {
            if exists|j: int| 0 <= j < entries.len() && (#[trigger] entries[j]).0@ == k {
                let j = choose|j: int|
                    0 <= j < entries.len() && (#[trigger] entries[j]).0@ == k;
                assert(updated[j].0@ == k);
            }
            if exists|j: int| 0 <= j < updated.len() && (#[trigger] updated[j]).0@ == k {
                let j = choose|j: int| 0 <= j < updated.len() && (#[trigger] updated[j]).0@ == k;
                assert(entries[j].0@ == k);
            }
        }
    }
    assert forall|k: Seq<u8>| lhs.contains_key(k) implies lhs[k] == rhs[k] by {
        lemma_index_map_contains(updated, log, k);
        let j = choose|j: int| 0 <= j < updated.len() && (#[trigger] updated[j]).0@ == k;
        lemma_index_map_get(updated, log, j);
        if j == i {
            lemma_entry_ok_val((entries[i].0, sv), log);
        } else {
            assert(updated[j] == entries[j]);
            lemma_index_map_get(entries, log, j);
            assert(entries[j].0@ != entries[i].0@);
        }
    }
    assert(lhs =~= rhs);
}

/// Appending a fresh entry inserts its key.
pub proof fn lemma_index_map_push(
    entries: Seq<(Vec<u8>, StoreValue)>,
    log: Seq<u8>,
    key: Vec<u8>,
    sv: StoreValue,
)
    requires
        entries_ok(entries, log),
        keys_unique(entries),
        forall|i: int| 0 <= i < entries.len() ==> (#[trigger] entries[i]).0@ != key@,
        entry_ok((key, sv), log),
    ensures
        entries_ok(entries.push((key, sv)), log),
        keys_unique(entries.push((key, sv))),
        index_map(entries.push((key, sv)), log) == index_map(entries, log).insert(
            key@,
            sv_val(sv, log)->0,
        ),
{
    let pushed = entries.push((key, sv));
    assert forall|j: int| 0 <= j < pushed.len() implies entry_ok(#[trigger] pushed[j], log) by {
        if j < entries.len() {
            assert(pushed[j] == entries[j]);
        }
    }
    assert(keys_unique(pushed)) by {
        assert(forall|j: int| 0 <= j < entries.len() ==> (#[trigger] pushed[j]) == entries[j]);
    }
    lemma_entry_ok_val((key, sv), log);
    assert(pushed.drop_last() =~= entries);
    assert(pushed.last() == (key, sv));
}

/// Dropping entry `i` removes its key.
#[verifier::rlimit(50)]
pub proof fn lemma_index_map_remove(entries: Seq<(Vec<u8>, StoreValue)>, log: Seq<u8>, i: int)
    requires
        entries_ok(entries, log),
        keys_unique(entries),
        0 <= i < entries.len(),
    ensures
        entries_ok(entries.remove(i), log),
        keys_unique(entries.remove(i)),
        index_map(entries.remove(i), log) == index_map(entries, log).remove(entries[i].0@),
{
    let cut = entries.remove(i);
    assert forall|j: int| 0 <= j < cut.len() implies entry_ok(#[trigger] cut[j], log) by {
        if j < i {
            assert(cut[j] == entries[j]);
        } else {
            assert(cut[j] == entries[j + 1]);
        }
    }
    assert(keys_unique(cut)) by {
        assert(forall|j: int|
            0 <= j < cut.len() ==> (#[trigger] cut[j]) == if j < i {
                entries[j]
            } else {
                entries[j + 1]
            });
    }
    let lhs = index_map(cut, log);
    let rhs = index_map(entries, log).remove(entries[i].0@);
    assert forall|k: Seq<u8>| lhs.contains_key(k) <==> rhs.contains_key(k) by {
        lemma_index_map_contains(cut, log, k);
        lemma_index_map_contains(entries, log, k);
        if k != entries[i].0@ {
            if exists|j: int| 0 <= j < entries.len() && (#[trigger] entries[j]).0@ == k {
                let j = choose|j: int|
                    0 <= j < entries.len() && (#[trigger] entries[j]).0@ == k;
                if j < i {
                    assert(cut[j].0@ == k);
                } else {
                    assert(j > i);
                    assert(cut[j - 1] == entries[j]);
                }
            }
            if exists|j: int| 0 <= j < cut.len() && (#[trigger] cut[j]).0@ == k {
                let j = choose|j: int| 0 <= j < cut.len() && (#[trigger] cut[j]).0@ == k;
                if j < i {
                    assert(entries[j].0@ == k);
                } else {
                    assert(entries[j + 1].0@ == k);
                }
            }
        } else {
            if exists|j: int| 0 <= j < cut.len() && (#[trigger] cut[j]).0@ == k {
                let j = choose|j: int| 0 <= j < cut.len() && (#[trigger] cut[j]).0@ == k;
                if j < i {
                    assert(entries[j].0@ == entries[i].0@);
                    assert(false);
                } else {
                    assert(entries[j + 1].0@ == entries[i].0@);
                    assert(false);
                }
            }
        }
    }
    assert forall|k: Seq<u8>| lhs.contains_key(k) implies lhs[k] == rhs[k] by {
        lemma_index_map_contains(cut, log, k);
        let j = choose|j: int| 0 <= j < cut.len() && (#[trigger] cut[j]).0@ == k;
        lemma_index_map_get(cut, log, j);
        if j < i {
            assert(cut[j] == entries[j]);
            lemma_index_map_get(entries, log, j);
        } else {
            assert(cut[j] == entries[j + 1]);
            lemma_index_map_get(entries, log, j + 1);
        }
    }
    assert(lhs =~= rhs);
}

/// An index over a log binds exactly one key per entry.
pub proof fn lemma_index_map_len(entries: Seq<(Vec<u8>, StoreValue)>, log: Seq<u8>)
    requires
        entries_ok(entries, log),
        keys_unique(entries),
    ensures
        index_map(entries, log).dom().finite(),
        index_map(entries, log).dom().len() == entries.len(),
    decreases entries.len(),
{
    if entries.len() == 0 {
        assert(index_map(entries, log).dom() =~= Set::<Seq<u8>>::empty());
    } else {
        let init = entries.drop_last();
        assert forall|j: int| 0 <= j < init.len() implies entry_ok(#[trigger] init[j], log) by {
            assert(init[j] == entries[j]);
        }
        lemma_index_map_len(init, log);
        lemma_entry_ok_val(entries.last(), log);
        lemma_index_map_contains(init, log, entries.last().0@);
        assert forall|j: int| 0 <= j < init.len() implies (#[trigger] init[j]).0@
            != entries.last().0@ by {
            assert(init[j] == entries[j]);
        }
        assert(!index_map(init, log).contains_key(entries.last().0@));
        assert(index_map(entries, log).dom() =~= index_map(init, log).dom().insert(
            entries.last().0@,
        ));
    }
}

/// The first line feed of `bytes` at or after `pos`.
fn find_nl_from(bytes: &[u8], pos: usize) -> (r: Option<usize>)
    requires
        pos <= bytes@.len(),
    ensures
        match r {
            Some(i) => pos <= i < bytes@.len() && find_nl(bytes@.skip(pos as int)) == Some(
                i - pos,
            ),
            None => find_nl(bytes@.skip(pos as int)) is None,
        },
{
    let ghost tail = bytes@.skip(pos as int);
    let n = bytes.len();
    let mut j: usize = pos;
    while j < n
        invariant
            pos <= j <= n == bytes@.len(),
            tail == bytes@.skip(pos as int),
            forall|j2: int| 0 <= j2 < j - pos ==> tail[j2] != 10,
        decreases n - j,
    {
        if bytes[j] == 10 {
            proof {
                assert(tail[j - pos] == bytes@[j as int]);
                lemma_find_nl_is(tail, j - pos);
            }
            return Some(j);
        }
        proof {
            assert(tail[j - pos] == bytes@[j as int]);
        }
        j += 1;
    }
    proof {
        lemma_find_nl(tail);
        if let Some(i0) = find_nl(tail) {
            assert(tail[i0] != 10);
        }
    }
    None
}

/// Are two byte strings equal?
fn bytes_eq(a: &[u8], b: &[u8]) -> (r: bool)
    ensures
        r == (a@ == b@),
{
    if a.len() != b.len() {
        return false;
    }
    let mut i: usize = 0;
    while i < a.len()
        invariant
            0 <= i <= a@.len(),
            a@.len() == b@.len(),
            forall|j: int| 0 <= j < i ==> a@[j] == b@[j],
        decreases a@.len() - i,
    {
        if a[i] != b[i] {
            return false;
        }
        i += 1;
    }
    proof {
        assert(a@ =~= b@);
    }
    true
}

/// The position of `key` in the index, if it is there.
fn find_key(index: &Vec<(Vec<u8>, StoreValue)>, key: &[u8]) -> (r: Option<usize>)
    ensures
        match r {
            Some(i) => i < index@.len() && index@[i as int].0@ == key@,
            None => forall|j: int| 0 <= j < index@.len() ==> (#[trigger] index@[j]).0@ != key@,
        },
{
    let mut i: usize = 0;
    while i < index.len()
        invariant
            0 <= i <= index@.len(),
            forall|j: int| 0 <= j < i ==> (#[trigger] index@[j]).0@ != key@,
        decreases index@.len() - i,
    {
        if bytes_eq(index[i].0.as_slice(), key) {
            return Some(i);
        }
        i += 1;
    }
    None
}

impl StoreValue {
    /// Materialize the value this entry denotes, reading through the log
    /// for a `File` pointer.
    pub fn to_value(&self, log: &Vec<u8>) -> (r: Result<Vec<u8>, KvsError>)
        ensures
            match r {
                Ok(v) => sv_val(*self, log@) == Some(v@),
                Err(e) => sv_val(*self, log@) is None && e == KvsError::Corruption,
            },
    {
        match self {
            StoreValue::Memory(v) => Ok(vstd::slice::slice_to_vec(v.as_slice())),
            StoreValue::File { offset, len } => {
                let n = log.len();
                if *offset > n as u64 || (*len as u64) > n as u64 - *offset {
                    return Err(KvsError::Corruption);
                }
                let start = *offset as usize;
                let line = vstd::slice::slice_subrange(log.as_slice(), start, start + *len);
                match crate::record::parse_record(line) {
                    Some(Behavior::Put { key, value }) => Ok(value.as_str().as_bytes_vec()),
                    Some(_) => Err(KvsError::Corruption),
                    None => Err(KvsError::Corruption),
                }
            },
        }
    }
}

/// The log-structured store: the command log as text, and the index from
/// live keys to where their values live.
///
/// The caller owns the log file: `init_from_file_text` rebuilds the store
/// from the file's content, and `flush` hands back what has to reach the
/// file since the last call — an append, or the whole text after a
/// compaction.
pub struct KvStore {
    index: Vec<(Vec<u8>, StoreValue)>,
    log: Vec<u8>,
    flushed: usize,
    rewritten: bool,
    operation_count: u64,
    offset: u64,
}

impl View for KvStore {
    type V = Map<Seq<u8>, Seq<u8>>;

    /// The key/value map the store holds: each live key, bound to the
    /// bytes of its most recent value.
    closed spec fn view(&self) -> Map<Seq<u8>, Seq<u8>> {
        index_map(self.index@, self.log@)
    }
}

/// The operation counter's next value: one more, wrapping at the top.
pub open spec fn next_count(c: u64) -> u64 {
    if c == u64::MAX {
        0
    } else {
        (c + 1) as u64
    }
}

/// Is `j` a compacted snapshot of `kv`: one `Set` record per live
/// binding, each carrying its key's current value, and replaying to
/// exactly `kv`?
pub open spec fn journal_snapshot_of(j: Seq<BehaviorView>, kv: Map<Seq<u8>, Seq<u8>>) -> bool {
    &&& j.len() == kv.dom().len()
    &&& (forall|i: int|
        0 <= i < j.len() ==> match #[trigger] j[i] {
            BehaviorView::Put { key, value } => kv.contains_key(key) && kv[key] == value,
            _ => false,
        })
    &&& replay(j) == kv
}

/// The records compaction writes: one `Set` per index entry, in order.
pub open spec fn compact_records(entries: Seq<(Vec<u8>, StoreValue)>, log: Seq<u8>) -> Seq<
    BehaviorView,
>
    decreases entries.len(),
{
    if entries.len() == 0 {
        seq![]
    } else {
        let e = entries.last();
        compact_records(entries.drop_last(), log).push(
            BehaviorView::Put { key: e.0@, value: sv_val(e.1, log)->0 },
        )
    }
}

/// `compact_records` holds one `Set` per entry, in entry order.
proof fn lemma_compact_records_index(entries: Seq<(Vec<u8>, StoreValue)>, log: Seq<u8>)
    ensures
        compact_records(entries, log).len() == entries.len(),
        forall|i: int|
            0 <= i < entries.len() ==> #[trigger] compact_records(entries, log)[i]
                == (BehaviorView::Put {
                key: entries[i].0@,
                value: sv_val(entries[i].1, log)->0,
            }),
    decreases entries.len(),
{
    if entries.len() > 0 {
        lemma_compact_records_index(entries.drop_last(), log);
        assert(forall|i: int| 0 <= i < entries.len() - 1 ==> entries.drop_last()[i] == entries[i]);
    }
}

/// Replaying compaction's records rebuilds the index's map.
proof fn lemma_replay_compact_records(entries: Seq<(Vec<u8>, StoreValue)>, log: Seq<u8>)
    requires
        entries_ok(entries, log),
        keys_unique(entries),
    ensures
        replay(compact_records(entries, log)) == index_map(entries, log),
    decreases entries.len(),
{
    if entries.len() > 0 {
        assert forall|j: int| 0 <= j < entries.drop_last().len() implies entry_ok(
            #[trigger] entries.drop_last()[j],
            log,
        ) by {
            assert(entries.drop_last()[j] == entries[j]);
        }
        assert(keys_unique(entries.drop_last())) by {
            assert(forall|j: int|
                0 <= j < entries.drop_last().len() ==> #[trigger] entries.drop_last()[j]
                    == entries[j]);
        }
        lemma_replay_compact_records(entries.drop_last(), log);
        lemma_entry_ok_val(entries.last(), log);
        let j = compact_records(entries, log);
        assert(j.drop_last() =~= compact_records(entries.drop_last(), log));
    }
}

/// Compaction's records are a snapshot of the index's map.
proof fn lemma_compact_records_snapshot(entries: Seq<(Vec<u8>, StoreValue)>, log: Seq<u8>)
    requires
        entries_ok(entries, log),
        keys_unique(entries),
    ensures
        journal_snapshot_of(compact_records(entries, log), index_map(entries, log)),
{
    let j = compact_records(entries, log);
    let kv = index_map(entries, log);
    lemma_compact_records_index(entries, log);
    lemma_index_map_len(entries, log);
    lemma_replay_compact_records(entries, log);
    assert forall|i: int|
        0 <= i < j.len() implies match #[trigger] j[i] {
        BehaviorView::Put { key, value } => kv.contains_key(key) && kv[key] == value,
        _ => false,
    } by {
        lemma_entry_ok_val(entries[i], log);
        lemma_index_map_get(entries, log, i);
    }
}

impl KvStore {
    /// The log text since the last compaction.
    pub closed spec fn log_text(self) -> Seq<u8> {
        self.log@
    }

    /// How much of the log the caller has already written to the file.
    pub closed spec fn flushed_upto(self) -> int {
        self.flushed as int
    }

    /// Does the file have to be truncated and rewritten at the next
    /// flush, because compaction replaced the log?
    pub closed spec fn needs_rewrite(self) -> bool {
        self.rewritten
    }

    /// How many operations the store has counted since it was created.
    pub closed spec fn op_count(self) -> u64 {
        self.operation_count
    }

    /// Internal well-formedness: the offset counter equals the bytes
    /// written since the last compaction, the log is a parsable sequence
    /// of full lines, every index entry is sound with a unique key, and
    /// replaying the log yields exactly the live map.
    pub closed spec fn wf(self) -> bool {
        &&& self.offset == self.log@.len()
        &&& self.flushed <= self.log@.len()
        &&& (self.rewritten ==> self.flushed == 0)
        &&& (self.log@.len() == 0 || self.log@.last() == 10)
        &&& parse_log(self.log@) is Some
        &&& entries_ok(self.index@, self.log@)
        &&& keys_unique(self.index@)
        &&& replay(parse_log(self.log@)->0) == index_map(self.index@, self.log@)
    }

    /// An empty store over an empty log.
    pub fn new() -> (r: KvStore)
        ensures
            r.wf(),
            r@ == Map::<Seq<u8>, Seq<u8>>::empty(),
            r.log_text() == Seq::<u8>::empty(),
            r.flushed_upto() == 0,
            !r.needs_rewrite(),
    {
        let r = KvStore {
            index: Vec::new(),
            log: Vec::new(),
            flushed: 0,
            rewritten: false,
            operation_count: 0,
            offset: 0,
        };
        proof {
            assert(parse_log(r.log@) == Some(Seq::<BehaviorView>::empty()));
            assert(replay(Seq::<BehaviorView>::empty()) =~= index_map(r.index@, r.log@));
        }
        r
    }

    /// The index entry count — one per live key.
    pub fn key_count(&self) -> (r: usize)
        requires
            self.wf(),
        ensures
            r == self@.dom().len(),
    {
        proof {
            lemma_index_map_len(self.index@, self.log@);
        }
        self.index.len()
    }
}

impl KvStore {
    /// Bind `key` to `value`. The binding goes live at once; off the
    /// compaction threshold, exactly one `Set` record line is appended
    /// to the log and nothing already written changes; on the threshold
    /// (every 2048th operation) the log is instead rewritten to a
    /// compacted snapshot awaiting the next flush.
    pub fn set(&mut self, key: String, value: String) -> (r: Result<(), KvsError>)
        requires
            old(self).wf(),
        ensures
            r is Ok,
            final(self).wf(),
            final(self)@ == old(self)@.insert(string_bytes(key), string_bytes(value)),
            final(self).op_count() == next_count(old(self).op_count()),
            next_count(old(self).op_count()) % 2048 != 0 ==> {
                &&& final(self).log_text() == old(self).log_text() + rec_encode(
                    BehaviorView::Put { key: string_bytes(key), value: string_bytes(value) },
                ) + seq![10u8]
                &&& final(self).journal() == old(self).journal().push(
                    BehaviorView::Put { key: string_bytes(key), value: string_bytes(value) },
                )
                &&& final(self).flushed_upto() == old(self).flushed_upto()
                &&& final(self).needs_rewrite() == old(self).needs_rewrite()
            },
            next_count(old(self).op_count()) % 2048 == 0 ==> {
                &&& final(self).needs_rewrite()
                &&& final(self).flushed_upto() == 0
                &&& journal_snapshot_of(final(self).journal(), final(self)@)
            },
    {
        let ghost oldview = self@;
        let ghost oldidx = self.index@;
        let ghost oldlog = self.log@;
        let kb = key.as_str().as_bytes_vec();
        let vb = value.as_str().as_bytes_vec();
        let ghost kbs: Seq<u8> = kb@;
        let ghost vbs: Seq<u8> = vb@;
        let behavior = Behavior::Put { key, value };
        let sv = StoreValue::Memory(vb);
        proof {
            assert(entry_ok((kb, sv), oldlog));
        }
        match find_key(&self.index, kb.as_slice()) {
            Some(i) => {
                proof {
                    lemma_index_map_remove(oldidx, oldlog, i as int);
                }
                let ghost cut = oldidx.remove(i as int);
                self.index.remove(i);
                proof {
                    assert forall|j: int| 0 <= j < cut.len() implies (#[trigger] cut[j]).0@
                        != kbs by {
                        if j < i {
                            assert(cut[j] == oldidx[j]);
                            assert(oldidx[j].0@ != oldidx[i as int].0@);
                        } else {
                            assert(cut[j] == oldidx[j + 1]);
                            assert(oldidx[i as int].0@ != oldidx[j + 1].0@);
                        }
                    }
                    lemma_index_map_push(cut, oldlog, kb, sv);
                }
                self.index.push((kb, sv));
                proof {
                    assert(index_map(self.index@, oldlog) =~= oldview.insert(kbs, vbs));
                }
            },
            None => {
                proof {
                    lemma_index_map_push(oldidx, oldlog, kb, sv);
                }
                self.index.push((kb, sv));
                proof {
                    assert(index_map(self.index@, oldlog) =~= oldview.insert(kbs, vbs));
                }
            },
        }
        let ghost midx = self.index@;
        self.log_behavior(&behavior);
        proof {
            let bv = BehaviorView::Put { key: kbs, value: vbs };
            let ext = rec_encode(bv) + seq![10u8];
            assert(self.log@ =~= oldlog + ext);
            lemma_index_map_extend(midx, oldlog, ext);
            let oldrs = parse_log(oldlog)->0;
            assert((oldrs.push(bv)).drop_last() =~= oldrs);
            assert(replay(oldrs.push(bv)) == replay(oldrs).insert(kbs, vbs));
            assert(self.wf());
            assert(self@ == oldview.insert(kbs, vbs));
        }
        self.update_operation_count()
        }

    /// Erase `key`; `KeyNotFound` when it is not bound. Either way a
    /// `Remove` tombstone is journaled before the error returns, for
    /// log-replay determinism — off the compaction threshold as one
    /// appended record line, on it subsumed by the compacted rewrite.
    pub fn remove(&mut self, key: String) -> (r: Result<(), KvsError>)
        requires
            old(self).wf(),
        ensures
            final(self).wf(),
            old(self)@.contains_key(string_bytes(key)) ==> r is Ok && final(self)@ == old(
                self,
            )@.remove(string_bytes(key)),
            !old(self)@.contains_key(string_bytes(key)) ==> (r matches Err(KvsError::KeyNotFound))
                && final(self)@ == old(self)@,
            final(self).op_count() == next_count(old(self).op_count()),
            next_count(old(self).op_count()) % 2048 != 0 ==> {
                &&& final(self).log_text() == old(self).log_text() + rec_encode(
                    BehaviorView::Remove { key: string_bytes(key) },
                ) + seq![10u8]
                &&& final(self).journal() == old(self).journal().push(
                    BehaviorView::Remove { key: string_bytes(key) },
                )
                &&& final(self).flushed_upto() == old(self).flushed_upto()
                &&& final(self).needs_rewrite() == old(self).needs_rewrite()
            },
            next_count(old(self).op_count()) % 2048 == 0 ==> {
                &&& final(self).needs_rewrite()
                &&& final(self).flushed_upto() == 0
                &&& journal_snapshot_of(final(self).journal(), final(self)@)
            },
    {
        let ghost oldview = self@;
        let ghost oldidx = self.index@;
        let ghost oldlog = self.log@;
        let kb = key.as_str().as_bytes_vec();
        let ghost kbs: Seq<u8> = kb@;
        let behavior = Behavior::Remove { key };
        let found = match find_key(&self.index, kb.as_slice()) {
            Some(i) => {
                proof {
                    lemma_index_map_get(oldidx, oldlog, i as int);
                    lemma_index_map_remove(oldidx, oldlog, i as int);
                }
                self.index.remove(i);
                proof {
                    assert(index_map(self.index@, oldlog) == oldview.remove(kbs));
                }
                true
            },
            None => {
                proof {
                    lemma_index_map_absent(oldidx, oldlog, kbs);
                    assert(index_map(self.index@, oldlog) =~= oldview.remove(kbs));
                }
                false
            },
        };
        let ghost midx = self.index@;
        self.log_behavior(&behavior);
        proof {
            let bv = BehaviorView::Remove { key: kbs };
            let ext = rec_encode(bv) + seq![10u8];
            assert(self.log@ =~= oldlog + ext);
            lemma_index_map_extend(midx, oldlog, ext);
            let oldrs = parse_log(oldlog)->0;
            assert((oldrs.push(bv)).drop_last() =~= oldrs);
            assert(replay(oldrs.push(bv)) == replay(oldrs).remove(kbs));
            assert(self.wf());
            assert(self@ == oldview.remove(kbs));
            if !oldview.contains_key(kbs) {
                assert(oldview.remove(kbs) =~= oldview);
            }
        }
        match self.update_operation_count() {
            Ok(()) => {
                if found {
                    Ok(())
                } else {
                    Err(KvsError::KeyNotFound)
                }
            },
            Err(e) => {
                proof {
                    assert(false);
                }
                Err(e)
            },
        }
        }
}

impl crate::engines::KvsEngine for KvStore {
    /// The map the store holds.
    open spec fn kv(&self) -> Map<Seq<u8>, Seq<u8>> {
        self@
    }

    /// The store's internal well-formedness.
    open spec fn inv(&self) -> bool {
        self.wf()
    }

    /// This engine is named `kvs`.
    open spec fn name_spec(&self) -> Seq<char> {
        "kvs"@
    }

    /// The journal is what replaying the log applies.
    closed spec fn journal(&self) -> Seq<BehaviorView> {
        parse_log(self.log@)->0
    }

    fn get(&self, key: String) -> (r: Result<Option<String>, KvsError>) {
        let kb = key.as_str().as_bytes_vec();
        match find_key(&self.index, kb.as_slice()) {
            None => {
                proof {
                    lemma_index_map_absent(self.index@, self.log@, kb@);
                }
                Ok(None)
            },
            Some(i) => {
                proof {
                    lemma_index_map_get(self.index@, self.log@, i as int);
                    lemma_entry_ok_val(self.index@[i as int], self.log@);
                }
                match self.index[i].1.to_value(&self.log) {
                    Err(e) => {
                        proof {
                            assert(false);
                        }
                        Err(e)
                    },
                    Ok(vb) => {
                        match crate::model::utf8_to_string(vb.as_slice()) {
                            Some(s) => Ok(Some(s)),
                            None => {
                                proof {
                                    assert(false);
                                }
                                Err(KvsError::Corruption)
                            },
                        }
                    },
                }
            },
        }
    }

    fn set(&mut self, key: String, value: String) -> (r: Result<(), KvsError>) {
        KvStore::set(self, key, value)
    }

    fn remove(&mut self, key: String) -> (r: Result<(), KvsError>) {
        KvStore::remove(self, key)
    }

    fn engine_name(&self) -> (r: String) {
        String::from_str("kvs")
    }
}

/// What a store hands its caller to persist: the whole log after a
/// compaction (`rewrite`), or only the bytes appended since the last
/// flush.
pub struct FlushBatch {
    /// Truncate the file and write `bytes` as its new content, instead of
    /// appending.
    pub rewrite: bool,
    /// What to write.
    pub bytes: Vec<u8>,
}

/// The text that compacting an index over a log writes: one `Set` record
/// line per entry, in index order.
pub open spec fn compact_text(entries: Seq<(Vec<u8>, StoreValue)>, log: Seq<u8>) -> Seq<u8>
    decreases entries.len(),
{
    if entries.len() == 0 {
        seq![]
    } else {
        let e = entries.last();
        compact_text(entries.drop_last(), log) + rec_encode(
            BehaviorView::Put { key: e.0@, value: sv_val(e.1, log)->0 },
        ) + seq![10u8]
    }
}

/// Apply one replayed record to an index under construction: a `Set`
/// record binds its key to the record's place in the text, a `Remove`
/// erases the key, a `Get` does nothing.
fn apply_record(
    idx: &mut Vec<(Vec<u8>, StoreValue)>,
    b: &Behavior,
    offset: usize,
    linelen: usize,
    Ghost(textg): Ghost<Seq<u8>>,
)
    requires
        entries_ok(old(idx)@, textg),
        keys_unique(old(idx)@),
        offset + linelen <= textg.len(),
        rec_parse(textg.subrange(offset as int, offset as int + linelen as int)) == Some(b@),
    ensures
        entries_ok(final(idx)@, textg),
        keys_unique(final(idx)@),
        index_map(final(idx)@, textg) == apply_rec(index_map(old(idx)@, textg), b@),
{
    let ghost oldidx = idx@;
    let ghost oldmap = index_map(oldidx, textg);
    match b {
        Behavior::Put { key, value } => {
            let kb = key.as_str().as_bytes_vec();
            let ghost kbs: Seq<u8> = kb@;
            let sv = StoreValue::File { offset: offset as u64, len: linelen };
            proof {
                assert(entry_ok((kb, sv), textg));
            }
            match find_key(idx, kb.as_slice()) {
                Some(i) => {
                    proof {
                        lemma_index_map_remove(oldidx, textg, i as int);
                    }
                    let ghost cut = oldidx.remove(i as int);
                    idx.remove(i);
                    proof {
                        assert forall|j: int| 0 <= j < cut.len() implies (#[trigger] cut[j]).0@
                            != kbs by {
                            if j < i {
                                assert(cut[j] == oldidx[j]);
                                assert(oldidx[j].0@ != oldidx[i as int].0@);
                            } else {
                                assert(cut[j] == oldidx[j + 1]);
                                assert(oldidx[i as int].0@ != oldidx[j + 1].0@);
                            }
                        }
                        lemma_index_map_push(cut, textg, kb, sv);
                    }
                    idx.push((kb, sv));
                    proof {
                        assert(index_map(idx@, textg) =~= apply_rec(oldmap, b@));
                    }
                },
                None => {
                    proof {
                        lemma_index_map_push(oldidx, textg, kb, sv);
                    }
                    idx.push((kb, sv));
                    proof {
                        assert(index_map(idx@, textg) =~= apply_rec(oldmap, b@));
                    }
                },
            }
        },
        Behavior::Remove { key } => {
            let kb = key.as_str().as_bytes_vec();
            let ghost kbs: Seq<u8> = kb@;
            match find_key(idx, kb.as_slice()) {
                Some(i) => {
                    proof {
                        lemma_index_map_remove(oldidx, textg, i as int);
                    }
                    idx.remove(i);
                    proof {
                        assert(index_map(idx@, textg) == apply_rec(oldmap, b@));
                    }
                },
                None => {
                    proof {
                        lemma_index_map_absent(oldidx, textg, kbs);
                        assert(oldmap.remove(kbs) =~= oldmap);
                    }
                },
            }
        },
        Behavior::Get { key } => {},
    }
}

/// A record parses only from at least a prefix's worth of bytes.
proof fn lemma_rec_parse_min_len(line: Seq<u8>)
    ensures
        rec_parse(line) is Some ==> line.len() >= 15,
{
    if rec_parse(line) is Some {
        if !crate::record::starts_with(line, crate::record::set_prefix())
            && !crate::record::starts_with(line, crate::record::remove_prefix())
            && !crate::record::starts_with(line, crate::record::get_prefix()) {
            assert(rec_parse(line) is None);
        }
    }
}

/// A text whose first line is malformed parses as no log at all.
proof fn lemma_parse_log_none_at(rem: Seq<u8>)
    requires
        rem.len() > 0,
        (match find_nl(rem) {
            Some(j) => 0 <= j < rem.len() && rec_parse(rem.take(j)) is None,
            None => rec_parse(rem) is None,
        }),
    ensures
        parse_log(rem) is None,
{
}

/// Taking one full, well-formed line off the front of the remaining text
/// steps the replay forward by its record.
#[verifier::rlimit(60)]
proof fn lemma_init_line_step(
    text: Seq<u8>,
    pos: int,
    nl: int,
    bv: BehaviorView,
    done: Seq<BehaviorView>,
)
    requires
        0 <= pos <= nl < text.len(),
        pos == 0 || text[pos - 1] == 10,
        find_nl(text.skip(pos)) == Some(nl - pos),
        rec_parse(text.subrange(pos, nl)) == Some(bv),
        parse_log(text.take(pos)) == Some(done),
        (match parse_log(text.skip(pos)) {
            Some(rs2) => parse_log(text) == Some(done + rs2),
            None => parse_log(text) is None,
        }),
    ensures
        text[nl] == 10,
        parse_log(text.take(nl + 1)) == Some(done.push(bv)),
        (match parse_log(text.skip(nl + 1)) {
            Some(rs3) => parse_log(text) == Some(done.push(bv) + rs3),
            None => parse_log(text) is None,
        }),
        replay(done.push(bv)) == apply_rec(replay(done), bv),
{
    let rem = text.skip(pos);
    let line = text.subrange(pos, nl);
    lemma_find_nl(rem);
    assert(forall|k: int| 0 <= k < line.len() ==> line[k] == rem[k]);
    assert(forall|k: int| 0 <= k < line.len() ==> line[k] != 10);
    lemma_rec_parse_min_len(line);
    assert(text.take(pos).len() == 0 || text.take(pos).last() == 10);
    assert(text.take(nl + 1) =~= text.take(pos) + line + seq![10u8]);
    lemma_parse_log_snoc(text.take(pos), line, bv);
    assert(rem[nl - pos] == 10);
    assert(rem.take(nl - pos) =~= line);
    assert(rem.skip(nl - pos + 1) =~= text.skip(nl + 1));
    match parse_log(text.skip(nl + 1)) {
        Some(rs3) => {
            assert(parse_log(rem) == Some(seq![bv] + rs3));
            assert(done + (seq![bv] + rs3) =~= done.push(bv) + rs3);
        },
        None => {
            assert(parse_log(rem) is None);
        },
    }
    assert((done.push(bv)).drop_last() =~= done);
}

/// A final line without its line feed closes the replay, and restoring
/// the line feed leaves the records unchanged.
#[verifier::rlimit(60)]
proof fn lemma_init_last_step(text: Seq<u8>, pos: int, bv: BehaviorView, done: Seq<BehaviorView>)
    requires
        0 <= pos < text.len(),
        pos == 0 || text[pos - 1] == 10,
        find_nl(text.skip(pos)) is None,
        rec_parse(text.subrange(pos, text.len() as int)) == Some(bv),
        parse_log(text.take(pos)) == Some(done),
        (match parse_log(text.skip(pos)) {
            Some(rs2) => parse_log(text) == Some(done + rs2),
            None => parse_log(text) is None,
        }),
    ensures
        parse_log(text) == Some(done.push(bv)),
        parse_log(text + seq![10u8]) == Some(done.push(bv)),
        replay(done.push(bv)) == apply_rec(replay(done), bv),
        text.last() != 10,
{
    let rem = text.skip(pos);
    lemma_find_nl(rem);
    assert(text.subrange(pos, text.len() as int) =~= rem);
    assert(rem.len() > 0);
    lemma_rec_parse_min_len(rem);
    assert(text.take(pos).len() == 0 || text.take(pos).last() == 10);
    assert(text + seq![10u8] =~= text.take(pos) + rem + seq![10u8]);
    lemma_parse_log_snoc(text.take(pos), rem, bv);
    assert(parse_log(rem) == Some(seq![bv]));
    assert(done + seq![bv] =~= done.push(bv));
    assert((done.push(bv)).drop_last() =~= done);
    assert(text.last() == rem.last());
}

impl KvStore {
    /// Rebuild the store from the content of a log file: scan it line by
    /// line, check every record, and point the index at the `Set` records
    /// that survive replay. A malformed line aborts the load with
    /// `Corruption` and leaves the store as it was.
    ///
    /// A final line without its line feed is accepted, and the line feed
    /// is restored in the rebuilt log, so that later appends stay on
    /// their own lines.
    #[verifier::rlimit(100)]
    #[verifier::spinoff_prover]
    pub fn init_from_file_text(&mut self, text: &[u8]) -> (r: Result<(), KvsError>)
        ensures
            match r {
                Ok(()) => {
                    &&& parse_log(text@) is Some
                    &&& final(self).wf()
                    &&& final(self)@ == replay(parse_log(text@)->0)
                    &&& (final(self).log_text() == text@ || final(self).log_text() == text@
                        + seq![10u8])
                    &&& ((text@.len() == 0 || text@.last() == 10) ==> final(self).log_text()
                        == text@)
                    &&& final(self).flushed_upto() == text@.len()
                    &&& !final(self).needs_rewrite()
                    &&& final(self).op_count() == old(self).op_count()
                },
                Err(e) => e == KvsError::Corruption && parse_log(text@) is None && *final(self)
                    == *old(self),
            },
    {
        let n = text.len();
        let mut idx: Vec<(Vec<u8>, StoreValue)> = Vec::new();
        let mut pos: usize = 0;
        let ghost mut done: Seq<BehaviorView> = Seq::empty();
        proof {
            assert(text@.take(0) =~= Seq::<u8>::empty());
            assert(parse_log(Seq::<u8>::empty()) == Some(Seq::<BehaviorView>::empty()));
            assert(index_map(idx@, text@) =~= replay(done));
            assert(text@.skip(0) =~= text@);
            assert(done + parse_log(text@)->0 =~= parse_log(text@)->0);
        }
        while pos < n
            invariant
                *self == *old(self),
                0 <= pos <= n,
                n == text@.len(),
                pos == 0 || text@[pos - 1] == 10,
                parse_log(text@.take(pos as int)) == Some(done),
                entries_ok(idx@, text@),
                keys_unique(idx@),
                index_map(idx@, text@) == replay(done),
                (match parse_log(text@.skip(pos as int)) {
                    Some(rs2) => parse_log(text@) == Some(done + rs2),
                    None => parse_log(text@) is None,
                }),
            decreases n - pos,
        {
            let ghost rem = text@.skip(pos as int);
            match find_nl_from(text, pos) {
                Some(nl) => {
                    let line = vstd::slice::slice_subrange(text, pos, nl);
                    proof {
                        assert(line@ =~= rem.take(nl - pos));
                        assert(line@ =~= text@.subrange(pos as int, nl as int));
                    }
                    match crate::record::parse_record(line) {
                        None => {
                            proof {
                                lemma_parse_log_none_at(rem);
                            }
                            return Err(KvsError::Corruption);
                        },
                        Some(b) => {
                            apply_record(&mut idx, &b, pos, nl - pos, Ghost(text@));
                            proof {
                                lemma_init_line_step(text@, pos as int, nl as int, b@, done);
                                done = done.push(b@);
                            }
                            pos = nl + 1;
                        },
                    }
                },
                None => {
                    let line = vstd::slice::slice_subrange(text, pos, n);
                    proof {
                        assert(line@ =~= rem);
                        assert(line@ =~= text@.subrange(pos as int, n as int));
                    }
                    match crate::record::parse_record(line) {
                        None => {
                            proof {
                                lemma_parse_log_none_at(rem);
                            }
                            return Err(KvsError::Corruption);
                        },
                        Some(b) => {
                            apply_record(&mut idx, &b, pos, n - pos, Ghost(text@));
                            let mut logv = vstd::slice::slice_to_vec(text);
                            logv.push(10);
                            proof {
                                lemma_init_last_step(text@, pos as int, b@, done);
                                lemma_index_map_extend(idx@, text@, seq![10u8]);
                                assert(logv@ =~= text@ + seq![10u8]);
                                done = done.push(b@);
                            }
                            self.index = idx;
                            self.log = logv;
                            self.offset = self.log.len() as u64;
                            self.flushed = n;
                            self.rewritten = false;
                            proof {
                                assert(self.log@.last() == 10);
                                assert(self.wf());
                            }
                            return Ok(());
                        },
                    }
                },
            }
        }
        proof {
            assert(text@.take(n as int) =~= text@);
            assert(text@.skip(n as int) =~= Seq::<u8>::empty());
            assert(parse_log(Seq::<u8>::empty()) == Some(Seq::<BehaviorView>::empty()));
            assert(done + Seq::<BehaviorView>::empty() =~= done);
        }
        self.index = idx;
        self.log = vstd::slice::slice_to_vec(text);
        self.offset = self.log.len() as u64;
        self.flushed = self.log.len();
        self.rewritten = false;
        proof {
            assert(self.wf());
        }
        Ok(())
    }

    /// Append one record line to the log and bring the offset counter up
    /// to date. The index is the caller's business.
    #[verifier::rlimit(50)]
    fn log_behavior(&mut self, behavior: &Behavior)
        requires
            old(self).log@.len() == 0 || old(self).log@.last() == 10,
            parse_log(old(self).log@) is Some,
            old(self).flushed <= old(self).log@.len(),
        ensures
            final(self).log@ == old(self).log@ + rec_encode(behavior@) + seq![10u8],
            parse_log(final(self).log@) == Some(parse_log(old(self).log@)->0.push(behavior@)),
            final(self).offset == final(self).log@.len(),
            final(self).log@.len() > 0 && final(self).log@.last() == 10,
            final(self).flushed == old(self).flushed,
            final(self).flushed <= final(self).log@.len(),
            final(self).rewritten == old(self).rewritten,
            final(self).index@ == old(self).index@,
            final(self).operation_count == old(self).operation_count,
    {
        let line = crate::record::encode_record(behavior);
        proof {
            crate::record::lemma_rec_round_trip(behavior@);
            crate::record::lemma_rec_encode_no_nl(behavior@);
            assert(rec_encode(behavior@).len() >= 15);
            lemma_parse_log_snoc(self.log@, line@, behavior@);
        }
        crate::model::push_all(&mut self.log, line.as_slice());
        self.log.push(10);
        self.offset = self.log.len() as u64;
        proof {
            assert(self.log@ =~= old(self).log@ + rec_encode(behavior@) + seq![10u8]);
        }
    }

    /// Count one operation; every 2048th — and only then — compact the
    /// log in place. Off the threshold nothing but the counter moves.
    pub fn update_operation_count(&mut self) -> (r: Result<(), KvsError>)
        requires
            old(self).wf(),
        ensures
            r is Ok,
            final(self).wf(),
            final(self)@ == old(self)@,
            final(self).op_count() == next_count(old(self).op_count()),
            next_count(old(self).op_count()) % 2048 != 0 ==> {
                &&& final(self).log_text() == old(self).log_text()
                &&& final(self).journal() == old(self).journal()
                &&& final(self).flushed_upto() == old(self).flushed_upto()
                &&& final(self).needs_rewrite() == old(self).needs_rewrite()
            },
            next_count(old(self).op_count()) % 2048 == 0 ==> {
                &&& final(self).log_text() == old(self).compacted_text()
                &&& final(self).needs_rewrite()
                &&& final(self).flushed_upto() == 0
                &&& journal_snapshot_of(final(self).journal(), final(self)@)
            },
    {
        self.operation_count = if self.operation_count == u64::MAX {
            0
        } else {
            self.operation_count + 1
        };
        if self.operation_count % 2048 == 0 {
            self.compact()
        } else {
            Ok(())
        }
    }

    /// The text a compaction of this store writes: one `Set` record line
    /// per live key, in index order.
    pub closed spec fn compacted_text(self) -> Seq<u8> {
        compact_text(self.index@, self.log@)
    }

    /// Rewrite the log to hold exactly one `Set` record per live key and
    /// point the index at the new records. The map is untouched; the next
    /// flush replaces the file.
    #[verifier::rlimit(100)]
    #[verifier::spinoff_prover]
    pub fn compact(&mut self) -> (r: Result<(), KvsError>)
        requires
            old(self).wf(),
        ensures
            r is Ok,
            final(self).wf(),
            final(self)@ == old(self)@,
            final(self).log_text() == old(self).compacted_text(),
            final(self).needs_rewrite(),
            final(self).flushed_upto() == 0,
            final(self).op_count() == old(self).op_count(),
            journal_snapshot_of(final(self).journal(), final(self)@),
    {
        let ghost oldidx = self.index@;
        let ghost oldlog = self.log@;
        let ghost oldview = self@;
        let mut text: Vec<u8> = Vec::new();
        let mut i: usize = 0;
        proof {
            assert(parse_log(text@) == Some(Seq::<BehaviorView>::empty()));
            assert(text@ =~= compact_text(oldidx.take(0), oldlog));
            assert(compact_records(oldidx.take(0), oldlog) =~= Seq::<BehaviorView>::empty());
            assert(replay(Seq::<BehaviorView>::empty()) =~= index_map(oldidx.take(0), oldlog));
        }
        while i < self.index.len()
            invariant
                *self == *old(self),
                self.wf(),
                oldidx == self.index@,
                oldlog == self.log@,
                0 <= i <= oldidx.len(),
                text@ == compact_text(oldidx.take(i as int), oldlog),
                text@.len() == 0 || text@.last() == 10,
                parse_log(text@) == Some(compact_records(oldidx.take(i as int), oldlog)),
                replay(parse_log(text@)->0) == index_map(oldidx.take(i as int), oldlog),
            decreases oldidx.len() - i,
        {
            let ghost e = oldidx[i as int];
            proof {
                assert(entry_ok(e, oldlog));
                lemma_entry_ok_val(e, oldlog);
            }
            let vb = match self.index[i].1.to_value(&self.log) {
                Ok(vb) => vb,
                Err(e2) => {
                    proof {
                        assert(false);
                    }
                    return Err(e2);
                },
            };
            let line = crate::record::encode_put_record(self.index[i].0.as_slice(), vb.as_slice());
            let ghost pretext = text@;
            let ghost bv = BehaviorView::Put { key: e.0@, value: sv_val(e.1, oldlog)->0 };
            proof {
                assert(line@ == rec_encode(bv));
                crate::record::lemma_rec_round_trip(bv);
                crate::record::lemma_rec_encode_no_nl(bv);
                assert(rec_encode(bv).len() >= 15);
                lemma_parse_log_snoc(pretext, line@, bv);
            }
            crate::model::push_all(&mut text, line.as_slice());
            text.push(10);
            proof {
                assert(text@ =~= pretext + line@ + seq![10u8]);
                let t1 = oldidx.take(i as int + 1);
                assert(t1.drop_last() =~= oldidx.take(i as int));
                assert(t1.last() == e);
                assert(text@ =~= compact_text(t1, oldlog));
                let prers = parse_log(pretext)->0;
                assert((prers.push(bv)).drop_last() =~= prers);
                assert(replay(prers.push(bv)) == replay(prers).insert(e.0@, sv_val(e.1, oldlog)->0));
                assert(index_map(t1, oldlog) == index_map(oldidx.take(i as int), oldlog).insert(
                    e.0@,
                    sv_val(e.1, oldlog)->0,
                ));
                assert(compact_records(t1, oldlog) == compact_records(
                    oldidx.take(i as int),
                    oldlog,
                ).push(bv));
            }
            i += 1;
        }
        proof {
            assert(oldidx.take(oldidx.len() as int) =~= oldidx);
        }
        match self.init_from_file_text(text.as_slice()) {
            Ok(()) => {},
            Err(e2) => {
                proof {
                    assert(false);
                }
                return Err(e2);
            },
        }
        self.flushed = 0;
        self.rewritten = true;
        proof {
            lemma_compact_records_snapshot(oldidx, oldlog);
        }
        Ok(())
    }

    /// Hand back what has to reach the log file: everything, after a
    /// compaction rewrote the log; otherwise the bytes appended since the
    /// last flush. The store then counts the whole log as persisted.
    pub fn flush(&mut self) -> (r: FlushBatch)
        requires
            old(self).wf(),
        ensures
            final(self).wf(),
            final(self)@ == old(self)@,
            final(self).log_text() == old(self).log_text(),
            final(self).journal() == old(self).journal(),
            r.rewrite == old(self).needs_rewrite(),
            r.rewrite ==> r.bytes@ == old(self).log_text(),
            !r.rewrite ==> r.bytes@ == old(self).log_text().skip(old(self).flushed_upto()),
            final(self).flushed_upto() == final(self).log_text().len(),
            !final(self).needs_rewrite(),
    {
        let rewrite = self.rewritten;
        let start: usize = if rewrite {
            0
        } else {
            self.flushed
        };
        let bytes = vstd::slice::slice_to_vec(
            vstd::slice::slice_subrange(self.log.as_slice(), start, self.log.len()),
        );
        self.flushed = self.log.len();
        self.rewritten = false;
        proof {
            if rewrite {
                assert(bytes@ =~= old(self).log@);
            }
        }
        FlushBatch { rewrite, bytes }
    }
}

impl Default for KvStore {
    /// An empty store, as `new` builds it.
    fn default() -> (r: KvStore)
        ensures
            r.wf(),
            r@ == Map::<Seq<u8>, Seq<u8>>::empty(),
            r.log_text() == Seq::<u8>::empty(),
    {
        KvStore::new()
    }
}


/// A size budget for a compacted log: per live entry, six times the key
/// and value lengths (escaping can expand bytes) plus a constant for the
/// record's framing and its line feed.
pub open spec fn compact_budget(entries: Seq<(Vec<u8>, StoreValue)>, log: Seq<u8>) -> int
    decreases entries.len(),
{
    if entries.len() == 0 {
        0
    } else {
        let e = entries.last();
        compact_budget(entries.drop_last(), log) + 6 * e.0@.len() + 6 * (match sv_val(e.1, log) {
            Some(v) => v.len() as int,
            None => 0,
        }) + 30
    }
}

/// Compaction writes a bounded log: at most the per-entry budget over
/// the live entries, however much stale data the old log carried.
pub proof fn lemma_compact_text_size(entries: Seq<(Vec<u8>, StoreValue)>, log: Seq<u8>)
    requires
        entries_ok(entries, log),
    ensures
        compact_text(entries, log).len() <= compact_budget(entries, log),
    decreases entries.len(),
{
    if entries.len() > 0 {
        assert forall|j: int| 0 <= j < entries.drop_last().len() implies entry_ok(
            #[trigger] entries.drop_last()[j],
            log,
        ) by {
            assert(entries.drop_last()[j] == entries[j]);
        }
        lemma_compact_text_size(entries.drop_last(), log);
        let e = entries.last();
        lemma_entry_ok_val(e, log);
        crate::record::lemma_escape_len(e.0@);
        crate::record::lemma_escape_len(sv_val(e.1, log)->0);
        assert(rec_encode(BehaviorView::Put { key: e.0@, value: sv_val(e.1, log)->0 }).len() <= 6
            * e.0@.len() + 6 * (match sv_val(e.1, log) {
            Some(v2) => v2.len() as int,
            None => 0,
        }) + 29);
    }
}

/// Replaying a well-formed store's own log text rebuilds exactly its
/// live map: what `set` and `remove` leave on disk is what a reopen
/// recovers.
pub proof fn lemma_reopen_from_log(s: KvStore)
    requires
        s.wf(),
    ensures
        parse_log(s.log_text()) is Some,
        replay(parse_log(s.log_text())->0) == s@,
{
}



/// What a caller reconstructing the log file may rely on: the flushed
/// prefix never runs past the log, and a log awaiting a rewrite has no
/// flushed prefix at all — the next flush carries the whole text.
pub proof fn lemma_flush_bounds(s: KvStore)
    requires
        s.wf(),
    ensures
        0 <= s.flushed_upto() <= s.log_text().len(),
        s.needs_rewrite() ==> s.flushed_upto() == 0,
{
}

/// Single-client history law: each operation's contract makes the map
/// `apply_rec` of the one before, so after any run of operations on a
/// fresh store the map is `replay(ops)` — and a lookup of `k`, which by
/// its contract returns the live binding, observes the value of the most
/// recent `Put` of `k` with no `Remove` of `k` after it, and nothing
/// when `k` was never put or last removed.
pub proof fn lemma_single_client_history(ops: Seq<BehaviorView>, k: Seq<u8>)
    ensures
        replay(ops).contains_key(k) == (last_write(ops, k) is Some),
        last_write(ops, k) matches Some(v) ==> replay(ops)[k] == v,
{
    lemma_replay_last_write(ops, k);
}

} // verus!
