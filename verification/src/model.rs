//! The wire protocol: framed messages in a RESP-style encoding, together
//! with the request type that the server extracts from a decoded frame.
//!
//! A frame starts with one prefix byte (`+` `-` `:` `$` `*`), carries its
//! payload as text, and lines end with `\r\n`. Encoding is total; decoding
//! either yields a message and the number of bytes consumed, reports that
//! the frame is still incomplete, or rejects the input as malformed.

use vstd::prelude::*;
use vstd::utf8::{encode_utf8, valid_utf8};

use crate::decimal::{dec_int, parse_i64, parse_i64_bytes, parse_u64, parse_u64_bytes};
use crate::error::KvsError;

verus! {

broadcast use {vstd::std_specs::vec::group_vec_axioms, vstd::utf8::encode_utf8_valid_utf8};

/// A wire message, mirroring the RESP frame kinds.
#[derive(Debug, PartialEq)]
pub enum Msg {
    /// A simple line, sent with prefix `+`.
    Line(String),
    /// An error line, sent with prefix `-`.
    Error(String),
    /// A signed integer, sent with prefix `:`.
    Integer(i64),
    /// A length-prefixed string (prefix `$`), or the null bulk string.
    Bulk(Option<String>),
    /// A counted list of messages, sent with prefix `*`.
    Array(Vec<Msg>),
}

/// The mathematical shape of a message: string payloads as the byte
/// strings that travel on the wire, integers unbounded.
pub enum MsgView {
    /// View of `Msg::Line`.
    Line(Seq<u8>),
    /// View of `Msg::Error`.
    Error(Seq<u8>),
    /// View of `Msg::Integer`.
    Integer(int),
    /// View of `Msg::Bulk`.
    Bulk(Option<Seq<u8>>),
    /// View of `Msg::Array`.
    Array(Seq<MsgView>),
}

/// The UTF-8 bytes of a string value.
pub open spec fn string_bytes(s: String) -> Seq<u8> {
    encode_utf8(s@)
}

/// A store operation, as carried in a client request and, for the two
/// mutations, as one record of the on-disk log.
#[derive(Debug, Clone, PartialEq)]
pub enum Behavior {
    /// Bind `key` to `value` (the `set` command; logged under the
    /// `Set` tag on disk).
    Put {
        /// The key to bind.
        key: String,
        /// The value bound to it.
        value: String,
    },
    /// Look `key` up. Never written to the log.
    Get {
        /// The key to look up.
        key: String,
    },
    /// Erase `key`.
    Remove {
        /// The key to erase.
        key: String,
    },
}

/// The mathematical shape of an operation: its strings as wire bytes.
pub enum BehaviorView {
    /// View of `Behavior::Put`.
    Put {
        /// Bytes of the key.
        key: Seq<u8>,
        /// Bytes of the value.
        value: Seq<u8>,
    },
    /// View of `Behavior::Get`.
    Get {
        /// Bytes of the key.
        key: Seq<u8>,
    },
    /// View of `Behavior::Remove`.
    Remove {
        /// Bytes of the key.
        key: Seq<u8>,
    },
}

impl View for Behavior {
    type V = BehaviorView;

    open spec fn view(&self) -> BehaviorView {
        match *self {
            Behavior::Put { key, value } => BehaviorView::Put {
                key: string_bytes(key),
                value: string_bytes(value),
            },
            Behavior::Get { key } => BehaviorView::Get { key: string_bytes(key) },
            Behavior::Remove { key } => BehaviorView::Remove { key: string_bytes(key) },
        }
    }
}

/// The view of one message.
pub open spec fn msg_view(m: Msg) -> MsgView
    decreases m,
{
    match m {
        Msg::Line(s) => MsgView::Line(string_bytes(s)),
        Msg::Error(s) => MsgView::Error(string_bytes(s)),
        Msg::Integer(n) => MsgView::Integer(n as int),
        Msg::Bulk(o) => MsgView::Bulk(
            match o {
                Some(s) => Some(string_bytes(s)),
                None => None,
            },
        ),
        Msg::Array(xs) => MsgView::Array(msgs_view(xs@)),
    }
}

/// The views of a list of messages.
pub open spec fn msgs_view(xs: Seq<Msg>) -> Seq<MsgView>
    decreases xs,
{
    if xs.len() == 0 {
        seq![]
    } else {
        msgs_view(xs.drop_last()).push(msg_view(xs.last()))
    }
}

impl View for Msg {
    type V = MsgView;

    open spec fn view(&self) -> MsgView {
        msg_view(*self)
    }
}

/// `msgs_view` maps `msg_view` over the list.
pub proof fn lemma_msgs_view_index(xs: Seq<Msg>)
    ensures
        msgs_view(xs).len() == xs.len(),
        forall|i: int| 0 <= i < xs.len() ==> #[trigger] msgs_view(xs)[i] == msg_view(xs[i]),
    decreases xs,
{
    if xs.len() > 0 {
        lemma_msgs_view_index(xs.drop_last());
    }
}

/// The two bytes that end every protocol line.
pub open spec fn crlf() -> Seq<u8> {
    seq![13u8, 10u8]
}

/// The wire encoding of a message.
pub open spec fn msg_encode(m: MsgView) -> Seq<u8>
    decreases m,
{
    match m {
        MsgView::Line(s) => seq![43u8] + s + crlf(),
        MsgView::Error(s) => seq![45u8] + s + crlf(),
        MsgView::Integer(n) => seq![58u8] + dec_int(n) + crlf(),
        MsgView::Bulk(Some(s)) => seq![36u8] + dec_int(s.len() as int) + crlf() + s + crlf(),
        MsgView::Bulk(None) => seq![36u8, 45u8, 49u8, 13u8, 10u8],
        MsgView::Array(xs) => seq![42u8] + dec_int(xs.len() as int) + crlf() + msgs_encode(xs),
    }
}

/// The concatenated encodings of a list of messages.
pub open spec fn msgs_encode(xs: Seq<MsgView>) -> Seq<u8>
    decreases xs,
{
    if xs.len() == 0 {
        seq![]
    } else {
        msgs_encode(xs.drop_last()) + msg_encode(xs.last())
    }
}

/// Append every byte of `s` to `out`.
pub fn push_all(out: &mut Vec<u8>, s: &[u8])
    ensures
        final(out)@ == old(out)@ + s@,
{
    let mut i: usize = 0;
    while i < s.len()
        invariant
            0 <= i <= s@.len(),
            out@ == old(out)@ + s@.take(i as int),
        decreases s@.len() - i,
    {
        out.push(s[i]);
        proof {
            assert(old(out)@ + s@.take(i as int + 1) =~= (old(out)@ + s@.take(i as int)).push(
                s@[i as int],
            ));
        }
        i += 1;
    }
    proof {
        assert(s@.take(s@.len() as int) =~= s@);
    }
}

/// Is there a `\r\n` pair at position `i` of `b`?
pub open spec fn crlf_at(b: Seq<u8>, i: int) -> bool {
    0 <= i && i + 1 < b.len() && b[i] == 13 && b[i + 1] == 10
}

/// Does `b` contain a `\r\n` pair anywhere?
pub open spec fn has_crlf(b: Seq<u8>) -> bool {
    exists|i: int| crlf_at(b, i)
}

/// The position of the first `\r\n` pair of `b`, if any.
pub open spec fn find_crlf(b: Seq<u8>) -> Option<int>
    decreases b.len(),
{
    if b.len() < 2 {
        None
    } else if b[0] == 13 && b[1] == 10 {
        Some(0)
    } else {
        match find_crlf(b.drop_first()) {
            Some(i) => Some(i + 1),
            None => None,
        }
    }
}

/// `find_crlf` returns the first `\r\n` pair: the pair is there, and no
/// pair comes before it; `None` means there is no pair at all.
pub proof fn lemma_find_crlf(b: Seq<u8>)
    ensures
        match find_crlf(b) {
            Some(i) => crlf_at(b, i) && (forall|j: int| 0 <= j < i ==> !crlf_at(b, j)),
            None => !has_crlf(b),
        },
    decreases b.len(),
{
    if b.len() >= 2 && !(b[0] == 13 && b[1] == 10) {
        lemma_find_crlf(b.drop_first());
        let t = b.drop_first();
        assert(forall|j: int| 0 <= j < t.len() - 1 ==> crlf_at(t, j) == crlf_at(b, j + 1));
        match find_crlf(t) {
            Some(i) => {
                assert(crlf_at(b, i + 1));
                assert forall|j: int| 0 <= j < i + 1 implies !crlf_at(b, j) by {
                    if j > 0 {
                        assert(!crlf_at(t, j - 1));
                    }
                }
            },
            None => {
                assert forall|j: int| !crlf_at(b, j) by {
                    if j > 0 {
                        assert(!crlf_at(t, j - 1));
                    }
                }
            },
        }
    }
}

/// The first `\r\n` pair of `content ++ \r\n ++ rest` stands right after
/// `content` whenever `content` itself holds no pair.
pub proof fn lemma_find_crlf_concat(content: Seq<u8>, rest: Seq<u8>)
    requires
        !has_crlf(content),
    ensures
        find_crlf(content + crlf() + rest) == Some(content.len() as int),
{
    let b = content + crlf() + rest;
    let n = content.len() as int;
    assert(b[n] == 13 && b[n + 1] == 10);
    assert(crlf_at(b, n));
    assert forall|j: int| 0 <= j < n implies !crlf_at(b, j) by {
        if j < n - 1 {
            assert(b[j] == content[j] && b[j + 1] == content[j + 1]);
            assert(!crlf_at(content, j));
        } else {
            assert(b[j + 1] == 13);
        }
    }
    lemma_find_crlf(b);
    match find_crlf(b) {
        Some(i) => {
            if i < n {
                assert(!crlf_at(b, i));
            }
            if i > n {
                assert(!crlf_at(b, n));
            }
        },
        None => {
            assert(has_crlf(b));
        },
    }
}

/// The outcome of decoding one message from a byte string.
pub enum Decoded {
    /// A complete message, and how many bytes it took.
    Done(MsgView, int),
    /// The bytes so far are a proper prefix of a frame.
    More,
    /// The bytes cannot start a well-formed frame.
    Fail,
}

/// The outcome of decoding a fixed count of consecutive messages.
pub enum DecodedItems {
    /// The messages, and how many bytes they took together.
    Done(Seq<MsgView>, int),
    /// The bytes run out before the last message is complete.
    More,
    /// Some message is malformed.
    Fail,
}

/// Decode one message from the front of `b`.
///
/// Mirrors a blocking reader's loop: one prefix byte,
/// then for `+` `-` `:` a line up to the first `\r\n`; for `$` a length
/// line, that many payload bytes, then everything up to the next `\r\n`;
/// for `*` a count line and that many further messages. Text payloads
/// must be UTF-8 and integers must parse, else the frame is malformed.
pub open spec fn msg_decode(b: Seq<u8>) -> Decoded
    decreases b.len(), 0int,
{
    if b.len() == 0 {
        Decoded::More
    } else {
        let t = b[0];
        let rest = b.skip(1);
        if t == 43 || t == 45 {
            match find_crlf(rest) {
                None => Decoded::More,
                Some(i) => {
                    let content = rest.take(i);
                    if valid_utf8(content) {
                        if t == 43 {
                            Decoded::Done(MsgView::Line(content), 3 + i)
                        } else {
                            Decoded::Done(MsgView::Error(content), 3 + i)
                        }
                    } else {
                        Decoded::Fail
                    }
                },
            }
        } else if t == 58 {
            match find_crlf(rest) {
                None => Decoded::More,
                Some(i) => match parse_i64(rest.take(i)) {
                    Some(v) => Decoded::Done(MsgView::Integer(v as int), 3 + i),
                    None => Decoded::Fail,
                },
            }
        } else if t == 36 {
            match find_crlf(rest) {
                None => Decoded::More,
                Some(i) => match parse_i64(rest.take(i)) {
                    None => Decoded::Fail,
                    Some(len) => if len < 0 {
                        Decoded::Done(MsgView::Bulk(None), 3 + i)
                    } else {
                        let start = i + 2;
                        if rest.len() < start + len {
                            Decoded::More
                        } else {
                            let content = rest.subrange(start, start + len);
                            if !valid_utf8(content) {
                                Decoded::Fail
                            } else {
                                match find_crlf(rest.skip(start + len)) {
                                    None => Decoded::More,
                                    Some(j) => Decoded::Done(
                                        MsgView::Bulk(Some(content)),
                                        1 + start + len + j + 2,
                                    ),
                                }
                            }
                        }
                    },
                },
            }
        } else if t == 42 {
            match find_crlf(rest) {
                None => Decoded::More,
                Some(i) => match parse_u64(rest.take(i)) {
                    None => Decoded::Fail,
                    Some(k) => if k > u32::MAX || !(0 <= i && i + 2 <= rest.len()) {
                        Decoded::Fail
                    } else {
                        match msgs_decode(rest.skip(i + 2), k as nat) {
                            DecodedItems::Done(ms, n) => Decoded::Done(
                                MsgView::Array(ms),
                                3 + i + n,
                            ),
                            DecodedItems::More => Decoded::More,
                            DecodedItems::Fail => Decoded::Fail,
                        }
                    },
                },
            }
        } else {
            Decoded::Fail
        }
    }
}

/// Decode `k` consecutive messages from the front of `b`.
pub open spec fn msgs_decode(b: Seq<u8>, k: nat) -> DecodedItems
    decreases b.len(), k,
{
    if k == 0 {
        DecodedItems::Done(seq![], 0)
    } else {
        match msg_decode(b) {
            Decoded::More => DecodedItems::More,
            Decoded::Fail => DecodedItems::Fail,
            Decoded::Done(m, n) => if !(1 <= n <= b.len()) {
                DecodedItems::Fail
            } else {
                match msgs_decode(b.skip(n), (k - 1) as nat) {
                    DecodedItems::Done(ms, n2) => DecodedItems::Done(seq![m] + ms, n + n2),
                    DecodedItems::More => DecodedItems::More,
                    DecodedItems::Fail => DecodedItems::Fail,
                }
            },
        }
    }
}

/// A decoded message consumes at least the prefix byte and a line end,
/// and never more than the input.
pub proof fn lemma_decode_consumed(b: Seq<u8>)
    ensures
        msg_decode(b) matches Decoded::Done(m, n) ==> 1 <= n <= b.len(),
    decreases b.len(), 0int,
{
    if b.len() > 0 {
        let t = b[0];
        let rest = b.skip(1);
        lemma_find_crlf(rest);
        if t == 42 {
            if let Some(i) = find_crlf(rest) {
                if let Some(k) = parse_u64(rest.take(i)) {
                    if k <= u32::MAX {
                        lemma_items_consumed(rest.skip(i + 2), k as nat);
                    }
                }
            }
        } else if t == 36 {
            if let Some(i) = find_crlf(rest) {
                if let Some(len) = parse_i64(rest.take(i)) {
                    if len >= 0 && rest.len() >= i + 2 + len {
                        lemma_find_crlf(rest.skip(i + 2 + len));
                    }
                }
            }
        }
    }
}

/// Decoded lists consume no more than the input and hold one view per
/// requested message.
pub proof fn lemma_items_consumed(b: Seq<u8>, k: nat)
    ensures
        msgs_decode(b, k) matches DecodedItems::Done(ms, n) ==> 0 <= n <= b.len() && ms.len()
            == k,
    decreases b.len(), k,
{
    if k > 0 {
        lemma_decode_consumed(b);
        if let Decoded::Done(m, n) = msg_decode(b) {
            if 1 <= n <= b.len() {
                lemma_items_consumed(b.skip(n), (k - 1) as nat);
            }
        }
    }
}

/// Relies on std::str::from_utf8, which succeeds exactly on UTF-8 input
/// and yields the string those bytes encode.
#[verifier::external_body]
pub(crate) fn utf8_to_string(bytes: &[u8]) -> (r: Option<String>)
    ensures
        match r {
            Some(s) => bytes@ == encode_utf8(s@),
            None => !valid_utf8(bytes@),
        },
{
    match core::str::from_utf8(bytes) {
        Ok(s) => Some(s.to_owned()),
        Err(_) => None,
    }
}

/// Why a call to `Msg::decode` returned no message.
#[derive(Debug, PartialEq, Eq)]
pub enum DecodeError {
    /// The buffer holds only a proper prefix of a frame; read more bytes.
    Incomplete,
    /// The buffer cannot start a well-formed frame.
    Malformed,
}

/// Find the first `\r\n` pair at or after `pos`.
fn find_crlf_from(bytes: &[u8], pos: usize) -> (r: Option<usize>)
    requires
        pos <= bytes@.len(),
    ensures
        match r {
            Some(i) => pos <= i && i + 1 < bytes@.len() && find_crlf(bytes@.skip(pos as int))
                == Some(i - pos),
            None => find_crlf(bytes@.skip(pos as int)) is None,
        },
{
    let ghost tail = bytes@.skip(pos as int);
    let n = bytes.len();
    if n == 0 {
        proof {
            lemma_find_crlf(tail);
        }
        return None;
    }
    let mut j: usize = pos;
    while j < n - 1
        invariant
            pos <= j,
            j <= n == bytes@.len(),
            n >= 1,
            tail == bytes@.skip(pos as int),
            forall|j2: int| 0 <= j2 < j - pos ==> !crlf_at(tail, j2),
        decreases n - j,
    {
        if bytes[j] == 13 && bytes[j + 1] == 10 {
            proof {
                assert(tail[j - pos] == bytes@[j as int]);
                assert(tail[j - pos + 1] == bytes@[j as int + 1]);
                assert(crlf_at(tail, j - pos));
                lemma_find_crlf(tail);
                if find_crlf(tail) is None {
                    assert(has_crlf(tail));
                }
                if let Some(i0) = find_crlf(tail) {
                    if i0 < j - pos {
                        assert(!crlf_at(tail, i0));
                    }
                    if i0 > j - pos {
                        assert(!crlf_at(tail, j - pos));
                    }
                }
            }
            return Some(j);
        }
        proof {
            assert(tail[j - pos] == bytes@[j as int]);
            if j - pos + 1 < tail.len() {
                assert(tail[j - pos + 1] == bytes@[j as int + 1]);
            }
            assert(!crlf_at(tail, j - pos));
        }
        j += 1;
    }
    proof {
        lemma_find_crlf(tail);
        if let Some(i0) = find_crlf(tail) {
            assert(crlf_at(tail, i0));
            assert(!crlf_at(tail, i0));
        }
    }
    None
}

impl Msg {
    /// Decode the payload part of a bulk string whose header line gave a
    /// non-negative length: the payload bytes themselves, then everything
    /// up to the next `\r\n`.
    fn decode_bulk_payload(bytes: &[u8], pos: usize, i: usize, len: i64) -> (r: Result<
        (Msg, usize),
        DecodeError,
    >)
        requires
            pos < bytes@.len(),
            bytes@[pos as int] == 36,
            pos + 1 <= i,
            i + 1 < bytes@.len(),
            find_crlf(bytes@.skip(pos as int + 1)) == Some(i - pos - 1),
            parse_i64(bytes@.skip(pos as int + 1).take(i - pos - 1)) == Some(len),
            len >= 0,
        ensures
            match r {
                Ok((m, end)) => pos < end <= bytes@.len() && msg_decode(
                    bytes@.skip(pos as int),
                ) == Decoded::Done(m@, end - pos),
                Err(DecodeError::Incomplete) => msg_decode(bytes@.skip(pos as int))
                    is More,
                Err(DecodeError::Malformed) => msg_decode(bytes@.skip(pos as int)) is Fail,
            },
    {
        let ghost b = bytes@.skip(pos as int);
        let ghost rest = b.skip(1);
        let ghost gi = i - pos - 1;
        proof {
            assert(rest =~= bytes@.skip(pos as int + 1));
        }
        let n = bytes.len();
        let start = i + 2;
        let avail: u64 = (n - start) as u64;
        if (len as u64) > avail {
            proof {
                assert(rest.len() < gi + 2 + len);
            }
            Err(DecodeError::Incomplete)
        } else {
            let len_us = len as usize;
            let payload = vstd::slice::slice_subrange(bytes, start, start + len_us);
            proof {
                assert(payload@ =~= rest.subrange(gi + 2, gi + 2 + len));
            }
            match utf8_to_string(payload) {
                None => Err(DecodeError::Malformed),
                Some(s) => {
                    match find_crlf_from(bytes, start + len_us) {
                        None => {
                            proof {
                                assert(rest.skip(gi + 2 + len) =~= bytes@.skip(
                                    start + len_us,
                                ));
                            }
                            Err(DecodeError::Incomplete)
                        },
                        Some(j) => {
                            proof {
                                assert(rest.skip(gi + 2 + len) =~= bytes@.skip(
                                    start + len_us,
                                ));
                            }
                            Ok((Msg::Bulk(Some(s)), j + 2))
                        },
                    }
                },
            }
        }
    }

    /// Decode one message from `bytes`, starting at `pos`.
    ///
    /// On success the message and the position one past its last byte
    /// come back. `Incomplete` asks the caller for more input; a stream
    /// reader grows its buffer and retries. `Malformed` is a protocol
    /// violation and the connection cannot continue.
    #[verifier::rlimit(60)]
    pub fn decode(bytes: &[u8], pos: usize) -> (r: Result<(Msg, usize), DecodeError>)
        requires
            pos <= bytes@.len(),
        ensures
            match r {
                Ok((m, end)) => pos < end <= bytes@.len() && msg_decode(
                    bytes@.skip(pos as int),
                ) == Decoded::Done(m@, end - pos),
                Err(DecodeError::Incomplete) => msg_decode(bytes@.skip(pos as int))
                    is More,
                Err(DecodeError::Malformed) => msg_decode(bytes@.skip(pos as int)) is Fail,
            },
        decreases bytes@.len() - pos, 0int,
    {
        let ghost b = bytes@.skip(pos as int);
        if pos == bytes.len() {
            return Err(DecodeError::Incomplete);
        }
        let t = bytes[pos];
        let ghost rest = b.skip(1);
        proof {
            assert(rest =~= bytes@.skip(pos as int + 1));
        }
        if t == 43 || t == 45 {
            match find_crlf_from(bytes, pos + 1) {
                None => Err(DecodeError::Incomplete),
                Some(i) => {
                    let content = vstd::slice::slice_subrange(bytes, pos + 1, i);
                    proof {
                        assert(content@ =~= rest.take(i - pos - 1));
                    }
                    match utf8_to_string(content) {
                        None => Err(DecodeError::Malformed),
                        Some(s) => {
                            let m = if t == 43 {
                                Msg::Line(s)
                            } else {
                                Msg::Error(s)
                            };
                            Ok((m, i + 2))
                        },
                    }
                },
            }
        } else if t == 58 {
            match find_crlf_from(bytes, pos + 1) {
                None => Err(DecodeError::Incomplete),
                Some(i) => {
                    let content = vstd::slice::slice_subrange(bytes, pos + 1, i);
                    proof {
                        assert(content@ =~= rest.take(i - pos - 1));
                    }
                    match parse_i64_bytes(content) {
                        None => Err(DecodeError::Malformed),
                        Some(v) => Ok((Msg::Integer(v), i + 2)),
                    }
                },
            }
        } else if t == 36 {
            match find_crlf_from(bytes, pos + 1) {
                None => Err(DecodeError::Incomplete),
                Some(i) => {
                    let content = vstd::slice::slice_subrange(bytes, pos + 1, i);
                    proof {
                        assert(content@ =~= rest.take(i - pos - 1));
                    }
                    match parse_i64_bytes(content) {
                        None => Err(DecodeError::Malformed),
                        Some(len) => {
                            if len < 0 {
                                Ok((Msg::Bulk(None), i + 2))
                            } else {
                                Self::decode_bulk_payload(bytes, pos, i, len)
                            }
                        },
                    }
                },
            }
        } else if t == 42 {
            match find_crlf_from(bytes, pos + 1) {
                None => Err(DecodeError::Incomplete),
                Some(i) => {
                    let content = vstd::slice::slice_subrange(bytes, pos + 1, i);
                    proof {
                        assert(content@ =~= rest.take(i - pos - 1));
                    }
                    match parse_u64_bytes(content) {
                        None => Err(DecodeError::Malformed),
                        Some(k) => {
                            if k > 0xffff_ffff {
                                Err(DecodeError::Malformed)
                            } else {
                                proof {
                                    assert(rest.skip((i - pos - 1) + 2) =~= bytes@.skip(
                                        i + 2,
                                    ));
                                }
                                match Self::decode_items(bytes, i + 2, k as u32) {
                                    Err(e) => Err(e),
                                    Ok((ms, end)) => Ok((Msg::Array(ms), end)),
                                }
                            }
                        },
                    }
                },
            }
        } else {
            Err(DecodeError::Malformed)
        }
    }

    /// Decode `k` consecutive messages from `bytes`, starting at `pos`.
    fn decode_items(bytes: &[u8], pos: usize, k: u32) -> (r: Result<
        (Vec<Msg>, usize),
        DecodeError,
    >)
        requires
            pos <= bytes@.len(),
        ensures
            match r {
                Ok((ms, end)) => pos <= end <= bytes@.len() && msgs_decode(
                    bytes@.skip(pos as int),
                    k as nat,
                ) == DecodedItems::Done(msgs_view(ms@), end - pos),
                Err(DecodeError::Incomplete) => msgs_decode(bytes@.skip(pos as int), k as nat)
                    is More,
                Err(DecodeError::Malformed) => msgs_decode(bytes@.skip(pos as int), k as nat)
                    is Fail,
            },
        decreases bytes@.len() - pos, k as int,
    {
        let ghost b = bytes@.skip(pos as int);
        if k == 0 {
            assert(msgs_view(Seq::<Msg>::empty()) =~= Seq::<MsgView>::empty());
            return Ok((Vec::new(), pos));
        }
        proof {
            lemma_decode_consumed(b);
        }
        match Self::decode(bytes, pos) {
            Err(e) => Err(e),
            Ok((m, p2)) => {
                proof {
                    assert(b.skip(p2 - pos) =~= bytes@.skip(p2 as int));
                }
                match Self::decode_items(bytes, p2, k - 1) {
                    Err(e) => Err(e),
                    Ok((mut ms, end)) => {
                        let ghost pre = ms@;
                        ms.insert(0, m);
                        proof {
                            assert(ms@ =~= seq![m] + pre);
                            lemma_msgs_view_cons(m, pre);
                        }
                        Ok((ms, end))
                    },
                }
            },
        }
    }
}

/// Prepending a message to a list prepends its view.
pub proof fn lemma_msgs_view_cons(m: Msg, ms: Seq<Msg>)
    ensures
        msgs_view(seq![m] + ms) == seq![msg_view(m)] + msgs_view(ms),
    decreases ms,
{
    if ms.len() == 0 {
        assert(seq![m] + ms =~= seq![m]);
        assert((seq![m]).drop_last() =~= Seq::<Msg>::empty());
        assert((seq![m]).last() == m);
        assert(msgs_view(Seq::<Msg>::empty()) == Seq::<MsgView>::empty());
        assert(msgs_view(seq![m]) =~= seq![msg_view(m)] + msgs_view(ms));
    } else {
        lemma_msgs_view_cons(m, ms.drop_last());
        let s = seq![m] + ms;
        assert(s.drop_last() =~= seq![m] + ms.drop_last());
        assert(s.last() == ms.last());
        assert(msgs_view(s) == msgs_view(seq![m] + ms.drop_last()).push(msg_view(ms.last())));
        assert(msgs_view(s) =~= seq![msg_view(m)] + msgs_view(ms));
    }
}

impl Msg {
    /// Encode the message for the wire.
    pub fn to_bytes(&self) -> (r: Vec<u8>)
        ensures
            r@ == msg_encode(self@),
    {
        let mut out: Vec<u8> = Vec::new();
        self.encode_into(&mut out);
        out
    }

    /// Append the encoding of the message to `out`.
    fn encode_into(&self, out: &mut Vec<u8>)
        ensures
            final(out)@ == old(out)@ + msg_encode(self@),
        decreases *self,
    {
        match self {
            Msg::Line(s) => {
                out.push(43);
                push_all(out, s.as_str().as_bytes());
                out.push(13);
                out.push(10);
                assert(final(out)@ =~= old(out)@ + msg_encode(self@));
            },
            Msg::Error(s) => {
                out.push(45);
                push_all(out, s.as_str().as_bytes());
                out.push(13);
                out.push(10);
                assert(final(out)@ =~= old(out)@ + msg_encode(self@));
            },
            Msg::Integer(n) => {
                out.push(58);
                crate::decimal::push_dec_i64(*n, out);
                out.push(13);
                out.push(10);
                assert(final(out)@ =~= old(out)@ + msg_encode(self@));
            },
            Msg::Bulk(Some(s)) => {
                let bytes = s.as_str().as_bytes();
                out.push(36);
                crate::decimal::push_dec_u64(bytes.len() as u64, out);
                out.push(13);
                out.push(10);
                push_all(out, bytes);
                out.push(13);
                out.push(10);
                proof {
                    assert(dec_int(string_bytes(*s).len() as int) == crate::decimal::dec_digits(
                        string_bytes(*s).len() as nat,
                    ));
                    assert(final(out)@ =~= old(out)@ + msg_encode(self@));
                }
            },
            Msg::Bulk(None) => {
                out.push(36);
                out.push(45);
                out.push(49);
                out.push(13);
                out.push(10);
                assert(final(out)@ =~= old(out)@ + msg_encode(self@));
            },
            Msg::Array(xs) => {
                out.push(42);
                crate::decimal::push_dec_u64(xs.len() as u64, out);
                out.push(13);
                out.push(10);
                let ghost head = out@;
                let mut i: usize = 0;
                while i < xs.len()
                    invariant
                        *self == Msg::Array(*xs),
                        0 <= i <= xs@.len(),
                        out@ == head + msgs_encode(msgs_view(xs@.take(i as int))),
                    decreases xs@.len() - i,
                {
                    proof {
                        assert(decreases_to!(*self => self->Array_0));
                        assert(decreases_to!(*xs => xs@));
                        assert(decreases_to!(xs@ => xs@[i as int]));
                        assert(decreases_to!(*self => xs@[i as int]));
                    }
                    xs[i].encode_into(out);
                    proof {
                        let t1 = xs@.take(i as int + 1);
                        assert(t1.drop_last() =~= xs@.take(i as int));
                        assert(t1.last() == xs@[i as int]);
                        assert(msgs_view(t1) == msgs_view(xs@.take(i as int)).push(msg_view(
                            xs@[i as int],
                        )));
                        let mv = msgs_view(t1);
                        assert(mv.drop_last() =~= msgs_view(xs@.take(i as int)));
                        assert(msgs_encode(mv) == msgs_encode(msgs_view(xs@.take(i as int)))
                            + msg_encode(msg_view(xs@[i as int])));
                        assert(out@ =~= head + msgs_encode(msgs_view(t1)));
                    }
                    i += 1;
                }
                proof {
                    assert(xs@.take(xs@.len() as int) =~= xs@);
                    assert(dec_int(msgs_view(xs@).len() as int) == crate::decimal::dec_digits(
                        msgs_view(xs@).len() as nat,
                    )) by {
                        lemma_msgs_view_index(xs@);
                    }
                    lemma_msgs_view_index(xs@);
                    assert(final(out)@ =~= old(out)@ + msg_encode(self@));
                }
            },
        }
    }
}

/// The messages that an exec value can denote: text payloads are UTF-8
/// and hold no `\r\n` where a line end would cut them short, integers fit
/// `i64`, lengths fit the headers that carry them.
pub open spec fn msg_wf(m: MsgView) -> bool
    decreases m,
{
    match m {
        MsgView::Line(s) => valid_utf8(s) && !has_crlf(s),
        MsgView::Error(s) => valid_utf8(s) && !has_crlf(s),
        MsgView::Integer(n) => i64::MIN <= n <= i64::MAX,
        MsgView::Bulk(Some(s)) => valid_utf8(s) && s.len() <= i64::MAX,
        MsgView::Bulk(None) => true,
        MsgView::Array(xs) => xs.len() <= u32::MAX && msgs_wf(xs),
    }
}

/// Every message of the list is well formed.
pub open spec fn msgs_wf(xs: Seq<MsgView>) -> bool
    decreases xs,
{
    xs.len() == 0 || (msg_wf(xs[0]) && msgs_wf(xs.drop_first()))
}

/// A decimal rendering never holds a carriage return, so it never holds
/// a `\r\n` pair.
pub proof fn lemma_dec_int_no_crlf(n: int)
    ensures
        !has_crlf(dec_int(n)),
{
    let s = dec_int(n);
    let mag = if n < 0 {
        -n
    } else {
        n
    };
    crate::decimal::lemma_dec_digits_shape(mag as nat);
    assert forall|i: int| 0 <= i < s.len() implies s[i] != 13 by {
        if n < 0 {
            if i > 0 {
                assert(crate::decimal::is_digit(crate::decimal::dec_digits(mag as nat)[i - 1]));
            }
        } else {
            assert(crate::decimal::is_digit(crate::decimal::dec_digits(mag as nat)[i]));
        }
    }
    assert forall|i: int| !crlf_at(s, i) by {}
}

/// Splitting the encoding of a non-empty list at its first message.
pub proof fn lemma_msgs_encode_first(xs: Seq<MsgView>)
    requires
        xs.len() > 0,
    ensures
        msgs_encode(xs) == msg_encode(xs[0]) + msgs_encode(xs.drop_first()),
    decreases xs,
{
    if xs.len() == 1 {
        assert(xs.drop_last() =~= Seq::<MsgView>::empty());
        assert(xs.drop_first() =~= Seq::<MsgView>::empty());
        assert(msgs_encode(xs) =~= msg_encode(xs[0]) + msgs_encode(xs.drop_first()));
    } else {
        lemma_msgs_encode_first(xs.drop_last());
        assert(xs.drop_last()[0] == xs[0]);
        assert(xs.drop_last().drop_first() =~= xs.drop_first().drop_last());
        assert(xs.drop_first().last() == xs.last());
        assert(msgs_encode(xs.drop_first()) == msgs_encode(xs.drop_first().drop_last())
            + msg_encode(xs.drop_first().last()));
        assert(msgs_encode(xs) =~= msg_encode(xs[0]) + msgs_encode(xs.drop_first()));
    }
}

/// Round trip of a `Line` frame.
proof fn lemma_rt_line(s: Seq<u8>, rest: Seq<u8>)
    requires
        msg_wf(MsgView::Line(s)),
    ensures
        msg_decode(msg_encode(MsgView::Line(s)) + rest) == Decoded::Done(
            MsgView::Line(s),
            msg_encode(MsgView::Line(s)).len() as int,
        ),
{
    let b = msg_encode(MsgView::Line(s)) + rest;
    let rest0 = b.skip(1);
    assert(rest0 =~= s + crlf() + rest);
    lemma_find_crlf_concat(s, rest);
    assert(rest0.take(s.len() as int) =~= s);
}

/// Round trip of an `Error` frame.
proof fn lemma_rt_error(s: Seq<u8>, rest: Seq<u8>)
    requires
        msg_wf(MsgView::Error(s)),
    ensures
        msg_decode(msg_encode(MsgView::Error(s)) + rest) == Decoded::Done(
            MsgView::Error(s),
            msg_encode(MsgView::Error(s)).len() as int,
        ),
{
    let b = msg_encode(MsgView::Error(s)) + rest;
    let rest0 = b.skip(1);
    assert(rest0 =~= s + crlf() + rest);
    lemma_find_crlf_concat(s, rest);
    assert(rest0.take(s.len() as int) =~= s);
}

/// Round trip of an `Integer` frame.
proof fn lemma_rt_integer(n: int, rest: Seq<u8>)
    requires
        msg_wf(MsgView::Integer(n)),
    ensures
        msg_decode(msg_encode(MsgView::Integer(n)) + rest) == Decoded::Done(
            MsgView::Integer(n),
            msg_encode(MsgView::Integer(n)).len() as int,
        ),
{
    let b = msg_encode(MsgView::Integer(n)) + rest;
    let rest0 = b.skip(1);
    let d = dec_int(n);
    assert(rest0 =~= d + crlf() + rest);
    lemma_dec_int_no_crlf(n);
    lemma_find_crlf_concat(d, rest);
    assert(rest0.take(d.len() as int) =~= d);
    crate::decimal::lemma_parse_dec_int(n);
}

/// Round trip of the null bulk string.
proof fn lemma_rt_bulk_none(rest: Seq<u8>)
    ensures
        msg_decode(msg_encode(MsgView::Bulk(None)) + rest) == Decoded::Done(
            MsgView::Bulk(None),
            5,
        ),
{
    let b = msg_encode(MsgView::Bulk(None)) + rest;
    let rest0 = b.skip(1);
    let d = seq![45u8, 49u8];
    assert(b[0] == 36);
    assert(rest0 =~= d + crlf() + rest);
    assert(!has_crlf(d)) by {
        assert forall|i: int| !crlf_at(d, i) by {}
    }
    lemma_find_crlf_concat(d, rest);
    let content = rest0.take(2);
    assert(content =~= d);
    let digits = content.skip(1);
    assert(digits =~= seq![49u8]);
    assert(crate::decimal::all_digits(digits));
    assert(digits.drop_last() =~= Seq::<u8>::empty());
    assert(crate::decimal::digits_val(Seq::<u8>::empty()) == 0);
    assert(digits.last() == 49u8);
    assert(crate::decimal::digits_val(digits) == 1);
    assert(parse_i64(content) == Some(-1i64));
}

/// Round trip of a bulk string with payload.
proof fn lemma_rt_bulk_some(s: Seq<u8>, rest: Seq<u8>)
    requires
        msg_wf(MsgView::Bulk(Some(s))),
    ensures
        msg_decode(msg_encode(MsgView::Bulk(Some(s))) + rest) == Decoded::Done(
            MsgView::Bulk(Some(s)),
            msg_encode(MsgView::Bulk(Some(s))).len() as int,
        ),
{
    let b = msg_encode(MsgView::Bulk(Some(s))) + rest;
    let rest0 = b.skip(1);
    let d = dec_int(s.len() as int);
    let after = s + crlf() + rest;
    assert(rest0 =~= d + crlf() + after);
    lemma_dec_int_no_crlf(s.len() as int);
    lemma_find_crlf_concat(d, after);
    assert(rest0.take(d.len() as int) =~= d);
    crate::decimal::lemma_parse_dec_int(s.len() as int);
    let start = d.len() as int + 2;
    assert(rest0.subrange(start, start + s.len()) =~= s);
    assert(rest0.skip(start + s.len()) =~= Seq::<u8>::empty() + crlf() + rest);
    assert(!has_crlf(Seq::<u8>::empty())) by {
        assert forall|i: int| !crlf_at(Seq::<u8>::empty(), i) by {}
    }
    lemma_find_crlf_concat(Seq::<u8>::empty(), rest);
}

/// Decoding an encoded message consumes exactly that encoding and yields
/// the message back, whatever bytes follow it in the stream.
pub proof fn lemma_round_trip_prefix(m: MsgView, rest: Seq<u8>)
    requires
        msg_wf(m),
    ensures
        msg_decode(msg_encode(m) + rest) == Decoded::Done(m, msg_encode(m).len() as int),
    decreases m,
{
    let b = msg_encode(m) + rest;
    let rest0 = b.skip(1);
    match m {
        MsgView::Line(s) => {
            lemma_rt_line(s, rest);
        },
        MsgView::Error(s) => {
            lemma_rt_error(s, rest);
        },
        MsgView::Integer(n) => {
            lemma_rt_integer(n, rest);
        },
        MsgView::Bulk(None) => {
            lemma_rt_bulk_none(rest);
        },
        MsgView::Bulk(Some(s)) => {
            lemma_rt_bulk_some(s, rest);
        },
        MsgView::Array(xs) => {
            let d = dec_int(xs.len() as int);
            let after = msgs_encode(xs) + rest;
            assert(rest0 =~= d + crlf() + after);
            lemma_dec_int_no_crlf(xs.len() as int);
            lemma_find_crlf_concat(d, after);
            assert(rest0.take(d.len() as int) =~= d);
            assert(d == crate::decimal::dec_digits(xs.len() as nat));
            crate::decimal::lemma_dec_digits_shape(xs.len() as nat);
            crate::decimal::lemma_dec_digits_val(xs.len() as nat);
            assert(crate::decimal::is_digit(d[0]));
            assert(parse_u64(d) == Some(xs.len() as u64));
            assert(rest0.skip(d.len() as int + 2) =~= after);
            lemma_msgs_round_trip(xs, rest);
        },
    }
}

/// Decoding the concatenated encodings of `xs` yields `xs` back,
/// whatever bytes follow them.
pub proof fn lemma_msgs_round_trip(xs: Seq<MsgView>, rest: Seq<u8>)
    requires
        msgs_wf(xs),
    ensures
        msgs_decode(msgs_encode(xs) + rest, xs.len() as nat) == DecodedItems::Done(
            xs,
            msgs_encode(xs).len() as int,
        ),
    decreases xs,
{
    let b = msgs_encode(xs) + rest;
    if xs.len() == 0 {
        assert(xs =~= Seq::<MsgView>::empty());
    } else {
        lemma_msgs_encode_first(xs);
        let e0 = msg_encode(xs[0]);
        let tail_enc = msgs_encode(xs.drop_first());
        assert(b =~= e0 + (tail_enc + rest));
        lemma_round_trip_prefix(xs[0], tail_enc + rest);
        lemma_decode_consumed(b);
        assert(b.skip(e0.len() as int) =~= tail_enc + rest);
        lemma_msgs_round_trip(xs.drop_first(), rest);
        assert(seq![xs[0]] + xs.drop_first() =~= xs);
    }
}

/// Wire codec round trip: decoding the encoding of any well-formed
/// message yields that message, consuming exactly its bytes.
pub proof fn lemma_msg_round_trip(m: MsgView)
    requires
        msg_wf(m),
    ensures
        msg_decode(msg_encode(m)) == Decoded::Done(m, msg_encode(m).len() as int),
{
    assert(msg_encode(m) + Seq::<u8>::empty() =~= msg_encode(m));
    lemma_round_trip_prefix(m, Seq::<u8>::empty());
}

/// The byte strings of a list of string values.
pub open spec fn strings_bytes(ss: Seq<String>) -> Seq<Seq<u8>> {
    ss.map_values(|s: String| string_bytes(s))
}

/// The bulk strings that a message list denotes: one byte string per
/// `Bulk` payload, null bulks skipped; `None` when some element is not a
/// bulk string at all.
pub open spec fn bulk_strings(xs: Seq<MsgView>) -> Option<Seq<Seq<u8>>>
    decreases xs,
{
    if xs.len() == 0 {
        Some(seq![])
    } else {
        match bulk_strings(xs.drop_last()) {
            None => None,
            Some(init) => match xs.last() {
                MsgView::Bulk(Some(s)) => Some(init.push(s)),
                MsgView::Bulk(None) => Some(init),
                _ => None,
            },
        }
    }
}

/// A list with a non-bulk element denotes no bulk strings.
pub proof fn lemma_bulk_strings_all(xs: Seq<MsgView>)
    ensures
        bulk_strings(xs) is Some ==> forall|i: int|
            0 <= i < xs.len() ==> #[trigger] xs[i] matches MsgView::Bulk(_),
    decreases xs,
{
    if xs.len() > 0 {
        lemma_bulk_strings_all(xs.drop_last());
        if bulk_strings(xs) is Some {
            assert forall|i: int| 0 <= i < xs.len() implies #[trigger] xs[i] matches MsgView::Bulk(
                _,
            ) by {
                if i < xs.len() - 1 {
                    assert(xs.drop_last()[i] == xs[i]);
                }
            }
        }
    }
}

/// One `Bulk` message per byte string.
pub open spec fn bulks_of(ss: Seq<Seq<u8>>) -> Seq<MsgView> {
    ss.map_values(|s: Seq<u8>| MsgView::Bulk(Some(s)))
}

/// The bytes of the verb `get`.
pub open spec fn verb_get() -> Seq<u8> {
    seq![103u8, 101, 116]
}

/// The bytes of the verb `set`.
pub open spec fn verb_set() -> Seq<u8> {
    seq![115u8, 101, 116]
}

/// The bytes of the verb `rm`.
pub open spec fn verb_rm() -> Seq<u8> {
    seq![114u8, 109]
}

/// The store operation a client message asks for: the message must be an
/// array of bulk strings opening with a known verb and carrying enough
/// arguments; anything beyond them is ignored.
pub open spec fn command_of(m: MsgView) -> Option<BehaviorView> {
    match m {
        MsgView::Array(xs) => match bulk_strings(xs) {
            Some(args) => if args.len() >= 2 && args[0] == verb_get() {
                Some(BehaviorView::Get { key: args[1] })
            } else if args.len() >= 3 && args[0] == verb_set() {
                Some(BehaviorView::Put { key: args[1], value: args[2] })
            } else if args.len() >= 2 && args[0] == verb_rm() {
                Some(BehaviorView::Remove { key: args[1] })
            } else {
                None
            },
            None => None,
        },
        _ => None,
    }
}

impl Msg {
    /// Wrap each string of `strings` as a bulk string and the whole as an
    /// array: the form every client command takes on the wire.
    pub fn build_bulk_array(strings: &Vec<String>) -> (r: Msg)
        ensures
            r@ == MsgView::Array(bulks_of(strings_bytes(strings@))),
    {
        let mut list: Vec<Msg> = Vec::new();
        let mut i: usize = 0;
        while i < strings.len()
            invariant
                0 <= i <= strings@.len(),
                msgs_view(list@) =~= bulks_of(strings_bytes(strings@.take(i as int))),
            decreases strings@.len() - i,
        {
            let ghost pre = list@;
            list.push(Msg::Bulk(Some(strings[i].clone())));
            proof {
                assert(list@.drop_last() =~= pre);
                assert(msgs_view(list@) == msgs_view(pre).push(msg_view(list@.last())));
                assert(strings@.take(i as int + 1).drop_last() =~= strings@.take(i as int));
                assert(msgs_view(list@) =~= bulks_of(strings_bytes(strings@.take(i as int + 1))));
            }
            i += 1;
        }
        proof {
            assert(strings@.take(strings@.len() as int) =~= strings@);
        }
        Msg::Array(list)
    }

    /// Read the message back as a list of strings, if it is an array of
    /// bulk strings; null bulks are skipped, and any other shape is
    /// rejected.
    pub fn try_to_vec_string(&self) -> (r: Option<Vec<String>>)
        ensures
            match r {
                Some(list) => self@ matches MsgView::Array(xs) && bulk_strings(xs) == Some(
                    strings_bytes(list@),
                ),
                None => match self@ {
                    MsgView::Array(xs) => bulk_strings(xs) is None,
                    _ => true,
                },
            },
    {
        match self {
            Msg::Array(items) => {
                let ghost xsv = msgs_view(items@);
                proof {
                    lemma_msgs_view_index(items@);
                }
                let mut out: Vec<String> = Vec::new();
                let mut i: usize = 0;
                while i < items.len()
                    invariant
                        *self == Msg::Array(*items),
                        xsv == msgs_view(items@),
                        xsv.len() == items@.len(),
                        forall|j: int| 0 <= j < items@.len() ==> #[trigger] xsv[j] == msg_view(
                            items@[j],
                        ),
                        0 <= i <= items@.len(),
                        bulk_strings(xsv.take(i as int)) == Some(strings_bytes(out@)),
                    decreases items@.len() - i,
                {
                    let ghost preout = out@;
                    match &items[i] {
                        Msg::Bulk(Some(s)) => {
                            out.push(s.clone());
                        },
                        Msg::Bulk(None) => {},
                        _ => {
                            proof {
                                lemma_bulk_strings_all(xsv);
                                assert(!(xsv[i as int] matches MsgView::Bulk(_)));
                            }
                            return None;
                        },
                    }
                    proof {
                        assert(xsv.take(i as int + 1).drop_last() =~= xsv.take(i as int));
                        assert(xsv.take(i as int + 1).last() == xsv[i as int]);
                        match items@[i as int] {
                            Msg::Bulk(o) => {
                                match o {
                                    Some(s) => {
                                        assert(out@ == preout.push(s));
                                        assert(strings_bytes(out@) =~= strings_bytes(
                                            preout,
                                        ).push(string_bytes(s)));
                                    },
                                    None => {},
                                }
                            },
                            _ => {
                                assert(false);
                            },
                        }
                    }
                    i += 1;
                }
                proof {
                    assert(xsv.take(items@.len() as int) =~= xsv);
                }
                Some(out)
            },
            _ => None,
        }
    }
}


impl Msg {
    /// Interpret the message as a store command: `["get", k]`,
    /// `["set", k, v]` or `["rm", k]`, each as an array of bulk strings.
    pub fn try_to_behavior(&self) -> (r: Result<Behavior, KvsError>)
        ensures
            match r {
                Ok(b) => command_of(self@) == Some(b@),
                Err(e) => command_of(self@) is None && e == KvsError::InvalidArgumentNumber,
            },
    {
        let args = match self.try_to_vec_string() {
            None => {
                return Err(KvsError::InvalidArgumentNumber);
            },
            Some(a) => a,
        };
        let ghost argsb = strings_bytes(args@);
        if args.len() == 0 {
            return Err(KvsError::InvalidArgumentNumber);
        }
        let vb = args[0].as_str().as_bytes();
        proof {
            assert(vb@ == argsb[0]);
        }
        if vb.len() == 3 && vb[0] == 103 && vb[1] == 101 && vb[2] == 116 {
            proof {
                assert(argsb[0] =~= verb_get());
            }
            if args.len() >= 2 {
                let key = args[1].clone();
                proof {
                    assert(string_bytes(key) == argsb[1]);
                }
                Ok(Behavior::Get { key })
            } else {
                proof {
                    assert(argsb[0] != verb_rm());
                }
                Err(KvsError::InvalidArgumentNumber)
            }
        } else if vb.len() == 3 && vb[0] == 115 && vb[1] == 101 && vb[2] == 116 {
            proof {
                assert(argsb[0] =~= verb_set());
                assert(argsb[0][0] == 115);
                assert(argsb[0] != verb_get());
            }
            if args.len() >= 3 {
                let key = args[1].clone();
                let value = args[2].clone();
                proof {
                    assert(string_bytes(key) == argsb[1]);
                    assert(string_bytes(value) == argsb[2]);
                }
                Ok(Behavior::Put { key, value })
            } else {
                proof {
                    assert(argsb[0] != verb_rm());
                }
                Err(KvsError::InvalidArgumentNumber)
            }
        } else if vb.len() == 2 && vb[0] == 114 && vb[1] == 109 {
            proof {
                assert(argsb[0] =~= verb_rm());
                assert(argsb[0] != verb_get());
                assert(argsb[0] != verb_set());
            }
            if args.len() >= 2 {
                let key = args[1].clone();
                proof {
                    assert(string_bytes(key) == argsb[1]);
                }
                Ok(Behavior::Remove { key })
            } else {
                Err(KvsError::InvalidArgumentNumber)
            }
        } else {
            proof {
                if argsb.len() >= 1 {
                    if argsb[0] == verb_get() {
                        assert(vb@ =~= verb_get());
                    }
                    if argsb[0] == verb_set() {
                        assert(vb@ =~= verb_set());
                    }
                    if argsb[0] == verb_rm() {
                        assert(vb@ =~= verb_rm());
                    }
                }
            }
            Err(KvsError::InvalidArgumentNumber)
        }
    }
}

} // verus!
