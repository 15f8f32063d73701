//! The on-disk record format of the command log: one JSON object per
//! line, in the externally tagged shape
//! `{"Set":{"key":K,"value":V}}`, `{"Remove":{"key":K}}` or
//! `{"Get":{"key":K}}`, where `K` and `V` are JSON strings.
//!
//! The escapes are the ones a standard JSON serializer emits: `\"`,
//! `\\`, `\b`, `\t`, `\n`, `\f`, `\r`, and `\u00XX` with lowercase hex
//! for the remaining control bytes. The parser accepts exactly those, so
//! it reads every log this crate or the serializers it is compatible
//! with ever wrote. No record contains a raw line feed, so one record
//! always sits on one line.

use vstd::prelude::*;
use vstd::utf8::valid_utf8;

use crate::model::{Behavior, BehaviorView};

verus! {

broadcast use vstd::utf8::encode_utf8_valid_utf8;

/// The lowercase hex digit of a value below 16.
pub open spec fn hex_digit(n: u8) -> u8 {
    if n < 10 {
        (48 + n) as u8
    } else {
        (87 + n) as u8
    }
}

/// Is `b` a lowercase hex digit?
pub open spec fn is_hex(b: u8) -> bool {
    (48 <= b <= 57) || (97 <= b <= 102)
}

/// The value of a lowercase hex digit.
pub open spec fn hex_val(b: u8) -> u8 {
    if 48 <= b <= 57 {
        (b - 48) as u8
    } else if 97 <= b <= 102 {
        (b - 87) as u8
    } else {
        0
    }
}

/// How one byte appears inside a JSON string.
pub open spec fn escape_byte(b: u8) -> Seq<u8> {
    if b == 34 {
        seq![92u8, 34u8]
    } else if b == 92 {
        seq![92u8, 92u8]
    } else if b == 8 {
        seq![92u8, 98u8]
    } else if b == 9 {
        seq![92u8, 116u8]
    } else if b == 10 {
        seq![92u8, 110u8]
    } else if b == 12 {
        seq![92u8, 102u8]
    } else if b == 13 {
        seq![92u8, 114u8]
    } else if b < 32 {
        seq![92u8, 117u8, 48u8, 48u8, hex_digit(b / 16), hex_digit(b % 16)]
    } else {
        seq![b]
    }
}

/// The byte the two-byte escape `\X` denotes.
pub open spec fn unescape_code(e: u8) -> u8 {
    if e == 34 {
        34u8
    } else if e == 92 {
        92u8
    } else if e == 98 {
        8u8
    } else if e == 116 {
        9u8
    } else if e == 110 {
        10u8
    } else if e == 102 {
        12u8
    } else if e == 114 {
        13u8
    } else {
        0u8
    }
}

/// Is `e` the second byte of a two-byte escape?
pub open spec fn is_escape_code(e: u8) -> bool {
    e == 34 || e == 92 || e == 98 || e == 116 || e == 110 || e == 102 || e == 114
}

/// How a byte string appears inside a JSON string.
pub open spec fn escape(s: Seq<u8>) -> Seq<u8>
    decreases s.len(),
{
    if s.len() == 0 {
        seq![]
    } else {
        escape_byte(s[0]) + escape(s.drop_first())
    }
}

/// Read a JSON string from the front of `s` up to and including its
/// closing quote: the bytes it denotes and how many bytes it took.
pub open spec fn parse_jstring(s: Seq<u8>) -> Option<(Seq<u8>, int)>
    decreases s.len(),
{
    if s.len() == 0 {
        None
    } else if s[0] == 34 {
        Some((seq![], 1))
    } else if s[0] == 92 {
        if s.len() < 2 {
            None
        } else {
            let e = s[1];
            if is_escape_code(e) {
                match parse_jstring(s.skip(2)) {
                    Some((c, n)) => Some((seq![unescape_code(e)] + c, 2 + n)),
                    None => None,
                }
            } else if e == 117 {
                if s.len() < 6 {
                    None
                } else if s[2] == 48 && s[3] == 48 && is_hex(s[4]) && is_hex(s[5]) {
                    let v = (hex_val(s[4]) * 16 + hex_val(s[5])) as u8;
                    if v < 32 {
                        match parse_jstring(s.skip(6)) {
                            Some((c, n)) => Some((seq![v] + c, 6 + n)),
                            None => None,
                        }
                    } else {
                        None
                    }
                } else {
                    None
                }
            } else {
                None
            }
        }
    } else if s[0] < 32 {
        None
    } else {
        match parse_jstring(s.skip(1)) {
            Some((c, n)) => Some((seq![s[0]] + c, 1 + n)),
            None => None,
        }
    }
}

/// `{"Set":{"key":"`
pub open spec fn set_prefix() -> Seq<u8> {
    seq![123u8, 34, 83, 101, 116, 34, 58, 123, 34, 107, 101, 121, 34, 58, 34]
}

/// `{"Remove":{"key":"`
pub open spec fn remove_prefix() -> Seq<u8> {
    seq![123u8, 34, 82, 101, 109, 111, 118, 101, 34, 58, 123, 34, 107, 101, 121, 34, 58, 34]
}

/// `{"Get":{"key":"`
pub open spec fn get_prefix() -> Seq<u8> {
    seq![123u8, 34, 71, 101, 116, 34, 58, 123, 34, 107, 101, 121, 34, 58, 34]
}

/// `,"value":"` — what separates the key from the value, after the
/// key's closing quote.
pub open spec fn value_sep() -> Seq<u8> {
    seq![44u8, 34, 118, 97, 108, 117, 101, 34, 58, 34]
}

/// `}}` — what closes a record, after the last closing quote.
pub open spec fn rec_close() -> Seq<u8> {
    seq![125u8, 125]
}

/// Does `s` start with `p`?
pub open spec fn starts_with(s: Seq<u8>, p: Seq<u8>) -> bool {
    s.len() >= p.len() && s.subrange(0, p.len() as int) == p
}

/// The log line of one record, without its trailing line feed.
pub open spec fn rec_encode(r: BehaviorView) -> Seq<u8> {
    match r {
        BehaviorView::Put { key, value } => set_prefix() + escape(key) + seq![34u8] + value_sep()
            + escape(value) + seq![34u8] + rec_close(),
        BehaviorView::Remove { key } => remove_prefix() + escape(key) + seq![34u8] + rec_close(),
        BehaviorView::Get { key } => get_prefix() + escape(key) + seq![34u8] + rec_close(),
    }
}

/// Read one record from a whole log line. The line must carry nothing
/// beyond the record, and key and value must be UTF-8.
pub open spec fn rec_parse(line: Seq<u8>) -> Option<BehaviorView> {
    if starts_with(line, set_prefix()) {
        match parse_jstring(line.skip(15)) {
            None => None,
            Some((key, n1)) => {
                let p2 = 15 + n1;
                if starts_with(line.skip(p2), value_sep()) {
                    match parse_jstring(line.skip(p2 + 10)) {
                        None => None,
                        Some((value, n2)) => {
                            let p3 = p2 + 10 + n2;
                            if line.len() == p3 + 2 && starts_with(line.skip(p3), rec_close())
                                && valid_utf8(key) && valid_utf8(value) {
                                Some(BehaviorView::Put { key, value })
                            } else {
                                None
                            }
                        },
                    }
                } else {
                    None
                }
            },
        }
    } else if starts_with(line, remove_prefix()) {
        match parse_jstring(line.skip(18)) {
            None => None,
            Some((key, n1)) => {
                let p2 = 18 + n1;
                if line.len() == p2 + 2 && starts_with(line.skip(p2), rec_close()) && valid_utf8(
                    key,
                ) {
                    Some(BehaviorView::Remove { key })
                } else {
                    None
                }
            },
        }
    } else if starts_with(line, get_prefix()) {
        match parse_jstring(line.skip(15)) {
            None => None,
            Some((key, n1)) => {
                let p2 = 15 + n1;
                if line.len() == p2 + 2 && starts_with(line.skip(p2), rec_close()) && valid_utf8(
                    key,
                ) {
                    Some(BehaviorView::Get { key })
                } else {
                    None
                }
            },
        }
    } else {
        None
    }
}

/// A record whose strings are UTF-8 — every record an exec value can
/// denote.
pub open spec fn rec_wf(r: BehaviorView) -> bool {
    match r {
        BehaviorView::Put { key, value } => valid_utf8(key) && valid_utf8(value),
        BehaviorView::Remove { key } => valid_utf8(key),
        BehaviorView::Get { key } => valid_utf8(key),
    }
}

/// Reading an escaped string back, up to its closing quote, recovers the
/// string, whatever follows the quote.
pub proof fn lemma_parse_escape(s: Seq<u8>, rest: Seq<u8>)
    ensures
        parse_jstring(escape(s) + seq![34u8] + rest) == Some((s, escape(s).len() + 1int)),
    decreases s.len(),
{
    let b = escape(s) + seq![34u8] + rest;
    if s.len() == 0 {
        assert(b =~= seq![34u8] + rest);
        assert(b[0] == 34);
        assert(parse_jstring(b) == Some((Seq::<u8>::empty(), 1int)));
        assert(s =~= Seq::<u8>::empty());
    } else {
        let c = s[0];
        let tail = s.drop_first();
        lemma_parse_escape(tail, rest);
        let e = escape_byte(c);
        assert(escape(s) == e + escape(tail));
        assert(b =~= e + (escape(tail) + seq![34u8] + rest));
        let inner = escape(tail) + seq![34u8] + rest;
        if c == 34 || c == 92 || c == 8 || c == 9 || c == 10 || c == 12 || c == 13 {
            assert(b[0] == 92);
            assert(is_escape_code(b[1]));
            assert(unescape_code(b[1]) == c);
            assert(b.skip(2) =~= inner);
            assert(seq![c] + tail =~= s);
        } else if c < 32 {
            assert(b[0] == 92 && b[1] == 117);
            assert(b[2] == 48 && b[3] == 48);
            assert(b[4] == hex_digit(c / 16) && b[5] == hex_digit(c % 16));
            assert(is_hex(hex_digit(c / 16)) && is_hex(hex_digit(c % 16)));
            assert(hex_val(hex_digit(c / 16)) == c / 16);
            assert(hex_val(hex_digit(c % 16)) == c % 16);
            assert((c / 16) * 16 + c % 16 == c) by {
                vstd::arithmetic::div_mod::lemma_fundamental_div_mod(c as int, 16);
            }
            assert(b.skip(6) =~= inner);
            assert(seq![c] + tail =~= s);
        } else {
            assert(b[0] == c);
            assert(!(c == 34 || c == 92 || c < 32));
            assert(b.skip(1) =~= inner);
            assert(seq![c] + tail =~= s);
        }
    }
}

/// Escaping at most six-folds a string: every byte becomes one raw
/// byte, a two-byte escape, or a six-byte `\u00XX` escape.
pub proof fn lemma_escape_len(s: Seq<u8>)
    ensures
        escape(s).len() <= 6 * s.len(),
    decreases s.len(),
{
    if s.len() > 0 {
        lemma_escape_len(s.drop_first());
        assert(escape_byte(s[0]).len() <= 6);
    }
}

/// An escaped string never holds a raw line feed.
pub proof fn lemma_escape_no_nl(s: Seq<u8>)
    ensures
        forall|i: int| 0 <= i < escape(s).len() ==> escape(s)[i] != 10,
    decreases s.len(),
{
    if s.len() > 0 {
        lemma_escape_no_nl(s.drop_first());
        let e = escape_byte(s[0]);
        assert(forall|i: int| 0 <= i < e.len() ==> e[i] != 10);
        assert forall|i: int| 0 <= i < escape(s).len() implies escape(s)[i] != 10 by {
            if i < e.len() {
                assert(escape(s)[i] == e[i]);
            } else {
                assert(escape(s)[i] == escape(s.drop_first())[i - e.len()]);
            }
        }
    }
}

/// No byte of a record line is a line feed: one record, one line.
pub proof fn lemma_rec_encode_no_nl(r: BehaviorView)
    ensures
        forall|i: int| 0 <= i < rec_encode(r).len() ==> rec_encode(r)[i] != 10,
{
    match r {
        BehaviorView::Put { key, value } => {
            lemma_escape_no_nl(key);
            lemma_escape_no_nl(value);
        },
        BehaviorView::Remove { key } => {
            lemma_escape_no_nl(key);
        },
        BehaviorView::Get { key } => {
            lemma_escape_no_nl(key);
        },
    }
}

/// Reading a record line back recovers the record.
#[verifier::rlimit(50)]
pub proof fn lemma_rec_round_trip(r: BehaviorView)
    requires
        rec_wf(r),
    ensures
        rec_parse(rec_encode(r)) == Some(r),
{
    let line = rec_encode(r);
    match r {
        BehaviorView::Put { key, value } => {
            let after_key = value_sep() + escape(value) + seq![34u8] + rec_close();
            assert(line.subrange(0, 15) =~= set_prefix());
            assert(line.skip(15) =~= escape(key) + seq![34u8] + after_key);
            lemma_parse_escape(key, after_key);
            let n1 = escape(key).len() + 1;
            let p2 = 15 + n1;
            assert(line.skip(p2 as int) =~= after_key);
            assert(after_key.subrange(0, 10) =~= value_sep());
            assert(line.skip(p2 as int).subrange(0, 10) =~= value_sep());
            assert(line.skip(p2 as int + 10) =~= escape(value) + seq![34u8] + rec_close());
            lemma_parse_escape(value, rec_close());
            let n2 = escape(value).len() + 1;
            let p3 = p2 + 10 + n2;
            assert(line.len() == p3 + 2);
            assert(line.skip(p3 as int) =~= rec_close());
            assert(line.skip(p3 as int).subrange(0, 2) =~= rec_close());
        },
        BehaviorView::Remove { key } => {
            assert(line.subrange(0, 18) =~= remove_prefix());
            assert(!starts_with(line, set_prefix())) by {
                assert(line[2] == 82);
            }
            assert(line.skip(18) =~= escape(key) + seq![34u8] + rec_close());
            lemma_parse_escape(key, rec_close());
            let n1 = escape(key).len() + 1;
            let p2 = 18 + n1;
            assert(line.len() == p2 + 2);
            assert(line.skip(p2 as int) =~= rec_close());
            assert(line.skip(p2 as int).subrange(0, 2) =~= rec_close());
        },
        BehaviorView::Get { key } => {
            assert(line.subrange(0, 15) =~= get_prefix());
            assert(!starts_with(line, set_prefix())) by {
                assert(line[2] == 71);
            }
            assert(!starts_with(line, remove_prefix())) by {
                assert(line[2] == 71);
            }
            assert(line.skip(15) =~= escape(key) + seq![34u8] + rec_close());
            lemma_parse_escape(key, rec_close());
            let n1 = escape(key).len() + 1;
            let p2 = 15 + n1;
            assert(line.len() == p2 + 2);
            assert(line.skip(p2 as int) =~= rec_close());
            assert(line.skip(p2 as int).subrange(0, 2) =~= rec_close());
        },
    }
}

/// Appending a byte to a string appends its escape.
pub proof fn lemma_escape_push(a: Seq<u8>, c: u8)
    ensures
        escape(a.push(c)) == escape(a) + escape_byte(c),
    decreases a.len(),
{
    if a.len() == 0 {
        assert(a.push(c) =~= seq![c]);
        assert((seq![c]).drop_first() =~= Seq::<u8>::empty());
        assert((seq![c])[0] == c);
        assert(escape(Seq::<u8>::empty()) =~= Seq::<u8>::empty());
        assert(escape(seq![c]) == escape_byte(c) + escape(Seq::<u8>::empty()));
        assert(a =~= Seq::<u8>::empty());
        assert(escape(a.push(c)) =~= escape(a) + escape_byte(c));
    } else {
        lemma_escape_push(a.drop_first(), c);
        assert(a.push(c)[0] == a[0]);
        assert(a.push(c).drop_first() =~= a.drop_first().push(c));
        assert(escape(a.push(c)) == escape_byte(a[0]) + escape(a.drop_first().push(c)));
        assert(escape(a) == escape_byte(a[0]) + escape(a.drop_first()));
        assert(escape(a.push(c)) =~= escape(a) + escape_byte(c));
    }
}

/// The lowercase hex digit of a value below 16.
fn hex_digit_of(n: u8) -> (r: u8)
    requires
        n < 16,
    ensures
        r == hex_digit(n),
{
    if n < 10 {
        48 + n
    } else {
        87 + n
    }
}

/// Append the JSON escaping of `s` to `out`.
pub fn escape_into(s: &[u8], out: &mut Vec<u8>)
    ensures
        final(out)@ == old(out)@ + escape(s@),
{
    let mut i: usize = 0;
    while i < s.len()
        invariant
            0 <= i <= s@.len(),
            out@ == old(out)@ + escape(s@.take(i as int)),
        decreases s@.len() - i,
    {
        let ghost pre = out@;
        let c = s[i];
        if c == 34 {
            out.push(92);
            out.push(34);
        } else if c == 92 {
            out.push(92);
            out.push(92);
        } else if c == 8 {
            out.push(92);
            out.push(98);
        } else if c == 9 {
            out.push(92);
            out.push(116);
        } else if c == 10 {
            out.push(92);
            out.push(110);
        } else if c == 12 {
            out.push(92);
            out.push(102);
        } else if c == 13 {
            out.push(92);
            out.push(114);
        } else if c < 32 {
            out.push(92);
            out.push(117);
            out.push(48);
            out.push(48);
            out.push(hex_digit_of(c / 16));
            out.push(hex_digit_of(c % 16));
        } else {
            out.push(c);
        }
        proof {
            assert(out@ =~= pre + escape_byte(s@[i as int]));
            lemma_escape_push(s@.take(i as int), s@[i as int]);
            assert(s@.take(i as int).push(s@[i as int]) =~= s@.take(i as int + 1));
            assert(out@ =~= old(out)@ + escape(s@.take(i as int + 1)));
        }
        i += 1;
    }
    proof {
        assert(s@.take(s@.len() as int) =~= s@);
    }
}

/// Read a JSON string from `bytes` starting at `pos`, up to and
/// including its closing quote.
pub fn parse_jstring_at(bytes: &[u8], pos: usize) -> (r: Option<(Vec<u8>, usize)>)
    requires
        pos <= bytes@.len(),
    ensures
        match r {
            Some((content, end)) => pos < end <= bytes@.len() && parse_jstring(
                bytes@.skip(pos as int),
            ) == Some((content@, end - pos)),
            None => parse_jstring(bytes@.skip(pos as int)) is None,
        },
{
    let ghost orig = bytes@.skip(pos as int);
    let mut out: Vec<u8> = Vec::new();
    let mut p: usize = pos;
    loop
        invariant
            pos <= p <= bytes@.len(),
            orig == bytes@.skip(pos as int),
            match parse_jstring(bytes@.skip(p as int)) {
                Some((c, n)) => parse_jstring(orig) == Some((out@ + c, p - pos + n)),
                None => parse_jstring(orig) is None,
            },
        decreases bytes@.len() - p,
    {
        let ghost rem = bytes@.skip(p as int);
        if p == bytes.len() {
            proof {
                assert(rem.len() == 0);
            }
            return None;
        }
        let c = bytes[p];
        proof {
            assert(rem[0] == c);
        }
        if c == 34 {
            proof {
                assert(parse_jstring(rem) == Some((Seq::<u8>::empty(), 1int)));
                assert(out@ + Seq::<u8>::empty() =~= out@);
            }
            return Some((out, p + 1));
        } else if c == 92 {
            if p + 1 == bytes.len() {
                proof {
                    assert(rem.len() < 2);
                }
                return None;
            }
            let e = bytes[p + 1];
            proof {
                assert(rem[1] == e);
            }
            if e == 34 || e == 92 || e == 98 || e == 116 || e == 110 || e == 102 || e == 114 {
                let ghost preout = out@;
                let d: u8 = if e == 34 {
                    34
                } else if e == 92 {
                    92
                } else if e == 98 {
                    8
                } else if e == 116 {
                    9
                } else if e == 110 {
                    10
                } else if e == 102 {
                    12
                } else {
                    13
                };
                out.push(d);
                proof {
                    assert(d == unescape_code(e));
                    assert(rem.skip(2) =~= bytes@.skip(p as int + 2));
                    match parse_jstring(rem.skip(2)) {
                        Some((c2, n2)) => {
                            assert(parse_jstring(rem) == Some((seq![d] + c2, 2 + n2)));
                            assert(preout + (seq![d] + c2) =~= out@ + c2);
                        },
                        None => {},
                    }
                }
                p += 2;
            } else if e == 117 {
                if bytes.len() - p < 6 {
                    proof {
                        assert(rem.len() < 6);
                    }
                    return None;
                }
                let h2 = bytes[p + 2];
                let h3 = bytes[p + 3];
                let h4 = bytes[p + 4];
                let h5 = bytes[p + 5];
                proof {
                    assert(rem[2] == h2 && rem[3] == h3 && rem[4] == h4 && rem[5] == h5);
                }
                let hex4 = (48 <= h4 && h4 <= 57) || (97 <= h4 && h4 <= 102);
                let hex5 = (48 <= h5 && h5 <= 57) || (97 <= h5 && h5 <= 102);
                if !(h2 == 48 && h3 == 48 && hex4 && hex5) {
                    return None;
                }
                let v4: u8 = if h4 <= 57 {
                    h4 - 48
                } else {
                    h4 - 87
                };
                let v5: u8 = if h5 <= 57 {
                    h5 - 48
                } else {
                    h5 - 87
                };
                let v: u8 = v4 * 16 + v5;
                proof {
                    assert(v == hex_val(h4) * 16 + hex_val(h5));
                }
                if v >= 32 {
                    return None;
                }
                let ghost preout = out@;
                out.push(v);
                proof {
                    assert(rem.skip(6) =~= bytes@.skip(p as int + 6));
                    match parse_jstring(rem.skip(6)) {
                        Some((c2, n2)) => {
                            assert(parse_jstring(rem) == Some((seq![v] + c2, 6 + n2)));
                            assert(preout + (seq![v] + c2) =~= out@ + c2);
                        },
                        None => {},
                    }
                }
                p += 6;
            } else {
                return None;
            }
        } else if c < 32 {
            return None;
        } else {
            let ghost preout = out@;
            out.push(c);
            proof {
                assert(rem.skip(1) =~= bytes@.skip(p as int + 1));
                match parse_jstring(rem.skip(1)) {
                    Some((c2, n2)) => {
                        assert(parse_jstring(rem) == Some((seq![c] + c2, 1 + n2)));
                        assert(preout + (seq![c] + c2) =~= out@ + c2);
                    },
                    None => {},
                }
            }
            p += 1;
        }
    }
}

/// Does `bytes`, from `pos` on, start with `lit`?
fn has_prefix(bytes: &[u8], pos: usize, lit: &Vec<u8>) -> (r: bool)
    requires
        pos <= bytes@.len(),
    ensures
        r == starts_with(bytes@.skip(pos as int), lit@),
{
    let ghost tail = bytes@.skip(pos as int);
    if bytes.len() - pos < lit.len() {
        return false;
    }
    let mut j: usize = 0;
    while j < lit.len()
        invariant
            0 <= j <= lit@.len(),
            pos + lit@.len() <= bytes@.len(),
            bytes@.len() <= usize::MAX,
            tail == bytes@.skip(pos as int),
            forall|j2: int| 0 <= j2 < j ==> tail[j2] == lit@[j2],
        decreases lit@.len() - j,
    {
        if bytes[pos + j] != lit[j] {
            proof {
                assert(tail[j as int] == bytes@[pos + j]);
                if starts_with(tail, lit@) {
                    assert(tail.subrange(0, lit@.len() as int)[j as int] == tail[j as int]);
                }
            }
            return false;
        }
        proof {
            assert(tail[j as int] == bytes@[pos + j]);
        }
        j += 1;
    }
    proof {
        assert(tail.subrange(0, lit@.len() as int) =~= lit@);
    }
    true
}

/// `{"Set":{"key":"` as a value.
fn set_prefix_vec() -> (r: Vec<u8>)
    ensures
        r@ == set_prefix(),
{
    let mut v: Vec<u8> = Vec::new();
    v.push(123);
    v.push(34);
    v.push(83);
    v.push(101);
    v.push(116);
    v.push(34);
    v.push(58);
    v.push(123);
    v.push(34);
    v.push(107);
    v.push(101);
    v.push(121);
    v.push(34);
    v.push(58);
    v.push(34);
    proof {
        assert(v@ =~= set_prefix());
    }
    v
}

/// `{"Remove":{"key":"` as a value.
fn remove_prefix_vec() -> (r: Vec<u8>)
    ensures
        r@ == remove_prefix(),
{
    let mut v: Vec<u8> = Vec::new();
    v.push(123);
    v.push(34);
    v.push(82);
    v.push(101);
    v.push(109);
    v.push(111);
    v.push(118);
    v.push(101);
    v.push(34);
    v.push(58);
    v.push(123);
    v.push(34);
    v.push(107);
    v.push(101);
    v.push(121);
    v.push(34);
    v.push(58);
    v.push(34);
    proof {
        assert(v@ =~= remove_prefix());
    }
    v
}

/// `{"Get":{"key":"` as a value.
fn get_prefix_vec() -> (r: Vec<u8>)
    ensures
        r@ == get_prefix(),
{
    let mut v: Vec<u8> = Vec::new();
    v.push(123);
    v.push(34);
    v.push(71);
    v.push(101);
    v.push(116);
    v.push(34);
    v.push(58);
    v.push(123);
    v.push(34);
    v.push(107);
    v.push(101);
    v.push(121);
    v.push(34);
    v.push(58);
    v.push(34);
    proof {
        assert(v@ =~= get_prefix());
    }
    v
}

/// `,"value":"` as a value.
fn value_sep_vec() -> (r: Vec<u8>)
    ensures
        r@ == value_sep(),
{
    let mut v: Vec<u8> = Vec::new();
    v.push(44);
    v.push(34);
    v.push(118);
    v.push(97);
    v.push(108);
    v.push(117);
    v.push(101);
    v.push(34);
    v.push(58);
    v.push(34);
    proof {
        assert(v@ =~= value_sep());
    }
    v
}

/// Serialize one operation as its log line, without the trailing line
/// feed.
pub fn encode_record(b: &Behavior) -> (r: Vec<u8>)
    ensures
        r@ == rec_encode(b@),
{
    let mut out: Vec<u8> = Vec::new();
    match b {
        Behavior::Put { key, value } => {
            let p = set_prefix_vec();
            crate::model::push_all(&mut out, p.as_slice());
            escape_into(key.as_str().as_bytes(), &mut out);
            out.push(34);
            let vs = value_sep_vec();
            crate::model::push_all(&mut out, vs.as_slice());
            escape_into(value.as_str().as_bytes(), &mut out);
            out.push(34);
            out.push(125);
            out.push(125);
            proof {
                assert(out@ =~= rec_encode(b@));
            }
        },
        Behavior::Remove { key } => {
            let p = remove_prefix_vec();
            crate::model::push_all(&mut out, p.as_slice());
            escape_into(key.as_str().as_bytes(), &mut out);
            out.push(34);
            out.push(125);
            out.push(125);
            proof {
                assert(out@ =~= rec_encode(b@));
            }
        },
        Behavior::Get { key } => {
            let p = get_prefix_vec();
            crate::model::push_all(&mut out, p.as_slice());
            escape_into(key.as_str().as_bytes(), &mut out);
            out.push(34);
            out.push(125);
            out.push(125);
            proof {
                assert(out@ =~= rec_encode(b@));
            }
        },
    }
    out
}

/// Serialize a `Set` record from raw key and value bytes, without the
/// trailing line feed.
pub fn encode_put_record(key: &[u8], value: &[u8]) -> (r: Vec<u8>)
    ensures
        r@ == rec_encode(BehaviorView::Put { key: key@, value: value@ }),
{
    let mut out: Vec<u8> = Vec::new();
    let p = set_prefix_vec();
    crate::model::push_all(&mut out, p.as_slice());
    escape_into(key, &mut out);
    out.push(34);
    let vs = value_sep_vec();
    crate::model::push_all(&mut out, vs.as_slice());
    escape_into(value, &mut out);
    out.push(34);
    out.push(125);
    out.push(125);
    proof {
        assert(out@ =~= rec_encode(BehaviorView::Put { key: key@, value: value@ }));
    }
    out
}

/// Read one operation back from a whole log line.
pub fn parse_record(line: &[u8]) -> (r: Option<Behavior>)
    ensures
        match r {
            Some(b) => rec_parse(line@) == Some(b@),
            None => rec_parse(line@) is None,
        },
{
    proof {
        assert(line@.skip(0) =~= line@);
    }
    let n = line.len();
    let setp = set_prefix_vec();
    let remp = remove_prefix_vec();
    let getp = get_prefix_vec();
    if has_prefix(line, 0, &setp) {
        match parse_jstring_at(line, 15) {
            None => None,
            Some((kb, p2)) => {
                let vs = value_sep_vec();
                if !has_prefix(line, p2, &vs) {
                    return None;
                }
                match parse_jstring_at(line, p2 + 10) {
                    None => None,
                    Some((vb, p3)) => {
                        if line.len() - p3 != 2 || line[p3] != 125 || line[p3 + 1] != 125 {
                            proof {
                                lemma_close_check(line@, p3 as int);
                            }
                            return None;
                        }
                        proof {
                            lemma_close_check(line@, p3 as int);
                        }
                        match crate::model::utf8_to_string(kb.as_slice()) {
                            None => None,
                            Some(ks) => match crate::model::utf8_to_string(vb.as_slice()) {
                                None => None,
                                Some(vss) => Some(Behavior::Put { key: ks, value: vss }),
                            },
                        }
                    },
                }
            },
        }
    } else if has_prefix(line, 0, &remp) {
        match parse_jstring_at(line, 18) {
            None => None,
            Some((kb, p2)) => {
                if line.len() - p2 != 2 || line[p2] != 125 || line[p2 + 1] != 125 {
                    proof {
                        lemma_close_check(line@, p2 as int);
                    }
                    return None;
                }
                proof {
                    lemma_close_check(line@, p2 as int);
                }
                match crate::model::utf8_to_string(kb.as_slice()) {
                    None => None,
                    Some(ks) => Some(Behavior::Remove { key: ks }),
                }
            },
        }
    } else if has_prefix(line, 0, &getp) {
        match parse_jstring_at(line, 15) {
            None => None,
            Some((kb, p2)) => {
                if line.len() - p2 != 2 || line[p2] != 125 || line[p2 + 1] != 125 {
                    proof {
                        lemma_close_check(line@, p2 as int);
                    }
                    return None;
                }
                proof {
                    lemma_close_check(line@, p2 as int);
                }
                match crate::model::utf8_to_string(kb.as_slice()) {
                    None => None,
                    Some(ks) => Some(Behavior::Get { key: ks }),
                }
            },
        }
    } else {
        None
    }
}

/// The record close `}}` stands at `p` exactly when the two bytes there
/// are braces.
proof fn lemma_close_check(line: Seq<u8>, p: int)
    requires
        0 <= p <= line.len(),
    ensures
        starts_with(line.skip(p), rec_close()) <==> (p + 2 <= line.len() && line[p] == 125 && p + 1
            < line.len() && line[p + 1] == 125),
{
    let t = line.skip(p);
    if p + 2 <= line.len() && line[p] == 125 && line[p + 1] == 125 {
        assert(t.subrange(0, 2) =~= rec_close());
    }
    if starts_with(t, rec_close()) {
        assert(t.subrange(0, 2)[0] == t[0]);
        assert(t.subrange(0, 2)[1] == t[1]);
    }
}

} // verus!
