//! Segment records: the mutations a segment file stores, their framed
//! encoding, and the streaming decode that recovers record boundaries.
//!
//! A record is one of two JSON objects, written without interior whitespace:
//! `{"Set":{"key":"..","value":".."}}` or `{"Remove":{"key":".."}}`. The
//! decoder is strict: it accepts exactly the encoder's output, reports the
//! byte offsets before and after each record, and stops at the first
//! malformed byte, so a half-written tail never prevents a load.

use vstd::prelude::*;

use crate::codec::{
    escape, escape_bytes, match_at, match_bytes, parse_estr, parse_string_at, bytes_to_string,
    lemma_parse_estr_canonical, lemma_parse_estr_of_escape, lemma_parse_estr_extend, QUOTE,
};

verus! {

use vstd::string::StrSliceExecFns;
use vstd::string::StringSliceAdditionalSpecFns;
use vstd::utf8::{encode_utf8, decode_utf8, valid_utf8};

/// One mutation, as stored in a segment.
pub enum Command {
    Put { key: String, value: String },
    Remove { key: String },
}

/// The mathematical form of a [`Command`].
pub enum CommandV {
    Put { key: Seq<char>, value: Seq<char> },
    Remove { key: Seq<char> },
}

impl View for Command {
    type V = CommandV;

    open spec fn view(&self) -> CommandV {
        match self {
            Command::Put { key, value } => CommandV::Put { key: key@, value: value@ },
            Command::Remove { key } => CommandV::Remove { key: key@ },
        }
    }
}

/// `{"Set":{"key":"`
pub open spec fn lit_set_open() -> Seq<u8> {
    seq![123u8, 34u8, 83u8, 101u8, 116u8, 34u8, 58u8, 123u8, 34u8, 107u8, 101u8, 121u8, 34u8, 58u8, 34u8]
}

/// `{"Remove":{"key":"`
pub open spec fn lit_rm_open() -> Seq<u8> {
    seq![123u8, 34u8, 82u8, 101u8, 109u8, 111u8, 118u8, 101u8, 34u8, 58u8, 123u8, 34u8, 107u8, 101u8, 121u8, 34u8, 58u8, 34u8]
}

/// `,"value":"`
pub open spec fn lit_val_mid() -> Seq<u8> {
    seq![44u8, 34u8, 118u8, 97u8, 108u8, 117u8, 101u8, 34u8, 58u8, 34u8]
}

/// `}}`
pub open spec fn lit_close() -> Seq<u8> {
    seq![125u8, 125u8]
}

pub fn set_open_vec() -> (v: Vec<u8>)
    ensures
        v@ == lit_set_open(),
{
    let v: Vec<u8> = vec![123u8, 34u8, 83u8, 101u8, 116u8, 34u8, 58u8, 123u8, 34u8, 107u8, 101u8, 121u8, 34u8, 58u8, 34u8];
    proof {
        assert(v@ =~= lit_set_open());
    }
    v
}

pub fn rm_open_vec() -> (v: Vec<u8>)
    ensures
        v@ == lit_rm_open(),
{
    let v: Vec<u8> = vec![123u8, 34u8, 82u8, 101u8, 109u8, 111u8, 118u8, 101u8, 34u8, 58u8, 123u8, 34u8, 107u8, 101u8, 121u8, 34u8, 58u8, 34u8];
    proof {
        assert(v@ =~= lit_rm_open());
    }
    v
}

pub fn val_mid_vec() -> (v: Vec<u8>)
    ensures
        v@ == lit_val_mid(),
{
    let v: Vec<u8> = vec![44u8, 34u8, 118u8, 97u8, 108u8, 117u8, 101u8, 34u8, 58u8, 34u8];
    proof {
        assert(v@ =~= lit_val_mid());
    }
    v
}

pub fn close_vec() -> (v: Vec<u8>)
    ensures
        v@ == lit_close(),
{
    let v: Vec<u8> = vec![125u8, 125u8];
    proof {
        assert(v@ =~= lit_close());
    }
    v
}

/// The exact bytes a command is written as.
pub open spec fn spec_encode_bytes(c: CommandV) -> Seq<u8> {
    match c {
        CommandV::Put { key, value } => lit_set_open() + escape(encode_utf8(key)) + seq![QUOTE]
            + lit_val_mid() + escape(encode_utf8(value)) + seq![QUOTE] + lit_close(),
        CommandV::Remove { key } => lit_rm_open() + escape(encode_utf8(key)) + seq![QUOTE]
            + lit_close(),
    }
}

/// Decode one command starting at `i`: the command and the offset just after
/// it, or `None` where no canonical record starts at `i`.
pub open spec fn spec_decode(d: Seq<u8>, i: int) -> Option<(CommandV, int)> {
    if match_at(d, i, lit_set_open()) {
        match parse_estr(d, i + 15) {
            Some((kb, j)) => if valid_utf8(kb) && match_at(d, j, lit_val_mid()) {
                match parse_estr(d, j + 10) {
                    Some((vb, m)) => if valid_utf8(vb) && match_at(d, m, lit_close()) {
                        Some((CommandV::Put { key: decode_utf8(kb), value: decode_utf8(vb) }, m + 2))
                    } else {
                        None
                    },
                    None => None,
                }
            } else {
                None
            },
            None => None,
        }
    } else if match_at(d, i, lit_rm_open()) {
        match parse_estr(d, i + 18) {
            Some((kb, j)) => if valid_utf8(kb) && match_at(d, j, lit_close()) {
                Some((CommandV::Remove { key: decode_utf8(kb) }, j + 2))
            } else {
                None
            },
            None => None,
        }
    } else {
        None
    }
}

/// `d[i..j] == d[i..m] + d[m..j]`.
proof fn lemma_subrange_split(d: Seq<u8>, i: int, m: int, j: int)
    requires
        0 <= i <= m <= j <= d.len(),
    ensures
        d.subrange(i, j) == d.subrange(i, m) + d.subrange(m, j),
{
    assert(d.subrange(i, j) =~= d.subrange(i, m) + d.subrange(m, j));
}

/// A successful decode consumed exactly the canonical encoding of its result.
pub proof fn lemma_spec_decode_canonical(d: Seq<u8>, i: int)
    requires
        spec_decode(d, i) is Some,
    ensures
        ({
            let (c, j) = spec_decode(d, i)->Some_0;
            &&& 0 <= i < j <= d.len()
            &&& j == i + spec_encode_bytes(c).len()
            &&& d.subrange(i, j) == spec_encode_bytes(c)
        }),
{
    let (c, end) = spec_decode(d, i)->Some_0;
    if match_at(d, i, lit_set_open()) {
        let (kb, j) = parse_estr(d, i + 15)->Some_0;
        lemma_parse_estr_canonical(d, i + 15);
        let (vb, m) = parse_estr(d, j + 10)->Some_0;
        lemma_parse_estr_canonical(d, j + 10);
        vstd::utf8::decode_utf8_encode_utf8(kb);
        vstd::utf8::decode_utf8_encode_utf8(vb);
        assert(encode_utf8(decode_utf8(kb)) == kb);
        assert(encode_utf8(decode_utf8(vb)) == vb);
        lemma_subrange_split(d, i, i + 15, end);
        lemma_subrange_split(d, i + 15, j, end);
        lemma_subrange_split(d, j, j + 10, end);
        lemma_subrange_split(d, j + 10, m, end);
        assert(d.subrange(i, i + 15) == lit_set_open());
        assert(d.subrange(i + 15, j) == escape(kb) + seq![QUOTE]);
        assert(d.subrange(j, j + 10) == lit_val_mid());
        assert(d.subrange(j + 10, m) == escape(vb) + seq![QUOTE]);
        assert(d.subrange(m, end) == lit_close());
        assert(d.subrange(i, end) =~= lit_set_open() + escape(kb) + seq![QUOTE] + lit_val_mid()
            + escape(vb) + seq![QUOTE] + lit_close()) by {
            assert(d.subrange(i, end) == d.subrange(i, i + 15) + (d.subrange(i + 15, j) + (
            d.subrange(j, j + 10) + (d.subrange(j + 10, m) + d.subrange(m, end)))));
        };
        assert(spec_encode_bytes(c) == lit_set_open() + escape(kb) + seq![QUOTE] + lit_val_mid()
            + escape(vb) + seq![QUOTE] + lit_close());
    } else {
        let (kb, j) = parse_estr(d, i + 18)->Some_0;
        lemma_parse_estr_canonical(d, i + 18);
        vstd::utf8::decode_utf8_encode_utf8(kb);
        assert(encode_utf8(decode_utf8(kb)) == kb);
        lemma_subrange_split(d, i, i + 18, end);
        lemma_subrange_split(d, i + 18, j, end);
        assert(d.subrange(i, i + 18) == lit_rm_open());
        assert(d.subrange(i + 18, j) == escape(kb) + seq![QUOTE]);
        assert(d.subrange(j, end) == lit_close());
        assert(d.subrange(i, end) =~= lit_rm_open() + escape(kb) + seq![QUOTE] + lit_close()) by {
            assert(d.subrange(i, end) == d.subrange(i, i + 18) + (d.subrange(i + 18, j)
                + d.subrange(j, end)));
        };
        assert(spec_encode_bytes(c) == lit_rm_open() + escape(kb) + seq![QUOTE] + lit_close());
    }
}

/// Read `e.subrange(a, b)` out of `d` when `e` stands at `i` in `d`.
proof fn lemma_region_piece(d: Seq<u8>, i: int, e: Seq<u8>, a: int, b: int)
    requires
        0 <= i,
        i + e.len() <= d.len(),
        d.subrange(i, i + e.len()) == e,
        0 <= a <= b <= e.len(),
    ensures
        d.subrange(i + a, i + b) == e.subrange(a, b),
{
    assert(forall|k: int| 0 <= k < e.len() ==> d[i + k] == e[k]) by {
        assert(forall|k: int|
            0 <= k < e.len() ==> #[trigger] d.subrange(i, i + e.len())[k] == d[i + k]);
    };
    assert(d.subrange(i + a, i + b) =~= e.subrange(a, b));
}

/// Wherever the canonical encoding of `c` stands, decoding recovers `c`.
pub proof fn lemma_spec_decode_encode(d: Seq<u8>, i: int, c: CommandV)
    requires
        0 <= i,
        i + spec_encode_bytes(c).len() <= d.len(),
        d.subrange(i, i + spec_encode_bytes(c).len()) == spec_encode_bytes(c),
    ensures
        spec_decode(d, i) == Some((c, i + spec_encode_bytes(c).len())),
{
    let e = spec_encode_bytes(c);
    let end = i + e.len();
    match c {
        CommandV::Put { key, value } => {
            let kb = encode_utf8(key);
            let vb = encode_utf8(value);
            let ek = escape(kb);
            let ev = escape(vb);
            let j = i + 15 + ek.len() as int + 1;
            let m = j + 10 + ev.len() + 1;
            assert(e == lit_set_open() + ek + seq![QUOTE] + lit_val_mid() + ev + seq![QUOTE]
                + lit_close());
            assert(e.subrange(0, 15) =~= lit_set_open());
            assert(e.subrange(15, 15 + ek.len() as int + 1) =~= ek + seq![QUOTE]);
            assert(e.subrange(j - i, j - i + 10) =~= lit_val_mid());
            assert(e.subrange(j - i + 10, m - i) =~= ev + seq![QUOTE]);
            assert(e.subrange(m - i, m - i + 2) =~= lit_close());
            lemma_region_piece(d, i, e, 0, 15);
            lemma_region_piece(d, i, e, 15, 15 + ek.len() as int + 1);
            lemma_region_piece(d, i, e, j - i, j - i + 10);
            lemma_region_piece(d, i, e, j - i + 10, m - i);
            lemma_region_piece(d, i, e, m - i, m - i + 2);
            assert(match_at(d, i, lit_set_open()));
            lemma_parse_estr_of_escape(d, i + 15, kb);
            assert(parse_estr(d, i + 15) == Some((kb, j)));
            vstd::utf8::encode_utf8_valid_utf8(key);
            vstd::utf8::encode_utf8_decode_utf8(key);
            assert(match_at(d, j, lit_val_mid()));
            lemma_parse_estr_of_escape(d, j + 10, vb);
            assert(parse_estr(d, j + 10) == Some((vb, m)));
            vstd::utf8::encode_utf8_valid_utf8(value);
            vstd::utf8::encode_utf8_decode_utf8(value);
            assert(match_at(d, m, lit_close()));
            assert(spec_decode(d, i) == Some(
                (CommandV::Put { key: decode_utf8(kb), value: decode_utf8(vb) }, m + 2),
            ));
            assert(decode_utf8(kb) == key && decode_utf8(vb) == value);
            assert(m + 2 == end);
        },
        CommandV::Remove { key } => {
            let kb = encode_utf8(key);
            let ek = escape(kb);
            let j = i + 18 + ek.len() as int + 1;
            assert(e == lit_rm_open() + ek + seq![QUOTE] + lit_close());
            assert(e.subrange(0, 18) =~= lit_rm_open());
            assert(e.subrange(18, 18 + ek.len() as int + 1) =~= ek + seq![QUOTE]);
            assert(e.subrange(j - i, j - i + 2) =~= lit_close());
            lemma_region_piece(d, i, e, 0, 18);
            lemma_region_piece(d, i, e, 18, 18 + ek.len() as int + 1);
            lemma_region_piece(d, i, e, j - i, j - i + 2);
            assert(match_at(d, i, lit_rm_open()));
            // the set prefix does not match: the bytes differ at offset 2
            assert(!match_at(d, i, lit_set_open())) by {
                if match_at(d, i, lit_set_open()) {
                    assert(d.subrange(i, i + 15)[2] == lit_set_open()[2]);
                    assert(d.subrange(i, i + 18)[2] == lit_rm_open()[2]);
                    assert(d[i + 2] == 83 && d[i + 2] == 82);
                }
            };
            lemma_parse_estr_of_escape(d, i + 18, kb);
            assert(parse_estr(d, i + 18) == Some((kb, j)));
            vstd::utf8::encode_utf8_valid_utf8(key);
            vstd::utf8::encode_utf8_decode_utf8(key);
            assert(match_at(d, j, lit_close()));
            assert(spec_decode(d, i) == Some((CommandV::Remove { key: decode_utf8(kb) }, j + 2)));
            assert(decode_utf8(kb) == key);
            assert(j + 2 == end);
        },
    }
}

/// A successful decode stays the same when the data is extended on the right.
pub proof fn lemma_spec_decode_extend(d1: Seq<u8>, d2: Seq<u8>, i: int)
    requires
        d1.len() <= d2.len(),
        d2.subrange(0, d1.len() as int) == d1,
        spec_decode(d1, i) is Some,
    ensures
        spec_decode(d2, i) == spec_decode(d1, i),
{
    assert(forall|k: int| 0 <= k < d1.len() ==> d2[k] == d1[k]) by {
        assert(forall|k: int| 0 <= k < d1.len() ==> d1[k] == d2.subrange(0, d1.len() as int)[k]);
    };
    assert(forall|a: int, lit: Seq<u8>|
        match_at(d1, a, lit) ==> #[trigger] match_at(d2, a, lit)) by {
        assert forall|a: int, lit: Seq<u8>| match_at(d1, a, lit) implies #[trigger] match_at(
            d2,
            a,
            lit,
        ) by {
            assert(d2.subrange(a, a + lit.len()) =~= d1.subrange(a, a + lit.len()));
        };
    };
    if match_at(d1, i, lit_set_open()) {
        let (kb, j) = parse_estr(d1, i + 15)->Some_0;
        lemma_parse_estr_extend(d1, d2, i + 15);
        let (vb, m) = parse_estr(d1, j + 10)->Some_0;
        lemma_parse_estr_extend(d1, d2, j + 10);
    } else {
        // remove branch; the set prefix fails on content, so it fails in d2 too
        assert(match_at(d1, i, lit_rm_open()));
        assert(!match_at(d2, i, lit_set_open())) by {
            if match_at(d2, i, lit_set_open()) {
                assert(d2.subrange(i, i + 15)[2] == lit_set_open()[2]);
                assert(d1.subrange(i, i + 18)[2] == lit_rm_open()[2]);
                assert(d2[i + 2] == 83 && d1[i + 2] == 82);
            }
        };
        let (kb, j) = parse_estr(d1, i + 18)->Some_0;
        lemma_parse_estr_extend(d1, d2, i + 18);
    }
}

/// Encode a command into the exact bytes of [`spec_encode_bytes`].
pub fn encode_command(c: &Command) -> (out: Vec<u8>)
    ensures
        out@ == spec_encode_bytes(c@),
{
    match c {
        Command::Put { key, value } => {
            let mut out = set_open_vec();
            let kb = key.as_str().as_bytes_vec();
            let mut ek = escape_bytes(&kb);
            out.append(&mut ek);
            out.push(QUOTE);
            let mut mid = val_mid_vec();
            out.append(&mut mid);
            let vb = value.as_str().as_bytes_vec();
            let mut ev = escape_bytes(&vb);
            out.append(&mut ev);
            out.push(QUOTE);
            let mut cl = close_vec();
            out.append(&mut cl);
            proof {
                assert(out@ =~= spec_encode_bytes(c@));
            }
            out
        },
        Command::Remove { key } => {
            let mut out = rm_open_vec();
            let kb = key.as_str().as_bytes_vec();
            let mut ek = escape_bytes(&kb);
            out.append(&mut ek);
            out.push(QUOTE);
            let mut cl = close_vec();
            out.append(&mut cl);
            proof {
                assert(out@ =~= spec_encode_bytes(c@));
            }
            out
        },
    }
}

/// Decode one command at `pos`; on success also return the offset after it.
pub fn decode_command(d: &Vec<u8>, pos: usize) -> (r: Option<(Command, usize)>)
    ensures
        match r {
            Some(p) => spec_decode(d@, pos as int) == Some((p.0@, p.1 as int)),
            None => spec_decode(d@, pos as int) is None,
        },
{
    let n = d.len();
    let so = set_open_vec();
    let ro = rm_open_vec();
    if match_bytes(d, pos, &so) {
        assert(pos + 15 <= n);
        match parse_string_at(d, pos + 15) {
            Some((kb, j)) => {
                let ghost kbv = kb@;
                let key = match bytes_to_string(kb) {
                    Some(s) => s,
                    None => {
                        return None;
                    },
                };
                let vm = val_mid_vec();
                if match_bytes(d, j, &vm) {
                    match parse_string_at(d, j + 10) {
                        Some((vb, m)) => {
                            let ghost vbv = vb@;
                            let value = match bytes_to_string(vb) {
                                Some(s) => s,
                                None => {
                                    return None;
                                },
                            };
                            let cl = close_vec();
                            if match_bytes(d, m, &cl) {
                                Some((Command::Put { key, value }, m + 2))
                            } else {
                                None
                            }
                        },
                        None => None,
                    }
                } else {
                    None
                }
            },
            None => None,
        }
    } else if match_bytes(d, pos, &ro) {
        assert(pos + 18 <= n);
        match parse_string_at(d, pos + 18) {
            Some((kb, j)) => {
                let ghost kbv = kb@;
                let key = match bytes_to_string(kb) {
                    Some(s) => s,
                    None => {
                        return None;
                    },
                };
                let cl = close_vec();
                if match_bytes(d, j, &cl) {
                    assert(j + 2 <= n);
                    Some((Command::Remove { key }, j + 2))
                } else {
                    None
                }
            },
            None => None,
        }
    } else {
        None
    }
}

/// All records of `d` from offset `i` on, each as `(pos, len, command)`,
/// up to the first offset where no canonical record starts.
pub open spec fn records_from(d: Seq<u8>, i: int) -> Seq<(int, int, CommandV)>
    decreases d.len() - i,
{
    match spec_decode(d, i) {
        Some((c, j)) => if i < j <= d.len() {
            seq![(i, j - i, c)] + records_from(d, j)
        } else {
            Seq::empty()
        },
        None => Seq::empty(),
    }
}

/// The offset where decoding from `i` stops.
pub open spec fn log_end(d: Seq<u8>, i: int) -> int
    decreases d.len() - i,
{
    match spec_decode(d, i) {
        Some((c, j)) => if i < j <= d.len() {
            log_end(d, j)
        } else {
            i
        },
        None => i,
    }
}

/// Every listed record decodes at its recorded offset to its recorded length.
pub proof fn lemma_records_from_decode(d: Seq<u8>, i: int)
    ensures
        forall|n: int|
            0 <= n < records_from(d, i).len() ==> {
                let (pos, len, c) = #[trigger] records_from(d, i)[n];
                &&& 0 <= pos
                &&& 0 < len
                &&& pos + len <= d.len()
                &&& spec_decode(d, pos) == Some((c, pos + len))
            },
    decreases d.len() - i,
{
    match spec_decode(d, i) {
        Some((c, j)) => {
            if i < j <= d.len() {
                lemma_records_from_decode(d, j);
                assert(forall|n: int|
                    1 <= n < records_from(d, i).len() ==> records_from(d, i)[n] == records_from(
                        d,
                        j,
                    )[n - 1]);
            }
        },
        None => {},
    }
}

/// No record can start where fewer than 15 bytes remain.
proof fn lemma_decode_none_short(d: Seq<u8>, i: int)
    requires
        i + 15 > d.len(),
    ensures
        spec_decode(d, i) is None,
{
    assert(lit_set_open().len() == 15);
    assert(lit_rm_open().len() == 18);
}

/// Every encoding is longer than its literal frame alone.
proof fn lemma_encode_len(c: CommandV)
    ensures
        spec_encode_bytes(c).len() >= 17,
{
}

/// The base of [`lemma_records_append`]: decoding the appended record itself.
#[verifier::spinoff_prover]
proof fn lemma_records_append_base(d: Seq<u8>, c: CommandV)
    ensures
        records_from(d + spec_encode_bytes(c), d.len() as int) == seq![
            (d.len() as int, spec_encode_bytes(c).len() as int, c),
        ],
        log_end(d + spec_encode_bytes(c), d.len() as int) == d.len()
            + spec_encode_bytes(c).len(),
{
    let e = spec_encode_bytes(c);
    let d2 = d + e;
    let i = d.len() as int;
    let end = i + e.len() as int;
    assert(d2.subrange(i, i + e.len()) =~= e);
    lemma_spec_decode_encode(d2, i, c);
    lemma_encode_len(c);
    lemma_decode_none_short(d2, end);
    assert(records_from(d2, end) == Seq::<(int, int, CommandV)>::empty());
    assert(log_end(d2, end) == end);
    assert(records_from(d2, i) == seq![(i, e.len() as int, c)] + records_from(d2, end));
    assert(seq![(i, e.len() as int, c)] + Seq::<(int, int, CommandV)>::empty() =~= seq![
        (i, e.len() as int, c),
    ]);
    assert(log_end(d2, i) == log_end(d2, end));
}

/// Appending the encoding of one command to a fully decodable log appends
/// exactly that record to the decoded sequence.
#[verifier::spinoff_prover]
pub proof fn lemma_records_append(d: Seq<u8>, c: CommandV, i: int)
    requires
        0 <= i <= d.len(),
        log_end(d, i) == d.len(),
    ensures
        records_from(d + spec_encode_bytes(c), i) == records_from(d, i) + seq![
            (d.len() as int, spec_encode_bytes(c).len() as int, c),
        ],
        log_end(d + spec_encode_bytes(c), i) == d.len() + spec_encode_bytes(c).len(),
    decreases d.len() - i,
{
    let e = spec_encode_bytes(c);
    let d2 = d + e;
    assert(d2.subrange(0, d.len() as int) =~= d);
    match spec_decode(d, i) {
        Some((c0, j)) => {
            lemma_spec_decode_canonical(d, i);
            lemma_spec_decode_extend(d, d2, i);
            lemma_records_append(d, c, j);
            assert(records_from(d2, i) =~= records_from(d, i) + seq![
                (d.len() as int, e.len() as int, c),
            ]);
        },
        None => {
            assert(log_end(d, i) == i);
            assert(i == d.len());
            lemma_records_append_base(d, c);
            assert(records_from(d, i) =~= Seq::empty());
            assert(records_from(d2, i) =~= records_from(d, i) + seq![
                (d.len() as int, e.len() as int, c),
            ]);
        },
    }
}

/// A record round-trips through its encoding, empty key and value included:
/// decoding the encoder's output returns exactly the encoded command.
pub proof fn lemma_record_round_trip(c: CommandV)
    ensures
        spec_decode(spec_encode_bytes(c), 0) == Some(
            (c, spec_encode_bytes(c).len() as int),
        ),
{
    let e = spec_encode_bytes(c);
    assert(e.subrange(0, e.len() as int) =~= e);
    lemma_spec_decode_encode(e, 0, c);
}

/// The tag byte that tells the two record forms apart.
pub proof fn lemma_encode_first_bytes(c: CommandV)
    ensures
        spec_encode_bytes(c).len() >= 17,
        spec_encode_bytes(c)[2] == (match c {
            CommandV::Put { .. } => 83u8,
            CommandV::Remove { .. } => 82u8,
        }),
{
    match c {
        CommandV::Put { key, value } => {
            let e = spec_encode_bytes(c);
            assert(e[2] == lit_set_open()[2]);
        },
        CommandV::Remove { key } => {
            let e = spec_encode_bytes(c);
            assert(e[2] == lit_rm_open()[2]);
        },
    }
}

/// Truncating a log can only drop a suffix of its records: whatever decodes
/// from a prefix of the data is a prefix of what decodes from all of it.
pub proof fn lemma_records_prefix(d1: Seq<u8>, d2: Seq<u8>, i: int)
    requires
        d1.len() <= d2.len(),
        d2.subrange(0, d1.len() as int) == d1,
    ensures
        records_from(d1, i).is_prefix_of(records_from(d2, i)),
    decreases d1.len() - i,
{
    match spec_decode(d1, i) {
        Some((c, j)) => {
            lemma_spec_decode_canonical(d1, i);
            lemma_spec_decode_extend(d1, d2, i);
            lemma_records_prefix(d1, d2, j);
            let r1 = records_from(d1, i);
            let r2 = records_from(d2, i);
            assert(r1 =~= seq![(i, j - i, c)] + records_from(d1, j));
            assert(r2 =~= seq![(i, j - i, c)] + records_from(d2, j));
            assert(r1 =~= r2.subrange(0, r1.len() as int)) by {
                assert(records_from(d1, j) == records_from(d2, j).subrange(
                    0,
                    records_from(d1, j).len() as int,
                ));
            };
        },
        None => {
            assert(records_from(d1, i) =~= Seq::empty());
            assert(records_from(d1, i).is_prefix_of(records_from(d2, i)));
        },
    }
}

} // verus!
