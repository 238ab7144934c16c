//! Byte-level framing shared by segment records and the wire protocol.
//!
//! Records are framed as compact JSON objects over UTF-8 text. This module
//! holds the string-literal layer: escaping a byte sequence so it can stand
//! between quotes, and the strict parser that undoes it. The parser accepts
//! exactly the encoder's output, so every parsed region has a unique
//! canonical form; that is what lets the store re-read a record from its
//! recorded byte range.

use vstd::prelude::*;

verus! {

pub const QUOTE: u8 = 34;

pub const BACKSLASH: u8 = 92;

/// A byte that may stand for itself inside a quoted string.
pub open spec fn is_plain(b: u8) -> bool {
    b != QUOTE && b != BACKSLASH && b >= 32
}

/// Lowercase hex digit for a nibble.
pub open spec fn hex_digit(n: u8) -> u8 {
    if n < 10 {
        (48 + n) as u8
    } else {
        (87 + n) as u8
    }
}

pub open spec fn is_hex_digit_byte(c: u8) -> bool {
    (48 <= c && c <= 57) || (97 <= c && c <= 102)
}

pub open spec fn hex_val(c: u8) -> u8 {
    if c <= 57 {
        (c - 48) as u8
    } else {
        (c - 87) as u8
    }
}

/// The two hex digits of a `\u00..` escape for a control byte.
pub open spec fn is_ctrl_hex(h: u8, l: u8) -> bool {
    (h == 48 || h == 49) && is_hex_digit_byte(l)
}

pub open spec fn ctrl_of(h: u8, l: u8) -> u8 {
    (hex_val(h) * 16 + hex_val(l)) as u8
}

/// How one byte is written inside a quoted string: quotes and backslashes
/// get a backslash escape, control bytes a `\u00..` escape, the rest stand
/// as they are.
pub open spec fn escape_byte(b: u8) -> Seq<u8> {
    if b == QUOTE {
        seq![BACKSLASH, QUOTE]
    } else if b == BACKSLASH {
        seq![BACKSLASH, BACKSLASH]
    } else if b < 32 {
        seq![BACKSLASH, 117u8, 48u8, 48u8, hex_digit(b / 16), hex_digit(b % 16)]
    } else {
        seq![b]
    }
}

/// The quoted-string form of a byte sequence, without the closing quote.
pub open spec fn escape(s: Seq<u8>) -> Seq<u8>
    decreases s.len(),
{
    if s.len() == 0 {
        Seq::empty()
    } else {
        escape_byte(s[0]) + escape(s.drop_first())
    }
}

/// `lit` occurs in `d` starting at `i`.
pub open spec fn match_at(d: Seq<u8>, i: int, lit: Seq<u8>) -> bool {
    0 <= i && i + lit.len() <= d.len() && d.subrange(i, i + lit.len()) == lit
}

pub open spec fn estr_cons(b: u8, r: Option<(Seq<u8>, int)>) -> Option<(Seq<u8>, int)> {
    match r {
        Some((s, j)) => Some((seq![b] + s, j)),
        None => None,
    }
}

/// Parse the contents of a quoted string starting at `i` (just after the
/// opening quote), up to and including the closing quote. Returns the
/// unescaped bytes and the position after the closing quote. Only the
/// encoder's canonical escapes are accepted.
pub open spec fn parse_estr(d: Seq<u8>, i: int) -> Option<(Seq<u8>, int)>
    decreases d.len() - i,
{
    if i < 0 || i >= d.len() {
        None
    } else if d[i] == QUOTE {
        Some((Seq::empty(), i + 1))
    } else if is_plain(d[i]) {
        estr_cons(d[i], parse_estr(d, i + 1))
    } else if d[i] == BACKSLASH {
        if i + 2 <= d.len() && (d[i + 1] == QUOTE || d[i + 1] == BACKSLASH) {
            estr_cons(d[i + 1], parse_estr(d, i + 2))
        } else if i + 6 <= d.len() && d[i + 1] == 117 && d[i + 2] == 48 && d[i + 3] == 48
            && is_ctrl_hex(d[i + 4], d[i + 5]) && ctrl_of(d[i + 4], d[i + 5]) < 32 {
            estr_cons(ctrl_of(d[i + 4], d[i + 5]), parse_estr(d, i + 6))
        } else {
            None
        }
    } else {
        None
    }
}

pub proof fn lemma_escape_concat(s1: Seq<u8>, s2: Seq<u8>)
    ensures
        escape(s1 + s2) == escape(s1) + escape(s2),
    decreases s1.len(),
{
    if s1.len() == 0 {
        assert(s1 + s2 =~= s2);
        assert(escape(s1) + escape(s2) =~= escape(s2));
    } else {
        assert((s1 + s2).drop_first() =~= s1.drop_first() + s2);
        lemma_escape_concat(s1.drop_first(), s2);
        assert((s1 + s2)[0] == s1[0]);
        assert(escape_byte(s1[0]) + (escape(s1.drop_first()) + escape(s2)) =~= (escape_byte(s1[0])
            + escape(s1.drop_first())) + escape(s2));
    }
}

proof fn lemma_hex_digit_inverts(v: u8)
    requires
        v < 16,
    ensures
        is_hex_digit_byte(hex_digit(v)),
        hex_val(hex_digit(v)) == v,
{
}

proof fn lemma_ctrl_split(b: u8)
    requires
        b < 32,
    ensures
        hex_digit(b / 16) == 48 || hex_digit(b / 16) == 49,
        is_hex_digit_byte(hex_digit(b % 16)),
        ctrl_of(hex_digit(b / 16), hex_digit(b % 16)) == b,
{
    assert(b / 16 < 2);
    assert(b % 16 < 16);
    lemma_hex_digit_inverts((b / 16) as u8);
    lemma_hex_digit_inverts((b % 16) as u8);
    assert((b / 16) * 16 + b % 16 == b) by {
        assert(b / 16 == if b < 16 { 0int } else { 1int });
    };
}

/// A successful parse consumed exactly the canonical escape of its result,
/// closing quote included.
pub proof fn lemma_parse_estr_canonical(d: Seq<u8>, i: int)
    requires
        parse_estr(d, i) is Some,
    ensures
        ({
            let (s, j) = parse_estr(d, i)->Some_0;
            &&& 0 <= i < j <= d.len()
            &&& j == i + escape(s).len() + 1
            &&& d.subrange(i, j) == escape(s) + seq![QUOTE]
        }),
    decreases d.len() - i,
{
    let (s, j) = parse_estr(d, i)->Some_0;
    if d[i] == QUOTE {
        assert(d.subrange(i, i + 1) =~= escape(s) + seq![QUOTE]);
    } else if is_plain(d[i]) {
        let (s1, _) = parse_estr(d, i + 1)->Some_0;
        lemma_parse_estr_canonical(d, i + 1);
        assert(s == seq![d[i]] + s1);
        assert(s[0] == d[i]);
        assert(s.drop_first() =~= s1);
        assert(escape(s) == escape_byte(d[i]) + escape(s1));
        assert(escape_byte(d[i]) =~= seq![d[i]]);
        assert(forall|k: int|
            0 <= k < j - (i + 1) ==> d[i + 1 + k] == (escape(s1) + seq![QUOTE])[k]) by {
            assert(forall|k: int|
                0 <= k < j - (i + 1) ==> #[trigger] d.subrange(i + 1, j)[k] == d[i + 1 + k]);
        };
        assert(escape(s) + seq![QUOTE] =~= escape_byte(d[i]) + (escape(s1) + seq![QUOTE]));
        assert(d.subrange(i, j) =~= escape(s) + seq![QUOTE]);
    } else {
        // backslash escapes
        if i + 2 <= d.len() && (d[i + 1] == QUOTE || d[i + 1] == BACKSLASH) {
            let b = d[i + 1];
            let (s1, _) = parse_estr(d, i + 2)->Some_0;
            lemma_parse_estr_canonical(d, i + 2);
            assert(s == seq![b] + s1);
            assert(s[0] == b);
            assert(s.drop_first() =~= s1);
            assert(escape_byte(b) =~= seq![BACKSLASH, b]);
            assert(forall|k: int|
                0 <= k < j - (i + 2) ==> d[i + 2 + k] == (escape(s1) + seq![QUOTE])[k]) by {
                assert(forall|k: int|
                    0 <= k < j - (i + 2) ==> #[trigger] d.subrange(i + 2, j)[k] == d[i + 2 + k]);
            };
            assert(escape(s) + seq![QUOTE] =~= escape_byte(b) + (escape(s1) + seq![QUOTE]));
            assert(d.subrange(i, j) =~= escape(s) + seq![QUOTE]);
        } else {
            let h = d[i + 4];
            let l = d[i + 5];
            let b = ctrl_of(h, l);
            let (s1, _) = parse_estr(d, i + 6)->Some_0;
            lemma_parse_estr_canonical(d, i + 6);
            assert(s == seq![b] + s1);
            assert(s[0] == b);
            assert(s.drop_first() =~= s1);
            assert(hex_digit(b / 16) == h && hex_digit(b % 16) == l) by {
                assert(hex_val(h) < 2 && hex_val(l) < 16);
                assert(b / 16 == hex_val(h) && b % 16 == hex_val(l)) by {
                    assert(b == hex_val(h) * 16 + hex_val(l));
                    assert(hex_val(h) == 0 || hex_val(h) == 1);
                };
                lemma_hex_digit_inverts(hex_val(h));
                lemma_hex_digit_inverts(hex_val(l));
                assert(hex_digit(hex_val(h)) == h);
                assert(hex_digit(hex_val(l)) == l);
            };
            assert(escape_byte(b) =~= seq![BACKSLASH, 117u8, 48u8, 48u8, h, l]);
            assert(forall|k: int|
                0 <= k < j - (i + 6) ==> d[i + 6 + k] == (escape(s1) + seq![QUOTE])[k]) by {
                assert(forall|k: int|
                    0 <= k < j - (i + 6) ==> #[trigger] d.subrange(i + 6, j)[k] == d[i + 6 + k]);
            };
            assert(escape(s) + seq![QUOTE] =~= escape_byte(b) + (escape(s1) + seq![QUOTE]));
            assert(d.subrange(i, j) =~= escape(s) + seq![QUOTE]);
        }
    }
}

/// Wherever the canonical escape of `s` plus a closing quote stands in `d`,
/// the parser recovers exactly `s`.
pub proof fn lemma_parse_estr_of_escape(d: Seq<u8>, i: int, s: Seq<u8>)
    requires
        0 <= i,
        i + escape(s).len() + 1 <= d.len(),
        d.subrange(i, i + escape(s).len() + 1) == escape(s) + seq![QUOTE],
    ensures
        parse_estr(d, i) == Some((s, i + escape(s).len() + 1)),
    decreases s.len(),
{
    let e = escape(s);
    let j = i + e.len() + 1;
    if s.len() == 0 {
        assert(d[i] == (escape(s) + seq![QUOTE])[0]);
        assert(d[i] == QUOTE);
    } else {
        let b = s[0];
        let s1 = s.drop_first();
        let eb = escape_byte(b);
        assert(e == eb + escape(s1));
        let pre = escape(s) + seq![QUOTE];
        assert(forall|k: int| 0 <= k < e.len() + 1 ==> d[i + k] == pre[k]) by {
            assert(forall|k: int| 0 <= k < pre.len() ==> d.subrange(i, j)[k] == pre[k]);
            assert(forall|k: int| 0 <= k < pre.len() ==> d.subrange(i, j)[k] == d[i + k]);
        };
        assert(pre =~= eb + (escape(s1) + seq![QUOTE]));
        assert(forall|k: int| 0 <= k < eb.len() ==> d[i + k] == eb[k]) by {
            assert(forall|k: int| 0 <= k < eb.len() ==> pre[k] == eb[k]);
        };
        let i1 = i + eb.len();
        assert(d.subrange(i1, j) =~= escape(s1) + seq![QUOTE]) by {
            assert(forall|k: int|
                0 <= k < j - i1 ==> d[i1 + k] == (escape(s1) + seq![QUOTE])[k]) by {
                assert(forall|k: int|
                    0 <= k < j - i1 ==> pre[eb.len() + k] == (escape(s1) + seq![QUOTE])[k]);
            };
        };
        lemma_parse_estr_of_escape(d, i1, s1);
        if b == QUOTE || b == BACKSLASH {
            assert(eb =~= seq![BACKSLASH, b]);
            assert(d[i] == eb[0] && d[i + 1] == eb[1]);
            assert(d[i] == BACKSLASH && d[i + 1] == b);
            assert(parse_estr(d, i) == estr_cons(b, parse_estr(d, i + 2)));
            assert(seq![b] + s1 =~= s);
        } else if b < 32 {
            assert(eb =~= seq![BACKSLASH, 117u8, 48u8, 48u8, hex_digit(b / 16), hex_digit(b % 16)]);
            assert(d[i] == eb[0] && d[i + 1] == eb[1] && d[i + 2] == eb[2] && d[i + 3] == eb[3]
                && d[i + 4] == eb[4] && d[i + 5] == eb[5]);
            assert(d[i] == BACKSLASH && d[i + 1] == 117 && d[i + 2] == 48 && d[i + 3] == 48);
            lemma_ctrl_split(b);
            assert(d[i + 4] == hex_digit(b / 16) && d[i + 5] == hex_digit(b % 16));
            assert(is_ctrl_hex(d[i + 4], d[i + 5]));
            assert(ctrl_of(d[i + 4], d[i + 5]) == b);
            assert(parse_estr(d, i) == estr_cons(b, parse_estr(d, i + 6)));
            assert(seq![b] + s1 =~= s);
        } else {
            assert(eb =~= seq![b]);
            assert(d[i] == eb[0]);
            assert(d[i] == b);
            assert(is_plain(b));
            assert(parse_estr(d, i) == estr_cons(b, parse_estr(d, i + 1)));
            assert(seq![b] + s1 =~= s);
        }
    }
}

fn hex_digit_exec(n: u8) -> (r: u8)
    requires
        n < 16,
    ensures
        r == hex_digit(n),
{
    if n < 10 {
        48 + n
    } else {
        87 + n
    }
}

/// Append the quoted-string form of `src` to a fresh buffer.
pub fn escape_bytes(src: &Vec<u8>) -> (out: Vec<u8>)
    ensures
        out@ == escape(src@),
{
    let mut out: Vec<u8> = Vec::new();
    let mut i: usize = 0;
    while i < src.len()
        invariant
            i <= src.len(),
            out@ == escape(src@.subrange(0, i as int)),
        decreases src.len() - i,
    {
        let b = src[i];
        proof {
            lemma_escape_concat(src@.subrange(0, i as int), seq![b]);
            assert(src@.subrange(0, i + 1) =~= src@.subrange(0, i as int) + seq![b]);
            assert(seq![b].drop_first() =~= Seq::<u8>::empty());
            assert(escape(Seq::<u8>::empty()) =~= Seq::<u8>::empty());
            assert(escape(seq![b]) == escape_byte(b) + escape(Seq::<u8>::empty()));
            assert(escape(seq![b]) =~= escape_byte(b));
        }
        if b == QUOTE {
            out.push(BACKSLASH);
            out.push(QUOTE);
        } else if b == BACKSLASH {
            out.push(BACKSLASH);
            out.push(BACKSLASH);
        } else if b < 32 {
            out.push(BACKSLASH);
            out.push(117);
            out.push(48);
            out.push(48);
            out.push(hex_digit_exec(b / 16));
            out.push(hex_digit_exec(b % 16));
        } else {
            out.push(b);
        }
        assert(out@ =~= escape(src@.subrange(0, i + 1)));
        i += 1;
    }
    assert(src@.subrange(0, src@.len() as int) =~= src@);
    out
}

/// Whether `lit` occurs in `d` starting at `i`.
pub fn match_bytes(d: &Vec<u8>, i: usize, lit: &Vec<u8>) -> (r: bool)
    ensures
        r == match_at(d@, i as int, lit@),
{
    if i > d.len() || d.len() - i < lit.len() {
        return false;
    }
    let mut k: usize = 0;
    while k < lit.len()
        invariant
            k <= lit.len(),
            i + lit.len() <= d.len(),
            forall|m: int| 0 <= m < k ==> d@[i + m] == lit@[m],
        decreases lit.len() - k,
    {
        if d[i + k] != lit[k] {
            assert(!match_at(d@, i as int, lit@)) by {
                assert(d@.subrange(i as int, i + lit@.len())[k as int] == d@[i + k]);
            };
            return false;
        }
        k += 1;
    }
    assert(d@.subrange(i as int, i + lit@.len()) =~= lit@);
    true
}

/// Parse a quoted-string body starting at `start`; on success return the
/// unescaped bytes and the position after the closing quote.
pub fn parse_string_at(d: &Vec<u8>, start: usize) -> (r: Option<(Vec<u8>, usize)>)
    ensures
        match r {
            Some(p) => parse_estr(d@, start as int) == Some((p.0@, p.1 as int)),
            None => parse_estr(d@, start as int) is None,
        },
{
    let mut out: Vec<u8> = Vec::new();
    let mut i: usize = start;
    if start >= d.len() {
        return None;
    }
    loop
        invariant
            start <= i <= d.len(),
            ({
                let pr = parse_estr(d@, start as int);
                let pi = parse_estr(d@, i as int);
                &&& (pr is Some <==> pi is Some)
                &&& (pr is Some ==> pr->Some_0.0 == out@ + pi->Some_0.0 && pr->Some_0.1
                    == pi->Some_0.1)
            }),
        decreases d.len() - i,
    {
        let ghost pr = parse_estr(d@, start as int);
        if i >= d.len() {
            return None;
        }
        let b = d[i];
        if b == QUOTE {
            assert(pr is Some ==> pr->Some_0.0 == out@) by {
                assert(out@ + Seq::<u8>::empty() =~= out@);
            };
            return Some((out, i + 1));
        } else if b != BACKSLASH && b >= 32 {
            let ghost pn = parse_estr(d@, i + 1);
            proof {
                assert(parse_estr(d@, i as int) == estr_cons(b, pn));
                if pn is Some {
                    assert(out@ + (seq![b] + pn->Some_0.0) =~= (out@ + seq![b]) + pn->Some_0.0);
                }
            }
            out.push(b);
            i += 1;
        } else if b == BACKSLASH {
            if d.len() - i > 1 && (d[i + 1] == QUOTE || d[i + 1] == BACKSLASH) {
                let c = d[i + 1];
                let ghost pn = parse_estr(d@, i + 2);
                proof {
                    assert(parse_estr(d@, i as int) == estr_cons(c, pn));
                    if pn is Some {
                        assert(out@ + (seq![c] + pn->Some_0.0) =~= (out@ + seq![c])
                            + pn->Some_0.0);
                    }
                }
                out.push(c);
                i += 2;
            } else if d.len() - i > 5 && d[i + 1] == 117 && d[i + 2] == 48 && d[i + 3] == 48 && (
            d[i + 4] == 48 || d[i + 4] == 49) && ((48 <= d[i + 5] && d[i + 5] <= 57) || (97 <= d[i
                + 5] && d[i + 5] <= 102)) {
                let h = d[i + 4];
                let l = d[i + 5];
                let hv = if h <= 57 {
                    h - 48
                } else {
                    h - 87
                };
                let lv = if l <= 57 {
                    l - 48
                } else {
                    l - 87
                };
                let c = hv * 16 + lv;
                assert(c == ctrl_of(h, l));
                if c < 32 {
                    let ghost pn = parse_estr(d@, i + 6);
                    proof {
                        assert(parse_estr(d@, i as int) == estr_cons(c, pn));
                        if pn is Some {
                            assert(out@ + (seq![c] + pn->Some_0.0) =~= (out@ + seq![c])
                                + pn->Some_0.0);
                        }
                    }
                    out.push(c);
                    i += 6;
                } else {
                    return None;
                }
            } else {
                return None;
            }
        } else {
            return None;
        }
    }
}

/// Relies on std's String::from_utf8: returns `Ok` exactly when the bytes
/// are valid UTF-8, and then the string is their decoding.
#[verifier::external_body]
pub fn bytes_to_string(v: Vec<u8>) -> (r: Option<String>)
    ensures
        match r {
            Some(s) => vstd::utf8::valid_utf8(v@) && s@ == vstd::utf8::decode_utf8(v@),
            None => !vstd::utf8::valid_utf8(v@),
        },
{
    match String::from_utf8(v) {
        Ok(s) => Some(s),
        Err(_) => None,
    }
}

/// A successful parse stays the same when the data is extended on the right.
pub proof fn lemma_parse_estr_extend(d1: Seq<u8>, d2: Seq<u8>, i: int)
    requires
        d1.len() <= d2.len(),
        d2.subrange(0, d1.len() as int) == d1,
        parse_estr(d1, i) is Some,
    ensures
        parse_estr(d2, i) == parse_estr(d1, i),
    decreases d1.len() - i,
{
    assert(forall|k: int| 0 <= k < d1.len() ==> d2[k] == d1[k]) by {
        assert(forall|k: int| 0 <= k < d1.len() ==> d1[k] == d2.subrange(0, d1.len() as int)[k]);
    };
    if d1[i] == QUOTE {
    } else if is_plain(d1[i]) {
        lemma_parse_estr_extend(d1, d2, i + 1);
    } else if i + 2 <= d1.len() && (d1[i + 1] == QUOTE || d1[i + 1] == BACKSLASH) {
        lemma_parse_estr_extend(d1, d2, i + 2);
    } else {
        lemma_parse_estr_extend(d1, d2, i + 6);
        assert(!(d2[i + 1] == QUOTE || d2[i + 1] == BACKSLASH));
    }
}

} // verus!
