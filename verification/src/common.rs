//! What client and server share: the request and response types, their wire
//! encodings (the same framed JSON the segments use), the CLI action types,
//! and the backend marker check.

use vstd::prelude::*;

use crate::codec::{
    escape, escape_bytes, match_at, match_bytes, parse_string_at, bytes_to_string,
    lemma_parse_estr_of_escape, QUOTE,
};
use crate::error::KVError;
use crate::records::{
    decode_command, lit_close, close_vec, spec_decode, spec_encode_bytes,
    lemma_spec_decode_encode, Command, CommandV,
};

verus! {

use vstd::string::StrSliceExecFns;
use vstd::string::StringSliceAdditionalSpecFns;
use vstd::utf8::{encode_utf8, decode_utf8, valid_utf8};

/// One request over the wire.
pub enum Request {
    Get { key: String },
    Put { key: String, value: String },
    Remove { key: String },
}

pub enum RequestV {
    Get { key: Seq<char> },
    Put { key: Seq<char>, value: Seq<char> },
    Remove { key: Seq<char> },
}

impl View for Request {
    type V = RequestV;

    open spec fn view(&self) -> RequestV {
        match self {
            Request::Get { key } => RequestV::Get { key: key@ },
            Request::Put { key, value } => RequestV::Put { key: key@, value: value@ },
            Request::Remove { key } => RequestV::Remove { key: key@ },
        }
    }
}

/// The reply to a `Get`: the value if any, or an error report.
pub enum GetResponse {
    Done(Option<String>),
    Failed(String),
}

pub enum GetResponseV {
    Done(Option<Seq<char>>),
    Failed(Seq<char>),
}

impl View for GetResponse {
    type V = GetResponseV;

    open spec fn view(&self) -> GetResponseV {
        match self {
            GetResponse::Done(o) => GetResponseV::Done(
                match o {
                    Some(v) => Some(v@),
                    None => None,
                },
            ),
            GetResponse::Failed(m) => GetResponseV::Failed(m@),
        }
    }
}

/// The reply to a `Set`.
pub enum SetResponse {
    Done,
    Failed(String),
}

pub enum SetResponseV {
    Done,
    Failed(Seq<char>),
}

impl View for SetResponse {
    type V = SetResponseV;

    open spec fn view(&self) -> SetResponseV {
        match self {
            SetResponse::Done => SetResponseV::Done,
            SetResponse::Failed(m) => SetResponseV::Failed(m@),
        }
    }
}

/// The reply to a `Remove`.
pub enum RmResponse {
    Done,
    Failed(String),
}

pub enum RmResponseV {
    Done,
    Failed(Seq<char>),
}

impl View for RmResponse {
    type V = RmResponseV;

    open spec fn view(&self) -> RmResponseV {
        match self {
            RmResponse::Done => RmResponseV::Done,
            RmResponse::Failed(m) => RmResponseV::Failed(m@),
        }
    }
}

/// `{"Get":{"key":"`
pub open spec fn lit_get_open() -> Seq<u8> {
    seq![123u8, 34u8, 71u8, 101u8, 116u8, 34u8, 58u8, 123u8, 34u8, 107u8, 101u8, 121u8, 34u8, 58u8, 34u8]
}

pub fn get_open_vec() -> (v: Vec<u8>)
    ensures
        v@ == lit_get_open(),
{
    let v: Vec<u8> = vec![123u8, 34u8, 71u8, 101u8, 116u8, 34u8, 58u8, 123u8, 34u8, 107u8, 101u8, 121u8, 34u8, 58u8, 34u8];
    proof {
        assert(v@ =~= lit_get_open());
    }
    v
}

/// `{"Ok":"`
pub open spec fn lit_ok_str() -> Seq<u8> {
    seq![123u8, 34u8, 79u8, 107u8, 34u8, 58u8, 34u8]
}

pub fn ok_str_vec() -> (v: Vec<u8>)
    ensures
        v@ == lit_ok_str(),
{
    let v: Vec<u8> = vec![123u8, 34u8, 79u8, 107u8, 34u8, 58u8, 34u8];
    proof {
        assert(v@ =~= lit_ok_str());
    }
    v
}

/// `{"Ok":null}`
pub open spec fn lit_ok_null() -> Seq<u8> {
    seq![123u8, 34u8, 79u8, 107u8, 34u8, 58u8, 110u8, 117u8, 108u8, 108u8, 125u8]
}

pub fn ok_null_vec() -> (v: Vec<u8>)
    ensures
        v@ == lit_ok_null(),
{
    let v: Vec<u8> = vec![123u8, 34u8, 79u8, 107u8, 34u8, 58u8, 110u8, 117u8, 108u8, 108u8, 125u8];
    proof {
        assert(v@ =~= lit_ok_null());
    }
    v
}

/// `{"Ok":[]}`
pub open spec fn lit_ok_unit() -> Seq<u8> {
    seq![123u8, 34u8, 79u8, 107u8, 34u8, 58u8, 91u8, 93u8, 125u8]
}

pub fn ok_unit_vec() -> (v: Vec<u8>)
    ensures
        v@ == lit_ok_unit(),
{
    let v: Vec<u8> = vec![123u8, 34u8, 79u8, 107u8, 34u8, 58u8, 91u8, 93u8, 125u8];
    proof {
        assert(v@ =~= lit_ok_unit());
    }
    v
}

/// `{"Err":"`
pub open spec fn lit_err_str() -> Seq<u8> {
    seq![123u8, 34u8, 69u8, 114u8, 114u8, 34u8, 58u8, 34u8]
}

pub fn err_str_vec() -> (v: Vec<u8>)
    ensures
        v@ == lit_err_str(),
{
    let v: Vec<u8> = vec![123u8, 34u8, 69u8, 114u8, 114u8, 34u8, 58u8, 34u8];
    proof {
        assert(v@ =~= lit_err_str());
    }
    v
}

/// The wire bytes of a request. `Set` and `Remove` requests look exactly
/// like the segment records of the same name.
pub open spec fn spec_encode_request(r: RequestV) -> Seq<u8> {
    match r {
        RequestV::Get { key } => lit_get_open() + escape(encode_utf8(key)) + seq![QUOTE]
            + lit_close(),
        RequestV::Put { key, value } => spec_encode_bytes(CommandV::Put { key, value }),
        RequestV::Remove { key } => spec_encode_bytes(CommandV::Remove { key }),
    }
}

/// Decode one request at `i`.
pub open spec fn spec_decode_request(d: Seq<u8>, i: int) -> Option<(RequestV, int)> {
    if match_at(d, i, lit_get_open()) {
        match crate::codec::parse_estr(d, i + 15) {
            Some((kb, j)) => if valid_utf8(kb) && match_at(d, j, lit_close()) {
                Some((RequestV::Get { key: decode_utf8(kb) }, j + 2))
            } else {
                None
            },
            None => None,
        }
    } else {
        match spec_decode(d, i) {
            Some((c, j)) => match c {
                CommandV::Put { key, value } => Some((RequestV::Put { key, value }, j)),
                CommandV::Remove { key } => Some((RequestV::Remove { key }, j)),
            },
            None => None,
        }
    }
}

pub fn encode_request(r: &Request) -> (out: Vec<u8>)
    ensures
        out@ == spec_encode_request(r@),
{
    match r {
        Request::Get { key } => {
            let mut out = get_open_vec();
            let kb = key.as_str().as_bytes_vec();
            let mut ek = escape_bytes(&kb);
            out.append(&mut ek);
            out.push(QUOTE);
            let mut cl = close_vec();
            out.append(&mut cl);
            proof {
                assert(out@ =~= spec_encode_request(r@));
            }
            out
        },
        Request::Put { key, value } => crate::records::encode_command(
            &Command::Put { key: key.clone(), value: value.clone() },
        ),
        Request::Remove { key } => crate::records::encode_command(
            &Command::Remove { key: key.clone() },
        ),
    }
}

pub fn decode_request(d: &Vec<u8>, pos: usize) -> (r: Option<(Request, usize)>)
    ensures
        match r {
            Some(p) => spec_decode_request(d@, pos as int) == Some((p.0@, p.1 as int)),
            None => spec_decode_request(d@, pos as int) is None,
        },
{
    let n = d.len();
    let go = get_open_vec();
    if match_bytes(d, pos, &go) {
        assert(pos + 15 <= n);
        match parse_string_at(d, pos + 15) {
            Some((kb, j)) => {
                let ghost kbv = kb@;
                let key = match bytes_to_string(kb) {
                    Some(s) => s,
                    None => {
                        return None;
                    },
                };
                let cl = close_vec();
                if match_bytes(d, j, &cl) {
                    assert(j + 2 <= n);
                    Some((Request::Get { key }, j + 2))
                } else {
                    None
                }
            },
            None => None,
        }
    } else {
        proof {
            assert(!match_at(d@, pos as int, lit_get_open()));
        }
        match decode_command(d, pos) {
            Some((Command::Put { key, value }, j)) => Some((Request::Put { key, value }, j)),
            Some((Command::Remove { key }, j)) => Some((Request::Remove { key }, j)),
            None => None,
        }
    }
}

/// The wire bytes of a `Get` reply.
pub open spec fn spec_encode_get_response(r: GetResponseV) -> Seq<u8> {
    match r {
        GetResponseV::Done(Some(v)) => lit_ok_str() + escape(encode_utf8(v)) + seq![QUOTE] + seq![
            125u8,
        ],
        GetResponseV::Done(None) => lit_ok_null(),
        GetResponseV::Failed(m) => lit_err_str() + escape(encode_utf8(m)) + seq![QUOTE] + seq![
            125u8,
        ],
    }
}

pub open spec fn spec_decode_get_response(d: Seq<u8>, i: int) -> Option<(GetResponseV, int)> {
    if match_at(d, i, lit_ok_str()) {
        match crate::codec::parse_estr(d, i + 7) {
            Some((vb, j)) => if valid_utf8(vb) && match_at(d, j, seq![125u8]) {
                Some((GetResponseV::Done(Some(decode_utf8(vb))), j + 1))
            } else {
                None
            },
            None => None,
        }
    } else if match_at(d, i, lit_ok_null()) {
        Some((GetResponseV::Done(None), i + 11))
    } else if match_at(d, i, lit_err_str()) {
        match crate::codec::parse_estr(d, i + 8) {
            Some((mb, j)) => if valid_utf8(mb) && match_at(d, j, seq![125u8]) {
                Some((GetResponseV::Failed(decode_utf8(mb)), j + 1))
            } else {
                None
            },
            None => None,
        }
    } else {
        None
    }
}

fn obj_close_vec() -> (v: Vec<u8>)
    ensures
        v@ == seq![125u8],
{
    let v: Vec<u8> = vec![125u8];
    proof {
        assert(v@ =~= seq![125u8]);
    }
    v
}

pub fn encode_get_response(r: &GetResponse) -> (out: Vec<u8>)
    ensures
        out@ == spec_encode_get_response(r@),
{
    match r {
        GetResponse::Done(Some(v)) => {
            let mut out = ok_str_vec();
            let vb = v.as_str().as_bytes_vec();
            let mut ev = escape_bytes(&vb);
            out.append(&mut ev);
            out.push(QUOTE);
            out.push(125);
            proof {
                assert(out@ =~= spec_encode_get_response(r@));
            }
            out
        },
        GetResponse::Done(None) => ok_null_vec(),
        GetResponse::Failed(m) => {
            let mut out = err_str_vec();
            let mb = m.as_str().as_bytes_vec();
            let mut em = escape_bytes(&mb);
            out.append(&mut em);
            out.push(QUOTE);
            out.push(125);
            proof {
                assert(out@ =~= spec_encode_get_response(r@));
            }
            out
        },
    }
}

pub fn decode_get_response(d: &Vec<u8>, pos: usize) -> (r: Option<(GetResponse, usize)>)
    ensures
        match r {
            Some(p) => spec_decode_get_response(d@, pos as int) == Some((p.0@, p.1 as int)),
            None => spec_decode_get_response(d@, pos as int) is None,
        },
{
    let n = d.len();
    let oks = ok_str_vec();
    let okn = ok_null_vec();
    let errs = err_str_vec();
    let cl = obj_close_vec();
    if match_bytes(d, pos, &oks) {
        assert(pos + 7 <= n);
        match parse_string_at(d, pos + 7) {
            Some((vb, j)) => {
                let value = match bytes_to_string(vb) {
                    Some(s) => s,
                    None => {
                        return None;
                    },
                };
                if match_bytes(d, j, &cl) {
                    assert(j + 1 <= n);
                    Some((GetResponse::Done(Some(value)), j + 1))
                } else {
                    None
                }
            },
            None => None,
        }
    } else if match_bytes(d, pos, &okn) {
        assert(pos + 11 <= n);
        Some((GetResponse::Done(None), pos + 11))
    } else if match_bytes(d, pos, &errs) {
        assert(pos + 8 <= n);
        match parse_string_at(d, pos + 8) {
            Some((mb, j)) => {
                let msg = match bytes_to_string(mb) {
                    Some(s) => s,
                    None => {
                        return None;
                    },
                };
                if match_bytes(d, j, &cl) {
                    assert(j + 1 <= n);
                    Some((GetResponse::Failed(msg), j + 1))
                } else {
                    None
                }
            },
            None => None,
        }
    } else {
        None
    }
}

/// The wire bytes of a `Set` reply.
pub open spec fn spec_encode_set_response(r: SetResponseV) -> Seq<u8> {
    match r {
        SetResponseV::Done => lit_ok_unit(),
        SetResponseV::Failed(m) => lit_err_str() + escape(encode_utf8(m)) + seq![QUOTE] + seq![
            125u8,
        ],
    }
}

pub open spec fn spec_decode_set_response(d: Seq<u8>, i: int) -> Option<(SetResponseV, int)> {
    if match_at(d, i, lit_ok_unit()) {
        Some((SetResponseV::Done, i + 9))
    } else if match_at(d, i, lit_err_str()) {
        match crate::codec::parse_estr(d, i + 8) {
            Some((mb, j)) => if valid_utf8(mb) && match_at(d, j, seq![125u8]) {
                Some((SetResponseV::Failed(decode_utf8(mb)), j + 1))
            } else {
                None
            },
            None => None,
        }
    } else {
        None
    }
}

pub fn encode_set_response(r: &SetResponse) -> (out: Vec<u8>)
    ensures
        out@ == spec_encode_set_response(r@),
{
    match r {
        SetResponse::Done => ok_unit_vec(),
        SetResponse::Failed(m) => {
            let mut out = err_str_vec();
            let mb = m.as_str().as_bytes_vec();
            let mut em = escape_bytes(&mb);
            out.append(&mut em);
            out.push(QUOTE);
            out.push(125);
            proof {
                assert(out@ =~= spec_encode_set_response(r@));
            }
            out
        },
    }
}

pub fn decode_set_response(d: &Vec<u8>, pos: usize) -> (r: Option<(SetResponse, usize)>)
    ensures
        match r {
            Some(p) => spec_decode_set_response(d@, pos as int) == Some((p.0@, p.1 as int)),
            None => spec_decode_set_response(d@, pos as int) is None,
        },
{
    let n = d.len();
    let oku = ok_unit_vec();
    let errs = err_str_vec();
    let cl = obj_close_vec();
    if match_bytes(d, pos, &oku) {
        assert(pos + 9 <= n);
        Some((SetResponse::Done, pos + 9))
    } else if match_bytes(d, pos, &errs) {
        assert(pos + 8 <= n);
        match parse_string_at(d, pos + 8) {
            Some((mb, j)) => {
                let msg = match bytes_to_string(mb) {
                    Some(s) => s,
                    None => {
                        return None;
                    },
                };
                if match_bytes(d, j, &cl) {
                    assert(j + 1 <= n);
                    Some((SetResponse::Failed(msg), j + 1))
                } else {
                    None
                }
            },
            None => None,
        }
    } else {
        None
    }
}

/// The wire bytes of a `Remove` reply.
pub open spec fn spec_encode_rm_response(r: RmResponseV) -> Seq<u8> {
    match r {
        RmResponseV::Done => lit_ok_unit(),
        RmResponseV::Failed(m) => lit_err_str() + escape(encode_utf8(m)) + seq![QUOTE] + seq![
            125u8,
        ],
    }
}

pub open spec fn spec_decode_rm_response(d: Seq<u8>, i: int) -> Option<(RmResponseV, int)> {
    if match_at(d, i, lit_ok_unit()) {
        Some((RmResponseV::Done, i + 9))
    } else if match_at(d, i, lit_err_str()) {
        match crate::codec::parse_estr(d, i + 8) {
            Some((mb, j)) => if valid_utf8(mb) && match_at(d, j, seq![125u8]) {
                Some((RmResponseV::Failed(decode_utf8(mb)), j + 1))
            } else {
                None
            },
            None => None,
        }
    } else {
        None
    }
}

pub fn encode_rm_response(r: &RmResponse) -> (out: Vec<u8>)
    ensures
        out@ == spec_encode_rm_response(r@),
{
    match r {
        RmResponse::Done => ok_unit_vec(),
        RmResponse::Failed(m) => {
            let mut out = err_str_vec();
            let mb = m.as_str().as_bytes_vec();
            let mut em = escape_bytes(&mb);
            out.append(&mut em);
            out.push(QUOTE);
            out.push(125);
            proof {
                assert(out@ =~= spec_encode_rm_response(r@));
            }
            out
        },
    }
}

pub fn decode_rm_response(d: &Vec<u8>, pos: usize) -> (r: Option<(RmResponse, usize)>)
    ensures
        match r {
            Some(p) => spec_decode_rm_response(d@, pos as int) == Some((p.0@, p.1 as int)),
            None => spec_decode_rm_response(d@, pos as int) is None,
        },
{
    let n = d.len();
    let oku = ok_unit_vec();
    let errs = err_str_vec();
    let cl = obj_close_vec();
    if match_bytes(d, pos, &oku) {
        assert(pos + 9 <= n);
        Some((RmResponse::Done, pos + 9))
    } else if match_bytes(d, pos, &errs) {
        assert(pos + 8 <= n);
        match parse_string_at(d, pos + 8) {
            Some((mb, j)) => {
                let msg = match bytes_to_string(mb) {
                    Some(s) => s,
                    None => {
                        return None;
                    },
                };
                if match_bytes(d, j, &cl) {
                    assert(j + 1 <= n);
                    Some((RmResponse::Failed(msg), j + 1))
                } else {
                    None
                }
            },
            None => None,
        }
    } else {
        None
    }
}


/// Which backend a data directory belongs to.
#[derive(Clone, Copy, PartialEq, Eq, Structural, Debug)]
pub enum Engine {
    Kvs,
    Sled,
}

/// The marker-file text of each backend.
pub open spec fn spec_engine_name(e: Engine) -> Seq<char> {
    match e {
        Engine::Kvs => "kvs"@,
        Engine::Sled => "sled"@,
    }
}

impl Engine {
    /// The name written into the backend marker file.
    pub fn name(&self) -> (r: String)
        ensures
            r@ == spec_engine_name(*self),
    {
        match self {
            Engine::Kvs => "kvs".to_owned(),
            Engine::Sled => "sled".to_owned(),
        }
    }
}

pub open spec fn lower_byte(b: u8) -> u8 {
    if 65 <= b && b <= 90 {
        (b + 32) as u8
    } else {
        b
    }
}

/// ASCII lowercasing, byte by byte.
pub open spec fn ascii_lower(s: Seq<u8>) -> Seq<u8> {
    s.map_values(|b: u8| lower_byte(b))
}

/// `kvs` as UTF-8 bytes.
pub open spec fn kvs_name_bytes() -> Seq<u8> {
    seq![107u8, 118u8, 115u8]
}

/// `sled` as UTF-8 bytes.
pub open spec fn sled_name_bytes() -> Seq<u8> {
    seq![115u8, 108u8, 101u8, 100u8]
}

/// Which backend a marker file's text names, up to ASCII case.
pub open spec fn spec_marker_engine(content_bytes: Seq<u8>) -> Option<Engine> {
    let low = ascii_lower(content_bytes);
    if low == kvs_name_bytes() {
        Some(Engine::Kvs)
    } else if low == sled_name_bytes() {
        Some(Engine::Sled)
    } else {
        None
    }
}

fn lower_bytes(src: &Vec<u8>) -> (out: Vec<u8>)
    ensures
        out@ == ascii_lower(src@),
{
    let mut out: Vec<u8> = Vec::new();
    let mut i: usize = 0;
    while i < src.len()
        invariant
            i <= src.len(),
            out@.len() == i,
            forall|m: int| 0 <= m < i ==> out@[m] == lower_byte(src@[m]),
        decreases src.len() - i,
    {
        let b = src[i];
        if 65 <= b && b <= 90 {
            out.push(b + 32);
        } else {
            out.push(b);
        }
        i += 1;
    }
    assert(out@ =~= ascii_lower(src@));
    out
}

fn eq_bytes(a: &Vec<u8>, b: &Vec<u8>) -> (r: bool)
    ensures
        r == (a@ == b@),
{
    if a.len() != b.len() {
        assert(a@ != b@) by {
            assert(a@.len() != b@.len());
        };
        return false;
    }
    let mut i: usize = 0;
    while i < a.len()
        invariant
            i <= a.len() == b.len(),
            a@.len() == b@.len(),
            forall|m: int| 0 <= m < i ==> a@[m] == b@[m],
        decreases a.len() - i,
    {
        if a[i] != b[i] {
            return false;
        }
        i += 1;
    }
    assert(a@ =~= b@);
    true
}

/// Verify the assigned backend against a data directory's marker file, as
/// its text was read (or `None` where no marker exists yet). A marker naming
/// the other backend, or unreadable text, rejects the open with an
/// engine-mismatch error; a missing marker accepts the assignment.
pub fn check_engine(existing: Option<String>, assigned: Engine) -> (r: Result<Engine, KVError>)
    ensures
        match existing {
            None => r == Ok::<Engine, KVError>(assigned),
            Some(s) => match spec_marker_engine(encode_utf8(s@)) {
                Some(e) => if e == assigned {
                    r == Ok::<Engine, KVError>(assigned)
                } else {
                    r == Err::<Engine, KVError>(KVError::EngineNotMatch)
                },
                None => r == Err::<Engine, KVError>(KVError::EngineNotMatch),
            },
        },
{
    match existing {
        None => Ok(assigned),
        Some(s) => {
            let bytes = s.as_str().as_bytes_vec();
            let low = lower_bytes(&bytes);
            let kvs_b: Vec<u8> = vec![107u8, 118u8, 115u8];
            let sled_b: Vec<u8> = vec![115u8, 108u8, 101u8, 100u8];
            proof {
                assert(kvs_b@ =~= kvs_name_bytes());
                assert(sled_b@ =~= sled_name_bytes());
            }
            let found: Option<Engine> = if eq_bytes(&low, &kvs_b) {
                Some(Engine::Kvs)
            } else if eq_bytes(&low, &sled_b) {
                Some(Engine::Sled)
            } else {
                None
            };
            match found {
                Some(e) => {
                    if e == assigned {
                        Ok(assigned)
                    } else {
                        Err(KVError::EngineNotMatch)
                    }
                },
                None => Err(KVError::EngineNotMatch),
            }
        },
    }
}

/// What a client invocation asks for.
pub enum Methods {
    Put(SetAction),
    Get(GetAction),
    Rm(RemoveAction),
}

pub struct SetAction {
    pub key: String,
    pub value: String,
    pub addr: String,
}

pub struct GetAction {
    pub key: String,
    pub addr: String,
}

pub struct RemoveAction {
    pub key: String,
    pub addr: String,
}

pub enum MethodsV {
    Put { key: Seq<char>, value: Seq<char>, addr: Seq<char> },
    Get { key: Seq<char>, addr: Seq<char> },
    Rm { key: Seq<char>, addr: Seq<char> },
}

impl View for Methods {
    type V = MethodsV;

    open spec fn view(&self) -> MethodsV {
        match self {
            Methods::Put(a) => MethodsV::Put { key: a.key@, value: a.value@, addr: a.addr@ },
            Methods::Get(a) => MethodsV::Get { key: a.key@, addr: a.addr@ },
            Methods::Rm(a) => MethodsV::Rm { key: a.key@, addr: a.addr@ },
        }
    }
}


/// No command encoding begins like a get request: the tag bytes differ.
proof fn lemma_not_get_prefix(c: CommandV)
    ensures
        !match_at(spec_encode_bytes(c), 0, lit_get_open()),
{
    crate::records::lemma_encode_first_bytes(c);
    let e = spec_encode_bytes(c);
    if match_at(e, 0, lit_get_open()) {
        assert(e.subrange(0, 15)[2] == lit_get_open()[2]);
        assert(e[2] == 71);
    }
}

/// A request round-trips: decoding the encoder's output returns the request.
#[verifier::spinoff_prover]
pub proof fn lemma_request_round_trip(r: RequestV)
    ensures
        spec_decode_request(spec_encode_request(r), 0) == Some(
            (r, spec_encode_request(r).len() as int),
        ),
{
    let e = spec_encode_request(r);
    match r {
        RequestV::Get { key } => {
            let kb = encode_utf8(key);
            let ek = escape(kb);
            let j = 15 + ek.len() as int + 1;
            assert(e.subrange(0, 15) =~= lit_get_open());
            assert(match_at(e, 0, lit_get_open()));
            assert(e.subrange(15, j) =~= ek + seq![QUOTE]);
            lemma_parse_estr_of_escape(e, 15, kb);
            assert(e.subrange(j, j + 2) =~= lit_close());
            assert(match_at(e, j, lit_close()));
            vstd::utf8::encode_utf8_valid_utf8(key);
            vstd::utf8::encode_utf8_decode_utf8(key);
        },
        RequestV::Put { key, value } => {
            let c = CommandV::Put { key, value };
            assert(e.subrange(0, e.len() as int) =~= e);
            lemma_spec_decode_encode(e, 0, c);
            lemma_not_get_prefix(c);
        },
        RequestV::Remove { key } => {
            let c = CommandV::Remove { key };
            assert(e.subrange(0, e.len() as int) =~= e);
            lemma_spec_decode_encode(e, 0, c);
            lemma_not_get_prefix(c);
        },
    }
}

/// A `Get` reply round-trips through its encoding.
pub proof fn lemma_get_response_round_trip(r: GetResponseV)
    ensures
        spec_decode_get_response(spec_encode_get_response(r), 0) == Some(
            (r, spec_encode_get_response(r).len() as int),
        ),
{
    let e = spec_encode_get_response(r);
    match r {
        GetResponseV::Done(Some(v)) => {
            let vb = encode_utf8(v);
            let ev = escape(vb);
            let j = 7 + ev.len() as int + 1;
            assert(e.subrange(0, 7) =~= lit_ok_str());
            assert(match_at(e, 0, lit_ok_str()));
            assert(e.subrange(7, j) =~= ev + seq![QUOTE]);
            lemma_parse_estr_of_escape(e, 7, vb);
            assert(e.subrange(j, j + 1) =~= seq![125u8]);
            assert(match_at(e, j, seq![125u8]));
            vstd::utf8::encode_utf8_valid_utf8(v);
            vstd::utf8::encode_utf8_decode_utf8(v);
        },
        GetResponseV::Done(None) => {
            assert(e.subrange(0, 11) =~= lit_ok_null());
            assert(match_at(e, 0, lit_ok_null()));
            assert(!match_at(e, 0, lit_ok_str())) by {
                if match_at(e, 0, lit_ok_str()) {
                    assert(e.subrange(0, 7)[6] == lit_ok_str()[6]);
                    assert(e.subrange(0, 11)[6] == lit_ok_null()[6]);
                }
            };
        },
        GetResponseV::Failed(m) => {
            let mb = encode_utf8(m);
            let em = escape(mb);
            let j = 8 + em.len() as int + 1;
            assert(e.subrange(0, 8) =~= lit_err_str());
            assert(match_at(e, 0, lit_err_str()));
            assert(!match_at(e, 0, lit_ok_str())) by {
                if match_at(e, 0, lit_ok_str()) {
                    assert(e.subrange(0, 7)[2] == lit_ok_str()[2]);
                    assert(e.subrange(0, 8)[2] == lit_err_str()[2]);
                }
            };
            assert(!match_at(e, 0, lit_ok_null())) by {
                if match_at(e, 0, lit_ok_null()) {
                    assert(e.subrange(0, 11)[2] == lit_ok_null()[2]);
                    assert(e.subrange(0, 8)[2] == lit_err_str()[2]);
                }
            };
            assert(e.subrange(8, j) =~= em + seq![QUOTE]);
            lemma_parse_estr_of_escape(e, 8, mb);
            assert(e.subrange(j, j + 1) =~= seq![125u8]);
            assert(match_at(e, j, seq![125u8]));
            vstd::utf8::encode_utf8_valid_utf8(m);
            vstd::utf8::encode_utf8_decode_utf8(m);
        },
    }
}

/// A `Set` reply round-trips through its encoding; a `Remove` reply is
/// encoded the same way.
pub proof fn lemma_set_response_round_trip(r: SetResponseV)
    ensures
        spec_decode_set_response(spec_encode_set_response(r), 0) == Some(
            (r, spec_encode_set_response(r).len() as int),
        ),
{
    let e = spec_encode_set_response(r);
    match r {
        SetResponseV::Done => {
            assert(e.subrange(0, 9) =~= lit_ok_unit());
            assert(match_at(e, 0, lit_ok_unit()));
        },
        SetResponseV::Failed(m) => {
            let mb = encode_utf8(m);
            let em = escape(mb);
            let j = 8 + em.len() as int + 1;
            assert(e.subrange(0, 8) =~= lit_err_str());
            assert(match_at(e, 0, lit_err_str()));
            assert(!match_at(e, 0, lit_ok_unit())) by {
                if match_at(e, 0, lit_ok_unit()) {
                    assert(e.subrange(0, 9)[2] == lit_ok_unit()[2]);
                    assert(e.subrange(0, 8)[2] == lit_err_str()[2]);
                }
            };
            assert(e.subrange(8, j) =~= em + seq![QUOTE]);
            lemma_parse_estr_of_escape(e, 8, mb);
            assert(e.subrange(j, j + 1) =~= seq![125u8]);
            assert(match_at(e, j, seq![125u8]));
            vstd::utf8::encode_utf8_valid_utf8(m);
            vstd::utf8::encode_utf8_decode_utf8(m);
        },
    }
}

} // verus!
