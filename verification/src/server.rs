//! The request server's worker logic: decode exactly one request, dispatch
//! it to the engine, encode the reply. The accept loop, the sockets and the
//! thread pool live with the binaries; they hand this function the bytes a
//! connection carried and send back what it returns.

use vstd::prelude::*;

use crate::common::{
    decode_request, encode_get_response, encode_rm_response, encode_set_response, GetResponse,
    GetResponseV, Request, RequestV, RmResponse, RmResponseV, SetResponse, SetResponseV,
    spec_decode_request, spec_encode_get_response, spec_encode_rm_response,
    spec_encode_set_response,
};
use crate::engines::KvsEngine;
use crate::error::{kv_error_msg, KVError};

verus! {

/// Handle one connection's request against the engine. Returns the encoded
/// reply, or nothing where the bytes do not start with a well-formed request
/// (the caller then drops the connection). A missing key answers a `Get`
/// with an empty result and a `Remove` with a key-not-found report; the
/// mapping changes exactly as the request demands.
pub fn handle_request<E: KvsEngine>(engine: &mut E, request: &Vec<u8>) -> (r: Option<Vec<u8>>)
    requires
        old(engine).wf(),
    ensures
        final(engine).wf(),
        match spec_decode_request(request@, 0) {
            None => r is None && final(engine).kv() == old(engine).kv(),
            Some((req, end)) => match req {
                RequestV::Get { key } => final(engine).kv() == old(engine).kv() && r is Some && (
                r->Some_0)@ == spec_encode_get_response(
                    GetResponseV::Done(
                        if old(engine).kv().contains_key(key) {
                            Some(old(engine).kv()[key])
                        } else {
                            None
                        },
                    ),
                ),
                RequestV::Put { key, value } => final(engine).kv() == old(engine).kv().insert(
                    key,
                    value,
                ) && r is Some && (r->Some_0)@ == spec_encode_set_response(SetResponseV::Done),
                RequestV::Remove { key } => {
                    if old(engine).kv().contains_key(key) {
                        final(engine).kv() == old(engine).kv().remove(key) && r is Some && (
                        r->Some_0)@ == spec_encode_rm_response(RmResponseV::Done)
                    } else {
                        final(engine).kv() == old(engine).kv() && r is Some && (r->Some_0)@
                            == spec_encode_rm_response(
                            RmResponseV::Failed(kv_error_msg(KVError::KeyNoExist)),
                        )
                    }
                },
            },
        },
{
    match decode_request(request, 0) {
        None => None,
        Some((req, _end)) => match req {
            Request::Get { key } => {
                let resp = match engine.get(key) {
                    Ok(content) => GetResponse::Done(content),
                    Err(e) => GetResponse::Failed(e.message()),
                };
                Some(encode_get_response(&resp))
            },
            Request::Put { key, value } => {
                let resp = match engine.set(key, value) {
                    Ok(()) => SetResponse::Done,
                    Err(e) => SetResponse::Failed(e.message()),
                };
                Some(encode_set_response(&resp))
            },
            Request::Remove { key } => {
                let resp = match engine.remove(key) {
                    Ok(()) => RmResponse::Done,
                    Err(e) => RmResponse::Failed(e.message()),
                };
                Some(encode_rm_response(&resp))
            },
        },
    }
}

} // verus!
