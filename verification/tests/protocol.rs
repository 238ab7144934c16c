use kvs::common::{
    decode_get_response, decode_request, decode_rm_response, decode_set_response,
    encode_get_response, encode_request, encode_rm_response, encode_set_response, GetResponse,
    Request, RmResponse, SetResponse,
};
use kvs::server::handle_request;
use kvs::KvStore;

#[test]
fn requests_round_trip() {
    let reqs = vec![
        Request::Get { key: "k".to_owned() },
        Request::Put { key: "k".to_owned(), value: "v".to_owned() },
        Request::Remove { key: "k".to_owned() },
        Request::Put { key: String::new(), value: "with \"quotes\"".to_owned() },
    ];
    for req in &reqs {
        let bytes = encode_request(req);
        let (decoded, end) = decode_request(&bytes, 0).expect("request must decode");
        assert_eq!(end, bytes.len());
        match (req, &decoded) {
            (Request::Get { key: a }, Request::Get { key: b }) => assert_eq!(a, b),
            (
                Request::Put { key: a, value: va },
                Request::Put { key: b, value: vb },
            ) => {
                assert_eq!(a, b);
                assert_eq!(va, vb);
            }
            (Request::Remove { key: a }, Request::Remove { key: b }) => assert_eq!(a, b),
            _ => panic!("wrong request variant"),
        }
    }
}

#[test]
fn request_bytes_are_framed_json() {
    let bytes = encode_request(&Request::Get { key: "a".to_owned() });
    assert_eq!(bytes.as_slice(), br#"{"Get":{"key":"a"}}"#);
    let bytes = encode_request(&Request::Put { key: "a".to_owned(), value: "1".to_owned() });
    assert_eq!(bytes.as_slice(), br#"{"Set":{"key":"a","value":"1"}}"#);
}

#[test]
fn responses_round_trip() {
    let bytes = encode_get_response(&GetResponse::Done(Some("v".to_owned())));
    assert_eq!(bytes.as_slice(), br#"{"Ok":"v"}"#);
    let (r, end) = decode_get_response(&bytes, 0).unwrap();
    assert_eq!(end, bytes.len());
    assert!(matches!(r, GetResponse::Done(Some(v)) if v == "v"));

    let bytes = encode_get_response(&GetResponse::Done(None));
    assert_eq!(bytes.as_slice(), br#"{"Ok":null}"#);
    let (r, _) = decode_get_response(&bytes, 0).unwrap();
    assert!(matches!(r, GetResponse::Done(None)));

    let bytes = encode_get_response(&GetResponse::Failed("boom".to_owned()));
    assert_eq!(bytes.as_slice(), br#"{"Err":"boom"}"#);
    let (r, _) = decode_get_response(&bytes, 0).unwrap();
    assert!(matches!(r, GetResponse::Failed(m) if m == "boom"));

    let bytes = encode_set_response(&SetResponse::Done);
    assert_eq!(bytes.as_slice(), br#"{"Ok":[]}"#);
    let (r, _) = decode_set_response(&bytes, 0).unwrap();
    assert!(matches!(r, SetResponse::Done));

    let bytes = encode_rm_response(&RmResponse::Failed("no".to_owned()));
    let (r, _) = decode_rm_response(&bytes, 0).unwrap();
    assert!(matches!(r, RmResponse::Failed(m) if m == "no"));
}

#[test]
fn handler_serves_requests() {
    let mut store = KvStore::open(Vec::new()).unwrap();

    let set = encode_request(&Request::Put { key: "a".to_owned(), value: "1".to_owned() });
    let reply = handle_request(&mut store, &set).expect("well-formed request");
    let (r, _) = decode_set_response(&reply, 0).unwrap();
    assert!(matches!(r, SetResponse::Done));

    let get = encode_request(&Request::Get { key: "a".to_owned() });
    let reply = handle_request(&mut store, &get).expect("well-formed request");
    let (r, _) = decode_get_response(&reply, 0).unwrap();
    assert!(matches!(r, GetResponse::Done(Some(v)) if v == "1"));

    let get_absent = encode_request(&Request::Get { key: "b".to_owned() });
    let reply = handle_request(&mut store, &get_absent).expect("well-formed request");
    let (r, _) = decode_get_response(&reply, 0).unwrap();
    assert!(matches!(r, GetResponse::Done(None)));

    let rm_absent = encode_request(&Request::Remove { key: "b".to_owned() });
    let reply = handle_request(&mut store, &rm_absent).expect("well-formed request");
    let (r, _) = decode_rm_response(&reply, 0).unwrap();
    assert!(matches!(r, RmResponse::Failed(m) if m == "Error: Key not found!"));

    let rm = encode_request(&Request::Remove { key: "a".to_owned() });
    let reply = handle_request(&mut store, &rm).expect("well-formed request");
    let (r, _) = decode_rm_response(&reply, 0).unwrap();
    assert!(matches!(r, RmResponse::Done));
    assert_eq!(store.get("a".to_owned()).unwrap(), None);
}

#[test]
fn handler_rejects_garbage() {
    let mut store = KvStore::open(Vec::new()).unwrap();
    let garbage = b"GET a HTTP/1.1".to_vec();
    assert!(handle_request(&mut store, &garbage).is_none());
}

#[test]
fn many_requests_over_overlapping_keys() {
    // the sequential core of the server scenario: 100 writes and 100 reads
    // over overlapping keys; every read shows a written value or nothing
    let mut store = KvStore::open(Vec::new()).unwrap();
    let mut written: Vec<Option<String>> = vec![None; 10];
    let mut seed: u64 = 99991;
    for round in 0..100 {
        seed = seed.wrapping_mul(6364136223846793005).wrapping_add(1442695040888963407);
        let k = (seed % 10) as usize;
        let value = format!("v{}", round);
        let set = encode_request(&Request::Put { key: format!("k{}", k), value: value.clone() });
        let reply = handle_request(&mut store, &set).unwrap();
        assert!(matches!(decode_set_response(&reply, 0), Some((SetResponse::Done, _))));
        written[k] = Some(value);

        seed = seed.wrapping_mul(6364136223846793005).wrapping_add(1442695040888963407);
        let q = (seed % 10) as usize;
        let get = encode_request(&Request::Get { key: format!("k{}", q) });
        let reply = handle_request(&mut store, &get).unwrap();
        let (resp, _) = decode_get_response(&reply, 0).unwrap();
        match resp {
            GetResponse::Done(got) => assert_eq!(got, written[q]),
            GetResponse::Failed(m) => panic!("get failed: {}", m),
        }
    }
}
