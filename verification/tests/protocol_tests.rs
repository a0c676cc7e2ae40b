//! The wire protocol and the server's compute step.

use kvs::{
    decode_request, decode_response, encode_request, encode_response, handle_request_bytes,
    KvStore, Request, Response,
};

#[test]
fn requests_encode_to_the_tagged_json_values() {
    let set = Request::SetReq { key: "a".to_owned(), value: "b".to_owned() };
    assert_eq!(encode_request(&set), b"{\"Set\":{\"key\":\"a\",\"value\":\"b\"}}".to_vec());
    let get = Request::GetReq { key: "a".to_owned() };
    assert_eq!(encode_request(&get), b"{\"Get\":{\"key\":\"a\"}}".to_vec());
    let rm = Request::RmReq { key: "a".to_owned() };
    assert_eq!(encode_request(&rm), b"{\"Rm\":{\"key\":\"a\"}}".to_vec());
}

#[test]
fn requests_round_trip() {
    let reqs = vec![
        Request::SetReq { key: "k".to_owned(), value: "v".to_owned() },
        Request::GetReq { key: "k".to_owned() },
        Request::RmReq { key: "k".to_owned() },
    ];
    for req in reqs {
        let bytes = encode_request(&req);
        assert_eq!(decode_request(&bytes).unwrap(), req);
    }
}

#[test]
fn responses_round_trip() {
    let resps = vec![
        Response::Success { value: None },
        Response::Success { value: Some("v".to_owned()) },
        Response::Failure { message: "Key not found".to_owned() },
    ];
    for resp in resps {
        let bytes = encode_response(&resp);
        assert_eq!(decode_response(&bytes).unwrap(), resp);
    }
}

#[test]
fn responses_encode_to_the_documented_shapes() {
    assert_eq!(encode_response(&Response::Success { value: None }), b"{\"Ok\":null}".to_vec());
    assert_eq!(
        encode_response(&Response::Success { value: Some("v".to_owned()) }),
        b"{\"Ok\":\"v\"}".to_vec()
    );
    assert_eq!(
        encode_response(&Response::Failure { message: "boom".to_owned() }),
        b"{\"Err\":\"boom\"}".to_vec()
    );
}

#[test]
fn malformed_request_bytes_fail_to_decode() {
    assert!(decode_request(b"{\"Nope\":{}}").is_err());
    assert!(decode_request(b"not json").is_err());
}

#[test]
fn server_compute_step_answers_each_request() {
    let mut store = KvStore::open(Vec::new()).unwrap();
    let set = encode_request(&Request::SetReq { key: "a".to_owned(), value: "b".to_owned() });
    assert_eq!(handle_request_bytes(&mut store, &set), b"{\"Ok\":null}".to_vec());
    let get = encode_request(&Request::GetReq { key: "a".to_owned() });
    assert_eq!(handle_request_bytes(&mut store, &get), b"{\"Ok\":\"b\"}".to_vec());
    let rm = encode_request(&Request::RmReq { key: "a".to_owned() });
    assert_eq!(handle_request_bytes(&mut store, &rm), b"{\"Ok\":null}".to_vec());
    let rm_again = handle_request_bytes(&mut store, &rm);
    assert_eq!(rm_again, b"{\"Err\":\"Key not found\"}".to_vec());
    let junk = handle_request_bytes(&mut store, b"garbage");
    assert!(junk.starts_with(b"{\"Err\":"));
}
