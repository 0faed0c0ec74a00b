use kvs::client::KvsClient;
use kvs::command::{Request, Response};
use kvs::error::KvsError;
use kvs::wire::{encode_request, encode_response};

#[test]
fn an_ok_response_gives_its_text() {
    let r = KvsClient::interpret(&Request::Get("k".to_string()), Response::OK("v".to_string()));
    assert!(matches!(r, Ok(Some(v)) if v == "v"));
    let r = KvsClient::interpret(
        &Request::Put("k".to_string(), "v".to_string()),
        Response::OK(String::new()),
    );
    assert!(matches!(r, Ok(Some(v)) if v.is_empty()));
}

#[test]
fn not_found_is_none_for_a_lookup_and_a_failure_for_a_removal() {
    let r = KvsClient::interpret(&Request::Get("k".to_string()), Response::NotFound);
    assert!(matches!(r, Ok(None)));
    let r = KvsClient::interpret(&Request::Rm("k".to_string()), Response::NotFound);
    assert!(matches!(r, Err(KvsError::KeyNotFound)));
    let r = KvsClient::interpret(
        &Request::Put("k".to_string(), "v".to_string()),
        Response::NotFound,
    );
    assert!(matches!(r, Err(KvsError::Unspecified)));
}

#[test]
fn an_error_response_is_a_response_failure_with_its_text() {
    let r = KvsClient::interpret(
        &Request::Get("k".to_string()),
        Response::Error("Error GET key".to_string()),
    );
    assert!(matches!(r, Err(KvsError::Response(m)) if m == "Error GET key"));
}

#[test]
fn the_bytes_to_send_are_the_encoded_request() {
    let request = Request::Put("k".to_string(), "v".to_string());
    assert_eq!(KvsClient::request(&request), encode_request(&request));
}

#[test]
fn received_bytes_are_decoded_and_interpreted() {
    let get = Request::Get("k".to_string());
    let bytes = encode_response(&Response::OK("v".to_string()));
    assert!(matches!(KvsClient::receive(&get, &bytes), Ok(Some(v)) if v == "v"));
    let bytes = encode_response(&Response::NotFound);
    assert!(matches!(KvsClient::receive(&get, &bytes), Ok(None)));
    assert!(matches!(
        KvsClient::receive(&Request::Rm("k".to_string()), &bytes),
        Err(KvsError::KeyNotFound)
    ));
}

#[test]
fn bytes_that_hold_no_response_are_a_serialization_failure() {
    let get = Request::Get("k".to_string());
    assert!(matches!(KvsClient::receive(&get, &[]), Err(KvsError::Serialization)));
    assert!(matches!(KvsClient::receive(&get, &[7, 0, 0, 0]), Err(KvsError::Serialization)));
    assert!(matches!(KvsClient::receive(&get, &[0, 0, 0, 0, 5]), Err(KvsError::Serialization)));
}
