use ci_master::cap::CapSet;
use ci_master::message::Request;
use ci_master::message::Response;
use ci_master::wire::decode_request;
use ci_master::wire::decode_response;
use ci_master::wire::encode_request;
use ci_master::wire::encode_response;

fn caps(tokens: &[&str]) -> CapSet {
    let mut v: Vec<String> = Vec::new();
    for t in tokens {
        v.push(t.to_string());
    }
    CapSet::from_tokens(v)
}

#[test]
fn request_frame_layout_is_exact() {
    let bytes = encode_request(&Request::IDLE(caps(&["a"])));
    assert_eq!(bytes, vec![1, 0, 0, 0, 0, 0, 0, 0, 1, b'a']);
}

#[test]
fn tokens_are_serialized_in_sorted_order() {
    let bytes = encode_request(&Request::IDLE(caps(&["b", "a"])));
    assert_eq!(bytes, vec![1, 0, 0, 0, 0, 0, 0, 0, 1, b'a', 0, 0, 0, 0, 0, 0, 0, 1, b'b']);
    let same = encode_request(&Request::IDLE(caps(&["a", "b", "a"])));
    assert_eq!(bytes, same);
}

#[test]
fn request_round_trip_preserves_the_set() {
    let original = caps(&["amd64", "gpu", "docker"]);
    let bytes = encode_request(&Request::IDLE(caps(&["amd64", "gpu", "docker"])));
    let decoded = decode_request(&bytes).expect("an encoded frame decodes");
    let Request::IDLE(got) = decoded;
    assert!(got.equals(&original));
}

#[test]
fn empty_capability_set_round_trips() {
    let bytes = encode_request(&Request::IDLE(CapSet::empty()));
    assert_eq!(bytes, vec![1]);
    let decoded = decode_request(&bytes).expect("the empty declaration decodes");
    let Request::IDLE(got) = decoded;
    assert_eq!(got.len(), 0);
}

#[test]
fn malformed_request_frames_are_rejected() {
    assert!(decode_request(&[]).is_none());
    assert!(decode_request(&[3]).is_none());
    assert!(decode_request(&[2]).is_none());
    assert!(decode_request(&[1, 5]).is_none());
    assert!(decode_request(&[1, 0, 0, 0, 0, 0, 0, 0, 9]).is_none());
    assert!(decode_request(&[1, 0, 0, 0, 0, 0, 0, 0, 2, b'a']).is_none());
    assert!(decode_request(&[1, 0, 0, 0, 0, 0, 0, 0, 1, 0xff]).is_none());
}

#[test]
fn unsorted_forged_frame_decodes_to_a_canonical_set() {
    let forged = vec![1, 0, 0, 0, 0, 0, 0, 0, 1, b'b', 0, 0, 0, 0, 0, 0, 0, 1, b'a'];
    let decoded = decode_request(&forged).expect("structurally valid frame");
    let Request::IDLE(got) = decoded;
    assert!(got.equals(&caps(&["a", "b"])));
}

#[test]
fn response_frame_round_trips() {
    let bytes = encode_response(&Response::COMMAND);
    assert_eq!(bytes, vec![2]);
    assert_eq!(decode_response(&bytes), Some(Response::COMMAND));
    assert_eq!(decode_response(&[]), None);
    assert_eq!(decode_response(&[1]), None);
    assert_eq!(decode_response(&[2, 0]), None);
}
