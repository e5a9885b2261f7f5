use zbus::codec::decode_event;
use zbus::codec::decode_request;
use zbus::codec::decode_response;
use zbus::codec::encode_event;
use zbus::codec::encode_request;
use zbus::codec::encode_response;
use zbus::Event;
use zbus::FormatError;
use zbus::Id;
use zbus::ObjectID;
use zbus::Request;
use zbus::Response;
use zbus::ZBusError;

/// The reference encoding of the request from the golden scenario:
/// module-independent record with id `my-id`, two binary arguments,
/// object `object@1.0`, empty reply queue, method `DoSomething`.
fn golden_request_bytes() -> Vec<u8> {
    vec![
        133, 162, 73, 68, 165, 109, 121, 45, 105, 100, 169, 65, 114, 103, 117, 109, 101, 110, 116,
        115, 146, 196, 5, 164, 97, 114, 103, 49, 196, 24, 130, 164, 78, 97, 109, 101, 164, 65,
        122, 109, 121, 163, 65, 103, 101, 203, 64, 66, 0, 0, 0, 0, 0, 0, 166, 79, 98, 106, 101,
        99, 116, 130, 164, 78, 97, 109, 101, 166, 111, 98, 106, 101, 99, 116, 167, 86, 101, 114,
        115, 105, 111, 110, 163, 49, 46, 48, 167, 82, 101, 112, 108, 121, 84, 111, 160, 166, 77,
        101, 116, 104, 111, 100, 171, 68, 111, 83, 111, 109, 101, 116, 104, 105, 110, 103,
    ]
}

fn golden_request() -> Request {
    let args = vec![
        // a pre-encoded string argument, "arg1"
        vec![164, 97, 114, 103, 49],
        // a pre-encoded record argument, {Name: "Azmy", Age: 36.0}
        vec![
            130, 164, 78, 97, 109, 101, 164, 65, 122, 109, 121, 163, 65, 103, 101, 203, 64, 66, 0,
            0, 0, 0, 0, 0,
        ],
    ];
    Request::new(
        Id::from_string("my-id".to_string()),
        Id::from_string("".to_string()),
        ObjectID::new("object", "1.0"),
        "DoSomething".to_string(),
        args,
    )
}

#[test]
fn test_request_encoding_roundtrip() {
    let id = Id::new();
    let request = Request::new(
        id.clone(),
        id.clone(),
        ObjectID::new("test", "0.0"),
        "testmethod".into(),
        vec![],
    );

    let encoded = encode_request(&request).expect("Failed to encode");
    let decoded: Request = decode_request(&encoded).expect("Failed to decode");

    assert_eq!(decoded, request);
}

#[test]
fn test_encoding_port() {
    let request = golden_request();
    let encoded = encode_request(&request).expect("Failed to encode request");
    assert_eq!(encoded, golden_request_bytes());
}

#[test]
fn test_decode_go() {
    let data = golden_request_bytes();
    let request: Request = decode_request(&data).expect("Failed to decode go-encoded request");
    assert_eq!(request, golden_request());
}

#[test]
fn request_fields_decode_in_any_order() {
    // The same record as the golden fixture, with its five fields laid
    // out back to front: Method, ReplyTo, Object, Arguments, ID.
    let mut data: Vec<u8> = vec![133];
    data.extend_from_slice(&[166, 77, 101, 116, 104, 111, 100]); // "Method"
    data.extend_from_slice(&[171, 68, 111, 83, 111, 109, 101, 116, 104, 105, 110, 103]);
    data.extend_from_slice(&[167, 82, 101, 112, 108, 121, 84, 111]); // "ReplyTo"
    data.extend_from_slice(&[160]);
    data.extend_from_slice(&[166, 79, 98, 106, 101, 99, 116]); // "Object"
    data.extend_from_slice(&[
        130, 164, 78, 97, 109, 101, 166, 111, 98, 106, 101, 99, 116, 167, 86, 101, 114, 115, 105,
        111, 110, 163, 49, 46, 48,
    ]);
    data.extend_from_slice(&[165, 65, 114, 103, 115]); // "Args": unknown name
    let decoded = decode_request(&data);
    assert!(decoded.is_err());

    // Correct reordered record, all five known fields.
    let mut data: Vec<u8> = vec![133];
    data.extend_from_slice(&[166, 77, 101, 116, 104, 111, 100]); // "Method"
    data.extend_from_slice(&[171, 68, 111, 83, 111, 109, 101, 116, 104, 105, 110, 103]);
    data.extend_from_slice(&[167, 82, 101, 112, 108, 121, 84, 111]); // "ReplyTo"
    data.extend_from_slice(&[160]);
    data.extend_from_slice(&[166, 79, 98, 106, 101, 99, 116]); // "Object"
    data.extend_from_slice(&[
        130, 164, 78, 97, 109, 101, 166, 111, 98, 106, 101, 99, 116, 167, 86, 101, 114, 115, 105,
        111, 110, 163, 49, 46, 48,
    ]);
    data.extend_from_slice(&[169, 65, 114, 103, 117, 109, 101, 110, 116, 115]); // "Arguments"
    data.extend_from_slice(&[146, 196, 5, 164, 97, 114, 103, 49]);
    data.extend_from_slice(&[
        196, 24, 130, 164, 78, 97, 109, 101, 164, 65, 122, 109, 121, 163, 65, 103, 101, 203, 64,
        66, 0, 0, 0, 0, 0, 0,
    ]);
    data.extend_from_slice(&[162, 73, 68]); // "ID"
    data.extend_from_slice(&[165, 109, 121, 45, 105, 100]);
    let decoded = decode_request(&data).expect("reordered fields must decode");
    assert_eq!(decoded, golden_request());
}

#[test]
fn positional_request_is_rejected() {
    // The same data laid out positionally: an array of the five field
    // values, with no field names.
    let mut data: Vec<u8> = vec![149]; // an array of five elements
    data.extend_from_slice(&[165, 109, 121, 45, 105, 100]); // "my-id"
    data.extend_from_slice(&[146, 196, 5, 164, 97, 114, 103, 49]);
    data.extend_from_slice(&[
        196, 24, 130, 164, 78, 97, 109, 101, 164, 65, 122, 109, 121, 163, 65, 103, 101, 203, 64,
        66, 0, 0, 0, 0, 0, 0,
    ]);
    data.extend_from_slice(&[
        130, 164, 78, 97, 109, 101, 166, 111, 98, 106, 101, 99, 116, 167, 86, 101, 114, 115, 105,
        111, 110, 163, 49, 46, 48,
    ]);
    data.extend_from_slice(&[160]);
    data.extend_from_slice(&[171, 68, 111, 83, 111, 109, 101, 116, 104, 105, 110, 103]);
    let decoded = decode_request(&data);
    assert!(matches!(decoded, Err(ZBusError::DecodingError(_))));
}

#[test]
fn request_with_duplicate_field_is_rejected() {
    // A two-field map carrying "ReplyTo" twice.
    let mut data: Vec<u8> = vec![130];
    data.extend_from_slice(&[167, 82, 101, 112, 108, 121, 84, 111, 160]);
    data.extend_from_slice(&[167, 82, 101, 112, 108, 121, 84, 111, 160]);
    assert!(decode_request(&data).is_err());
}

#[test]
fn request_with_trailing_bytes_is_rejected() {
    let mut data = golden_request_bytes();
    data.push(0);
    assert!(decode_request(&data).is_err());
}

#[test]
fn response_roundtrip() {
    let response = Response::new(
        Id::from_string("my-id".to_string()),
        vec![vec![1, 2, 3], vec![]],
        "".to_string(),
    );
    let encoded = encode_response(&response).expect("failed to encode response");
    let decoded = decode_response(&encoded).expect("failed to decode response");
    assert_eq!(decoded, response);
}

#[test]
fn response_with_error_roundtrip() {
    let response = Response::new(
        Id::from_string("my-id".to_string()),
        vec![],
        "object not found".to_string(),
    );
    let encoded = encode_response(&response).expect("failed to encode response");
    let decoded = decode_response(&encoded).expect("failed to decode response");
    assert_eq!(decoded, response);
    assert_eq!(decoded.error, "object not found");
}

#[test]
fn response_wire_form_is_lowercase_keyed() {
    let response = Response::new(Id::from_string("x".to_string()), vec![], "".to_string());
    let encoded = encode_response(&response).expect("failed to encode response");
    // a three-field map: "id" "x", "arguments" [], "error" ""
    assert_eq!(
        encoded,
        vec![131, 162, 105, 100, 161, 120, 169, 97, 114, 103, 117, 109, 101, 110, 116, 115, 144, 165, 101, 114, 114, 111, 114, 160]
    );
}

#[test]
fn event_roundtrip() {
    let encoded = encode_event(&Event {});
    assert_eq!(encoded, vec![128]);
    let decoded = decode_event(&encoded).expect("failed to decode event");
    assert_eq!(decoded, Event {});
}

#[test]
fn malformed_bytes_give_decoding_error() {
    let garbage = vec![1, 2, 3];
    assert!(matches!(
        decode_request(&garbage),
        Err(ZBusError::DecodingError(_))
    ));
    assert!(matches!(
        decode_response(&garbage),
        Err(ZBusError::DecodingError(_))
    ));
    assert!(matches!(
        decode_event(&garbage),
        Err(ZBusError::DecodingError(_))
    ));
    assert!(decode_request(&[]).is_err());
}

#[test]
fn object_id_to_string_forms() {
    assert_eq!(ObjectID::new("object", "1.0").to_string(), "object@1.0");
    assert_eq!(ObjectID::new("object", "").to_string(), "object");
    assert_eq!(ObjectID::new("", "1.0").to_string(), "@1.0");
}

#[test]
fn object_id_parse_roundtrip() {
    let o = ObjectID::new("object", "1.0");
    assert_eq!(ObjectID::parse(&o.to_string()).expect("must parse"), o);
    let bare = ObjectID::new("object", "");
    assert_eq!(ObjectID::parse(&bare.to_string()).expect("must parse"), bare);
}

#[test]
fn object_id_parse_rejects_extra_separator() {
    assert!(matches!(
        ObjectID::parse("a@b@c"),
        Err(FormatError::TooManyParts)
    ));
    assert!(matches!(
        ObjectID::parse("@@"),
        Err(FormatError::TooManyParts)
    ));
}

#[test]
fn object_id_parse_accepts_empty_name() {
    // A leading separator is accepted: the name is empty.
    let o = ObjectID::parse("@1.0").expect("must parse");
    assert_eq!(o, ObjectID::new("", "1.0"));
    let empty = ObjectID::parse("").expect("must parse");
    assert_eq!(empty, ObjectID::new("", ""));
}

#[test]
fn error_messages_name_the_failure() {
    assert_eq!(
        ZBusError::TransportError("connection refused".to_string()).message(),
        "Transport error: connection refused"
    );
    assert_eq!(
        ZBusError::EncodingError("too long".to_string()).message(),
        "Encoding error: too long"
    );
    let garbage = vec![1, 2, 3];
    let e = decode_request(&garbage).expect_err("garbage must not decode");
    assert!(e.message().starts_with("Decoding error: "));
    assert_eq!(ZBusError::Void.message(), "Void error");
}

#[test]
fn identifier_roundtrip_and_uniqueness() {
    let id = Id::new();
    assert_eq!(Id::from_string(id.to_string()), id);
    assert_eq!(id.to_string().len(), 36);
    let other = Id::new();
    assert_ne!(id, other);
}
