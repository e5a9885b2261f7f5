use zbus::client::channel_name;
use zbus::client::prepare_request;
use zbus::client::queue_name;
use zbus::client::subscriber_step;
use zbus::client::StreamStep;
use zbus::codec::decode_request;
use zbus::codec::encode_event;
use zbus::Event;
use zbus::ObjectID;
use zbus::ZBusError;

#[test]
fn queue_name_follows_the_convention() {
    let object = ObjectID::new("object", "1.0");
    assert_eq!(queue_name("object", &object), "object.object@1.0");
    let bare = ObjectID::new("calculator", "");
    assert_eq!(queue_name("utils", &bare), "utils.calculator");
}

#[test]
fn channel_name_follows_the_convention() {
    let object = ObjectID::new("object", "1.0");
    assert_eq!(channel_name("object", &object, "changed"), "object.object@1.0.changed");
}

#[test]
fn prepared_request_addresses_the_object_queue() {
    let object = ObjectID::new("object", "1.0");
    let args = vec![
        vec![164, 97, 114, 103, 49],
        vec![
            130, 164, 78, 97, 109, 101, 164, 65, 122, 109, 121, 163, 65, 103, 101, 203, 64, 66, 0,
            0, 0, 0, 0, 0,
        ],
    ];
    let prepared = prepare_request("object", object, "DoSomething", args.clone())
        .expect("must encode");
    assert_eq!(prepared.queue, "object.object@1.0");
    assert_eq!(prepared.reply_queue.len(), 36);

    // The payload is the encoded request, correlated by the fresh
    // identifier, which also names the reply queue.
    let request = decode_request(&prepared.payload).expect("payload must decode");
    assert_eq!(request.id.to_string(), prepared.reply_queue);
    assert_eq!(request.reply_to.to_string(), prepared.reply_queue);
    assert_eq!(request.method, "DoSomething");
    assert_eq!(request.arguments, args);
    assert_eq!(request.object, ObjectID::new("object", "1.0"));
}

#[test]
fn concurrent_requests_share_the_queue_but_not_the_reply_queue() {
    let prepared_a = prepare_request("object", ObjectID::new("object", "1.0"), "DoSomething", vec![])
        .expect("must encode");
    let prepared_b = prepare_request("object", ObjectID::new("object", "1.0"), "DoSomething", vec![])
        .expect("must encode");
    // Both requests travel on the one queue derived from the module
    // and the object ...
    assert_eq!(prepared_a.queue, prepared_b.queue);
    // ... but each is answered on its own reply queue, so neither can
    // receive the other's response.
    assert_ne!(prepared_a.reply_queue, prepared_b.reply_queue);
    let request_a = decode_request(&prepared_a.payload).expect("payload must decode");
    let request_b = decode_request(&prepared_b.payload).expect("payload must decode");
    assert_eq!(request_a.id.to_string(), prepared_a.reply_queue);
    assert_eq!(request_b.id.to_string(), prepared_b.reply_queue);
}

#[test]
fn subscription_ends_without_error_when_the_channel_closes() {
    assert!(matches!(subscriber_step(None), StreamStep::Finished));
}

#[test]
fn subscription_yields_decoded_events() {
    let payload = encode_event(&Event {});
    assert!(matches!(subscriber_step(Some(payload)), StreamStep::Item(_)));
}

#[test]
fn subscription_ends_with_error_on_a_malformed_payload() {
    let step = subscriber_step(Some(vec![1, 2, 3]));
    assert!(matches!(step, StreamStep::Failed(ZBusError::DecodingError(_))));
}
