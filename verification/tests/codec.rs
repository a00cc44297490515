//! Tests of the JSON wire format: round trips, escaping, whitespace, error
//! cases, and a cross-check of the encoder's output against an independent
//! JSON parser.

use mug_bancha::codec::{
    decode_ephemeral_mug, decode_message, decode_mug, decode_mugs, decode_unit, encode_message,
    encode_mug, encode_mugs, DecodeErr,
};
use mug_bancha::error::PipelineError;
use mug_bancha::message::Message;
use mug_bancha::mugs::Mug;

fn exotic_mug() -> Mug {
    Mug {
        id: -2578664604024157846,
        name: String::from("Fo\"o\\ bar\nbaz\tqux\u{1}"),
        lat: String::from("54.0"),
        lon: String::from("-1.0e2"),
        address: String::from("Stockton-on-the-Forest, York YO32 9WB, United Kingdom"),
        num_mugs: 1,
    }
}

#[test]
fn mug_json_round_trip() {
    let m = exotic_mug();
    let text = encode_mug(&m);
    let back = decode_mug(&text).unwrap();
    assert_eq!(back, m);
}

#[test]
fn mug_list_round_trip() {
    let mugs = vec![
        exotic_mug(),
        Mug {
            id: 4,
            name: String::from("Foo"),
            lat: String::from("51.0"),
            lon: String::from("17.0"),
            address: String::from("14 Bar, Baz 2222, Fooland"),
            num_mugs: 2,
        },
    ];
    let text = encode_mugs(&mugs);
    let back = decode_mugs(&text).unwrap();
    assert_eq!(back, mugs);
}

#[test]
fn message_round_trip() {
    let m = Message::from("Invalid request payload: expected \"value\"");
    let text = encode_message(&m);
    let back = decode_message(&text).unwrap();
    assert_eq!(back, m);
}

#[test]
fn decode_tolerates_whitespace() {
    let text = " {\n \"id\" : 4 ,\t\"name\" : \"Foo\" , \"lat\" : 51.0 , \"lon\" : 17.0 , \"address\" : \"14 Bar Street\" , \"num_mugs\" : 2 } \n";
    let m = decode_mug(text).unwrap();
    assert_eq!(m.id, 4);
    assert_eq!(m.name, "Foo");
    assert_eq!(m.lat, "51.0");
    assert_eq!(m.num_mugs, 2);
}

#[test]
fn decode_string_escapes() {
    let text = r#"{"name":"A\"B\\C\/\n\t\r\b\fA\u001f","lat":0,"lon":0,"address":"x","num_mugs":0}"#;
    let m = decode_ephemeral_mug(text).unwrap();
    assert_eq!(m.name, "A\"B\\C/\n\t\r\u{8}\u{c}A\u{1f}");
}

#[test]
fn decode_unit_accepts_null_only() {
    decode_unit("null").unwrap();
    decode_unit("  null  ").unwrap();
    assert!(decode_unit("").is_err());
    assert!(decode_unit("nul").is_err());
    assert!(decode_unit("null x").is_err());
    assert!(decode_unit("5").is_err());
}

#[test]
fn decode_error_variants() {
    let ok = r#"{"id":4,"name":"Foo","lat":51.0,"lon":17.0,"address":"a","num_mugs":2}"#;
    decode_mug(ok).unwrap();

    let trailing = format!("{} x", ok);
    assert!(matches!(decode_mug(&trailing), Err(DecodeErr::TrailingChars)));

    let bad_number = r#"{"id":4,"name":"Foo","lat":01,"lon":17.0,"address":"a","num_mugs":2}"#;
    assert!(decode_mug(bad_number).is_err());

    let frac_id = r#"{"id":4.5,"name":"Foo","lat":51.0,"lon":17.0,"address":"a","num_mugs":2}"#;
    assert!(matches!(decode_mug(frac_id), Err(DecodeErr::NotAnInteger)));

    let big_id = r#"{"id":9223372036854775808,"name":"Foo","lat":51.0,"lon":17.0,"address":"a","num_mugs":2}"#;
    assert!(matches!(decode_mug(big_id), Err(DecodeErr::IntOutOfRange)));

    let min_id = r#"{"id":-9223372036854775808,"name":"Foo","lat":51.0,"lon":17.0,"address":"a","num_mugs":2}"#;
    assert_eq!(decode_mug(min_id).unwrap().id, i64::MIN);

    let neg_count = r#"{"name":"Foo","lat":51.0,"lon":17.0,"address":"a","num_mugs":-2}"#;
    assert!(matches!(
        decode_ephemeral_mug(neg_count),
        Err(DecodeErr::IntOutOfRange)
    ));

    let unknown_key = r#"{"id":4,"colour":"red","name":"Foo","lat":51.0,"lon":17.0,"address":"a","num_mugs":2}"#;
    assert!(matches!(decode_mug(unknown_key), Err(DecodeErr::UnexpectedToken)));

    let unterminated = r#"{"id":4,"name":"Foo"#;
    assert!(decode_mug(unterminated).is_err());

    let bad_escape = r#"{"name":"\q","lat":0,"lon":0,"address":"x","num_mugs":0}"#;
    assert!(matches!(
        decode_ephemeral_mug(bad_escape),
        Err(DecodeErr::BadString)
    ));
}

#[test]
fn encoder_output_is_json() {
    let m = exotic_mug();
    let text = encode_mug(&m);
    let value: serde_json::Value = serde_json::from_str(&text).unwrap();
    assert_eq!(value["id"].as_i64().unwrap(), m.id);
    assert_eq!(value["name"].as_str().unwrap(), m.name);
    assert_eq!(value["lat"].as_f64().unwrap(), 54.0);
    assert_eq!(value["lon"].as_f64().unwrap(), -100.0);
    assert_eq!(value["address"].as_str().unwrap(), m.address);
    assert_eq!(value["num_mugs"].as_u64().unwrap(), 1);

    let list = encode_mugs(&vec![m]);
    let value: serde_json::Value = serde_json::from_str(&list).unwrap();
    assert_eq!(value.as_array().unwrap().len(), 1);
}

#[test]
fn statuses_and_descriptions() {
    let invalid = PipelineError::InvalidPayload(String::from("boom"));
    assert_eq!(invalid.http_status(), 400);
    assert_eq!(invalid.describe(), "Invalid request payload: boom");

    let io = PipelineError::InternalIoError(String::from("pipe"));
    assert_eq!(io.http_status(), 500);
    assert_eq!(io.describe(), "Internal IO error: pipe");

    assert_eq!(PipelineError::CannotFulfil.http_status(), 500);
    assert_eq!(PipelineError::CannotFulfil.describe(), "Cannot fulfil request");

    let missing = PipelineError::NotFound(String::from("Mug does not exist"));
    assert_eq!(missing.http_status(), 404);
    assert_eq!(missing.describe(), "Not found: Mug does not exist");
}

#[test]
fn malformed_body_rejected_with_diagnostics() {
    let mut storage = mug_bancha::storage::TestStorage::new();
    let response = mug_bancha::route::handle_request(
        &mut storage,
        "/1/mugs",
        mug_bancha::route::Method::Put,
        b"{not json",
    );
    assert_eq!(response.status, 400);
    let msg = decode_message(&response.body).unwrap();
    assert!(msg.message.starts_with("Invalid request payload: "));

    let response = mug_bancha::route::handle_request(
        &mut storage,
        "/1/echo",
        mug_bancha::route::Method::Get,
        b"\xff\xfe",
    );
    assert_eq!(response.status, 400);
    let msg = decode_message(&response.body).unwrap();
    assert!(msg.message.contains("UTF-8"));
}

#[test]
fn echo_rejects_non_null_body() {
    let mut storage = mug_bancha::storage::TestStorage::new();
    let response = mug_bancha::route::handle_request(
        &mut storage,
        "/1/echo",
        mug_bancha::route::Method::Get,
        b"5",
    );
    assert_eq!(response.status, 400);
}

#[test]
fn patch_rejects_empty_body() {
    let mut storage = mug_bancha::storage::TestStorage::new();
    let response = mug_bancha::route::handle_request(
        &mut storage,
        "/1/mugs",
        mug_bancha::route::Method::Patch,
        b"",
    );
    assert_eq!(response.status, 400);
    let msg = decode_message(&response.body).unwrap();
    assert!(msg.message.starts_with("Invalid request payload: "));
}

#[test]
fn decode_accepts_any_key_order() {
    let text = r#"{"num_mugs":2,"address":"14 Bar Street","lon":17.0,"lat":51.0,"name":"Foo"}"#;
    let m = decode_ephemeral_mug(text).unwrap();
    assert_eq!(m.name, "Foo");
    assert_eq!(m.lat, "51.0");
    assert_eq!(m.lon, "17.0");
    assert_eq!(m.address, "14 Bar Street");
    assert_eq!(m.num_mugs, 2);

    let text = r#"{"lat":51.0,"id":4,"lon":17.0,"name":"Foo","num_mugs":2,"address":"a"}"#;
    let m = decode_mug(text).unwrap();
    assert_eq!(m.id, 4);
    assert_eq!(m.name, "Foo");

    let dup = r#"{"name":"Foo","name":"Bar","lat":0,"lon":0,"address":"a","num_mugs":2}"#;
    assert!(matches!(
        decode_ephemeral_mug(dup),
        Err(DecodeErr::DuplicateField)
    ));

    let missing = r#"{"name":"Foo","lat":0,"lon":0,"num_mugs":2}"#;
    assert!(matches!(
        decode_ephemeral_mug(missing),
        Err(DecodeErr::MissingField)
    ));
}

#[test]
fn decode_unicode_escapes() {
    let text = r#"{"name":"Aé€😀","lat":0,"lon":0,"address":"x","num_mugs":0}"#;
    let m = decode_ephemeral_mug(text).unwrap();
    assert_eq!(m.name, "A\u{e9}\u{20ac}\u{1f600}");

    let lone_high = r#"{"name":"\ud83d","lat":0,"lon":0,"address":"x","num_mugs":0}"#;
    assert!(matches!(
        decode_ephemeral_mug(lone_high),
        Err(DecodeErr::BadString)
    ));

    let lone_low = r#"{"name":"\ude00","lat":0,"lon":0,"address":"x","num_mugs":0}"#;
    assert!(matches!(
        decode_ephemeral_mug(lone_low),
        Err(DecodeErr::BadString)
    ));
}

#[test]
fn put_accepts_reordered_payload() {
    let mut storage = mug_bancha::storage::TestStorage::new();
    let payload = r#"{"address":"14 Bar Street","num_mugs":2,"name":"Foo","lon":17.0,"lat":51.0}"#;
    let response = mug_bancha::route::handle_request(
        &mut storage,
        "/1/mugs",
        mug_bancha::route::Method::Put,
        payload.as_bytes(),
    );
    assert_eq!(response.status, 200);
    let stored = decode_mug(&response.body).unwrap();
    assert_eq!(stored.name, "Foo");
    assert_eq!(stored.lat, "51.0");
}
