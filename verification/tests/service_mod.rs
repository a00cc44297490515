//! A second round of service-level tests, mirroring the dispatch checks of
//! the router on a storage seeded through the concrete store.

use mug_bancha::codec::{decode_message, decode_mug, decode_mugs, encode_mug};
use mug_bancha::message::Message;
use mug_bancha::mugs::{EphemeralMug, Mug};
use mug_bancha::route::{handle_request, Method, Response};
use mug_bancha::storage::{Storage, TestStorage};

fn init_storage() -> TestStorage {
    let mut storage = TestStorage::new();

    storage
        .insert_mug(EphemeralMug {
            name: String::from("Foo"),
            lat: String::from("51.0"),
            lon: String::from("17.0"),
            address: String::from("14 Bar Street"),
            num_mugs: 2,
        })
        .unwrap();

    storage
}

fn handle(storage: &mut TestStorage, method: Method, path: &str, body: &[u8]) -> Response {
    handle_request(storage, path, method, body)
}

#[test]
fn mod_echoes() {
    let mut storage = TestStorage::new();

    let response = handle(&mut storage, Method::Get, "/1/echo", b"");

    assert_eq!(response.status, 200);
    let result = decode_message(&response.body).unwrap();
    assert_eq!(result, Message::from("mug-bancha says hello!"));
}

#[test]
fn mod_lists_mugs() {
    let mut storage = init_storage();

    let response = handle(&mut storage, Method::Get, "/1/mugs", b"");

    assert_eq!(response.status, 200);
    let result: Vec<Mug> = decode_mugs(&response.body).unwrap();
    assert_eq!(
        result,
        vec![EphemeralMug {
            name: String::from("Foo"),
            lat: String::from("51.0"),
            lon: String::from("17.0"),
            address: String::from("14 Bar Street"),
            num_mugs: 2,
        }]
    );
}

#[test]
fn mod_inserts_mug() {
    let mut storage = init_storage();

    let payload = r#"{"name":"Point","lat":-39.0,"lon":-67.0,"address":"Real Address","num_mugs":4}"#;
    let response = handle(&mut storage, Method::Put, "/1/mugs", payload.as_bytes());

    assert_eq!(response.status, 200);
    let result = decode_mug(&response.body).unwrap();
    assert_eq!(
        result,
        EphemeralMug {
            name: String::from("Point"),
            lat: String::from("-39.0"),
            lon: String::from("-67.0"),
            address: String::from("Real Address"),
            num_mugs: 4,
        }
    );

    let response = handle(&mut storage, Method::Get, "/1/mugs", b"");

    assert_eq!(response.status, 200);
    let result: Vec<Mug> = decode_mugs(&response.body).unwrap();
    assert_eq!(
        result,
        vec![
            EphemeralMug {
                name: String::from("Foo"),
                lat: String::from("51.0"),
                lon: String::from("17.0"),
                address: String::from("14 Bar Street"),
                num_mugs: 2,
            },
            EphemeralMug {
                name: String::from("Point"),
                lat: String::from("-39.0"),
                lon: String::from("-67.0"),
                address: String::from("Real Address"),
                num_mugs: 4,
            },
        ]
    );
}

#[test]
fn mod_updates_mug() {
    let mut storage = init_storage();

    let response = handle(&mut storage, Method::Get, "/1/mugs", b"");

    assert_eq!(response.status, 200);
    let result: Vec<Mug> = decode_mugs(&response.body).unwrap();
    assert_eq!(
        result,
        vec![EphemeralMug {
            name: String::from("Foo"),
            lat: String::from("51.0"),
            lon: String::from("17.0"),
            address: String::from("14 Bar Street"),
            num_mugs: 2,
        }]
    );

    let id = result[0].id;

    let payload = encode_mug(&Mug {
        id,
        name: String::from("Foo Baz"),
        lat: String::from("52.01"),
        lon: String::from("16.93"),
        address: String::from("14 Bar Street"),
        num_mugs: 3,
    });
    let response = handle(&mut storage, Method::Patch, "/1/mugs", payload.as_bytes());

    assert_eq!(response.status, 200);
    let result = decode_mug(&response.body).unwrap();
    assert_eq!(
        result,
        Mug {
            id,
            name: String::from("Foo Baz"),
            lat: String::from("52.01"),
            lon: String::from("16.93"),
            address: String::from("14 Bar Street"),
            num_mugs: 3,
        }
    );

    let response = handle(&mut storage, Method::Get, "/1/mugs", b"");

    assert_eq!(response.status, 200);
    let result: Vec<Mug> = decode_mugs(&response.body).unwrap();
    assert_eq!(
        result,
        vec![EphemeralMug {
            name: String::from("Foo Baz"),
            lat: String::from("52.01"),
            lon: String::from("16.93"),
            address: String::from("14 Bar Street"),
            num_mugs: 3,
        }]
    );
}

#[test]
fn mod_invalid_path() {
    let mut storage = TestStorage::new();

    let response = handle(&mut storage, Method::Get, "/echo", b"");

    assert_eq!(response.status, 404);
    let result = decode_message(&response.body).unwrap();
    assert_eq!(result, Message::from("Not found"));
}
