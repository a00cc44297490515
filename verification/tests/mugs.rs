//! Tests of the storage backends and of the service properties: fresh id
//! assignment, uniqueness across many inserts, and failure behaviour on
//! unknown ids.

use mug_bancha::codec::{decode_message, decode_mug, decode_mugs, encode_mug};
use mug_bancha::error::PipelineError;
use mug_bancha::mugs::{EphemeralMug, Mug, Storage};
use mug_bancha::route::{handle_request, Method};
use mug_bancha::storage::{Storage as StorageContract, TestStorage};

fn foo_payload() -> EphemeralMug {
    EphemeralMug {
        name: String::from("Foo"),
        lat: String::from("51.0"),
        lon: String::from("17.0"),
        address: String::from("14 Bar Street"),
        num_mugs: 2,
    }
}

fn init_storage() -> Storage {
    let mut storage = Storage::init();

    storage.insert(foo_payload()).unwrap();

    storage
}

#[test]
fn mugs_lists_mugs() {
    init_storage();
}

#[test]
fn insert_returns_input_fields_with_fresh_id() {
    let mut storage = Storage::init();
    let first = storage.insert(foo_payload()).unwrap();
    assert_eq!(first, foo_payload());

    let second = storage
        .insert(EphemeralMug {
            name: String::from("Bar"),
            lat: String::from("1.5"),
            lon: String::from("-2.25"),
            address: String::from("2 Baz Lane"),
            num_mugs: 9,
        })
        .unwrap();
    assert_eq!(second.name, "Bar");
    assert_eq!(second.lat, "1.5");
    assert_eq!(second.lon, "-2.25");
    assert_eq!(second.address, "2 Baz Lane");
    assert_eq!(second.num_mugs, 9);
    assert_ne!(second.id, first.id);
}

#[test]
fn insert_many_distinct_ids() {
    let mut storage = Storage::init();
    let mut ids: Vec<i64> = Vec::new();
    let mut i: usize = 0;
    while i < 40 {
        let m = storage.insert(foo_payload()).unwrap();
        assert!(!ids.contains(&m.id));
        ids.push(m.id);
        i += 1;
    }
    let listed = storage.select_all().unwrap();
    assert_eq!(listed.len(), 40);
}

#[test]
fn insert_with_id_rejects_collision() {
    let mut storage = Storage::init();
    let payload = foo_payload();
    let stored = storage.insert_with_id(&payload, 42).unwrap();
    assert_eq!(stored.id, 42);
    assert!(storage.insert_with_id(&payload, 42).is_none());
    assert!(storage.insert_with_id(&payload, 43).is_some());
}

#[test]
fn update_unknown_id_not_found() {
    let mut storage = init_storage();
    let listed_before = storage.select_all().unwrap();
    let known = listed_before[0].id;
    let unknown = if known == 7 { 8 } else { 7 };
    let err = storage
        .update(Mug {
            id: unknown,
            name: String::from("Nobody"),
            lat: String::from("0"),
            lon: String::from("0"),
            address: String::from("Nowhere"),
            num_mugs: 0,
        })
        .unwrap_err();
    assert!(matches!(err, PipelineError::NotFound(_)));
    let listed_after = storage.select_all().unwrap();
    assert_eq!(listed_before, listed_after);
}

#[test]
fn update_known_id_replaces_record() {
    let mut storage = init_storage();
    let id = storage.select_all().unwrap()[0].id;
    let replacement = Mug {
        id,
        name: String::from("New Name"),
        lat: String::from("8.125"),
        lon: String::from("-0.5"),
        address: String::from("New Address"),
        num_mugs: 11,
    };
    let returned = storage.update(replacement.clone()).unwrap();
    assert_eq!(returned, replacement);
    let listed = storage.select_all().unwrap();
    assert_eq!(listed, vec![replacement]);
}

#[test]
fn delete_unknown_id_fails_without_mutating() {
    let mut storage = init_storage();
    let listed_before = storage.select_all().unwrap();
    let known = listed_before[0].id;
    let unknown = if known == 5 { 6 } else { 5 };
    let err = storage.delete(foo_mug(unknown)).unwrap_err();
    assert!(matches!(err, PipelineError::NotFound(_)));
    assert_eq!(storage.select_all().unwrap(), listed_before);
}

#[test]
fn delete_known_id_removes_exactly_that_record() {
    let mut storage = init_storage();
    let second = storage
        .insert(EphemeralMug {
            name: String::from("Bar"),
            lat: String::from("2"),
            lon: String::from("3"),
            address: String::from("Elsewhere"),
            num_mugs: 1,
        })
        .unwrap();
    let first_id = storage.select_all().unwrap()[0].id;
    storage.delete(foo_mug(first_id)).unwrap();
    let listed = storage.select_all().unwrap();
    assert_eq!(listed, vec![second]);
}

#[test]
fn patch_unknown_id_gives_internal_failure() {
    let mut storage = TestStorage::new();
    storage.insert_mug(foo_payload()).unwrap();
    let known = {
        let response = handle_request(&mut storage, "/1/mugs", Method::Get, b"");
        decode_mugs(&response.body).unwrap()[0].id
    };
    let unknown = if known == 9 { 10 } else { 9 };
    let payload = encode_mug(&foo_mug(unknown));
    let response = handle_request(&mut storage, "/1/mugs", Method::Patch, payload.as_bytes());
    assert_eq!(response.status, 500);
    let msg = decode_message(&response.body).unwrap();
    assert_eq!(msg.message, "Cannot fulfil request");
}

#[test]
fn insert_scenario_via_put() {
    let mut storage = TestStorage::new();
    let payload = r#"{"name":"Foo","lat":51.0,"lon":17.0,"address":"14 Bar Street","num_mugs":2}"#;
    let response = handle_request(&mut storage, "/1/mugs", Method::Put, payload.as_bytes());
    assert_eq!(response.status, 200);
    let stored = decode_mug(&response.body).unwrap();
    assert_eq!(stored, foo_payload());

    let response = handle_request(&mut storage, "/1/mugs", Method::Get, b"");
    assert_eq!(response.status, 200);
    let listed = decode_mugs(&response.body).unwrap();
    assert_eq!(listed, vec![foo_payload()]);
    assert_eq!(listed[0].id, stored.id);
}

#[test]
fn lists_empty_as_empty_array() {
    let mut storage = TestStorage::new();
    let response = handle_request(&mut storage, "/1/mugs", Method::Get, b"");
    assert_eq!(response.status, 200);
    assert_eq!(response.body, "[]");
}

#[test]
fn method_not_allowed_on_known_path() {
    let mut storage = TestStorage::new();
    let response = handle_request(&mut storage, "/1/echo", Method::Put, b"");
    assert_eq!(response.status, 405);
    let msg = decode_message(&response.body).unwrap();
    assert_eq!(msg.message, "Method not allowed");

    let response = handle_request(&mut storage, "/1/mugs", Method::Other, b"");
    assert_eq!(response.status, 405);
}

fn foo_mug(id: i64) -> Mug {
    Mug {
        id,
        name: String::from("Foo"),
        lat: String::from("51.0"),
        lon: String::from("17.0"),
        address: String::from("14 Bar Street"),
        num_mugs: 2,
    }
}
